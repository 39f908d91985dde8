//! What coercion and defaults do to the text of a document.
use crate::cst::document::{
    appended, source_root, value_lead, value_range, with_entry, with_value,
};
use crate::scanner::cursor::MAX_INPUT;
use crate::schema::coerce::{
    canonical_any, coerced, defaults_filled, dotted, items_coerced, properties_coerced, Coerced,
    CoercionView, Filled, InsertionView,
};
use crate::schema::model::{JsonType, SchemaView};
use crate::text::text;
use vstd::prelude::*;
use vstd::utf8::encode_utf8;

verus! {

/// A value that is written needs nothing in front of it.
proof fn lemma_written_value(source: Seq<char>, path: Seq<char>, lo: int, hi: int)
    requires
        value_range(source, path) == Some((lo, hi)),
        text(encode_utf8(source), lo, hi).len() > 0,
    ensures
        value_lead(source, path).len() == 0,
{
    reveal_strlit("");
    let b = encode_utf8(source);
    let events = crate::cst::document::source_stream(source).events;
    let i = crate::cst::path::path_node(events, path)->0;
    if crate::cst::place::is_missing(events[i]) {
        assert(crate::cst::place::trimmed_end(b, lo, lo) == lo);
        assert(lo == hi);
        if 0 <= lo {
            assert(b.subrange(lo, lo) =~= Seq::<u8>::empty());
        }
        assert(text(b, lo, hi).len() == 0);
    }
}

/// A value under a schema with types, and without properties or items, that can be coerced
/// is replaced by its coerced text: everything in front of it and behind it stays, and the
/// change is reported with the old text and the new one.
pub proof fn law_value_is_coerced(
    c: Coerced,
    s: SchemaView,
    types: Seq<JsonType>,
    path: Seq<char>,
    lo: int,
    hi: int,
    to: Seq<char>,
)
    requires
        s.properties.len() == 0,
        s.items is None,
        s.types == Some(types),
        path.len() > 0,
        value_range(c.source, path) == Some((lo, hi)),
        text(encode_utf8(c.source), lo, hi).len() > 0,
        canonical_any(text(encode_utf8(c.source), lo, hi), types, 0) == Some(to),
        to.len() > 0,
        ({
            let b = encode_utf8(c.source);
            encode_utf8(text(b, 0, lo) + to + text(b, hi, b.len() as int)).len() <= MAX_INPUT
        }),
    ensures
        ({
            let b = encode_utf8(c.source);
            let from = text(b, lo, hi);
            let d = coerced(c, s, path);
            if to == from {
                d == c
            } else {
                &&& d.source == text(b, 0, lo) + to + text(b, hi, b.len() as int)
                &&& d.changes == c.changes.push(CoercionView { path, from, to })
            }
        }),
{
    lemma_written_value(c.source, path, lo, hi);
    assert(value_lead(c.source, path) + to =~= to);
    assert(with_value(c.source, path, to) is Some);
}

/// A value that cannot be coerced stays, and nothing is reported for it; neither is
/// anything done where the path denotes nothing.
pub proof fn law_other_values_stay(c: Coerced, s: SchemaView, path: Seq<char>)
    requires
        s.properties.len() == 0,
        s.items is None,
        s.types matches Some(types) ==> (value_range(c.source, path) matches Some((lo, hi))
            ==> canonical_any(text(encode_utf8(c.source), lo, hi), types, 0) is None),
    ensures
        coerced(c, s, path) == c,
{
}

/// Properties are coerced one after the other, each against its own schema and under its
/// own name.
pub proof fn law_properties_are_coerced_in_turn(
    c: Coerced,
    s: SchemaView,
    t: SchemaView,
    name: Seq<char>,
    sub: SchemaView,
    path: Seq<char>,
)
    requires
        s.properties.len() > 0,
        t.properties == s.properties.push((name, sub)),
    ensures
        coerced(c, t, path) == coerced(
            coerced(c, s, path),
            sub,
            if path.len() == 0 {
                name
            } else {
                path + seq!['.'] + name
            },
        ),
{
    let k = s.properties.len();
    lemma_properties_before(c, s.properties, (name, sub), k, path);
    assert(t.properties[k as int] == (name, sub));
    reveal_strlit(".");
    assert("."@ =~= seq!['.']);
}

/// One property alone.
pub proof fn law_property_is_coerced(
    c: Coerced,
    t: SchemaView,
    name: Seq<char>,
    sub: SchemaView,
    path: Seq<char>,
)
    requires
        t.properties == seq![(name, sub)],
    ensures
        coerced(c, t, path) == coerced(
            c,
            sub,
            if path.len() == 0 {
                name
            } else {
                path + seq!['.'] + name
            },
        ),
{
    assert(t.properties[0] == (name, sub));
    assert(properties_coerced(c, t.properties, 0, path) == c);
    reveal_strlit(".");
    assert("."@ =~= seq!['.']);
}

proof fn lemma_properties_before(
    c: Coerced,
    properties: Seq<(Seq<char>, SchemaView)>,
    one: (Seq<char>, SchemaView),
    k: nat,
    path: Seq<char>,
)
    requires
        k <= properties.len(),
    ensures
        properties_coerced(c, properties.push(one), k, path) == properties_coerced(
            c,
            properties,
            k,
            path,
        ),
    decreases k,
{
    if k > 0 {
        lemma_properties_before(c, properties, one, (k - 1) as nat, path);
        assert(properties.push(one)[k - 1] == properties[k - 1]);
    }
}

/// The items of a sequence are coerced from the first on, each against the schema for
/// items, up to the first that does not exist.
pub proof fn law_items_are_coerced_in_turn(c: Coerced, s: SchemaView, sub: SchemaView, path: Seq<char>)
    requires
        s.properties.len() == 0,
        s.items == Some(Box::new(sub)),
    ensures
        coerced(c, s, path) == items_coerced(c, sub, path, 0),
        forall|i: int|
            #![trigger items_coerced(c, sub, path, i)]
            0 <= i < MAX_INPUT ==> items_coerced(c, sub, path, i) == ({
                let item = if path.len() == 0 {
                    crate::text::decimal(i as nat)
                } else {
                    path + seq!['.'] + crate::text::decimal(i as nat)
                };
                if value_range(c.source, item) is None {
                    c
                } else {
                    items_coerced(coerced(c, sub, item), sub, path, i + 1)
                }
            }),
{
    reveal_strlit(".");
    assert("."@ =~= seq!['.']);
}

/// The default of a property that the root lacks is appended as an entry on a line of its
/// own, and reported; one that the root has stays as it is.
pub proof fn law_default_of_the_root(f: Filled, name: Seq<char>, sub: SchemaView, value: Seq<char>)
    requires
        sub.default == Some(value),
    ensures
        ({
            let g = defaults_filled(f, seq![(name, sub)], 1, seq![]);
            let lines = if f.source.len() > 0 && f.source.last() != '\n' {
                f.source + seq!['\n']
            } else {
                f.source
            };
            let more = lines + name + seq![':', ' '] + value + seq!['\n'];
            &&& value_range(f.source, name) is Some ==> g == f
            &&& source_root(f.source) is Other ==> g == f
            &&& value_range(f.source, name) is None && !(source_root(f.source) is Other)
                && encode_utf8(more).len() <= MAX_INPUT ==> g.source == more && g.inserted
                == f.inserted.push(InsertionView { path: name, value })
        }),
{
    let one = seq![(name, sub)];
    let none = Seq::<char>::empty();
    assert(one[0] == (name, sub));
    assert(defaults_filled(f, one, 0, none) == f);
    assert(dotted(none, name) == name);
    reveal_strlit(": ");
    reveal_strlit("\n");
    assert(": "@ =~= seq![':', ' ']);
    assert("\n"@ =~= seq!['\n']);
    let lines = if f.source.len() > 0 && f.source.last() != '\n' {
        f.source + seq!['\n']
    } else {
        f.source
    };
    assert(f.source.push('\n') =~= f.source + seq!['\n']);
    assert(appended(f.source, name, value) =~= lines + name + seq![':', ' '] + value + seq!['\n']);
}

/// Defaults are filled in one after the other; those of an object that is present are
/// filled into it, and those of one that is absent are not.
pub proof fn law_defaults_in_turn(
    f: Filled,
    properties: Seq<(Seq<char>, SchemaView)>,
    name: Seq<char>,
    sub: SchemaView,
    parent: Seq<char>,
)
    ensures
        ({
            let k = properties.len();
            let g = defaults_filled(f, properties, k, parent);
            let h = defaults_filled(f, properties.push((name, sub)), k + 1, parent);
            let path = if parent.len() == 0 {
                name
            } else {
                parent + seq!['.'] + name
            };
            &&& h == defaults_filled(g, seq![(name, sub)], 1, parent)
            &&& sub.default is None && value_range(g.source, path) is Some ==> h
                == defaults_filled(g, sub.properties, sub.properties.len(), path)
            &&& sub.default is None && value_range(g.source, path) is None ==> h == g
            &&& sub.default is Some && value_range(g.source, path) is Some ==> h == g
        }),
{
    let all = properties.push((name, sub));
    let one = seq![(name, sub)];
    let k = properties.len();
    lemma_defaults_before(f, properties, (name, sub), k, parent);
    assert(all[k as int] == (name, sub));
    assert(one[0] == (name, sub));
    let g = defaults_filled(f, properties, k, parent);
    assert(defaults_filled(g, one, 0, parent) == g);
    reveal_strlit(".");
    assert("."@ =~= seq!['.']);
}

proof fn lemma_defaults_before(
    f: Filled,
    properties: Seq<(Seq<char>, SchemaView)>,
    one: (Seq<char>, SchemaView),
    k: nat,
    parent: Seq<char>,
)
    requires
        k <= properties.len(),
    ensures
        defaults_filled(f, properties.push(one), k, parent) == defaults_filled(
            f,
            properties,
            k,
            parent,
        ),
    decreases k,
{
    if k > 0 {
        lemma_defaults_before(f, properties, one, (k - 1) as nat, parent);
        assert(properties.push(one)[k - 1] == properties[k - 1]);
    }
}

/// The default of a property of an object that is a block mapping goes in where
/// [`with_entry`] puts it.
pub proof fn law_default_of_an_object(
    f: Filled,
    name: Seq<char>,
    sub: SchemaView,
    value: Seq<char>,
    parent: Seq<char>,
)
    requires
        sub.default == Some(value),
        parent.len() > 0,
        value_range(f.source, parent + seq!['.'] + name) is None,
        with_entry(f.source, parent, name, value) matches Ok(more) && encode_utf8(more).len()
            <= MAX_INPUT,
    ensures
        ({
            let g = defaults_filled(f, seq![(name, sub)], 1, parent);
            &&& g.source == with_entry(f.source, parent, name, value)->Ok_0
            &&& g.inserted == f.inserted.push(
                InsertionView { path: parent + seq!['.'] + name, value },
            )
        }),
{
    let one = seq![(name, sub)];
    assert(one[0] == (name, sub));
    assert(defaults_filled(f, one, 0, parent) == f);
    reveal_strlit(".");
    assert("."@ =~= seq!['.']);
}

} // verus!
