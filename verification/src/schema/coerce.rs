//! Schema-driven coercion of defaults and scalar types over a CST `Document`.
use crate::cst::document::{value_range, with_entry, with_value, Document};
use crate::schema::model::{JsonType, Schema, SchemaView};
use crate::schema::number::{ascii_lowercase, integer_string, is_float_text, parse_integer};
use crate::scanner::cursor::MAX_INPUT;
use crate::text::{decimal_string, same_text};
use vstd::prelude::*;
use vstd::string::*;
use vstd::utf8::*;

verus! {

/// A single value coercion that was applied.
#[derive(Debug, Clone, PartialEq)]
pub struct Coercion {
    /// Dotted path to the coerced value.
    pub path: String,
    /// The original value text.
    pub from: String,
    /// The new (canonical) value text.
    pub to: String,
}

/// The value of a [`Coercion`].
pub struct CoercionView {
    pub path: Seq<char>,
    pub from: Seq<char>,
    pub to: Seq<char>,
}

impl View for Coercion {
    type V = CoercionView;

    open spec fn view(&self) -> CoercionView {
        CoercionView { path: self.path@, from: self.from@, to: self.to@ }
    }
}

/// The values of some coercions.
pub open spec fn coercion_views(s: Seq<Coercion>) -> Seq<CoercionView> {
    Seq::new(s.len(), |i: int| s[i]@)
}

/// A source text, and the coercions applied to it so far.
pub struct Coerced {
    pub source: Seq<char>,
    pub changes: Seq<CoercionView>,
}

/// A text without the quotes around it.
pub open spec fn unquoted(s: Seq<char>) -> Seq<char> {
    if s.len() >= 2 && ((s[0] == '"' && s.last() == '"') || (s[0] == '\'' && s.last() == '\'')) {
        s.subrange(1, s.len() - 1)
    } else {
        s
    }
}

/// The canonical text for `text` under `ty`, if it can be coerced.
pub open spec fn canonical(text: Seq<char>, ty: JsonType) -> Option<Seq<char>> {
    let inner = unquoted(text);
    let word = crate::schema::number::lowered(inner);
    match ty {
        JsonType::Integer => match crate::schema::number::integer_value(inner) {
            Some(i) => Some(crate::schema::number::integer_text(i)),
            None => None,
        },
        JsonType::Number => if crate::schema::number::is_float(inner) {
            Some(inner)
        } else {
            None
        },
        JsonType::Boolean => if word == "true"@ {
            Some("true"@)
        } else if word == "false"@ {
            Some("false"@)
        } else {
            None
        },
        JsonType::String => if text.len() > 0 && (text[0] == '"' || text[0] == '\'') {
            None
        } else if crate::schema::number::is_float(inner) || word == "true"@ || word == "false"@
            || word == "null"@ {
            Some("\""@ + inner + "\""@)
        } else {
            None
        },
        _ => None,
    }
}

/// The canonical text under the first of the types, from the `i`th on, to which the
/// text can be coerced.
pub open spec fn canonical_any(text: Seq<char>, types: Seq<JsonType>, i: int) -> Option<Seq<char>>
    decreases types.len() - i,
{
    if !(0 <= i < types.len()) {
        None
    } else {
        match canonical(text, types[i]) {
            Some(c) => Some(c),
            None => canonical_any(text, types, i + 1),
        }
    }
}

/// The path of a child.
pub open spec fn dotted(path: Seq<char>, name: Seq<char>) -> Seq<char> {
    if path.len() == 0 {
        name
    } else {
        path + "."@ + name
    }
}

/// The value at a path coerced to one of the types. A value that cannot be coerced
/// or is canonical stays, and so does one whose canonical text would make the
/// document too long to be scanned.
pub open spec fn leaf_coerced(c: Coerced, types: Seq<JsonType>, path: Seq<char>) -> Coerced {
    match value_range(c.source, path) {
        None => c,
        Some((lo, hi)) => {
            let from = crate::text::text(encode_utf8(c.source), lo, hi);
            match canonical_any(from, types, 0) {
                None => c,
                Some(to) => {
                    let source = with_value(c.source, path, to)->0;
                    if to == from || encode_utf8(source).len() > MAX_INPUT {
                        c
                    } else {
                        Coerced {
                            source,
                            changes: c.changes.push(CoercionView { path, from, to }),
                        }
                    }
                },
            }
        },
    }
}

/// The values at and below a path coerced to a schema.
pub open spec fn coerced(c: Coerced, s: SchemaView, path: Seq<char>) -> Coerced
    decreases s, 0int, 0int,
{
    if s.properties.len() > 0 {
        properties_coerced(c, s.properties, s.properties.len(), path)
    } else {
        match s.items {
            Some(sub) => items_coerced(c, *sub, path, 0),
            None => if path.len() == 0 {
                c
            } else {
                match s.types {
                    Some(types) => leaf_coerced(c, types, path),
                    None => c,
                }
            },
        }
    }
}

/// The values of the first `k` properties coerced, one after the other.
pub open spec fn properties_coerced(
    c: Coerced,
    properties: Seq<(Seq<char>, SchemaView)>,
    k: nat,
    path: Seq<char>,
) -> Coerced
    decreases properties, k, 0int,
{
    if 0 < k <= properties.len() {
        coerced(
            properties_coerced(c, properties, (k - 1) as nat, path),
            properties[k - 1].1,
            dotted(path, properties[k - 1].0),
        )
    } else {
        c
    }
}

/// The items from the `i`th on coerced, one after the other, up to the first that
/// does not exist.
pub open spec fn items_coerced(c: Coerced, s: SchemaView, path: Seq<char>, i: int) -> Coerced
    decreases s, 1int, MAX_INPUT - i,
{
    let item = dotted(path, crate::text::decimal(i as nat));
    if !(0 <= i < MAX_INPUT) || value_range(c.source, item) is None {
        c
    } else {
        items_coerced(coerced(c, s, item), s, path, i + 1)
    }
}

/// Coercing a canonical text again changes nothing.
pub proof fn law_canonical_is_stable(text: Seq<char>, ty: JsonType)
    ensures
        canonical(text, ty) matches Some(c) ==> canonical(c, ty) is None || canonical(c, ty)
            == Some(c),
{
    reveal_strlit("true");
    reveal_strlit("false");
    reveal_strlit("\"");
    reveal_strlit("inf");
    reveal_strlit("infinity");
    reveal_strlit("nan");
    let inner = unquoted(text);
    if let Some(c) = canonical(text, ty) {
        match ty {
            JsonType::Integer => {
                let i = crate::schema::number::integer_value(inner)->0;
                crate::schema::number::law_integer_text(i);
                lemma_integer_unquoted(i);
            },
            JsonType::Number => {
                lemma_float_unquoted(inner);
            },
            JsonType::Boolean => {
                assert(crate::schema::number::lowered("true"@) =~= "true"@);
                assert(crate::schema::number::lowered("false"@) =~= "false"@);
            },
            _ => {},
        }
    }
}

/// The text of an integer has no quotes.
proof fn lemma_integer_unquoted(i: int)
    requires
        i64::MIN <= i <= i64::MAX,
    ensures
        unquoted(crate::schema::number::integer_text(i)) == crate::schema::number::integer_text(i),
{
    let t = crate::schema::number::integer_text(i);
    crate::schema::number::law_integer_text(i);
    let digits = crate::schema::number::unsigned(t).1;
    if t[0] != '-' && t[0] != '+' {
        assert(crate::text::is_digit_char(digits[0]));
    }
}

/// The text of a floating-point number has no quotes.
proof fn lemma_float_unquoted(s: Seq<char>)
    requires
        crate::schema::number::is_float(s),
    ensures
        unquoted(s) == s,
{
    reveal_strlit("inf");
    reveal_strlit("infinity");
    reveal_strlit("nan");
    let t = crate::schema::number::unsigned(s).1;
    let word = crate::schema::number::lowered(t);
    if word == "inf"@ || word == "infinity"@ || word == "nan"@ {
        assert("inf"@.len() == 3 && "infinity"@.len() == 8 && "nan"@.len() == 3);
        assert(t.len() > 0);
        assert(word[0] == crate::schema::number::lower(t[0]));
        assert("inf"@[0] == 'i' && "infinity"@[0] == 'i' && "nan"@[0] == 'n');
    }
    if s.len() > 0 && (s[0] == '"' || s[0] == '\'') {
        assert(t == s);
        assert(!crate::text::is_digit_char(s[0]));
        assert(crate::schema::number::digits_end(s, 0) == 0);
    }
}

/// The text of an integer denotes a floating-point number too.
pub proof fn lemma_integer_is_float(s: Seq<char>)
    requires
        crate::schema::number::integer_value(s) is Some,
    ensures
        crate::schema::number::is_float(s),
{
    let t = crate::schema::number::unsigned(s).1;
    lemma_digits_end(t, 0);
}

/// Digits reach to the end of a text that has nothing else.
proof fn lemma_digits_end(t: Seq<char>, i: int)
    requires
        0 <= i <= t.len(),
        forall|j: int| i <= j < t.len() ==> crate::text::is_digit_char(#[trigger] t[j]),
    ensures
        crate::schema::number::digits_end(t, i) == t.len(),
    decreases t.len() - i,
{
    if i < t.len() {
        assert(crate::text::is_digit_char(t[i]));
        lemma_digits_end(t, i + 1);
    }
}

/// A truth value denotes no number.
proof fn lemma_truth_is_no_number(c: Seq<char>)
    requires
        c == "true"@ || c == "false"@,
    ensures
        crate::schema::number::integer_value(c) is None,
        !crate::schema::number::is_float(c),
        unquoted(c) == c,
{
    reveal_strlit("true");
    reveal_strlit("false");
    reveal_strlit("inf");
    reveal_strlit("infinity");
    reveal_strlit("nan");
    assert(!crate::text::is_digit_char(c[0]));
    assert(crate::schema::number::unsigned(c).1 == c);
    assert(crate::schema::number::digits_end(c, 0) == 0);
    let w = crate::schema::number::lowered(c);
    assert(w[0] == c[0]);
    assert("inf"@[0] == 'i' && "infinity"@[0] == 'i' && "nan"@[0] == 'n');
}

/// A type that a text cannot be coerced to is none for what another type made of it.
proof fn lemma_canonical_keeps_out(text: Seq<char>, ty: JsonType, other: JsonType)
    requires
        canonical(text, ty) is Some,
        canonical(text, other) is None,
        !(other is String),
    ensures
        canonical(canonical(text, ty)->0, other) is None,
{
    reveal_strlit("true");
    reveal_strlit("false");
    reveal_strlit("\"");
    let inner = unquoted(text);
    let c = canonical(text, ty)->0;
    match ty {
        JsonType::Integer => {
            let i = crate::schema::number::integer_value(inner)->0;
            lemma_integer_is_float(inner);
            crate::schema::number::law_integer_text(i);
            lemma_integer_unquoted(i);
            if other is Boolean {
                let w = crate::schema::number::lowered(c);
                if w == "true"@ || w == "false"@ {
                    assert(w[0] == crate::schema::number::lower(c[0]));
                    assert("true"@[0] == 't' && "false"@[0] == 'f');
                    let digits = crate::schema::number::unsigned(c).1;
                    assert(crate::text::is_digit_char(digits[0]));
                }
            }
        },
        JsonType::Number => {
            lemma_float_unquoted(inner);
        },
        JsonType::Boolean => {
            lemma_truth_is_no_number(c);
        },
        _ => {
            assert(c.subrange(1, c.len() - 1) =~= inner);
            assert(unquoted(c) == inner);
        },
    }
}

/// Coercing what a coercion gave changes nothing, unless `string` stands among the types
/// before another one: that one could take the quotes away again.
pub proof fn law_coerced_text_is_stable(text: Seq<char>, types: Seq<JsonType>)
    requires
        forall|i: int| 0 <= i < types.len() - 1 ==> !(#[trigger] types[i] is String),
    ensures
        canonical_any(text, types, 0) matches Some(c) ==> canonical_any(c, types, 0) is None
            || canonical_any(c, types, 0) == Some(c),
{
    lemma_coerced_from(text, types, 0);
}

proof fn lemma_coerced_from(text: Seq<char>, types: Seq<JsonType>, i: int)
    requires
        0 <= i,
        forall|j: int| 0 <= j < types.len() - 1 ==> !(#[trigger] types[j] is String),
    ensures
        canonical_any(text, types, i) matches Some(c) ==> canonical_any(c, types, i) is None
            || canonical_any(c, types, i) == Some(c),
    decreases types.len() - i,
{
    if i < types.len() {
        match canonical(text, types[i]) {
            Some(c) => {
                law_canonical_is_stable(text, types[i]);
                if canonical(c, types[i]) is None {
                    lemma_only_string_gives_up(text, types[i]);
                    assert(i == types.len() - 1);
                    assert(canonical_any(c, types, i + 1) is None);
                }
            },
            None => {
                lemma_coerced_from(text, types, i + 1);
                if let Some(c) = canonical_any(text, types, i + 1) {
                    let k = lemma_coerced_by(text, types, i + 1);
                    lemma_canonical_keeps_out(text, types[k], types[i]);
                }
            },
        }
    }
}

/// Which type made the coercion.
proof fn lemma_coerced_by(text: Seq<char>, types: Seq<JsonType>, i: int) -> (k: int)
    requires
        0 <= i,
        canonical_any(text, types, i) is Some,
    ensures
        i <= k < types.len(),
        canonical(text, types[k]) == canonical_any(text, types, i),
    decreases types.len() - i,
{
    if canonical(text, types[i]) is Some {
        i
    } else {
        lemma_coerced_by(text, types, i + 1)
    }
}

/// What a type other than `string` made of a text, it makes of itself.
proof fn lemma_only_string_gives_up(text: Seq<char>, ty: JsonType)
    requires
        canonical(text, ty) matches Some(c) && canonical(c, ty) is None,
    ensures
        ty is String,
{
    reveal_strlit("true");
    reveal_strlit("false");
    let inner = unquoted(text);
    match ty {
        JsonType::Integer => {
            let i = crate::schema::number::integer_value(inner)->0;
            crate::schema::number::law_integer_text(i);
            lemma_integer_unquoted(i);
        },
        JsonType::Number => {
            lemma_float_unquoted(inner);
        },
        JsonType::Boolean => {
            assert(crate::schema::number::lowered("true"@) =~= "true"@);
            assert(crate::schema::number::lowered("false"@) =~= "false"@);
        },
        _ => {},
    }
}

/// A second coercion of a value changes nothing, where the value that the first one wrote
/// is read back and `string` stands before no other type.
pub proof fn law_second_coercion_changes_nothing(c: Coerced, types: Seq<JsonType>, path: Seq<char>)
    requires
        forall|i: int| 0 <= i < types.len() - 1 ==> !(#[trigger] types[i] is String),
        ({
            let d = leaf_coerced(c, types, path);
            d != c ==> (value_range(d.source, path) matches Some((lo, hi)) && crate::text::text(
                encode_utf8(d.source),
                lo,
                hi,
            ) == d.changes.last().to)
        }),
    ensures
        leaf_coerced(leaf_coerced(c, types, path), types, path) == leaf_coerced(c, types, path),
{
    let d = leaf_coerced(c, types, path);
    if let Some((lo, hi)) = value_range(c.source, path) {
        let from = crate::text::text(encode_utf8(c.source), lo, hi);
        if let Some(to) = canonical_any(from, types, 0) {
            law_coerced_text_is_stable(from, types);
            if d != c {
                assert(d.changes.last().to == to);
            }
        }
    }
}

/// More changes were made from one state to the other, or nothing changed.
pub open spec fn reported(c: Coerced, d: Coerced) -> bool {
    &&& c.changes.len() <= d.changes.len()
    &&& c.changes == d.changes.subrange(0, c.changes.len() as int)
    &&& c.changes.len() == d.changes.len() ==> c == d
}

proof fn lemma_reported_on(c: Coerced, d: Coerced, e: Coerced)
    requires
        reported(c, d),
        reported(d, e),
    ensures
        reported(c, e),
{
    assert(c.changes =~= e.changes.subrange(0, c.changes.len() as int));
}

proof fn lemma_reported_same(c: Coerced)
    ensures
        reported(c, c),
{
    assert(c.changes =~= c.changes.subrange(0, c.changes.len() as int));
}

proof fn lemma_leaf_reported(c: Coerced, types: Seq<JsonType>, path: Seq<char>)
    ensures
        reported(c, leaf_coerced(c, types, path)),
{
    lemma_reported_same(c);
    let d = leaf_coerced(c, types, path);
    if d != c {
        assert(c.changes =~= d.changes.subrange(0, c.changes.len() as int));
    }
}

/// Every edit that a coercion makes is reported, behind those reported before: a document
/// for which nothing is reported is untouched.
pub proof fn law_coercions_are_reported(c: Coerced, s: SchemaView, path: Seq<char>)
    ensures
        reported(c, coerced(c, s, path)),
    decreases s, 0int, 0int,
{
    lemma_reported_same(c);
    if s.properties.len() > 0 {
        lemma_properties_reported(c, s.properties, s.properties.len(), path);
    } else {
        match s.items {
            Some(sub) => lemma_items_reported(c, *sub, path, 0),
            None => if let Some(types) = s.types {
                lemma_leaf_reported(c, types, path);
            },
        }
    }
}

proof fn lemma_properties_reported(
    c: Coerced,
    properties: Seq<(Seq<char>, SchemaView)>,
    k: nat,
    path: Seq<char>,
)
    ensures
        reported(c, properties_coerced(c, properties, k, path)),
    decreases properties, k, 0int,
{
    lemma_reported_same(c);
    if 0 < k <= properties.len() {
        let d = properties_coerced(c, properties, (k - 1) as nat, path);
        let child = dotted(path, properties[k - 1].0);
        lemma_properties_reported(c, properties, (k - 1) as nat, path);
        law_coercions_are_reported(d, properties[k - 1].1, child);
        lemma_reported_on(c, d, coerced(d, properties[k - 1].1, child));
    }
}

proof fn lemma_items_reported(c: Coerced, s: SchemaView, path: Seq<char>, i: int)
    ensures
        reported(c, items_coerced(c, s, path, i)),
    decreases s, 1int, MAX_INPUT - i,
{
    lemma_reported_same(c);
    let item = dotted(path, crate::text::decimal(i as nat));
    if 0 <= i < MAX_INPUT && value_range(c.source, item) is Some {
        let d = coerced(c, s, item);
        law_coercions_are_reported(c, s, item);
        lemma_items_reported(d, s, path, i + 1);
        lemma_reported_on(c, d, items_coerced(d, s, path, i + 1));
    }
}

/// A default value that was inserted into the document.
#[derive(Debug, Clone, PartialEq)]
pub struct Insertion {
    /// Dotted path of the inserted property.
    pub path: String,
    /// The inserted value text.
    pub value: String,
}

/// The value of an [`Insertion`].
pub struct InsertionView {
    pub path: Seq<char>,
    pub value: Seq<char>,
}

impl View for Insertion {
    type V = InsertionView;

    open spec fn view(&self) -> InsertionView {
        InsertionView { path: self.path@, value: self.value@ }
    }
}

/// The values of some insertions.
pub open spec fn insertion_views(s: Seq<Insertion>) -> Seq<InsertionView> {
    Seq::new(s.len(), |i: int| s[i]@)
}

/// A source text, and the defaults inserted into it so far.
pub struct Filled {
    pub source: Seq<char>,
    pub inserted: Seq<InsertionView>,
}

/// A source text with an entry in the mapping at a path; nothing where no block
/// mapping stands there, or where the entry would make the document too long to be
/// scanned.
pub open spec fn with_default(
    source: Seq<char>,
    parent: Seq<char>,
    key: Seq<char>,
    value: Seq<char>,
) -> Option<Seq<char>> {
    match with_entry(source, parent, key, value) {
        Ok(text) => if encode_utf8(text).len() <= MAX_INPUT {
            Some(text)
        } else {
            None
        },
        Err(_) => None,
    }
}

/// The defaults of the first `k` properties filled in, one after the other: a scalar
/// default where the property is absent, and the defaults of the properties of an
/// object that is present.
pub open spec fn defaults_filled(
    f: Filled,
    properties: Seq<(Seq<char>, SchemaView)>,
    k: nat,
    parent: Seq<char>,
) -> Filled
    decreases properties, k,
{
    if 0 < k <= properties.len() {
        let g = defaults_filled(f, properties, (k - 1) as nat, parent);
        let name = properties[k - 1].0;
        let sub = properties[k - 1].1;
        let path = dotted(parent, name);
        match sub.default {
            Some(value) => match with_default(g.source, parent, name, value) {
                Some(source) => if value_range(g.source, path) is None {
                    Filled { source, inserted: g.inserted.push(InsertionView { path, value }) }
                } else {
                    g
                },
                None => g,
            },
            None => if value_range(g.source, path) is Some {
                defaults_filled(g, sub.properties, sub.properties.len(), path)
            } else {
                g
            },
        }
    } else {
        f
    }
}

/// The path of a child.
fn dotted_path(path: &str, name: &str) -> (r: String)
    ensures
        r@ == dotted(path@, name@),
{
    if path.is_empty() {
        return name.to_owned();
    }
    let mut s = path.to_owned();
    s.append(".");
    s.append(name);
    s
}

/// A text without the quotes around it.
fn strip_quotes(s: &str) -> (r: String)
    ensures
        r@ == unquoted(s@),
{
    let n: usize = s.unicode_len();
    if n >= 2 {
        let first = s.get_char(0);
        let last = s.get_char(n - 1);
        if (first == '"' && last == '"') || (first == '\'' && last == '\'') {
            let mut chars: Vec<char> = Vec::new();
            crate::text::push_text(&mut chars, s);
            assert(chars@ =~= s@);
            let mut out = String::new();
            let mut i: usize = 1;
            assert(out@ =~= s@.subrange(1, 1));
            while i < n - 1
                invariant
                    1 <= i <= n - 1,
                    n == s@.len(),
                    chars@ == s@,
                    out@ == s@.subrange(1, i as int),
                decreases n - i,
            {
                out.push(chars[i]);
                i += 1;
                assert(out@ =~= s@.subrange(1, i as int));
            }
            return out;
        }
    }
    s.to_owned()
}

/// Canonical text for `text` under `ty`, or `None` if not coercible.
fn coerce_value(text: &str, ty: JsonType) -> (r: Option<String>)
    ensures
        match canonical(text@, ty) {
            Some(c) => r matches Some(s) && s@ == c,
            None => r is None,
        },
{
    let inner = strip_quotes(text);
    match ty {
        JsonType::Integer => match parse_integer(inner.as_str()) {
            Some(i) => Some(integer_string(i)),
            None => None,
        },
        JsonType::Number => if is_float_text(inner.as_str()) {
            Some(inner)
        } else {
            None
        },
        JsonType::Boolean => {
            let word = ascii_lowercase(inner.as_str());
            if same_text(word.as_str(), "true") {
                Some("true".to_owned())
            } else if same_text(word.as_str(), "false") {
                Some("false".to_owned())
            } else {
                None
            }
        },
        JsonType::String => {
            if !text.is_empty() {
                let first = text.get_char(0);
                if first == '"' || first == '\'' {
                    return None;
                }
            }
            let word = ascii_lowercase(inner.as_str());
            if is_float_text(inner.as_str()) || same_text(word.as_str(), "true") || same_text(
                word.as_str(),
                "false",
            ) || same_text(word.as_str(), "null") {
                let mut s = "\"".to_owned();
                s.append(inner.as_str());
                s.append("\"");
                Some(s)
            } else {
                None
            }
        },
        _ => None,
    }
}

/// Tries each declared type in order, returning the first successful coercion.
fn coerce_value_multi(text: &str, types: &Vec<JsonType>) -> (r: Option<String>)
    ensures
        match canonical_any(text@, types@, 0) {
            Some(c) => r matches Some(s) && s@ == c,
            None => r is None,
        },
{
    let mut i: usize = 0;
    while i < types.len()
        invariant
            i <= types@.len(),
            canonical_any(text@, types@, i as int) == canonical_any(text@, types@, 0),
        decreases types@.len() - i,
    {
        if let Some(s) = coerce_value(text, types[i]) {
            return Some(s);
        }
        i += 1;
    }
    None
}

/// Coerces scalar values in `doc` to match `schema`'s declared scalar types,
/// editing the CST in place (comments preserved). Returns the coercions applied.
///
/// Handles object properties, array items (indexed until a gap), multi-type
/// schemas (first matching type wins), and top-level arrays.
#[must_use]
pub fn coerce_to_schema(doc: &mut Document, schema: &Schema) -> (r: Vec<Coercion>)
    requires
        old(doc).wf(),
    ensures
        final(doc).wf(),
        (Coerced { source: final(doc).source(), changes: coercion_views(r@) }) == coerced(
            Coerced { source: old(doc).source(), changes: seq![] },
            schema@,
            ""@,
        ),
{
    let mut changes: Vec<Coercion> = Vec::new();
    assert(coercion_views(changes@) =~= Seq::<CoercionView>::empty());
    coerce_at(doc, schema, "", &mut changes);
    changes
}

/// Coerces the value at a path to one of the types.
fn coerce_leaf(doc: &mut Document, types: &Vec<JsonType>, path: &str, changes: &mut Vec<Coercion>)
    requires
        old(doc).wf(),
    ensures
        final(doc).wf(),
        (Coerced { source: final(doc).source(), changes: coercion_views(final(changes)@) })
            == leaf_coerced(
            Coerced { source: old(doc).source(), changes: coercion_views(old(changes)@) },
            types@,
            path@,
        ),
{
    let current = match doc.get(path) {
        Some(s) => s.to_owned(),
        None => {
            return;
        },
    };
    if let Some(canonical) = coerce_value_multi(current.as_str(), types) {
        if same_text(canonical.as_str(), current.as_str()) {
            return;
        }
        if let Some(s) = doc.edited(path, canonical.as_str()) {
            if s.as_str().as_bytes().len() > MAX_INPUT {
                return;
            }
            *doc = Document::parse(s.as_str());
            let ghost before = coercion_views(changes@);
            let ghost added = CoercionView { path: path@, from: current@, to: canonical@ };
            changes.push(Coercion { path: path.to_owned(), from: current, to: canonical });
            assert(coercion_views(changes@) =~= before.push(added));
        }
    }
}

/// Coerces the values at and below a path.
fn coerce_at(doc: &mut Document, schema: &Schema, path: &str, changes: &mut Vec<Coercion>)
    requires
        old(doc).wf(),
    ensures
        final(doc).wf(),
        (Coerced { source: final(doc).source(), changes: coercion_views(final(changes)@) })
            == coerced(
            Coerced { source: old(doc).source(), changes: coercion_views(old(changes)@) },
            schema@,
            path@,
        ),
    decreases schema,
{
    let ghost start = Coerced { source: doc.source(), changes: coercion_views(changes@) };
    proof {
        crate::schema::model::lemma_property_values(*schema);
    }
    // Object: recurse into each declared property.
    if schema.properties.len() > 0 {
        let ghost properties = schema@.properties;
        let mut i: usize = 0;
        while i < schema.properties.len()
            invariant
                i <= schema.properties@.len(),
                doc.wf(),
                properties == crate::schema::model::property_values(schema.properties@),
                (Coerced { source: doc.source(), changes: coercion_views(changes@) })
                    == properties_coerced(start, properties, i as nat, path@),
            decreases schema.properties@.len() - i,
        {
            assert(properties[i as int] == (
                schema.properties@[i as int].0@,
                schema.properties@[i as int].1@,
            ));
            let child = dotted_path(path, schema.properties[i].0.as_str());
            coerce_at(doc, &schema.properties[i].1, child.as_str(), changes);
            i += 1;
        }
        return;
    }
    // Array: coerce each item against `items` (indices until a gap).
    if let Some(sub) = &schema.items {
        let ghost goal = items_coerced(start, (**sub)@, path@, 0);
        let mut i: usize = 0;
        while i < MAX_INPUT
            invariant
                i <= MAX_INPUT,
                doc.wf(),
                decreases_to!(schema => **sub),
                goal == items_coerced(start, (**sub)@, path@, 0),
                goal == items_coerced(
                    Coerced { source: doc.source(), changes: coercion_views(changes@) },
                    (**sub)@,
                    path@,
                    i as int,
                ),
            ensures
                doc.wf(),
                goal == (Coerced { source: doc.source(), changes: coercion_views(changes@) }),
            decreases MAX_INPUT - i,
        {
            let index = decimal_string(i as u64);
            let item = dotted_path(path, index.as_str());
            if doc.get(item.as_str()).is_none() {
                break;
            }
            coerce_at(doc, sub, item.as_str(), changes);
            i += 1;
        }
        return;
    }
    // Scalar leaf.
    if path.is_empty() {
        return;
    }
    if let Some(types) = &schema.types {
        coerce_leaf(doc, types, path, changes);
    }
}

/// Inserts properties that declare a scalar `default` and are absent from
/// `doc`, recursing into nested object subschemas whose parent key is present.
/// Edits the CST comment-preservingly and returns the insertions made.
#[must_use]
pub fn apply_defaults(doc: &mut Document, schema: &Schema) -> (r: Vec<Insertion>)
    requires
        old(doc).wf(),
    ensures
        final(doc).wf(),
        (Filled { source: final(doc).source(), inserted: insertion_views(r@) }) == defaults_filled(
            Filled { source: old(doc).source(), inserted: seq![] },
            schema@.properties,
            schema@.properties.len(),
            ""@,
        ),
{
    let mut inserted: Vec<Insertion> = Vec::new();
    assert(insertion_views(inserted@) =~= Seq::<InsertionView>::empty());
    apply_defaults_at(doc, schema, "", &mut inserted);
    inserted
}

/// Inserts an entry, unless the document would become too long.
fn insert_entry(doc: &mut Document, parent: &str, key: &str, value: &str) -> (r: bool)
    requires
        old(doc).wf(),
    ensures
        final(doc).wf(),
        match with_default(old(doc).source(), parent@, key@, value@) {
            Some(source) => r && final(doc).source() == source,
            None => !r && final(doc).source() == old(doc).source(),
        },
{
    match doc.extended_at(parent, key, value) {
        Ok(s) => {
            if s.as_str().as_bytes().len() > MAX_INPUT {
                return false;
            }
            *doc = Document::parse(s.as_str());
            true
        },
        Err(_) => false,
    }
}

/// Fills in the defaults of the properties below a path.
fn apply_defaults_at(
    doc: &mut Document,
    schema: &Schema,
    parent: &str,
    inserted: &mut Vec<Insertion>,
)
    requires
        old(doc).wf(),
    ensures
        final(doc).wf(),
        (Filled { source: final(doc).source(), inserted: insertion_views(final(inserted)@) })
            == defaults_filled(
            Filled { source: old(doc).source(), inserted: insertion_views(old(inserted)@) },
            schema@.properties,
            schema@.properties.len(),
            parent@,
        ),
    decreases schema,
{
    let ghost start = Filled { source: doc.source(), inserted: insertion_views(inserted@) };
    proof {
        crate::schema::model::lemma_property_values(*schema);
    }
    let ghost properties = schema@.properties;
    let mut i: usize = 0;
    while i < schema.properties.len()
        invariant
            i <= schema.properties@.len(),
            doc.wf(),
            properties == crate::schema::model::property_values(schema.properties@),
            (Filled { source: doc.source(), inserted: insertion_views(inserted@) })
                == defaults_filled(start, properties, i as nat, parent@),
        decreases schema.properties@.len() - i,
    {
        assert(properties[i as int] == (
            schema.properties@[i as int].0@,
            schema.properties@[i as int].1@,
        ));
        let name = schema.properties[i].0.as_str();
        let sub = &schema.properties[i].1;
        let path = dotted_path(parent, name);
        let present = doc.get(path.as_str()).is_some();
        match &sub.default {
            Some(value) => {
                if !present && insert_entry(doc, parent, name, value.as_str()) {
                    let ghost before = insertion_views(inserted@);
                    let ghost added = InsertionView { path: path@, value: value@ };
                    inserted.push(Insertion { path, value: value.clone() });
                    assert(insertion_views(inserted@) =~= before.push(added));
                }
            },
            None => {
                if present {
                    apply_defaults_at(doc, sub, path.as_str(), inserted);
                }
            },
        }
        i += 1;
    }
}

} // verus!
