//! How a schema is read: what each keyword adds to the schema that the keywords before it
//! describe.
use crate::node::NodeView;
use crate::schema::model::{
    json_type, keywords_of, list_of, properties_of, property_of, property_place, schema_of, size_of,
    texts_of, types_named, with_property, JsonType, SchemaView,
};
use vstd::prelude::*;

verus! {

/// A node that is a mapping with the given entries.
pub open spec fn holds(n: NodeView, entries: Seq<(NodeView, NodeView)>) -> bool {
    n is Mapping && n->Mapping_entries == entries
}

/// A node that is a scalar with the given text.
pub open spec fn says(n: NodeView, text: Seq<char>) -> bool {
    n is Scalar && n->Scalar_value == text
}

/// A node that is a sequence of scalars with the given texts.
pub open spec fn lists(n: NodeView, texts: Seq<Seq<char>>) -> bool {
    n is Sequence && n->Sequence_items.len() == texts.len() && forall|i: int|
        0 <= i < texts.len() ==> says(#[trigger] n->Sequence_items[i], texts[i])
}

proof fn lemma_keywords_before(
    entries: Seq<(NodeView, NodeView)>,
    entry: (NodeView, NodeView),
    k: nat,
)
    requires
        k <= entries.len(),
    ensures
        keywords_of(entries.push(entry), k) == keywords_of(entries, k),
    decreases k,
{
    if k > 0 {
        lemma_keywords_before(entries, entry, (k - 1) as nat);
        assert(entries.push(entry)[k - 1] == entries[k - 1]);
    }
}

/// The schema with one more keyword.
proof fn lemma_one_more(n: NodeView, m: NodeView, entries: Seq<(NodeView, NodeView)>, key: NodeView, v: NodeView)
    requires
        holds(n, entries),
        holds(m, entries.push((key, v))),
        key is Scalar,
    ensures
        ({
            let s = schema_of(n);
            let name = key->Scalar_value;
            schema_of(m) == if name == "properties"@ {
                match v {
                    NodeView::Mapping { entries: named, .. } => SchemaView {
                        properties: properties_of(named, named.len(), s.properties),
                        ..s
                    },
                    _ => s,
                }
            } else if name == "items"@ {
                SchemaView { items: Some(Box::new(schema_of(v))), ..s }
            } else {
                s.with_keyword(name, v)
            }
        }),
{
    let all = entries.push((key, v));
    lemma_keywords_before(entries, (key, v), entries.len());
    assert(all[entries.len() as int] == (key, v));
    assert(key.as_str() == Some(key->Scalar_value));
}

proof fn lemma_names()
    ensures
        "type"@.len() == 4 && "type"@[0] == 't',
        "required"@.len() == 8 && "required"@[0] == 'r',
        "additionalProperties"@.len() == 20,
        "enum"@.len() == 4 && "enum"@[0] == 'e',
        "const"@.len() == 5 && "const"@[0] == 'c',
        "minimum"@.len() == 7 && "minimum"@[1] == 'i',
        "maximum"@.len() == 7 && "maximum"@[1] == 'a',
        "minLength"@.len() == 9 && "minLength"@[1] == 'i',
        "maxLength"@.len() == 9 && "maxLength"@[1] == 'a',
        "minItems"@.len() == 8 && "minItems"@[0] == 'm' && "minItems"@[1] == 'i',
        "maxItems"@.len() == 8 && "maxItems"@[0] == 'm' && "maxItems"@[1] == 'a',
        "minProperties"@.len() == 13 && "minProperties"@[1] == 'i',
        "maxProperties"@.len() == 13 && "maxProperties"@[1] == 'a',
        "default"@.len() == 7 && "default"@[1] == 'e',
        "properties"@.len() == 10,
        "items"@.len() == 5 && "items"@[0] == 'i',
{
    reveal_strlit("type");
    reveal_strlit("required");
    reveal_strlit("additionalProperties");
    reveal_strlit("enum");
    reveal_strlit("const");
    reveal_strlit("minimum");
    reveal_strlit("maximum");
    reveal_strlit("minLength");
    reveal_strlit("maxLength");
    reveal_strlit("minItems");
    reveal_strlit("maxItems");
    reveal_strlit("minProperties");
    reveal_strlit("maxProperties");
    reveal_strlit("default");
    reveal_strlit("properties");
    reveal_strlit("items");
}

proof fn lemma_texts(items: Seq<NodeView>, texts: Seq<Seq<char>>, k: nat)
    requires
        k <= items.len(),
        items.len() == texts.len(),
        forall|i: int| 0 <= i < texts.len() ==> says(#[trigger] items[i], texts[i]),
    ensures
        texts_of(items, k) == texts.take(k as int),
    decreases k,
{
    if k > 0 {
        lemma_texts(items, texts, (k - 1) as nat);
        assert(says(items[k - 1], texts[k - 1]));
        assert(texts.take(k as int) =~= texts.take(k - 1).push(texts[k - 1]));
    } else {
        assert(texts.take(0) =~= Seq::<Seq<char>>::empty());
    }
}

/// A list keyword takes the texts of its items, in their order.
proof fn lemma_list(v: NodeView, texts: Seq<Seq<char>>)
    requires
        lists(v, texts),
    ensures
        list_of(v) == texts,
{
    lemma_texts(v->Sequence_items, texts, texts.len());
    assert(texts.take(texts.len() as int) =~= texts);
}

/// The keywords that take a number of things: each sets its own bound to the number that is
/// written, and nothing else.
pub proof fn law_size_keywords(
    n: NodeView,
    m: NodeView,
    entries: Seq<(NodeView, NodeView)>,
    key: NodeView,
    v: NodeView,
    size: usize,
)
    requires
        holds(n, entries),
        holds(m, entries.push((key, v))),
        says(v, crate::text::decimal(size as nat)),
    ensures
        says(key, "minLength"@) ==> schema_of(m) == (SchemaView {
            min_length: Some(size),
            ..schema_of(n)
        }),
        says(key, "maxLength"@) ==> schema_of(m) == (SchemaView {
            max_length: Some(size),
            ..schema_of(n)
        }),
        says(key, "minItems"@) ==> schema_of(m) == (SchemaView {
            min_items: Some(size),
            ..schema_of(n)
        }),
        says(key, "maxItems"@) ==> schema_of(m) == (SchemaView {
            max_items: Some(size),
            ..schema_of(n)
        }),
        says(key, "minProperties"@) ==> schema_of(m) == (SchemaView {
            min_properties: Some(size),
            ..schema_of(n)
        }),
        says(key, "maxProperties"@) ==> schema_of(m) == (SchemaView {
            max_properties: Some(size),
            ..schema_of(n)
        }),
{
    if key is Scalar {
        lemma_one_more(n, m, entries, key, v);
        lemma_names();
        crate::cst::lookup::law_index_is_decimal(size as nat);
        assert(size_of(v) == Some(size));
    }
}

/// The keywords that take a text: `const` and `default` the text of a scalar, `minimum` and
/// `maximum` that of a number.
pub proof fn law_text_keywords(
    n: NodeView,
    m: NodeView,
    entries: Seq<(NodeView, NodeView)>,
    key: NodeView,
    v: NodeView,
    text: Seq<char>,
)
    requires
        holds(n, entries),
        holds(m, entries.push((key, v))),
        says(v, text),
    ensures
        says(key, "const"@) ==> schema_of(m) == (SchemaView {
            const_value: Some(text),
            ..schema_of(n)
        }),
        says(key, "default"@) ==> schema_of(m) == (SchemaView {
            default: Some(text),
            ..schema_of(n)
        }),
        says(key, "minimum"@) && crate::schema::number::is_float(text) ==> schema_of(m) == (
        SchemaView { minimum: Some(text), ..schema_of(n) }),
        says(key, "maximum"@) && crate::schema::number::is_float(text) ==> schema_of(m) == (
        SchemaView { maximum: Some(text), ..schema_of(n) }),
        says(key, "additionalProperties"@) ==> schema_of(m) == (SchemaView {
            additional_properties: Some(text == "true"@),
            ..schema_of(n)
        }),
{
    if key is Scalar {
        lemma_one_more(n, m, entries, key, v);
        lemma_names();
    }
}

/// The keywords that take a list: `required` and `enum` the texts of its items.
pub proof fn law_list_keywords(
    n: NodeView,
    m: NodeView,
    entries: Seq<(NodeView, NodeView)>,
    key: NodeView,
    v: NodeView,
    texts: Seq<Seq<char>>,
)
    requires
        holds(n, entries),
        holds(m, entries.push((key, v))),
        lists(v, texts),
    ensures
        says(key, "required"@) ==> schema_of(m) == (SchemaView { required: texts, ..schema_of(n) }),
        says(key, "enum"@) ==> schema_of(m) == (SchemaView {
            enum_values: Some(texts),
            ..schema_of(n)
        }),
{
    if key is Scalar {
        lemma_one_more(n, m, entries, key, v);
        lemma_names();
        lemma_list(v, texts);
    }
}

/// The name of a type.
pub open spec fn names_type(text: Seq<char>, ty: JsonType) -> bool {
    ||| text == "null"@ && ty is Null
    ||| text == "boolean"@ && ty is Boolean
    ||| text == "integer"@ && ty is Integer
    ||| text == "number"@ && ty is Number
    ||| text == "string"@ && ty is String
    ||| text == "array"@ && ty is Array
    ||| text == "object"@ && ty is Object
}

proof fn lemma_type_name(text: Seq<char>, ty: JsonType)
    requires
        names_type(text, ty),
    ensures
        json_type(text) == Some(ty),
{
    reveal_strlit("null");
    reveal_strlit("boolean");
    reveal_strlit("integer");
    reveal_strlit("number");
    reveal_strlit("string");
    reveal_strlit("array");
    reveal_strlit("object");
    assert("null"@.len() == 4 && "boolean"@.len() == 7 && "integer"@.len() == 7);
    assert("number"@.len() == 6 && "string"@.len() == 6 && "array"@.len() == 5);
    assert("object"@.len() == 6 && "boolean"@[0] == 'b' && "integer"@[0] == 'i');
    assert("number"@[0] == 'n' && "string"@[0] == 's' && "object"@[0] == 'o');
}

proof fn lemma_types_named(items: Seq<NodeView>, types: Seq<JsonType>, k: nat)
    requires
        k <= items.len(),
        items.len() == types.len(),
        forall|i: int|
            0 <= i < types.len() ==> (#[trigger] items[i]) is Scalar && names_type(
                items[i]->Scalar_value,
                types[i],
            ),
    ensures
        types_named(items, k) == types.take(k as int),
    decreases k,
{
    if k > 0 {
        lemma_types_named(items, types, (k - 1) as nat);
        assert(items[k - 1] is Scalar);
        lemma_type_name(items[k - 1]->Scalar_value, types[k - 1]);
        assert(types.take(k as int) =~= types.take(k - 1).push(types[k - 1]));
    } else {
        assert(types.take(0) =~= Seq::<JsonType>::empty());
    }
}

/// The keyword `type` takes the name of one type, or a list of names.
pub proof fn law_type_keyword(
    n: NodeView,
    m: NodeView,
    entries: Seq<(NodeView, NodeView)>,
    key: NodeView,
    v: NodeView,
    types: Seq<JsonType>,
)
    requires
        holds(n, entries),
        holds(m, entries.push((key, v))),
        says(key, "type"@),
        v is Scalar && types.len() == 1 && names_type(v->Scalar_value, types[0]) || v is Sequence
            && v->Sequence_items.len() == types.len() && forall|i: int|
            0 <= i < types.len() ==> (#[trigger] v->Sequence_items[i]) is Scalar && names_type(
                v->Sequence_items[i]->Scalar_value,
                types[i],
            ),
    ensures
        schema_of(m) == (SchemaView { types: Some(types), ..schema_of(n) }),
{
    lemma_one_more(n, m, entries, key, v);
    lemma_names();
    if v is Scalar {
        lemma_type_name(v->Scalar_value, types[0]);
        assert(seq![types[0]] =~= types);
    } else {
        lemma_types_named(v->Sequence_items, types, types.len());
        assert(types.take(types.len() as int) =~= types);
    }
}

/// The keyword `items` takes a schema.
pub proof fn law_items_keyword(
    n: NodeView,
    m: NodeView,
    entries: Seq<(NodeView, NodeView)>,
    key: NodeView,
    v: NodeView,
)
    requires
        holds(n, entries),
        holds(m, entries.push((key, v))),
        says(key, "items"@),
    ensures
        schema_of(m) == (SchemaView { items: Some(Box::new(schema_of(v))), ..schema_of(n) }),
{
    lemma_one_more(n, m, entries, key, v);
    lemma_names();
}

proof fn lemma_place(properties: Seq<(Seq<char>, SchemaView)>, name: Seq<char>, i: int)
    requires
        0 <= i <= properties.len(),
    ensures
        i <= property_place(properties, name, i) <= properties.len(),
        forall|j: int|
            i <= j < property_place(properties, name, i) ==> (#[trigger] properties[j]).0 != name,
    decreases properties.len() - i,
{
    if i < properties.len() && crate::order::lex_lt(
        vstd::utf8::encode_utf8(properties[i].0),
        vstd::utf8::encode_utf8(name),
    ) {
        lemma_place(properties, name, i + 1);
        if properties[i].0 == name {
            crate::order::law_lex_order(
                vstd::utf8::encode_utf8(name),
                vstd::utf8::encode_utf8(name),
                vstd::utf8::encode_utf8(name),
            );
        }
    }
}

/// The first of equal names decides.
proof fn lemma_first_property(
    properties: Seq<(Seq<char>, SchemaView)>,
    name: Seq<char>,
    i: int,
    at: int,
)
    requires
        0 <= i <= at < properties.len(),
        forall|j: int| i <= j < at ==> (#[trigger] properties[j]).0 != name,
        properties[at].0 == name,
    ensures
        property_of(properties, name, i) == Some(properties[at].1),
    decreases at - i,
{
    if i < at {
        assert(properties[i].0 != name);
        lemma_first_property(properties, name, i + 1, at);
    }
}

/// One more property leaves the others alone.
proof fn lemma_other_property(
    properties: Seq<(Seq<char>, SchemaView)>,
    name: Seq<char>,
    sub: SchemaView,
    other: Seq<char>,
    i: int,
)
    requires
        other != name,
        0 <= i <= properties.len(),
    ensures
        ({
            let at = property_place(properties, name, 0);
            let more = with_property(properties, name, sub);
            property_of(
                more,
                other,
                if i >= at && more.len() > properties.len() {
                    i + 1
                } else {
                    i
                },
            ) == property_of(properties, other, i)
        }),
    decreases properties.len() - i,
{
    let at = property_place(properties, name, 0);
    let more = with_property(properties, name, sub);
    lemma_place(properties, name, 0);
    let grown = more.len() > properties.len();
    if i < properties.len() {
        lemma_other_property(properties, name, sub, other, i + 1);
        if grown {
            if i < at {
                assert(more[i] == properties[i]);
                if i + 1 == at {
                    assert(more[at] == (name, sub));
                }
            } else {
                assert(more[i + 1] == properties[i]);
            }
        } else {
            assert(i != at ==> more[i] == properties[i]);
            assert(i == at ==> more[i] == (name, sub) && properties[i].0 == name);
        }
    }
}

/// A property that is read has its own schema, and every other name has the schema that it
/// had before.
pub proof fn law_property_is_read(
    entries: Seq<(NodeView, NodeView)>,
    base: Seq<(Seq<char>, SchemaView)>,
    key: NodeView,
    v: NodeView,
    other: Seq<char>,
)
    requires
        key is Scalar,
        other != key->Scalar_value,
    ensures
        ({
            let before = properties_of(entries, entries.len(), base);
            let after = properties_of(entries.push((key, v)), entries.len() + 1, base);
            &&& property_of(after, key->Scalar_value, 0) == Some(schema_of(v))
            &&& property_of(after, other, 0) == property_of(before, other, 0)
        }),
{
    let all = entries.push((key, v));
    let name = key->Scalar_value;
    lemma_properties_before(entries, (key, v), base, entries.len());
    assert(all[entries.len() as int] == (key, v));
    assert(key.as_str() == Some(name));
    let before = properties_of(entries, entries.len(), base);
    let after = with_property(before, name, schema_of(v));
    assert(properties_of(all, all.len(), base) == after);
    let at = property_place(before, name, 0);
    lemma_place(before, name, 0);
    assert forall|j: int| 0 <= j < at implies (#[trigger] after[j]).0 != name by {
        assert(after[j] == before[j]);
    }
    assert(after[at] == (name, schema_of(v)));
    lemma_first_property(after, name, 0, at);
    lemma_other_property(before, name, schema_of(v), other, 0);
    if at == 0 && after.len() > before.len() {
        assert(after[0].0 == name);
    }
}

proof fn lemma_properties_before(
    entries: Seq<(NodeView, NodeView)>,
    entry: (NodeView, NodeView),
    base: Seq<(Seq<char>, SchemaView)>,
    k: nat,
)
    requires
        k <= entries.len(),
    ensures
        properties_of(entries.push(entry), k, base) == properties_of(entries, k, base),
    decreases k,
{
    if k > 0 {
        lemma_properties_before(entries, entry, base, (k - 1) as nat);
        assert(entries.push(entry)[k - 1] == entries[k - 1]);
    }
}

/// The keyword `properties` adds its entries to the properties, and changes nothing else.
pub proof fn law_properties_keyword(
    n: NodeView,
    m: NodeView,
    entries: Seq<(NodeView, NodeView)>,
    key: NodeView,
    v: NodeView,
)
    requires
        holds(n, entries),
        holds(m, entries.push((key, v))),
        says(key, "properties"@),
        v is Mapping,
    ensures
        schema_of(m) == (SchemaView {
            properties: properties_of(
                v->Mapping_entries,
                v->Mapping_entries.len(),
                schema_of(n).properties,
            ),
            ..schema_of(n)
        }),
{
    lemma_one_more(n, m, entries, key, v);
}

} // verus!
