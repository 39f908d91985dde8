//! The `Schema` model and the supported JSON-Schema draft 2020-12 subset.
use crate::node::{Node, NodeView};
use crate::order::text_before;
use crate::schema::number::is_float_text;
use crate::text::{parse_usize, same_text};
use vstd::prelude::*;
use vstd::string::*;

verus! {

/// JSON value types recognized by the `type` keyword.
#[derive(Debug, Clone, Copy, PartialEq, Eq, Structural)]
pub enum JsonType {
    /// null
    Null,
    /// boolean
    Boolean,
    /// integer
    Integer,
    /// number
    Number,
    /// string
    String,
    /// array
    Array,
    /// object
    Object,
}

/// A parsed JSON-Schema (draft 2020-12 subset). Unknown keywords are ignored.
#[derive(Debug)]
pub struct Schema {
    /// Allowed `type`(s).
    pub types: Option<Vec<JsonType>>,
    /// Required property names.
    pub required: Vec<String>,
    /// Per-property subschemas, in the order of their names.
    pub properties: Vec<(String, Schema)>,
    /// `additionalProperties: false` rejects unlisted keys.
    pub additional_properties: Option<bool>,
    /// Subschema applied to every array item.
    pub items: Option<Box<Schema>>,
    /// Allowed scalar values (`enum`), compared as text.
    pub enum_values: Option<Vec<String>>,
    /// Required exact scalar value (`const`), as text.
    pub const_value: Option<String>,
    /// Inclusive numeric lower bound, as source text.
    pub minimum: Option<String>,
    /// Inclusive numeric upper bound, as source text.
    pub maximum: Option<String>,
    /// Minimum string length.
    pub min_length: Option<usize>,
    /// Maximum string length.
    pub max_length: Option<usize>,
    /// Minimum array length.
    pub min_items: Option<usize>,
    /// Maximum array length.
    pub max_items: Option<usize>,
    /// Minimum object property count.
    pub min_properties: Option<usize>,
    /// Maximum object property count.
    pub max_properties: Option<usize>,
    /// Default scalar value (`default`), as source text. Object/array defaults are ignored.
    pub default: Option<String>,
}

/// The value of a [`Schema`].
#[verifier::ext_equal]
pub struct SchemaView {
    pub types: Option<Seq<JsonType>>,
    pub required: Seq<Seq<char>>,
    pub properties: Seq<(Seq<char>, SchemaView)>,
    pub additional_properties: Option<bool>,
    pub items: Option<Box<SchemaView>>,
    pub enum_values: Option<Seq<Seq<char>>>,
    pub const_value: Option<Seq<char>>,
    pub minimum: Option<Seq<char>>,
    pub maximum: Option<Seq<char>>,
    pub min_length: Option<usize>,
    pub max_length: Option<usize>,
    pub min_items: Option<usize>,
    pub max_items: Option<usize>,
    pub min_properties: Option<usize>,
    pub max_properties: Option<usize>,
    pub default: Option<Seq<char>>,
}

/// The values of some strings.
pub open spec fn string_views(s: Seq<String>) -> Seq<Seq<char>> {
    Seq::new(s.len(), |i: int| s[i]@)
}

/// The value of an optional list of strings.
pub open spec fn list_view(v: Option<Vec<String>>) -> Option<Seq<Seq<char>>> {
    match v {
        Some(s) => Some(string_views(s@)),
        None => None,
    }
}

/// The value of an optional list of types.
pub open spec fn types_view(v: Option<Vec<JsonType>>) -> Option<Seq<JsonType>> {
    match v {
        Some(s) => Some(s@),
        None => None,
    }
}

/// The value of an optional string.
pub open spec fn text_view(v: Option<String>) -> Option<Seq<char>> {
    match v {
        Some(s) => Some(s@),
        None => None,
    }
}

/// The value of a schema.
pub open spec fn schema_value(s: Schema) -> SchemaView
    decreases s,
{
    SchemaView {
        types: types_view(s.types),
        required: string_views(s.required@),
        properties: Seq::new(
            s.properties@.len(),
            |i: int|
                if 0 <= i < s.properties@.len() {
                    (s.properties@[i].0@, schema_value(s.properties@[i].1))
                } else {
                    arbitrary()
                },
        ),
        additional_properties: s.additional_properties,
        items: match s.items {
            Some(item) => Some(Box::new(schema_value(*item))),
            None => None,
        },
        enum_values: list_view(s.enum_values),
        const_value: text_view(s.const_value),
        minimum: text_view(s.minimum),
        maximum: text_view(s.maximum),
        min_length: s.min_length,
        max_length: s.max_length,
        min_items: s.min_items,
        max_items: s.max_items,
        min_properties: s.min_properties,
        max_properties: s.max_properties,
        default: text_view(s.default),
    }
}

impl View for Schema {
    type V = SchemaView;

    open spec fn view(&self) -> SchemaView {
        schema_value(*self)
    }
}

/// The values of some properties.
pub open spec fn property_values(s: Seq<(String, Schema)>) -> Seq<(Seq<char>, SchemaView)> {
    Seq::new(s.len(), |i: int| (s[i].0@, s[i].1@))
}

/// The value of a schema's properties consists of the values of each.
pub proof fn lemma_property_values(s: Schema)
    ensures
        s@.properties == property_values(s.properties@),
{
    assert(s@.properties =~= property_values(s.properties@));
}

/// The type that a name denotes.
pub open spec fn json_type(s: Seq<char>) -> Option<JsonType> {
    if s == "null"@ {
        Some(JsonType::Null)
    } else if s == "boolean"@ {
        Some(JsonType::Boolean)
    } else if s == "integer"@ {
        Some(JsonType::Integer)
    } else if s == "number"@ {
        Some(JsonType::Number)
    } else if s == "string"@ {
        Some(JsonType::String)
    } else if s == "array"@ {
        Some(JsonType::Array)
    } else if s == "object"@ {
        Some(JsonType::Object)
    } else {
        None
    }
}

/// The types that the first `k` items name; the others are passed over.
pub open spec fn types_named(items: Seq<NodeView>, k: nat) -> Seq<JsonType>
    decreases k,
{
    if 0 < k <= items.len() {
        let rest = types_named(items, (k - 1) as nat);
        match items[k - 1].as_str() {
            Some(s) => match json_type(s) {
                Some(t) => rest.push(t),
                None => rest,
            },
            None => rest,
        }
    } else {
        seq![]
    }
}

/// The types that the `type` keyword allows.
pub open spec fn types_of(v: NodeView) -> Option<Seq<JsonType>> {
    match v {
        NodeView::Scalar { value, .. } => match json_type(value) {
            Some(t) => Some(seq![t]),
            None => None,
        },
        NodeView::Sequence { items, .. } => Some(types_named(items, items.len())),
        _ => None,
    }
}

/// The texts of the scalars among the first `k` items.
pub open spec fn texts_of(items: Seq<NodeView>, k: nat) -> Seq<Seq<char>>
    decreases k,
{
    if 0 < k <= items.len() {
        let rest = texts_of(items, (k - 1) as nat);
        match items[k - 1].as_str() {
            Some(s) => rest.push(s),
            None => rest,
        }
    } else {
        seq![]
    }
}

/// The texts of the scalars of a sequence; none for another node.
pub open spec fn list_of(v: NodeView) -> Seq<Seq<char>> {
    match v {
        NodeView::Sequence { items, .. } => texts_of(items, items.len()),
        _ => seq![],
    }
}

/// The number that a scalar denotes.
pub open spec fn size_of(v: NodeView) -> Option<usize> {
    match v.as_str() {
        Some(s) => match crate::text::usize_value(s) {
            Some(n) => Some(n as usize),
            None => None,
        },
        None => None,
    }
}

/// The text of a scalar that denotes a floating-point number.
pub open spec fn bound_of(v: NodeView) -> Option<Seq<char>> {
    match v.as_str() {
        Some(s) => if crate::schema::number::is_float(s) {
            Some(s)
        } else {
            None
        },
        None => None,
    }
}

/// The place of a name among sorted properties, from the `i`th on.
pub open spec fn property_place(
    properties: Seq<(Seq<char>, SchemaView)>,
    name: Seq<char>,
    i: int,
) -> int
    decreases properties.len() - i,
{
    if 0 <= i < properties.len() && crate::order::lex_lt(
        vstd::utf8::encode_utf8(properties[i].0),
        vstd::utf8::encode_utf8(name),
    ) {
        property_place(properties, name, i + 1)
    } else {
        i
    }
}

/// Sorted properties with one more, or with another subschema for one.
pub open spec fn with_property(
    properties: Seq<(Seq<char>, SchemaView)>,
    name: Seq<char>,
    sub: SchemaView,
) -> Seq<(Seq<char>, SchemaView)> {
    let at = property_place(properties, name, 0);
    if at < properties.len() && properties[at].0 == name {
        properties.update(at, (name, sub))
    } else {
        properties.insert(at, (name, sub))
    }
}

/// The subschema of a property, from the `i`th on.
pub open spec fn property_of(
    properties: Seq<(Seq<char>, SchemaView)>,
    name: Seq<char>,
    i: int,
) -> Option<SchemaView>
    decreases properties.len() - i,
{
    if !(0 <= i < properties.len()) {
        None
    } else if properties[i].0 == name {
        Some(properties[i].1)
    } else {
        property_of(properties, name, i + 1)
    }
}

impl SchemaView {
    /// The schema that accepts everything.
    pub open spec fn empty() -> SchemaView {
        SchemaView {
            types: None,
            required: seq![],
            properties: seq![],
            additional_properties: None,
            items: None,
            enum_values: None,
            const_value: None,
            minimum: None,
            maximum: None,
            min_length: None,
            max_length: None,
            min_items: None,
            max_items: None,
            min_properties: None,
            max_properties: None,
            default: None,
        }
    }

    /// With the keyword `key` set to `v`, for keywords without subschemas; unknown
    /// keywords are ignored.
    pub open spec fn with_keyword(self, key: Seq<char>, v: NodeView) -> SchemaView {
        if key == "type"@ {
            SchemaView { types: types_of(v), ..self }
        } else if key == "required"@ {
            SchemaView { required: list_of(v), ..self }
        } else if key == "additionalProperties"@ {
            SchemaView {
                additional_properties: match v.as_str() {
                    Some(s) => Some(s == "true"@),
                    None => None,
                },
                ..self
            }
        } else if key == "enum"@ {
            SchemaView { enum_values: Some(list_of(v)), ..self }
        } else if key == "const"@ {
            SchemaView { const_value: v.as_str(), ..self }
        } else if key == "minimum"@ {
            SchemaView { minimum: bound_of(v), ..self }
        } else if key == "maximum"@ {
            SchemaView { maximum: bound_of(v), ..self }
        } else if key == "minLength"@ {
            SchemaView { min_length: size_of(v), ..self }
        } else if key == "maxLength"@ {
            SchemaView { max_length: size_of(v), ..self }
        } else if key == "minItems"@ {
            SchemaView { min_items: size_of(v), ..self }
        } else if key == "maxItems"@ {
            SchemaView { max_items: size_of(v), ..self }
        } else if key == "minProperties"@ {
            SchemaView { min_properties: size_of(v), ..self }
        } else if key == "maxProperties"@ {
            SchemaView { max_properties: size_of(v), ..self }
        } else if key == "default"@ {
            SchemaView { default: v.as_str(), ..self }
        } else {
            self
        }
    }
}

/// The schema that a node describes. What is no mapping describes the schema that
/// accepts everything.
pub open spec fn schema_of(n: NodeView) -> SchemaView
    decreases n,
{
    match n {
        NodeView::Mapping { entries, .. } => keywords_of(entries, entries.len()),
        _ => SchemaView::empty(),
    }
}

/// The schema that the first `k` keywords describe. A later one of the same name
/// counts, but for `properties`, which add up.
pub open spec fn keywords_of(entries: Seq<(NodeView, NodeView)>, k: nat) -> SchemaView
    decreases entries, k,
{
    if 0 < k <= entries.len() {
        let s = keywords_of(entries, (k - 1) as nat);
        match entries[k - 1].0.as_str() {
            None => s,
            Some(key) => if key == "properties"@ {
                match entries[k - 1].1 {
                    NodeView::Mapping { entries: named, .. } => SchemaView {
                        properties: properties_of(named, named.len(), s.properties),
                        ..s
                    },
                    _ => s,
                }
            } else if key == "items"@ {
                SchemaView { items: Some(Box::new(schema_of(entries[k - 1].1))), ..s }
            } else {
                s.with_keyword(key, entries[k - 1].1)
            },
        }
    } else {
        SchemaView::empty()
    }
}

/// Some properties, and those that the first `k` entries describe.
pub open spec fn properties_of(
    entries: Seq<(NodeView, NodeView)>,
    k: nat,
    base: Seq<(Seq<char>, SchemaView)>,
) -> Seq<(Seq<char>, SchemaView)>
    decreases entries, k,
{
    if 0 < k <= entries.len() {
        let rest = properties_of(entries, (k - 1) as nat, base);
        match entries[k - 1].0.as_str() {
            Some(name) => with_property(rest, name, schema_of(entries[k - 1].1)),
            None => rest,
        }
    } else {
        base
    }
}

/// Each property comes behind all whose names are smaller, and no name occurs twice.
pub open spec fn in_order(properties: Seq<(Seq<char>, SchemaView)>) -> bool {
    forall|i: int, j: int|
        0 <= i < j < properties.len() ==> crate::order::lex_lt(
            vstd::utf8::encode_utf8(#[trigger] properties[i].0),
            vstd::utf8::encode_utf8(#[trigger] properties[j].0),
        )
}

proof fn lemma_property_place(
    properties: Seq<(Seq<char>, SchemaView)>,
    name: Seq<char>,
    i: int,
)
    requires
        0 <= i <= properties.len(),
    ensures
        i <= property_place(properties, name, i) <= properties.len(),
        forall|j: int|
            i <= j < property_place(properties, name, i) ==> crate::order::lex_lt(
                vstd::utf8::encode_utf8(#[trigger] properties[j].0),
                vstd::utf8::encode_utf8(name),
            ),
        property_place(properties, name, i) < properties.len() ==> !crate::order::lex_lt(
            vstd::utf8::encode_utf8(properties[property_place(properties, name, i)].0),
            vstd::utf8::encode_utf8(name),
        ),
    decreases properties.len() - i,
{
    if i < properties.len() && crate::order::lex_lt(
        vstd::utf8::encode_utf8(properties[i].0),
        vstd::utf8::encode_utf8(name),
    ) {
        lemma_property_place(properties, name, i + 1);
    }
}

/// Different texts have different bytes.
proof fn lemma_same_bytes(a: Seq<char>, b: Seq<char>)
    requires
        vstd::utf8::encode_utf8(a) == vstd::utf8::encode_utf8(b),
    ensures
        a == b,
{
    vstd::utf8::encode_utf8_decode_utf8(a);
    vstd::utf8::encode_utf8_decode_utf8(b);
}

proof fn lemma_with_property(
    properties: Seq<(Seq<char>, SchemaView)>,
    name: Seq<char>,
    sub: SchemaView,
)
    requires
        in_order(properties),
    ensures
        in_order(with_property(properties, name, sub)),
{
    let at = property_place(properties, name, 0);
    lemma_property_place(properties, name, 0);
    let out = with_property(properties, name, sub);
    let b = vstd::utf8::encode_utf8(name);
    assert forall|i: int, j: int| 0 <= i < j < out.len() implies crate::order::lex_lt(
        vstd::utf8::encode_utf8(#[trigger] out[i].0),
        vstd::utf8::encode_utf8(#[trigger] out[j].0),
    ) by {
        if !(at < properties.len() && properties[at].0 == name) {
            if i == at {
                let next = properties[at].0;
                let last = properties[j - 1].0;
                let x = vstd::utf8::encode_utf8(next);
                let y = vstd::utf8::encode_utf8(last);
                crate::order::law_lex_order(b, x, y);
                if x == b {
                    lemma_same_bytes(next, name);
                }
                if at < j - 1 {
                    assert(crate::order::lex_lt(x, y));
                }
            } else if j == at {
                assert(out[i] == properties[i]);
            } else if i < at && j > at {
                assert(out[i] == properties[i] && out[j] == properties[j - 1]);
            } else if i > at {
                assert(out[i] == properties[i - 1] && out[j] == properties[j - 1]);
            } else {
                assert(out[i] == properties[i] && out[j] == properties[j]);
            }
        } else {
            assert(out[i].0 == properties[i].0 && out[j].0 == properties[j].0);
        }
    }
}

proof fn lemma_properties_of(
    entries: Seq<(NodeView, NodeView)>,
    k: nat,
    base: Seq<(Seq<char>, SchemaView)>,
)
    requires
        in_order(base),
    ensures
        in_order(properties_of(entries, k, base)),
    decreases k,
{
    if 0 < k <= entries.len() {
        lemma_properties_of(entries, (k - 1) as nat, base);
        if let Some(name) = entries[k - 1].0.as_str() {
            lemma_with_property(
                properties_of(entries, (k - 1) as nat, base),
                name,
                schema_of(entries[k - 1].1),
            );
        }
    }
}

proof fn lemma_keywords_of(entries: Seq<(NodeView, NodeView)>, k: nat)
    ensures
        in_order(keywords_of(entries, k).properties),
    decreases k,
{
    if 0 < k <= entries.len() {
        lemma_keywords_of(entries, (k - 1) as nat);
        if let Some(key) = entries[k - 1].0.as_str() {
            if let NodeView::Mapping { entries: named, .. } = entries[k - 1].1 {
                lemma_properties_of(
                    named,
                    named.len(),
                    keywords_of(entries, (k - 1) as nat).properties,
                );
            }
        }
    }
}

/// The properties of a schema are in the order of their names, each name once.
pub proof fn law_properties_in_order(n: NodeView)
    ensures
        in_order(schema_of(n).properties),
{
    if let NodeView::Mapping { entries, .. } = n {
        lemma_keywords_of(entries, entries.len());
    }
}

/// Maps a `type` string to a [`JsonType`].
#[must_use]
pub fn parse_json_type(s: &str) -> (r: Option<JsonType>)
    ensures
        r == json_type(s@),
{
    if same_text(s, "null") {
        Some(JsonType::Null)
    } else if same_text(s, "boolean") {
        Some(JsonType::Boolean)
    } else if same_text(s, "integer") {
        Some(JsonType::Integer)
    } else if same_text(s, "number") {
        Some(JsonType::Number)
    } else if same_text(s, "string") {
        Some(JsonType::String)
    } else if same_text(s, "array") {
        Some(JsonType::Array)
    } else if same_text(s, "object") {
        Some(JsonType::Object)
    } else {
        None
    }
}

/// The types that the `type` keyword allows.
fn parse_types(v: &Node<'_>) -> (r: Option<Vec<JsonType>>)
    ensures
        types_view(r) == types_of(v@),
{
    if let Some(t) = v.as_str() {
        return match parse_json_type(t) {
            Some(jt) => {
                let r: Vec<JsonType> = vec![jt];
                assert(r@ =~= seq![jt]);
                Some(r)
            },
            None => None,
        };
    }
    match v.as_sequence() {
        None => None,
        Some(items) => {
            let mut out: Vec<JsonType> = Vec::new();
            let ghost views = crate::node::node_values(items@);
            let mut i: usize = 0;
            while i < items.len()
                invariant
                    i <= items@.len(),
                    views == crate::node::node_values(items@),
                    out@ == types_named(views, i as nat),
                decreases items@.len() - i,
            {
                assert(views[i as int] == items@[i as int]@);
                if let Some(s) = items[i].as_str() {
                    if let Some(t) = parse_json_type(s) {
                        out.push(t);
                    }
                }
                i += 1;
            }
            Some(out)
        },
    }
}

/// The texts of the scalars of a sequence.
fn parse_string_list(v: &Node<'_>) -> (r: Vec<String>)
    ensures
        string_views(r@) == list_of(v@),
{
    let mut out: Vec<String> = Vec::new();
    assert(string_views(out@) =~= Seq::<Seq<char>>::empty());
    if let Some(items) = v.as_sequence() {
        let ghost views = crate::node::node_values(items@);
        let mut i: usize = 0;
        while i < items.len()
            invariant
                i <= items@.len(),
                views == crate::node::node_values(items@),
                string_views(out@) == texts_of(views, i as nat),
            decreases items@.len() - i,
        {
            assert(views[i as int] == items@[i as int]@);
            if let Some(s) = items[i].as_str() {
                let ghost before = string_views(out@);
                out.push(s.to_owned());
                assert(string_views(out@) =~= before.push(s@));
            }
            i += 1;
        }
    }
    out
}

/// The text of a scalar.
fn parse_text(v: &Node<'_>) -> (r: Option<String>)
    ensures
        text_view(r) == v@.as_str(),
{
    match v.as_str() {
        Some(s) => Some(s.to_owned()),
        None => None,
    }
}

/// The number that a scalar denotes.
fn parse_size(v: &Node<'_>) -> (r: Option<usize>)
    ensures
        r == size_of(v@),
{
    match v.as_str() {
        Some(s) => parse_usize(s),
        None => None,
    }
}

/// The text of a scalar that denotes a floating-point number.
fn parse_bound(v: &Node<'_>) -> (r: Option<String>)
    ensures
        text_view(r) == bound_of(v@),
{
    match v.as_str() {
        Some(s) => if is_float_text(s) {
            Some(s.to_owned())
        } else {
            None
        },
        None => None,
    }
}

impl Default for Schema {
    fn default() -> (r: Self)
        ensures
            r@ == SchemaView::empty(),
    {
        let r = Schema {
            types: None,
            required: Vec::new(),
            properties: Vec::new(),
            additional_properties: None,
            items: None,
            enum_values: None,
            const_value: None,
            minimum: None,
            maximum: None,
            min_length: None,
            max_length: None,
            min_items: None,
            max_items: None,
            min_properties: None,
            max_properties: None,
            default: None,
        };
        assert(r@.required =~= SchemaView::empty().required);
        assert(r@.properties =~= SchemaView::empty().properties);
        assert(r@ =~= SchemaView::empty());
        r
    }
}

impl Schema {
    /// Parses a `Schema` from a schema-document node. A non-mapping node yields
    /// an empty (accept-all) schema; unknown keywords are ignored.
    #[must_use]
    pub fn from_node(node: &Node<'_>) -> (r: Schema)
        ensures
            r@ == schema_of(node@),
        decreases node,
    {
        let mut s = Schema::default();
        if let Node::Mapping(m) = node {
            let ghost entries = crate::node::entry_values(m.entries@);
            proof {
                crate::node::lemma_mapping_value(*m);
            }
            let mut i: usize = 0;
            while i < m.entries.len()
                invariant
                    i <= m.entries@.len(),
                    node is Mapping,
                    *m == node->Mapping_0,
                    entries == crate::node::entry_values(m.entries@),
                    s@ == keywords_of(entries, i as nat),
                decreases m.entries@.len() - i,
            {
                let ghost before = s@;
                assert(entries[i as int] == (m.entries@[i as int].0@, m.entries@[i as int].1@));
                if let Some(key) = m.entries[i].0.as_str() {
                    let v = &m.entries[i].1;
                    if same_text(key, "properties") {
                        if let Node::Mapping(named) = v {
                            proof {
                                crate::node::lemma_mapping_value(*named);
                                lemma_property_values(s);
                            }
                            let ghost old_s = s;
                            let ghost views = crate::node::entry_values(named.entries@);
                            let ghost base = s@.properties;
                            let mut j: usize = 0;
                            let mut properties: Vec<(String, Schema)> = s.properties;
                            while j < named.entries.len()
                                invariant
                                    j <= named.entries@.len(),
                                    i < m.entries@.len(),
                                    node is Mapping,
                                    *m == node->Mapping_0,
                                    m.entries@[i as int].1 is Mapping,
                                    *named == m.entries@[i as int].1->Mapping_0,
                                    views == crate::node::entry_values(named.entries@),
                                    property_values(properties@) == properties_of(
                                        views,
                                        j as nat,
                                        base,
                                    ),
                                decreases named.entries@.len() - j,
                            {
                                assert(views[j as int] == (
                                    named.entries@[j as int].0@,
                                    named.entries@[j as int].1@,
                                ));
                                if let Some(name) = named.entries[j].0.as_str() {
                                    let sub = Schema::from_node(&named.entries[j].1);
                                    set_property(&mut properties, name, sub);
                                }
                                j += 1;
                            }
                            s.properties = properties;
                            proof {
                                lemma_property_values(s);
                                assert(s@ =~= SchemaView {
                                    properties: properties_of(views, views.len(), base),
                                    ..before
                                });
                            }
                        }
                    } else if same_text(key, "items") {
                        s.items = Some(Box::new(Schema::from_node(v)));
                        assert(s@ =~= SchemaView {
                            items: Some(Box::new(schema_of(v@))),
                            ..before
                        });
                    } else {
                        s.set_keyword(key, v);
                    }
                }
                i += 1;
            }
        }
        s
    }

    /// Sets a keyword that has no subschemas.
    fn set_keyword(&mut self, key: &str, v: &Node<'_>)
        ensures
            final(self)@ == old(self)@.with_keyword(key@, v@),
    {
        if same_text(key, "type") {
            self.types = parse_types(v);
        } else if same_text(key, "required") {
            self.required = parse_string_list(v);
        } else if same_text(key, "additionalProperties") {
            self.additional_properties = match v.as_str() {
                Some(s) => Some(same_text(s, "true")),
                None => None,
            };
        } else if same_text(key, "enum") {
            self.enum_values = Some(parse_string_list(v));
        } else if same_text(key, "const") {
            self.const_value = parse_text(v);
        } else if same_text(key, "minimum") {
            self.minimum = parse_bound(v);
        } else if same_text(key, "maximum") {
            self.maximum = parse_bound(v);
        } else if same_text(key, "minLength") {
            self.min_length = parse_size(v);
        } else if same_text(key, "maxLength") {
            self.max_length = parse_size(v);
        } else if same_text(key, "minItems") {
            self.min_items = parse_size(v);
        } else if same_text(key, "maxItems") {
            self.max_items = parse_size(v);
        } else if same_text(key, "minProperties") {
            self.min_properties = parse_size(v);
        } else if same_text(key, "maxProperties") {
            self.max_properties = parse_size(v);
        } else if same_text(key, "default") {
            self.default = parse_text(v);
        }
        assert(self@ =~= old(self)@.with_keyword(key@, v@));
    }

    /// The subschema of a property.
    #[must_use]
    pub fn property(&self, name: &str) -> (r: Option<&Schema>)
        ensures
            match property_of(self@.properties, name@, 0) {
                Some(sub) => r matches Some(s) && s@ == sub && decreases_to!(self => s),
                None => r is None,
            },
    {
        proof {
            lemma_property_values(*self);
        }
        let ghost views = property_values(self.properties@);
        let mut i: usize = 0;
        while i < self.properties.len()
            invariant
                i <= self.properties@.len(),
                views == property_values(self.properties@),
                views == self@.properties,
                property_of(views, name@, i as int) == property_of(views, name@, 0),
            decreases self.properties@.len() - i,
        {
            assert(views[i as int] == (
                self.properties@[i as int].0@,
                self.properties@[i as int].1@,
            ));
            if same_text(self.properties[i].0.as_str(), name) {
                return Some(&self.properties[i].1);
            }
            i += 1;
        }
        None
    }
}

/// Adds a property in its place, or gives it another subschema.
fn set_property(properties: &mut Vec<(String, Schema)>, name: &str, sub: Schema)
    ensures
        property_values(final(properties)@) == with_property(
            property_values(old(properties)@),
            name@,
            sub@,
        ),
{
    let ghost views = property_values(properties@);
    let n: usize = properties.len();
    let mut at: usize = 0;
    while at < n && text_before(properties[at].0.as_str(), name)
        invariant
            at <= n,
            n == properties@.len(),
            properties@ == old(properties)@,
            views == property_values(properties@),
            property_place(views, name@, at as int) == property_place(views, name@, 0),
        decreases n - at,
    {
        at += 1;
    }
    let ghost value = sub@;
    if at < n && same_text(properties[at].0.as_str(), name) {
        properties.set(at, (name.to_owned(), sub));
        assert(property_values(properties@) =~= views.update(at as int, (name@, value)));
    } else {
        properties.insert(at, (name.to_owned(), sub));
        assert(property_values(properties@) =~= views.insert(at as int, (name@, value)));
    }
}

/// A copy of an optional string.
fn copy_text(t: &Option<String>) -> (r: Option<String>)
    ensures
        text_view(r) == text_view(*t),
{
    match t {
        Some(s) => Some(s.clone()),
        None => None,
    }
}

/// A copy of some strings.
fn copy_list(list: &Vec<String>) -> (r: Vec<String>)
    ensures
        string_views(r@) == string_views(list@),
{
    let mut out: Vec<String> = Vec::new();
    let mut i: usize = 0;
    while i < list.len()
        invariant
            i <= list@.len(),
            out@.len() == i,
            forall|k: int| 0 <= k < i ==> (#[trigger] out@[k])@ == list@[k]@,
        decreases list@.len() - i,
    {
        out.push(list[i].clone());
        i += 1;
    }
    assert(string_views(out@) =~= string_views(list@));
    out
}

/// A copy of a schema.
fn copy_schema(s: &Schema) -> (r: Schema)
    ensures
        r@ == s@,
    decreases s,
{
    let mut properties: Vec<(String, Schema)> = Vec::new();
    let mut i: usize = 0;
    while i < s.properties.len()
        invariant
            i <= s.properties@.len(),
            properties@.len() == i,
            forall|k: int|
                0 <= k < i ==> (#[trigger] properties@[k]).0@ == s.properties@[k].0@
                    && properties@[k].1@ == s.properties@[k].1@,
        decreases s.properties@.len() - i,
    {
        properties.push((s.properties[i].0.clone(), copy_schema(&s.properties[i].1)));
        i += 1;
    }
    let types = match &s.types {
        Some(types) => {
            let mut out: Vec<JsonType> = Vec::new();
            let mut k: usize = 0;
            while k < types.len()
                invariant
                    k <= types@.len(),
                    out@ == types@.take(k as int),
                decreases types@.len() - k,
            {
                out.push(types[k]);
                k += 1;
                assert(out@ =~= types@.take(k as int));
            }
            assert(out@ =~= types@);
            Some(out)
        },
        None => None,
    };
    let items = match &s.items {
        Some(sub) => Some(Box::new(copy_schema(sub))),
        None => None,
    };
    let enum_values = match &s.enum_values {
        Some(list) => Some(copy_list(list)),
        None => None,
    };
    let r = Schema {
        types,
        required: copy_list(&s.required),
        properties,
        additional_properties: s.additional_properties,
        items,
        enum_values,
        const_value: copy_text(&s.const_value),
        minimum: copy_text(&s.minimum),
        maximum: copy_text(&s.maximum),
        min_length: s.min_length,
        max_length: s.max_length,
        min_items: s.min_items,
        max_items: s.max_items,
        min_properties: s.min_properties,
        max_properties: s.max_properties,
        default: copy_text(&s.default),
    };
    proof {
        lemma_property_values(*s);
        lemma_property_values(r);
        assert(property_values(properties@) =~= property_values(s.properties@));
        assert(r@ =~= s@);
    }
    r
}

impl Clone for Schema {
    fn clone(&self) -> (r: Self)
        ensures
            r@ == self@,
    {
        copy_schema(self)
    }
}

} // verus!
