//! Span-anchored validation of a `Node` tree against a `Schema`.
//!
//! What a text denotes as a floating-point number is handed in: [`Number`] gives, for
//! a text, the place of its value in the order of numbers and the way the value is
//! shown. [`scalar_texts`] and [`bound_texts`] list the texts that may be asked for.
use crate::node::{Node, NodeView};
use crate::schema::model::{JsonType, Schema, SchemaView};
use crate::schema::number::{is_float_text, parse_integer};
use crate::text::{cow_str, push_decimal, same_text};
use crate::types::Span;
use vstd::prelude::*;
use vstd::string::*;

verus! {

/// A single validation failure, anchored to the offending node's source span.
#[derive(Debug, Clone, PartialEq)]
pub struct SchemaError {
    /// JSON-pointer-style path to the offending node (e.g. `/items/0/age`).
    pub path: String,
    /// Source span of the offending node.
    pub span: Span,
    /// Human-readable message.
    pub message: String,
}

/// The value of a [`SchemaError`].
pub struct SchemaErrorView {
    pub path: Seq<char>,
    pub span: Span,
    pub message: Seq<char>,
}

impl View for SchemaError {
    type V = SchemaErrorView;

    open spec fn view(&self) -> SchemaErrorView {
        SchemaErrorView { path: self.path@, span: self.span, message: self.message@ }
    }
}

/// The values of some failures.
pub open spec fn error_views(s: Seq<SchemaError>) -> Seq<SchemaErrorView> {
    Seq::new(s.len(), |i: int| s[i]@)
}

/// What a text denotes as a floating-point number. Texts that denote none, or
/// not-a-number, have no entry.
#[derive(Debug, Clone, PartialEq)]
pub struct Number {
    /// The text.
    pub text: String,
    /// The place of the number in the order of numbers: of two numbers the smaller
    /// one has the smaller place, and equal numbers have the same.
    pub order: i64,
    /// How the number is shown in messages.
    pub shown: String,
}

/// The value of a [`Number`].
pub struct NumberView {
    pub text: Seq<char>,
    pub order: int,
    pub shown: Seq<char>,
}

impl View for Number {
    type V = NumberView;

    open spec fn view(&self) -> NumberView {
        NumberView { text: self.text@, order: self.order as int, shown: self.shown@ }
    }
}

/// The values of some numbers.
pub open spec fn number_views(s: Seq<Number>) -> Seq<NumberView> {
    Seq::new(s.len(), |i: int| s[i]@)
}

/// The first number with the given text, from the `i`th on.
pub open spec fn number_of(numbers: Seq<NumberView>, text: Seq<char>, i: int) -> Option<NumberView>
    decreases numbers.len() - i,
{
    if !(0 <= i < numbers.len()) {
        None
    } else if numbers[i].text == text {
        Some(numbers[i])
    } else {
        number_of(numbers, text, i + 1)
    }
}

/// A text in quotes with its special characters escaped, as `{:?}` writes it.
pub uninterp spec fn debug_text(s: Seq<char>) -> Seq<char>;

/// Writes a text in quotes with its special characters escaped.
///
/// Stands for the `Debug` format of `str`, through `format!`: its result is a function
/// of the text alone, here called `debug_text`. Which characters it escapes, and how,
/// is not stated.
#[verifier::external_body]
fn debug_string(s: &str) -> (r: String)
    ensures
        r@ == debug_text(s@),
{
    format!("{s:?}")
}

/// The type of a plain scalar.
pub open spec fn scalar_type(s: Seq<char>) -> JsonType {
    if s == "null"@ || s == "Null"@ || s == "NULL"@ || s == "~"@ || s == ""@ {
        JsonType::Null
    } else if s == "true"@ || s == "True"@ || s == "TRUE"@ || s == "false"@ || s == "False"@ || s
        == "FALSE"@ {
        JsonType::Boolean
    } else if crate::schema::number::integer_value(s) is Some {
        JsonType::Integer
    } else if crate::schema::number::is_float(s) {
        JsonType::Number
    } else {
        JsonType::String
    }
}

/// The type of a node.
pub open spec fn type_of(n: NodeView) -> JsonType {
    match n {
        NodeView::Scalar { value, .. } => scalar_type(value),
        NodeView::Sequence { .. } => JsonType::Array,
        NodeView::Mapping { .. } => JsonType::Object,
    }
}

/// Whether `actual` satisfies `expected`: an integer satisfies `number` too.
pub open spec fn satisfies(expected: JsonType, actual: JsonType) -> bool {
    expected == actual || (expected == JsonType::Number && actual == JsonType::Integer)
}

/// Whether `actual` satisfies one of the types.
pub open spec fn satisfies_any(types: Seq<JsonType>, actual: JsonType) -> bool {
    exists|i: int| 0 <= i < types.len() && satisfies(#[trigger] types[i], actual)
}

/// The name of a type.
pub open spec fn name_of_type(t: JsonType) -> Seq<char> {
    match t {
        JsonType::Null => "null"@,
        JsonType::Boolean => "boolean"@,
        JsonType::Integer => "integer"@,
        JsonType::Number => "number"@,
        JsonType::String => "string"@,
        JsonType::Array => "array"@,
        JsonType::Object => "object"@,
    }
}

/// The names of the first `k` types.
pub open spec fn type_names(types: Seq<JsonType>, k: nat) -> Seq<char>
    decreases k,
{
    if 0 < k <= types.len() {
        let rest = type_names(types, (k - 1) as nat);
        if k == 1 {
            name_of_type(types[0])
        } else {
            rest + " or "@ + name_of_type(types[k - 1])
        }
    } else {
        seq![]
    }
}

/// The first `k` texts, quoted.
pub open spec fn quoted_list(texts: Seq<Seq<char>>, k: nat) -> Seq<char>
    decreases k,
{
    if 0 < k <= texts.len() {
        let rest = quoted_list(texts, (k - 1) as nat);
        if k == 1 {
            debug_text(texts[0])
        } else {
            rest + ", "@ + debug_text(texts[k - 1])
        }
    } else {
        seq![]
    }
}

/// One failure if `bad`, else none.
pub open spec fn failure(bad: bool, path: Seq<char>, span: Span, message: Seq<char>) -> Seq<
    SchemaErrorView,
> {
    if bad {
        seq![SchemaErrorView { path, span, message }]
    } else {
        seq![]
    }
}

/// Whether the type of a node is not among the allowed ones.
pub open spec fn wrong_type(n: NodeView, s: SchemaView) -> bool {
    s.types matches Some(types) && !satisfies_any(types, type_of(n))
}

/// `type`
pub open spec fn type_failure(n: NodeView, s: SchemaView, path: Seq<char>) -> Seq<SchemaErrorView> {
    failure(
        wrong_type(n, s),
        path,
        n.span(),
        "expected type "@ + type_names(s.types->0, s.types->0.len()) + " but got "@ + name_of_type(
            type_of(n),
        ),
    )
}

/// `const`
pub open spec fn const_failure(n: NodeView, s: SchemaView, path: Seq<char>) -> Seq<SchemaErrorView> {
    failure(
        s.const_value is Some && n.as_str() != s.const_value,
        path,
        n.span(),
        "value must equal const "@ + debug_text(s.const_value->0),
    )
}

/// `enum`
pub open spec fn enum_failure(n: NodeView, s: SchemaView, path: Seq<char>) -> Seq<SchemaErrorView> {
    failure(
        s.enum_values is Some && n.as_str() is Some && !s.enum_values->0.contains(n.as_str()->0),
        path,
        n.span(),
        "value "@ + debug_text(n.as_str()->0) + " is not one of ["@ + quoted_list(
            s.enum_values->0,
            s.enum_values->0.len(),
        ) + "]"@,
    )
}

/// The number that an optional text denotes.
pub open spec fn number_for(text: Option<Seq<char>>, numbers: Seq<NumberView>) -> Option<NumberView> {
    match text {
        Some(t) => number_of(numbers, t, 0),
        None => None,
    }
}

/// `minimum` and `maximum`
pub open spec fn bound_failures(
    n: NodeView,
    s: SchemaView,
    path: Seq<char>,
    numbers: Seq<NumberView>,
) -> Seq<SchemaErrorView> {
    let value = number_for(n.as_str(), numbers);
    let min = number_for(s.minimum, numbers);
    let max = number_for(s.maximum, numbers);
    failure(
        value is Some && min is Some && value->0.order < min->0.order,
        path,
        n.span(),
        "value "@ + value->0.shown + " is less than minimum "@ + min->0.shown,
    ) + failure(
        value is Some && max is Some && value->0.order > max->0.order,
        path,
        n.span(),
        "value "@ + value->0.shown + " exceeds maximum "@ + max->0.shown,
    )
}

/// `minLength` and `maxLength`
pub open spec fn length_failures(n: NodeView, s: SchemaView, path: Seq<char>) -> Seq<
    SchemaErrorView,
> {
    let len = n.as_str()->0.len();
    failure(
        n.as_str() is Some && s.min_length is Some && len < s.min_length->0,
        path,
        n.span(),
        "string length "@ + crate::text::decimal(len) + " is less than minLength "@
            + crate::text::decimal(s.min_length->0 as nat),
    ) + failure(
        n.as_str() is Some && s.max_length is Some && len > s.max_length->0,
        path,
        n.span(),
        "string length "@ + crate::text::decimal(len) + " exceeds maxLength "@
            + crate::text::decimal(s.max_length->0 as nat),
    )
}

/// A count of `what` against its bounds.
pub open spec fn count_failures(
    count: nat,
    min: Option<usize>,
    max: Option<usize>,
    start: Seq<char>,
    what: Seq<char>,
    path: Seq<char>,
    span: Span,
) -> Seq<SchemaErrorView> {
    failure(
        min is Some && count < min->0,
        path,
        span,
        start + crate::text::decimal(count) + what + ", minimum is "@ + crate::text::decimal(
            min->0 as nat,
        ),
    ) + failure(
        max is Some && count > max->0,
        path,
        span,
        start + crate::text::decimal(count) + what + ", maximum is "@ + crate::text::decimal(
            max->0 as nat,
        ),
    )
}

/// Whether an entry has the given key.
pub open spec fn has_key(entries: Seq<(NodeView, NodeView)>, key: Seq<char>) -> bool {
    exists|i: int| 0 <= i < entries.len() && (#[trigger] entries[i]).0.as_str() == Some(key)
}

/// `required`, for the first `k` names
pub open spec fn required_failures(
    entries: Seq<(NodeView, NodeView)>,
    required: Seq<Seq<char>>,
    k: nat,
    path: Seq<char>,
    span: Span,
) -> Seq<SchemaErrorView>
    decreases k,
{
    if 0 < k <= required.len() {
        required_failures(entries, required, (k - 1) as nat, path, span) + failure(
            !has_key(entries, required[k - 1]),
            path,
            span,
            "required property "@ + debug_text(required[k - 1]) + " is missing"@,
        )
    } else {
        seq![]
    }
}

/// The path of a child.
pub open spec fn child_path(path: Seq<char>, name: Seq<char>) -> Seq<char> {
    path + "/"@ + name
}

/// The text of a key; empty for a key that is no scalar.
pub open spec fn key_text(n: NodeView) -> Seq<char> {
    match n.as_str() {
        Some(s) => s,
        None => ""@,
    }
}

/// `properties` and `additionalProperties`, for the first `k` entries
pub open spec fn entry_failures(
    entries: Seq<(NodeView, NodeView)>,
    k: nat,
    s: SchemaView,
    path: Seq<char>,
    numbers: Seq<NumberView>,
) -> Seq<SchemaErrorView>
    decreases entries, k,
{
    if 0 < k <= entries.len() {
        let key = key_text(entries[k - 1].0);
        let value = entries[k - 1].1;
        entry_failures(entries, (k - 1) as nat, s, path, numbers)
            + match crate::schema::model::property_of(s.properties, key, 0) {
            Some(sub) => violations(value, sub, child_path(path, key), numbers),
            None => failure(
                s.additional_properties == Some(false),
                child_path(path, key),
                value.span(),
                "additional property "@ + debug_text(key) + " is not allowed"@,
            ),
        }
    } else {
        seq![]
    }
}

/// `items`, for the first `k` items
pub open spec fn item_failures(
    items: Seq<NodeView>,
    k: nat,
    s: SchemaView,
    path: Seq<char>,
    numbers: Seq<NumberView>,
) -> Seq<SchemaErrorView>
    decreases items, k,
{
    if 0 < k <= items.len() {
        item_failures(items, (k - 1) as nat, s, path, numbers) + violations(
            items[k - 1],
            s,
            child_path(path, crate::text::decimal((k - 1) as nat)),
            numbers,
        )
    } else {
        seq![]
    }
}

/// All failures of a node against a schema, in the order in which the keywords are
/// checked. Where the type is wrong, nothing else is checked.
pub open spec fn violations(
    n: NodeView,
    s: SchemaView,
    path: Seq<char>,
    numbers: Seq<NumberView>,
) -> Seq<SchemaErrorView>
    decreases n,
{
    if wrong_type(n, s) {
        type_failure(n, s, path)
    } else {
        const_failure(n, s, path) + enum_failure(n, s, path) + bound_failures(n, s, path, numbers)
            + length_failures(n, s, path) + match n {
            NodeView::Mapping { entries, .. } => count_failures(
                entries.len(),
                s.min_properties,
                s.max_properties,
                "object has "@,
                " properties"@,
                path,
                n.span(),
            ) + required_failures(entries, s.required, s.required.len(), path, n.span())
                + entry_failures(entries, entries.len(), s, path, numbers),
            NodeView::Sequence { items, .. } => count_failures(
                items.len(),
                s.min_items,
                s.max_items,
                "array has "@,
                " items"@,
                path,
                n.span(),
            ) + match s.items {
                Some(sub) => item_failures(items, items.len(), *sub, path, numbers),
                None => seq![],
            },
            _ => seq![],
        }
    }
}

/// A schema without keywords accepts every node.
pub proof fn law_empty_schema_accepts(n: NodeView, path: Seq<char>, numbers: Seq<NumberView>)
    ensures
        violations(n, SchemaView::empty(), path, numbers) == Seq::<SchemaErrorView>::empty(),
{
    if let NodeView::Mapping { entries, .. } = n {
        lemma_empty_entries(entries, entries.len(), path, numbers);
    }
    assert(violations(n, SchemaView::empty(), path, numbers) =~= Seq::<SchemaErrorView>::empty());
}

proof fn lemma_empty_entries(
    entries: Seq<(NodeView, NodeView)>,
    k: nat,
    path: Seq<char>,
    numbers: Seq<NumberView>,
)
    ensures
        entry_failures(entries, k, SchemaView::empty(), path, numbers) == Seq::<
            SchemaErrorView,
        >::empty(),
    decreases k,
{
    if 0 < k <= entries.len() {
        lemma_empty_entries(entries, (k - 1) as nat, path, numbers);
        assert(entry_failures(entries, k, SchemaView::empty(), path, numbers) =~= Seq::<
            SchemaErrorView,
        >::empty());
    }
}

/// A node of the wrong type has exactly one failure, at its own path and span.
pub proof fn law_wrong_type_is_reported_alone(
    n: NodeView,
    s: SchemaView,
    path: Seq<char>,
    numbers: Seq<NumberView>,
)
    requires
        wrong_type(n, s),
    ensures
        violations(n, s, path, numbers).len() == 1,
        violations(n, s, path, numbers)[0].path == path,
        violations(n, s, path, numbers)[0].span == n.span(),
{
}

/// Validates `data` against `schema`. Returns all violations (`Ok` if none).
pub fn validate(data: &Node<'_>, schema: &Schema, numbers: &Vec<Number>) -> (r: Result<
    (),
    Vec<SchemaError>,
>)
    ensures
        ({
            let all = violations(data@, schema@, ""@, number_views(numbers@));
            if all.len() == 0 {
                r == Ok::<(), Vec<SchemaError>>(())
            } else {
                r matches Err(errors) && error_views(errors@) == all
            }
        }),
{
    let mut errors: Vec<SchemaError> = Vec::new();
    validate_node(data, schema, "", numbers, &mut errors);
    assert(error_views(Seq::<SchemaError>::empty()) =~= Seq::<SchemaErrorView>::empty());
    assert(error_views(errors@) =~= violations(data@, schema@, ""@, number_views(numbers@)));
    if errors.len() == 0 {
        Ok(())
    } else {
        Err(errors)
    }
}

/// Classifies a plain scalar string into a [`JsonType`].
fn classify_scalar(value: &str) -> (r: JsonType)
    ensures
        r == scalar_type(value@),
{
    if same_text(value, "null") || same_text(value, "Null") || same_text(value, "NULL")
        || same_text(value, "~") || same_text(value, "") {
        JsonType::Null
    } else if same_text(value, "true") || same_text(value, "True") || same_text(value, "TRUE")
        || same_text(value, "false") || same_text(value, "False") || same_text(value, "FALSE") {
        JsonType::Boolean
    } else if parse_integer(value).is_some() {
        JsonType::Integer
    } else if is_float_text(value) {
        JsonType::Number
    } else {
        JsonType::String
    }
}

/// Returns the [`JsonType`] of a node.
fn json_type_of(node: &Node<'_>) -> (r: JsonType)
    ensures
        r == type_of(node@),
{
    match node {
        Node::Scalar(s) => classify_scalar(cow_str(&s.value)),
        Node::Sequence(_) => JsonType::Array,
        Node::Mapping(_) => JsonType::Object,
    }
}

/// Returns `true` if `actual` satisfies `expected`, with the special rule that
/// `Integer` satisfies `Number`.
fn type_matches(expected: JsonType, actual: JsonType) -> (r: bool)
    ensures
        r == satisfies(expected, actual),
{
    expected == actual || (expected == JsonType::Number && actual == JsonType::Integer)
}

/// Returns a human-readable name for a [`JsonType`].
fn json_type_name(t: JsonType) -> (r: &'static str)
    ensures
        r@ == name_of_type(t),
{
    match t {
        JsonType::Null => "null",
        JsonType::Boolean => "boolean",
        JsonType::Integer => "integer",
        JsonType::Number => "number",
        JsonType::String => "string",
        JsonType::Array => "array",
        JsonType::Object => "object",
    }
}

/// Adds a failure.
fn report(errors: &mut Vec<SchemaError>, path: &str, span: Span, message: String)
    ensures
        error_views(final(errors)@) == error_views(old(errors)@) + failure(
            true,
            path@,
            span,
            message@,
        ),
{
    let ghost before = error_views(errors@);
    let ghost added = SchemaErrorView { path: path@, span, message: message@ };
    errors.push(SchemaError { path: path.to_owned(), span, message });
    assert(error_views(errors@) =~= before + seq![added]);
}

/// Adds no failure.
proof fn lemma_no_failure(all: Seq<SchemaErrorView>, path: Seq<char>, span: Span, message: Seq<char>)
    ensures
        all + failure(false, path, span, message) == all,
{
    assert(all + failure(false, path, span, message) =~= all);
}

/// The number that a text denotes.
fn find_number<'b>(numbers: &'b Vec<Number>, text: &str) -> (r: Option<&'b Number>)
    ensures
        match number_of(number_views(numbers@), text@, 0) {
            Some(n) => r matches Some(x) && x@ == n,
            None => r is None,
        },
{
    let ghost views = number_views(numbers@);
    let mut i: usize = 0;
    while i < numbers.len()
        invariant
            i <= numbers@.len(),
            views == number_views(numbers@),
            number_of(views, text@, i as int) == number_of(views, text@, 0),
        decreases numbers@.len() - i,
    {
        assert(views[i as int] == numbers@[i as int]@);
        if same_text(numbers[i].text.as_str(), text) {
            return Some(&numbers[i]);
        }
        i += 1;
    }
    None
}

/// The number that an optional text denotes.
fn number_for_text<'b>(text: &Option<String>, numbers: &'b Vec<Number>) -> (r: Option<&'b Number>)
    ensures
        match number_for(crate::schema::model::text_view(*text), number_views(numbers@)) {
            Some(n) => r matches Some(x) && x@ == n,
            None => r is None,
        },
{
    match text {
        Some(t) => find_number(numbers, t.as_str()),
        None => None,
    }
}

/// Checks `type`. Tells whether the type is wrong.
fn check_type(node: &Node<'_>, schema: &Schema, path: &str, errors: &mut Vec<SchemaError>) -> (r:
    bool)
    ensures
        r == wrong_type(node@, schema@),
        error_views(final(errors)@) == error_views(old(errors)@) + type_failure(
            node@,
            schema@,
            path@,
        ),
{
    let ghost before = error_views(errors@);
    let ghost none = before + Seq::<SchemaErrorView>::empty();
    assert(none =~= before);
    let types = match &schema.types {
        Some(types) => types,
        None => {
            return false;
        },
    };
    let actual = json_type_of(node);
    let mut i: usize = 0;
    let mut names = String::new();
    assert(names@ =~= Seq::<char>::empty());
    while i < types.len()
        invariant
            i <= types@.len(),
            actual == type_of(node@),
            errors@ == old(errors)@,
            before == error_views(errors@),
            none == before,
            none == before + Seq::<SchemaErrorView>::empty(),
            schema@.types == Some(types@),
            names@ == type_names(types@, i as nat),
            forall|j: int| 0 <= j < i ==> !satisfies(#[trigger] types@[j], actual),
        decreases types@.len() - i,
    {
        if type_matches(types[i], actual) {
            return false;
        }
        if i > 0 {
            names.append(" or ");
        }
        let ghost rest = names@;
        names.append(json_type_name(types[i]));
        assert(Seq::<char>::empty() + name_of_type(types@[i as int]) =~= name_of_type(types@[i as int]));
        i += 1;
        assert(names@ =~= type_names(types@, i as nat));
    }
    let mut message = "expected type ".to_owned();
    message.append(names.as_str());
    message.append(" but got ");
    message.append(json_type_name(actual));
    report(errors, path, node.span(), message);
    true
}

/// Checks `const`.
fn check_const(node: &Node<'_>, schema: &Schema, path: &str, errors: &mut Vec<SchemaError>)
    ensures
        error_views(final(errors)@) == error_views(old(errors)@) + const_failure(
            node@,
            schema@,
            path@,
        ),
{
    proof {
        lemma_no_failure(
            error_views(errors@),
            path@,
            node@.span(),
            "value must equal const "@ + debug_text(schema@.const_value->0),
        );
    }
    if let Some(expected) = &schema.const_value {
        let same = match node.as_str() {
            Some(s) => same_text(s, expected.as_str()),
            None => false,
        };
        if !same {
            let mut message = "value must equal const ".to_owned();
            message.append(debug_string(expected.as_str()).as_str());
            report(errors, path, node.span(), message);
        }
    }
}

/// Whether a text is among others.
fn contains_text(texts: &Vec<String>, text: &str) -> (r: bool)
    ensures
        r == crate::schema::model::string_views(texts@).contains(text@),
{
    let ghost views = crate::schema::model::string_views(texts@);
    let mut i: usize = 0;
    while i < texts.len()
        invariant
            i <= texts@.len(),
            views == crate::schema::model::string_views(texts@),
            forall|j: int| 0 <= j < i ==> #[trigger] views[j] != text@,
        decreases texts@.len() - i,
    {
        assert(views[i as int] == texts@[i as int]@);
        if same_text(texts[i].as_str(), text) {
            return true;
        }
        i += 1;
    }
    false
}

/// Some texts, quoted.
fn quoted_texts(texts: &Vec<String>) -> (r: String)
    ensures
        r@ == quoted_list(crate::schema::model::string_views(texts@), texts@.len()),
{
    let ghost views = crate::schema::model::string_views(texts@);
    let mut out = String::new();
    let mut i: usize = 0;
    assert(out@ =~= Seq::<char>::empty());
    while i < texts.len()
        invariant
            i <= texts@.len(),
            views == crate::schema::model::string_views(texts@),
            out@ == quoted_list(views, i as nat),
        decreases texts@.len() - i,
    {
        assert(views[i as int] == texts@[i as int]@);
        if i > 0 {
            out.append(", ");
        }
        out.append(debug_string(texts[i].as_str()).as_str());
        assert(Seq::<char>::empty() + debug_text(views[i as int]) =~= debug_text(views[i as int]));
        i += 1;
        assert(out@ =~= quoted_list(views, i as nat));
    }
    out
}

/// Checks `enum`.
fn check_enum(node: &Node<'_>, schema: &Schema, path: &str, errors: &mut Vec<SchemaError>)
    ensures
        error_views(final(errors)@) == error_views(old(errors)@) + enum_failure(
            node@,
            schema@,
            path@,
        ),
{
    assert(error_views(errors@) + Seq::<SchemaErrorView>::empty() =~= error_views(errors@));
    if let Some(allowed) = &schema.enum_values {
        if let Some(text) = node.as_str() {
            if !contains_text(allowed, text) {
                let mut message = "value ".to_owned();
                message.append(debug_string(text).as_str());
                message.append(" is not one of [");
                message.append(quoted_texts(allowed).as_str());
                message.append("]");
                report(errors, path, node.span(), message);
            }
        }
    }
}

/// Checks `minimum` and `maximum`.
fn check_bounds(
    node: &Node<'_>,
    schema: &Schema,
    path: &str,
    numbers: &Vec<Number>,
    errors: &mut Vec<SchemaError>,
)
    ensures
        error_views(final(errors)@) == error_views(old(errors)@) + bound_failures(
            node@,
            schema@,
            path@,
            number_views(numbers@),
        ),
{
    let ghost before = error_views(errors@);
    let ghost none = Seq::<SchemaErrorView>::empty();
    let ghost views = number_views(numbers@);
    let ghost all = bound_failures(node@, schema@, path@, views);
    let value = match node.as_str() {
        Some(text) => find_number(numbers, text),
        None => None,
    };
    let min = number_for_text(&schema.minimum, numbers);
    let max = number_for_text(&schema.maximum, numbers);
    assert(before + none =~= before);
    if let Some(num) = value {
        if let Some(bound) = min {
            if num.order < bound.order {
                let mut message = "value ".to_owned();
                message.append(num.shown.as_str());
                message.append(" is less than minimum ");
                message.append(bound.shown.as_str());
                report(errors, path, node.span(), message);
            }
        }
        let ghost middle = error_views(errors@);
        assert(middle + none =~= middle);
        if let Some(bound) = max {
            if num.order > bound.order {
                let mut message = "value ".to_owned();
                message.append(num.shown.as_str());
                message.append(" exceeds maximum ");
                message.append(bound.shown.as_str());
                report(errors, path, node.span(), message);
            }
        }
    }
    assert(error_views(errors@) =~= before + all);
}

/// Checks `minLength` and `maxLength`.
fn check_length(node: &Node<'_>, schema: &Schema, path: &str, errors: &mut Vec<SchemaError>)
    ensures
        error_views(final(errors)@) == error_views(old(errors)@) + length_failures(
            node@,
            schema@,
            path@,
        ),
{
    let ghost before = error_views(errors@);
    let ghost all = length_failures(node@, schema@, path@);
    if let Some(text) = node.as_str() {
        let len: usize = text.unicode_len();
        if let Some(min) = schema.min_length {
            if len < min {
                let mut message = "string length ".to_owned();
                push_decimal(&mut message, len as u64);
                message.append(" is less than minLength ");
                push_decimal(&mut message, min as u64);
                report(errors, path, node.span(), message);
            }
        }
        if let Some(max) = schema.max_length {
            if len > max {
                let mut message = "string length ".to_owned();
                push_decimal(&mut message, len as u64);
                message.append(" exceeds maxLength ");
                push_decimal(&mut message, max as u64);
                report(errors, path, node.span(), message);
            }
        }
    }
    assert(error_views(errors@) =~= before + all);
}

/// Checks a count against its bounds.
fn check_count(
    count: usize,
    bounds: (Option<usize>, Option<usize>),
    words: (&str, &str),
    path: &str,
    span: Span,
    errors: &mut Vec<SchemaError>,
)
    ensures
        error_views(final(errors)@) == error_views(old(errors)@) + count_failures(
            count as nat,
            bounds.0,
            bounds.1,
            words.0@,
            words.1@,
            path@,
            span,
        ),
{
    let ghost before = error_views(errors@);
    let ghost all = count_failures(
        count as nat,
        bounds.0,
        bounds.1,
        words.0@,
        words.1@,
        path@,
        span,
    );
    if let Some(min) = bounds.0 {
        if count < min {
            let mut message = words.0.to_owned();
            push_decimal(&mut message, count as u64);
            message.append(words.1);
            message.append(", minimum is ");
            push_decimal(&mut message, min as u64);
            report(errors, path, span, message);
        }
    }
    if let Some(max) = bounds.1 {
        if count > max {
            let mut message = words.0.to_owned();
            push_decimal(&mut message, count as u64);
            message.append(words.1);
            message.append(", maximum is ");
            push_decimal(&mut message, max as u64);
            report(errors, path, span, message);
        }
    }
    assert(error_views(errors@) =~= before + all);
}

/// Whether an entry has the given key.
fn contains_key(entries: &Vec<(Node<'_>, Node<'_>)>, key: &str) -> (r: bool)
    ensures
        r == has_key(crate::node::entry_values(entries@), key@),
{
    let ghost views = crate::node::entry_values(entries@);
    let mut i: usize = 0;
    while i < entries.len()
        invariant
            i <= entries@.len(),
            views == crate::node::entry_values(entries@),
            forall|j: int| 0 <= j < i ==> (#[trigger] views[j]).0.as_str() != Some(key@),
        decreases entries@.len() - i,
    {
        assert(views[i as int] == (entries@[i as int].0@, entries@[i as int].1@));
        if let Some(s) = entries[i].0.as_str() {
            if same_text(s, key) {
                return true;
            }
        }
        i += 1;
    }
    false
}

/// Checks `required`.
fn check_required(
    entries: &Vec<(Node<'_>, Node<'_>)>,
    schema: &Schema,
    path: &str,
    span: Span,
    errors: &mut Vec<SchemaError>,
)
    ensures
        error_views(final(errors)@) == error_views(old(errors)@) + required_failures(
            crate::node::entry_values(entries@),
            schema@.required,
            schema@.required.len(),
            path@,
            span,
        ),
{
    let ghost before = error_views(errors@);
    let ghost views = crate::node::entry_values(entries@);
    let ghost required = schema@.required;
    let mut i: usize = 0;
    assert(before + Seq::<SchemaErrorView>::empty() =~= before);
    while i < schema.required.len()
        invariant
            i <= schema.required@.len(),
            views == crate::node::entry_values(entries@),
            required == schema@.required,
            required == crate::schema::model::string_views(schema.required@),
            error_views(errors@) == before + required_failures(
                views,
                required,
                i as nat,
                path@,
                span,
            ),
        decreases schema.required@.len() - i,
    {
        assert(required[i as int] == schema.required@[i as int]@);
        let key = schema.required[i].as_str();
        let ghost middle = error_views(errors@);
        assert(middle + Seq::<SchemaErrorView>::empty() =~= middle);
        if !contains_key(entries, key) {
            let mut message = "required property ".to_owned();
            message.append(debug_string(key).as_str());
            message.append(" is missing");
            report(errors, path, span, message);
        }
        i += 1;
        assert(error_views(errors@) =~= before + required_failures(
            views,
            required,
            i as nat,
            path@,
            span,
        ));
    }
}

/// The path of a child.
fn join_path(path: &str, name: &str) -> (r: String)
    ensures
        r@ == child_path(path@, name@),
{
    let mut s = path.to_owned();
    s.append("/");
    s.append(name);
    s
}

/// The failures of a mapping beyond those that any node can have.
pub open spec fn object_failures(
    n: NodeView,
    s: SchemaView,
    path: Seq<char>,
    numbers: Seq<NumberView>,
) -> Seq<SchemaErrorView> {
    count_failures(
        n->entries.len(),
        s.min_properties,
        s.max_properties,
        "object has "@,
        " properties"@,
        path,
        n.span(),
    ) + required_failures(n->entries, s.required, s.required.len(), path, n.span())
        + entry_failures(n->entries, n->entries.len(), s, path, numbers)
}

/// The failures of a sequence beyond those that any node can have.
pub open spec fn array_failures(
    n: NodeView,
    s: SchemaView,
    path: Seq<char>,
    numbers: Seq<NumberView>,
) -> Seq<SchemaErrorView> {
    count_failures(
        n->items.len(),
        s.min_items,
        s.max_items,
        "array has "@,
        " items"@,
        path,
        n.span(),
    ) + match s.items {
        Some(sub) => item_failures(n->items, n->items.len(), *sub, path, numbers),
        None => seq![],
    }
}

/// Checks the keywords of objects.
fn validate_object(
    node: &Node<'_>,
    schema: &Schema,
    path: &str,
    numbers: &Vec<Number>,
    errors: &mut Vec<SchemaError>,
)
    requires
        node is Mapping,
    ensures
        error_views(final(errors)@) == error_views(old(errors)@) + object_failures(
            node@,
            schema@,
            path@,
            number_views(numbers@),
        ),
    decreases node, 0int,
{
    let ghost before = error_views(errors@);
    let span = node.span();
    if let Node::Mapping(m) = node {
        proof {
            crate::node::lemma_mapping_value(*m);
        }
        let ghost entries = crate::node::entry_values(m.entries@);
        check_count(
            m.entries.len(),
            (schema.min_properties, schema.max_properties),
            ("object has ", " properties"),
            path,
            span,
            errors,
        );
        check_required(&m.entries, schema, path, span, errors);
        let ghost middle = error_views(errors@);
        let mut i: usize = 0;
        assert(middle + Seq::<SchemaErrorView>::empty() =~= middle);
        while i < m.entries.len()
            invariant
                i <= m.entries@.len(),
                node is Mapping,
                *m == node->Mapping_0,
                entries == crate::node::entry_values(m.entries@),
                error_views(errors@) == middle + entry_failures(
                    entries,
                    i as nat,
                    schema@,
                    path@,
                    number_views(numbers@),
                ),
            decreases m.entries@.len() - i,
        {
            assert(entries[i as int] == (m.entries@[i as int].0@, m.entries@[i as int].1@));
            let key = match m.entries[i].0.as_str() {
                Some(s) => s,
                None => "",
            };
            let child = join_path(path, key);
            let ghost so_far = error_views(errors@);
            assert(so_far + Seq::<SchemaErrorView>::empty() =~= so_far);
            match schema.property(key) {
                Some(sub) => {
                    validate_node(&m.entries[i].1, sub, child.as_str(), numbers, errors);
                },
                None => {
                    if schema.additional_properties == Some(false) {
                        let mut message = "additional property ".to_owned();
                        message.append(debug_string(key).as_str());
                        message.append(" is not allowed");
                        report(errors, child.as_str(), m.entries[i].1.span(), message);
                    }
                },
            }
            i += 1;
            assert(error_views(errors@) =~= middle + entry_failures(
                entries,
                i as nat,
                schema@,
                path@,
                number_views(numbers@),
            ));
        }
        assert(error_views(errors@) =~= before + object_failures(
            node@,
            schema@,
            path@,
            number_views(numbers@),
        ));
    }
}

/// Checks the keywords of arrays.
fn validate_array(
    node: &Node<'_>,
    schema: &Schema,
    path: &str,
    numbers: &Vec<Number>,
    errors: &mut Vec<SchemaError>,
)
    requires
        node is Sequence,
    ensures
        error_views(final(errors)@) == error_views(old(errors)@) + array_failures(
            node@,
            schema@,
            path@,
            number_views(numbers@),
        ),
    decreases node, 0int,
{
    let ghost before = error_views(errors@);
    let span = node.span();
    if let Node::Sequence(s) = node {
        proof {
            crate::node::lemma_sequence_value(*s);
        }
        let ghost items = crate::node::node_values(s.items@);
        check_count(
            s.items.len(),
            (schema.min_items, schema.max_items),
            ("array has ", " items"),
            path,
            span,
            errors,
        );
        let ghost middle = error_views(errors@);
        assert(middle + Seq::<SchemaErrorView>::empty() =~= middle);
        if let Some(sub) = &schema.items {
            let mut i: usize = 0;
            while i < s.items.len()
                invariant
                    i <= s.items@.len(),
                    node is Sequence,
                    *s == node->Sequence_0,
                    items == crate::node::node_values(s.items@),
                    error_views(errors@) == middle + item_failures(
                        items,
                        i as nat,
                        (**sub)@,
                        path@,
                        number_views(numbers@),
                    ),
                decreases s.items@.len() - i,
            {
                assert(items[i as int] == s.items@[i as int]@);
                let index = crate::text::decimal_string(i as u64);
                let child = join_path(path, index.as_str());
                validate_node(&s.items[i], sub, child.as_str(), numbers, errors);
                i += 1;
                assert(error_views(errors@) =~= middle + item_failures(
                    items,
                    i as nat,
                    (**sub)@,
                    path@,
                    number_views(numbers@),
                ));
            }
        }
        assert(error_views(errors@) =~= before + array_failures(
            node@,
            schema@,
            path@,
            number_views(numbers@),
        ));
    }
}

/// Core recursive validator — appends any violations to `errors`.
fn validate_node(
    node: &Node<'_>,
    schema: &Schema,
    path: &str,
    numbers: &Vec<Number>,
    errors: &mut Vec<SchemaError>,
)
    ensures
        error_views(final(errors)@) == error_views(old(errors)@) + violations(
            node@,
            schema@,
            path@,
            number_views(numbers@),
        ),
    decreases node, 1int,
{
    let ghost before = error_views(errors@);
    // Return early: further keyword checks would be noisy / wrong type.
    if check_type(node, schema, path, errors) {
        return;
    }
    assert(error_views(errors@) =~= before);
    check_const(node, schema, path, errors);
    check_enum(node, schema, path, errors);
    check_bounds(node, schema, path, numbers, errors);
    check_length(node, schema, path, errors);
    match node {
        Node::Scalar(_) => {},
        Node::Mapping(_) => {
            validate_object(node, schema, path, numbers, errors);
        },
        Node::Sequence(_) => {
            validate_array(node, schema, path, numbers, errors);
        },
    }
    assert(error_views(errors@) =~= before + violations(
        node@,
        schema@,
        path@,
        number_views(numbers@),
    ));
}

/// The texts of the scalars of a node, but for the keys of mappings.
pub open spec fn texts_in(n: NodeView) -> Seq<Seq<char>>
    decreases n,
{
    match n {
        NodeView::Scalar { value, .. } => seq![value],
        NodeView::Sequence { items, .. } => texts_in_items(items, items.len()),
        NodeView::Mapping { entries, .. } => texts_in_entries(entries, entries.len()),
    }
}

/// The texts of the first `k` items.
pub open spec fn texts_in_items(items: Seq<NodeView>, k: nat) -> Seq<Seq<char>>
    decreases items, k,
{
    if 0 < k <= items.len() {
        texts_in_items(items, (k - 1) as nat) + texts_in(items[k - 1])
    } else {
        seq![]
    }
}

/// The texts of the values of the first `k` entries.
pub open spec fn texts_in_entries(entries: Seq<(NodeView, NodeView)>, k: nat) -> Seq<Seq<char>>
    decreases entries, k,
{
    if 0 < k <= entries.len() {
        texts_in_entries(entries, (k - 1) as nat) + texts_in(entries[k - 1].1)
    } else {
        seq![]
    }
}

/// Lists the texts of the scalars of `node` (not of its keys) behind those in `out`:
/// the texts whose numbers [`validate`] may ask for.
pub fn scalar_texts(node: &Node<'_>, out: &mut Vec<String>)
    ensures
        crate::schema::model::string_views(final(out)@) == crate::schema::model::string_views(
            old(out)@,
        ) + texts_in(node@),
    decreases node,
{
    let ghost before = crate::schema::model::string_views(out@);
    assert(before + Seq::<Seq<char>>::empty() =~= before);
    match node {
        Node::Scalar(s) => {
            out.push(cow_str(&s.value).to_owned());
            assert(crate::schema::model::string_views(out@) =~= before + texts_in(node@));
        },
        Node::Sequence(s) => {
            proof {
                crate::node::lemma_sequence_value(*s);
            }
            let ghost items = crate::node::node_values(s.items@);
            let mut i: usize = 0;
            while i < s.items.len()
                invariant
                    i <= s.items@.len(),
                    node is Sequence,
                    *s == node->Sequence_0,
                    items == crate::node::node_values(s.items@),
                    crate::schema::model::string_views(out@) == before + texts_in_items(
                        items,
                        i as nat,
                    ),
                decreases s.items@.len() - i,
            {
                assert(items[i as int] == s.items@[i as int]@);
                scalar_texts(&s.items[i], out);
                i += 1;
                assert(crate::schema::model::string_views(out@) =~= before + texts_in_items(
                    items,
                    i as nat,
                ));
            }
        },
        Node::Mapping(m) => {
            proof {
                crate::node::lemma_mapping_value(*m);
            }
            let ghost entries = crate::node::entry_values(m.entries@);
            let mut i: usize = 0;
            while i < m.entries.len()
                invariant
                    i <= m.entries@.len(),
                    node is Mapping,
                    *m == node->Mapping_0,
                    entries == crate::node::entry_values(m.entries@),
                    crate::schema::model::string_views(out@) == before + texts_in_entries(
                        entries,
                        i as nat,
                    ),
                decreases m.entries@.len() - i,
            {
                assert(entries[i as int] == (m.entries@[i as int].0@, m.entries@[i as int].1@));
                scalar_texts(&m.entries[i].1, out);
                i += 1;
                assert(crate::schema::model::string_views(out@) =~= before + texts_in_entries(
                    entries,
                    i as nat,
                ));
            }
        },
    }
}

/// An optional text as a list.
pub open spec fn listed(text: Option<Seq<char>>) -> Seq<Seq<char>> {
    match text {
        Some(t) => seq![t],
        None => seq![],
    }
}

/// The texts of the bounds of a schema, here and below.
pub open spec fn bounds_in(s: SchemaView) -> Seq<Seq<char>>
    decreases s,
{
    listed(s.minimum) + listed(s.maximum) + match s.items {
        Some(sub) => bounds_in(*sub),
        None => seq![],
    } + bounds_in_properties(s.properties, s.properties.len())
}

/// The texts of the bounds of the first `k` properties.
pub open spec fn bounds_in_properties(properties: Seq<(Seq<char>, SchemaView)>, k: nat) -> Seq<
    Seq<char>,
>
    decreases properties, k,
{
    if 0 < k <= properties.len() {
        bounds_in_properties(properties, (k - 1) as nat) + bounds_in(properties[k - 1].1)
    } else {
        seq![]
    }
}

/// Adds an optional text to a list.
fn push_listed(out: &mut Vec<String>, text: &Option<String>)
    ensures
        crate::schema::model::string_views(final(out)@) == crate::schema::model::string_views(
            old(out)@,
        ) + listed(crate::schema::model::text_view(*text)),
{
    let ghost before = crate::schema::model::string_views(out@);
    if let Some(t) = text {
        out.push(t.clone());
    }
    assert(crate::schema::model::string_views(out@) =~= before + listed(
        crate::schema::model::text_view(*text),
    ));
}

/// Lists the texts of the bounds of `schema` behind those in `out`.
pub fn bound_texts(schema: &Schema, out: &mut Vec<String>)
    ensures
        crate::schema::model::string_views(final(out)@) == crate::schema::model::string_views(
            old(out)@,
        ) + bounds_in(schema@),
    decreases schema,
{
    let ghost before = crate::schema::model::string_views(out@);
    proof {
        crate::schema::model::lemma_property_values(*schema);
    }
    push_listed(out, &schema.minimum);
    push_listed(out, &schema.maximum);
    if let Some(sub) = &schema.items {
        bound_texts(sub, out);
    }
    let ghost middle = crate::schema::model::string_views(out@);
    let ghost properties = schema@.properties;
    assert(middle + Seq::<Seq<char>>::empty() =~= middle);
    let mut i: usize = 0;
    while i < schema.properties.len()
        invariant
            i <= schema.properties@.len(),
            properties == crate::schema::model::property_values(schema.properties@),
            crate::schema::model::string_views(out@) == middle + bounds_in_properties(
                properties,
                i as nat,
            ),
        decreases schema.properties@.len() - i,
    {
        assert(properties[i as int] == (
            schema.properties@[i as int].0@,
            schema.properties@[i as int].1@,
        ));
        bound_texts(&schema.properties[i].1, out);
        i += 1;
        assert(crate::schema::model::string_views(out@) =~= middle + bounds_in_properties(
            properties,
            i as nat,
        ));
    }
    assert(crate::schema::model::string_views(out@) =~= before + bounds_in(schema@));
}

} // verus!
