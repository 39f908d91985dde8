//! JSON values, as the editor protocols exchange them.
use crate::text::same_text;
use vstd::prelude::*;
use vstd::string::*;

verus! {

/// A JSON value.
#[derive(Debug, PartialEq)]
pub enum Json {
    /// `null`
    Null,
    /// `true` or `false`
    Bool(bool),
    /// A number, as it is written.
    Number(String),
    /// A string.
    Text(String),
    /// An array.
    Array(Vec<Json>),
    /// An object: its members.
    Object(Vec<(String, Json)>),
}

/// The value of a [`Json`].
pub enum JsonView {
    Null,
    Bool(bool),
    Number(Seq<char>),
    Text(Seq<char>),
    Array(Seq<JsonView>),
    Object(Seq<(Seq<char>, JsonView)>),
}

/// The value of a JSON value.
pub open spec fn json_value(j: Json) -> JsonView
    decreases j,
{
    match j {
        Json::Null => JsonView::Null,
        Json::Bool(b) => JsonView::Bool(b),
        Json::Number(s) => JsonView::Number(s@),
        Json::Text(s) => JsonView::Text(s@),
        Json::Array(items) => JsonView::Array(
            Seq::new(
                items@.len(),
                |i: int|
                    if 0 <= i < items@.len() {
                        json_value(items@[i])
                    } else {
                        arbitrary()
                    },
            ),
        ),
        Json::Object(members) => JsonView::Object(
            Seq::new(
                members@.len(),
                |i: int|
                    if 0 <= i < members@.len() {
                        (members@[i].0@, json_value(members@[i].1))
                    } else {
                        arbitrary()
                    },
            ),
        ),
    }
}

impl View for Json {
    type V = JsonView;

    open spec fn view(&self) -> JsonView {
        json_value(*self)
    }
}

/// The values of some JSON values.
pub open spec fn json_values(s: Seq<Json>) -> Seq<JsonView> {
    Seq::new(s.len(), |i: int| s[i]@)
}

/// The value of an optional JSON value.
pub open spec fn optional(j: Option<Json>) -> Option<JsonView> {
    match j {
        Some(x) => Some(x@),
        None => None,
    }
}

/// The values of some members.
pub open spec fn member_values(s: Seq<(String, Json)>) -> Seq<(Seq<char>, JsonView)> {
    Seq::new(s.len(), |i: int| (s[i].0@, s[i].1@))
}

/// The value of an array consists of the values of its items.
pub proof fn lemma_array(items: Vec<Json>)
    ensures
        json_value(Json::Array(items)) == JsonView::Array(json_values(items@)),
{
    assert(json_value(Json::Array(items))->Array_0 =~= json_values(items@));
}

/// The value of an object consists of the values of its members.
pub proof fn lemma_object(members: Vec<(String, Json)>)
    ensures
        json_value(Json::Object(members)) == JsonView::Object(member_values(members@)),
{
    assert(json_value(Json::Object(members))->Object_0 =~= member_values(members@));
}

/// The first member with the given name, from the `i`th on.
pub open spec fn member_at(members: Seq<(Seq<char>, JsonView)>, name: Seq<char>, i: int) -> Option<
    JsonView,
>
    decreases members.len() - i,
{
    if !(0 <= i < members.len()) {
        None
    } else if members[i].0 == name {
        Some(members[i].1)
    } else {
        member_at(members, name, i + 1)
    }
}

impl JsonView {
    /// The member with the given name, if there is one.
    pub open spec fn find(self, name: Seq<char>) -> Option<JsonView> {
        match self {
            JsonView::Object(members) => member_at(members, name, 0),
            _ => None,
        }
    }

    /// The member with the given name; null if there is none.
    pub open spec fn member(self, name: Seq<char>) -> JsonView {
        match self.find(name) {
            Some(j) => j,
            None => JsonView::Null,
        }
    }

    /// The object without members.
    pub open spec fn object() -> JsonView {
        JsonView::Object(Seq::empty())
    }

    /// The object with one more member; another value as it is.
    pub open spec fn with(self, name: Seq<char>, value: JsonView) -> JsonView {
        match self {
            JsonView::Object(members) => JsonView::Object(members.push((name, value))),
            other => other,
        }
    }

    /// The text of a string; empty for another value.
    pub open spec fn text(self) -> Seq<char> {
        match self {
            JsonView::Text(s) => s,
            _ => ""@,
        }
    }
}

/// A hexadecimal digit.
pub open spec fn hex_digit(d: int) -> char {
    if d < 10 {
        (0x30 + d) as char
    } else {
        (0x57 + d) as char
    }
}

/// A character inside a JSON string.
pub open spec fn escaped(c: char) -> Seq<char> {
    if c == '"' {
        seq!['\\', '"']
    } else if c == '\\' {
        seq!['\\', '\\']
    } else if c == '\u{8}' {
        seq!['\\', 'b']
    } else if c == '\t' {
        seq!['\\', 't']
    } else if c == '\n' {
        seq!['\\', 'n']
    } else if c == '\u{c}' {
        seq!['\\', 'f']
    } else if c == '\r' {
        seq!['\\', 'r']
    } else if (c as u32) < 0x20 {
        seq!['\\', 'u', '0', '0', hex_digit(c as u32 as int / 16), hex_digit(c as u32 as int % 16)]
    } else {
        seq![c]
    }
}

/// The characters of a text inside a JSON string.
pub open spec fn escaped_text(s: Seq<char>) -> Seq<char>
    decreases s.len(),
{
    if s.len() == 0 {
        seq![]
    } else {
        escaped_text(s.drop_last()) + escaped(s.last())
    }
}

/// A string in JSON notation: in quotes, with quotes, backslashes and control
/// characters escaped.
pub open spec fn json_string(s: Seq<char>) -> Seq<char> {
    seq!['"'] + escaped_text(s) + seq!['"']
}

/// Writes a string in JSON notation.
///
/// Stands for the `Display` impl of `serde_json::Value` on a `Value::String`, through
/// `to_string`. It writes the text between quotes; the characters that its table of
/// escapes lists (the quote, the backslash and those below U+0020) as their escapes,
/// all others as they are.
#[verifier::external_body]
fn quote(s: &str) -> (r: String)
    ensures
        r@ == json_string(s@),
{
    serde_json::Value::String(s.to_owned()).to_string()
}

/// The JSON value of the outside crate, as its parser gives it.
#[verifier::external_type_specification]
#[verifier::external_body]
pub struct ExValue(serde_json::Value);

/// The JSON value that a text denotes, or the message that tells why it denotes none.
pub uninterp spec fn json_parsed(text: Seq<char>) -> core::result::Result<JsonView, Seq<char>>;

/// The JSON value that some bytes denote, if they denote one.
pub uninterp spec fn json_parsed_bytes(bytes: Seq<u8>) -> Option<JsonView>;

/// Takes a parsed value over, variant by variant.
///
/// Converts a `serde_json::Value`: strings, booleans, items and members are moved, and
/// a number is taken as its `Display` impl writes it. Nothing is claimed of the result
/// here; [`parse_json`] and [`parse_json_bytes`] name it.
#[verifier::external_body]
fn adopt(value: serde_json::Value) -> Json {
    match value {
        serde_json::Value::Null => Json::Null,
        serde_json::Value::Bool(b) => Json::Bool(b),
        serde_json::Value::Number(n) => Json::Number(n.to_string()),
        serde_json::Value::String(s) => Json::Text(s),
        serde_json::Value::Array(items) => Json::Array(items.into_iter().map(adopt).collect()),
        serde_json::Value::Object(members) => {
            Json::Object(members.into_iter().map(|(name, v)| (name, adopt(v))).collect())
        },
    }
}

/// Parses a text as JSON.
///
/// Stands for `serde_json::from_str` into a `serde_json::Value`: its result, and the
/// message of its error, depend on the text alone. They are called `json_parsed`; the
/// grammar is not stated.
#[verifier::external_body]
pub(crate) fn parse_json(text: &str) -> (r: core::result::Result<Json, String>)
    ensures
        match r {
            Ok(j) => json_parsed(text@) == Ok::<JsonView, Seq<char>>(j@),
            Err(e) => json_parsed(text@) == Err::<JsonView, Seq<char>>(e@),
        },
{
    match serde_json::from_str::<serde_json::Value>(text) {
        Ok(value) => Ok(adopt(value)),
        Err(e) => Err(e.to_string()),
    }
}

/// Parses bytes as JSON.
///
/// Stands for `serde_json::from_slice` into a `serde_json::Value`: whether it succeeds,
/// and with what value, depends on the bytes alone. It is called `json_parsed_bytes`;
/// the grammar is not stated.
#[verifier::external_body]
pub(crate) fn parse_json_bytes(bytes: &[u8]) -> (r: Option<Json>)
    ensures
        match r {
            Some(j) => json_parsed_bytes(bytes@) == Some(j@),
            None => json_parsed_bytes(bytes@) is None,
        },
{
    match serde_json::from_slice::<serde_json::Value>(bytes) {
        Ok(value) => Some(adopt(value)),
        Err(_) => None,
    }
}

/// A message of JSON-RPC, as it is received.
#[derive(Debug, Clone, PartialEq)]
pub struct Message {
    /// The method; empty where it is no string.
    pub method: String,
    /// The id of a request; a notification has none.
    pub id: Option<Json>,
    /// The params; null where there are none.
    pub params: Json,
}

/// The value of a [`Message`].
pub struct MessageView {
    pub method: Seq<char>,
    pub id: Option<JsonView>,
    pub params: JsonView,
}

impl View for Message {
    type V = MessageView;

    open spec fn view(&self) -> MessageView {
        MessageView { method: self.method@, id: optional(self.id), params: self.params@ }
    }
}

/// The message that a JSON value is.
pub open spec fn message_of(j: JsonView) -> MessageView {
    MessageView {
        method: j.member("method"@).text(),
        id: j.find("id"@),
        params: j.member("params"@),
    }
}

/// The compact notation of a JSON value.
pub open spec fn compact(j: JsonView) -> Seq<char>
    decreases j,
{
    match j {
        JsonView::Null => "null"@,
        JsonView::Bool(b) => if b {
            "true"@
        } else {
            "false"@
        },
        JsonView::Number(s) => s,
        JsonView::Text(s) => json_string(s),
        JsonView::Array(items) => "["@ + compact_items(items, items.len()) + "]"@,
        JsonView::Object(members) => "{"@ + compact_members(members, members.len()) + "}"@,
    }
}

/// The first `k` items, with commas between them.
pub open spec fn compact_items(items: Seq<JsonView>, k: nat) -> Seq<char>
    decreases items, k,
{
    if 0 < k <= items.len() {
        compact_items(items, (k - 1) as nat) + (if k > 1 {
            ","@
        } else {
            ""@
        }) + compact(items[k - 1])
    } else {
        seq![]
    }
}

/// The first `k` members, with commas between them.
pub open spec fn compact_members(members: Seq<(Seq<char>, JsonView)>, k: nat) -> Seq<char>
    decreases members, k,
{
    if 0 < k <= members.len() {
        compact_members(members, (k - 1) as nat) + (if k > 1 {
            ","@
        } else {
            ""@
        }) + json_string(members[k - 1].0) + ":"@ + compact(members[k - 1].1)
    } else {
        seq![]
    }
}

/// No number is written with a line feed.
pub open spec fn plain_numbers(j: JsonView) -> bool
    decreases j,
{
    match j {
        JsonView::Number(s) => !s.contains('\n'),
        JsonView::Array(items) => forall|i: int|
            0 <= i < items.len() ==> plain_numbers(#[trigger] items[i]),
        JsonView::Object(members) => forall|i: int|
            0 <= i < members.len() ==> plain_numbers((#[trigger] members[i]).1),
        _ => true,
    }
}

proof fn lemma_escaped_line(s: Seq<char>)
    ensures
        !escaped_text(s).contains('\n'),
    decreases s.len(),
{
    if s.len() > 0 {
        lemma_escaped_line(s.drop_last());
        let c = s.last();
        let a = escaped_text(s.drop_last());
        let b = escaped(c);
        assert(!b.contains('\n')) by {
            if (c as u32) < 0x20 {
                let hi = hex_digit(c as u32 as int / 16);
                let lo = hex_digit(c as u32 as int % 16);
                assert(hi as u32 >= 0x30 && lo as u32 >= 0x30);
            }
        }
        lemma_concat_line(a, b);
    }
}

proof fn lemma_concat_line(a: Seq<char>, b: Seq<char>)
    requires
        !a.contains('\n'),
        !b.contains('\n'),
    ensures
        !(a + b).contains('\n'),
{
    if (a + b).contains('\n') {
        let i = choose|i: int| 0 <= i < (a + b).len() && (a + b)[i] == '\n';
        if i < a.len() {
            assert(a[i] == '\n');
        } else {
            assert(b[i - a.len()] == '\n');
        }
    }
}

proof fn lemma_string_line(s: Seq<char>)
    ensures
        !json_string(s).contains('\n'),
{
    lemma_escaped_line(s);
    lemma_concat_line(seq!['"'], escaped_text(s));
    lemma_concat_line(seq!['"'] + escaped_text(s), seq!['"']);
}

proof fn lemma_items_line(items: Seq<JsonView>, k: nat)
    requires
        forall|i: int| 0 <= i < items.len() ==> plain_numbers(#[trigger] items[i]),
    ensures
        !compact_items(items, k).contains('\n'),
    decreases items, k,
{
    if 0 < k <= items.len() {
        reveal_strlit(",");
        reveal_strlit("");
        lemma_items_line(items, (k - 1) as nat);
        law_compact_is_one_line(items[k - 1]);
        let head = compact_items(items, (k - 1) as nat);
        let comma = if k > 1 {
            ","@
        } else {
            ""@
        };
        lemma_concat_line(head, comma);
        lemma_concat_line(head + comma, compact(items[k - 1]));
    }
}

proof fn lemma_members_line(members: Seq<(Seq<char>, JsonView)>, k: nat)
    requires
        forall|i: int| 0 <= i < members.len() ==> plain_numbers((#[trigger] members[i]).1),
    ensures
        !compact_members(members, k).contains('\n'),
    decreases members, k,
{
    if 0 < k <= members.len() {
        reveal_strlit(",");
        reveal_strlit("");
        reveal_strlit(":");
        lemma_members_line(members, (k - 1) as nat);
        law_compact_is_one_line(members[k - 1].1);
        lemma_string_line(members[k - 1].0);
        let head = compact_members(members, (k - 1) as nat);
        let comma = if k > 1 {
            ","@
        } else {
            ""@
        };
        let name = json_string(members[k - 1].0);
        lemma_concat_line(head, comma);
        lemma_concat_line(head + comma, name);
        lemma_concat_line(head + comma + name, ":"@);
        lemma_concat_line(head + comma + name + ":"@, compact(members[k - 1].1));
    }
}

/// The compact notation of a value is one line.
pub proof fn law_compact_is_one_line(j: JsonView)
    requires
        plain_numbers(j),
    ensures
        !compact(j).contains('\n'),
    decreases j,
{
    reveal_strlit("null");
    reveal_strlit("true");
    reveal_strlit("false");
    reveal_strlit("[");
    reveal_strlit("]");
    reveal_strlit("{");
    reveal_strlit("}");
    match j {
        JsonView::Text(s) => lemma_string_line(s),
        JsonView::Array(items) => {
            lemma_items_line(items, items.len());
            lemma_concat_line("["@, compact_items(items, items.len()));
            lemma_concat_line("["@ + compact_items(items, items.len()), "]"@);
        },
        JsonView::Object(members) => {
            lemma_members_line(members, members.len());
            lemma_concat_line("{"@, compact_members(members, members.len()));
            lemma_concat_line("{"@ + compact_members(members, members.len()), "}"@);
        },
        _ => {},
    }
}

impl Json {
    /// A string.
    pub fn text(s: &str) -> (r: Self)
        ensures
            r@ == JsonView::Text(s@),
    {
        Json::Text(s.to_owned())
    }

    /// A natural number.
    pub fn number(n: u64) -> (r: Self)
        ensures
            r@ == JsonView::Number(crate::text::decimal(n as nat)),
    {
        Json::Number(crate::text::decimal_string(n))
    }

    /// An array.
    pub fn array(items: Vec<Json>) -> (r: Self)
        ensures
            r@ == JsonView::Array(json_values(items@)),
    {
        proof {
            lemma_array(items);
        }
        Json::Array(items)
    }

    /// An object without members.
    pub fn object() -> (r: Self)
        ensures
            r@ == JsonView::object(),
    {
        let members: Vec<(String, Json)> = Vec::new();
        proof {
            lemma_object(members);
            assert(member_values(members@) =~= Seq::empty());
        }
        Json::Object(members)
    }

    /// The object with one more member; another value as it is.
    #[must_use]
    pub fn with(self, name: &str, value: Json) -> (r: Self)
        ensures
            r@ == self@.with(name@, value@),
    {
        match self {
            Json::Object(members) => {
                let ghost before = member_values(members@);
                let ghost added = (name@, value@);
                proof {
                    lemma_object(members);
                }
                let mut members = members;
                members.push((name.to_owned(), value));
                proof {
                    lemma_object(members);
                    assert(member_values(members@) =~= before.push(added));
                }
                Json::Object(members)
            },
            other => other,
        }
    }

    /// The member with the given name, unless it is missing or the value is no object.
    #[must_use]
    pub fn get(&self, name: &str) -> (r: Option<&Json>)
        ensures
            match r {
                Some(j) => self@.find(name@) == Some(j@),
                None => self@.find(name@) is None,
            },
    {
        match self {
            Json::Object(members) => {
                proof {
                    lemma_object(*members);
                }
                let ghost views = member_values(members@);
                let mut i: usize = 0;
                while i < members.len()
                    invariant
                        i <= members@.len(),
                        views == member_values(members@),
                        self@ == JsonView::Object(views),
                        member_at(views, name@, i as int) == self@.find(name@),
                    decreases members@.len() - i,
                {
                    assert(views[i as int] == (members@[i as int].0@, members@[i as int].1@));
                    if same_text(members[i].0.as_str(), name) {
                        return Some(&members[i].1);
                    }
                    i += 1;
                }
                None
            },
            _ => None,
        }
    }

    /// The text of a string.
    #[must_use]
    pub fn as_str(&self) -> (r: Option<&str>)
        ensures
            match self@ {
                JsonView::Text(s) => r matches Some(x) && x@ == s,
                _ => r is None,
            },
    {
        match self {
            Json::Text(s) => Some(s.as_str()),
            _ => None,
        }
    }

    /// The items of an array.
    #[must_use]
    pub fn as_array(&self) -> (r: Option<&Vec<Json>>)
        ensures
            match self@ {
                JsonView::Array(items) => r matches Some(x) && json_values(x@) == items,
                _ => r is None,
            },
    {
        match self {
            Json::Array(items) => {
                proof {
                    lemma_array(*items);
                }
                Some(items)
            },
            _ => None,
        }
    }

    /// The text of a member; empty where there is no such string.
    #[must_use]
    pub fn text_of(&self, name: &str) -> (r: &str)
        ensures
            r@ == self@.member(name@).text(),
    {
        match self.get(name) {
            Some(j) => match j.as_str() {
                Some(s) => s,
                None => "",
            },
            None => "",
        }
    }

    /// The message that the value is.
    #[must_use]
    pub fn message(&self) -> (r: Message)
        ensures
            r@ == message_of(self@),
    {
        let id = match self.get("id") {
            Some(j) => Some(j.clone()),
            None => None,
        };
        let params = match self.get("params") {
            Some(j) => j.clone(),
            None => Json::Null,
        };
        Message { method: self.text_of("method").to_owned(), id, params }
    }

    /// Appends the compact notation of the value.
    pub fn write(&self, out: &mut String)
        ensures
            final(out)@ == old(out)@ + compact(self@),
        decreases self,
    {
        match self {
            Json::Null => out.append("null"),
            Json::Bool(b) => if *b {
                out.append("true");
            } else {
                out.append("false");
            },
            Json::Number(s) => out.append(s.as_str()),
            Json::Text(s) => out.append(quote(s.as_str()).as_str()),
            Json::Array(items) => {
                proof {
                    lemma_array(*items);
                }
                let ghost views = json_values(items@);
                out.append("[");
                let ghost start = out@;
                let mut i: usize = 0;
                assert(start + compact_items(views, 0) =~= start);
                while i < items.len()
                    invariant
                        i <= items@.len(),
                        self is Array,
                        *items == self->Array_0,
                        views == json_values(items@),
                        out@ == start + compact_items(views, i as nat),
                    decreases items@.len() - i,
                {
                    assert(views[i as int] == items@[i as int]@);
                    let ghost before = out@;
                    if i > 0 {
                        out.append(",");
                    } else {
                        proof {
                            reveal_strlit("");
                            assert(before + ""@ =~= before);
                        }
                    }
                    items[i].write(out);
                    i += 1;
                    assert(out@ =~= start + compact_items(views, i as nat));
                }
                out.append("]");
                assert(out@ =~= old(out)@ + compact(self@));
            },
            Json::Object(members) => {
                proof {
                    lemma_object(*members);
                }
                let ghost views = member_values(members@);
                out.append("{");
                let ghost start = out@;
                let mut i: usize = 0;
                assert(start + compact_members(views, 0) =~= start);
                while i < members.len()
                    invariant
                        i <= members@.len(),
                        self is Object,
                        *members == self->Object_0,
                        views == member_values(members@),
                        out@ == start + compact_members(views, i as nat),
                    decreases members@.len() - i,
                {
                    assert(views[i as int] == (members@[i as int].0@, members@[i as int].1@));
                    let ghost before = out@;
                    if i > 0 {
                        out.append(",");
                    } else {
                        proof {
                            reveal_strlit("");
                            assert(before + ""@ =~= before);
                        }
                    }
                    out.append(quote(members[i].0.as_str()).as_str());
                    out.append(":");
                    members[i].1.write(out);
                    i += 1;
                    assert(out@ =~= start + compact_members(views, i as nat));
                }
                out.append("}");
                assert(out@ =~= old(out)@ + compact(self@));
            },
        }
    }

    /// The compact notation of the value.
    #[must_use]
    pub fn to_string(&self) -> (r: String)
        ensures
            r@ == compact(self@),
    {
        let mut s = String::new();
        self.write(&mut s);
        assert(s@ =~= compact(self@));
        s
    }
}

/// A copy of a JSON value.
fn copy_json(j: &Json) -> (r: Json)
    ensures
        r@ == j@,
    decreases j,
{
    match j {
        Json::Null => Json::Null,
        Json::Bool(b) => Json::Bool(*b),
        Json::Number(s) => Json::Number(s.clone()),
        Json::Text(s) => Json::Text(s.clone()),
        Json::Array(items) => {
            let mut out: Vec<Json> = Vec::new();
            let mut i: usize = 0;
            while i < items.len()
                invariant
                    i <= items@.len(),
                    j is Array,
                    *items == j->Array_0,
                    out@.len() == i,
                    forall|k: int| 0 <= k < i ==> (#[trigger] out@[k])@ == items@[k]@,
                decreases items@.len() - i,
            {
                out.push(copy_json(&items[i]));
                i += 1;
            }
            proof {
                lemma_array(*items);
                lemma_array(out);
                assert(json_values(out@) =~= json_values(items@));
            }
            Json::Array(out)
        },
        Json::Object(members) => {
            let mut out: Vec<(String, Json)> = Vec::new();
            let mut i: usize = 0;
            while i < members.len()
                invariant
                    i <= members@.len(),
                    j is Object,
                    *members == j->Object_0,
                    out@.len() == i,
                    forall|k: int|
                        0 <= k < i ==> (#[trigger] out@[k]).0@ == members@[k].0@ && out@[k].1@
                            == members@[k].1@,
                decreases members@.len() - i,
            {
                out.push((members[i].0.clone(), copy_json(&members[i].1)));
                i += 1;
            }
            proof {
                lemma_object(*members);
                lemma_object(out);
                assert(member_values(out@) =~= member_values(members@));
            }
            Json::Object(out)
        },
    }
}

impl Clone for Json {
    fn clone(&self) -> (r: Self)
        ensures
            r@ == self@,
    {
        copy_json(self)
    }
}

} // verus!
