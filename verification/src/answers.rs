//! What is in the answers of the two servers, member by member, and how JSON is written.
use crate::composer::first_document;
use crate::cst::document::{with_top_entry, with_value};
use crate::cst::format::reformat;
use crate::json::{compact, escaped, json_string, member_at, JsonView};
use crate::lsp;
use crate::mcp;
use crate::schema::validate::NumberView;
use crate::text::decimal;
use vstd::prelude::*;

verus! {

// ─── JSON ───────────────────────────────────────────────────────────

proof fn lemma_member_pushed(
    members: Seq<(Seq<char>, JsonView)>,
    name: Seq<char>,
    value: JsonView,
    other: Seq<char>,
    i: int,
)
    requires
        0 <= i <= members.len(),
    ensures
        member_at(members.push((name, value)), other, i) == match member_at(members, other, i) {
            Some(v) => Some(v),
            None => if other == name {
                Some(value)
            } else {
                None
            },
        },
    decreases members.len() - i,
{
    let more = members.push((name, value));
    if i < members.len() {
        lemma_member_pushed(members, name, value, other, i + 1);
        assert(more[i] == members[i]);
    } else {
        assert(more[i] == (name, value));
        assert(member_at(more, other, i + 1) is None);
    }
}

/// A member put into an object is found under its name, unless there was one before, and
/// the others are found as before.
pub proof fn law_member_is_found(
    members: Seq<(Seq<char>, JsonView)>,
    name: Seq<char>,
    value: JsonView,
    other: Seq<char>,
)
    ensures
        ({
            let before = JsonView::Object(members);
            let after = before.with(name, value);
            &&& after.find(name) == if before.find(name) is None {
                Some(value)
            } else {
                before.find(name)
            }
            &&& other != name ==> after.find(other) == before.find(other)
        }),
        JsonView::object().find(name) is None,
{
    lemma_member_pushed(members, name, value, name, 0);
    lemma_member_pushed(members, name, value, other, 0);
}

/// Two members of an object.
proof fn lemma_two(a: Seq<char>, x: JsonView, b: Seq<char>, y: JsonView)
    requires
        a != b,
    ensures
        JsonView::object().with(a, x).with(b, y).member(a) == x,
        JsonView::object().with(a, x).with(b, y).member(b) == y,
{
    let one = Seq::<(Seq<char>, JsonView)>::empty();
    law_member_is_found(one, a, x, b);
    law_member_is_found(one.push((a, x)), b, y, a);
}

/// Four members of an object.
proof fn lemma_four(
    a: Seq<char>,
    x: JsonView,
    b: Seq<char>,
    y: JsonView,
    c: Seq<char>,
    z: JsonView,
    d: Seq<char>,
    w: JsonView,
)
    requires
        a != b,
        a != c,
        a != d,
        b != c,
        b != d,
        c != d,
    ensures
        ({
            let j = JsonView::object().with(a, x).with(b, y).with(c, z).with(d, w);
            j.member(a) == x && j.member(b) == y && j.member(c) == z && j.member(d) == w
        }),
{
    let none = Seq::<(Seq<char>, JsonView)>::empty();
    let one = none.push((a, x));
    let two = one.push((b, y));
    let three = two.push((c, z));
    law_member_is_found(none, a, x, b);
    law_member_is_found(none, a, x, c);
    law_member_is_found(none, a, x, d);
    law_member_is_found(one, b, y, a);
    law_member_is_found(one, b, y, c);
    law_member_is_found(one, b, y, d);
    law_member_is_found(two, c, z, a);
    law_member_is_found(two, c, z, b);
    law_member_is_found(two, c, z, d);
    law_member_is_found(three, d, w, a);
    law_member_is_found(three, d, w, b);
    law_member_is_found(three, d, w, c);
}

proof fn lemma_items_prefix(items: Seq<JsonView>, x: JsonView, k: nat)
    requires
        k <= items.len(),
    ensures
        crate::json::compact_items(items.push(x), k) == crate::json::compact_items(items, k),
    decreases k,
{
    if k > 0 {
        lemma_items_prefix(items, x, (k - 1) as nat);
        assert(items.push(x)[k - 1] == items[k - 1]);
    }
}

proof fn lemma_members_prefix(
    members: Seq<(Seq<char>, JsonView)>,
    name: Seq<char>,
    x: JsonView,
    k: nat,
)
    requires
        k <= members.len(),
    ensures
        crate::json::compact_members(members.push((name, x)), k) == crate::json::compact_members(
            members,
            k,
        ),
    decreases k,
{
    if k > 0 {
        lemma_members_prefix(members, name, x, (k - 1) as nat);
        assert(members.push((name, x))[k - 1] == members[k - 1]);
    }
}

/// JSON is written without blanks: items in brackets, members in braces, commas between
/// them, and a colon between a name and its value.
pub proof fn law_compact_notation(
    items: Seq<JsonView>,
    members: Seq<(Seq<char>, JsonView)>,
    name: Seq<char>,
    x: JsonView,
)
    ensures
        compact(JsonView::Array(seq![])) == seq!['[', ']'],
        compact(JsonView::Array(items.push(x))) == compact(JsonView::Array(items)).drop_last() + (
        if items.len() > 0 {
            seq![',']
        } else {
            seq![]
        }) + compact(x) + seq![']'],
        compact(JsonView::Object(seq![])) == seq!['{', '}'],
        compact(JsonView::Object(members.push((name, x)))) == compact(
            JsonView::Object(members),
        ).drop_last() + (if members.len() > 0 {
            seq![',']
        } else {
            seq![]
        }) + json_string(name) + seq![':'] + compact(x) + seq!['}'],
        compact(JsonView::Text(name)) == json_string(name),
        compact(JsonView::Number(name)) == name,
        compact(JsonView::Null) == seq!['n', 'u', 'l', 'l'],
        compact(JsonView::Bool(true)) == seq!['t', 'r', 'u', 'e'],
        compact(JsonView::Bool(false)) == seq!['f', 'a', 'l', 's', 'e'],
{
    reveal_strlit("[");
    reveal_strlit("]");
    reveal_strlit("{");
    reveal_strlit("}");
    reveal_strlit(",");
    reveal_strlit(":");
    reveal_strlit("");
    reveal_strlit("null");
    reveal_strlit("true");
    reveal_strlit("false");
    lemma_items_prefix(items, x, items.len());
    lemma_members_prefix(members, name, x, members.len());
    let more = items.push(x);
    assert(more[items.len() as int] == x);
    let inner = crate::json::compact_items(items, items.len());
    assert(compact(JsonView::Array(items)).drop_last() =~= seq!['['] + inner);
    assert(compact(JsonView::Array(more)) =~= seq!['['] + inner + (if items.len() > 0 {
        seq![',']
    } else {
        seq![]
    }) + compact(x) + seq![']']);
    let pairs = members.push((name, x));
    assert(pairs[members.len() as int] == (name, x));
    let inside = crate::json::compact_members(members, members.len());
    assert(compact(JsonView::Object(members)).drop_last() =~= seq!['{'] + inside);
    assert(compact(JsonView::Object(pairs)) =~= seq!['{'] + inside + (if members.len() > 0 {
        seq![',']
    } else {
        seq![]
    }) + json_string(name) + seq![':'] + compact(x) + seq!['}']);
}

/// The character that a backslash and the given character stand for in a JSON string.
pub open spec fn short_escape(c: char) -> Option<char> {
    if c == '"' || c == '\\' {
        Some(c)
    } else if c == 'b' {
        Some('\u{8}')
    } else if c == 't' {
        Some('\t')
    } else if c == 'n' {
        Some('\n')
    } else if c == 'f' {
        Some('\u{c}')
    } else if c == 'r' {
        Some('\r')
    } else {
        None
    }
}

/// The value of a hexadecimal digit in small letters.
pub open spec fn small_hex(c: char) -> int {
    if c as u32 <= 0x39 {
        c as u32 - 0x30
    } else {
        c as u32 - 0x57
    }
}

/// A character is written into a JSON string as itself, behind a backslash, or by its
/// number, and can be told from what is written.
pub proof fn law_character_is_escaped(c: char)
    ensures
        ({
            let e = escaped(c);
            if e.len() == 1 {
                e[0] == c && c as u32 >= 0x20 && c != '"' && c != '\\'
            } else if e.len() == 2 {
                e[0] == '\\' && short_escape(e[1]) == Some(c)
            } else {
                e.len() == 6 && e[0] == '\\' && e[1] == 'u' && e[2] == '0' && e[3] == '0'
                    && small_hex(e[4]) * 16 + small_hex(e[5]) == c as u32 && 0 <= small_hex(e[4])
                    < 16 && 0 <= small_hex(e[5]) < 16
            }
        }),
{
    let n = c as u32 as int;
    if n < 0x20 {
        let a = n / 16;
        let b = n % 16;
        assert(0 <= a <= 1 && 0 <= b < 16);
        lemma_hex_digit(a);
        lemma_hex_digit(b);
    }
}

proof fn lemma_hex_digit(d: int)
    requires
        0 <= d < 16,
    ensures
        small_hex(crate::json::hex_digit(d)) == d,
{
    if d < 10 {
        vstd::utf8::char_u32_cast((0x30 + d) as char, (0x30 + d) as u32);
    } else {
        vstd::utf8::char_u32_cast((0x57 + d) as char, (0x57 + d) as u32);
    }
}

/// A string is written in quotes, character by character.
pub proof fn law_string_notation(s: Seq<char>, c: char)
    ensures
        json_string(seq![]) == seq!['"', '"'],
        json_string(s.push(c)) == json_string(s).drop_last() + escaped(c) + seq!['"'],
{
    assert(s.push(c).drop_last() =~= s);
    assert(json_string(s).drop_last() =~= seq!['"'] + crate::json::escaped_text(s));
}

/// An error is told by what went wrong and, where its place is known, by the line and the
/// column at which it starts.
pub proof fn law_error_tells_its_place(e: crate::error::ErrorView)
    ensures
        e.span is None ==> e.message() == e.kind.message(),
        e.span matches Some(s) ==> e.message() == e.kind.message() + seq![' ', 'a', 't', ' ']
            + decimal(s.start.line as nat) + seq![':'] + decimal(s.start.column as nat),
{
    reveal_strlit(" at ");
    assert(" at "@ =~= seq![' ', 'a', 't', ' ']);
    if let Some(s) = e.span {
        assert(e.message() =~= e.kind.message() + seq![' ', 'a', 't', ' '] + decimal(
            s.start.line as nat,
        ) + seq![':'] + decimal(s.start.column as nat));
    }
}

// ─── The language server ────────────────────────────────────────────

proof fn lemma_lsp_names()
    ensures
        "character"@ != "line"@,
        "end"@ != "start"@,
        "message"@ != "range"@,
        "message"@ != "severity"@,
        "message"@ != "source"@,
        "range"@ != "severity"@,
        "range"@ != "source"@,
        "severity"@ != "source"@,
        "diagnostics"@ != "uri"@,
        "newText"@ != "range"@,
        "textDocument/didOpen"@ != "textDocument/didChange"@,
        "textDocument/formatting"@ != "textDocument/didChange"@,
        "textDocument/formatting"@ != "textDocument/didOpen"@,
        "textDocument/formatting"@ != "initialize"@,
        "textDocument/formatting"@ != "initialized"@,
        "textDocument/formatting"@ != "exit"@,
        "textDocument/formatting"@ != "shutdown"@,
        "textDocument/didOpen"@ != "initialize"@,
        "textDocument/didOpen"@ != "initialized"@,
        "textDocument/didOpen"@ != "exit"@,
        "textDocument/didOpen"@ != "shutdown"@,
        "textDocument/didChange"@ != "initialize"@,
        "textDocument/didChange"@ != "initialized"@,
        "textDocument/didChange"@ != "exit"@,
        "textDocument/didChange"@ != "shutdown"@,
{
    reveal_strlit("character");
    reveal_strlit("line");
    reveal_strlit("end");
    reveal_strlit("start");
    reveal_strlit("message");
    reveal_strlit("range");
    reveal_strlit("severity");
    reveal_strlit("source");
    reveal_strlit("diagnostics");
    reveal_strlit("uri");
    reveal_strlit("newText");
    reveal_strlit("initialize");
    reveal_strlit("initialized");
    reveal_strlit("exit");
    reveal_strlit("shutdown");
    reveal_strlit("textDocument/didOpen");
    reveal_strlit("textDocument/didChange");
    reveal_strlit("textDocument/formatting");
    assert("character"@.len() == 9 && "line"@.len() == 4);
    assert("end"@.len() == 3 && "start"@.len() == 5);
    assert("message"@.len() == 7 && "range"@.len() == 5);
    assert("severity"@.len() == 8 && "source"@.len() == 6);
    assert("diagnostics"@.len() == 11 && "uri"@.len() == 3);
    assert("newText"@.len() == 7 && "exit"@.len() == 4);
    assert("initialize"@.len() == 10 && "initialized"@.len() == 11);
    assert("shutdown"@.len() == 8);
    assert("textDocument/formatting"@.len() == 23);
    assert("textDocument/didChange"@.len() == 22);
    assert("textDocument/didOpen"@.len() == 20);
}

/// A diagnostic has the message of its error and starts one line and one column before
/// the error's own position, which counts from one; without a position it stands at the
/// start. It covers one character.
pub proof fn law_diagnostic(e: crate::error::ErrorView)
    requires
        e.span matches Some(s) ==> s.start.line > 0 && s.start.column > 0,
    ensures
        ({
            let d = lsp::diagnostic(e);
            let start = d.member("range"@).member("start"@);
            let end = d.member("range"@).member("end"@);
            let (line, column) = match e.span {
                Some(s) => (s.start.line as int, s.start.column as int),
                None => (1int, 1int),
            };
            &&& d.member("message"@) == JsonView::Text(e.message())
            &&& d.member("severity"@) == JsonView::Number(decimal(1))
            &&& d.member("source"@) == JsonView::Text("skald"@)
            &&& start.member("line"@) == JsonView::Number(decimal((line - 1) as nat))
            &&& start.member("character"@) == JsonView::Number(decimal((column - 1) as nat))
            &&& end.member("line"@) == start.member("line"@)
            &&& end.member("character"@) == JsonView::Number(decimal(column as nat))
        }),
{
    lemma_lsp_names();
    let (line, character) = match e.span {
        Some(s) => (lsp::less_one(s.start.line), lsp::less_one(s.start.column)),
        None => (0, 0),
    };
    let start = lsp::position(line, character);
    let end = lsp::position(line, character + 1);
    lemma_two(
        "character"@,
        lsp::json_number(character),
        "line"@,
        lsp::json_number(line),
    );
    lemma_two(
        "character"@,
        lsp::json_number(character + 1),
        "line"@,
        lsp::json_number(line),
    );
    lemma_two("end"@, end, "start"@, start);
    lemma_four(
        "message"@,
        JsonView::Text(e.message()),
        "range"@,
        lsp::range(start, end),
        "severity"@,
        lsp::json_number(1),
        "source"@,
        JsonView::Text("skald"@),
    );
}

/// An opened document is answered by one notification with its diagnostics: none where it
/// can be read, and one for the error where it cannot.
pub proof fn law_opened_document_is_checked(
    docs: lsp::Docs,
    id: Option<JsonView>,
    params: JsonView,
)
    ensures
        ({
            let uri = params.member("textDocument"@).member("uri"@).text();
            let text = params.member("textDocument"@).member("text"@).text();
            let r = lsp::replies(docs, "textDocument/didOpen"@, id, params);
            &&& r.len() == 1
            &&& r[0] matches lsp::OutgoingView::Notification { method, params: p } && {
                &&& method == "textDocument/publishDiagnostics"@
                &&& p.member("uri"@) == JsonView::Text(uri)
                &&& p.member("diagnostics"@) matches JsonView::Array(found) && match first_document(
                    text,
                ) {
                    Ok(_) => found.len() == 0,
                    Err(e) => found.len() == 1 && found[0] == lsp::diagnostic(e),
                }
            }
            &&& lsp::text_of(lsp::docs_after(docs, "textDocument/didOpen"@, params), uri) == Some(
                text,
            )
        }),
{
    lemma_lsp_names();
    let uri = lsp::uri_of(params);
    let text = params.member("textDocument"@).member("text"@).text();
    lsp::law_stored_text_is_found(docs, uri, text, uri);
    lemma_two(
        "diagnostics"@,
        JsonView::Array(lsp::diagnostics(text)),
        "uri"@,
        JsonView::Text(uri),
    );
}

/// A changed document has the text of the last change, and is checked with it; without a
/// change that has a text it stays as it was.
pub proof fn law_changed_document_is_checked(
    docs: lsp::Docs,
    id: Option<JsonView>,
    params: JsonView,
    changes: Seq<JsonView>,
    text: Seq<char>,
)
    requires
        params.member("contentChanges"@) == JsonView::Array(changes),
    ensures
        ({
            let uri = params.member("textDocument"@).member("uri"@).text();
            let r = lsp::replies(docs, "textDocument/didChange"@, id, params);
            let after = lsp::docs_after(docs, "textDocument/didChange"@, params);
            &&& changes.len() == 0 ==> after == docs
            &&& changes.len() > 0 && changes.last().member("text"@) == JsonView::Text(text) ==> {
                &&& lsp::text_of(after, uri) == Some(text)
                &&& r.len() == 1
                &&& r[0] matches lsp::OutgoingView::Notification { params: p, .. } && {
                    &&& p.member("uri"@) == JsonView::Text(uri)
                    &&& p.member("diagnostics"@) matches JsonView::Array(found)
                        && match first_document(text) {
                        Ok(_) => found.len() == 0,
                        Err(e) => found.len() == 1 && found[0] == lsp::diagnostic(e),
                    }
                }
            }
        }),
{
    lemma_lsp_names();
    let uri = lsp::uri_of(params);
    lsp::law_stored_text_is_found(docs, uri, text, uri);
    lemma_two(
        "diagnostics"@,
        JsonView::Array(lsp::diagnostics(text)),
        "uri"@,
        JsonView::Text(uri),
    );
}

/// Formatting an open document answers one edit with the formatted text; one that is not
/// open gets none.
pub proof fn law_formatting_is_answered(docs: lsp::Docs, id: JsonView, params: JsonView)
    ensures
        ({
            let uri = params.member("textDocument"@).member("uri"@).text();
            let r = lsp::replies(docs, "textDocument/formatting"@, Some(id), params);
            &&& r.len() == 1
            &&& r[0] matches lsp::OutgoingView::Response { id: i, result } && i == id && {
                &&& result matches JsonView::Array(found) && match lsp::text_of(docs, uri) {
                    Some(text) => found.len() == 1 && found[0].member("newText"@)
                        == JsonView::Text(reformat(text)) && found[0].member("range"@).member(
                        "start"@,
                    ) == lsp::position(0, 0),
                    None => found.len() == 0,
                }
            }
        }),
{
    lemma_lsp_names();
    let uri = lsp::uri_of(params);
    if let Some(text) = lsp::text_of(docs, uri) {
        let start = lsp::position(0, 0);
        let end = lsp::position(lsp::line_feeds(text) + 1, 0);
        lemma_two("end"@, end, "start"@, start);
        lemma_two(
            "newText"@,
            JsonView::Text(reformat(text)),
            "range"@,
            lsp::range(start, end),
        );
    }
}

// ─── The tool server ────────────────────────────────────────────────

/// Whether an answer of a tool is an error with the given text, or a success with it.
pub open spec fn tells(answer: JsonView, text: Seq<char>, is_error: bool) -> bool {
    &&& answer.member("isError"@) == JsonView::Bool(is_error)
    &&& answer.member("content"@) matches JsonView::Array(parts) && parts.len() == 1
        && parts[0].member("type"@) == JsonView::Text("text"@) && parts[0].member("text"@)
        == JsonView::Text(text)
}

proof fn lemma_content(text: Seq<char>, is_error: bool)
    ensures
        tells(mcp::content(text, is_error), text, is_error),
{
    reveal_strlit("content");
    reveal_strlit("isError");
    reveal_strlit("text");
    reveal_strlit("type");
    assert("content"@[0] != "isError"@[0]);
    assert("text"@[1] != "type"@[1]);
    lemma_two("text"@, JsonView::Text(text), "type"@, JsonView::Text("text"@));
    let part = JsonView::object().with("text"@, JsonView::Text(text)).with(
        "type"@,
        JsonView::Text("text"@),
    );
    lemma_two(
        "content"@,
        JsonView::Array(seq![part]),
        "isError"@,
        JsonView::Bool(is_error),
    );
}

proof fn lemma_tool_names()
    ensures
        "yaml_parse"@ != "yaml_validate"@,
        "yaml_parse"@ != "yaml_format"@,
        "yaml_parse"@ != "yaml_edit"@,
        "yaml_validate"@ != "yaml_format"@,
        "yaml_validate"@ != "yaml_edit"@,
        "yaml_format"@ != "yaml_edit"@,
{
    reveal_strlit("yaml_parse");
    reveal_strlit("yaml_validate");
    reveal_strlit("yaml_format");
    reveal_strlit("yaml_edit");
    assert("yaml_parse"@.len() == 10 && "yaml_validate"@.len() == 13);
    assert("yaml_format"@.len() == 11 && "yaml_edit"@.len() == 9);
}

/// The tool that parses says `valid` of a text that can be read, and is an error with the
/// message at the end otherwise; the tool that formats gives the formatted text, and is
/// an error for a text that cannot be read; a tool that does not exist is an error that
/// names it.
pub proof fn law_reading_tools(params: JsonView, numbers: Seq<NumberView>)
    ensures
        ({
            let name = params.member("name"@).text();
            let text = params.member("arguments"@).member("text"@).text();
            let a = mcp::call_answer(params, numbers);
            &&& name == "yaml_parse"@ ==> match first_document(text) {
                Ok(_) => tells(a, "valid"@, false),
                Err(e) => tells(
                    a,
                    match e.span {
                        None => e.message(),
                        Some(s) => decimal(s.start.line as nat) + seq![':'] + decimal(
                            s.start.column as nat,
                        ) + seq![' '] + e.message(),
                    },
                    true,
                ),
            }
            &&& name == "yaml_format"@ ==> match first_document(text) {
                Ok(_) => tells(a, reformat(text), false),
                Err(e) => tells(a, "parse error: "@ + e.message(), true),
            }
            &&& name != "yaml_parse"@ && name != "yaml_format"@ && name != "yaml_validate"@
                && name != "yaml_edit"@ ==> tells(a, "unknown tool: "@ + name, true)
        }),
{
    lemma_tool_names();
    reveal_strlit(":");
    reveal_strlit(" ");
    let name = params.member("name"@).text();
    let text = params.member("arguments"@).member("text"@).text();
    lemma_content("valid"@, false);
    lemma_content(reformat(text), false);
    lemma_content("unknown tool: "@ + name, true);
    if let Err(e) = first_document(text) {
        lemma_content(mcp::located(e), true);
        lemma_content("parse error: "@ + e.message(), true);
        assert(":"@ =~= seq![':']);
        assert(" "@ =~= seq![' ']);
    }
}

/// The tool that edits gives the text with the new value where the path leads to one, the
/// text with a new entry where a path of one name leads nowhere and the text takes one,
/// and is an error otherwise.
pub proof fn law_editing_tool(params: JsonView, numbers: Seq<NumberView>)
    requires
        params.member("name"@).text() == "yaml_edit"@,
    ensures
        ({
            let args = params.member("arguments"@);
            let text = args.member("text"@).text();
            let path = args.member("path"@).text();
            let value = args.member("value"@).text();
            let a = mcp::call_answer(params, numbers);
            &&& with_value(text, path, value) matches Some(t) ==> tells(a, t, false)
            &&& with_value(text, path, value) is None && path.contains('.') ==> tells(
                a,
                "path not found"@,
                true,
            )
            &&& with_value(text, path, value) is None && !path.contains('.') ==> match with_top_entry(
                text,
                path,
                value,
            ) {
                Some(t) => tells(a, t, false),
                None => a.member("isError"@) == JsonView::Bool(true),
            }
        }),
{
    lemma_tool_names();
    let args = params.member("arguments"@);
    let text = args.member("text"@).text();
    let path = args.member("path"@).text();
    let value = args.member("value"@).text();
    match mcp::edited_text(text, path, value) {
        Ok(t) => lemma_content(t, false),
        Err(e) => lemma_content(e.message(), true),
    }
}

/// The tool that validates is an error where the schema or the text cannot be read, and
/// otherwise gives a JSON array with one object for each failure, in order, each with the
/// place, path and message of its failure.
pub proof fn law_validating_tool(params: JsonView, numbers: Seq<NumberView>)
    requires
        params.member("name"@).text() == "yaml_validate"@,
    ensures
        ({
            let args = params.member("arguments"@);
            let text = args.member("text"@).text();
            let schema = args.member("schema"@).text();
            let a = mcp::call_answer(params, numbers);
            match (first_document(schema), first_document(text)) {
                (Err(e), _) => tells(a, "schema parse error: "@ + e.message(), true),
                (_, Err(e)) => tells(a, "parse error: "@ + e.message(), true),
                (Ok(s), Ok(n)) => {
                    let found = crate::schema::validate::violations(
                        n,
                        crate::schema::model::schema_of(s),
                        ""@,
                        numbers,
                    );
                    exists|items: Seq<JsonView>| #[trigger]
                        tells(a, compact(JsonView::Array(items)), false) && items.len()
                            == found.len() && forall|i: int|
                            0 <= i < items.len() ==> {
                                let j = #[trigger] items[i];
                                j.member("line"@) == JsonView::Number(
                                    decimal(found[i].span.start.line as nat),
                                ) && j.member("column"@) == JsonView::Number(
                                    decimal(found[i].span.start.column as nat),
                                ) && j.member("path"@) == JsonView::Text(found[i].path) && j.member(
                                    "message"@,
                                ) == JsonView::Text(found[i].message)
                            }
                },
            }
        }),
{
    lemma_tool_names();
    let args = params.member("arguments"@);
    let text = args.member("text"@).text();
    let schema = args.member("schema"@).text();
    match (first_document(schema), first_document(text)) {
        (Err(e), _) => lemma_content("schema parse error: "@ + e.message(), true),
        (_, Err(e)) => lemma_content("parse error: "@ + e.message(), true),
        (Ok(s), Ok(n)) => {
            let found = crate::schema::validate::violations(
                n,
                crate::schema::model::schema_of(s),
                ""@,
                numbers,
            );
            let items = mcp::failures_json(found);
            lemma_content(compact(JsonView::Array(items)), false);
            assert forall|i: int| 0 <= i < items.len() implies {
                let j = #[trigger] items[i];
                j.member("line"@) == JsonView::Number(decimal(found[i].span.start.line as nat))
                    && j.member("column"@) == JsonView::Number(
                    decimal(found[i].span.start.column as nat),
                ) && j.member("path"@) == JsonView::Text(found[i].path) && j.member("message"@)
                    == JsonView::Text(found[i].message)
            } by {
                reveal_strlit("column");
                reveal_strlit("line");
                reveal_strlit("message");
                reveal_strlit("path");
                assert("line"@[0] != "path"@[0]);
                assert("column"@.len() == 6 && "message"@.len() == 7);
                lemma_four(
                    "column"@,
                    mcp::json_number(found[i].span.start.column as nat),
                    "line"@,
                    mcp::json_number(found[i].span.start.line as nat),
                    "message"@,
                    JsonView::Text(found[i].message),
                    "path"@,
                    JsonView::Text(found[i].path),
                );
            }
            assert(tells(
                mcp::call_answer(params, numbers),
                compact(JsonView::Array(items)),
                false,
            ));
        },
    }
}

} // verus!
