//! Minimal YAML Language Server core: transport-agnostic dispatch + framing.
use crate::composer::from_str_node;
use crate::cst::document::Document;
use crate::error::{Error, ErrorView};
use crate::json::{json_parsed_bytes, message_of, parse_json_bytes, Json, JsonView, Message};
use crate::scanner::cursor::MAX_INPUT;
use crate::text::{push_decimal, same_text};
use vstd::prelude::*;
use vstd::string::*;
use vstd::utf8::encode_utf8;

verus! {

/// An outgoing LSP message produced by handling an incoming one.
#[derive(Debug, Clone, PartialEq)]
pub enum Outgoing {
    /// A response to a request, carrying the request `id` and a `result`.
    Response {
        /// The request id this responds to.
        id: Json,
        /// The result payload.
        result: Json,
    },
    /// A server-initiated notification (method + params).
    Notification {
        /// The notification method name.
        method: String,
        /// The notification params.
        params: Json,
    },
}

/// The value of an [`Outgoing`].
pub enum OutgoingView {
    Response { id: JsonView, result: JsonView },
    Notification { method: Seq<char>, params: JsonView },
}

impl View for Outgoing {
    type V = OutgoingView;

    open spec fn view(&self) -> OutgoingView {
        match self {
            Outgoing::Response { id, result } => OutgoingView::Response {
                id: id@,
                result: result@,
            },
            Outgoing::Notification { method, params } => OutgoingView::Notification {
                method: method@,
                params: params@,
            },
        }
    }
}

/// The values of some messages.
pub open spec fn outgoing_views(s: Seq<Outgoing>) -> Seq<OutgoingView> {
    Seq::new(s.len(), |i: int| s[i]@)
}

/// The open documents: their URIs and texts.
pub type Docs = Seq<(Seq<char>, Seq<char>)>;

/// The text of a document, from the `i`th on.
pub open spec fn text_at(docs: Docs, uri: Seq<char>, i: int) -> Option<Seq<char>>
    decreases docs.len() - i,
{
    if !(0 <= i < docs.len()) {
        None
    } else if docs[i].0 == uri {
        Some(docs[i].1)
    } else {
        text_at(docs, uri, i + 1)
    }
}

/// The text of an open document.
pub open spec fn text_of(docs: Docs, uri: Seq<char>) -> Option<Seq<char>> {
    text_at(docs, uri, 0)
}

/// The documents with the text of one replaced, from the `i`th on, or with one more.
pub open spec fn stored_at(docs: Docs, uri: Seq<char>, text: Seq<char>, i: int) -> Docs
    decreases docs.len() - i,
{
    if !(0 <= i < docs.len()) {
        docs.push((uri, text))
    } else if docs[i].0 == uri {
        docs.update(i, (uri, text))
    } else {
        stored_at(docs, uri, text, i + 1)
    }
}

/// The documents with the given text for one of them.
pub open spec fn stored(docs: Docs, uri: Seq<char>, text: Seq<char>) -> Docs {
    stored_at(docs, uri, text, 0)
}

proof fn lemma_stored_at(docs: Docs, uri: Seq<char>, text: Seq<char>, other: Seq<char>, i: int)
    requires
        0 <= i <= docs.len(),
    ensures
        text_at(stored_at(docs, uri, text, i), uri, i) == Some(text),
        other != uri ==> text_at(stored_at(docs, uri, text, i), other, i) == text_at(
            docs,
            other,
            i,
        ),
        forall|j: int|
            0 <= j < i ==> #[trigger] stored_at(docs, uri, text, i)[j] == docs[j],
        stored_at(docs, uri, text, i).len() >= docs.len(),
    decreases docs.len() - i,
{
    let after = stored_at(docs, uri, text, i);
    if i < docs.len() && docs[i].0 != uri {
        lemma_stored_at(docs, uri, text, other, i + 1);
        assert(after[i] == docs[i]);
    } else if i < docs.len() {
        lemma_other_suffix(docs, after, other, i + 1);
    } else {
        assert(text_at(after, other, i + 1) is None);
    }
}

/// The texts behind a place that is not touched.
proof fn lemma_other_suffix(docs: Docs, after: Docs, other: Seq<char>, i: int)
    requires
        0 <= i <= docs.len(),
        after.len() == docs.len(),
        forall|j: int| i <= j < docs.len() ==> after[j] == docs[j],
    ensures
        text_at(after, other, i) == text_at(docs, other, i),
    decreases docs.len() - i,
{
    if i < docs.len() {
        lemma_other_suffix(docs, after, other, i + 1);
    }
}

/// A stored text is the one found under its URI, and every other document stays as
/// it is.
pub proof fn law_stored_text_is_found(docs: Docs, uri: Seq<char>, text: Seq<char>, other: Seq<char>)
    ensures
        text_of(stored(docs, uri, text), uri) == Some(text),
        other != uri ==> text_of(stored(docs, uri, text), other) == text_of(docs, other),
{
    lemma_stored_at(docs, uri, text, other, 0);
}

/// A number as JSON.
pub open spec fn json_number(n: nat) -> JsonView {
    JsonView::Number(crate::text::decimal(n))
}

/// A position.
pub open spec fn position(line: nat, character: nat) -> JsonView {
    JsonView::object().with("character"@, json_number(character)).with("line"@, json_number(line))
}

/// A range.
pub open spec fn range(start: JsonView, end: JsonView) -> JsonView {
    JsonView::object().with("end"@, end).with("start"@, start)
}

/// One less, but not below zero.
pub open spec fn less_one(n: u32) -> nat {
    if n > 0 {
        (n - 1) as nat
    } else {
        0
    }
}

/// The diagnostic for an error. Positions count from one, those of the protocol from
/// zero.
pub open spec fn diagnostic(e: ErrorView) -> JsonView {
    let (line, character) = match e.span {
        Some(s) => (less_one(s.start.line), less_one(s.start.column)),
        None => (0, 0),
    };
    JsonView::object().with("message"@, JsonView::Text(e.message())).with(
        "range"@,
        range(position(line, character), position(line, character + 1)),
    ).with("severity"@, json_number(1)).with("source"@, JsonView::Text("skald"@))
}

/// The diagnostics of a text: one for the first error, if there is one.
pub open spec fn diagnostics(text: Seq<char>) -> Seq<JsonView> {
    match crate::composer::first_document(text) {
        Ok(_) => seq![],
        Err(e) => seq![diagnostic(e)],
    }
}

/// The notification with the diagnostics of a document.
pub open spec fn published(docs: Docs, uri: Seq<char>) -> Seq<OutgoingView> {
    let text = match text_of(docs, uri) {
        Some(t) => t,
        None => ""@,
    };
    seq![
        OutgoingView::Notification {
            method: "textDocument/publishDiagnostics"@,
            params: JsonView::object().with(
                "diagnostics"@,
                JsonView::Array(diagnostics(text)),
            ).with("uri"@, JsonView::Text(uri)),
        },
    ]
}

/// The number of line feeds.
pub open spec fn line_feeds(s: Seq<char>) -> nat
    decreases s.len(),
{
    if s.len() == 0 {
        0
    } else {
        line_feeds(s.drop_last()) + if s.last() == '\n' {
            1nat
        } else {
            0
        }
    }
}

/// The edits that format a document: one that replaces all of it; none for a document
/// that is not open.
pub open spec fn edits(docs: Docs, uri: Seq<char>) -> JsonView {
    JsonView::Array(
        match text_of(docs, uri) {
            None => seq![],
            Some(text) => seq![
                JsonView::object().with(
                    "newText"@,
                    JsonView::Text(crate::cst::format::reformat(text)),
                ).with("range"@, range(position(0, 0), position(line_feeds(text) + 1, 0))),
            ],
        },
    )
}

/// What the server can do.
pub open spec fn capabilities() -> JsonView {
    JsonView::object().with(
        "capabilities"@,
        JsonView::object().with("documentFormattingProvider"@, JsonView::Bool(true)).with(
            "textDocumentSync"@,
            json_number(1),
        ),
    )
}

/// The id of a response: null for a notification.
pub open spec fn reply_id(id: Option<JsonView>) -> JsonView {
    match id {
        Some(i) => i,
        None => JsonView::Null,
    }
}

/// One response.
pub open spec fn answer(id: Option<JsonView>, result: JsonView) -> Seq<OutgoingView> {
    seq![OutgoingView::Response { id: reply_id(id), result }]
}

/// The URI that a message is about.
pub open spec fn uri_of(params: JsonView) -> Seq<char> {
    params.member("textDocument"@).member("uri"@).text()
}

/// The text of the last content change, if there is one.
pub open spec fn changed_text(params: JsonView) -> Option<Seq<char>> {
    match params.member("contentChanges"@) {
        JsonView::Array(changes) => if changes.len() > 0 {
            match changes.last().member("text"@) {
                JsonView::Text(s) => Some(s),
                _ => None,
            }
        } else {
            None
        },
        _ => None,
    }
}

/// What a message does to the open documents.
pub open spec fn docs_after(docs: Docs, method: Seq<char>, params: JsonView) -> Docs {
    if method == "textDocument/didOpen"@ {
        stored(docs, uri_of(params), params.member("textDocument"@).member("text"@).text())
    } else if method == "textDocument/didChange"@ {
        match changed_text(params) {
            Some(text) => stored(docs, uri_of(params), text),
            None => docs,
        }
    } else {
        docs
    }
}

/// What a message is answered.
pub open spec fn replies(
    docs: Docs,
    method: Seq<char>,
    id: Option<JsonView>,
    params: JsonView,
) -> Seq<OutgoingView> {
    if method == "initialize"@ {
        answer(id, capabilities())
    } else if method == "initialized"@ || method == "exit"@ {
        seq![]
    } else if method == "shutdown"@ {
        answer(id, JsonView::Null)
    } else if method == "textDocument/didOpen"@ || method == "textDocument/didChange"@ {
        published(docs_after(docs, method, params), uri_of(params))
    } else if method == "textDocument/formatting"@ {
        answer(id, edits(docs, uri_of(params)))
    } else if id is Some {
        answer(id, JsonView::Null)
    } else {
        seq![]
    }
}

/// A request is answered by exactly one response, under its id, unless its method is
/// one that only notifications have.
pub proof fn law_request_is_answered(docs: Docs, method: Seq<char>, id: JsonView, params: JsonView)
    requires
        method != "initialized"@,
        method != "exit"@,
        method != "textDocument/didOpen"@,
        method != "textDocument/didChange"@,
    ensures
        replies(docs, method, Some(id), params).len() == 1,
        replies(docs, method, Some(id), params)[0] matches OutgoingView::Response { id: i, .. }
            && i == id,
        docs_after(docs, method, params) == docs,
{
}

/// The texts in a message are short enough to be scanned.
pub open spec fn small_texts(params: JsonView) -> bool {
    &&& encode_utf8(params.member("textDocument"@).member("text"@).text()).len() < MAX_INPUT
    &&& changed_text(params) matches Some(s) ==> encode_utf8(s).len() < MAX_INPUT
}

/// LSP server state: open documents keyed by URI.
pub struct Server {
    /// Open documents (uri, full text).
    docs: Vec<(String, String)>,
}

impl View for Server {
    type V = Docs;

    closed spec fn view(&self) -> Docs {
        Seq::new(self.docs@.len(), |i: int| (self.docs@[i].0@, self.docs@[i].1@))
    }
}

impl Server {
    /// The open documents are short enough to be scanned.
    pub open spec fn wf(self) -> bool {
        forall|i: int| 0 <= i < self@.len() ==> encode_utf8((#[trigger] self@[i]).1).len() < MAX_INPUT
    }

    /// Creates an empty server.
    #[must_use]
    pub fn new() -> (r: Self)
        ensures
            r.wf(),
            r@ == Seq::<(Seq<char>, Seq<char>)>::empty(),
    {
        let r = Server { docs: Vec::new() };
        assert(r@ =~= Seq::<(Seq<char>, Seq<char>)>::empty());
        r
    }

    /// Handles one incoming message. `id` is `Some` for requests, `None` for
    /// notifications. Returns the outgoing messages to emit (responses + notifications).
    pub fn handle(&mut self, method: &str, id: Option<Json>, params: Json) -> (r: Vec<Outgoing>)
        requires
            old(self).wf(),
            small_texts(params@),
        ensures
            final(self).wf(),
            final(self)@ == docs_after(old(self)@, method@, params@),
            outgoing_views(r@) == replies(
                old(self)@,
                method@,
                crate::json::optional(id),
                params@,
            ),
    {
        proof {
            lemma_methods();
        }
        if same_text(method, "initialize") {
            respond(id, capabilities_json())
        } else if same_text(method, "initialized") || same_text(method, "exit") {
            none()
        } else if same_text(method, "shutdown") {
            respond(id, Json::Null)
        } else if same_text(method, "textDocument/didOpen") {
            self.did_open(&params)
        } else if same_text(method, "textDocument/didChange") {
            self.did_change(&params)
        } else if same_text(method, "textDocument/formatting") {
            let result = self.format(&params);
            respond(id, result)
        } else if id.is_some() {
            // unknown request → null result
            respond(id, Json::Null)
        } else {
            // unknown notification → silent
            none()
        }
    }

    /// The text of an open document.
    fn find(&self, uri: &str) -> (r: Option<&str>)
        ensures
            match text_of(self@, uri@) {
                Some(t) => r matches Some(s) && s@ == t,
                None => r is None,
            },
            self.wf() ==> (r matches Some(s) ==> encode_utf8(s@).len() < MAX_INPUT),
    {
        let mut i: usize = 0;
        while i < self.docs.len()
            invariant
                i <= self.docs@.len(),
                text_at(self@, uri@, i as int) == text_of(self@, uri@),
            decreases self.docs@.len() - i,
        {
            assert(self@[i as int] == (self.docs@[i as int].0@, self.docs@[i as int].1@));
            if same_text(self.docs[i].0.as_str(), uri) {
                return Some(self.docs[i].1.as_str());
            }
            i += 1;
        }
        None
    }

    /// Keeps the text of a document.
    fn store(&mut self, uri: &str, text: &str)
        requires
            old(self).wf(),
            encode_utf8(text@).len() < MAX_INPUT,
        ensures
            final(self).wf(),
            final(self)@ == stored(old(self)@, uri@, text@),
    {
        let ghost before = self@;
        let mut i: usize = 0;
        while i < self.docs.len()
            invariant
                i <= self.docs@.len(),
                before == self@,
                self.wf(),
                before == old(self)@,
                encode_utf8(text@).len() < MAX_INPUT,
                stored_at(before, uri@, text@, i as int) == stored(before, uri@, text@),
            decreases self.docs@.len() - i,
        {
            assert(before[i as int] == (self.docs@[i as int].0@, self.docs@[i as int].1@));
            if same_text(self.docs[i].0.as_str(), uri) {
                self.docs.set(i, (uri.to_owned(), text.to_owned()));
                assert(self@ =~= before.update(i as int, (uri@, text@)));
                return;
            }
            i += 1;
        }
        self.docs.push((uri.to_owned(), text.to_owned()));
        assert(self@ =~= before.push((uri@, text@)));
    }

    fn did_open(&mut self, params: &Json) -> (r: Vec<Outgoing>)
        requires
            old(self).wf(),
            small_texts(params@),
        ensures
            final(self).wf(),
            final(self)@ == stored(
                old(self)@,
                uri_of(params@),
                params@.member("textDocument"@).member("text"@).text(),
            ),
            outgoing_views(r@) == published(final(self)@, uri_of(params@)),
    {
        let (uri, text) = match params.get("textDocument") {
            Some(doc) => (doc.text_of("uri"), doc.text_of("text")),
            None => ("", ""),
        };
        proof {
            crate::text::lemma_text_whole(""@);
        }
        self.store(uri, text);
        self.publish_diagnostics(uri)
    }

    fn did_change(&mut self, params: &Json) -> (r: Vec<Outgoing>)
        requires
            old(self).wf(),
            small_texts(params@),
        ensures
            final(self).wf(),
            final(self)@ == match changed_text(params@) {
                Some(text) => stored(old(self)@, uri_of(params@), text),
                None => old(self)@,
            },
            outgoing_views(r@) == published(final(self)@, uri_of(params@)),
    {
        let uri = document_uri(params);
        // Full sync: take the last contentChange's full text.
        if let Some(changes) = params.get("contentChanges") {
            if let Some(items) = changes.as_array() {
                let n: usize = items.len();
                if n > 0 {
                    assert(crate::json::json_values(items@).last() == items@[n - 1]@);
                    if let Some(j) = items[n - 1].get("text") {
                        if let Some(text) = j.as_str() {
                            self.store(uri, text);
                        }
                    }
                }
            }
        }
        self.publish_diagnostics(uri)
    }

    fn publish_diagnostics(&self, uri: &str) -> (r: Vec<Outgoing>)
        requires
            self.wf(),
        ensures
            outgoing_views(r@) == published(self@, uri@),
    {
        proof {
            reveal_strlit("");
            assert(""@ =~= Seq::<char>::empty());
        }
        let text = match self.find(uri) {
            Some(t) => t,
            None => "",
        };
        let mut found: Vec<Json> = Vec::new();
        assert(crate::json::json_values(found@) =~= Seq::<JsonView>::empty());
        if let Err(e) = from_str_node(text) {
            found.push(diagnostic_json(&e));
            assert(crate::json::json_values(found@) =~= seq![diagnostic(e@)]);
        }
        let params = Json::object().with("diagnostics", Json::array(found)).with(
            "uri",
            Json::text(uri),
        );
        let mut out: Vec<Outgoing> = Vec::new();
        out.push(
            Outgoing::Notification {
                method: "textDocument/publishDiagnostics".to_owned(),
                params,
            },
        );
        assert(outgoing_views(out@) =~= published(self@, uri@));
        out
    }

    fn format(&self, params: &Json) -> (r: Json)
        requires
            self.wf(),
        ensures
            r@ == edits(self@, uri_of(params@)),
    {
        let uri = document_uri(params);
        let mut found: Vec<Json> = Vec::new();
        assert(crate::json::json_values(found@) =~= Seq::<JsonView>::empty());
        if let Some(text) = self.find(uri) {
            let formatted = Document::parse(text).reformatted();
            let end_line: u64 = count_line_feeds(text) + 1;
            let edit = Json::object().with("newText", Json::text(formatted.as_str())).with(
                "range",
                range_json(position_json(0, 0), position_json(end_line, 0)),
            );
            let ghost value = edit@;
            found.push(edit);
            assert(crate::json::json_values(found@) =~= seq![value]);
        }
        Json::array(found)
    }
}

impl Default for Server {
    fn default() -> (r: Self)
        ensures
            r.wf(),
            r@ == Seq::<(Seq<char>, Seq<char>)>::empty(),
    {
        Server::new()
    }
}

/// The names of the methods that change documents differ from those that are
/// answered first.
proof fn lemma_methods()
    ensures
        "textDocument/didOpen"@ != "initialize"@,
        "textDocument/didOpen"@ != "initialized"@,
        "textDocument/didOpen"@ != "exit"@,
        "textDocument/didOpen"@ != "shutdown"@,
        "textDocument/didChange"@ != "initialize"@,
        "textDocument/didChange"@ != "initialized"@,
        "textDocument/didChange"@ != "exit"@,
        "textDocument/didChange"@ != "shutdown"@,
        "textDocument/didOpen"@ != "textDocument/didChange"@,
{
    reveal_strlit("textDocument/didOpen");
    reveal_strlit("textDocument/didChange");
    reveal_strlit("initialize");
    reveal_strlit("initialized");
    reveal_strlit("exit");
    reveal_strlit("shutdown");
    assert("textDocument/didOpen"@.len() == 20);
    assert("textDocument/didChange"@.len() == 22);
    assert("initialize"@.len() == 10);
    assert("initialized"@.len() == 11);
    assert("exit"@.len() == 4);
    assert("shutdown"@.len() == 8);
}

/// No message.
fn none() -> (r: Vec<Outgoing>)
    ensures
        outgoing_views(r@) == Seq::<OutgoingView>::empty(),
{
    let r: Vec<Outgoing> = Vec::new();
    assert(outgoing_views(r@) =~= Seq::<OutgoingView>::empty());
    r
}

/// One response.
fn respond(id: Option<Json>, result: Json) -> (r: Vec<Outgoing>)
    ensures
        outgoing_views(r@) == answer(crate::json::optional(id), result@),
{
    let ghost views = answer(crate::json::optional(id), result@);
    let id = match id {
        Some(i) => i,
        None => Json::Null,
    };
    let mut out: Vec<Outgoing> = Vec::new();
    out.push(Outgoing::Response { id, result });
    assert(outgoing_views(out@) =~= views);
    out
}

/// The URI that a message is about.
fn document_uri(params: &Json) -> (r: &str)
    ensures
        r@ == uri_of(params@),
{
    match params.get("textDocument") {
        Some(doc) => doc.text_of("uri"),
        None => "",
    }
}

/// What the server can do.
fn capabilities_json() -> (r: Json)
    ensures
        r@ == capabilities(),
{
    let inner = Json::object().with("documentFormattingProvider", Json::Bool(true)).with(
        "textDocumentSync",
        Json::number(1),
    );
    Json::object().with("capabilities", inner)
}

/// A position.
fn position_json(line: u64, character: u64) -> (r: Json)
    ensures
        r@ == position(line as nat, character as nat),
{
    Json::object().with("character", Json::number(character)).with("line", Json::number(line))
}

/// A range.
fn range_json(start: Json, end: Json) -> (r: Json)
    ensures
        r@ == range(start@, end@),
{
    Json::object().with("end", end).with("start", start)
}

/// The diagnostic for an error.
fn diagnostic_json(e: &Error) -> (r: Json)
    ensures
        r@ == diagnostic(e@),
{
    let (line, character): (u64, u64) = match &e.span {
        Some(s) => (
            s.start.line.saturating_sub(1) as u64,
            s.start.column.saturating_sub(1) as u64,
        ),
        None => (0, 0),
    };
    Json::object().with("message", Json::text(e.to_string().as_str())).with(
        "range",
        range_json(position_json(line, character), position_json(line, character + 1)),
    ).with("severity", Json::number(1)).with("source", Json::text("skald"))
}

/// The number of line feeds.
fn count_line_feeds(text: &str) -> (r: u64)
    requires
        encode_utf8(text@).len() < MAX_INPUT,
    ensures
        r == line_feeds(text@),
        r < MAX_INPUT,
{
    let bytes: usize = text.as_bytes().len();
    let chars: usize = text.unicode_len();
    proof {
        lemma_chars_fit(text@);
    }
    let mut n: u64 = 0;
    for c in it: text.chars()
        invariant
            it.seq() == text@,
            text@.len() <= bytes,
            bytes < MAX_INPUT,
            n == line_feeds(text@.subrange(0, it.index())),
            n <= it.index(),
    {
        assert(text@.subrange(0, it.index() + 1).drop_last() =~= text@.subrange(0, it.index()));
        if c == '\n' {
            n += 1;
        }
    }
    assert(text@.subrange(0, text@.len() as int) =~= text@);
    n
}

/// A text has at least as many bytes as characters.
proof fn lemma_chars_fit(s: Seq<char>)
    ensures
        s.len() <= encode_utf8(s).len(),
    decreases s.len(),
{
    if s.len() > 0 {
        lemma_chars_fit(s.drop_first());
    }
}

/// Frames a JSON body with the LSP `Content-Length` header.
#[must_use]
pub fn frame(body: &str) -> (r: String)
    ensures
        r@ == "Content-Length: "@ + crate::text::decimal(encode_utf8(body@).len()) + "\r\n\r\n"@
            + body@,
{
    let mut s = "Content-Length: ".to_owned();
    push_decimal(&mut s, body.as_bytes().len() as u64);
    s.append("\r\n\r\n");
    s.append(body);
    s
}

/// A message as JSON-RPC.
pub open spec fn rpc(m: OutgoingView) -> JsonView {
    match m {
        OutgoingView::Response { id, result } => JsonView::object().with("id"@, id).with(
            "jsonrpc"@,
            JsonView::Text("2.0"@),
        ).with("result"@, result),
        OutgoingView::Notification { method, params } => JsonView::object().with(
            "jsonrpc"@,
            JsonView::Text("2.0"@),
        ).with("method"@, JsonView::Text(method)).with("params"@, params),
    }
}

/// A message as JSON-RPC.
#[must_use]
pub fn to_rpc(message: Outgoing) -> (r: Json)
    ensures
        r@ == rpc(message@),
{
    match message {
        Outgoing::Response { id, result } => Json::object().with("id", id).with(
            "jsonrpc",
            Json::text("2.0"),
        ).with("result", result),
        Outgoing::Notification { method, params } => Json::object().with(
            "jsonrpc",
            Json::text("2.0"),
        ).with("method", Json::text(method.as_str())).with("params", params),
    }
}

/// The characters with the Unicode property `White_Space`.
pub open spec fn white(c: char) -> bool {
    let x = c as u32;
    (0x09 <= x <= 0x0d) || x == 0x20 || x == 0x85 || x == 0xa0 || x == 0x1680 || (0x2000 <= x
        <= 0x200a) || x == 0x2028 || x == 0x2029 || x == 0x202f || x == 0x205f || x == 0x3000
}

/// A text without the whitespace at its start.
pub open spec fn trim_start(s: Seq<char>) -> Seq<char>
    decreases s.len(),
{
    if s.len() > 0 && white(s[0]) {
        trim_start(s.drop_first())
    } else {
        s
    }
}

/// A text without the whitespace at its end.
pub open spec fn trim_end(s: Seq<char>) -> Seq<char>
    decreases s.len(),
{
    if s.len() > 0 && white(s.last()) {
        trim_end(s.drop_last())
    } else {
        s
    }
}

/// The lines of a header, which CRLF separates, the first of them continuing `line`.
pub open spec fn header_lines(s: Seq<char>, line: Seq<char>) -> Seq<Seq<char>>
    decreases s.len(),
{
    if s.len() == 0 {
        seq![line]
    } else if s.len() > 1 && s[0] == '\r' && s[1] == '\n' {
        seq![line] + header_lines(s.skip(2), seq![])
    } else {
        header_lines(s.drop_first(), line.push(s[0]))
    }
}

/// The length that a header line announces, if it is the one that does; a value that
/// is no number counts as zero.
pub open spec fn announced(line: Seq<char>) -> Option<nat> {
    let name = "Content-Length:"@;
    if name.is_prefix_of(line) {
        match crate::text::usize_value(
            trim_end(trim_start(line.skip(name.len() as int))),
        ) {
            Some(n) => Some(n),
            None => Some(0),
        }
    } else {
        None
    }
}

/// The length that the last of the first `k` header lines that does so announces; zero
/// if none does.
pub open spec fn length_in(lines: Seq<Seq<char>>, k: nat) -> nat
    decreases k,
{
    if 0 < k <= lines.len() {
        match announced(lines[k - 1]) {
            Some(n) => n,
            None => length_in(lines, (k - 1) as nat),
        }
    } else {
        0
    }
}

/// Whether a character is whitespace.
fn is_white(c: char) -> (r: bool)
    ensures
        r == white(c),
{
    let x: u32 = c as u32;
    (0x09 <= x && x <= 0x0d) || x == 0x20 || x == 0x85 || x == 0xa0 || x == 0x1680 || (0x2000 <= x
        && x <= 0x200a) || x == 0x2028 || x == 0x2029 || x == 0x202f || x == 0x205f || x == 0x3000
}

/// The length that a header line announces.
fn announced_length(line: &Vec<char>) -> (r: Option<usize>)
    ensures
        match announced(line@) {
            Some(n) => r == Some(n as usize) && n <= usize::MAX,
            None => r is None,
        },
{
    let mut name: Vec<char> = Vec::new();
    crate::text::push_text(&mut name, "Content-Length:");
    let ghost want = "Content-Length:"@;
    assert(name@ =~= want);
    let n: usize = name.len();
    if line.len() < n {
        return None;
    }
    let mut i: usize = 0;
    while i < n
        invariant
            i <= n,
            n == name@.len(),
            name@ == want,
            want == "Content-Length:"@,
            n <= line@.len(),
            forall|j: int| 0 <= j < i ==> line@[j] == want[j],
        decreases n - i,
    {
        if line[i] != name[i] {
            assert(line@.subrange(0, n as int)[i as int] != want[i as int]);
            assert(!want.is_prefix_of(line@));
            return None;
        }
        i += 1;
    }
    assert(want.is_prefix_of(line@)) by {
        assert(want =~= line@.subrange(0, want.len() as int));
    }
    let mut lo: usize = n;
    let mut hi: usize = line.len();
    let ghost rest = line@.skip(n as int);
    assert(rest =~= line@.subrange(lo as int, hi as int));
    while lo < hi && is_white(line[lo])
        invariant
            lo <= hi,
            hi == line@.len(),
            trim_start(line@.subrange(lo as int, hi as int)) == trim_start(rest),
        decreases hi - lo,
    {
        assert(line@.subrange(lo as int, hi as int).drop_first() =~= line@.subrange(
            lo + 1,
            hi as int,
        ));
        lo += 1;
    }
    let ghost started = trim_start(rest);
    assert(started == line@.subrange(lo as int, hi as int));
    while lo < hi && is_white(line[hi - 1])
        invariant
            lo <= hi <= line@.len(),
            trim_end(line@.subrange(lo as int, hi as int)) == trim_end(started),
        decreases hi - lo,
    {
        assert(line@.subrange(lo as int, hi as int).drop_last() =~= line@.subrange(
            lo as int,
            hi - 1,
        ));
        hi -= 1;
    }
    let mut value = String::new();
    let mut k: usize = lo;
    assert(value@ =~= line@.subrange(lo as int, lo as int));
    while k < hi
        invariant
            lo <= k <= hi <= line@.len(),
            value@ == line@.subrange(lo as int, k as int),
        decreases hi - k,
    {
        value.push(line[k]);
        k += 1;
        assert(value@ =~= line@.subrange(lo as int, k as int));
    }
    match crate::text::parse_usize(value.as_str()) {
        Some(v) => Some(v),
        None => Some(0),
    }
}

/// The length of the body that a header announces: that of its last `Content-Length`
/// line; zero where there is none, or where its value is no number.
#[must_use]
pub fn content_length(header: &str) -> (r: usize)
    ensures
        r == length_in(
            header_lines(header@, seq![]),
            header_lines(header@, seq![]).len(),
        ),
{
    let mut chars: Vec<char> = Vec::new();
    crate::text::push_text(&mut chars, header);
    assert(chars@ =~= header@);
    let ghost lines = header_lines(header@, seq![]);
    let ghost mut done: Seq<Seq<char>> = seq![];
    let mut line: Vec<char> = Vec::new();
    let mut length: usize = 0;
    let mut i: usize = 0;
    let n: usize = chars.len();
    assert(header@.skip(0) =~= header@);
    assert(line@ =~= Seq::<char>::empty());
    assert(done + lines =~= lines);
    while i < n
        invariant
            i <= n,
            n == chars@.len(),
            chars@ == header@,
            lines == header_lines(header@, seq![]),
            lines == done + header_lines(header@.skip(i as int), line@),
            length == length_in(done, done.len()),
        decreases n - i,
    {
        let ghost rest = header@.skip(i as int);
        assert(rest[0] == chars@[i as int]);
        if i + 1 < n && chars[i] == '\r' && chars[i + 1] == '\n' {
            assert(rest[1] == chars@[i + 1]);
            assert(rest.skip(2) =~= header@.skip(i + 2));
            let ghost before = done;
            let ghost ended = line@;
            if let Some(v) = announced_length(&line) {
                length = v;
            }
            line = Vec::new();
            i += 2;
            proof {
                done = before.push(ended);
                lemma_length_push(before, ended);
                assert(line@ =~= Seq::<char>::empty());
                assert(lines =~= done + header_lines(header@.skip(i as int), line@));
            }
        } else {
            assert(rest.drop_first() =~= header@.skip(i + 1));
            line.push(chars[i]);
            i += 1;
        }
    }
    let ghost before = done;
    let ghost ended = line@;
    if let Some(v) = announced_length(&line) {
        length = v;
    }
    proof {
        assert(header@.skip(n as int).len() == 0);
        lemma_length_push(before, ended);
        assert(lines =~= before.push(ended));
    }
    length
}

/// One more line decides the length if it announces one.
proof fn lemma_length_push(lines: Seq<Seq<char>>, line: Seq<char>)
    ensures
        length_in(lines.push(line), lines.push(line).len()) == match announced(line) {
            Some(n) => n,
            None => length_in(lines, lines.len()),
        },
{
    lemma_length_prefix(lines, line, lines.len());
}

proof fn lemma_length_prefix(lines: Seq<Seq<char>>, line: Seq<char>, k: nat)
    requires
        k <= lines.len(),
    ensures
        length_in(lines.push(line), k) == length_in(lines, k),
    decreases k,
{
    if k > 0 {
        lemma_length_prefix(lines, line, (k - 1) as nat);
    }
}

/// Characters other than line breaks just continue the line.
proof fn lemma_header_text(a: Seq<char>, rest: Seq<char>, line: Seq<char>)
    requires
        forall|i: int| 0 <= i < a.len() ==> #[trigger] a[i] != '\r',
    ensures
        header_lines(a + rest, line) == header_lines(rest, line + a),
    decreases a.len(),
{
    if a.len() == 0 {
        assert(a + rest =~= rest);
        assert(line + a =~= line);
    } else {
        assert((a + rest).drop_first() =~= a.drop_first() + rest);
        assert((a + rest)[0] == a[0]);
        assert forall|i: int| 0 <= i < a.drop_first().len() implies #[trigger] a.drop_first()[i]
            != '\r' by {
            assert(a[i + 1] != '\r');
        }
        lemma_header_text(a.drop_first(), rest, line.push(a[0]));
        assert(line.push(a[0]) + a.drop_first() =~= line + a);
    }
}

/// The header that [`frame`] writes announces the length that it was written for.
pub proof fn law_frame_announces_its_length(n: nat)
    requires
        n <= usize::MAX,
    ensures
        ({
            let header = "Content-Length: "@ + crate::text::decimal(n) + "\r\n\r\n"@;
            let lines = header_lines(header, seq![]);
            length_in(lines, lines.len()) == n
        }),
{
    reveal_strlit("Content-Length: ");
    reveal_strlit("Content-Length:");
    reveal_strlit("\r\n\r\n");
    let name = "Content-Length:"@;
    let start = "Content-Length: "@;
    let digits = crate::text::decimal(n);
    let end = "\r\n\r\n"@;
    crate::schema::number::lemma_decimal_digits(n);
    let a = start + digits;
    assert forall|i: int| 0 <= i < a.len() implies #[trigger] a[i] != '\r' by {
        if i >= start.len() {
            assert(crate::text::is_digit_char(digits[i - start.len()]));
        }
    }
    lemma_header_text(a, end, seq![]);
    assert(Seq::<char>::empty() + a =~= a);
    let none = Seq::<char>::empty();
    reveal_with_fuel(header_lines, 4);
    assert(end.skip(2).skip(2) =~= none);
    assert(end.skip(2)[0] == '\r' && end.skip(2)[1] == '\n');
    let lines = header_lines(start + digits + end, seq![]);
    assert(lines =~= seq![a, none, none]);
    reveal_with_fuel(length_in, 4);
    assert(!name.is_prefix_of(none));
    assert(name.is_prefix_of(a)) by {
        assert(name =~= a.subrange(0, name.len() as int));
    }
    let rest = a.skip(name.len() as int);
    assert(rest =~= seq![' '] + digits);
    reveal_with_fuel(trim_start, 3);
    assert(rest.drop_first() =~= digits);
    assert(crate::text::is_digit_char(digits[0]));
    assert(crate::text::is_digit_char(digits[digits.len() - 1]));
    assert(trim_start(rest) == digits);
    assert(trim_end(digits) == digits);
    assert(digits[0] != '+');
}

/// Reads the body of a message that was received; nothing where it is no JSON.
#[must_use]
pub fn read_body(body: &[u8]) -> (r: Option<Message>)
    ensures
        match json_parsed_bytes(body@) {
            Some(j) => r matches Some(m) && m@ == message_of(j),
            None => r is None,
        },
{
    match parse_json_bytes(body) {
        Some(j) => Some(j.message()),
        None => None,
    }
}

} // verus!
