//! Minimal YAML MCP server core: transport-agnostic dispatch + newline framing.
//!
//! Implements the [Model Context Protocol](https://modelcontextprotocol.io/)
//! JSON-RPC 2.0 over newline-delimited transport (one JSON object per line).
use crate::composer::from_str_node;
use crate::cst::document::{with_top_entry, with_value, Document, SetError};
use crate::error::ErrorView;
use crate::json::{json_parsed, message_of, parse_json, Json, JsonView, Message};
use crate::schema::model::Schema;
use crate::schema::validate::{
    bound_texts, scalar_texts, validate, Number, NumberView, SchemaError, SchemaErrorView,
};
use crate::scanner::cursor::MAX_INPUT;
use crate::text::{push_decimal, same_text};
use vstd::prelude::*;
use vstd::string::*;
use vstd::utf8::encode_utf8;

verus! {

// ─── Protocol types ─────────────────────────────────────────────────

/// An outgoing MCP message produced by handling an incoming request.
#[derive(Debug, Clone, PartialEq)]
pub enum Outgoing {
    /// A successful JSON-RPC 2.0 response.
    Response {
        /// The request id this responds to.
        id: Json,
        /// The result payload.
        result: Json,
    },
    /// A JSON-RPC 2.0 error response.
    Error {
        /// The request id this error responds to.
        id: Json,
        /// The error code (JSON-RPC standard: -32600 invalid, -32601 method not found, etc.).
        code: i64,
        /// Human-readable error message.
        message: String,
    },
}

/// The value of an [`Outgoing`].
pub enum OutgoingView {
    Response { id: JsonView, result: JsonView },
    Error { id: JsonView, code: int, message: Seq<char> },
}

impl View for Outgoing {
    type V = OutgoingView;

    open spec fn view(&self) -> OutgoingView {
        match self {
            Outgoing::Response { id, result } => OutgoingView::Response {
                id: id@,
                result: result@,
            },
            Outgoing::Error { id, code, message } => OutgoingView::Error {
                id: id@,
                code: *code as int,
                message: message@,
            },
        }
    }
}

/// The values of some messages.
pub open spec fn outgoing_views(s: Seq<Outgoing>) -> Seq<OutgoingView> {
    Seq::new(s.len(), |i: int| s[i]@)
}

// ─── What is answered ───────────────────────────────────────────────

/// The id of a response: null for a notification.
pub open spec fn reply_id(id: Option<JsonView>) -> JsonView {
    match id {
        Some(i) => i,
        None => JsonView::Null,
    }
}

/// A tool's text in the MCP content envelope.
pub open spec fn content(text: Seq<char>, is_error: bool) -> JsonView {
    JsonView::object().with(
        "content"@,
        JsonView::Array(
            seq![
                JsonView::object().with("text"@, JsonView::Text(text)).with(
                    "type"@,
                    JsonView::Text("text"@),
                ),
            ],
        ),
    ).with("isError"@, JsonView::Bool(is_error))
}

/// A number as JSON.
pub open spec fn json_number(n: nat) -> JsonView {
    JsonView::Number(crate::text::decimal(n))
}

/// The answer of `yaml_parse`.
pub open spec fn parse_answer(text: Seq<char>) -> JsonView {
    match crate::composer::first_document(text) {
        Ok(_) => content("valid"@, false),
        Err(e) => content(located(e), true),
    }
}

/// An error with its line and column in front.
pub open spec fn located(e: ErrorView) -> Seq<char> {
    match e.span {
        Some(s) => crate::text::decimal(s.start.line as nat) + ":"@ + crate::text::decimal(
            s.start.column as nat,
        ) + " "@ + e.message(),
        None => e.message(),
    }
}

/// A validation failure as JSON.
pub open spec fn failure_json(e: SchemaErrorView) -> JsonView {
    JsonView::object().with("column"@, json_number(e.span.start.column as nat)).with(
        "line"@,
        json_number(e.span.start.line as nat),
    ).with("message"@, JsonView::Text(e.message)).with("path"@, JsonView::Text(e.path))
}

/// Validation failures as JSON.
pub open spec fn failures_json(s: Seq<SchemaErrorView>) -> Seq<JsonView> {
    Seq::new(s.len(), |i: int| failure_json(s[i]))
}

/// The answer of `yaml_validate`: the failures as a compact JSON array.
pub open spec fn validate_answer(
    text: Seq<char>,
    schema: Seq<char>,
    numbers: Seq<NumberView>,
) -> JsonView {
    match crate::composer::first_document(schema) {
        Err(e) => content("schema parse error: "@ + e.message(), true),
        Ok(s) => match crate::composer::first_document(text) {
            Err(e) => content("parse error: "@ + e.message(), true),
            Ok(n) => content(
                crate::json::compact(
                    JsonView::Array(
                        failures_json(
                            crate::schema::validate::violations(
                                n,
                                crate::schema::model::schema_of(s),
                                ""@,
                                numbers,
                            ),
                        ),
                    ),
                ),
                false,
            ),
        },
    }
}

/// The answer of `yaml_format`.
pub open spec fn format_answer(text: Seq<char>) -> JsonView {
    match crate::composer::first_document(text) {
        Ok(_) => content(crate::cst::format::reformat(text), false),
        Err(e) => content("parse error: "@ + e.message(), true),
    }
}

/// The text that `yaml_edit` makes of a text: with a new value at the path, or with a
/// new top-level key where a path without dots is absent.
pub open spec fn edited_text(text: Seq<char>, path: Seq<char>, value: Seq<char>) -> core::result::Result<
    Seq<char>,
    SetError,
> {
    match with_value(text, path, value) {
        Some(t) => Ok(t),
        None => if path.contains('.') {
            Err(SetError::PathNotFound)
        } else {
            match with_top_entry(text, path, value) {
                Some(t) => Ok(t),
                None => Err(SetError::NotAMapping),
            }
        },
    }
}

/// The answer of `yaml_edit`: the value at the path is replaced; a path without dots
/// that is absent becomes a top-level key.
pub open spec fn edit_answer(text: Seq<char>, path: Seq<char>, value: Seq<char>) -> JsonView {
    match edited_text(text, path, value) {
        Ok(t) => content(t, false),
        Err(e) => content(e.message(), true),
    }
}

/// The answer of a `tools/call` request.
pub open spec fn call_answer(params: JsonView, numbers: Seq<NumberView>) -> JsonView {
    let name = params.member("name"@).text();
    let args = params.member("arguments"@);
    let text = args.member("text"@).text();
    if name == "yaml_parse"@ {
        parse_answer(text)
    } else if name == "yaml_validate"@ {
        validate_answer(text, args.member("schema"@).text(), numbers)
    } else if name == "yaml_format"@ {
        format_answer(text)
    } else if name == "yaml_edit"@ {
        edit_answer(text, args.member("path"@).text(), args.member("value"@).text())
    } else {
        content("unknown tool: "@ + name, true)
    }
}

/// A string property of a tool's input.
pub open spec fn input_property(description: Seq<char>) -> JsonView {
    JsonView::object().with("description"@, JsonView::Text(description)).with(
        "type"@,
        JsonView::Text("string"@),
    )
}

/// The first `k` properties of a tool's input.
pub open spec fn input_properties(fields: Seq<(Seq<char>, Seq<char>)>, k: nat) -> JsonView
    decreases k,
{
    if 0 < k <= fields.len() {
        input_properties(fields, (k - 1) as nat).with(
            fields[k - 1].0,
            input_property(fields[k - 1].1),
        )
    } else {
        JsonView::object()
    }
}

/// A tool whose input has the given string properties, of which the named ones are
/// required.
pub open spec fn tool(
    name: Seq<char>,
    description: Seq<char>,
    fields: Seq<(Seq<char>, Seq<char>)>,
    required: Seq<Seq<char>>,
) -> JsonView {
    JsonView::object().with("description"@, JsonView::Text(description)).with(
        "inputSchema"@,
        JsonView::object().with("properties"@, input_properties(fields, fields.len())).with(
            "required"@,
            JsonView::Array(Seq::new(required.len(), |i: int| JsonView::Text(required[i]))),
        ).with("type"@, JsonView::Text("object"@)),
    ).with("name"@, JsonView::Text(name))
}

/// The tools of the server.
pub open spec fn tools() -> Seq<JsonView> {
    seq![
        tool(
            "yaml_parse"@,
            "Parse YAML and report whether it is valid; on failure returns the error with line/column."@,
            seq![("text"@, "YAML source to parse."@)],
            seq!["text"@],
        ),
        tool(
            "yaml_validate"@,
            "Validate YAML against a JSON-Schema (YAML/JSON source); returns span-anchored diagnostics."@,
            seq![
                ("schema"@, "JSON Schema (as YAML or JSON string)."@),
                ("text"@, "YAML source to validate."@),
            ],
            seq!["text"@, "schema"@],
        ),
        tool(
            "yaml_format"@,
            "Format YAML safely (trailing-whitespace trim + final newline), preserving comments."@,
            seq![("text"@, "YAML source to format."@)],
            seq!["text"@],
        ),
        tool(
            "yaml_edit"@,
            "Set a value at a dotted path (comment-preserving); inserts a top-level key if the path is absent."@,
            seq![
                ("path"@, "Dotted key path, e.g. `settings.debug`."@),
                ("text"@, "YAML source to edit."@),
                ("value"@, "New scalar value to write."@),
            ],
            seq!["text"@, "path"@, "value"@],
        ),
    ]
}

/// What the server is.
pub open spec fn server_info() -> JsonView {
    JsonView::object().with(
        "capabilities"@,
        JsonView::object().with("tools"@, JsonView::object()),
    ).with("protocolVersion"@, JsonView::Text("2024-11-05"@)).with(
        "serverInfo"@,
        JsonView::object().with("name"@, JsonView::Text("skald-mcp"@)).with(
            "version"@,
            JsonView::Text("0.1.0"@),
        ),
    )
}

/// One successful response.
pub open spec fn answer(id: Option<JsonView>, result: JsonView) -> Seq<OutgoingView> {
    seq![OutgoingView::Response { id: reply_id(id), result }]
}

/// What a message is answered.
pub open spec fn replies(
    method: Seq<char>,
    id: Option<JsonView>,
    params: JsonView,
    numbers: Seq<NumberView>,
) -> Seq<OutgoingView> {
    if method == "initialize"@ {
        answer(id, server_info())
    } else if method == "notifications/initialized"@ {
        seq![]
    } else if method == "ping"@ {
        answer(id, JsonView::object())
    } else if method == "tools/list"@ {
        answer(id, JsonView::object().with("tools"@, JsonView::Array(tools())))
    } else if method == "tools/call"@ {
        answer(id, call_answer(params, numbers))
    } else if id is Some {
        seq![
            OutgoingView::Error {
                id: reply_id(id),
                code: -32601,
                message: "method not found: "@ + method,
            },
        ]
    } else {
        seq![]
    }
}

/// A request is answered by exactly one message, under its id.
pub proof fn law_request_is_answered(
    method: Seq<char>,
    id: JsonView,
    params: JsonView,
    numbers: Seq<NumberView>,
)
    requires
        method != "notifications/initialized"@,
    ensures
        replies(method, Some(id), params, numbers).len() == 1,
        match replies(method, Some(id), params, numbers)[0] {
            OutgoingView::Response { id: i, .. } => i == id,
            OutgoingView::Error { id: i, .. } => i == id,
        },
{
}

/// A text, and what `yaml_edit` makes of it, are short enough to be scanned.
pub open spec fn small_edit(text: Seq<char>, path: Seq<char>, value: Seq<char>) -> bool {
    &&& encode_utf8(text).len() <= MAX_INPUT
    &&& edited_text(text, path, value) matches Ok(t) ==> encode_utf8(t).len() <= MAX_INPUT
}

/// The texts in a `tools/call` request are short enough to be scanned, and to be
/// formatted or edited where that is asked for.
pub open spec fn small_texts(params: JsonView) -> bool {
    let name = params.member("name"@).text();
    let args = params.member("arguments"@);
    let text = args.member("text"@).text();
    &&& encode_utf8(text).len() <= MAX_INPUT
    &&& encode_utf8(args.member("schema"@).text()).len() <= MAX_INPUT
    &&& name == "yaml_format"@ ==> encode_utf8(text).len() < MAX_INPUT
    &&& name == "yaml_edit"@ ==> small_edit(
        text,
        args.member("path"@).text(),
        args.member("value"@).text(),
    )
}

/// The texts whose numbers a message may need: for `yaml_validate`, the scalars of the
/// text and the bounds of the schema.
pub open spec fn needed(method: Seq<char>, params: JsonView) -> Seq<Seq<char>> {
    let args = params.member("arguments"@);
    if method == "tools/call"@ && params.member("name"@).text() == "yaml_validate"@ {
        match (
            crate::composer::first_document(args.member("schema"@).text()),
            crate::composer::first_document(args.member("text"@).text()),
        ) {
            (Ok(s), Ok(n)) => crate::schema::validate::texts_in(n)
                + crate::schema::validate::bounds_in(crate::schema::model::schema_of(s)),
            _ => seq![],
        }
    } else {
        seq![]
    }
}

// ─── Server ─────────────────────────────────────────────────────────

/// MCP server. Each request is handled purely; the server holds no
/// cross-request state in this subset of the protocol.
#[derive(Debug, Default)]
pub struct Server;

impl Server {
    /// Creates a new MCP server.
    #[must_use]
    pub fn new() -> Self {
        Server
    }

    /// Handles one incoming JSON-RPC request and returns the outgoing messages.
    ///
    /// `id` is `Some` for requests (which expect a response), `None` for
    /// notifications (which do not). `numbers` tells what the texts that
    /// [`texts_needed`] lists denote as numbers.
    pub fn handle(&mut self, method: &str, id: Option<Json>, params: Json, numbers: &Vec<Number>) -> (r:
        Vec<Outgoing>)
        requires
            small_texts(params@),
        ensures
            outgoing_views(r@) == replies(
                method@,
                crate::json::optional(id),
                params@,
                crate::schema::validate::number_views(numbers@),
            ),
    {
        let ghost views = replies(
            method@,
            crate::json::optional(id),
            params@,
            crate::schema::validate::number_views(numbers@),
        );
        let mut out: Vec<Outgoing> = Vec::new();
        if same_text(method, "initialize") {
            out.push(response(id, server_info_json()));
        } else if same_text(method, "notifications/initialized") {
        } else if same_text(method, "ping") {
            out.push(response(id, Json::object()));
        } else if same_text(method, "tools/list") {
            let list = Json::object().with("tools", Json::array(tools_list()));
            out.push(response(id, list));
        } else if same_text(method, "tools/call") {
            out.push(response(id, self.tools_call(&params, numbers)));
        } else if id.is_some() {
            let mut message = "method not found: ".to_owned();
            message.append(method);
            out.push(error_response(id, -32601, message));
        }
        assert(outgoing_views(out@) =~= views);
        out
    }

    /// Dispatches a `tools/call` request. Returns the MCP content envelope.
    fn tools_call(&self, params: &Json, numbers: &Vec<Number>) -> (r: Json)
        requires
            small_texts(params@),
        ensures
            r@ == call_answer(params@, crate::schema::validate::number_views(numbers@)),
    {
        let null = Json::Null;
        let name = params.text_of("name");
        let args = match params.get("arguments") {
            Some(a) => a,
            None => &null,
        };
        if same_text(name, "yaml_parse") {
            tool_parse(args)
        } else if same_text(name, "yaml_validate") {
            tool_validate(args, numbers)
        } else if same_text(name, "yaml_format") {
            tool_format(args)
        } else if same_text(name, "yaml_edit") {
            tool_edit(args)
        } else {
            let mut message = "unknown tool: ".to_owned();
            message.append(name);
            content_json(message.as_str(), true)
        }
    }
}

/// Lists the texts whose numbers a message may need.
pub fn texts_needed(method: &str, params: &Json) -> (r: Vec<String>)
    requires
        small_texts(params@),
    ensures
        crate::schema::model::string_views(r@) == needed(method@, params@),
{
    let mut out: Vec<String> = Vec::new();
    assert(crate::schema::model::string_views(out@) =~= Seq::<Seq<char>>::empty());
    if !same_text(method, "tools/call") || !same_text(params.text_of("name"), "yaml_validate") {
        return out;
    }
    let null = Json::Null;
    let args = match params.get("arguments") {
        Some(a) => a,
        None => &null,
    };
    let schema = from_str_node(args.text_of("schema"));
    let data = from_str_node(args.text_of("text"));
    if let Ok(s) = &schema {
        if let Ok(n) = &data {
            scalar_texts(n, &mut out);
            bound_texts(&Schema::from_node(s), &mut out);
            assert(crate::schema::model::string_views(out@) =~= needed(method@, params@));
        }
    }
    out
}

/// What the server is.
fn server_info_json() -> (r: Json)
    ensures
        r@ == server_info(),
{
    let capabilities = Json::object().with("tools", Json::object());
    let info = Json::object().with("name", Json::text("skald-mcp")).with(
        "version",
        Json::text("0.1.0"),
    );
    Json::object().with("capabilities", capabilities).with(
        "protocolVersion",
        Json::text("2024-11-05"),
    ).with("serverInfo", info)
}

// ─── Tool registry ──────────────────────────────────────────────────

/// The names and descriptions of a tool's input.
spec fn field_views(s: Seq<(&'static str, &'static str)>) -> Seq<(Seq<char>, Seq<char>)> {
    Seq::new(s.len(), |i: int| (s[i].0@, s[i].1@))
}

/// The names of a tool's input.
spec fn name_views(s: Seq<&'static str>) -> Seq<Seq<char>> {
    Seq::new(s.len(), |i: int| s[i]@)
}

/// A tool whose input has the given string properties, of which the named ones are
/// required.
fn tool_json(
    name: &'static str,
    description: &'static str,
    fields: Vec<(&'static str, &'static str)>,
    required: Vec<&'static str>,
) -> (r: Json)
    ensures
        r@ == tool(name@, description@, field_views(fields@), name_views(required@)),
{
    let ghost views = field_views(fields@);
    let ghost names = name_views(required@);
    let mut properties = Json::object();
    let mut i: usize = 0;
    while i < fields.len()
        invariant
            i <= fields@.len(),
            views == field_views(fields@),
            properties@ == input_properties(views, i as nat),
        decreases fields@.len() - i,
    {
        assert(views[i as int] == (fields@[i as int].0@, fields@[i as int].1@));
        let property = Json::object().with("description", Json::text(fields[i].1)).with(
            "type",
            Json::text("string"),
        );
        properties = properties.with(fields[i].0, property);
        i += 1;
    }
    let mut list: Vec<Json> = Vec::new();
    let mut j: usize = 0;
    while j < required.len()
        invariant
            j <= required@.len(),
            names == name_views(required@),
            list@.len() == j,
            forall|k: int| 0 <= k < j ==> (#[trigger] list@[k])@ == JsonView::Text(names[k]),
        decreases required@.len() - j,
    {
        list.push(Json::text(required[j]));
        j += 1;
    }
    assert(crate::json::json_values(list@) =~= Seq::new(
        names.len(),
        |i: int| JsonView::Text(names[i]),
    ));
    let schema = Json::object().with("properties", properties).with(
        "required",
        Json::array(list),
    ).with("type", Json::text("object"));
    Json::object().with("description", Json::text(description)).with("inputSchema", schema).with(
        "name",
        Json::text(name),
    )
}

/// Returns the list of tools advertised by this server.
///
/// Each entry is a JSON object with `name`, `description`, and `inputSchema`
/// following the MCP `Tool` schema.
#[must_use]
pub fn tools_list() -> (r: Vec<Json>)
    ensures
        crate::json::json_values(r@) == tools(),
{
    let parse_fields: Vec<(&'static str, &'static str)> = vec![("text", "YAML source to parse.")];
    let validate_fields: Vec<(&'static str, &'static str)> = vec![
        ("schema", "JSON Schema (as YAML or JSON string)."),
        ("text", "YAML source to validate."),
    ];
    let format_fields: Vec<(&'static str, &'static str)> = vec![
        ("text", "YAML source to format."),
    ];
    let edit_fields: Vec<(&'static str, &'static str)> = vec![
        ("path", "Dotted key path, e.g. `settings.debug`."),
        ("text", "YAML source to edit."),
        ("value", "New scalar value to write."),
    ];
    let text_only: Vec<&'static str> = vec!["text"];
    let validate_names: Vec<&'static str> = vec!["text", "schema"];
    let format_names: Vec<&'static str> = vec!["text"];
    let edit_names: Vec<&'static str> = vec!["text", "path", "value"];
    assert(field_views(parse_fields@) =~= seq![("text"@, "YAML source to parse."@)]);
    assert(field_views(validate_fields@) =~= seq![
        ("schema"@, "JSON Schema (as YAML or JSON string)."@),
        ("text"@, "YAML source to validate."@),
    ]);
    assert(field_views(format_fields@) =~= seq![("text"@, "YAML source to format."@)]);
    assert(field_views(edit_fields@) =~= seq![
        ("path"@, "Dotted key path, e.g. `settings.debug`."@),
        ("text"@, "YAML source to edit."@),
        ("value"@, "New scalar value to write."@),
    ]);
    assert(name_views(text_only@) =~= seq!["text"@]);
    assert(name_views(validate_names@) =~= seq!["text"@, "schema"@]);
    assert(name_views(format_names@) =~= seq!["text"@]);
    assert(name_views(edit_names@) =~= seq!["text"@, "path"@, "value"@]);
    let mut out: Vec<Json> = Vec::new();
    out.push(
        tool_json(
            "yaml_parse",
            "Parse YAML and report whether it is valid; on failure returns the error with line/column.",
            parse_fields,
            text_only,
        ),
    );
    out.push(
        tool_json(
            "yaml_validate",
            "Validate YAML against a JSON-Schema (YAML/JSON source); returns span-anchored diagnostics.",
            validate_fields,
            validate_names,
        ),
    );
    out.push(
        tool_json(
            "yaml_format",
            "Format YAML safely (trailing-whitespace trim + final newline), preserving comments.",
            format_fields,
            format_names,
        ),
    );
    out.push(
        tool_json(
            "yaml_edit",
            "Set a value at a dotted path (comment-preserving); inserts a top-level key if the path is absent.",
            edit_fields,
            edit_names,
        ),
    );
    assert(crate::json::json_values(out@) =~= tools());
    out
}

// ─── Framing ────────────────────────────────────────────────────────

/// Frames a JSON body as a single newline-terminated line for MCP transport.
///
/// MCP uses newline-delimited JSON-RPC (one JSON object per `\n`) rather than
/// the `Content-Length` header framing used by LSP.
#[must_use]
pub fn frame(body: &str) -> (r: String)
    ensures
        r@ == body@.push('\n'),
{
    let mut s = body.to_owned();
    s.push('\n');
    s
}

/// A framed value is exactly one line: its only line feed is the last character.
pub proof fn law_frame_is_one_line(j: JsonView, i: int)
    requires
        crate::json::plain_numbers(j),
        0 <= i <= crate::json::compact(j).len(),
    ensures
        crate::json::compact(j).push('\n')[i] == '\n' <==> i == crate::json::compact(j).len(),
{
    crate::json::law_compact_is_one_line(j);
    if i < crate::json::compact(j).len() {
        assert(crate::json::compact(j)[i] != '\n');
    }
}

// ─── Envelope helpers ───────────────────────────────────────────────

/// Builds a successful JSON-RPC [`Outgoing::Response`] for the given `id` and `result`.
///
/// This is the transport-layer success builder. The tool-result *content*
/// envelope (`{ "content": [...], "isError": .. }`) is carried as this response's
/// `result`.
#[must_use]
pub fn response(id: Option<Json>, result: Json) -> (r: Outgoing)
    ensures
        r@ == (OutgoingView::Response { id: reply_id(crate::json::optional(id)), result: result@ }),
{
    let id = match id {
        Some(i) => i,
        None => Json::Null,
    };
    Outgoing::Response { id, result }
}

/// Builds a JSON-RPC [`Outgoing::Error`] for the given `id`, error `code`, and `message`.
#[must_use]
pub fn error_response(id: Option<Json>, code: i64, message: String) -> (r: Outgoing)
    ensures
        r@ == (OutgoingView::Error {
            id: reply_id(crate::json::optional(id)),
            code: code as int,
            message: message@,
        }),
{
    let id = match id {
        Some(i) => i,
        None => Json::Null,
    };
    Outgoing::Error { id, code, message }
}

/// Wraps a tool's text in the MCP content envelope.
fn content_json(text: &str, is_error: bool) -> (r: Json)
    ensures
        r@ == content(text@, is_error),
{
    let item = Json::object().with("text", Json::text(text)).with("type", Json::text("text"));
    let ghost value = item@;
    let mut items: Vec<Json> = Vec::new();
    items.push(item);
    assert(crate::json::json_values(items@) =~= seq![value]);
    Json::object().with("content", Json::array(items)).with("isError", Json::Bool(is_error))
}

// ─── Tool implementations ───────────────────────────────────────────

fn tool_parse(args: &Json) -> (r: Json)
    requires
        encode_utf8(args@.member("text"@).text()).len() <= MAX_INPUT,
    ensures
        r@ == parse_answer(args@.member("text"@).text()),
{
    match from_str_node(args.text_of("text")) {
        Ok(_) => content_json("valid", false),
        Err(e) => {
            let mut s = String::new();
            if let Some(span) = &e.span {
                push_decimal(&mut s, span.start.line as u64);
                s.append(":");
                push_decimal(&mut s, span.start.column as u64);
                s.append(" ");
            }
            s.append(e.to_string().as_str());
            assert(s@ =~= located(e@));
            content_json(s.as_str(), true)
        },
    }
}

/// An error behind a heading.
fn error_content(heading: &str, message: &str) -> (r: Json)
    ensures
        r@ == content(heading@ + message@, true),
{
    let mut s = heading.to_owned();
    s.append(message);
    content_json(s.as_str(), true)
}

/// The failures as a compact JSON array.
fn failures_text(errors: &Vec<SchemaError>) -> (r: String)
    ensures
        r@ == crate::json::compact(
            JsonView::Array(failures_json(crate::schema::validate::error_views(errors@))),
        ),
{
    let mut items: Vec<Json> = Vec::new();
    let mut i: usize = 0;
    while i < errors.len()
        invariant
            i <= errors@.len(),
            items@.len() == i,
            forall|j: int|
                0 <= j < i ==> (#[trigger] items@[j])@ == failure_json(errors@[j]@),
        decreases errors@.len() - i,
    {
        let item = Json::object().with(
            "column",
            Json::number(errors[i].span.start.column as u64),
        ).with("line", Json::number(errors[i].span.start.line as u64)).with(
            "message",
            Json::text(errors[i].message.as_str()),
        ).with("path", Json::text(errors[i].path.as_str()));
        items.push(item);
        i += 1;
    }
    assert(crate::json::json_values(items@) =~= failures_json(
        crate::schema::validate::error_views(errors@),
    ));
    Json::array(items).to_string()
}

fn tool_validate(args: &Json, numbers: &Vec<Number>) -> (r: Json)
    requires
        encode_utf8(args@.member("text"@).text()).len() <= MAX_INPUT,
        encode_utf8(args@.member("schema"@).text()).len() <= MAX_INPUT,
    ensures
        r@ == validate_answer(
            args@.member("text"@).text(),
            args@.member("schema"@).text(),
            crate::schema::validate::number_views(numbers@),
        ),
{
    let schema_node = match from_str_node(args.text_of("schema")) {
        Ok(n) => n,
        Err(e) => {
            return error_content("schema parse error: ", e.to_string().as_str());
        },
    };
    let schema = Schema::from_node(&schema_node);
    let data = match from_str_node(args.text_of("text")) {
        Ok(n) => n,
        Err(e) => {
            return error_content("parse error: ", e.to_string().as_str());
        },
    };
    let mut errors: Vec<SchemaError> = Vec::new();
    let ghost all = crate::schema::validate::violations(
        data@,
        schema@,
        ""@,
        crate::schema::validate::number_views(numbers@),
    );
    match validate(&data, &schema, numbers) {
        Ok(()) => {
            assert(crate::schema::validate::error_views(errors@) =~= all);
        },
        Err(found) => {
            errors = found;
        },
    }
    // Compact JSON array as the text payload (machine-readable for the agent).
    content_json(failures_text(&errors).as_str(), false)
}

fn tool_format(args: &Json) -> (r: Json)
    requires
        encode_utf8(args@.member("text"@).text()).len() < MAX_INPUT,
    ensures
        r@ == format_answer(args@.member("text"@).text()),
{
    let text = args.text_of("text");
    match from_str_node(text) {
        Ok(_) => content_json(Document::parse(text).reformatted().as_str(), false),
        Err(e) => error_content("parse error: ", e.to_string().as_str()),
    }
}

/// Whether a text holds a dot.
fn has_dot(s: &str) -> (r: bool)
    ensures
        r == s@.contains('.'),
{
    let mut found = false;
    for c in it: s.chars()
        invariant
            it.seq() == s@,
            found == exists|j: int| 0 <= j < it.index() && s@[j] == '.',
    {
        if c == '.' {
            found = true;
            assert(s@[it.index()] == '.');
        }
    }
    found
}

fn tool_edit(args: &Json) -> (r: Json)
    requires
        small_edit(
            args@.member("text"@).text(),
            args@.member("path"@).text(),
            args@.member("value"@).text(),
        ),
    ensures
        r@ == edit_answer(
            args@.member("text"@).text(),
            args@.member("path"@).text(),
            args@.member("value"@).text(),
        ),
{
    let path = args.text_of("path");
    let value = args.text_of("value");
    let mut doc = Document::parse(args.text_of("text"));
    match doc.set(path, value) {
        Ok(()) => content_json(doc.to_string().as_str(), false),
        Err(e) => {
            if has_dot(path) {
                return content_json(e.to_string().as_str(), true);
            }
            match doc.insert(path, value) {
                Ok(()) => content_json(doc.to_string().as_str(), false),
                Err(e) => content_json(e.to_string().as_str(), true),
            }
        },
    }
}

// ─── Messages ───────────────────────────────────────────────────────

/// An integer as JSON.
pub open spec fn json_integer(n: int) -> JsonView {
    JsonView::Number(crate::schema::number::integer_text(n))
}

/// A message as JSON-RPC.
pub open spec fn rpc(m: OutgoingView) -> JsonView {
    match m {
        OutgoingView::Response { id, result } => JsonView::object().with("id"@, id).with(
            "jsonrpc"@,
            JsonView::Text("2.0"@),
        ).with("result"@, result),
        OutgoingView::Error { id, code, message } => JsonView::object().with(
            "error"@,
            JsonView::object().with("code"@, json_integer(code)).with(
                "message"@,
                JsonView::Text(message),
            ),
        ).with("id"@, id).with("jsonrpc"@, JsonView::Text("2.0"@)),
    }
}

/// A message as JSON-RPC.
#[must_use]
pub fn to_rpc(message: Outgoing) -> (r: Json)
    ensures
        r@ == rpc(message@),
{
    match message {
        Outgoing::Response { id, result } => Json::object().with("id", id).with(
            "jsonrpc",
            Json::text("2.0"),
        ).with("result", result),
        Outgoing::Error { id, code, message } => {
            let number = Json::Number(crate::schema::number::integer_string(code));
            let error = Json::object().with("code", number).with(
                "message",
                Json::text(message.as_str()),
            );
            Json::object().with("error", error).with("id", id).with("jsonrpc", Json::text("2.0"))
        },
    }
}

/// Reads a line that was received: the message on it, or the answer to a line that is
/// no JSON.
pub fn read_line(line: &str) -> (r: core::result::Result<Message, Outgoing>)
    ensures
        match json_parsed(line@) {
            Ok(j) => r matches Ok(m) && m@ == message_of(j),
            Err(e) => r matches Err(o) && o@ == (OutgoingView::Error {
                id: JsonView::Null,
                code: -32700,
                message: "parse error: "@ + e,
            }),
        },
{
    match parse_json(line) {
        Ok(j) => Ok(j.message()),
        Err(e) => Err(parse_error(e.as_str())),
    }
}

/// The answer to a line that is no JSON.
#[must_use]
pub fn parse_error(reason: &str) -> (r: Outgoing)
    ensures
        r@ == (OutgoingView::Error {
            id: JsonView::Null,
            code: -32700,
            message: "parse error: "@ + reason@,
        }),
{
    let mut message = "parse error: ".to_owned();
    message.append(reason);
    error_response(None, -32700, message)
}

} // verus!
