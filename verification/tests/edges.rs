use skald::composer::{compose_all, from_str_node, Composer};
use skald::cst::document::{Document, SetError};
use skald::cst::format::{preserves_trailing_ws, strip_trailing_horizontal_ws};
use skald::error::{Error, ErrorKind, ParserConfig};
use skald::fmt::{format_str, parse_args, Command};
use skald::json::Json;
use skald::limits::ResourceLimits;
use skald::lsp;
use skald::mcp;
use skald::node::Node;
use skald::order::text_before;
use skald::scanner::chars::is_flow;
use skald::scanner::swar::skip_spaces_tabs;
use skald::scanner::token::TokenKind;
use skald::scanner::Scanner;
use skald::schema::coerce::{apply_defaults, coerce_to_schema};
use skald::schema::model::{JsonType, Schema};
use skald::schema::number::{ascii_lowercase, is_float_text, parse_integer};
use skald::schema::validate::{validate, Number, SchemaError};
use skald::text::{parse_usize, same_text};
use skald::types::{Position, Span};

fn node(s: &str) -> Node<'static> {
    Composer::new(s).next().unwrap().unwrap().into_owned()
}

fn schema(s: &str) -> Schema {
    Schema::from_node(&node(s))
}

fn span() -> Span {
    Span::point(Position {
        offset: 5,
        line: 2,
        column: 3,
    })
}

// ─── Scanner ────────────────────────────────────────────────────────

#[test]
fn unclosed_flow_with_trivia_ends() {
    let mut scanner = Scanner::with_trivia("[ a", ResourceLimits::default(), true);
    let mut n = 0;
    while scanner.next().is_some() {
        n += 1;
        assert!(n < 20);
    }
}

#[test]
fn whitespace_run_stops_at_the_first_other_byte() {
    assert_eq!(skip_spaces_tabs(b" !aaaaaa", 0), 1);
    assert_eq!(skip_spaces_tabs(b"\t\taaaaaaaa", 1), 1);
    assert_eq!(skip_spaces_tabs(b"        \n", 0), 8);
    assert!(is_flow(b','));
}

#[test]
fn columns_count_from_one() {
    let mut scanner = Scanner::new("ab: c");
    let mut seen = Vec::new();
    while let Some(Ok(t)) = scanner.next() {
        if let TokenKind::Scalar { .. } = t.kind {
            seen.push((t.span.start.line, t.span.start.column));
        }
    }
    assert_eq!(seen, vec![(1, 1), (1, 5)]);
}

#[test]
fn document_size_error_names_its_limit() {
    let limits = ResourceLimits {
        max_document_size: 3,
        ..ResourceLimits::default()
    };
    let mut scanner = Scanner::with_limits("abc: d", limits);
    let mut kind = None;
    while let Some(r) = scanner.next() {
        if let Err(e) = r {
            kind = Some(e.kind);
        }
    }
    assert_eq!(kind, Some(ErrorKind::DocumentSizeExceeded { limit: 3 }));
}

// ─── Errors ─────────────────────────────────────────────────────────

#[test]
fn error_messages() {
    let cases = vec![
        (
            ErrorKind::UnexpectedToken {
                expected: "a".to_string(),
                found: "b".to_string(),
            },
            "expected a, found b",
        ),
        (ErrorKind::UnexpectedEof, "unexpected end of input"),
        (ErrorKind::InvalidEscape('z'), "invalid escape sequence 'z'"),
        (ErrorKind::InvalidAnchor("x".to_string()), "invalid anchor: x"),
        (ErrorKind::InvalidTag("x".to_string()), "invalid tag: x"),
        (ErrorKind::UndefinedAlias("x".to_string()), "undefined alias: x"),
        (ErrorKind::DepthExceeded { limit: 9 }, "nesting depth exceeds 9"),
        (
            ErrorKind::DocumentSizeExceeded { limit: 9 },
            "document size exceeds 9",
        ),
        (
            ErrorKind::AliasLimitExceeded { limit: 9 },
            "alias expansions exceed 9",
        ),
        (ErrorKind::NodeCountExceeded { limit: 9 }, "node count exceeds 9"),
    ];
    for (kind, message) in cases {
        assert_eq!(kind.to_string(), message);
        let placed = Error::new(kind, span());
        assert_eq!(placed.to_string(), format!("{message} at 2:3"));
    }
    assert_eq!(
        Error::spanless(ErrorKind::UnexpectedEof).to_string(),
        "unexpected end of input"
    );
}

// ─── Composer ───────────────────────────────────────────────────────

#[test]
fn aliases_copy_their_nodes() {
    let n = node("a: &x [1, 2]\nb: *x\n");
    let entries = n.as_mapping().unwrap();
    assert_eq!(entries[0].1, entries[1].1);
    assert_eq!(entries[1].1.as_sequence().unwrap().len(), 2);
}

#[test]
fn later_anchor_hides_an_earlier_one() {
    let n = node("[&x 1, &x 2, *x]");
    assert_eq!(n.as_sequence().unwrap()[2].as_str(), Some("2"));
}

#[test]
fn undefined_alias_is_an_error() {
    let e = compose_all("a: *nope\n").unwrap_err();
    assert_eq!(e.kind, ErrorKind::UndefinedAlias("nope".to_string()));
    // Anchors belong to their document.
    let e = compose_all("--- &a x\n--- *a\n").unwrap_err();
    assert_eq!(e.kind, ErrorKind::UndefinedAlias("a".to_string()));
}

#[test]
fn composition_limits() {
    let config = |max_alias_expansions, max_node_count| ParserConfig {
        limits: ResourceLimits {
            max_alias_expansions,
            max_node_count,
            ..ResourceLimits::default()
        },
    };
    let input = "[&a x, *a, *a]";
    let mut c = Composer::with_config(input, config(1, 100));
    assert_eq!(
        c.next().unwrap().unwrap_err().kind,
        ErrorKind::AliasLimitExceeded { limit: 1 }
    );
    assert!(c.next().is_none());
    let mut c = Composer::with_config(input, config(2, 3));
    assert_eq!(
        c.next().unwrap().unwrap_err().kind,
        ErrorKind::NodeCountExceeded { limit: 3 }
    );
    let mut c = Composer::with_config(input, config(2, 4));
    assert!(c.next().unwrap().is_ok());
    assert!(c.next().is_none());
}

#[test]
fn documents_come_one_by_one() {
    let mut c = Composer::new("a\n--- b\n--- 'c");
    assert_eq!(c.next().unwrap().unwrap().as_str(), Some("a"));
    assert_eq!(c.next().unwrap().unwrap().as_str(), Some("b"));
    assert!(c.next().unwrap().is_err());
    assert!(c.next().is_none());
    assert_eq!(compose_all("a\n--- b\n").unwrap().len(), 2);
}

#[test]
fn empty_input_is_an_empty_scalar() {
    assert_eq!(compose_all("").unwrap().len(), 0);
    assert_eq!(from_str_node("").unwrap().as_str(), Some(""));
    assert_eq!(from_str_node("a\n--- b\n").unwrap().as_str(), Some("a"));
    assert!(from_str_node("a\n--- 'b").is_err());
}

#[test]
fn tags_are_resolved() {
    let n = node("!!str x");
    assert_eq!(&*n.tag().unwrap().value, "tag:yaml.org,2002:str");
    let n = node("!local x");
    assert_eq!(&*n.tag().unwrap().value, "!local");
}

// ─── Documents ──────────────────────────────────────────────────────

#[test]
fn index_segments() {
    let doc = Document::parse("items: [a, b]\n");
    assert_eq!(doc.get("items.+1"), Some("b"));
    assert_eq!(doc.get("items.01"), Some("b"));
    assert_eq!(doc.get("items.-1"), None);
    assert_eq!(doc.get("items.x"), None);
    assert_eq!(doc.get("items."), None);
    assert_eq!(doc.get("items.99999999999999999999999"), None);
}

#[test]
fn first_of_equal_keys_counts() {
    let doc = Document::parse("a: 1\na: 2\n");
    assert_eq!(doc.get("a"), Some("1"));
}

#[test]
fn block_mapping_text_starts_with_its_first_key() {
    let mut doc = Document::parse("settings:\n  debug: true\n  level: 2\nname: x\n");
    assert_eq!(doc.get("settings"), Some("debug: true\n  level: 2"));
    assert_eq!(
        doc.get(""),
        Some("settings:\n  debug: true\n  level: 2\nname: x")
    );
    doc.set("settings", "off: 1").unwrap();
    assert_eq!(doc.to_string(), "settings:\n  off: 1\nname: x\n");
}

#[test]
fn missing_values_are_empty() {
    let doc = Document::parse("a:\nb: 1\n");
    assert_eq!(doc.get("a"), Some(""));
    assert_eq!(doc.get(""), Some("a:\nb: 1"));
    assert_eq!(Document::parse("{a}\n").get("a"), Some(""));
    assert_eq!(Document::parse("{a: , b: 1}\n").get("a"), Some(""));
    assert_eq!(Document::parse("-\n- x\n").get("0"), Some(""));
    assert_eq!(Document::parse("---\n").get(""), Some(""));
    assert_eq!(Document::parse("a: &x\nb: 1\n").get("a"), Some(""));
}

#[test]
fn missing_values_are_written_behind_their_indicator() {
    for (source, path, expected) in [
        ("a:\nb: 1\n", "a", "a: v\nb: 1\n"),
        ("a: # note\nb: 1\n", "a", "a: v # note\nb: 1\n"),
        ("a: &x # note\nb: 1\n", "a", "a: &x v # note\nb: 1\n"),
        ("b: 1\na:", "a", "b: 1\na: v"),
        ("-\n- x\n", "0", "- v\n- x\n"),
        ("- &x\n- y\n", "0", "- &x v\n- y\n"),
        ("{a}\n", "a", "{a: v}\n"),
        ("{a, b: 1}\n", "a", "{a: v, b: 1}\n"),
        ("{a: , b: 1}\n", "a", "{a: v , b: 1}\n"),
        ("{a:}\n", "a", "{a: v}\n"),
        ("--- # note\n", "", "--- v # note\n"),
        ("? a\n? b\n", "a", "? a\n: v\n? b\n"),
        ("- ? a\n  ? b\n", "0.a", "- ? a\n  : v\n  ? b\n"),
    ] {
        let mut doc = Document::parse(source);
        assert_eq!(doc.get(path), Some(""), "{source:?}");
        doc.set(path, "v").unwrap();
        assert_eq!(doc.to_string(), expected);
        assert_eq!(doc.get(path), Some("v"), "{expected:?}");
        let mut same = Document::parse(source);
        same.set(path, "").unwrap();
        assert_eq!(same.to_string(), source);
    }
}

#[test]
fn block_mapping_text_holds_the_properties_of_its_first_key() {
    assert_eq!(Document::parse("&x a: 1\n").get(""), Some("&x a: 1"));
    assert_eq!(
        Document::parse("- !!str &x a: 1\n  b: 2\n").get("0"),
        Some("!!str &x a: 1\n  b: 2")
    );
    assert_eq!(Document::parse("m: &x\n  a: 1\n").get("m"), Some("a: 1"));
}

#[test]
fn insert_needs_a_block_mapping() {
    let mut flow = Document::parse("{a: 1}\n");
    assert_eq!(flow.insert("b", "2"), Err(SetError::NotAMapping));
    assert_eq!(flow.insert_at("", "b", "2"), Err(SetError::NotAMapping));
    assert_eq!(flow.to_string(), "{a: 1}\n");
    let schema = schema("properties:\n  b:\n    default: 2\n");
    assert!(apply_defaults(&mut flow, &schema).is_empty());
    assert_eq!(flow.to_string(), "{a: 1}\n");
}

#[test]
fn insert_at_goes_by_the_kind_of_the_node() {
    let mut explicit = Document::parse("a:\n  ? k\n  : v\n");
    explicit.insert_at("a", "m", "n").unwrap();
    assert_eq!(explicit.to_string(), "a:\n  ? k\n  : v\n  m: n\n");
    let mut scalar = Document::parse("a: :x\n");
    assert_eq!(scalar.insert_at("a", "m", "n"), Err(SetError::NotAMapping));
    assert_eq!(scalar.to_string(), "a: :x\n");
}

#[test]
fn insert_at_errors_leave_the_document() {
    let input = "a: {b: 1}\nc: [x]\n";
    let mut doc = Document::parse(input);
    assert_eq!(doc.insert_at("zzz", "k", "v"), Err(SetError::PathNotFound));
    assert_eq!(doc.insert_at("a", "k", "v"), Err(SetError::NotAMapping));
    assert_eq!(doc.insert_at("c", "k", "v"), Err(SetError::NotAMapping));
    assert_eq!(doc.to_string(), input);
}

#[test]
fn reformatting_keeps_the_indentation_of_comments() {
    let input = "a: b\n  # c\nd: 1\n";
    assert_eq!(Document::parse(input).reformatted(), input);
}

#[test]
fn reformatting_trims_a_last_line_without_newline() {
    assert_eq!(Document::parse("a   ").reformatted(), "a\n");
    assert_eq!(Document::parse("k:  ").reformatted(), "k:\n");
}

#[test]
fn trailing_whitespace_helpers() {
    assert_eq!(strip_trailing_horizontal_ws("# c \t "), "# c");
    assert_eq!(strip_trailing_horizontal_ws("   "), "");
    assert!(preserves_trailing_ws("|\n x"));
    assert!(preserves_trailing_ws("'x'"));
    assert!(!preserves_trailing_ws("x"));
    assert!(!preserves_trailing_ws(""));
}

#[test]
fn malformed_rest_is_one_error_leaf() {
    let doc = Document::parse("a: 1\n'b");
    let kids = doc.root().children_with_tokens();
    let last = &kids[kids.len() - 1];
    assert_eq!(last.kind(), skald::cst::kind::SyntaxKind::Error);
    assert!(last.text().ends_with("'b"));
}

// ─── Schema ─────────────────────────────────────────────────────────

fn number(text: &str, order: i64) -> Number {
    Number {
        text: text.to_string(),
        order,
        shown: text.to_string(),
    }
}

fn failures(data: &str, s: &str, numbers: Vec<Number>) -> Vec<SchemaError> {
    match validate(&node(data), &schema(s), &numbers) {
        Ok(()) => Vec::new(),
        Err(errors) => errors,
    }
}

fn message(data: &str, s: &str) -> String {
    failures(data, s, Vec::new()).remove(0).message
}

#[test]
fn validation_messages() {
    assert_eq!(
        message("x", "type: [integer, 'null']"),
        "expected type integer or null but got string"
    );
    assert_eq!(message("a\"b", "const: c"), "value must equal const \"c\"");
    assert_eq!(
        message("c", "enum: [a, 'b\"']"),
        "value \"c\" is not one of [\"a\", \"b\\\"\"]"
    );
    assert_eq!(
        message("ab", "minLength: 3"),
        "string length 2 is less than minLength 3"
    );
    assert_eq!(
        message("é日😀", "maxLength: 2"),
        "string length 3 exceeds maxLength 2"
    );
    assert_eq!(
        message("{a: 1}", "minProperties: 2"),
        "object has 1 properties, minimum is 2"
    );
    assert_eq!(
        message("[1]", "minItems: 2"),
        "array has 1 items, minimum is 2"
    );
    assert_eq!(
        message("[1, 2]", "maxItems: 1"),
        "array has 2 items, maximum is 1"
    );
    assert_eq!(
        message("{}", "required: [k]"),
        "required property \"k\" is missing"
    );
    assert_eq!(
        message("{z: 1}", "additionalProperties: false"),
        "additional property \"z\" is not allowed"
    );
}

#[test]
fn bounds_compare_numbers() {
    let numbers = || vec![number("5", 5), number("7", 7), number("10", 10)];
    let low = failures("5", "minimum: 7", numbers());
    assert_eq!(low[0].message, "value 5 is less than minimum 7");
    let high = failures("10", "maximum: 7", numbers());
    assert_eq!(high[0].message, "value 10 exceeds maximum 7");
    assert!(failures("7", "{minimum: 7, maximum: 7}", numbers()).is_empty());
    // What is no number is not compared.
    assert!(failures("x", "minimum: 7", numbers()).is_empty());
}

#[test]
fn failures_have_paths_and_places() {
    let all = failures(
        "items:\n- age: x\n",
        "properties: {items: {items: {properties: {age: {type: integer}}}}}",
        Vec::new(),
    );
    assert_eq!(all.len(), 1);
    assert_eq!(all[0].path, "/items/0/age");
    assert_eq!((all[0].span.start.line, all[0].span.start.column), (2, 8));
}

#[test]
fn later_keyword_counts_and_properties_add_up() {
    let s = schema("type: string\ntype: integer\nproperties: {b: {}}\nproperties: {a: {type: 'null'}}\n");
    assert_eq!(s.types, Some(vec![JsonType::Integer]));
    let names: Vec<&str> = s.properties.iter().map(|(n, _)| n.as_str()).collect();
    assert_eq!(names, vec!["a", "b"]);
    assert!(s.property("c").is_none());
    assert_eq!(schema("minimum: x").minimum, None);
    assert_eq!(schema("minLength: -1").min_length, None);
    assert_eq!(schema("minLength: +4").min_length, Some(4));
}

#[test]
fn number_texts() {
    for ok in [
        "0", "1.", ".5", "-1.5e+10", "+inf", "NaN", "INFINITY", "1E5", "00", "-0",
    ] {
        assert!(is_float_text(ok), "{ok}");
        assert!(ok.parse::<f64>().is_ok(), "{ok}");
    }
    for bad in [
        "", "+", ".", "e5", "1e", "1e+", "1_0", "0x10", "infinit", "1.5.2", " 1", "--1",
    ] {
        assert!(!is_float_text(bad), "{bad}");
        assert!(bad.parse::<f64>().is_err(), "{bad}");
    }
    for text in [
        "0", "-7", "+7", "", "-", "9223372036854775807", "9223372036854775808",
        "-9223372036854775808", "-9223372036854775809", "1a", "99999999999999999999999",
    ] {
        assert_eq!(parse_integer(text), text.parse::<i64>().ok(), "{text}");
        assert_eq!(parse_usize(text), text.parse::<usize>().ok(), "{text}");
    }
    assert_eq!(ascii_lowercase("AbÉ9"), "abÉ9");
}

#[test]
fn coercion_stops_at_a_gap_and_skips_absent_values() {
    let s = schema("properties: {v: {items: {type: integer}}, w: {type: integer}}");
    let mut doc = Document::parse("v: ['1', x, '3']\n");
    let changes = coerce_to_schema(&mut doc, &s);
    assert_eq!(doc.to_string(), "v: [1, x, 3]\n");
    assert_eq!(changes.len(), 2);
    assert_eq!(changes[1].path, "v.2");
    assert_eq!(changes[1].from, "'3'");
    assert_eq!(changes[1].to, "3");
}

#[test]
fn defaults_are_inserted_in_the_order_of_names() {
    let s = schema("properties: {b: {default: 2}, a: {default: 1}}");
    let mut doc = Document::parse("");
    let inserted = apply_defaults(&mut doc, &s);
    assert_eq!(doc.to_string(), "a: 1\nb: 2\n");
    assert_eq!(inserted[0].path, "a");
    // A root that is no mapping takes none.
    let mut list = Document::parse("- x\n");
    assert!(apply_defaults(&mut list, &s).is_empty());
    assert_eq!(list.to_string(), "- x\n");
}

// ─── Texts ──────────────────────────────────────────────────────────

#[test]
fn text_order_is_that_of_bytes() {
    assert!(text_before("a", "b"));
    assert!(text_before("", "a"));
    assert!(text_before("Z", "a"));
    assert!(text_before("z", "é"));
    assert!(!text_before("a", "a"));
    assert!(same_text("é", "é"));
}

// ─── Protocols ──────────────────────────────────────────────────────

#[test]
fn json_notation() {
    let value = Json::object()
        .with("s", Json::text("a\"b\\c\n\r\t\u{8}\u{c}\u{1}\u{1f}\u{7f}é/"))
        .with("n", Json::number(12))
        .with("l", Json::Array(vec![Json::Null, Json::Bool(true), Json::Bool(false)]))
        .with("e", Json::object());
    let text = value.to_string();
    assert_eq!(
        text,
        "{\"s\":\"a\\\"b\\\\c\\n\\r\\t\\b\\f\\u0001\\u001f\u{7f}é/\",\"n\":12,\"l\":[null,true,false],\"e\":{}}"
    );
    let parsed: serde_json::Value = serde_json::from_str(&text).unwrap();
    assert_eq!(parsed["s"], "a\"b\\c\n\r\t\u{8}\u{c}\u{1}\u{1f}\u{7f}é/");
    assert_eq!(parsed["l"][1], true);
}

#[test]
fn json_members() {
    let value = Json::object().with("a", Json::number(1)).with("a", Json::number(2));
    assert_eq!(value.get("a"), Some(&Json::number(1)));
    assert_eq!(value.get("b"), None);
    assert_eq!(Json::Null.get("a"), None);
    assert_eq!(value.text_of("a"), "");
    assert_eq!(Json::Null.with("a", Json::Null), Json::Null);
}

#[test]
fn content_length_header() {
    assert_eq!(lsp::content_length("Content-Length: 12\r\n\r\n"), 12);
    assert_eq!(lsp::content_length("X: y\r\nContent-Length:7 \r\n\r\n"), 7);
    assert_eq!(lsp::content_length("Content-Length: 1\r\nContent-Length: 2\r\n\r\n"), 2);
    assert_eq!(lsp::content_length("Content-Length: x\r\n\r\n"), 0);
    assert_eq!(lsp::content_length("content-length: 5\r\n\r\n"), 0);
    assert_eq!(lsp::content_length(""), 0);
}

#[test]
fn rpc_messages() {
    assert_eq!(
        lsp::to_rpc(lsp::Outgoing::Response {
            id: Json::number(1),
            result: Json::Null,
        })
        .to_string(),
        "{\"id\":1,\"jsonrpc\":\"2.0\",\"result\":null}"
    );
    assert_eq!(
        lsp::to_rpc(lsp::Outgoing::Notification {
            method: "m".to_string(),
            params: Json::object(),
        })
        .to_string(),
        "{\"jsonrpc\":\"2.0\",\"method\":\"m\",\"params\":{}}"
    );
    assert_eq!(
        mcp::to_rpc(mcp::parse_error("bad")).to_string(),
        "{\"error\":{\"code\":-32700,\"message\":\"parse error: bad\"},\"id\":null,\"jsonrpc\":\"2.0\"}"
    );
    assert_eq!(
        mcp::to_rpc(mcp::response(None, Json::Bool(true))).to_string(),
        "{\"id\":null,\"jsonrpc\":\"2.0\",\"result\":true}"
    );
}

#[test]
fn formatter_arguments() {
    let args = |list: &[&str]| list.iter().map(|s| s.to_string()).collect::<Vec<String>>();
    assert_eq!(parse_args(&args(&[])), Command::Stdin);
    assert_eq!(parse_args(&args(&["--check"])), Command::Stdin);
    assert_eq!(
        parse_args(&args(&["a", "--check", "b"])),
        Command::Check(args(&["a", "b"]))
    );
    assert_eq!(parse_args(&args(&["--write", "a"])), Command::Write(args(&["a"])));
    assert_eq!(parse_args(&args(&["a"])), Command::Print(args(&["a"])));
    assert_eq!(parse_args(&args(&["--write", "--check", "a"])), Command::Conflict);
    assert_eq!(parse_args(&args(&["--check", "-h", "--bad"])), Command::Help);
    assert_eq!(
        parse_args(&args(&["--bad", "--help"])),
        Command::UnknownFlag("--bad".to_string())
    );
}

#[test]
fn formatter_reports_the_error() {
    let e = format_str("a: [1, 2").unwrap_err();
    assert!(e.starts_with("parse error: "));
    assert!(e.contains(" at 1:"));
}

#[test]
fn received_lines_are_read() {
    let message =
        mcp::read_line("{\"method\":\"ping\",\"id\":7,\"params\":{\"b\":[1,true,null],\"a\":\"\\u00e9\"}}")
            .unwrap();
    assert_eq!(message.method, "ping");
    assert_eq!(message.id, Some(Json::Number("7".to_string())));
    assert_eq!(
        message.params.to_string(),
        "{\"a\":\"\u{e9}\",\"b\":[1,true,null]}"
    );
    let bare = mcp::read_line("{\"method\":3,\"id\":null}").unwrap();
    assert_eq!(bare.method, "");
    assert_eq!(bare.id, Some(Json::Null));
    assert_eq!(bare.params, Json::Null);
    assert_eq!(mcp::read_line("[]").unwrap().id, None);
    let answer = mcp::read_line("{").unwrap_err();
    assert_eq!(
        mcp::to_rpc(answer).to_string(),
        "{\"error\":{\"code\":-32700,\"message\":\"parse error: EOF while parsing an object at line 1 column 1\"},\"id\":null,\"jsonrpc\":\"2.0\"}"
    );
}

#[test]
fn received_bodies_are_read() {
    let message = lsp::read_body(b"{\"method\":\"exit\",\"params\":1.5}").unwrap();
    assert_eq!(message.method, "exit");
    assert_eq!(message.id, None);
    assert_eq!(message.params, Json::Number("1.5".to_string()));
    assert!(lsp::read_body(b"\"\xff\"").is_none());
    assert!(lsp::read_body(b"").is_none());
}

#[test]
fn tool_properties_are_in_order() {
    let edit = mcp::tools_list()[3].to_string();
    let at = |name: &str| edit.find(&format!("\"{name}\":{{")).unwrap();
    assert!(at("path") < at("text") && at("text") < at("value"));
    assert!(edit.contains("\"required\":[\"text\",\"path\",\"value\"]"));
}

#[test]
fn edit_tool_refuses_a_flow_root() {
    let args = Json::object()
        .with("text", Json::text("{a: 1}\n"))
        .with("path", Json::text("b"))
        .with("value", Json::text("2"));
    let params = Json::object()
        .with("name", Json::text("yaml_edit"))
        .with("arguments", args);
    let mut server = mcp::Server::new();
    let replies = server.handle("tools/call", Some(Json::number(1)), params, &Vec::new());
    let text = mcp::to_rpc(replies[0].clone()).to_string();
    assert!(text.contains("root is not a block mapping"));
    assert!(text.contains("\"isError\":true"));
}

#[test]
fn parts_of_nodes_can_be_cloned() {
    let node = from_str_node("a: [1, 2]\n").unwrap();
    if let Node::Mapping(m) = &node {
        assert_eq!(&m.clone(), m);
        if let Node::Sequence(s) = &m.entries[0].1 {
            assert_eq!(&s.clone(), s);
        }
        if let Node::Scalar(s) = &m.entries[0].0 {
            assert_eq!(&s.clone(), s);
        }
    }
}

#[test]
fn markers_and_directives_are_trimmed() {
    assert_eq!(
        Document::parse("%YAML 1.2  \n---\na: 1\n...  \n").reformatted(),
        "%YAML 1.2\n---\na: 1\n...\n"
    );
    assert_eq!(
        Document::parse("%FOO bar  \n---\na: 1\n").reformatted(),
        "%FOO bar\n---\na: 1\n"
    );
}

#[test]
fn percent_escapes_leave_other_characters_alone() {
    let mut scanner = Scanner::new("!\u{e9}%21x y\n");
    let mut suffix = None;
    while let Some(Ok(t)) = scanner.next_token() {
        if let TokenKind::Tag { suffix: s, .. } = t.kind {
            suffix = Some(s.into_owned());
        }
    }
    assert_eq!(suffix.as_deref(), Some("\u{e9}!x"));
}


#[test]
fn values_are_borrowed_where_they_stand_in_the_input() {
    for (source, borrowed) in [
        ("a b\t c", true),
        ("a\n  b", false),
        ("'a b'", true),
        ("'it''s'", false),
        ("'a\n b'", false),
        ("\"a\"", false),
    ] {
        let mut scanner = Scanner::new(source);
        let mut seen = None;
        while let Some(Ok(t)) = scanner.next_token() {
            if let TokenKind::Scalar { value, .. } = t.kind {
                seen = Some(matches!(value, std::borrow::Cow::Borrowed(_)));
            }
        }
        assert_eq!(seen, Some(borrowed), "{source:?}");
    }
}
