use skald::cst::builder::GreenNodeBuilder;
use skald::cst::document::{classify_root_events, Document, RootKind, SetError};
use skald::cst::format::{collect_tokens, strip_trailing_ws_before_newline};
use skald::cst::kind::SyntaxKind;
use skald::cst::path::{read_key, resolve, skip_node};
use skald::cst::red::SyntaxNode;
use skald::parser::{Event, EventKind};
use skald::types::{Position, Span};

#[test]
fn parse_to_string_is_lossless() {
    for input in [
        "a: 1\n",
        "# c\nkey: value  # trail\n",
        "list:\n  - a\n  - b\n",
        "a: 1\r\nb: 2\r\n",
        "\u{FEFF}x: y\n",
        "nested:\n  k: v # note\n",
        "plain",
        "",
    ] {
        let doc = Document::parse(input);
        assert_eq!(doc.to_string(), input, "lossless failed for {input:?}");
    }
}

#[test]
fn get_by_path() {
    let doc = Document::parse("settings:\n  debug: true\nitems:\n  - a\n  - b\n");
    assert_eq!(doc.get("settings.debug").map(str::trim), Some("true"));
    assert_eq!(doc.get("items.1").map(str::trim), Some("b"));
    assert_eq!(doc.get("nope"), None);
    assert_eq!(doc.get("settings.debug.deeper"), None);
}

#[test]
fn get_flow_mapping() {
    let doc = Document::parse("a: {x: 1, y: 2}\n");
    assert_eq!(doc.get("a.x").map(str::trim), Some("1"));
    assert_eq!(doc.get("a.y").map(str::trim), Some("2"));
    assert_eq!(doc.get("a").map(str::trim), Some("{x: 1, y: 2}"));
}

#[test]
fn get_nested_sequence() {
    let doc = Document::parse("matrix:\n  - [1, 2]\n  - [3, 4]\n");
    assert_eq!(doc.get("matrix.0.0").map(str::trim), Some("1"));
    assert_eq!(doc.get("matrix.1.1").map(str::trim), Some("4"));
    assert_eq!(doc.get("matrix.2"), None);
}

#[test]
fn get_root_scalar() {
    let doc = Document::parse("plain\n");
    assert_eq!(doc.get("").map(str::trim), Some("plain"));
    assert_eq!(doc.get("nope"), None);
}

#[test]
fn get_malformed_is_none() {
    let doc = Document::parse("a: [1, 2");
    assert_eq!(doc.get("b"), None);
}

#[test]
fn root_node_is_root_kind() {
    let doc = Document::parse("a: 1\n");
    assert_eq!(doc.root().kind(), SyntaxKind::Root);
}

#[test]
fn display_matches_to_string() {
    let doc = Document::parse("a: 1\n");
    assert_eq!(doc.as_str(), doc.to_string());
}

#[test]
fn set_replaces_value_preserving_trivia() {
    let mut doc = Document::parse("version: 0.0.1  # keep me\nname: skald\n");
    doc.set("version", "0.0.2").unwrap();
    assert_eq!(doc.to_string(), "version: 0.0.2  # keep me\nname: skald\n");
}

#[test]
fn set_nested_and_sequence() {
    let mut doc = Document::parse("settings:\n  debug: true  # c\nitems:\n  - a\n  - b\n");
    doc.set("settings.debug", "false").unwrap();
    doc.set("items.1", "z").unwrap();
    assert_eq!(
        doc.to_string(),
        "settings:\n  debug: false  # c\nitems:\n  - a\n  - z\n"
    );
}

#[test]
fn set_unknown_path_errors() {
    let mut doc = Document::parse("a: 1\n");
    assert_eq!(doc.set("b", "2"), Err(SetError::PathNotFound));
    // unchanged after a failed set
    assert_eq!(doc.to_string(), "a: 1\n");
}

#[test]
fn insert_appends_top_level_key_preserving_comments() {
    let mut doc = Document::parse("name: skald  # the name\n");
    doc.insert("version", "1").unwrap();
    assert_eq!(doc.to_string(), "name: skald  # the name\nversion: 1\n");
    assert_eq!(doc.get("version").map(str::trim), Some("1"));
}

#[test]
fn insert_into_empty_doc_creates_mapping() {
    let mut doc = Document::parse("");
    doc.insert("a", "1").unwrap();
    assert_eq!(doc.to_string(), "a: 1\n");
}

#[test]
fn insert_handles_missing_trailing_newline() {
    let mut doc = Document::parse("a: 1");
    doc.insert("b", "2").unwrap();
    assert_eq!(doc.to_string(), "a: 1\nb: 2\n");
}

#[test]
fn insert_rejects_non_mapping_root() {
    let mut doc = Document::parse("- item\n");
    assert!(doc.insert("k", "v").is_err());
    let mut scalar = Document::parse("just a scalar\n");
    assert!(scalar.insert("k", "v").is_err());
}

#[test]
fn insert_at_nested_mapping_preserves_indent_and_comments() {
    let mut doc = Document::parse("server:\n  host: x  # the host\nother: y\n");
    doc.insert_at("server", "port", "8080").unwrap();
    assert_eq!(
        doc.to_string(),
        "server:\n  host: x  # the host\n  port: 8080\nother: y\n"
    );
}

#[test]
fn insert_at_deeper_nesting() {
    let mut doc = Document::parse("a:\n  b:\n    c: 1\n");
    doc.insert_at("a.b", "d", "2").unwrap();
    assert_eq!(doc.to_string(), "a:\n  b:\n    c: 1\n    d: 2\n");
}

#[test]
fn insert_at_root_matches_top_level_insert() {
    let mut doc = Document::parse("x: 1\n");
    doc.insert_at("", "y", "2").unwrap();
    assert_eq!(doc.to_string(), "x: 1\ny: 2\n");
}

#[test]
fn insert_at_rejects_non_block_mapping_parent() {
    let mut doc = Document::parse("server: {host: x}\n");
    assert!(doc.insert_at("server", "port", "1").is_err());
    let mut seq = Document::parse("items:\n  - a\n");
    assert!(seq.insert_at("items", "k", "v").is_err());
}

#[test]
fn reformat_trims_trailing_whitespace() {
    let doc = Document::parse("a: 1   \nb: 2\t\n");
    assert_eq!(doc.reformatted(), "a: 1\nb: 2\n");
}

#[test]
fn reformat_preserves_indentation_and_comments() {
    let doc = Document::parse("server:\n  host: x  # note  \n");
    assert_eq!(doc.reformatted(), "server:\n  host: x  # note\n");
}

#[test]
fn reformat_ensures_single_final_newline() {
    assert_eq!(Document::parse("a: 1").reformatted(), "a: 1\n");
    assert_eq!(Document::parse("a: 1\n\n\n").reformatted(), "a: 1\n");
}

#[test]
fn reformat_preserves_block_scalar_content_including_trailing_spaces() {
    let src = "lit: |\n  line with trailing   \n  next\n";
    let doc = Document::parse(src);
    assert_eq!(doc.reformatted(), src);
}

#[test]
fn reformat_is_idempotent() {
    let once = Document::parse("a: 1  \n").reformatted();
    let twice = Document::parse(&once).reformatted();
    assert_eq!(once, twice);
}

#[test]
fn reformat_preserves_quoted_scalar_trailing_ws() {
    let src = "msg: \"line one   \n  line two\"\n";
    let doc = Document::parse(src);
    assert_eq!(doc.reformatted(), src);
    let sq = "x: 'a   \n  b'\n";
    assert_eq!(Document::parse(sq).reformatted(), sq);
}

#[test]
fn set_error_display_messages() {
    assert_eq!(SetError::PathNotFound.to_string(), "path not found");
    assert_eq!(
        SetError::NotAMapping.to_string(),
        "root is not a block mapping"
    );
}

#[test]
fn insert_on_malformed_root_is_not_a_mapping() {
    let mut doc = Document::parse("&\n");
    assert_eq!(doc.insert("k", "v"), Err(SetError::NotAMapping));
}

#[test]
fn reformat_whitespace_only_yields_empty() {
    assert_eq!(Document::parse("\n\n\n").reformatted(), "");
    assert_eq!(Document::parse("   \n  \n").reformatted(), "");
}

#[test]
fn get_into_unterminated_flow_sequence_is_none() {
    let doc = Document::parse("a: [1, 2");
    assert_eq!(doc.get("a.0"), None);
}

#[test]
fn get_into_unterminated_flow_mapping_is_none() {
    let doc = Document::parse("a: {b: 1");
    assert_eq!(doc.get("a.b"), None);
}

#[test]
fn get_skips_non_scalar_complex_key() {
    let doc = Document::parse("? [a, b]\n: first\ntarget: second\n");
    assert_eq!(doc.get("target").map(str::trim), Some("second"));
}

#[test]
fn get_whole_nested_collection_consumes_body() {
    let doc = Document::parse("outer: {inner: [1, 2]}\nsibling: z\n");
    let whole = doc.get("outer").map(str::trim).unwrap();
    assert_eq!(whole, "{inner: [1, 2]}");
    assert!(!whole.contains("sibling"));
}

#[test]
fn get_skips_sibling_with_nested_collection_value() {
    let doc = Document::parse("first:\n  nested:\n    - x\nsecond: y\n");
    assert_eq!(doc.get("second").map(str::trim), Some("y"));
}

#[test]
fn strip_trailing_ws_before_newline_handles_unterminated_final_fragment() {
    assert_eq!(
        strip_trailing_ws_before_newline("one   \ntwo   "),
        "one\ntwo"
    );
    assert_eq!(strip_trailing_ws_before_newline("a \t\r\nb \t"), "a\r\nb");
}

#[test]
fn get_on_empty_document_is_none() {
    let doc = Document::parse("");
    assert_eq!(doc.get("anything"), None);
}

#[test]
fn get_on_immediate_parse_error_is_none() {
    let doc = Document::parse("&\n");
    assert_eq!(doc.get("x"), None);
}

#[test]
fn get_value_that_errors_during_resolve_is_none() {
    let doc = Document::parse("a: {x: &}\n");
    assert_eq!(doc.get("a.x"), None);
}

#[test]
fn get_skips_value_that_errors_is_none() {
    let doc = Document::parse("a: &\nb: 1\n");
    assert_eq!(doc.get("b"), None);
}

fn ev(kind: EventKind<'static>) -> Event<'static> {
    Event {
        kind,
        span: Span::point(Position::start()),
    }
}

#[test]
fn classify_root_events_empty_stream_is_empty() {
    let none: Vec<Event<'static>> = Vec::new();
    assert!(matches!(
        classify_root_events(&none, false),
        RootKind::Empty
    ));
}

#[test]
fn resolve_rejects_non_node_start_event() {
    let events = vec![ev(EventKind::MappingEnd)];
    assert_eq!(resolve(&events, 0, &Vec::new(), 0).0, None);
}

#[test]
fn skip_node_rejects_non_node_start_event() {
    let events = vec![ev(EventKind::SequenceEnd)];
    assert_eq!(skip_node(&events, 0).0, false);
}

#[test]
fn read_key_on_exhausted_stream_is_none() {
    let events: Vec<Event<'static>> = Vec::new();
    assert_eq!(read_key(&events, 0, "").0, None);
}

#[test]
fn collect_tokens_recurses_into_child_nodes() {
    let mut b = GreenNodeBuilder::new();
    b.start_node(SyntaxKind::Root);
    b.start_node(SyntaxKind::Mapping); // nested child node
    b.token(SyntaxKind::ScalarToken, "k");
    b.token(SyntaxKind::Punct, ": ");
    b.token(SyntaxKind::ScalarToken, "v");
    b.finish_node();
    b.finish_node();
    let root = SyntaxNode::new_root(b.finish());

    let mut toks = Vec::new();
    collect_tokens(&root, &mut toks);
    let kinds: Vec<SyntaxKind> = toks.iter().map(|(k, _)| *k).collect();
    assert_eq!(
        kinds,
        vec![
            SyntaxKind::ScalarToken,
            SyntaxKind::Punct,
            SyntaxKind::ScalarToken
        ]
    );
}
