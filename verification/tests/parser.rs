use skald::error::{Error, ErrorKind, ParserConfig};
use skald::limits::ResourceLimits;
use skald::parser::{Event, EventKind, Parser};
use skald::types::ScalarStyle;

fn all<'a>(mut parser: Parser<'a>) -> Vec<Result<Event<'a>, Error>> {
    let mut out = Vec::new();
    while let Some(r) = parser.next_event() {
        out.push(r);
    }
    out
}

fn parse(input: &str) -> Vec<EventKind<'_>> {
    all(Parser::new(input))
        .into_iter()
        .map(|r| r.expect("parse error").kind)
        .collect()
}

fn event_names(input: &str) -> Vec<&'static str> {
    parse(input).iter().map(|e| e.name()).collect()
}

fn parse_err(input: &str) -> Error {
    all(Parser::new(input))
        .into_iter()
        .find_map(|r| r.err())
        .expect("expected parse error")
}

#[test]
fn anchored_scalar_in_block_sequence_entry() {
    let events = parse("- &a foo");
    assert!(matches!(
        events
            .iter()
            .find(|e| matches!(e, EventKind::Scalar { .. })),
        Some(EventKind::Scalar {
            anchor: Some(_),
            ..
        })
    ));
}

#[test]
fn anchored_flow_sequence_in_block_sequence_entry() {
    let names = event_names("- &a [1, 2]");
    assert_eq!(names.iter().filter(|&&n| n == "sequence-start").count(), 2);
}

#[test]
fn anchored_flow_mapping_in_block_sequence_entry() {
    let names = event_names("- &a {x: 1}");
    assert!(names.contains(&"mapping-start"));
}

#[test]
fn anchored_block_sequence_in_block_sequence_entry() {
    let names = event_names("- &a\n  - x");
    assert_eq!(names.iter().filter(|&&n| n == "sequence-start").count(), 2);
}

#[test]
fn anchored_block_mapping_in_block_sequence_entry() {
    let names = event_names("- &a\n  x: 1");
    assert!(names.contains(&"mapping-start"));
}

#[test]
fn tagged_scalar_in_block_sequence_then_next_entry() {
    let names = event_names("- !!str x\n- y");
    assert_eq!(names.iter().filter(|&&n| n == "scalar").count(), 2);
}

#[test]
fn anchor_on_empty_block_sequence_entry_value() {
    let events = parse("- &a\n- b");
    let anchored = events.iter().any(
        |e| matches!(e, EventKind::Scalar { anchor: Some(_), value, .. } if value.is_empty()),
    );
    assert!(anchored, "expected empty anchored scalar: {events:?}");
}

#[test]
fn alias_with_anchor_in_block_sequence_entry_errors() {
    let err = parse_err("- &a *b");
    match err.kind {
        ErrorKind::UnexpectedToken { found, .. } => {
            assert!(found.contains("alias"), "got {found}");
        }
        other => panic!("unexpected: {other:?}"),
    }
}

#[test]
fn alias_without_properties_in_block_sequence_entry() {
    let names = event_names("- &a x\n- *a");
    assert!(names.contains(&"alias"));
}

#[test]
fn explicit_empty_key_then_value() {
    let names = event_names("?\n: v");
    assert!(names.contains(&"mapping-start"));
    assert!(names.contains(&"mapping-end"));
}

#[test]
fn explicit_key_with_indentless_sequence_value() {
    let names = event_names("?\n- a\n- b");
    assert!(names.contains(&"sequence-start"));
}

#[test]
fn two_explicit_keys_block_end() {
    let names = event_names("? k\n? k2");
    assert!(names.contains(&"mapping-end"));
}

#[test]
fn flow_sequence_missing_separator_errors() {
    let err = parse_err("[[1] [2]]");
    match err.kind {
        ErrorKind::UnexpectedToken { expected, .. } => {
            assert!(expected.contains(']'), "got {expected}");
        }
        other => panic!("unexpected: {other:?}"),
    }
}

#[test]
fn flow_mapping_missing_separator_errors() {
    let err = parse_err("{a: b\nc: d}");
    match err.kind {
        ErrorKind::UnexpectedToken { expected, .. } => {
            assert!(expected.contains('}'), "got {expected}");
        }
        other => panic!("unexpected: {other:?}"),
    }
}

#[test]
fn property_at_column_zero_in_mapping_value_errors() {
    let err = parse_err("key:\n&a\n- x");
    assert!(matches!(err.kind, ErrorKind::UnexpectedToken { .. }));
}

#[test]
fn unterminated_flow_collections_error() {
    assert!(
        parse_err("[").kind
            == ErrorKind::UnexpectedToken {
                expected: "node content".into(),
                found: "stream-end".into(),
            }
    );
    let _ = parse_err("{");
}

#[test]
fn mod_empty_stream() {
    let names = event_names("");
    assert_eq!(names, vec!["stream-start", "stream-end"]);
}

#[test]
fn mod_plain_scalar() {
    let events = parse("hello");
    let names: Vec<&str> = events.iter().map(|e| e.name()).collect();
    assert!(names.contains(&"scalar"));
    assert!(matches!(
        &events[2],
        EventKind::Scalar { value, style: ScalarStyle::Plain, .. } if value == "hello"
    ));
}

#[test]
fn mod_block_mapping() {
    let names = event_names("a: 1\nb: 2");
    assert!(names.contains(&"mapping-start"));
    assert!(names.contains(&"mapping-end"));
    let scalar_count = names.iter().filter(|&&n| n == "scalar").count();
    assert!(
        scalar_count >= 4,
        "expected at least 4 scalars, got {scalar_count}"
    );
}

#[test]
fn mod_block_sequence() {
    let names = event_names("- one\n- two");
    assert!(names.contains(&"sequence-start"));
    assert!(names.contains(&"sequence-end"));
}

#[test]
fn nested_mapping_in_sequence() {
    let input = "- a: 1\n- b: 2";
    let names = event_names(input);
    assert!(names.contains(&"sequence-start"));
    assert!(names.contains(&"mapping-start"));
}

#[test]
fn mod_flow_sequence() {
    let names = event_names("[1, 2, 3]");
    assert!(names.contains(&"sequence-start"));
    assert!(names.contains(&"sequence-end"));
}

#[test]
fn mod_flow_mapping() {
    let names = event_names("{a: 1, b: 2}");
    assert!(names.contains(&"mapping-start"));
    assert!(names.contains(&"mapping-end"));
}

#[test]
fn explicit_document() {
    let events = parse("---\nhello\n...");
    assert!(matches!(
        &events[1],
        EventKind::DocumentStart { explicit: true }
    ));
    assert!(matches!(
        &events[3],
        EventKind::DocumentEnd { explicit: true }
    ));
}

#[test]
fn multi_document() {
    let names = event_names("---\na\n---\nb");
    let doc_starts = names.iter().filter(|&&n| n == "document-start").count();
    assert!(
        doc_starts >= 2,
        "expected at least 2 document starts, got {doc_starts}"
    );
}

#[test]
fn anchor_on_scalar() {
    let events = parse("&anchor hello");
    let scalar = events
        .iter()
        .find(|e| matches!(e, EventKind::Scalar { .. }));
    assert!(matches!(
        scalar,
        Some(EventKind::Scalar { anchor: Some(name), .. }) if name == "anchor"
    ));
}

#[test]
fn alias_event() {
    let events = parse("*ref");
    assert!(
        events
            .iter()
            .any(|e| matches!(e, EventKind::Alias { name } if name == "ref"))
    );
}

#[test]
fn tag_on_scalar() {
    let events = parse("!!str hello");
    let scalar = events
        .iter()
        .find(|e| matches!(e, EventKind::Scalar { .. }));
    assert!(matches!(
        scalar,
        Some(EventKind::Scalar { tag: Some(_), .. })
    ));
}

#[test]
fn depth_limit() {
    let config = ParserConfig {
        limits: ResourceLimits {
            max_depth: 2,
            ..Default::default()
        },
    };
    let input = "[[[1]]]";
    let results = all(Parser::with_config(input, config));
    assert!(
        results.iter().any(|r| r.is_err()),
        "expected depth limit error"
    );
}

#[test]
fn parser_stops_after_error() {
    let config = ParserConfig {
        limits: ResourceLimits {
            max_depth: 1,
            ..Default::default()
        },
    };
    let input = "[[1]]";
    let results = all(Parser::with_config(input, config));
    let errors: Vec<_> = results.iter().filter(|r| r.is_err()).collect();
    assert_eq!(
        errors.len(),
        1,
        "expected exactly one error, got {}",
        errors.len()
    );
}

#[test]
fn stream_start_and_end_always_present() {
    for input in ["hello", "a: 1", "- x", "[1]", "{a: 1}"] {
        let names = event_names(input);
        assert_eq!(
            names.first(),
            Some(&"stream-start"),
            "missing stream-start for: {input}"
        );
        assert_eq!(
            names.last(),
            Some(&"stream-end"),
            "missing stream-end for: {input}"
        );
    }
}

#[test]
fn tagged_scalar_in_block_sequence_entry() {
    let events = parse("- !!str x");
    assert!(matches!(
        events
            .iter()
            .find(|e| matches!(e, EventKind::Scalar { .. })),
        Some(EventKind::Scalar { tag: Some(_), .. })
    ));
}

#[test]
fn tag_on_empty_block_sequence_entry_value() {
    let events = parse("- !!str\n- b");
    assert!(events.iter().any(
        |e| matches!(e, EventKind::Scalar { tag: Some(_), value, .. } if value.is_empty())
    ));
}

#[test]
fn flow_sequence_missing_comma_errors() {
    let err = parse_err("[[a] [b]]");
    match err.kind {
        ErrorKind::UnexpectedToken { expected, .. } => {
            assert!(expected.contains(']'), "got {expected}");
        }
        other => panic!("unexpected: {other:?}"),
    }
}

#[test]
fn flow_mapping_missing_comma_errors() {
    let err = parse_err("{a: [1] b: 2}");
    match err.kind {
        ErrorKind::UnexpectedToken { expected, .. } => {
            assert!(expected.contains('}'), "got {expected}");
        }
        other => panic!("unexpected: {other:?}"),
    }
}
