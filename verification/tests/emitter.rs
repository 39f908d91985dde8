use skald::composer::compose_all;
use skald::emitter::{emit_to_string, EmitterConfig};
use skald::node::{Mapping, Node, Scalar, Sequence};
use skald::types::{CollectionStyle, Position, ScalarStyle, Span, Tag};

fn roundtrip(input: &str) -> String {
    let nodes = compose_all(input).unwrap();
    assert!(!nodes.is_empty(), "no documents parsed from: {input:?}");
    emit_to_string(&nodes[0], &EmitterConfig::default())
}

fn roundtrip_eq(input: &str) {
    let yaml = roundtrip(input);
    let reparsed = compose_all(&yaml).unwrap();
    let original = compose_all(input).unwrap();
    assert_eq!(
        original.len(),
        reparsed.len(),
        "document count mismatch for input: {input:?}\nemitted: {yaml:?}"
    );
    for (i, (o, r)) in original.iter().zip(reparsed.iter()).enumerate() {
        assert_eq!(
            node_semantic(o),
            node_semantic(r),
            "document {i} mismatch for input: {input:?}\nemitted: {yaml:?}"
        );
    }
}

/// Strips spans/styles for semantic comparison.
fn node_semantic(node: &Node<'_>) -> String {
    match node {
        Node::Scalar(s) => format!("S({:?})", &*s.value),
        Node::Sequence(s) => {
            let items: Vec<String> = s.items.iter().map(node_semantic).collect();
            format!("[{}]", items.join(", "))
        }
        Node::Mapping(m) => {
            let entries: Vec<String> = m
                .entries
                .iter()
                .map(|(k, v)| format!("{}: {}", node_semantic(k), node_semantic(v)))
                .collect();
            format!("{{{}}}", entries.join(", "))
        }
    }
}

#[test]
fn emit_plain_scalar() {
    assert_eq!(roundtrip("hello"), "hello\n");
}

#[test]
fn emit_config_defaults() {
    let config = EmitterConfig::default();
    assert_eq!(config.indent, 2);
    assert_eq!(config.line_width, 80);
    assert!(config.prefer_block);
    assert!(!config.sort_keys);
    assert!(!config.explicit_document);
}

#[test]
fn emit_double_quoted_scalar() {
    assert_eq!(roundtrip("\"hello world\""), "\"hello world\"\n");
}

#[test]
fn emit_single_quoted_scalar() {
    assert_eq!(roundtrip("'hello world'"), "'hello world'\n");
}

#[test]
fn emit_plain_scalar_null() {
    assert_eq!(roundtrip("null"), "null\n");
}

#[test]
fn emit_plain_scalar_bool() {
    for val in ["true", "false"] {
        assert_eq!(roundtrip(val), format!("{val}\n"));
    }
}

#[test]
fn emit_scalar_needs_quoting_colon_space() {
    roundtrip_eq("'key: value'");
}

#[test]
fn emit_scalar_needs_quoting_hash() {
    roundtrip_eq("'has # comment'");
}

#[test]
fn emit_scalar_empty_string() {
    roundtrip_eq("''");
}

#[test]
fn emit_double_quoted_escapes() {
    roundtrip_eq("\"line1\\nline2\"");
}

#[test]
fn emit_literal_block_scalar() {
    let input = "|\n  line1\n  line2\n";
    roundtrip_eq(input);
}

#[test]
fn emit_folded_block_scalar() {
    let input = ">\n  line1\n  line2\n";
    roundtrip_eq(input);
}

#[test]
fn emit_block_mapping_simple() {
    roundtrip_eq("key: value");
}

#[test]
fn emit_block_mapping_multi() {
    roundtrip_eq("a: 1\nb: 2\nc: 3");
}

#[test]
fn emit_block_sequence_simple() {
    roundtrip_eq("- a\n- b\n- c");
}

#[test]
fn emit_nested_mapping_in_sequence() {
    roundtrip_eq("- key: value\n  other: stuff");
}

#[test]
fn emit_nested_sequence_in_mapping() {
    roundtrip_eq("items:\n- a\n- b");
}

#[test]
fn emit_deeply_nested() {
    roundtrip_eq("a:\n  b:\n    c: deep");
}

#[test]
fn emit_sort_keys() {
    let nodes = compose_all("c: 3\na: 1\nb: 2").unwrap();
    let config = EmitterConfig {
        sort_keys: true,
        ..EmitterConfig::default()
    };
    let yaml = emit_to_string(&nodes[0], &config);
    assert!(yaml.starts_with("a: "), "keys should be sorted: {yaml:?}");
}

#[test]
fn emit_empty_mapping() {
    assert_eq!(roundtrip("{}"), "{}\n");
}

#[test]
fn emit_empty_sequence() {
    assert_eq!(roundtrip("[]"), "[]\n");
}

#[test]
fn emit_flow_sequence() {
    roundtrip_eq("[1, 2, 3]");
}

#[test]
fn emit_flow_mapping() {
    roundtrip_eq("{a: 1, b: 2}");
}

#[test]
fn emit_flow_nested() {
    roundtrip_eq("[{a: 1}, {b: 2}]");
}

#[test]
fn emit_explicit_document() {
    let nodes = compose_all("hello").unwrap();
    let config = EmitterConfig {
        explicit_document: true,
        ..EmitterConfig::default()
    };
    let yaml = emit_to_string(&nodes[0], &config);
    assert!(yaml.starts_with("---\n"), "should start with ---: {yaml:?}");
    assert!(yaml.ends_with("...\n"), "should end with ...: {yaml:?}");
}

#[test]
fn emit_tagged_scalar() {
    roundtrip_eq("!!str hello");
}

#[test]
fn roundtrip_complex() {
    roundtrip_eq(
        "database:\n  host: localhost\n  port: 5432\n  names:\n  - primary\n  - replica",
    );
}

#[test]
fn roundtrip_mixed_styles() {
    roundtrip_eq("block:\n- {flow: mapping}\n- [flow, sequence]");
}

#[test]
fn roundtrip_special_values() {
    roundtrip_eq("- 'null'\n- 'true'\n- 'false'\n- '42'\n- '3.14'");
}

fn synth_span() -> Span {
    Span::point(Position::start())
}

fn make_scalar(value: &str, style: ScalarStyle) -> Node<'static> {
    Node::Scalar(Scalar {
        value: std::borrow::Cow::Owned(value.to_string()),
        tag: None,
        style,
        span: synth_span(),
    })
}

fn emit_node_to_string(node: &Node<'_>) -> String {
    emit_to_string(node, &EmitterConfig::default())
}

#[test]
fn single_quoted_escapes_embedded_apostrophe() {
    let node = make_scalar("it's", ScalarStyle::SingleQuoted);
    let out = emit_node_to_string(&node);
    assert!(out.contains("'it''s'"), "got: {out}");
}

#[test]
fn double_quoted_escapes_backslash_and_quote() {
    let node = make_scalar(r#"a"b\c"#, ScalarStyle::DoubleQuoted);
    let out = emit_node_to_string(&node);
    assert!(out.contains(r#"a\"b\\c"#), "got: {out}");
}

#[test]
fn double_quoted_escapes_common_control_chars() {
    for (raw, expected_seq) in [
        ('\n', "\\n"),
        ('\r', "\\r"),
        ('\t', "\\t"),
        ('\0', "\\0"),
        ('\x07', "\\a"),
        ('\x08', "\\b"),
        ('\x0B', "\\v"),
        ('\x0C', "\\f"),
        ('\x1B', "\\e"),
    ] {
        let s = format!("x{raw}y");
        let node = make_scalar(&s, ScalarStyle::DoubleQuoted);
        let out = emit_node_to_string(&node);
        assert!(
            out.contains(expected_seq),
            "char {raw:?} should produce {expected_seq:?} in output, got: {out}"
        );
    }
}

#[test]
fn double_quoted_escapes_low_byte_control_char() {
    let s = format!("a{}b", '\x01');
    let node = make_scalar(&s, ScalarStyle::DoubleQuoted);
    let out = emit_node_to_string(&node);
    assert!(out.contains("\\x01"), "got: {out}");
}

#[test]
fn double_quoted_escapes_basic_multilingual_plane_control() {
    let s = format!("a{}b", '\u{2028}');
    let node = make_scalar(&s, ScalarStyle::DoubleQuoted);
    let out = emit_node_to_string(&node);
    assert!(
        out.to_uppercase().contains("\\U2028"),
        "expected \\u2028, got: {out}"
    );
}

#[test]
fn double_quoted_escapes_paragraph_separator() {
    let s = format!("a{}b", '\u{2029}');
    let out = emit_node_to_string(&make_scalar(&s, ScalarStyle::DoubleQuoted));
    assert!(out.to_uppercase().contains("\\U2029"), "got: {out}");
}

#[test]
fn double_quoted_escapes_high_unicode_control() {
    let s = format!("a{}b", '\u{E0001}');
    let node = make_scalar(&s, ScalarStyle::DoubleQuoted);
    let out = emit_node_to_string(&node);
    assert!(
        out.to_uppercase().contains("\\U000E0001"),
        "expected \\U000E0001 form, got: {out}"
    );
}

#[test]
fn double_quoted_separators_round_trip() {
    let original = "x\u{2028}\u{2029}\u{200B}y";
    let emitted = emit_node_to_string(&make_scalar(original, ScalarStyle::DoubleQuoted));
    assert!(
        !emitted.contains('\u{2028}') && !emitted.contains('\u{2029}'),
        "raw separator leaked into emitted output: {emitted:?}"
    );
    let reparsed = compose_all(&emitted).unwrap();
    match &reparsed[0] {
        Node::Scalar(s) => assert_eq!(s.value.as_ref(), original),
        other => panic!("expected scalar, got {other:?}"),
    }
}

#[test]
fn tagged_collection_emits_tag_then_newline() {
    let inner_scalar = make_scalar("v", ScalarStyle::Plain);
    let tagged_sequence = Node::Sequence(Sequence {
        items: vec![inner_scalar],
        tag: Some(Tag {
            value: std::borrow::Cow::Borrowed("!mytag"),
            span: synth_span(),
        }),
        style: CollectionStyle::Block,
        span: synth_span(),
    });
    let out = emit_node_to_string(&tagged_sequence);
    assert!(out.contains("!mytag"), "tag should be emitted: {out}");
    assert!(out.contains("- v"), "items should follow: {out}");
    let tag_pos = out.find("!mytag").unwrap();
    let item_pos = out.find("- v").unwrap();
    assert!(tag_pos < item_pos, "tag should precede items");
}

#[test]
fn full_uri_tag_uses_angle_bracket_form() {
    let scalar = Node::Scalar(Scalar {
        value: std::borrow::Cow::Borrowed("x"),
        tag: Some(Tag {
            value: std::borrow::Cow::Borrowed("tag:example.com,2024:Custom"),
            span: synth_span(),
        }),
        style: ScalarStyle::Plain,
        span: synth_span(),
    });
    let out = emit_node_to_string(&scalar);
    assert!(
        out.contains("!<tag:example.com,2024:Custom>"),
        "expected wrapped form, got: {out}"
    );
}

#[test]
fn block_scalar_single_line_falls_back_to_double_quoted() {
    let node = make_scalar("oneline", ScalarStyle::Literal);
    let out = emit_node_to_string(&node);
    assert_eq!(out, "\"oneline\"\n", "got: {out}");
}

#[test]
fn block_scalar_keep_chomp_indicator() {
    let node = make_scalar("a\nb\n\n", ScalarStyle::Literal);
    let out = emit_node_to_string(&node);
    assert!(
        out.starts_with("|+\n"),
        "expected keep chomp header: {out:?}"
    );
}

#[test]
fn block_scalar_strip_chomp_indicator() {
    let node = make_scalar("a\nb", ScalarStyle::Literal);
    let out = emit_node_to_string(&node);
    assert!(
        out.starts_with("|-\n"),
        "expected strip chomp header: {out:?}"
    );
}

#[test]
fn block_scalar_clip_chomp_no_indicator() {
    let node = make_scalar("a\nb\n", ScalarStyle::Folded);
    let out = emit_node_to_string(&node);
    assert!(
        out.starts_with(">\n"),
        "expected clip chomp header: {out:?}"
    );
}

#[test]
fn nested_block_sequence_in_block_sequence_inline() {
    let inner = Node::Sequence(Sequence {
        items: vec![
            make_scalar("x", ScalarStyle::Plain),
            make_scalar("y", ScalarStyle::Plain),
        ],
        tag: None,
        style: CollectionStyle::Block,
        span: synth_span(),
    });
    let outer = Node::Sequence(Sequence {
        items: vec![inner],
        tag: None,
        style: CollectionStyle::Block,
        span: synth_span(),
    });
    let out = emit_node_to_string(&outer);
    let reparsed = compose_all(&out).unwrap();
    assert_eq!(
        node_semantic(&outer),
        node_semantic(&reparsed[0]),
        "out: {out}"
    );
}

#[test]
fn empty_block_sequence_emits_flow_brackets() {
    let node = Node::Sequence(Sequence {
        items: vec![],
        tag: None,
        style: CollectionStyle::Block,
        span: synth_span(),
    });
    let out = emit_node_to_string(&node);
    assert_eq!(out, "[]\n", "got: {out}");
}

#[test]
fn empty_block_mapping_emits_flow_braces() {
    let node = Node::Mapping(Mapping {
        entries: vec![],
        tag: None,
        style: CollectionStyle::Block,
        span: synth_span(),
    });
    let out = emit_node_to_string(&node);
    assert_eq!(out, "{}\n", "got: {out}");
}

#[test]
fn tracking_writer_records_final_newline() {
    let node = make_scalar("hello", ScalarStyle::Plain);
    let out = emit_node_to_string(&node);
    assert!(
        out.ends_with('\n'),
        "output should end with newline: {out:?}"
    );
}
