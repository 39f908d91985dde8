use skald::composer::compose_all;
use skald::cst::document::Document;
use skald::cst::green::GreenChild;
use skald::cst::kind::SyntaxKind;
use skald::cst::red::SyntaxNode;
use skald::emitter::{emit_to_string, EmitterConfig};
use skald::json::Json;
use skald::limits::ResourceLimits;
use skald::lsp::content_length;
use skald::mcp;
use skald::node::{Node, Scalar};
use skald::parser::stream::collect_events;
use skald::parser::EventKind;
use skald::scanner::token::{Token, TokenKind};
use skald::scanner::Scanner;
use skald::schema::coerce::coerce_to_schema;
use skald::schema::model::Schema;
use skald::schema::number::{integer_string, parse_integer};
use skald::types::{Position, ScalarStyle, Span};
use std::borrow::Cow;

/// The tokens of an input up to its end or its first error.
fn tokens(input: &str, trivia: bool) -> Vec<Token<'_>> {
    let mut scanner = Scanner::with_trivia(input, ResourceLimits::default(), trivia);
    let mut out = Vec::new();
    while let Some(Ok(token)) = scanner.next() {
        out.push(token);
    }
    out
}

/// How many tokens each byte belongs to.
fn cover(input: &str) -> Vec<usize> {
    let mut counts = vec![0; input.len()];
    for t in tokens(input, true) {
        for i in t.span.start.offset..t.span.end.offset {
            counts[i] += 1;
        }
    }
    counts
}

#[test]
fn spans_tile_inputs_that_scan_to_the_end() {
    for input in [
        "a: [1, {b: c}]  # end\n",
        "? k\n: v\n",
        "--- |\n  x\n   y\n...\n",
        "%YAML 1.2\n%TAG ! tag:x,2000:\n---\n!t &a 'q'\n",
        "\u{feff}é: \"日本\\n\"\n",
        "\"k\" : v\n",
        "- a\n-\tb\r\n- - c\r",
    ] {
        assert!(cover(input).iter().all(|&n| n == 1), "{input:?}");
    }
}

#[test]
fn spans_are_disjoint_whatever_the_input() {
    for input in ["%FOO bar\n---\na: 1\n", "[a, 'b", "a: [\n", "\t- x", "&", "a: b: c"] {
        assert!(cover(input).iter().all(|&n| n <= 1), "{input:?}");
    }
}

#[test]
fn reserved_directive_has_no_token() {
    let counts = cover("%FOO bar\n--- x\n");
    assert!(counts[..8].iter().all(|&n| n == 0));
    assert!(counts[8..].iter().all(|&n| n == 1));
}

#[test]
fn trivia_changes_no_token() {
    for input in ["a: 1 # c\n\n- x", "[a, b", "x: |\n  y\n", "'u", "{a: b, ? c}", ""] {
        let with: Vec<Token<'_>> = tokens(input, true)
            .into_iter()
            .filter(|t| !t.kind.is_trivia())
            .collect();
        assert_eq!(with, tokens(input, false), "{input:?}");
    }
}

#[test]
fn events_are_balanced() {
    let input = "a:\n- [x, {y: z}, k: v]\n- ? b\n  : c\n--- |\n  t\n";
    let (events, error) = collect_events(input, Default::default());
    assert!(error.is_none());
    let mut open = Vec::new();
    for e in &events {
        match &e.kind {
            EventKind::SequenceStart { .. } => open.push(true),
            EventKind::MappingStart { .. } => open.push(false),
            EventKind::SequenceEnd => assert_eq!(open.pop(), Some(true)),
            EventKind::MappingEnd => assert_eq!(open.pop(), Some(false)),
            EventKind::Scalar { .. } | EventKind::Alias { .. } => {}
            _ => assert!(open.is_empty()),
        }
    }
    assert!(open.is_empty());
    assert_eq!(events[0].kind, EventKind::StreamStart);
    assert_eq!(events[events.len() - 1].kind, EventKind::StreamEnd);
}

#[test]
fn nesting_stays_within_the_depth_limit() {
    let limits = ResourceLimits {
        max_depth: 3,
        ..ResourceLimits::default()
    };
    let config = skald::error::ParserConfig { limits };
    let (events, error) = collect_events("[[[[x]]]]", config);
    assert!(matches!(
        error.unwrap().kind,
        skald::error::ErrorKind::DepthExceeded { limit: 3 }
    ));
    let starts = events
        .iter()
        .filter(|e| matches!(e.kind, EventKind::SequenceStart { .. }))
        .count();
    assert_eq!(starts, 3);
    assert!(collect_events("[[[x]]]", config).1.is_none());
}

#[test]
fn documents_are_lossless_whatever_the_input() {
    for input in [
        "%FOO bar\n---\na: 1\n",
        "a: [1, 2",
        "'unterminated  \n\n",
        "\t\u{0}é\r\n: : :",
        "%",
        "]",
        "a: b: c\n  - x",
    ] {
        assert_eq!(Document::parse(input).to_string(), input, "{input:?}");
    }
}

#[test]
fn reformatting_is_idempotent() {
    for input in [
        "a   ",
        "a: 1  \n\n  b",
        "x: y \t\r\n",
        "# c  \n  # d \n",
        "'open  \n\n",
        "a: b\n  # c\nd: e   ",
        "k: |\n  keep   \n\n",
        "",
    ] {
        let once = Document::parse(input).reformatted();
        assert_eq!(Document::parse(&once).reformatted(), once, "{input:?}");
        assert!(once.is_empty() || once.ends_with('\n'), "{input:?}");
        assert!(!once.ends_with("\n\n"), "{input:?}");
    }
}

#[test]
fn set_of_the_same_text_changes_nothing() {
    let input = "a: 1  # x\nb: [2, 3]\n";
    for path in ["a", "b", "b.1", ""] {
        let mut doc = Document::parse(input);
        let value = doc.get(path).unwrap().to_string();
        doc.set(path, &value).unwrap();
        assert_eq!(doc.to_string(), input, "{path:?}");
    }
}

#[test]
fn set_touches_only_the_value() {
    let mut doc = Document::parse("é: [1, ü, 3]  # c\n");
    doc.set("é.1", "lang").unwrap();
    assert_eq!(doc.to_string(), "é: [1, lang, 3]  # c\n");
}

#[test]
fn children_tile_their_node() {
    let doc = Document::parse("a: é  # c\n");
    let root = doc.root();
    let mut at = 0;
    for child in root.children_with_tokens() {
        let (start, end) = child.text_range();
        assert_eq!(start, at);
        at = end;
    }
    assert_eq!((0, at), root.text_range());
    assert_eq!(at, doc.as_str().len());
}

#[test]
fn lengths_count_bytes() {
    let leaf = GreenChild::token(SyntaxKind::ScalarToken, "é");
    assert_eq!(leaf.text_len(), 2);
    let node = skald::cst::green::GreenNode::new(SyntaxKind::Root, vec![leaf.clone(), leaf]);
    assert_eq!(SyntaxNode::new_root(node).text_range(), (0, 4));
}

fn scalar(value: &str, style: ScalarStyle) -> Node<'_> {
    Node::Scalar(Scalar {
        value: Cow::Borrowed(value),
        tag: None,
        style,
        span: Span::point(Position::start()),
    })
}

#[test]
fn quoted_scalars_round_trip() {
    for value in [
        "",
        "it's",
        " lead and trail ",
        "a \" b \\ c",
        "line\nbreak\r\ttab",
        "\u{0}\u{1}\u{7f}\u{85}\u{a0}",
        "\u{2028}\u{feff}\u{e0001}é日😀",
    ] {
        let out = emit_to_string(&scalar(value, ScalarStyle::DoubleQuoted), &EmitterConfig::default());
        assert_eq!(compose_all(&out).unwrap()[0].as_str(), Some(value), "{out:?}");
    }
    for value in ["", "it's", "''", " a # b: c ", "é日😀"] {
        let out = emit_to_string(&scalar(value, ScalarStyle::SingleQuoted), &EmitterConfig::default());
        assert_eq!(compose_all(&out).unwrap()[0].as_str(), Some(value), "{out:?}");
    }
}

#[test]
fn emitted_documents_end_with_a_newline() {
    for input in ["a", "''", "[]", "{}", "[a, {b: c}]", "a:\n- b\n- c: []\n", "k: |\n  x\n", "? [a]\n: b\n"] {
        let node = &compose_all(input).unwrap()[0];
        for explicit_document in [false, true] {
            let config = EmitterConfig {
                explicit_document,
                ..EmitterConfig::default()
            };
            assert!(emit_to_string(node, &config).ends_with('\n'), "{input:?}");
        }
    }
}

#[test]
fn integer_texts_denote_their_integers() {
    for i in [0, 7, -1, 1234567890, i64::MAX, i64::MIN] {
        assert_eq!(integer_string(i), i.to_string());
        assert_eq!(parse_integer(&integer_string(i)), Some(i));
    }
}

#[test]
fn coercion_of_a_coerced_document_changes_nothing() {
    let schema = Schema::from_node(
        &compose_all(
            "properties: {a: {type: integer}, b: {type: string}, c: {type: boolean}, d: {type: number}}",
        )
        .unwrap()[0],
    );
    let mut doc = Document::parse("a: \"007\"\nb: 12\nc: TRUE\nd: '1e3'\n");
    let changes = coerce_to_schema(&mut doc, &schema);
    assert_eq!(changes.len(), 4);
    assert_eq!(doc.to_string(), "a: 7\nb: \"12\"\nc: true\nd: 1e3\n");
    assert!(coerce_to_schema(&mut doc, &schema).is_empty());
}

#[test]
fn frames_announce_their_length() {
    for body in ["", "{}", "\"é\"", "0123456789"] {
        let framed = skald::lsp::frame(body);
        let header = &framed[..framed.len() - body.len()];
        assert_eq!(content_length(header), body.len());
    }
}

#[test]
fn framed_json_is_one_line() {
    let value = Json::Array(vec![
        Json::text("a\nb\r\u{1}"),
        Json::number(3),
        Json::object().with("k\n", Json::Null),
    ]);
    let framed = mcp::frame(&value.to_string());
    assert_eq!(framed.matches('\n').count(), 1);
    assert!(framed.ends_with('\n'));
}

#[test]
fn scanner_is_fused_after_an_error() {
    let mut scanner = Scanner::new("a: 'x");
    let mut errors = 0;
    for _ in 0..20 {
        if let Some(Err(_)) = scanner.next() {
            errors += 1;
        }
    }
    assert_eq!(errors, 1);
    assert!(scanner.next().is_none());
}

#[test]
fn first_token_is_the_stream_start() {
    for input in ["", "a", "'", "\u{feff}x"] {
        assert_eq!(tokens(input, false)[0].kind, TokenKind::StreamStart);
    }
}

#[test]
fn stream_end_comes_once_and_last() {
    for input in ["", "a: 1\n", "[x, {y: z}]\n", "--- a\n--- b\n...\n", "%FOO bar\n---\n"] {
        let all = tokens(input, false);
        assert_eq!(all[0].kind, TokenKind::StreamStart);
        let ends = all.iter().filter(|t| t.kind == TokenKind::StreamEnd).count();
        assert_eq!(ends, 1, "{input:?}");
        assert_eq!(all.last().unwrap().kind, TokenKind::StreamEnd);
        let mut scanner = Scanner::new(input);
        while scanner.next_token().is_some() {}
        assert!(scanner.next_token().is_none());
    }
    let mut failed = Scanner::new("'a");
    while let Some(Ok(_)) = failed.next_token() {}
    assert!(failed.next_token().is_none());
    assert!(failed.next_token().is_none());
}

#[test]
fn tokens_and_trivia_each_come_in_order() {
    for input in ["a: 1 # x\nb:\n  - c\n", "\"k\" : v\n", "? k # c\n: v\n", "{a : b, c}\n"] {
        let trivia = |t: &Token<'_>| {
            matches!(
                t.kind,
                TokenKind::Comment(_) | TokenKind::Whitespace(_) | TokenKind::LineBreak(_)
            )
        };
        for class in [true, false] {
            let mut end = 0;
            for t in tokens(input, true) {
                if trivia(&t) == class && t.span.start.offset < t.span.end.offset {
                    assert!(end <= t.span.start.offset, "{input:?}");
                    end = t.span.end.offset;
                }
            }
        }
    }
    let starts: Vec<usize> = tokens("\"k\" : v\n", true)
        .iter()
        .filter(|t| t.span.start.offset < t.span.end.offset)
        .map(|t| t.span.start.offset)
        .collect();
    assert_eq!(starts[0], 3);
}

#[test]
fn document_size_is_limited() {
    let input = "a: 1\nb: 2\n";
    for size in 0..=input.len() + 1 {
        let mut limits = ResourceLimits::default();
        limits.max_document_size = size;
        let mut scanner = Scanner::with_limits(input, limits);
        let mut failed = false;
        let mut ended = false;
        while let Some(item) = scanner.next_token() {
            match item {
                Ok(t) => ended = t.kind == TokenKind::StreamEnd,
                Err(_) => failed = true,
            }
        }
        assert_eq!(failed, input.len() > size);
        assert_eq!(ended, input.len() <= size);
    }
}

#[test]
fn chomping_changes_only_final_line_feeds() {
    let value = |input: &str| {
        tokens(input, false).into_iter().find_map(|t| match t.kind {
            TokenKind::Scalar { value, .. } => Some(value.into_owned()),
            _ => None,
        })
    };
    for body in ["\n  a\n  b\n\n\n", "\n a\n", "\n\n", "\n  x", "\n  a\n   b\n\n  c\n"] {
        for mark in ["|", ">"] {
            let strip = value(&format!("{mark}-{body}")).unwrap();
            let clip = value(&format!("{mark}{body}")).unwrap();
            let keep = value(&format!("{mark}+{body}")).unwrap();
            assert!(!strip.ends_with('\n'));
            if strip.is_empty() {
                assert_eq!(clip, "");
            } else {
                assert_eq!(clip, format!("{strip}\n"));
            }
            assert_eq!(keep.trim_end_matches('\n'), strip);
        }
    }
}

#[test]
fn mappings_hold_pairs_and_documents_one_root() {
    for input in ["a:\n? b\n: c\n", "{a, b: , : c}\n", "[a: 1, ? b]\n", "--- x\n---\n", "- - a\n"] {
        let (events, error) = collect_events(input, Default::default());
        assert!(error.is_none(), "{input:?}");
        let mut counts = vec![(false, 0)];
        for e in &events {
            match &e.kind {
                EventKind::DocumentStart { .. } => counts.push((false, 0)),
                EventKind::DocumentEnd { .. } => assert_eq!(counts.pop(), Some((false, 1))),
                EventKind::Scalar { .. } | EventKind::Alias { .. } => {
                    counts.last_mut().unwrap().1 += 1;
                }
                EventKind::SequenceStart { .. } => {
                    counts.last_mut().unwrap().1 += 1;
                    counts.push((false, 0));
                }
                EventKind::MappingStart { .. } => {
                    counts.last_mut().unwrap().1 += 1;
                    counts.push((true, 0));
                }
                EventKind::MappingEnd => {
                    let (mapping, n) = counts.pop().unwrap();
                    assert!(mapping && n % 2 == 0, "{input:?}");
                }
                EventKind::SequenceEnd => assert!(!counts.pop().unwrap().0),
                _ => {}
            }
        }
        assert_eq!(counts, vec![(false, 0)]);
    }
}

#[test]
fn double_quoted_text_alone_is_one_printable_scalar() {
    for text in ["", "a\nb\t\u{1b}", "\u{0}\u{7f}\u{9f}", "\u{2028}\u{feff}\u{e0001}", "é \"x\" \\"] {
        let node = Node::Scalar(Scalar {
            value: Cow::Borrowed(text),
            tag: None,
            style: ScalarStyle::DoubleQuoted,
            span: Span::point(Position::start()),
        });
        let out = emit_to_string(&node, &EmitterConfig::default());
        let written = out.trim_end_matches('\n');
        assert!(!written.chars().any(char::is_control));
        let kinds: Vec<TokenKind<'_>> = tokens(written, false).into_iter().map(|t| t.kind).collect();
        assert_eq!(
            kinds,
            vec![
                TokenKind::StreamStart,
                TokenKind::Scalar {
                    value: Cow::Borrowed(text),
                    style: ScalarStyle::DoubleQuoted,
                },
                TokenKind::StreamEnd,
            ]
        );
    }
}

#[test]
fn second_coercion_changes_nothing() {
    let schema = Schema::from_node(
        &compose_all("properties:\n  a:\n    type: integer\n  b:\n    type: [boolean, string]\n")
            .unwrap()
            .remove(0),
    );
    let mut doc = Document::parse("a: \"042\" # x\nb: null\n");
    assert_eq!(coerce_to_schema(&mut doc, &schema).len(), 2);
    assert_eq!(doc.to_string(), "a: 42 # x\nb: \"null\"\n");
    assert!(coerce_to_schema(&mut doc, &schema).is_empty());
}

/// A node in another style and place holds the same.
fn same_content(a: &Node<'_>, b: &Node<'_>) -> bool {
    match (a, b) {
        (Node::Scalar(x), Node::Scalar(y)) => x.value == y.value,
        (Node::Sequence(x), Node::Sequence(y)) => {
            x.items.len() == y.items.len()
                && x.items.iter().zip(&y.items).all(|(i, j)| same_content(i, j))
        }
        (Node::Mapping(x), Node::Mapping(y)) => {
            x.entries.len() == y.entries.len()
                && x.entries
                    .iter()
                    .zip(&y.entries)
                    .all(|(i, j)| same_content(&i.0, &j.0) && same_content(&i.1, &j.1))
        }
        _ => false,
    }
}

#[test]
fn emitted_nodes_are_read_back() {
    for source in [
        "\"a\"",
        "'it''s'",
        "\"k\": \"v\"\n'l':\n  - \"x\"\n  - \"m\": []\n    \"n\": {}\n",
        "- - \"a\"\n  - \"b\": [\"c\", {\"d\": 'e', \"f\": []}]\n- {}\n- \"\\n\\t\\u2028\"\n",
        "[[], {\"a\": {\"b\": [\"c\"]}}]",
        "\"a\":\n  \"b\":\n    \"c\":\n      - \"d\"\n\"e\": \"f\"\n",
        "plain words here",
        "a key: some value\nb:\n  - one\n  - two: {x1: y z, q: [1, 2.5]}\nc: d\n",
        "- - deep er\n  - er\n- last/one\n",
    ] {
        let node = compose_all(source).unwrap().remove(0);
        for explicit_document in [false, true] {
            let config = EmitterConfig { explicit_document, ..EmitterConfig::default() };
            let text = emit_to_string(&node, &config);
            let back = compose_all(&text).unwrap();
            assert_eq!(text.starts_with("---"), explicit_document);
            assert_eq!(back.len(), 1, "{text:?}");
            assert!(same_content(&node, &back[0]), "{text:?}");
        }
    }
}

#[test]
fn reformatting_keeps_the_documents() {
    for source in [
        "a:\n  b: 1   \n  d: 2\t\n",
        "a: x  \n  y \n  # c  \nb: |\n  keep  \n   \n  me\nc: \"q  \n  r\"\n",
        "%YAML 1.2  \n---\na: 1\n...  \n# end \n",
        "- [a,   \n  b]\n- {c: d}   # e  \n",
        "\t\n- x\n",
    ] {
        let out = Document::parse(source).reformatted();
        if let Ok(before) = compose_all(source) {
            let after = compose_all(&out).unwrap();
            assert_eq!(before.len(), after.len());
            for (x, y) in before.iter().zip(&after) {
                assert!(same_content(x, y), "{out:?}");
            }
        }
    }
}


#[test]
fn trivia_comes_early_in_front_of_a_colon_only() {
    let starts = |source: &'static str| -> Vec<usize> {
        tokens(source, true)
            .iter()
            .filter(|t| t.span.start.offset < t.span.end.offset)
            .map(|t| t.span.start.offset as usize)
            .collect()
    };
    for source in ["a: b # c\n", "- [x, 'y']\n\n# z\n- k: v\n  l:\n    m\n", "--- # d\ne\n...\n"] {
        let found = starts(source);
        assert!(found.windows(2).all(|w| w[0] <= w[1]), "{source:?} {found:?}");
    }
    // The space in front of the colon comes before the key.
    assert_eq!(starts("\"k\" : v\n")[..2], [3, 0]);
}
