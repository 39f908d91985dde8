use skald::error::{Error, ErrorKind};
use skald::limits::ResourceLimits;
use skald::scanner::token::{Token, TokenKind};
use skald::scanner::Scanner;
use skald::types::ScalarStyle;

fn all<'a>(mut scanner: Scanner<'a>) -> Vec<Result<Token<'a>, Error>> {
    let mut out = Vec::new();
    while let Some(r) = scanner.next() {
        out.push(r);
    }
    out
}

fn scan(input: &str) -> Vec<TokenKind<'_>> {
    all(Scanner::new(input))
        .into_iter()
        .map(|r| r.expect("scan error").kind)
        .collect()
}

fn scan_err(input: &str) -> Error {
    all(Scanner::new(input))
        .into_iter()
        .find_map(|r| r.err())
        .expect("expected error")
}

#[test]
fn empty_stream() {
    let tokens = scan("");
    assert_eq!(tokens, vec![TokenKind::StreamStart, TokenKind::StreamEnd]);
}

#[test]
fn comment_indicator_in_flow_is_error_not_infinite_loop() {
    for input in ["[#]", "{#}", "[# x]", "- [#]\n"] {
        let err = scan_err(input);
        assert!(
            matches!(err.kind, ErrorKind::UnexpectedToken { .. }),
            "expected UnexpectedToken for {input:?}, got {:?}",
            err.kind
        );
    }
}

#[test]
fn utf8_bom_skipped() {
    let input = "\u{FEFF}hello";
    let tokens = scan(input);
    assert!(matches!(tokens[0], TokenKind::StreamStart));
    assert!(matches!(tokens[1], TokenKind::Scalar { .. }));
}

#[test]
fn plain_scalar() {
    let tokens = scan("hello");
    assert!(matches!(
        &tokens[1],
        TokenKind::Scalar {
            value,
            style: ScalarStyle::Plain
        } if value == "hello"
    ));
}

#[test]
fn single_quoted_scalar() {
    let tokens = scan("'hello world'");
    assert!(matches!(
        &tokens[1],
        TokenKind::Scalar {
            value,
            style: ScalarStyle::SingleQuoted
        } if value == "hello world"
    ));
}

#[test]
fn single_quoted_escape() {
    let tokens = scan("'it''s'");
    assert!(matches!(
        &tokens[1],
        TokenKind::Scalar {
            value,
            style: ScalarStyle::SingleQuoted
        } if value == "it's"
    ));
}

#[test]
fn double_quoted_scalar() {
    let tokens = scan(r#""hello\nworld""#);
    assert!(matches!(
        &tokens[1],
        TokenKind::Scalar {
            value,
            style: ScalarStyle::DoubleQuoted
        } if value == "hello\nworld"
    ));
}

#[test]
fn double_quoted_unicode_escape() {
    let tokens = scan(r#""\u0041""#);
    assert!(matches!(
        &tokens[1],
        TokenKind::Scalar {
            value,
            style: ScalarStyle::DoubleQuoted
        } if value == "A"
    ));
}

#[test]
fn block_mapping() {
    let tokens = scan("key: value");
    let names: Vec<&str> = tokens.iter().map(|t| t.name()).collect();
    assert!(names.contains(&"block-mapping-start"));
    assert!(names.contains(&"key"));
    assert!(names.contains(&"value"));
}

#[test]
fn block_sequence() {
    let tokens = scan("- one\n- two");
    let names: Vec<&str> = tokens.iter().map(|t| t.name()).collect();
    assert!(names.contains(&"block-sequence-start"));
    assert!(names.contains(&"block-entry"));
}

#[test]
fn flow_sequence() {
    let tokens = scan("[1, 2, 3]");
    let names: Vec<&str> = tokens.iter().map(|t| t.name()).collect();
    assert!(names.contains(&"flow-sequence-start"));
    assert!(names.contains(&"flow-entry"));
    assert!(names.contains(&"flow-sequence-end"));
}

#[test]
fn flow_mapping() {
    let tokens = scan("{a: 1}");
    let names: Vec<&str> = tokens.iter().map(|t| t.name()).collect();
    assert!(names.contains(&"flow-mapping-start"));
    assert!(names.contains(&"flow-mapping-end"));
}

#[test]
fn anchor_and_alias() {
    let tokens = scan("&anchor value");
    assert!(matches!(&tokens[1], TokenKind::Anchor(name) if name == "anchor"));

    let tokens = scan("*alias");
    assert!(matches!(&tokens[1], TokenKind::Alias(name) if name == "alias"));
}

#[test]
fn tag() {
    let tokens = scan("!!str hello");
    assert!(matches!(
        &tokens[1],
        TokenKind::Tag { handle, suffix } if handle == "!!" && suffix == "str"
    ));
}

#[test]
fn document_indicators() {
    let tokens = scan("---\nhello\n...");
    let names: Vec<&str> = tokens.iter().map(|t| t.name()).collect();
    assert!(names.contains(&"document-start"));
    assert!(names.contains(&"document-end"));
}

#[test]
fn literal_block_scalar() {
    let tokens = scan("|\n  hello\n  world");
    assert!(matches!(
        &tokens[1],
        TokenKind::Scalar {
            style: ScalarStyle::Literal,
            ..
        }
    ));
}

#[test]
fn version_directive() {
    let tokens = scan("%YAML 1.2\n---");
    assert!(matches!(
        &tokens[1],
        TokenKind::VersionDirective { major: 1, minor: 2 }
    ));
}

#[test]
fn empty_anchor_error() {
    let err = scan_err("&");
    assert!(matches!(err.kind, ErrorKind::InvalidAnchor(_)));
}

#[test]
fn trivia_iterator_is_fused_after_error() {
    let mut s = Scanner::with_trivia("&", ResourceLimits::default(), true);
    let mut saw_err = false;
    for _ in 0..8 {
        match s.next_with_trivia() {
            Some(Err(_)) => {
                saw_err = true;
                break;
            }
            Some(Ok(_)) => {}
            None => break,
        }
    }
    assert!(saw_err, "expected a scan error from a bare anchor");
    assert!(
        s.next_with_trivia().is_none(),
        "errored trivia iterator must be fused to None"
    );
}

#[test]
fn unterminated_single_quote_error() {
    let err = scan_err("'hello");
    assert!(matches!(err.kind, ErrorKind::UnexpectedEof));
}

#[test]
fn unterminated_double_quote_error() {
    let err = scan_err("\"hello");
    assert!(matches!(err.kind, ErrorKind::UnexpectedEof));
}

#[test]
fn invalid_escape_error() {
    let err = scan_err("\"\\z\"");
    assert!(matches!(err.kind, ErrorKind::InvalidEscape('z')));
}

#[test]
fn document_size_limit() {
    let limits = ResourceLimits {
        max_document_size: 5,
        ..ResourceLimits::default()
    };
    let result = all(Scanner::with_limits("hello world", limits));
    let has_error = result.iter().any(|r| r.is_err());
    assert!(has_error, "expected document size error");
}

#[test]
fn all_tokens_have_spans() {
    let input = "key: [1, 2]";
    for result in all(Scanner::new(input)) {
        let token = result.expect("scan error");
        assert!(token.span.start.line >= 1);
    }
}

/// Returns the value of the first Scalar token in the stream.
fn first_scalar(input: &str) -> String {
    for kind in scan(input) {
        if let TokenKind::Scalar { value, .. } = kind {
            return value.into_owned();
        }
    }
    panic!("no scalar token in {input:?}");
}

#[test]
fn double_quoted_named_escapes() {
    assert_eq!(first_scalar(r#""\0""#), "\0");
    assert_eq!(first_scalar(r#""\a""#), "\u{07}");
    assert_eq!(first_scalar(r#""\b""#), "\u{08}");
    assert_eq!(first_scalar(r#""\t""#), "\t");
    assert_eq!(first_scalar(r#""\n""#), "\n");
    assert_eq!(first_scalar(r#""\v""#), "\u{0B}");
    assert_eq!(first_scalar(r#""\f""#), "\u{0C}");
    assert_eq!(first_scalar(r#""\r""#), "\r");
    assert_eq!(first_scalar(r#""\e""#), "\u{1B}");
    assert_eq!(first_scalar(r#""\ ""#), " ");
    assert_eq!(first_scalar(r#""\"""#), "\"");
    assert_eq!(first_scalar(r#""\/""#), "/");
    assert_eq!(first_scalar(r#""\\""#), "\\");
    assert_eq!(first_scalar(r#""\N""#), "\u{85}");
    assert_eq!(first_scalar(r#""\_""#), "\u{A0}");
    assert_eq!(first_scalar(r#""\L""#), "\u{2028}");
    assert_eq!(first_scalar(r#""\P""#), "\u{2029}");
}

#[test]
fn double_quoted_hex_escapes() {
    assert_eq!(first_scalar(r#""\x41""#), "A");
    assert_eq!(first_scalar(r#""é""#), "\u{e9}");
    assert_eq!(first_scalar(r#""\U0001F600""#), "\u{1F600}");
}

#[test]
fn double_quoted_backslash_at_eof_errors() {
    let err = scan_err("\"abc\\");
    assert_eq!(err.kind, ErrorKind::UnexpectedEof);
}

#[test]
fn double_quoted_invalid_hex_escape_errors() {
    let err = scan_err(r#""\xZZ""#);
    assert!(matches!(err.kind, ErrorKind::InvalidEscape(_)));
}

#[test]
fn double_quoted_surrogate_codepoint_errors() {
    let err = scan_err(r#""\uD800""#);
    assert!(matches!(err.kind, ErrorKind::InvalidEscape(_)));
}

#[test]
fn single_quoted_with_doubled_apostrophe_is_owned() {
    assert_eq!(first_scalar("'it''s here'"), "it's here");
}

#[test]
fn tag_uri_percent_escapes_use_hex_nibble() {
    let tokens = scan("!<tag:%2c%2C>");
    assert!(
        tokens.iter().any(|k| matches!(k, TokenKind::Tag { .. })),
        "expected a tag token: {tokens:?}"
    );
}

#[test]
fn tag_uri_incomplete_percent_escape() {
    let tokens = scan("!<a%zz>");
    assert!(tokens.iter().any(|k| matches!(k, TokenKind::Tag { .. })));
}

#[test]
fn block_entry_on_document_start_line_errors() {
    let err = scan_err("--- - x");
    assert!(matches!(err.kind, ErrorKind::UnexpectedToken { .. }));
}

#[test]
fn block_mapping_on_document_start_line_errors() {
    let err = scan_err("--- a: 1");
    assert!(matches!(err.kind, ErrorKind::UnexpectedToken { .. }));
}

#[test]
fn explicit_key_indicator_scans() {
    let tokens = scan("? a\n: b");
    assert!(tokens.iter().any(|k| matches!(k, TokenKind::Key)));
    assert!(tokens.iter().any(|k| matches!(k, TokenKind::Value)));
}

#[test]
fn crlf_line_endings_scan() {
    let tokens = scan("a: 1\r\nb: 2\r\n");
    assert!(
        tokens
            .iter()
            .filter(|k| matches!(k, TokenKind::Key))
            .count()
            >= 2
    );
}

#[test]
fn lone_cr_line_ending_scans() {
    let tokens = scan("a: 1\rb: 2\r");
    assert!(tokens.iter().any(|k| matches!(k, TokenKind::Key)));
}

#[test]
fn block_scalar_with_crlf_blank_lines() {
    let v = first_scalar("|\r\n\r\n  text\r\n");
    assert!(v.contains("text"), "got {v:?}");
}

#[test]
fn multibyte_utf8_in_plain_scalar() {
    assert_eq!(first_scalar("\"é\\n€\""), "é\n€");
    assert_eq!(first_scalar("\"😀\\nx\""), "😀\nx");
}

#[test]
fn flow_mapping_colon_at_eof() {
    let tokens = scan("{a:");
    assert!(tokens.iter().any(|k| matches!(k, TokenKind::Value)));
}

#[test]
fn standalone_tab_then_colon_does_not_panic() {
    let _ = all(Scanner::new(": "));
    let _ = all(Scanner::new("- :"));
}

#[test]
fn multiline_plain_scalar_is_owned_and_folded() {
    let v = first_scalar("a\nb\nc");
    assert_eq!(v, "a b c");
}

#[test]
fn explicit_key_on_document_start_line_errors() {
    let err = scan_err("--- ? k");
    assert!(matches!(err.kind, ErrorKind::UnexpectedToken { .. }));
}

#[test]
fn tab_before_explicit_key_indicator_errors() {
    let err = scan_err("a:\t? b");
    match err.kind {
        ErrorKind::UnexpectedToken { found, .. } => {
            assert!(found.contains("before key indicator"), "got {found}");
        }
        other => panic!("unexpected: {other:?}"),
    }
}

#[test]
fn indented_mapping_on_document_start_line_errors() {
    let err = scan_err("--- key: value");
    match err.kind {
        ErrorKind::UnexpectedToken { found, .. } => {
            assert!(found.contains("document start line"), "got {found}");
        }
        other => panic!("unexpected: {other:?}"),
    }
}

#[test]
fn carriage_return_only_line_ending() {
    let tokens = scan("a: 1\rb: 2");
    assert!(tokens.iter().any(|k| matches!(k, TokenKind::Scalar { .. })));
}

#[test]
fn crlf_line_ending() {
    let tokens = scan("a: 1\r\nb: 2\r\n");
    let scalars = tokens
        .iter()
        .filter(|k| matches!(k, TokenKind::Scalar { .. }))
        .count();
    assert_eq!(scalars, 4, "expected 4 scalars across two CRLF lines");
}

#[test]
fn multibyte_utf8_in_double_quoted_scalar() {
    let tokens = scan("\"café — naïve 日本語\"");
    assert!(
        tokens
            .iter()
            .any(|k| matches!(k, TokenKind::Scalar { value, .. } if value.contains("日本語")))
    );
}

#[test]
fn multibyte_utf8_in_single_quoted_scalar() {
    let tokens = scan("'héllo wörld'");
    assert!(
        tokens
            .iter()
            .any(|k| matches!(k, TokenKind::Scalar { value, .. } if value.contains('é')))
    );
}

#[test]
fn bare_plain_scalar_to_eof() {
    let tokens = scan("hello");
    assert!(
        tokens
            .iter()
            .any(|k| matches!(k, TokenKind::Scalar { value, .. } if value == "hello"))
    );
}

#[test]
fn trivia_off_by_default_emits_no_trivia() {
    let toks: Vec<_> = all(Scanner::new("a: 1 # c\n"))
        .into_iter()
        .map(|r| r.unwrap().kind)
        .collect();
    assert!(
        toks.iter().all(|k| !k.is_trivia()),
        "default scan must not emit trivia"
    );
}

#[test]
fn with_trivia_constructor_sets_flag() {
    let s = Scanner::with_trivia("x", ResourceLimits::default(), true);
    assert!(s.preserve_trivia());
}

#[test]
fn task3_trivia_buffered_during_scan() {
    let mut s = Scanner::with_trivia("a:  1   # note\n", ResourceLimits::default(), true);
    let mut tokens = Vec::new();
    while let Some(r) = s.next() {
        tokens.push(r.unwrap());
    }
    assert!(
        tokens.iter().any(|t| matches!(&t.kind, TokenKind::Comment(_))),
        "merged stream must contain at least one Comment token"
    );
    assert!(
        s.pending_trivia().is_empty(),
        "trivia side buffer must be empty after iterator is exhausted"
    );
}

#[test]
fn trivia_runs_are_captured_with_spans() {
    let input = "a:  1   # note\n";
    let toks: Vec<_> = all(Scanner::with_trivia(input, ResourceLimits::default(), true))
        .into_iter()
        .map(|r| r.unwrap())
        .collect();
    let mut covered = vec![false; input.len()];
    for t in &toks {
        let (s, e) = (t.span.start.offset, t.span.end.offset);
        for b in covered.iter_mut().take(e).skip(s) {
            assert!(!*b, "overlap");
            *b = true;
        }
    }
    assert!(
        covered.iter().all(|&b| b),
        "every byte must be covered: {covered:?}"
    );
    assert!(
        toks.iter()
            .any(|t| matches!(&t.kind, TokenKind::Comment(c) if c == "# note"))
    );
    assert!(
        toks.iter()
            .any(|t| matches!(&t.kind, TokenKind::Whitespace(_)))
    );
}

#[test]
fn merged_stream_is_offset_ordered_and_lossless() {
    let input = "# lead\nkey: value  # trail\nlist:\n  - a\n  - b\n";
    let toks: Vec<_> = all(Scanner::with_trivia(input, ResourceLimits::default(), true))
        .into_iter()
        .map(|r| r.unwrap())
        .collect();
    let consuming: Vec<_> = toks
        .iter()
        .filter(|t| t.span.end.offset > t.span.start.offset)
        .collect();
    for w in consuming.windows(2) {
        assert!(
            w[0].span.start.offset <= w[1].span.start.offset,
            "out of order: {:?} then {:?}",
            w[0].kind,
            w[1].kind
        );
    }
    let rebuilt: String = consuming
        .iter()
        .map(|t| &input[t.span.start.offset..t.span.end.offset])
        .collect();
    assert_eq!(rebuilt, input, "lossless reconstruction failed");
}

#[test]
fn lossless_roundtrip_edge_fixtures() {
    let fixtures = [
        "\u{FEFF}a: 1\n",           // BOM
        "a: 1\r\nb: 2\r\n",         // CRLF
        "a: 1   \n",                // trailing spaces
        "\n\n# only a comment\n\n", // blank + comment-only lines
        "a:\tb\n",                  // tab as separation
        "list:\n  - x  # c\n",      // nested + inline comment
        "key: value",               // no trailing newline
        "",                         // empty input
    ];
    for input in fixtures {
        let toks: Vec<_> = all(Scanner::with_trivia(input, ResourceLimits::default(), true))
            .into_iter()
            .map(|r| r.unwrap())
            .collect();
        let rebuilt: String = toks
            .iter()
            .filter(|t| t.span.end.offset > t.span.start.offset)
            .map(|t| &input[t.span.start.offset..t.span.end.offset])
            .collect();
        assert_eq!(rebuilt, input, "lossless failed for {input:?}");
    }
}

#[test]
fn flag_off_byte_identical_to_baseline() {
    for input in [
        "a: 1 # c\n",
        "list:\n  - x\n",
        "{a: [1, 2]}\n",
        "foo: bar\nbaz: qux\n",
    ] {
        let off: Vec<_> = all(Scanner::new(input)).into_iter().map(|r| r.unwrap().kind).collect();
        let on_sig: Vec<_> = all(Scanner::with_trivia(input, ResourceLimits::default(), true))
            .into_iter()
            .map(|r| r.unwrap().kind)
            .filter(|k| !k.is_trivia())
            .collect();
        assert_eq!(
            off, on_sig,
            "trivia mode changed significant tokens for {input:?}"
        );
    }
}
