use skald::scanner::token::TokenKind;
use skald::types::ScalarStyle;
use std::borrow::Cow;

#[test]
fn token_kind_names() {
    assert_eq!(TokenKind::StreamStart.name(), "stream-start");
    assert_eq!(TokenKind::StreamEnd.name(), "stream-end");
    assert_eq!(TokenKind::DocumentStart.name(), "document-start");
    assert_eq!(TokenKind::BlockEntry.name(), "block-entry");
    assert_eq!(
        TokenKind::Scalar {
            value: Cow::Borrowed("test"),
            style: ScalarStyle::Plain,
        }
        .name(),
        "scalar"
    );
}

#[test]
fn token_kind_display() {
    assert_eq!(
        TokenKind::FlowMappingStart.to_string(),
        "flow-mapping-start"
    );
}

#[test]
fn trivia_variants_report_as_trivia() {
    assert!(TokenKind::Comment(Cow::Borrowed("# hi")).is_trivia());
    assert!(TokenKind::Whitespace(Cow::Borrowed("  ")).is_trivia());
    assert!(TokenKind::LineBreak(Cow::Borrowed("\n")).is_trivia());
    assert!(!TokenKind::StreamStart.is_trivia());
    assert!(!TokenKind::Value.is_trivia());
}

#[test]
fn token_kind_name_covers_node_decorations_and_directives() {
    assert_eq!(TokenKind::Anchor(Cow::Borrowed("a")).name(), "anchor");
    assert_eq!(TokenKind::Alias(Cow::Borrowed("a")).name(), "alias");
    assert_eq!(
        TokenKind::Tag {
            handle: Cow::Borrowed("!"),
            suffix: Cow::Borrowed("foo"),
        }
        .name(),
        "tag"
    );
    assert_eq!(
        TokenKind::VersionDirective { major: 1, minor: 2 }.name(),
        "version-directive"
    );
    assert_eq!(
        TokenKind::TagDirective {
            handle: Cow::Borrowed("!!"),
            prefix: Cow::Borrowed("tag:yaml.org,2002:"),
        }
        .name(),
        "tag-directive"
    );
}

#[test]
fn token_kind_name_covers_trivia_variants() {
    assert_eq!(TokenKind::Comment(Cow::Borrowed("# c")).name(), "comment");
    assert_eq!(
        TokenKind::Whitespace(Cow::Borrowed("  ")).name(),
        "whitespace"
    );
    assert_eq!(
        TokenKind::LineBreak(Cow::Borrowed("\n")).name(),
        "line-break"
    );
}
