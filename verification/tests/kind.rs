use skald::cst::kind::SyntaxKind;

#[test]
fn is_token_classifies_leaves_and_inner_nodes() {
    for k in [
        SyntaxKind::ScalarToken,
        SyntaxKind::Punct,
        SyntaxKind::Property,
        SyntaxKind::Comment,
        SyntaxKind::Whitespace,
        SyntaxKind::Newline,
        SyntaxKind::Error,
    ] {
        assert!(k.is_token(), "{k:?} must be a token");
    }
    for k in [
        SyntaxKind::Root,
        SyntaxKind::Document,
        SyntaxKind::Mapping,
        SyntaxKind::MappingEntry,
        SyntaxKind::Sequence,
        SyntaxKind::SequenceItem,
        SyntaxKind::Scalar,
    ] {
        assert!(!k.is_token(), "{k:?} must not be a token");
    }
}

#[test]
fn is_trivia_classifies_only_comment_whitespace_newline() {
    for k in [
        SyntaxKind::Comment,
        SyntaxKind::Whitespace,
        SyntaxKind::Newline,
    ] {
        assert!(k.is_trivia(), "{k:?} must be trivia");
    }
    for k in [
        SyntaxKind::ScalarToken,
        SyntaxKind::Punct,
        SyntaxKind::Property,
        SyntaxKind::Error,
        SyntaxKind::Scalar,
    ] {
        assert!(!k.is_trivia(), "{k:?} must not be trivia");
    }
}
