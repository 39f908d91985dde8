//! Syntax kinds for the YAML concrete syntax tree.
use vstd::prelude::*;

verus! {

/// The kind of a CST node or token.
#[derive(Debug, Clone, Copy, PartialEq, Eq, Hash, Structural)]
pub enum SyntaxKind {
    /// The whole parsed stream (root).
    Root,
    /// A single document.
    Document,
    /// A block or flow mapping.
    Mapping,
    /// One `key: value` entry.
    MappingEntry,
    /// A block or flow sequence.
    Sequence,
    /// One sequence item.
    SequenceItem,
    /// A scalar value node.
    Scalar,
    /// A scalar token's raw source text.
    ScalarToken,
    /// Structural punctuation (`:`, `-`, `?`, `[`, `]`, `{`, `}`, `,`, `---`, `...`).
    Punct,
    /// An anchor/alias/tag token.
    Property,
    /// A comment.
    Comment,
    /// Inter-token spaces/tabs.
    Whitespace,
    /// A line break.
    Newline,
    /// Unclassified bytes (preserves losslessness).
    Error,
}

impl SyntaxKind {
    /// The kinds of comments, whitespace and line breaks.
    pub open spec fn trivia(self) -> bool {
        self is Comment || self is Whitespace || self is Newline
    }

    /// The kinds of leaves.
    pub open spec fn token(self) -> bool {
        self.trivia() || self is ScalarToken || self is Punct || self is Property || self is Error
    }

    /// Returns true for token (leaf) kinds.
    #[must_use]
    pub fn is_token(self) -> (r: bool)
        ensures
            r == self.token(),
    {
        match self {
            SyntaxKind::ScalarToken => true,
            SyntaxKind::Punct => true,
            SyntaxKind::Property => true,
            SyntaxKind::Comment => true,
            SyntaxKind::Whitespace => true,
            SyntaxKind::Newline => true,
            SyntaxKind::Error => true,
            _ => false,
        }
    }

    /// Returns true for trivia token kinds.
    #[must_use]
    pub fn is_trivia(self) -> (r: bool)
        ensures
            r == self.trivia(),
    {
        match self {
            SyntaxKind::Comment => true,
            SyntaxKind::Whitespace => true,
            SyntaxKind::Newline => true,
            _ => false,
        }
    }
}

/// Trivia are leaves.
pub proof fn law_trivia_are_tokens(k: SyntaxKind)
    ensures
        k.trivia() ==> k.token(),
{
}

} // verus!
