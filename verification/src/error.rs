//! Errors of the scanner, the parser and the composer.
use crate::limits::{default_limits, ResourceLimits};
use crate::text::{decimal, push_decimal, quoted, quoted_string};
use crate::types::Span;
use vstd::prelude::*;
use vstd::string::*;

verus! {

/// What went wrong.
#[derive(Debug, Clone, PartialEq, Eq)]
pub enum ErrorKind {
    /// Something other than what was expected stands in the input.
    UnexpectedToken {
        /// What the grammar asks for.
        expected: String,
        /// What stands there.
        found: String,
    },
    /// The input ends too early.
    UnexpectedEof,
    /// An escape sequence that double-quoted scalars do not have.
    InvalidEscape(char),
    /// A malformed anchor or alias.
    InvalidAnchor(String),
    /// A malformed tag or directive.
    InvalidTag(String),
    /// An alias whose anchor is not defined.
    UndefinedAlias(String),
    /// Collections nest deeper than allowed.
    DepthExceeded {
        /// The limit.
        limit: usize,
    },
    /// The document is longer than allowed.
    DocumentSizeExceeded {
        /// The limit.
        limit: usize,
    },
    /// More aliases are expanded than allowed.
    AliasLimitExceeded {
        /// The limit.
        limit: usize,
    },
    /// The document has more nodes than allowed.
    NodeCountExceeded {
        /// The limit.
        limit: usize,
    },
}

/// The value of an [`ErrorKind`].
pub enum ErrorKindView {
    UnexpectedToken { expected: Seq<char>, found: Seq<char> },
    UnexpectedEof,
    InvalidEscape(char),
    InvalidAnchor(Seq<char>),
    InvalidTag(Seq<char>),
    UndefinedAlias(Seq<char>),
    DepthExceeded { limit: usize },
    DocumentSizeExceeded { limit: usize },
    AliasLimitExceeded { limit: usize },
    NodeCountExceeded { limit: usize },
}

impl View for ErrorKind {
    type V = ErrorKindView;

    open spec fn view(&self) -> ErrorKindView {
        match self {
            ErrorKind::UnexpectedToken { expected, found } => ErrorKindView::UnexpectedToken {
                expected: expected@,
                found: found@,
            },
            ErrorKind::UnexpectedEof => ErrorKindView::UnexpectedEof,
            ErrorKind::InvalidEscape(c) => ErrorKindView::InvalidEscape(*c),
            ErrorKind::InvalidAnchor(s) => ErrorKindView::InvalidAnchor(s@),
            ErrorKind::InvalidTag(s) => ErrorKindView::InvalidTag(s@),
            ErrorKind::UndefinedAlias(s) => ErrorKindView::UndefinedAlias(s@),
            ErrorKind::DepthExceeded { limit } => ErrorKindView::DepthExceeded { limit: *limit },
            ErrorKind::DocumentSizeExceeded { limit } => ErrorKindView::DocumentSizeExceeded {
                limit: *limit,
            },
            ErrorKind::AliasLimitExceeded { limit } => ErrorKindView::AliasLimitExceeded {
                limit: *limit,
            },
            ErrorKind::NodeCountExceeded { limit } => ErrorKindView::NodeCountExceeded {
                limit: *limit,
            },
        }
    }
}

/// An error with the place where it was found.
#[derive(Debug, Clone, PartialEq, Eq)]
pub struct Error {
    /// What went wrong.
    pub kind: ErrorKind,
    /// Where, if the error belongs to a place.
    pub span: Option<Span>,
}

/// The value of an [`Error`].
pub struct ErrorView {
    pub kind: ErrorKindView,
    pub span: Option<Span>,
}

impl View for Error {
    type V = ErrorView;

    open spec fn view(&self) -> ErrorView {
        ErrorView { kind: self.kind@, span: self.span }
    }
}

impl ErrorKindView {
    /// What went wrong, in words.
    pub open spec fn message(self) -> Seq<char> {
        match self {
            ErrorKindView::UnexpectedToken { expected, found } => "expected "@ + expected
                + ", found "@ + found,
            ErrorKindView::UnexpectedEof => "unexpected end of input"@,
            ErrorKindView::InvalidEscape(c) => "invalid escape sequence "@ + quoted(c),
            ErrorKindView::InvalidAnchor(s) => "invalid anchor: "@ + s,
            ErrorKindView::InvalidTag(s) => "invalid tag: "@ + s,
            ErrorKindView::UndefinedAlias(s) => "undefined alias: "@ + s,
            ErrorKindView::DepthExceeded { limit } => "nesting depth exceeds "@ + decimal(
                limit as nat,
            ),
            ErrorKindView::DocumentSizeExceeded { limit } => "document size exceeds "@ + decimal(
                limit as nat,
            ),
            ErrorKindView::AliasLimitExceeded { limit } => "alias expansions exceed "@ + decimal(
                limit as nat,
            ),
            ErrorKindView::NodeCountExceeded { limit } => "node count exceeds "@ + decimal(
                limit as nat,
            ),
        }
    }
}

impl ErrorView {
    /// What went wrong, in words, and where.
    pub open spec fn message(self) -> Seq<char> {
        match self.span {
            Some(span) => self.kind.message() + " at "@ + span.start.display(),
            None => self.kind.message(),
        }
    }
}

/// An unexpected-token error.
pub open spec fn unexpected(expected: Seq<char>, found: Seq<char>, span: Span) -> ErrorView {
    ErrorView { kind: ErrorKindView::UnexpectedToken { expected, found }, span: Some(span) }
}

/// The result of an operation that can fail with an [`Error`].
pub type Result<T> = core::result::Result<T, Error>;

impl ErrorKind {
    /// What went wrong, in words.
    #[must_use]
    pub fn to_string(&self) -> (r: String)
        ensures
            r@ == self@.message(),
    {
        let mut s = String::new();
        match self {
            ErrorKind::UnexpectedToken { expected, found } => {
                s.append("expected ");
                s.append(expected.as_str());
                s.append(", found ");
                s.append(found.as_str());
            },
            ErrorKind::UnexpectedEof => {
                s.append("unexpected end of input");
            },
            ErrorKind::InvalidEscape(c) => {
                s.append("invalid escape sequence ");
                s.append(quoted_string(*c).as_str());
            },
            ErrorKind::InvalidAnchor(text) => {
                s.append("invalid anchor: ");
                s.append(text.as_str());
            },
            ErrorKind::InvalidTag(text) => {
                s.append("invalid tag: ");
                s.append(text.as_str());
            },
            ErrorKind::UndefinedAlias(text) => {
                s.append("undefined alias: ");
                s.append(text.as_str());
            },
            ErrorKind::DepthExceeded { limit } => {
                s.append("nesting depth exceeds ");
                push_decimal(&mut s, *limit as u64);
            },
            ErrorKind::DocumentSizeExceeded { limit } => {
                s.append("document size exceeds ");
                push_decimal(&mut s, *limit as u64);
            },
            ErrorKind::AliasLimitExceeded { limit } => {
                s.append("alias expansions exceed ");
                push_decimal(&mut s, *limit as u64);
            },
            ErrorKind::NodeCountExceeded { limit } => {
                s.append("node count exceeds ");
                push_decimal(&mut s, *limit as u64);
            },
        }
        assert(s@ =~= self@.message());
        s
    }
}

impl Error {
    /// What went wrong, in words, and where.
    #[must_use]
    pub fn to_string(&self) -> (r: String)
        ensures
            r@ == self@.message(),
    {
        let mut s = self.kind.to_string();
        if let Some(span) = &self.span {
            s.append(" at ");
            s.append(span.start.to_string().as_str());
        }
        s
    }

    /// An error at a place.
    pub fn new(kind: ErrorKind, span: Span) -> (r: Self)
        ensures
            r@ == (ErrorView { kind: kind@, span: Some(span) }),
    {
        Error { kind, span: Some(span) }
    }

    /// An error that belongs to no place.
    pub fn spanless(kind: ErrorKind) -> (r: Self)
        ensures
            r@ == (ErrorView { kind: kind@, span: None }),
    {
        Error { kind, span: None }
    }

    /// Something other than what was expected stands at a place.
    pub fn unexpected(expected: &str, found: &str, span: Span) -> (r: Self)
        ensures
            r@ == unexpected(expected@, found@, span),
    {
        Error {
            kind: ErrorKind::UnexpectedToken {
                expected: expected.to_owned(),
                found: found.to_owned(),
            },
            span: Some(span),
        }
    }

    /// Collections nest deeper than the limits allow.
    pub fn depth_exceeded(limits: &ResourceLimits, span: Span) -> (r: Self)
        ensures
            r@ == (ErrorView {
                kind: ErrorKindView::DepthExceeded { limit: limits.max_depth },
                span: Some(span),
            }),
    {
        Error { kind: ErrorKind::DepthExceeded { limit: limits.max_depth }, span: Some(span) }
    }

    /// The document is longer than the limits allow.
    pub fn document_size_exceeded(limits: &ResourceLimits, span: Span) -> (r: Self)
        ensures
            r@ == (ErrorView {
                kind: ErrorKindView::DocumentSizeExceeded { limit: limits.max_document_size },
                span: Some(span),
            }),
    {
        Error {
            kind: ErrorKind::DocumentSizeExceeded { limit: limits.max_document_size },
            span: Some(span),
        }
    }
}

/// Settings of the parser and the composer.
#[derive(Debug, Clone, Copy, PartialEq, Eq, Structural)]
pub struct ParserConfig {
    /// Resource limits.
    pub limits: ResourceLimits,
}

impl Default for ParserConfig {
    fn default() -> (r: Self)
        ensures
            r.limits == default_limits(),
    {
        ParserConfig { limits: ResourceLimits::default() }
    }
}

} // verus!
