//! Token types produced by the YAML scanner.
use crate::types::{copy_cow, ScalarStyle, Span};
use std::borrow::Cow;
use vstd::prelude::*;

verus! {

/// A token produced by the scanner, with its source span.
#[derive(Debug, PartialEq)]
pub struct Token<'a> {
    /// The kind of token.
    pub kind: TokenKind<'a>,
    /// The source span of this token.
    pub span: Span,
}

/// The kind of a YAML token.
#[derive(Debug, PartialEq)]
pub enum TokenKind<'a> {
    /// Start of the YAML stream.
    StreamStart,
    /// End of the YAML stream.
    StreamEnd,
    /// Explicit document start: `---`.
    DocumentStart,
    /// Explicit document end: `...`.
    DocumentEnd,
    /// Start of a block sequence (implicit, emitted on indentation increase).
    BlockSequenceStart,
    /// Start of a block mapping (implicit, emitted on indentation increase).
    BlockMappingStart,
    /// End of a block collection (implicit, emitted on indentation decrease).
    BlockEnd,
    /// Start of a flow sequence: `[`.
    FlowSequenceStart,
    /// End of a flow sequence: `]`.
    FlowSequenceEnd,
    /// Start of a flow mapping: `{`.
    FlowMappingStart,
    /// End of a flow mapping: `}`.
    FlowMappingEnd,
    /// Entry in a block sequence: `-`.
    BlockEntry,
    /// Entry separator in a flow collection: `,`.
    FlowEntry,
    /// Explicit key indicator: `?`.
    Key,
    /// Value indicator: `:`.
    Value,
    /// An anchor: `&name`.
    Anchor(Cow<'a, str>),
    /// An alias: `*name`.
    Alias(Cow<'a, str>),
    /// A tag: `!handle!suffix` or `!suffix` or `!!suffix`.
    Tag {
        /// The tag handle (e.g. `!`, `!!`, `!handle!`).
        handle: Cow<'a, str>,
        /// The tag suffix.
        suffix: Cow<'a, str>,
    },
    /// A scalar value.
    Scalar {
        /// The scalar value.
        value: Cow<'a, str>,
        /// The presentation style.
        style: ScalarStyle,
    },
    /// A comment, including the leading `#`, excluding the trailing line break.
    /// Only emitted in `preserve_trivia` mode.
    Comment(Cow<'a, str>),
    /// A run of inter-token spaces/tabs (indentation or separation).
    /// Only emitted in `preserve_trivia` mode.
    Whitespace(Cow<'a, str>),
    /// A single line break (`\n`, `\r\n`, or `\r`).
    /// Only emitted in `preserve_trivia` mode.
    LineBreak(Cow<'a, str>),
    /// A `%YAML` directive.
    VersionDirective {
        /// Major version number.
        major: u8,
        /// Minor version number.
        minor: u8,
    },
    /// A `%TAG` directive.
    TagDirective {
        /// The tag handle.
        handle: Cow<'a, str>,
        /// The tag prefix.
        prefix: Cow<'a, str>,
    },
}

/// The value of a [`TokenKind`].
pub enum TokenKindView {
    StreamStart,
    StreamEnd,
    DocumentStart,
    DocumentEnd,
    BlockSequenceStart,
    BlockMappingStart,
    BlockEnd,
    FlowSequenceStart,
    FlowSequenceEnd,
    FlowMappingStart,
    FlowMappingEnd,
    BlockEntry,
    FlowEntry,
    Key,
    Value,
    Anchor(Seq<char>),
    Alias(Seq<char>),
    Tag { handle: Seq<char>, suffix: Seq<char> },
    Scalar { value: Seq<char>, style: ScalarStyle },
    Comment(Seq<char>),
    Whitespace(Seq<char>),
    LineBreak(Seq<char>),
    VersionDirective { major: u8, minor: u8 },
    TagDirective { handle: Seq<char>, prefix: Seq<char> },
}

/// The value of a [`Token`].
pub struct TokenView {
    pub kind: TokenKindView,
    pub span: Span,
}

impl<'a> View for TokenKind<'a> {
    type V = TokenKindView;

    open spec fn view(&self) -> TokenKindView {
        match self {
            TokenKind::StreamStart => TokenKindView::StreamStart,
            TokenKind::StreamEnd => TokenKindView::StreamEnd,
            TokenKind::DocumentStart => TokenKindView::DocumentStart,
            TokenKind::DocumentEnd => TokenKindView::DocumentEnd,
            TokenKind::BlockSequenceStart => TokenKindView::BlockSequenceStart,
            TokenKind::BlockMappingStart => TokenKindView::BlockMappingStart,
            TokenKind::BlockEnd => TokenKindView::BlockEnd,
            TokenKind::FlowSequenceStart => TokenKindView::FlowSequenceStart,
            TokenKind::FlowSequenceEnd => TokenKindView::FlowSequenceEnd,
            TokenKind::FlowMappingStart => TokenKindView::FlowMappingStart,
            TokenKind::FlowMappingEnd => TokenKindView::FlowMappingEnd,
            TokenKind::BlockEntry => TokenKindView::BlockEntry,
            TokenKind::FlowEntry => TokenKindView::FlowEntry,
            TokenKind::Key => TokenKindView::Key,
            TokenKind::Value => TokenKindView::Value,
            TokenKind::Anchor(n) => TokenKindView::Anchor(n@),
            TokenKind::Alias(n) => TokenKindView::Alias(n@),
            TokenKind::Tag { handle, suffix } => TokenKindView::Tag {
                handle: handle@,
                suffix: suffix@,
            },
            TokenKind::Scalar { value, style } => TokenKindView::Scalar {
                value: value@,
                style: *style,
            },
            TokenKind::Comment(t) => TokenKindView::Comment(t@),
            TokenKind::Whitespace(t) => TokenKindView::Whitespace(t@),
            TokenKind::LineBreak(t) => TokenKindView::LineBreak(t@),
            TokenKind::VersionDirective { major, minor } => TokenKindView::VersionDirective {
                major: *major,
                minor: *minor,
            },
            TokenKind::TagDirective { handle, prefix } => TokenKindView::TagDirective {
                handle: handle@,
                prefix: prefix@,
            },
        }
    }
}

impl<'a> View for Token<'a> {
    type V = TokenView;

    open spec fn view(&self) -> TokenView {
        TokenView { kind: self.kind@, span: self.span }
    }
}

impl TokenKindView {
    /// The human-readable name of this token kind.
    pub open spec fn name(self) -> Seq<char> {
        match self {
            TokenKindView::StreamStart => "stream-start"@,
            TokenKindView::StreamEnd => "stream-end"@,
            TokenKindView::DocumentStart => "document-start"@,
            TokenKindView::DocumentEnd => "document-end"@,
            TokenKindView::BlockSequenceStart => "block-sequence-start"@,
            TokenKindView::BlockMappingStart => "block-mapping-start"@,
            TokenKindView::BlockEnd => "block-end"@,
            TokenKindView::FlowSequenceStart => "flow-sequence-start"@,
            TokenKindView::FlowSequenceEnd => "flow-sequence-end"@,
            TokenKindView::FlowMappingStart => "flow-mapping-start"@,
            TokenKindView::FlowMappingEnd => "flow-mapping-end"@,
            TokenKindView::BlockEntry => "block-entry"@,
            TokenKindView::FlowEntry => "flow-entry"@,
            TokenKindView::Key => "key"@,
            TokenKindView::Value => "value"@,
            TokenKindView::Anchor(_) => "anchor"@,
            TokenKindView::Alias(_) => "alias"@,
            TokenKindView::Tag { .. } => "tag"@,
            TokenKindView::Scalar { .. } => "scalar"@,
            TokenKindView::VersionDirective { .. } => "version-directive"@,
            TokenKindView::TagDirective { .. } => "tag-directive"@,
            TokenKindView::Comment(_) => "comment"@,
            TokenKindView::Whitespace(_) => "whitespace"@,
            TokenKindView::LineBreak(_) => "line-break"@,
        }
    }

    /// Comments, whitespace and line breaks.
    pub open spec fn is_trivia(self) -> bool {
        self is Comment || self is Whitespace || self is LineBreak
    }
}

impl<'a> TokenKind<'a> {
    /// Returns a human-readable name for this token kind.
    #[must_use]
    pub fn name(&self) -> (r: &'static str)
        ensures
            r@ == self@.name(),
    {
        match self {
            TokenKind::StreamStart => "stream-start",
            TokenKind::StreamEnd => "stream-end",
            TokenKind::DocumentStart => "document-start",
            TokenKind::DocumentEnd => "document-end",
            TokenKind::BlockSequenceStart => "block-sequence-start",
            TokenKind::BlockMappingStart => "block-mapping-start",
            TokenKind::BlockEnd => "block-end",
            TokenKind::FlowSequenceStart => "flow-sequence-start",
            TokenKind::FlowSequenceEnd => "flow-sequence-end",
            TokenKind::FlowMappingStart => "flow-mapping-start",
            TokenKind::FlowMappingEnd => "flow-mapping-end",
            TokenKind::BlockEntry => "block-entry",
            TokenKind::FlowEntry => "flow-entry",
            TokenKind::Key => "key",
            TokenKind::Value => "value",
            TokenKind::Anchor(_) => "anchor",
            TokenKind::Alias(_) => "alias",
            TokenKind::Tag { .. } => "tag",
            TokenKind::Scalar { .. } => "scalar",
            TokenKind::VersionDirective { .. } => "version-directive",
            TokenKind::TagDirective { .. } => "tag-directive",
            TokenKind::Comment(_) => "comment",
            TokenKind::Whitespace(_) => "whitespace",
            TokenKind::LineBreak(_) => "line-break",
        }
    }

    /// Writes the name of this token kind.
    pub fn to_string(&self) -> (r: String)
        ensures
            r@ == self@.name(),
    {
        self.name().to_owned()
    }

    /// Returns `true` for trivia tokens (comments, whitespace, line breaks).
    #[must_use]
    pub fn is_trivia(&self) -> (r: bool)
        ensures
            r == self@.is_trivia(),
    {
        match self {
            TokenKind::Comment(_) => true,
            TokenKind::Whitespace(_) => true,
            TokenKind::LineBreak(_) => true,
            _ => false,
        }
    }
}

impl<'a> Clone for TokenKind<'a> {
    fn clone(&self) -> (r: Self)
        ensures
            r@ == self@,
    {
        match self {
            TokenKind::StreamStart => TokenKind::StreamStart,
            TokenKind::StreamEnd => TokenKind::StreamEnd,
            TokenKind::DocumentStart => TokenKind::DocumentStart,
            TokenKind::DocumentEnd => TokenKind::DocumentEnd,
            TokenKind::BlockSequenceStart => TokenKind::BlockSequenceStart,
            TokenKind::BlockMappingStart => TokenKind::BlockMappingStart,
            TokenKind::BlockEnd => TokenKind::BlockEnd,
            TokenKind::FlowSequenceStart => TokenKind::FlowSequenceStart,
            TokenKind::FlowSequenceEnd => TokenKind::FlowSequenceEnd,
            TokenKind::FlowMappingStart => TokenKind::FlowMappingStart,
            TokenKind::FlowMappingEnd => TokenKind::FlowMappingEnd,
            TokenKind::BlockEntry => TokenKind::BlockEntry,
            TokenKind::FlowEntry => TokenKind::FlowEntry,
            TokenKind::Key => TokenKind::Key,
            TokenKind::Value => TokenKind::Value,
            TokenKind::Anchor(n) => TokenKind::Anchor(copy_cow(n)),
            TokenKind::Alias(n) => TokenKind::Alias(copy_cow(n)),
            TokenKind::Tag { handle, suffix } => TokenKind::Tag {
                handle: copy_cow(handle),
                suffix: copy_cow(suffix),
            },
            TokenKind::Scalar { value, style } => TokenKind::Scalar {
                value: copy_cow(value),
                style: *style,
            },
            TokenKind::Comment(t) => TokenKind::Comment(copy_cow(t)),
            TokenKind::Whitespace(t) => TokenKind::Whitespace(copy_cow(t)),
            TokenKind::LineBreak(t) => TokenKind::LineBreak(copy_cow(t)),
            TokenKind::VersionDirective { major, minor } => TokenKind::VersionDirective {
                major: *major,
                minor: *minor,
            },
            TokenKind::TagDirective { handle, prefix } => TokenKind::TagDirective {
                handle: copy_cow(handle),
                prefix: copy_cow(prefix),
            },
        }
    }
}

impl<'a> Clone for Token<'a> {
    fn clone(&self) -> (r: Self)
        ensures
            r@ == self@,
    {
        Token { kind: self.kind.clone(), span: self.span }
    }
}

} // verus!
