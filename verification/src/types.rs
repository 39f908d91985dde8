//! Source locations, styles and tags shared by the whole pipeline.
use crate::text::{decimal, push_decimal};
use std::borrow::Cow;
use vstd::prelude::*;
use vstd::string::*;

verus! {

/// A byte offset and line/column position within a YAML source.
#[derive(Debug, Clone, Copy, PartialEq, Eq, Hash, Structural)]
pub struct Position {
    /// Byte offset from the start of the input.
    pub offset: usize,
    /// 1-based line number.
    pub line: u32,
    /// 1-based column number (in bytes, not characters).
    pub column: u32,
}

impl Position {
    /// The position at the start of the input.
    pub open spec fn origin() -> Position {
        Position { offset: 0, line: 1, column: 1 }
    }

    /// `line:column`.
    pub open spec fn display(self) -> Seq<char> {
        decimal(self.line as nat) + seq![':'] + decimal(self.column as nat)
    }

    /// Creates a new position at the start of the input.
    #[must_use]
    pub fn start() -> (r: Self)
        ensures
            r == Position::origin(),
    {
        Self { offset: 0, line: 1, column: 1 }
    }

    /// Writes the position as `line:column`.
    pub fn to_string(&self) -> (r: String)
        ensures
            r@ == self.display(),
    {
        let mut s = String::new();
        push_decimal(&mut s, self.line as u64);
        s.push(':');
        push_decimal(&mut s, self.column as u64);
        assert(s@ =~= self.display());
        s
    }
}

/// A span covering a range in the source input.
#[derive(Debug, Clone, Copy, PartialEq, Eq, Hash, Structural)]
pub struct Span {
    /// Start position (inclusive).
    pub start: Position,
    /// End position (exclusive).
    pub end: Position,
}

/// The zero-width span at a position.
pub open spec fn point(pos: Position) -> Span {
    Span { start: pos, end: pos }
}

impl Span {
    /// Whether every offset of `other` lies in this span.
    pub open spec fn covers(self, other: Span) -> bool {
        self.start.offset <= other.start.offset && other.end.offset <= self.end.offset
    }

    /// `start..end`.
    pub open spec fn display(self) -> Seq<char> {
        self.start.display() + seq!['.', '.'] + self.end.display()
    }

    /// The smaller start and the larger end of two spans; this span's own where
    /// the offsets are equal.
    pub open spec fn merged(self, other: Span) -> Span {
        Span {
            start: if self.start.offset <= other.start.offset { self.start } else { other.start },
            end: if self.end.offset >= other.end.offset { self.end } else { other.end },
        }
    }

    /// Creates a zero-width span at the given position.
    #[must_use]
    pub fn point(pos: Position) -> (r: Self)
        ensures
            r == point(pos),
    {
        Self { start: pos, end: pos }
    }

    /// Merges two spans into one that covers both.
    #[must_use]
    pub fn merge(self, other: Span) -> (r: Span)
        ensures
            r == self.merged(other),
            r.covers(self),
            r.covers(other),
    {
        let start = if self.start.offset <= other.start.offset {
            self.start
        } else {
            other.start
        };
        let end = if self.end.offset >= other.end.offset {
            self.end
        } else {
            other.end
        };
        Span { start, end }
    }

    /// Writes the span as `start..end`.
    pub fn to_string(&self) -> (r: String)
        ensures
            r@ == self.display(),
    {
        let mut s = self.start.to_string();
        let end = self.end.to_string();
        s.push('.');
        s.push('.');
        s.append(end.as_str());
        assert(s@ =~= self.display());
        s
    }
}

/// Merging is associative in what it covers, and commutes up to the choice
/// between positions with equal offsets.
pub proof fn law_merge_offsets(a: Span, b: Span)
    ensures
        a.merged(b).start.offset == b.merged(a).start.offset,
        a.merged(b).end.offset == b.merged(a).end.offset,
        a.merged(a) == a,
{
}

/// A YAML tag (e.g. `!!str`, `!!int`, or a custom tag URI).
#[derive(Debug, PartialEq, Eq, Hash)]
pub struct Tag<'a> {
    /// The resolved tag URI.
    pub value: Cow<'a, str>,
    /// Source span of the tag in the input.
    pub span: Span,
}

/// Copies a `Cow`: a borrowed text stays borrowed.
pub fn copy_cow<'a>(c: &Cow<'a, str>) -> (r: Cow<'a, str>)
    ensures
        r@ == c@,
        r is Owned == c is Owned,
{
    match c {
        Cow::Borrowed(s) => Cow::Borrowed(*s),
        Cow::Owned(s) => Cow::Owned(s.clone()),
    }
}

impl<'a> Clone for Tag<'a> {
    fn clone(&self) -> (r: Self)
        ensures
            r.value@ == self.value@,
            r.span == self.span,
    {
        Tag { value: copy_cow(&self.value), span: self.span }
    }
}

/// Takes ownership of the text of a `Cow`.
pub fn own<'a>(c: Cow<'a, str>) -> (r: Cow<'static, str>)
    ensures
        r@ == c@,
        r is Owned,
{
    match c {
        Cow::Borrowed(s) => Cow::Owned(s.to_owned()),
        Cow::Owned(s) => Cow::Owned(s),
    }
}

impl<'a> Tag<'a> {
    /// Converts this tag into a `'static` lifetime by taking ownership of borrowed data.
    #[must_use]
    pub fn into_owned(self) -> (r: Tag<'static>)
        ensures
            r.value@ == self.value@,
            r.value is Owned,
            r.span == self.span,
    {
        Tag { value: own(self.value), span: self.span }
    }
}

/// The presentation style of a scalar value.
#[derive(Debug, Clone, Copy, PartialEq, Eq, Hash, Structural)]
pub enum ScalarStyle {
    /// No quotes — plain scalar.
    Plain,
    /// Single-quoted scalar (`'...'`).
    SingleQuoted,
    /// Double-quoted scalar (`"..."`).
    DoubleQuoted,
    /// Literal block scalar (`|`).
    Literal,
    /// Folded block scalar (`>`).
    Folded,
}

/// The presentation style of a collection (mapping or sequence).
#[derive(Debug, Clone, Copy, PartialEq, Eq, Hash, Structural)]
pub enum CollectionStyle {
    /// Block style (indentation-based).
    Block,
    /// Flow style (inline, JSON-like with `{}` or `[]`).
    Flow,
}

} // verus!
