//! Positions in the input and the runs of bytes between them.
use crate::scanner::chars::{
    blank, flow, is_blank_or_break, is_break, is_flow, is_whitespace, line_break, whitespace, BANG,
    BACKSLASH, CR, DASH, DOT, DQUOTE, GT, LF, SPACE, SQUOTE,
};
use crate::scanner::swar::{
    block_stop, find_line_end, find_plain_scalar_end_block, find_plain_scalar_end_flow, first_from,
    flow_stop, skip_spaces_tabs,
};
use crate::text::{at_boundary, lemma_ascii_boundary};
use crate::types::{Position, Span};
use vstd::prelude::*;
use vstd::utf8::valid_utf8;

verus! {

/// The longest input, in bytes, whose positions fit their types.
pub const MAX_INPUT: usize = 0x7fff_fffe;

/// Where a run of bytes ends.
#[derive(Debug, Clone, Copy, PartialEq, Eq, Structural)]
pub enum Until {
    /// At a line break.
    Break,
    /// At whitespace or a line break.
    Blank,
    /// At whitespace, a line break or a flow indicator.
    BlankOrFlow,
    /// At whitespace, a line break, a flow indicator or `!`.
    TagPart,
    /// At `>`.
    Gt,
    /// At a space.
    Space,
    /// At anything but a space.
    NotSpace,
    /// At anything but a space or a tab.
    NotWhitespace,
    /// At `'` or a line break.
    SingleQuoted,
    /// At `"`, `\`, whitespace or a line break.
    DoubleQuoted,
    /// At a byte that can end a plain scalar in block context.
    PlainBlock,
    /// At a byte that can end a plain scalar in flow context.
    PlainFlow,
}

/// Whether byte `x` ends a run.
pub open spec fn stops(u: Until, x: u8) -> bool {
    match u {
        Until::Break => line_break(x),
        Until::Blank => blank(x),
        Until::BlankOrFlow => blank(x) || flow(x),
        Until::TagPart => blank(x) || flow(x) || x == BANG,
        Until::Gt => x == GT,
        Until::Space => x == SPACE,
        Until::NotSpace => x != SPACE,
        Until::NotWhitespace => !whitespace(x),
        Until::SingleQuoted => x == SQUOTE || line_break(x),
        Until::DoubleQuoted => x == DQUOTE || x == BACKSLASH || blank(x),
        Until::PlainBlock => block_stop(x),
        Until::PlainFlow => flow_stop(x),
    }
}

/// Where the run that starts at `lo` ends.
pub open spec fn run_end(b: Seq<u8>, lo: int, u: Until) -> int {
    first_from(b, lo, |x: u8| stops(u, x))
}

/// A run stays inside the input and stops where it should.
pub proof fn lemma_run(b: Seq<u8>, lo: int, u: Until)
    ensures
        run_end(b, lo, u) >= lo,
        lo <= b.len() ==> run_end(b, lo, u) <= b.len(),
        lo < b.len() && !stops(u, b[lo]) ==> run_end(b, lo, u) > lo,
        lo < b.len() && stops(u, b[lo]) ==> run_end(b, lo, u) == lo,
        0 <= lo && run_end(b, lo, u) < b.len() ==> stops(u, b[run_end(b, lo, u)]),
        0 <= lo ==> forall|i: int| lo <= i < run_end(b, lo, u) ==> !stops(u, #[trigger] b[i]),
    decreases b.len() - lo,
{
    if lo < b.len() && !stops(u, b[lo]) {
        lemma_run(b, lo + 1, u);
    }
}

/// A run that starts between two characters ends between two characters.
pub proof fn lemma_run_boundary(b: Seq<u8>, lo: int, u: Until)
    requires
        valid_utf8(b),
        0 <= lo <= b.len(),
        at_boundary(b, lo),
    ensures
        at_boundary(b, run_end(b, lo, u)),
{
    lemma_run(b, lo, u);
    let r = run_end(b, lo, u);
    if lo < r < b.len() {
        if u is NotSpace || u is NotWhitespace {
            assert(!stops(u, b[r - 1]));
            lemma_ascii_boundary(b, r - 1);
        } else {
            assert(stops(u, b[r]));
            lemma_ascii_boundary(b, r);
        }
    }
}

/// The value of a [`Cursor`].
pub struct Cur {
    pub offset: int,
    pub line: int,
    pub column: int,
}

impl Cur {
    /// The position as it is reported, with columns from 1.
    pub open spec fn pos(self) -> Position {
        Position {
            offset: self.offset as usize,
            line: self.line as u32,
            column: (self.column + 1) as u32,
        }
    }

    /// The span from `start` to here.
    pub open spec fn span_from(self, start: Position) -> Span {
        Span { start, end: self.pos() }
    }

    /// Moved within its line, to offset `o`.
    pub open spec fn to(self, o: int) -> Cur {
        Cur { offset: o, line: self.line, column: self.column + (o - self.offset) }
    }

    /// Moved to the end of a run.
    pub open spec fn run(self, b: Seq<u8>, u: Until) -> Cur {
        self.to(run_end(b, self.offset, u))
    }

    /// Moved past the line break that stands here: CRLF, LF or CR.
    pub open spec fn newline(self, b: Seq<u8>) -> Cur {
        Cur {
            offset: if b[self.offset] == CR && self.offset + 1 < b.len() && b[self.offset + 1]
                == LF {
                self.offset + 2
            } else {
                self.offset + 1
            },
            line: self.line + 1,
            column: 0,
        }
    }

    /// Whether byte `x` stands here.
    pub open spec fn sees(self, b: Seq<u8>, x: u8) -> bool {
        self.offset < b.len() && b[self.offset] == x
    }

    /// Whether a line break stands here.
    pub open spec fn sees_break(self, b: Seq<u8>) -> bool {
        self.offset < b.len() && line_break(b[self.offset])
    }

    /// Whether a space or a tab stands here.
    pub open spec fn sees_whitespace(self, b: Seq<u8>) -> bool {
        self.offset < b.len() && whitespace(b[self.offset])
    }

    /// Whether `---` or `...` stands here, as a marker.
    pub open spec fn sees_marker(self, b: Seq<u8>) -> bool {
        marker_at(b, self.offset, DASH) || marker_at(b, self.offset, DOT)
    }

    /// The cursor lies in the input, between two characters, and its counts are
    /// bounded by its offset.
    pub open spec fn ok(self, b: Seq<u8>) -> bool {
        &&& valid_utf8(b)
        &&& b.len() <= MAX_INPUT
        &&& 0 <= self.offset <= b.len()
        &&& at_boundary(b, self.offset)
        &&& 0 <= self.column <= self.offset
        &&& 1 <= self.line <= self.offset + 1
    }
}

/// Whether the byte at `i` is blank; the end of the input counts.
pub open spec fn blank_at(b: Seq<u8>, i: int) -> bool {
    i >= b.len() || blank(b[i])
}

/// Whether the byte at `i` is blank or a flow indicator; the end of the input
/// counts.
pub open spec fn blank_or_flow_at(b: Seq<u8>, i: int) -> bool {
    i >= b.len() || blank(b[i]) || flow(b[i])
}

/// Whether three times `x`, followed by a blank or the end, stands at `i`.
pub open spec fn marker_at(b: Seq<u8>, i: int, x: u8) -> bool {
    i + 3 <= b.len() && b[i] == x && b[i + 1] == x && b[i + 2] == x && blank_at(b, i + 3)
}

/// Moving over an ASCII byte keeps a cursor in order.
pub proof fn lemma_step_ok(b: Seq<u8>, c: Cur)
    requires
        c.ok(b),
        c.offset < b.len(),
        b[c.offset] < 0x80,
    ensures
        c.to(c.offset + 1).ok(b),
{
    lemma_ascii_boundary(b, c.offset);
}

/// Moving along a run keeps a cursor in order.
pub proof fn lemma_run_ok(b: Seq<u8>, c: Cur, u: Until)
    requires
        c.ok(b),
    ensures
        c.run(b, u).ok(b),
        c.offset <= c.run(b, u).offset <= b.len(),
{
    lemma_run(b, c.offset, u);
    lemma_run_boundary(b, c.offset, u);
}

/// Moving past a line break keeps a cursor in order.
pub proof fn lemma_newline_ok(b: Seq<u8>, c: Cur)
    requires
        c.ok(b),
        c.sees_break(b),
    ensures
        c.newline(b).ok(b),
        c.offset < c.newline(b).offset <= b.len(),
{
    lemma_ascii_boundary(b, c.offset);
    if c.newline(b).offset == c.offset + 2 {
        lemma_ascii_boundary(b, c.offset + 1);
    }
}

/// A place in the input, with the line and the column (from 0) it is on.
#[derive(Debug, Clone, Copy, PartialEq, Eq, Structural)]
pub struct Cursor {
    pub offset: usize,
    pub line: u32,
    pub column: u32,
}

impl View for Cursor {
    type V = Cur;

    open spec fn view(&self) -> Cur {
        Cur { offset: self.offset as int, line: self.line as int, column: self.column as int }
    }
}

/// Finds the end of a run.
pub fn find(bytes: &[u8], lo: usize, u: Until) -> (r: usize)
    requires
        lo <= bytes@.len(),
    ensures
        r == run_end(bytes@, lo as int, u),
        lo <= r <= bytes@.len(),
{
    let end: usize = bytes.len();
    proof {
        lemma_run(bytes@, lo as int, u);
        assert(run_end(bytes@, lo as int, u) <= end);
    }
    match u {
        Until::Break => {
            assert((|x: u8| stops(u, x)) =~= (|b: u8| line_break(b)));
            lo + find_line_end(bytes, lo)
        },
        Until::NotWhitespace => {
            assert((|x: u8| stops(u, x)) =~= (|b: u8| !whitespace(b)));
            lo + skip_spaces_tabs(bytes, lo)
        },
        Until::PlainBlock => {
            assert((|x: u8| stops(u, x)) =~= (|b: u8| block_stop(b)));
            lo + find_plain_scalar_end_block(bytes, lo)
        },
        Until::PlainFlow => {
            assert((|x: u8| stops(u, x)) =~= (|b: u8| flow_stop(b)));
            lo + find_plain_scalar_end_flow(bytes, lo)
        },
        _ => find_bytewise(bytes, lo, u),
    }
}

fn find_bytewise(bytes: &[u8], lo: usize, u: Until) -> (r: usize)
    requires
        lo <= bytes@.len(),
    ensures
        r == run_end(bytes@, lo as int, u),
{
    let mut i: usize = lo;
    while i < bytes.len() && !is_stop(u, bytes[i])
        invariant
            lo <= i <= bytes@.len(),
            run_end(bytes@, lo as int, u) == run_end(bytes@, i as int, u),
        decreases bytes@.len() - i,
    {
        i += 1;
    }
    i
}

fn is_stop(u: Until, x: u8) -> (r: bool)
    ensures
        r == stops(u, x),
{
    match u {
        Until::Break => is_break(x),
        Until::Blank => is_blank_or_break(x),
        Until::BlankOrFlow => is_blank_or_break(x) || is_flow(x),
        Until::TagPart => is_blank_or_break(x) || is_flow(x) || x == BANG,
        Until::Gt => x == GT,
        Until::Space => x == SPACE,
        Until::NotSpace => x != SPACE,
        Until::NotWhitespace => !is_whitespace(x),
        Until::SingleQuoted => x == SQUOTE || is_break(x),
        Until::DoubleQuoted => x == DQUOTE || x == BACKSLASH || is_blank_or_break(x),
        Until::PlainBlock => is_blank_or_break(x) || x == 0x23 || x == 0x3a,
        Until::PlainFlow => is_blank_or_break(x) || x == 0x23 || x == 0x3a || is_flow(x),
    }
}

/// Whether the byte at `i` is blank; the end of the input counts.
pub fn is_blank_at(bytes: &[u8], i: usize) -> (r: bool)
    ensures
        r == blank_at(bytes@, i as int),
{
    i >= bytes.len() || is_blank_or_break(bytes[i])
}

/// Whether the byte at `i` is blank or a flow indicator; the end of the input
/// counts.
pub fn is_blank_or_flow_at(bytes: &[u8], i: usize) -> (r: bool)
    ensures
        r == blank_or_flow_at(bytes@, i as int),
{
    i >= bytes.len() || is_blank_or_break(bytes[i]) || is_flow(bytes[i])
}

/// Whether three times `x`, followed by a blank or the end, stands at `i`.
pub fn is_marker_at(bytes: &[u8], i: usize, x: u8) -> (r: bool)
    requires
        i <= bytes@.len(),
    ensures
        r == marker_at(bytes@, i as int, x),
{
    bytes.len() - i >= 3 && bytes[i] == x && bytes[i + 1] == x && bytes[i + 2] == x && is_blank_at(
        bytes,
        i + 3,
    )
}

impl Cursor {
    /// The position as it is reported, with columns from 1.
    pub fn pos(&self) -> (r: Position)
        requires
            self.column < u32::MAX,
        ensures
            r == self@.pos(),
    {
        Position { offset: self.offset, line: self.line, column: self.column + 1 }
    }

    /// The span from `start` to here.
    pub fn span_from(&self, start: Position) -> (r: Span)
        requires
            self.column < u32::MAX,
        ensures
            r == self@.span_from(start),
    {
        Span { start, end: self.pos() }
    }

    /// The byte that stands here.
    pub fn peek(&self, bytes: &[u8]) -> (r: Option<u8>)
        ensures
            r is Some <==> self.offset < bytes@.len(),
            r matches Some(x) ==> x == bytes@[self.offset as int],
    {
        if self.offset < bytes.len() {
            Some(bytes[self.offset])
        } else {
            None
        }
    }

    /// Whether byte `x` stands here.
    pub fn at(&self, bytes: &[u8], x: u8) -> (r: bool)
        ensures
            r == self@.sees(bytes@, x),
    {
        self.offset < bytes.len() && bytes[self.offset] == x
    }

    /// Whether a line break stands here.
    pub fn at_break(&self, bytes: &[u8]) -> (r: bool)
        ensures
            r == self@.sees_break(bytes@),
    {
        self.offset < bytes.len() && is_break(bytes[self.offset])
    }

    /// Whether a space or a tab stands here.
    pub fn at_whitespace(&self, bytes: &[u8]) -> (r: bool)
        ensures
            r == self@.sees_whitespace(bytes@),
    {
        self.offset < bytes.len() && is_whitespace(bytes[self.offset])
    }

    /// Whether `---` or `...` stands here, as a marker.
    pub fn at_marker(&self, bytes: &[u8]) -> (r: bool)
        requires
            self@.ok(bytes@),
        ensures
            r == self@.sees_marker(bytes@),
    {
        is_marker_at(bytes, self.offset, DASH) || is_marker_at(bytes, self.offset, DOT)
    }

    /// Moves past one ASCII byte.
    pub fn step(self, bytes: &[u8]) -> (r: Cursor)
        requires
            self@.ok(bytes@),
            self.offset < bytes@.len(),
            bytes@[self.offset as int] < 0x80,
        ensures
            r@ == self@.to(self.offset + 1),
            r@.ok(bytes@),
    {
        proof {
            lemma_step_ok(bytes@, self@);
        }
        Cursor { offset: self.offset + 1, line: self.line, column: self.column + 1 }
    }

    /// Moves to an offset further on in the line.
    pub fn to(self, bytes: &[u8], o: usize) -> (r: Cursor)
        requires
            self@.ok(bytes@),
            self.offset <= o <= bytes@.len(),
            at_boundary(bytes@, o as int),
        ensures
            r@ == self@.to(o as int),
            r@.ok(bytes@),
    {
        Cursor { offset: o, line: self.line, column: self.column + (o - self.offset) as u32 }
    }

    /// Moves to the end of a run.
    pub fn run(self, bytes: &[u8], u: Until) -> (r: Cursor)
        requires
            self@.ok(bytes@),
        ensures
            r@ == self@.run(bytes@, u),
            r@.ok(bytes@),
            self.offset <= r.offset,
    {
        let o = find(bytes, self.offset, u);
        proof {
            lemma_run_ok(bytes@, self@, u);
        }
        self.to(bytes, o)
    }

    /// Moves past a line break.
    pub fn skip_line(self, bytes: &[u8]) -> (r: Cursor)
        requires
            self@.ok(bytes@),
            self@.sees_break(bytes@),
        ensures
            r@ == self@.newline(bytes@),
            r@.ok(bytes@),
            self.offset < r.offset,
    {
        proof {
            lemma_newline_ok(bytes@, self@);
        }
        let o: usize = if bytes[self.offset] == CR && self.offset + 1 < bytes.len() && bytes[self.offset
            + 1] == LF {
            self.offset + 2
        } else {
            self.offset + 1
        };
        Cursor { offset: o, line: self.line + 1, column: 0 }
    }
}

} // verus!
