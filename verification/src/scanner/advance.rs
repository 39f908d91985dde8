//! Scanning moves on: no token ends before it starts, or behind the end of the input.
use crate::scanner::block::{after_header, block_lines, block_scalar, header, spaces};
use crate::scanner::chars::{line_break, whitespace, BACKSLASH, DQUOTE, HASH, LT, BANG, SQUOTE};
use crate::scanner::cursor::{lemma_run, run_end, Cur, Until};
use crate::scanner::model::{Scan, Step};
use crate::scanner::plain::{piece_end, plain, plain_scalar, PlainState};
use crate::scanner::props::{anchor_or_alias, directive, tag, Lexed};
use crate::scanner::quoted::{
    double_quoted, hex_char, hex_escape, lemma_hex_run, lemma_skip_blanks, lemma_skip_dq_blanks,
    simple_escape, single_quoted, skip_blanks, skip_dq_blanks, Quoted,
};
use crate::scanner::token::TokenKindView;
use crate::types::{Position, ScalarStyle};
use vstd::prelude::*;

verus! {

/// `d` lies behind `c`, or where `c` lies, and within the input.
pub open spec fn onward(b: Seq<u8>, c: Cur, d: Cur) -> bool {
    c.offset <= d.offset <= b.len()
}

/// What is scanned ends behind its start.
pub open spec fn lexed_onward(b: Seq<u8>, c: Cur, l: Lexed) -> bool {
    l matches Ok((d, _)) ==> onward(b, c, d)
}

/// A scalar ends behind its start.
pub open spec fn quoted_onward(b: Seq<u8>, c: Cur, q: Quoted) -> bool {
    q matches Ok((d, _)) ==> onward(b, c, d)
}

proof fn lemma_run_onward(b: Seq<u8>, c: Cur, u: Until)
    requires
        0 <= c.offset <= b.len(),
    ensures
        onward(b, c, c.run(b, u)),
{
    lemma_run(b, c.offset, u);
}

proof fn lemma_single_quoted(b: Seq<u8>, c: Cur, acc: Seq<char>, start: Position)
    requires
        0 <= c.offset <= b.len(),
    ensures
        quoted_onward(b, c, single_quoted(b, c, acc, start)),
    decreases b.len() - c.offset,
{
    if c.offset >= b.len() {
    } else if b[c.offset] == SQUOTE {
        if c.offset + 1 < b.len() && b[c.offset + 1] == SQUOTE {
            lemma_single_quoted(b, c.to(c.offset + 2), acc.push('\''), start);
        }
    } else if line_break(b[c.offset]) {
        lemma_skip_blanks(b, c.newline(b), 0);
        let (n, k) = skip_blanks(b, c.newline(b), 0);
        lemma_single_quoted(
            b,
            n,
            crate::scanner::quoted::trim_end(acc) + crate::scanner::quoted::folded(k),
            start,
        );
    } else {
        lemma_run(b, c.offset, Until::SingleQuoted);
        let e = run_end(b, c.offset, Until::SingleQuoted);
        lemma_single_quoted(b, c.to(e), acc + crate::text::text(b, c.offset, e), start);
    }
}

proof fn lemma_double_quoted(
    b: Seq<u8>,
    c: Cur,
    acc: Seq<char>,
    ws: Seq<char>,
    indent_from: Option<int>,
    start: Position,
)
    requires
        0 <= c.offset <= b.len(),
    ensures
        quoted_onward(b, c, double_quoted(b, c, acc, ws, indent_from, start)),
    decreases b.len() - c.offset,
{
    if c.offset >= b.len() || b[c.offset] == DQUOTE {
    } else if b[c.offset] == BACKSLASH {
        let e = c.to(c.offset + 1);
        if e.offset >= b.len() {
        } else if simple_escape(b[e.offset]) is Some {
            lemma_double_quoted(
                b,
                e.to(e.offset + 1),
                (acc + ws).push(simple_escape(b[e.offset])->0),
                seq![],
                indent_from,
                start,
            );
        } else if hex_escape(b[e.offset]) > 0 {
            lemma_hex_run(b, e.offset + 1, hex_escape(b[e.offset]));
            if let Ok((n, ch)) = hex_char(b, e.to(e.offset + 1), hex_escape(b[e.offset]), start) {
                lemma_double_quoted(b, n, (acc + ws).push(ch), seq![], indent_from, start);
            }
        } else if line_break(b[e.offset]) {
            lemma_run(b, e.newline(b).offset, Until::NotWhitespace);
            let n = e.newline(b).run(b, Until::NotWhitespace);
            lemma_double_quoted(b, n, acc + ws, seq![], indent_from, start);
        }
    } else if line_break(b[c.offset]) {
        lemma_skip_dq_blanks(b, c.newline(b), 0, indent_from, start);
        if let Ok((n, k)) = skip_dq_blanks(b, c.newline(b), 0, indent_from, start) {
            lemma_double_quoted(
                b,
                n,
                acc + crate::scanner::quoted::folded(k),
                seq![],
                indent_from,
                start,
            );
        }
    } else if whitespace(b[c.offset]) {
        lemma_double_quoted(
            b,
            c.to(c.offset + 1),
            acc,
            ws.push(b[c.offset] as char),
            indent_from,
            start,
        );
    } else {
        lemma_run(b, c.offset, Until::DoubleQuoted);
        let e = run_end(b, c.offset, Until::DoubleQuoted);
        lemma_double_quoted(
            b,
            c.to(e),
            acc + ws + crate::text::text(b, c.offset, e),
            seq![],
            indent_from,
            start,
        );
    }
}

proof fn lemma_plain(b: Seq<u8>, s: PlainState, in_flow: bool, indent: int)
    requires
        0 <= s.cur.offset <= b.len(),
    ensures
        onward(b, s.cur, plain(b, s, in_flow, indent).cur),
        plain(b, s, in_flow, indent).cur.offset == s.cur.offset ==> plain(b, s, in_flow, indent)
            == s,
    decreases b.len() - s.cur.offset,
{
    let c = s.cur;
    if c.offset < b.len() && !(c.column == 0 && c.sees_marker(b)) && !(b[c.offset] == HASH && (
    c.offset > s.end || s.content.len() == 0)) {
        if whitespace(b[c.offset]) {
            let ws = if !s.lead {
                s.ws.push(b[c.offset] as char)
            } else {
                s.ws
            };
            lemma_plain(b, PlainState { cur: c.to(c.offset + 1), ws, ..s }, in_flow, indent);
        } else if line_break(b[c.offset]) {
            lemma_run(b, c.newline(b).offset, Until::NotSpace);
            let s2 = PlainState {
                cur: c.newline(b).run(b, Until::NotSpace),
                ws: seq![],
                lead: true,
                trail: if s.lead {
                    s.trail + 1
                } else {
                    0
                },
                ..s
            };
            lemma_plain(b, s2, in_flow, indent);
        } else {
            lemma_run(
                b,
                c.offset,
                if in_flow {
                    Until::PlainFlow
                } else {
                    Until::PlainBlock
                },
            );
            let e = piece_end(b, c.offset, in_flow);
            let s2 = PlainState {
                cur: c.to(e),
                content: s.content + crate::scanner::plain::separator(s) + crate::text::text(
                    b,
                    c.offset,
                    e,
                ),
                ws: seq![],
                lead: false,
                trail: 0,
                end: e,
                last_line: c.line,
            };
            lemma_plain(b, s2, in_flow, indent);
        }
    }
}

proof fn lemma_block_lines(
    b: Seq<u8>,
    c: Cur,
    style: ScalarStyle,
    indent: nat,
    acc: Seq<char>,
    breaks: nat,
    prev_more: bool,
)
    requires
        0 <= c.offset <= b.len(),
    ensures
        block_lines(b, c, style, indent, acc, breaks, prev_more) matches Ok(l) ==> onward(
            b,
            c,
            l.cur,
        ),
    decreases b.len() - c.offset,
{
    let k = spaces(b, c, indent);
    let c1 = c.to(c.offset + k);
    lemma_run(b, c.offset, Until::NotSpace);
    lemma_run(b, c1.offset, Until::Break);
    if c.column == 0 && c.sees_marker(b) {
    } else if k < indent && c1.offset < b.len() && !line_break(b[c1.offset]) {
    } else if c1.offset >= b.len() {
    } else if line_break(b[c1.offset]) {
        lemma_block_lines(b, c1.newline(b), style, indent, acc, breaks + 1, prev_more);
    } else {
        let more = b[c1.offset] == crate::scanner::chars::SPACE || b[c1.offset]
            == crate::scanner::chars::TAB;
        let e = run_end(b, c1.offset, Until::Break);
        let acc2 = acc + crate::scanner::block::block_join(style, acc, breaks, prev_more || more)
            + crate::text::text(b, c1.offset, e);
        let c2 = c1.to(e);
        if c2.sees_break(b) {
            lemma_block_lines(b, c2.newline(b), style, indent, acc2, 1, more);
        } else {
            lemma_block_lines(b, c2, style, indent, acc2, 0, more);
        }
    }
}

proof fn lemma_block_scalar(b: Seq<u8>, c: Cur, style: ScalarStyle, parent: int, start: Position)
    requires
        0 <= c.offset <= b.len(),
    ensures
        quoted_onward(b, c, block_scalar(b, c, style, parent, start)),
{
    let h = header(b, c);
    assert(onward(b, c, h.cur));
    lemma_run_onward(b, h.cur, Until::NotWhitespace);
    let c1 = h.cur.run(b, Until::NotWhitespace);
    lemma_run_onward(b, c1, Until::Break);
    let body = after_header(b, h.cur);
    assert(onward(b, c, body));
    let indent = match h.explicit {
        Some(n) => Ok(((if parent > 0 { parent } else { 0 }) + n) as nat),
        None => crate::scanner::block::auto_indent(
            b,
            body,
            (if parent + 1 > 0 { parent + 1 } else { 0 }) as nat,
        ),
    };
    if let Ok(n) = indent {
        lemma_block_lines(b, body, style, n, seq![], 0, false);
    }
}

proof fn lemma_anchor(b: Seq<u8>, c: Cur, is_anchor: bool, start: Position)
    requires
        0 <= c.offset <= b.len(),
    ensures
        lexed_onward(b, c, anchor_or_alias(b, c, is_anchor, start)),
{
    lemma_run_onward(b, c, Until::BlankOrFlow);
}

proof fn lemma_tag(b: Seq<u8>, c: Cur, bang: int, start: Position)
    requires
        0 <= c.offset <= b.len(),
    ensures
        lexed_onward(b, c, tag(b, c, bang, start)),
{
    let o = c.to(c.offset + 1);
    if c.sees(b, LT) {
        lemma_run_onward(b, o, Until::Gt);
    } else if c.sees(b, BANG) {
        lemma_run_onward(b, o, Until::BlankOrFlow);
    } else {
        lemma_run_onward(b, c, Until::TagPart);
        let e = c.run(b, Until::TagPart);
        if e.sees(b, BANG) {
            lemma_run_onward(b, e.to(e.offset + 1), Until::BlankOrFlow);
        }
    }
}

proof fn lemma_directive(b: Seq<u8>, c: Cur, start: Position)
    requires
        0 <= c.offset <= b.len(),
    ensures
        lexed_onward(b, c, directive(b, c, start)),
{
    lemma_run_onward(b, c, Until::Blank);
    let e = c.run(b, Until::Blank);
    // A version.
    lemma_run_onward(b, e, Until::NotWhitespace);
    let o = e.run(b, Until::NotWhitespace);
    lemma_run_onward(b, o, Until::Blank);
    lemma_run_onward(b, o.run(b, Until::Blank), Until::NotWhitespace);
    // A tag handle and its prefix.
    lemma_run_onward(b, e, Until::NotSpace);
    let h = e.run(b, Until::NotSpace);
    lemma_run_onward(b, h, Until::Space);
    let he = h.run(b, Until::Space);
    lemma_run_onward(b, he, Until::NotSpace);
    lemma_run_onward(b, he.run(b, Until::NotSpace), Until::Blank);
    // Anything else.
    lemma_run_onward(b, e, Until::Break);
}

/// The scanner stands in its input.
pub open spec fn sane(s: Scan) -> bool {
    &&& 0 <= s.cur.offset <= s.b.len()
    &&& !s.started ==> s.cur.offset == 0
    &&& s.ended ==> s.cur.offset == s.b.len()
}

/// A step ends behind its start, and touches neither the input nor the flags of the
/// stream.
pub open spec fn moves(s: Scan, step: Step) -> bool {
    step matches Ok(t) ==> {
        &&& s.cur.offset < t.cur.offset <= s.b.len()
        &&& t.b == s.b
        &&& t.started == s.started
        &&& t.ended == s.ended
        &&& t.trivia == s.trivia
        &&& t.keep_trivia == s.keep_trivia
        &&& t.errored == s.errored
    }
}

/// Closing block collections touches only them and the queue.
pub proof fn lemma_unroll_frame(s: Scan, column: int)
    ensures
        ({
            let t = s.unroll(column);
            &&& t == (Scan { tokens: t.tokens, indent: t.indent, indents: t.indents, ..s })
            &&& t.tokens.len() + t.indents.len() == s.tokens.len() + s.indents.len()
        }),
    decreases s.indents.len(),
{
    if !(!s.in_block() || s.indent <= column || s.indents.len() == 0) {
        let t = Scan {
            indent: s.indents.last(),
            indents: s.indents.drop_last(),
            ..s.enqueue(TokenKindView::BlockEnd, crate::types::point(s.pos()))
        };
        lemma_unroll_frame(t, column);
    }
}

proof fn lemma_moves_document(s: Scan)
    requires
        0 <= s.cur.offset < s.b.len(),
    ensures
        crate::scanner::cursor::marker_at(
            s.b,
            s.cur.offset,
            crate::scanner::chars::DASH,
        ) ==> moves(s, s.document_start()),
        crate::scanner::cursor::marker_at(
            s.b,
            s.cur.offset,
            crate::scanner::chars::DOT,
        ) ==> moves(s, s.document_end()),
        moves(s, s.directive()),
{
    lemma_unroll_frame(s, -1);
    lemma_directive(s.b, s.step().cur, s.pos());
    if s.cur.offset + 3 <= s.b.len() {
        let c = s.cur.to(s.cur.offset + 3);
        lemma_run_onward(s.b, c, Until::NotWhitespace);
        lemma_run_onward(s.b, c.run(s.b, Until::NotWhitespace), Until::Break);
    }
}

proof fn lemma_moves_block(s: Scan)
    requires
        0 <= s.cur.offset < s.b.len(),
    ensures
        moves(s, s.block_entry()),
        moves(s, s.key_indicator()),
        moves(s, s.value_indicator()),
{
    reveal(Scan::value_of_key);
}

proof fn lemma_moves_flow(s: Scan, is_sequence: bool, kind: TokenKindView)
    requires
        0 <= s.cur.offset < s.b.len(),
    ensures
        moves(s, s.flow_start(is_sequence)),
        moves(s, s.flow_end(kind)),
        moves(s, s.flow_entry()),
{
}

/// A directive ends behind its start.
pub proof fn lemma_directive_moves(s: Scan)
    requires
        0 <= s.cur.offset < s.b.len(),
    ensures
        directive(s.b, s.step().cur, s.pos()) matches Ok((c, _)) ==> s.cur.offset < c.offset
            <= s.b.len(),
{
    lemma_directive(s.b, s.step().cur, s.pos());
}

/// Properties and scalars with an indicator end behind their start.
pub proof fn lemma_node_onward(s: Scan, is_anchor: bool, style: ScalarStyle)
    requires
        0 <= s.cur.offset < s.b.len(),
    ensures
        ({
            let c = s.step().cur;
            let indent_from = if s.in_block() {
                Some(s.indent + 1)
            } else {
                None
            };
            &&& lexed_onward(s.b, c, anchor_or_alias(s.b, c, is_anchor, s.pos()))
            &&& lexed_onward(s.b, c, tag(s.b, c, s.cur.offset, s.pos()))
            &&& quoted_onward(s.b, c, block_scalar(s.b, c, style, s.indent, s.pos()))
            &&& quoted_onward(s.b, c, single_quoted(s.b, c, seq![], s.pos()))
            &&& quoted_onward(
                s.b,
                c,
                double_quoted(s.b, c, seq![], seq![], indent_from, s.pos()),
            )
        }),
{
    let c = s.step().cur;
    let indent_from = if s.in_block() {
        Some(s.indent + 1)
    } else {
        None
    };
    lemma_anchor(s.b, c, is_anchor, s.pos());
    lemma_tag(s.b, c, s.cur.offset, s.pos());
    lemma_block_scalar(s.b, c, style, s.indent, s.pos());
    lemma_single_quoted(s.b, c, seq![], s.pos());
    lemma_double_quoted(s.b, c, seq![], seq![], indent_from, s.pos());
}

proof fn lemma_moves_node(s: Scan, is_anchor: bool, style: ScalarStyle)
    requires
        0 <= s.cur.offset < s.b.len(),
    ensures
        moves(s, s.anchor(is_anchor)),
        moves(s, s.tag()),
        moves(s, s.block_scalar(style)),
        moves(s, s.single_quoted()),
        moves(s, s.double_quoted()),
{
    lemma_node_onward(s, is_anchor, style);
}

/// A plain scalar ends behind its start.
pub proof fn lemma_moves_plain(s: Scan)
    requires
        0 <= s.cur.offset < s.b.len(),
    ensures
        moves(s, s.plain()),
{
    let p = PlainState {
        cur: s.cur,
        content: seq![],
        ws: seq![],
        lead: false,
        trail: 0,
        end: s.cur.offset,
        last_line: s.cur.line,
    };
    assert(plain_scalar(s.b, s.cur, !s.in_block(), s.indent) == plain(
        s.b,
        p,
        !s.in_block(),
        s.indent,
    ));
    lemma_plain(s.b, p, !s.in_block(), s.indent);
}

/// The token that starts here ends behind its start.
pub proof fn lemma_dispatch_moves(s: Scan)
    requires
        0 <= s.cur.offset < s.b.len(),
    ensures
        moves(s, s.dispatch()),
{
    reveal(Scan::dispatch);
    lemma_moves_document(s);
    lemma_moves_flow(s, true, TokenKindView::FlowSequenceEnd);
    lemma_moves_flow(s, false, TokenKindView::FlowMappingEnd);
    lemma_moves_block(s);
    lemma_moves_node(s, true, ScalarStyle::Literal);
    lemma_moves_node(s, false, ScalarStyle::Folded);
    lemma_moves_plain(s);
}

} // verus!
