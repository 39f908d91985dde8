//! The limit on the size of a document: a longer input fails, and a shorter one never
//! fails for its size.
use crate::error::ErrorView;
use crate::scanner::advance::{lemma_unroll_frame, sane};
use crate::scanner::block::{after_header, auto_indent, block_lines, block_scalar, header, spaces};
use crate::scanner::chars::{line_break, whitespace, BACKSLASH, DQUOTE, SPACE, SQUOTE, TAB};
use crate::scanner::cursor::{lemma_run, run_end, Cur, Until, MAX_INPUT};
use crate::scanner::frame::lemma_kept_fetch;
use crate::scanner::model::{lemma_skip_in_line, Front, Next, Scan, Step};
use crate::scanner::quoted::{
    double_quoted, folded, hex_char, hex_escape, lemma_hex_run, lemma_skip_blanks,
    lemma_skip_dq_blanks, simple_escape, single_quoted, skip_blanks, skip_dq_blanks, trim_end,
    Quoted,
};
use crate::scanner::sequence::{
    is_trivia, lemma_fresh_orderly, lemma_front_orderly, lemma_pop_orderly,
    lemma_pop_trivia_orderly, orderly,
};
use crate::scanner::stream::{lemma_fetch_cover, lemma_front_cover, lemma_gap_cover, tape};
use crate::types::{Position, ScalarStyle};
use vstd::prelude::*;

verus! {

/// The error with which scanning ends from a state on, if it does.
pub open spec fn failure(s: Scan) -> Option<ErrorView>
    decreases s.weight(),
{
    match s.next() {
        Next::Token(_, rest) => if 0 <= rest.weight() < s.weight() {
            failure(rest)
        } else {
            None
        },
        Next::End(_) => None,
        Next::Failed(f) => Some(f.error),
    }
}

/// The error is about something other than the size of the document.
pub open spec fn not_of_size(e: ErrorView) -> bool {
    !(e.kind is DocumentSizeExceeded)
}

spec fn quoted_fine(q: Quoted) -> bool {
    q matches Err(e) ==> not_of_size(e)
}

spec fn step_fine(step: Step) -> bool {
    step matches Err(f) ==> not_of_size(f.error)
}

proof fn lemma_single_quoted(b: Seq<u8>, c: Cur, acc: Seq<char>, start: Position)
    ensures
        quoted_fine(single_quoted(b, c, acc, start)),
    decreases b.len() - c.offset,
{
    if c.offset >= b.len() {
    } else if b[c.offset] == SQUOTE {
        if c.offset + 1 < b.len() && b[c.offset + 1] == SQUOTE {
            lemma_single_quoted(b, c.to(c.offset + 2), acc.push('\''), start);
        }
    } else if line_break(b[c.offset]) {
        lemma_skip_blanks(b, c.newline(b), 0);
        let (n, k) = skip_blanks(b, c.newline(b), 0);
        lemma_single_quoted(b, n, trim_end(acc) + folded(k), start);
    } else {
        lemma_run(b, c.offset, Until::SingleQuoted);
        let e = run_end(b, c.offset, Until::SingleQuoted);
        lemma_single_quoted(b, c.to(e), acc + crate::text::text(b, c.offset, e), start);
    }
}

proof fn lemma_dq_blanks(b: Seq<u8>, c: Cur, n: nat, tabs_from: Option<int>, start: Position)
    ensures
        skip_dq_blanks(b, c, n, tabs_from, start) matches Err(e) ==> not_of_size(e),
    decreases b.len() - c.offset,
{
    if c.offset >= b.len() {
    } else if whitespace(b[c.offset]) {
        lemma_dq_blanks(b, c.to(c.offset + 1), n, tabs_from, start);
    } else if line_break(b[c.offset]) {
        lemma_dq_blanks(b, c.newline(b), n + 1, tabs_from, start);
    }
}

proof fn lemma_double_quoted(
    b: Seq<u8>,
    c: Cur,
    acc: Seq<char>,
    ws: Seq<char>,
    m: Option<int>,
    start: Position,
)
    ensures
        quoted_fine(double_quoted(b, c, acc, ws, m, start)),
    decreases b.len() - c.offset,
{
    if c.offset >= b.len() || b[c.offset] == DQUOTE {
    } else if b[c.offset] == BACKSLASH {
        let e = c.to(c.offset + 1);
        if e.offset >= b.len() {
        } else if simple_escape(b[e.offset]) is Some {
            lemma_double_quoted(
                b,
                e.to(e.offset + 1),
                (acc + ws).push(simple_escape(b[e.offset])->0),
                seq![],
                m,
                start,
            );
        } else if hex_escape(b[e.offset]) > 0 {
            lemma_hex_run(b, e.offset + 1, hex_escape(b[e.offset]));
            if let Ok((n, ch)) = hex_char(b, e.to(e.offset + 1), hex_escape(b[e.offset]), start) {
                lemma_double_quoted(b, n, (acc + ws).push(ch), seq![], m, start);
            }
        } else if line_break(b[e.offset]) {
            lemma_run(b, e.newline(b).offset, Until::NotWhitespace);
            let n = e.newline(b).run(b, Until::NotWhitespace);
            lemma_double_quoted(b, n, acc + ws, seq![], m, start);
        }
    } else if line_break(b[c.offset]) {
        lemma_skip_dq_blanks(b, c.newline(b), 0, m, start);
        lemma_dq_blanks(b, c.newline(b), 0, m, start);
        if let Ok((n, k)) = skip_dq_blanks(b, c.newline(b), 0, m, start) {
            lemma_double_quoted(b, n, acc + folded(k), seq![], m, start);
        }
    } else if whitespace(b[c.offset]) {
        lemma_double_quoted(
            b,
            c.to(c.offset + 1),
            acc,
            ws.push(b[c.offset] as char),
            m,
            start,
        );
    } else {
        lemma_run(b, c.offset, Until::DoubleQuoted);
        let e = run_end(b, c.offset, Until::DoubleQuoted);
        lemma_double_quoted(
            b,
            c.to(e),
            acc + ws + crate::text::text(b, c.offset, e),
            seq![],
            m,
            start,
        );
    }
}

proof fn lemma_block_lines(
    b: Seq<u8>,
    c: Cur,
    style: ScalarStyle,
    indent: nat,
    acc: Seq<char>,
    breaks: nat,
    prev_more: bool,
)
    ensures
        block_lines(b, c, style, indent, acc, breaks, prev_more) matches Err(e) ==> not_of_size(e),
    decreases b.len() - c.offset,
{
    let k = spaces(b, c, indent);
    let c1 = c.to(c.offset + k);
    lemma_run(b, c.offset, Until::NotSpace);
    lemma_run(b, c1.offset, Until::Break);
    if !(c.column == 0 && c.sees_marker(b)) && !(c1.sees(b, TAB) && k < indent) && !(k < indent
        && c1.offset < b.len() && !line_break(b[c1.offset])) && c1.offset < b.len() {
        if line_break(b[c1.offset]) {
            lemma_block_lines(b, c1.newline(b), style, indent, acc, breaks + 1, prev_more);
        } else {
            let more = b[c1.offset] == SPACE || b[c1.offset] == TAB;
            let e = run_end(b, c1.offset, Until::Break);
            let acc2 = acc + crate::scanner::block::block_join(
                style,
                acc,
                breaks,
                prev_more || more,
            ) + crate::text::text(b, c1.offset, e);
            let c2 = c1.to(e);
            if c2.sees_break(b) {
                lemma_block_lines(b, c2.newline(b), style, indent, acc2, 1, more);
            } else {
                lemma_block_lines(b, c2, style, indent, acc2, 0, more);
            }
        }
    }
}

proof fn lemma_block_scalar(b: Seq<u8>, c: Cur, style: ScalarStyle, parent: int, start: Position)
    ensures
        quoted_fine(block_scalar(b, c, style, parent, start)),
{
    let h = header(b, c);
    let body = after_header(b, h.cur);
    let indent = match h.explicit {
        Some(n) => Ok(((if parent > 0 { parent } else { 0 }) + n) as nat),
        None => auto_indent(b, body, (if parent + 1 > 0 { parent + 1 } else { 0 }) as nat),
    };
    if let Ok(n) = indent {
        lemma_block_lines(b, body, style, n, seq![], 0, false);
    }
}

proof fn lemma_node_fine(s: Scan, is_anchor: bool, style: ScalarStyle)
    ensures
        step_fine(s.anchor(is_anchor)),
        step_fine(s.tag()),
        step_fine(s.block_scalar(style)),
        step_fine(s.single_quoted()),
        step_fine(s.double_quoted()),
        step_fine(s.plain()),
        step_fine(s.directive()),
{
    let n = s.node_start();
    let c = n.step().cur;
    lemma_block_scalar(s.b, s.step().cur, style, s.indent, s.pos());
    lemma_single_quoted(s.b, c, seq![], s.pos());
    let indent_from = if n.in_block() {
        Some(n.indent + 1)
    } else {
        None
    };
    lemma_double_quoted(s.b, c, seq![], seq![], indent_from, s.pos());
    lemma_unroll_frame(s, -1);
}

proof fn lemma_dispatch_fine(s: Scan)
    ensures
        step_fine(s.dispatch()),
{
    reveal(Scan::dispatch);
    lemma_node_fine(s, true, ScalarStyle::Literal);
    lemma_node_fine(s, false, ScalarStyle::Folded);
}

proof fn lemma_whitespace_fine(s: Scan, line_start: bool, had_tab: bool)
    ensures
        s.skip_whitespace(line_start, had_tab) matches Err(f) ==> not_of_size(f.error),
    decreases s.b.len() - s.cur.offset,
{
    if s.cur.sees(s.b, SPACE) {
        lemma_whitespace_fine(s.step(), line_start, had_tab);
    } else if s.cur.sees(s.b, TAB) {
        let indentation = line_start && s.cur.column <= s.indent;
        if !(indentation && s.in_block()) {
            let t = Scan {
                tab_line: if s.after_indicator && s.in_block() {
                    s.cur.line
                } else {
                    s.tab_line
                },
                ..s.step()
            };
            lemma_whitespace_fine(t, line_start, had_tab || indentation);
        }
    }
}

proof fn lemma_gap_fine(s: Scan, line_start: bool)
    ensures
        step_fine(s.skip_gap(line_start)),
    decreases s.b.len() - s.cur.offset,
{
    assert(step_fine(s.skip_in_line(line_start))) by {
        reveal(Scan::skip_in_line);
        lemma_whitespace_fine(s, line_start, false);
    }
    lemma_skip_in_line(s, line_start);
    if let Ok(t) = s.skip_in_line(line_start) {
        if t.cur.sees_break(t.b) {
            lemma_gap_fine(t.skip_break(), true);
        }
    }
}

/// The input is within the limit.
spec fn short(s: Scan) -> bool {
    s.b.len() <= s.limits.max_document_size
}

proof fn lemma_fetch_size(s: Scan)
    requires
        sane(s),
        s.b.len() <= MAX_INPUT,
    ensures
        short(s) ==> (s.fetch() matches Err(f) ==> not_of_size(f.error)),
        !short(s) && !s.ended ==> (s.fetch() matches Ok((t, _)) ==> !t.ended),
{
    reveal(Scan::fetch);
    reveal(Scan::fetch_here);
    if s.started {
        lemma_gap_fine(s, false);
        lemma_gap_cover(s, false, 0);
        if let Ok(g) = s.skip_gap(false) {
            let k = g.stale_keys();
            lemma_unroll_frame(k, g.cur.column);
            let u = k.unroll(g.cur.column);
            if let Ok(p) = u.check_property() {
                lemma_dispatch_fine(p);
                crate::scanner::model::lemma_dispatch(p);
            }
        }
    }
}

proof fn lemma_front_size(s: Scan)
    requires
        sane(s),
        s.b.len() <= MAX_INPUT,
    ensures
        short(s) ==> (s.front() matches Front::Failed(f) ==> not_of_size(f.error)),
        !short(s) && !s.ended ==> !(s.front() is Exhausted) && (s.front() matches Front::Ready(t)
            ==> !t.ended),
        s.front() matches Front::Ready(t) ==> t.limits == s.limits && t.b == s.b,
        s.front() matches Front::Exhausted(t) ==> t.limits == s.limits && t.b == s.b,
    decreases s.todo(),
{
    if !(s.tokens.len() > 0 && !s.pending()) && !(s.ended && s.tokens.len() == 0) {
        lemma_fetch_size(s);
        lemma_fetch_cover(s, 0);
        lemma_kept_fetch(s);
        if let Ok((t, more)) = s.fetch() {
            if more {
                lemma_front_size(t);
            }
        }
    }
}

proof fn lemma_failure(s: Scan, lo: int, tlo: int)
    requires
        sane(s),
        s.b.len() <= MAX_INPUT,
        !s.errored,
        orderly(s, lo, tlo),
    ensures
        short(s) ==> (failure(s) matches Some(e) ==> not_of_size(e)),
        !short(s) && !s.ended ==> failure(s) is Some,
        !short(s) && !s.ended ==> forall|i: int|
            0 <= i < tape(s).len() ==> !((#[trigger] tape(s)[i]).kind is StreamEnd),
    decreases s.weight(),
{
    reveal(Scan::next);
    reveal(Scan::next_token);
    reveal(Scan::next_with_trivia);
    lemma_front_size(s);
    lemma_front_orderly(s, lo, tlo);
    lemma_front_cover(s, 0);
    if let Next::Token(x, rest) = s.next() {
        let t = match s.front() {
            Front::Ready(t) => t,
            Front::Exhausted(t) => t,
            Front::Failed(_) => s,
        };
        if s.front() is Ready && rest == t.pop() && x == t.tokens[0] {
            let lo2 = lemma_pop_orderly(t, lo, tlo);
            lemma_failure(rest, lo2, tlo);
        } else {
            assert(t.trivia.len() > 0 && x == t.trivia[0]);
            let tlo2 = lemma_pop_trivia_orderly(t, lo, tlo);
            lemma_failure(rest, lo, tlo2);
            assert(is_trivia(x));
        }
        assert forall|i: int| 0 < i < tape(s).len() implies tape(s)[i] == tape(rest)[i - 1] by {}
    }
}

/// An input that is longer than `max_document_size` fails, and the end of the stream is
/// never handed out. One that is not longer never fails for its size.
pub proof fn law_size_is_limited(b: Seq<u8>, limits: crate::limits::ResourceLimits, keep: bool)
    requires
        b.len() <= MAX_INPUT,
    ensures
        ({
            let s = Scan::fresh(b, limits, keep);
            &&& b.len() > limits.max_document_size ==> {
                &&& failure(s) is Some
                &&& forall|i: int|
                    0 <= i < tape(s).len() ==> !((#[trigger] tape(s)[i]).kind is StreamEnd)
            }
            &&& b.len() <= limits.max_document_size ==> (failure(s) matches Some(e)
                ==> not_of_size(e))
        }),
{
    lemma_fresh_orderly(b, limits, keep);
    lemma_failure(Scan::fresh(b, limits, keep), 0, 0);
}

} // verus!
