//! What scanning leaves alone: the input, the limits and the count of the tokens
//! handed out.
use crate::scanner::model::{lemma_skip_in_line, Front, Next, Scan, Step};
use crate::scanner::token::TokenKindView;
use crate::types::{point, ScalarStyle};
use vstd::prelude::*;

verus! {

/// Both states have the same input, limits and count of tokens handed out.
pub open spec fn alike(s: Scan, t: Scan) -> bool {
    &&& t.b == s.b
    &&& t.limits == s.limits
    &&& t.keep_trivia == s.keep_trivia
    &&& t.produced == s.produced
    &&& t.errored == s.errored
}

/// A step that succeeds leaves the input, the limits and the count alone.
pub open spec fn kept(s: Scan, step: Step) -> bool {
    step matches Ok(t) ==> alike(s, t)
}

proof fn lemma_unroll_alike(s: Scan, column: int)
    ensures
        alike(s, s.unroll(column)),
    decreases s.indents.len(),
{
    if !(!s.in_block() || s.indent <= column || s.indents.len() == 0) {
        let t = Scan {
            indent: s.indents.last(),
            indents: s.indents.drop_last(),
            ..s.enqueue(TokenKindView::BlockEnd, point(s.pos()))
        };
        lemma_unroll_alike(t, column);
    }
}

proof fn lemma_kept_document(s: Scan)
    ensures
        kept(s, s.document_start()),
        kept(s, s.document_end()),
        kept(s, s.directive()),
{
    lemma_unroll_alike(s, -1);
}

proof fn lemma_kept_block(s: Scan)
    ensures
        kept(s, s.block_entry()),
        kept(s, s.key_indicator()),
        kept(s, s.value_indicator()),
{
    reveal(Scan::value_of_key);
}

proof fn lemma_kept_flow(s: Scan, is_sequence: bool, kind: TokenKindView)
    ensures
        kept(s, s.flow_start(is_sequence)),
        kept(s, s.flow_end(kind)),
        kept(s, s.flow_entry()),
{
}

proof fn lemma_kept_node(s: Scan, is_anchor: bool, style: ScalarStyle)
    ensures
        kept(s, s.anchor(is_anchor)),
        kept(s, s.tag()),
        kept(s, s.block_scalar(style)),
        kept(s, s.single_quoted()),
        kept(s, s.double_quoted()),
        kept(s, s.plain()),
{
}

proof fn lemma_kept_dispatch(s: Scan)
    ensures
        kept(s, s.dispatch()),
{
    reveal(Scan::dispatch);
    lemma_kept_document(s);
    lemma_kept_flow(s, true, TokenKindView::FlowSequenceEnd);
    lemma_kept_flow(s, false, TokenKindView::FlowMappingEnd);
    lemma_kept_block(s);
    lemma_kept_node(s, true, ScalarStyle::Literal);
    lemma_kept_node(s, false, ScalarStyle::Folded);
}

proof fn lemma_kept_gap(s: Scan, line_start: bool)
    ensures
        kept(s, s.skip_gap(line_start)),
    decreases s.b.len() - s.cur.offset,
{
    lemma_skip_in_line(s, line_start);
    if let Ok(t) = s.skip_in_line(line_start) {
        if t.cur.sees_break(t.b) {
            lemma_kept_gap(t.skip_break(), true);
        }
    }
}

/// Scanning a piece of input leaves the input, the limits and the count alone.
pub proof fn lemma_kept_fetch(s: Scan)
    ensures
        s.fetch() matches Ok((t, _)) ==> alike(s, t),
{
    reveal(Scan::fetch);
    reveal(Scan::fetch_here);
    if s.started {
        lemma_kept_gap(s, false);
        if let Ok(g) = s.skip_gap(false) {
            let u = g.stale_keys();
            lemma_unroll_alike(u, g.cur.column);
            let v = u.unroll(g.cur.column);
            lemma_unroll_alike(v, -1);
            if let Ok(w) = v.check_property() {
                lemma_kept_dispatch(w);
            }
        }
    }
}

/// Scanning ahead hands nothing out.
pub proof fn lemma_front_alike(s: Scan)
    ensures
        match s.front() {
            Front::Ready(t) => alike(s, t) && t.tokens.len() > 0,
            Front::Exhausted(t) => alike(s, t),
            Front::Failed(_) => true,
        },
    decreases s.todo(),
{
    lemma_kept_fetch(s);
    if !(s.tokens.len() > 0 && !s.pending()) && !(s.ended && s.tokens.len() == 0) {
        if let Ok((t, more)) = s.fetch() {
            if more && 0 <= t.todo() < s.todo() {
                lemma_front_alike(t);
            }
        }
    }
}

/// A token handed out is counted; nothing else is.
pub proof fn lemma_next_token(s: Scan)
    ensures
        match s.next_token() {
            Next::Token(_, t) => alike(Scan { produced: s.produced + 1, ..s }, t),
            Next::End(t) => alike(s, t),
            Next::Failed(_) => true,
        },
{
    reveal(Scan::next_token);
    lemma_front_alike(s);
}

/// The first token of every input is the start of the stream.
pub proof fn lemma_first_token(b: Seq<u8>, limits: crate::limits::ResourceLimits)
    ensures
        Scan::fresh(b, limits, false).next_token() matches Next::Token(t, _) && t.kind
            is StreamStart,
{
    reveal(Scan::next_token);
    reveal(Scan::fetch);
    reveal_with_fuel(Scan::front, 2);
    let s = Scan::fresh(b, limits, false);
    let t = s.stream_start();
    assert(s.fetch() == Ok::<(Scan, bool), crate::scanner::model::Fail>((t, true)));
    assert(t.tokens.len() == 1);
    assert(!t.pending());
    assert(s.front() == Front::Ready(t));
}

} // verus!
