//! In what order tokens are handed out: the start of the stream comes first, its end
//! last, and what has bytes comes in the order of the input.
use crate::scanner::advance::{lemma_dispatch_moves, lemma_unroll_frame, sane};
use crate::scanner::chars::PERCENT;
use crate::scanner::cursor::{lemma_run, Cur, Until, MAX_INPUT};
use crate::scanner::model::{lemma_skip_in_line, lemma_skip_whitespace, Front, Next, Scan, Step};
use crate::scanner::props::directive;
use crate::scanner::stream::{lemma_fetch_cover, lemma_front_cover, lemma_gap_cover, tape};
use crate::scanner::token::{TokenKindView, TokenView};
use crate::types::{point, Position, ScalarStyle};
use vstd::prelude::*;

verus! {

/// Whether the token has bytes.
pub open spec fn has_bytes(t: TokenView) -> bool {
    t.span.start.offset < t.span.end.offset
}

/// Whether the token is a comment, whitespace or a line break.
pub open spec fn is_trivia(t: TokenView) -> bool {
    t.kind is Comment || t.kind is Whitespace || t.kind is LineBreak
}

/// Whether the token is neither trivia nor the end of the stream.
pub open spec fn is_inner(t: TokenView) -> bool {
    !is_trivia(t) && !(t.kind is StreamEnd)
}

pub open spec fn all_inner(q: Seq<TokenView>) -> bool {
    forall|i: int| 0 <= i < q.len() ==> is_inner(#[trigger] q[i])
}

/// Nothing but trivia, each piece with bytes.
pub open spec fn all_trivia(q: Seq<TokenView>) -> bool {
    forall|i: int| 0 <= i < q.len() ==> is_trivia(#[trigger] q[i]) && has_bytes(q[i])
}

/// The tokens with bytes lie between `lo` and `hi`.
pub open spec fn between(q: Seq<TokenView>, lo: int, hi: int) -> bool {
    forall|i: int|
        0 <= i < q.len() && has_bytes(#[trigger] q[i]) ==> lo <= q[i].span.start.offset
            && q[i].span.end.offset <= hi
}

/// The tokens with bytes stand one behind the other.
pub open spec fn in_order(q: Seq<TokenView>) -> bool {
    forall|i: int, j: int|
        0 <= i < j < q.len() && has_bytes(#[trigger] q[i]) && has_bytes(#[trigger] q[j])
            ==> q[i].span.end.offset <= q[j].span.start.offset
}

pub open spec fn queued(q: Seq<TokenView>, lo: int, hi: int) -> bool {
    between(q, lo, hi) && in_order(q)
}

proof fn lemma_push(q: Seq<TokenView>, t: TokenView, lo: int, hi: int, end: int)
    requires
        queued(q, lo, hi),
        lo <= hi <= end,
        has_bytes(t) ==> hi <= t.span.start.offset && t.span.end.offset <= end,
    ensures
        queued(q.push(t), lo, end),
{
}

proof fn lemma_insert(q: Seq<TokenView>, k: int, t: TokenView, lo: int, hi: int)
    requires
        queued(q, lo, hi),
        0 <= k <= q.len(),
        !has_bytes(t),
    ensures
        queued(q.insert(k, t), lo, hi),
        all_inner(q) && is_inner(t) ==> all_inner(q.insert(k, t)),
{
    let r = q.insert(k, t);
    assert forall|i: int| 0 <= i < r.len() && has_bytes(#[trigger] r[i]) implies lo
        <= r[i].span.start.offset && r[i].span.end.offset <= hi by {
        if i < k {
            assert(r[i] == q[i]);
        } else if i > k {
            assert(r[i] == q[i - 1]);
        }
    }
    assert forall|i: int, j: int|
        0 <= i < j < r.len() && has_bytes(#[trigger] r[i]) && has_bytes(
            #[trigger] r[j],
        ) implies r[i].span.end.offset <= r[j].span.start.offset by {
        let a = if i < k {
            i
        } else {
            i - 1
        };
        let b = if j < k {
            j
        } else {
            j - 1
        };
        assert(i != k && j != k);
        assert(r[i] == q[a] && r[j] == q[b]);
    }
    assert forall|i: int| all_inner(q) && is_inner(t) && 0 <= i < r.len() implies is_inner(
        #[trigger] r[i],
    ) by {
        if i < k {
            assert(r[i] == q[i]);
        } else if i > k {
            assert(r[i] == q[i - 1]);
        }
    }
}

/// One possible key for the block context and for each open flow collection.
pub open spec fn levels(s: Scan) -> bool {
    s.keys.len() == s.flows.len() + 1
}

/// From one state to the other the queue grows in order, by inner tokens.
spec fn strung(s: Scan, t: Scan, lo: int) -> bool {
    &&& queued(s.tokens, lo, s.cur.offset) && lo <= s.cur.offset ==> queued(
        t.tokens,
        lo,
        t.cur.offset,
    )
    &&& all_inner(s.tokens) ==> all_inner(t.tokens)
    &&& levels(s) ==> levels(t)
    &&& s.tokens.len() <= t.tokens.len()
}

spec fn strings(s: Scan, step: Step, lo: int) -> bool {
    step matches Ok(t) ==> strung(s, t, lo)
}

spec fn placed(s: Scan) -> bool {
    0 <= s.cur.offset < s.b.len() <= MAX_INPUT
}

proof fn lemma_unroll_strung(s: Scan, column: int, lo: int)
    ensures
        strung(s, s.unroll(column), lo),
    decreases s.indents.len(),
{
    if !(!s.in_block() || s.indent <= column || s.indents.len() == 0) {
        let t = Scan {
            indent: s.indents.last(),
            indents: s.indents.drop_last(),
            ..s.enqueue(TokenKindView::BlockEnd, point(s.pos()))
        };
        let token = TokenView { kind: TokenKindView::BlockEnd, span: point(s.pos()) };
        if queued(s.tokens, lo, s.cur.offset) && lo <= s.cur.offset {
            lemma_push(s.tokens, token, lo, s.cur.offset, s.cur.offset);
        }
        lemma_unroll_strung(t, column, lo);
        lemma_unroll_frame(t, column);
    }
}

proof fn lemma_insert_strung(s: Scan, index: int, kind: TokenKindView, pos: Position, lo: int)
    requires
        is_inner(TokenView { kind, span: point(pos) }),
    ensures
        strung(s, s.insert_at(index, kind, point(pos)), lo),
{
    let k = if index > s.produced {
        index - s.produced
    } else {
        0
    };
    let t = TokenView { kind, span: point(pos) };
    if k <= s.tokens.len() {
        if queued(s.tokens, lo, s.cur.offset) {
            lemma_insert(s.tokens, k, t, lo, s.cur.offset);
        }
        if all_inner(s.tokens) {
            let r = s.tokens.insert(k, t);
            assert forall|i: int| 0 <= i < r.len() implies is_inner(#[trigger] r[i]) by {
                if i < k {
                    assert(r[i] == s.tokens[i]);
                } else if i > k {
                    assert(r[i] == s.tokens[i - 1]);
                }
            }
        }
    }
}

proof fn lemma_roll_strung(s: Scan, column: int, kind: TokenKindView, index: Option<int>, lo: int)
    requires
        is_inner(TokenView { kind, span: point(s.pos()) }),
    ensures
        strung(s, s.roll(column, kind, index), lo),
{
    if s.indent < column {
        let t = Scan { indents: s.indents.push(s.indent), indent: column, ..s };
        match index {
            Some(k) => lemma_insert_strung(t, k, kind, s.pos(), lo),
            None => {
                if queued(s.tokens, lo, s.cur.offset) && lo <= s.cur.offset {
                    lemma_push(
                        s.tokens,
                        TokenView { kind, span: point(s.pos()) },
                        lo,
                        s.cur.offset,
                        s.cur.offset,
                    );
                }
            },
        }
    }
}

/// A token from `at` to the current place goes behind those that end no later.
proof fn lemma_token_strung(s: Scan, at: int, start: Position, kind: TokenKindView, lo: int)
    requires
        0 <= at <= s.cur.offset <= MAX_INPUT,
        start.offset == at,
        is_inner(TokenView { kind, span: point(start) }),
    ensures
        queued(s.tokens, lo, at) && lo <= at ==> queued(
            s.token_from(start, kind).tokens,
            lo,
            s.cur.offset,
        ),
        all_inner(s.tokens) ==> all_inner(s.token_from(start, kind).tokens),
        s.token_from(start, kind).tokens.len() == s.tokens.len() + 1,
{
    let t = TokenView { kind, span: s.cur.span_from(start) };
    if queued(s.tokens, lo, at) && lo <= at {
        lemma_push(s.tokens, t, lo, at, s.cur.offset);
    }
}

proof fn lemma_strung_document(s: Scan, lo: int)
    requires
        placed(s),
    ensures
        crate::scanner::cursor::marker_at(
            s.b,
            s.cur.offset,
            crate::scanner::chars::DASH,
        ) ==> strings(s, s.document_start(), lo),
        crate::scanner::cursor::marker_at(
            s.b,
            s.cur.offset,
            crate::scanner::chars::DOT,
        ) ==> strings(s, s.document_end(), lo),
{
    lemma_unroll_frame(s, -1);
    lemma_unroll_strung(s, -1, lo);
    let t = Scan { allow: false, ..s.unroll(-1).remove_key() };
    if s.cur.offset + 3 <= s.b.len() {
        let c = s.cur.to(s.cur.offset + 3);
        lemma_token_strung(t.at(c), s.cur.offset, s.pos(), TokenKindView::DocumentStart, lo);
        lemma_run(s.b, c.offset, Until::NotWhitespace);
        let c1 = c.run(s.b, Until::NotWhitespace);
        lemma_run(s.b, c1.offset, Until::Break);
        lemma_token_strung(t.at(c1), s.cur.offset, s.pos(), TokenKindView::DocumentEnd, lo);
        lemma_token_strung(
            t.at(c1.run(s.b, Until::Break)),
            s.cur.offset,
            s.pos(),
            TokenKindView::DocumentEnd,
            lo,
        );
    }
}

proof fn lemma_directive_kind(s: Scan)
    ensures
        directive(s.b, s.step().cur, s.pos()) matches Ok((_, Some(kind))) ==> kind
            is VersionDirective || kind is TagDirective,
{
}

proof fn lemma_strung_directive(s: Scan, lo: int)
    requires
        placed(s),
    ensures
        strings(s, s.directive(), lo),
{
    lemma_unroll_frame(s, -1);
    lemma_unroll_strung(s, -1, lo);
    let t = Scan { allow: false, ..s.unroll(-1).remove_key() };
    crate::scanner::advance::lemma_directive_moves(s);
    lemma_directive_kind(s);
    if let Ok((c, Some(kind))) = directive(s.b, s.step().cur, s.pos()) {
        lemma_token_strung(t.at(c), s.cur.offset, s.pos(), kind, lo);
    }
}

proof fn lemma_strung_block(s: Scan, lo: int)
    requires
        placed(s),
    ensures
        strings(s, s.block_entry(), lo),
        strings(s, s.key_indicator(), lo),
{
    let column = s.cur.column;
    lemma_roll_strung(s, column, TokenKindView::BlockSequenceStart, None, lo);
    lemma_roll_strung(s, column, TokenKindView::BlockMappingStart, None, lo);
    let entry = if s.in_block() {
        s.roll(column, TokenKindView::BlockSequenceStart, None)
    } else {
        s
    };
    let key = if s.in_block() {
        s.roll(column, TokenKindView::BlockMappingStart, None)
    } else {
        s
    };
    lemma_token_strung(
        Scan { allow: true, ..entry.remove_key() }.step(),
        s.cur.offset,
        s.pos(),
        TokenKindView::BlockEntry,
        lo,
    );
    lemma_token_strung(
        Scan { allow: s.in_block(), ..key.remove_key() }.step(),
        s.cur.offset,
        s.pos(),
        TokenKindView::Key,
        lo,
    );
}

proof fn lemma_strung_value(s: Scan, lo: int)
    requires
        placed(s),
    ensures
        strings(s, s.value_indicator(), lo),
{
    reveal(Scan::value_of_key);
    let column = s.cur.column;
    lemma_roll_strung(s, column, TokenKindView::BlockMappingStart, None, lo);
    let open = if s.in_block() {
        s.roll(column, TokenKindView::BlockMappingStart, None)
    } else {
        s
    };
    lemma_token_strung(
        Scan { allow: s.in_block(), ..open.remove_key() }.step(),
        s.cur.offset,
        s.pos(),
        TokenKindView::Value,
        lo,
    );
    let key = s.keys.last();
    lemma_insert_strung(s, key.index, TokenKindView::Key, key.pos, lo);
    let t = s.insert_at(key.index, TokenKindView::Key, point(key.pos));
    lemma_roll_strung(t, key.column(), TokenKindView::BlockMappingStart, Some(key.index), lo);
    let u = if s.in_block() {
        t.roll(key.column(), TokenKindView::BlockMappingStart, Some(key.index))
    } else {
        t
    };
    lemma_token_strung(
        Scan { allow: false, ..u.remove_key() }.step(),
        s.cur.offset,
        s.pos(),
        TokenKindView::Value,
        lo,
    );
}

proof fn lemma_strung_flow(s: Scan, is_sequence: bool, kind: TokenKindView, lo: int)
    requires
        placed(s),
        is_inner(TokenView { kind, span: point(s.pos()) }),
    ensures
        strings(s, s.flow_start(is_sequence), lo),
        strings(s, s.flow_end(kind), lo),
        strings(s, s.flow_entry(), lo),
{
    let start = if is_sequence {
        TokenKindView::FlowSequenceStart
    } else {
        TokenKindView::FlowMappingStart
    };
    if let Ok(t) = s.flow_start(is_sequence) {
        lemma_token_strung(Scan { tokens: s.tokens, ..t }, s.cur.offset, s.pos(), start, lo);
    }
    if let Ok(t) = s.flow_end(kind) {
        lemma_token_strung(Scan { tokens: s.tokens, ..t }, s.cur.offset, s.pos(), kind, lo);
    }
    if let Ok(t) = s.flow_entry() {
        lemma_token_strung(
            Scan { tokens: s.tokens, ..t },
            s.cur.offset,
            s.pos(),
            TokenKindView::FlowEntry,
            lo,
        );
    }
}

proof fn lemma_strung_lexed(s: Scan, l: crate::scanner::props::Lexed, lo: int)
    requires
        placed(s),
        l matches Ok((c, k)) ==> s.cur.offset <= c.offset <= s.b.len() && (k matches Some(kind)
            ==> is_inner(TokenView { kind, span: point(s.pos()) })),
    ensures
        strings(s, s.lexed(s.pos(), l), lo),
{
    if let Ok((c, Some(kind))) = l {
        lemma_token_strung(s.at(c), s.cur.offset, s.pos(), kind, lo);
    }
}

proof fn lemma_strung_scalar(
    s: Scan,
    q: crate::scanner::quoted::Quoted,
    style: ScalarStyle,
    lo: int,
)
    requires
        placed(s),
        q matches Ok((c, _)) ==> s.cur.offset <= c.offset <= s.b.len(),
    ensures
        strings(s, s.scalar(s.pos(), q, style), lo),
{
    if let Ok((c, value)) = q {
        lemma_token_strung(
            s.at(c),
            s.cur.offset,
            s.pos(),
            TokenKindView::Scalar { value, style },
            lo,
        );
    }
}

proof fn lemma_strung_node(s: Scan, is_anchor: bool, style: ScalarStyle, lo: int)
    requires
        placed(s),
    ensures
        strings(s, s.anchor(is_anchor), lo),
        strings(s, s.tag(), lo),
        strings(s, s.block_scalar(style), lo),
        strings(s, s.single_quoted(), lo),
        strings(s, s.double_quoted(), lo),
{
    crate::scanner::advance::lemma_node_onward(s, is_anchor, style);
    let n = s.node_start();
    let c = s.step().cur;
    lemma_strung_lexed(
        n,
        crate::scanner::props::anchor_or_alias(s.b, c, is_anchor, s.pos()),
        lo,
    );
    lemma_strung_lexed(n, crate::scanner::props::tag(s.b, c, s.cur.offset, s.pos()), lo);
    lemma_strung_scalar(
        Scan { allow: true, ..s.remove_key() },
        crate::scanner::block::block_scalar(s.b, c, style, s.indent, s.pos()),
        style,
        lo,
    );
    lemma_strung_scalar(
        n,
        crate::scanner::quoted::single_quoted(s.b, c, seq![], s.pos()),
        ScalarStyle::SingleQuoted,
        lo,
    );
    let indent_from = if s.in_block() {
        Some(s.indent + 1)
    } else {
        None
    };
    lemma_strung_scalar(
        n,
        crate::scanner::quoted::double_quoted(s.b, c, seq![], seq![], indent_from, s.pos()),
        ScalarStyle::DoubleQuoted,
        lo,
    );
}

proof fn lemma_strung_plain(s: Scan, lo: int)
    requires
        placed(s),
    ensures
        strings(s, s.plain(), lo),
{
    crate::scanner::advance::lemma_moves_plain(s);
    if let Ok(t) = s.plain() {
        let p = crate::scanner::plain::plain_scalar(s.b, s.cur, !s.in_block(), s.indent);
        lemma_token_strung(
            s.node_start().at(p.cur),
            s.cur.offset,
            s.pos(),
            TokenKindView::Scalar { value: p.content, style: ScalarStyle::Plain },
            lo,
        );
    }
}

proof fn lemma_strung_dispatch(s: Scan, lo: int)
    requires
        placed(s),
    ensures
        strings(s, s.dispatch(), lo),
{
    reveal(Scan::dispatch);
    lemma_strung_document(s, lo);
    lemma_strung_flow(s, true, TokenKindView::FlowSequenceEnd, lo);
    lemma_strung_flow(s, false, TokenKindView::FlowMappingEnd, lo);
    lemma_strung_block(s, lo);
    lemma_strung_value(s, lo);
    lemma_strung_node(s, true, ScalarStyle::Literal, lo);
    lemma_strung_node(s, false, ScalarStyle::Folded, lo);
    lemma_strung_plain(s, lo);
    if s.byte() == PERCENT && s.cur.column == 0 {
        lemma_strung_directive(s, lo);
    }
}

// ─── Between tokens ─────────────────────────────────────────────────

/// From one state to the other the trivia grows in order.
spec fn trailed(s: Scan, t: Scan, lo: int) -> bool {
    &&& queued(s.trivia, lo, s.cur.offset) && lo <= s.cur.offset ==> queued(
        t.trivia,
        lo,
        t.cur.offset,
    )
    &&& all_trivia(s.trivia) ==> all_trivia(t.trivia)
    &&& s.cur.offset <= t.cur.offset
}

proof fn lemma_trivia_trailed(s: Scan, start: Cur, kind: TokenKindView, lo: int)
    requires
        0 <= start.offset <= s.cur.offset <= MAX_INPUT,
        is_trivia(TokenView { kind, span: point(start.pos()) }),
    ensures
        start.offset < s.cur.offset ==> trailed(s.at(start), s.push_trivia(start, kind), lo),
{
    let t = TokenView { kind, span: s.cur.span_from(start.pos()) };
    if queued(s.trivia, lo, start.offset) && lo <= start.offset {
        lemma_push(s.trivia, t, lo, start.offset, s.cur.offset);
    }
}

proof fn lemma_in_line_trailed(s: Scan, line_start: bool, lo: int)
    requires
        0 <= s.cur.offset <= s.b.len() <= MAX_INPUT,
    ensures
        s.skip_in_line(line_start) matches Ok(t) ==> trailed(s, t, lo),
{
    reveal(Scan::skip_in_line);
    lemma_skip_whitespace(s, line_start, false);
    if let Ok((s1, _)) = s.skip_whitespace(line_start, false) {
        let ws = TokenKindView::Whitespace(
            crate::text::text(s1.b, s.cur.offset, s1.cur.offset),
        );
        lemma_trivia_trailed(s1, s.cur, ws, lo);
        lemma_run(s.b, s1.cur.offset, Until::Break);
        let s2 = Scan { after_indicator: false, ..s1.keep_whitespace(s.cur) };
        let s3 = s2.at(s2.cur.run(s2.b, Until::Break));
        let comment = TokenKindView::Comment(
            crate::text::text(s2.b, s2.cur.offset, s3.cur.offset),
        );
        lemma_trivia_trailed(s3, s2.cur, comment, lo);
    }
}

proof fn lemma_gap_trailed(s: Scan, line_start: bool, lo: int)
    requires
        0 <= s.cur.offset <= s.b.len() <= MAX_INPUT,
    ensures
        s.skip_gap(line_start) matches Ok(t) ==> trailed(s, t, lo),
    decreases s.b.len() - s.cur.offset,
{
    lemma_skip_in_line(s, line_start);
    lemma_in_line_trailed(s, line_start, lo);
    if let Ok(t) = s.skip_in_line(line_start) {
        if t.cur.sees_break(t.b) {
            let u = t.at(t.cur.newline(t.b));
            let lb = TokenKindView::LineBreak(
                crate::text::text(t.b, t.cur.offset, u.cur.offset),
            );
            lemma_trivia_trailed(u, t.cur, lb, lo);
            lemma_gap_trailed(t.skip_break(), true, lo);
        }
    }
}

// ─── Pieces of input ────────────────────────────────────────────────

/// The end of the stream is queued last, once the input is scanned. Then no key is
/// possible any more in block context.
pub open spec fn closing(s: Scan) -> bool {
    &&& !s.ended ==> all_inner(s.tokens)
    &&& s.ended ==> {
        &&& s.started
        &&& s.tokens.len() > 0 ==> s.tokens.last().kind is StreamEnd && all_inner(
            s.tokens.drop_last(),
        )
        &&& s.in_block() ==> !s.keys[0].possible
    }
}

/// What is queued is in order, the tokens behind `lo` and the trivia behind `tlo`.
pub open spec fn orderly(s: Scan, lo: int, tlo: int) -> bool {
    &&& queued(s.tokens, lo, s.cur.offset)
    &&& lo <= s.cur.offset
    &&& queued(s.trivia, tlo, s.cur.offset)
    &&& tlo <= s.cur.offset
    &&& all_trivia(s.trivia)
    &&& levels(s)
    &&& closing(s)
}

proof fn lemma_queued_on(q: Seq<TokenView>, lo: int, hi: int, end: int)
    requires
        queued(q, lo, hi),
        hi <= end,
    ensures
        queued(q, lo, end),
{
}

/// The end of the stream keeps a state in order.
proof fn lemma_stream_end_orderly(s: Scan, lo: int, tlo: int)
    requires
        orderly(s, lo, tlo),
        !s.ended,
        s.started,
    ensures
        orderly(s.stream_end(), lo, tlo),
        s.stream_end().tokens.len() > s.tokens.len(),
{
    lemma_unroll_frame(s, -1);
    lemma_unroll_strung(s, -1, lo);
    let u = s.unroll(-1).remove_key();
    let token = TokenView { kind: TokenKindView::StreamEnd, span: point(u.pos()) };
    lemma_push(u.tokens, token, lo, u.cur.offset, u.cur.offset);
    let t = s.stream_end();
    assert(t.tokens == u.tokens.push(token));
    assert(t.tokens.drop_last() =~= u.tokens);
}

/// Scanning a piece of input keeps a state in order.
proof fn lemma_fetch_orderly(s: Scan, lo: int, tlo: int)
    requires
        sane(s),
        s.b.len() <= MAX_INPUT,
        orderly(s, lo, tlo),
        !(s.ended && s.in_block()),
    ensures
        s.fetch() matches Ok((t, _)) ==> {
            &&& orderly(t, lo, tlo)
            &&& s.tokens.len() <= t.tokens.len()
            &&& t.ended && !s.ended ==> t.tokens.len() > 0
        },
{
    reveal(Scan::fetch);
    reveal(Scan::fetch_here);
    if !s.started {
        let m = Scan { started: true, ..s }.at(Cur { offset: s.cur.offset + 3, ..s.cur });
        let t = s.stream_start();
        let ws = TokenKindView::Whitespace(
            crate::text::text(s.b, s.cur.offset, m.cur.offset),
        );
        if s.has_bom() {
            lemma_trivia_trailed(m, s.cur, ws, tlo);
        }
        lemma_queued_on(s.tokens, lo, s.cur.offset, t.cur.offset);
        lemma_push(s.tokens, t.tokens.last(), lo, t.cur.offset, t.cur.offset);
    } else {
        lemma_gap_cover(s, false, 0);
        lemma_gap_trailed(s, false, tlo);
        if let Ok(g) = s.skip_gap(false) {
            lemma_queued_on(s.tokens, lo, s.cur.offset, g.cur.offset);
            let k = g.stale_keys();
            lemma_unroll_frame(k, g.cur.column);
            lemma_unroll_strung(k, g.cur.column, lo);
            let u = k.unroll(g.cur.column);
            if u.ended {
                assert(u.at_end());
            } else {
                assert(orderly(u, lo, tlo));
                if u.at_end() {
                    lemma_stream_end_orderly(u, lo, tlo);
                } else if let Ok(p) = u.check_property() {
                    lemma_dispatch_moves(p);
                    lemma_strung_dispatch(p, lo);
                    if let Ok(t) = p.dispatch() {
                        lemma_queued_on(p.trivia, tlo, p.cur.offset, t.cur.offset);
                    }
                }
            }
        }
    }
}

/// Scanning ahead keeps a state in order, and finds the end of the stream before it runs
/// out of tokens.
pub proof fn lemma_front_orderly(s: Scan, lo: int, tlo: int)
    requires
        sane(s),
        s.b.len() <= MAX_INPUT,
        orderly(s, lo, tlo),
    ensures
        match s.front() {
            Front::Ready(t) => orderly(t, lo, tlo) && t.tokens.len() > 0,
            Front::Exhausted(t) => orderly(t, lo, tlo) && t.tokens.len() == 0 && t.ended && s.ended
                && s.tokens.len() == 0,
            Front::Failed(_) => true,
        },
    decreases s.todo(),
{
    if s.ended && s.in_block() {
        assert(!s.pending());
    }
    if !(s.tokens.len() > 0 && !s.pending()) && !(s.ended && s.tokens.len() == 0) {
        lemma_fetch_orderly(s, lo, tlo);
        lemma_fetch_cover(s, 0);
        if let Ok((t, more)) = s.fetch() {
            if more {
                lemma_front_orderly(t, lo, tlo);
            }
        }
    }
}

// ─── Whole inputs ───────────────────────────────────────────────────

/// The input is scanned to its end, without an error.
pub open spec fn ends_well(s: Scan) -> bool
    decreases s.weight(),
{
    match s.next() {
        Next::Token(_, rest) => 0 <= rest.weight() < s.weight() && ends_well(rest),
        Next::End(_) => true,
        Next::Failed(_) => false,
    }
}

/// Tokens that have bytes stand one behind the other, and so do the pieces of trivia.
pub open spec fn in_order_by_class(q: Seq<TokenView>) -> bool {
    forall|i: int, j: int|
        0 <= i < j < q.len() && has_bytes(#[trigger] q[i]) && has_bytes(#[trigger] q[j])
            && is_trivia(q[i]) == is_trivia(q[j]) ==> q[i].span.end.offset
            <= q[j].span.start.offset
}

/// Only trivia comes behind the end of the stream.
pub open spec fn end_comes_last(q: Seq<TokenView>) -> bool {
    forall|i: int, j: int|
        0 <= i < j < q.len() && (#[trigger] q[i]).kind is StreamEnd ==> is_trivia(#[trigger] q[j])
}

pub open spec fn behind(q: Seq<TokenView>, lo: int, tlo: int) -> bool {
    forall|i: int|
        0 <= i < q.len() && has_bytes(#[trigger] q[i]) ==> (if is_trivia(q[i]) {
            tlo
        } else {
            lo
        }) <= q[i].span.start.offset
}

spec fn holds_end(q: Seq<TokenView>) -> bool {
    exists|i: int| 0 <= i < q.len() && (#[trigger] q[i]).kind is StreamEnd
}

proof fn lemma_prepend(x: TokenView, q: Seq<TokenView>, lo: int, tlo: int, lo2: int, tlo2: int)
    requires
        in_order_by_class(q),
        end_comes_last(q),
        behind(q, lo2, tlo2),
        lo <= lo2,
        tlo <= tlo2,
        behind(seq![x], lo, tlo),
        has_bytes(x) ==> x.span.end.offset <= (if is_trivia(x) {
            tlo2
        } else {
            lo2
        }),
        x.kind is StreamEnd ==> all_trivia(q),
    ensures
        in_order_by_class(seq![x] + q),
        end_comes_last(seq![x] + q),
        behind(seq![x] + q, lo, tlo),
        holds_end(q) || x.kind is StreamEnd ==> holds_end(seq![x] + q),
{
    let r = seq![x] + q;
    assert(r[0] == x);
    assert(seq![x][0] == x);
    assert forall|i: int| 1 <= i < r.len() implies r[i] == q[i - 1] by {}
    assert forall|i: int, j: int|
        0 <= i < j < r.len() && has_bytes(#[trigger] r[i]) && has_bytes(#[trigger] r[j])
            && is_trivia(r[i]) == is_trivia(r[j]) implies r[i].span.end.offset
        <= r[j].span.start.offset by {
        assert(r[j] == q[j - 1]);
        if i > 0 {
            assert(r[i] == q[i - 1]);
        }
    }
    assert forall|i: int, j: int|
        0 <= i < j < r.len() && (#[trigger] r[i]).kind is StreamEnd implies is_trivia(
        #[trigger] r[j],
    ) by {
        assert(r[j] == q[j - 1]);
        if i > 0 {
            assert(r[i] == q[i - 1]);
        }
    }
    assert forall|i: int| 0 <= i < r.len() && has_bytes(#[trigger] r[i]) implies (if is_trivia(
        r[i],
    ) {
        tlo
    } else {
        lo
    }) <= r[i].span.start.offset by {
        if i > 0 {
            assert(r[i] == q[i - 1]);
        }
    }
    if holds_end(q) {
        let i = choose|i: int| 0 <= i < q.len() && (#[trigger] q[i]).kind is StreamEnd;
        assert(r[i + 1].kind is StreamEnd);
    }
}

/// The tokens that follow a token.
pub proof fn lemma_pop_orderly(t: Scan, lo: int, tlo: int) -> (lo2: int)
    requires
        sane(t),
        orderly(t, lo, tlo),
        t.tokens.len() > 0,
    ensures
        orderly(t.pop(), lo2, tlo),
        sane(t.pop()),
        lo <= lo2,
        behind(seq![t.tokens[0]], lo, tlo),
        !is_trivia(t.tokens[0]),
        has_bytes(t.tokens[0]) ==> t.tokens[0].span.end.offset <= lo2,
        t.tokens[0].kind is StreamEnd ==> t.ended && t.tokens.len() == 1,
        !(t.tokens[0].kind is StreamEnd) ==> !(t.ended && t.tokens.len() == 1),
{
    let x = t.tokens[0];
    let lo2 = if has_bytes(x) {
        x.span.end.offset as int
    } else {
        lo
    };
    let q = t.tokens.drop_first();
    if t.ended && t.tokens.len() > 1 {
        assert(t.tokens.drop_last()[0] == x);
        assert(q.last() == t.tokens.last());
        assert forall|i: int| 0 <= i < q.drop_last().len() implies is_inner(
            #[trigger] q.drop_last()[i],
        ) by {
            assert(q.drop_last()[i] == t.tokens.drop_last()[i + 1]);
        }
    }
    assert forall|i: int| 0 <= i < q.len() && has_bytes(#[trigger] q[i]) implies lo2
        <= q[i].span.start.offset && q[i].span.end.offset <= t.cur.offset by {
        assert(q[i] == t.tokens[i + 1]);
    }
    assert forall|i: int, j: int|
        0 <= i < j < q.len() && has_bytes(#[trigger] q[i]) && has_bytes(
            #[trigger] q[j],
        ) implies q[i].span.end.offset <= q[j].span.start.offset by {
        assert(q[i] == t.tokens[i + 1] && q[j] == t.tokens[j + 1]);
    }
    assert forall|i: int| !t.ended && 0 <= i < q.len() implies is_inner(#[trigger] q[i]) by {
        assert(q[i] == t.tokens[i + 1]);
    }
    lo2
}

/// The trivia that follows a piece of trivia.
pub proof fn lemma_pop_trivia_orderly(t: Scan, lo: int, tlo: int) -> (tlo2: int)
    requires
        sane(t),
        orderly(t, lo, tlo),
        t.trivia.len() > 0,
    ensures
        orderly(Scan { trivia: t.trivia.drop_first(), ..t }, lo, tlo2),
        tlo <= tlo2,
        behind(seq![t.trivia[0]], lo, tlo),
        is_trivia(t.trivia[0]),
        has_bytes(t.trivia[0]),
        t.trivia[0].span.end.offset <= tlo2,
{
    let x = t.trivia[0];
    let tlo2 = if has_bytes(x) {
        x.span.end.offset as int
    } else {
        tlo
    };
    let q = t.trivia.drop_first();
    assert forall|i: int| 0 <= i < q.len() && has_bytes(#[trigger] q[i]) implies tlo2
        <= q[i].span.start.offset && q[i].span.end.offset <= t.cur.offset by {
        assert(q[i] == t.trivia[i + 1]);
    }
    assert forall|i: int, j: int|
        0 <= i < j < q.len() && has_bytes(#[trigger] q[i]) && has_bytes(
            #[trigger] q[j],
        ) implies q[i].span.end.offset <= q[j].span.start.offset by {
        assert(q[i] == t.trivia[i + 1] && q[j] == t.trivia[j + 1]);
    }
    assert forall|i: int| 0 <= i < q.len() implies is_trivia(#[trigger] q[i]) && has_bytes(
        q[i],
    ) by {
        assert(q[i] == t.trivia[i + 1]);
    }
    tlo2
}

proof fn lemma_tape_orderly(s: Scan, lo: int, tlo: int)
    requires
        sane(s),
        s.b.len() <= MAX_INPUT,
        !s.errored,
        orderly(s, lo, tlo),
    ensures
        in_order_by_class(tape(s)),
        end_comes_last(tape(s)),
        behind(tape(s), lo, tlo),
        !s.keep_trivia ==> forall|i: int|
            0 <= i < tape(s).len() ==> !is_trivia(#[trigger] tape(s)[i]),
        s.ended && s.tokens.len() == 0 ==> all_trivia(tape(s)),
        ends_well(s) && !(s.ended && s.tokens.len() == 0) ==> holds_end(tape(s)),
    decreases s.weight(),
{
    reveal(Scan::next);
    reveal(Scan::next_token);
    reveal(Scan::next_with_trivia);
    lemma_front_orderly(s, lo, tlo);
    lemma_front_cover(s, 0);
    if let Next::Token(x, rest) = s.next() {
        let t = match s.front() {
            Front::Ready(t) => t,
            Front::Exhausted(t) => t,
            Front::Failed(_) => s,
        };
        assert(s.ended && s.tokens.len() == 0 ==> s.front() == Front::Exhausted(s));
        if s.front() is Ready && rest == t.pop() && x == t.tokens[0] && !is_trivia(x) {
            let lo2 = lemma_pop_orderly(t, lo, tlo);
            lemma_tape_orderly(rest, lo2, tlo);
            lemma_prepend(x, tape(rest), lo, tlo, lo2, tlo);
        } else {
            if s.front() is Ready {
                let _ = lemma_pop_orderly(t, lo, tlo);
            }
            assert(s.keep_trivia && t.trivia.len() > 0 && x == t.trivia[0]);
            let tlo2 = lemma_pop_trivia_orderly(t, lo, tlo);
            lemma_tape_orderly(rest, lo, tlo2);
            lemma_prepend(x, tape(rest), lo, tlo, lo, tlo2);
        }
        assert forall|i: int| 0 < i < tape(s).len() implies tape(s)[i] == tape(rest)[i - 1] by {}
    }
}

// ─── Tokens among trivia ────────────────────────────────────────────

/// Whether the first token of the queue is the one to be handed out next.
spec fn steady(s: Scan) -> bool {
    s.tokens.len() > 0 && (!s.pending() || s.ended)
}

/// What is ready to be handed out stays the first.
proof fn lemma_front_steady(s: Scan)
    requires
        sane(s),
        s.b.len() <= MAX_INPUT,
    ensures
        s.front() matches Front::Ready(t) ==> steady(t),
    decreases s.todo(),
{
    reveal(Scan::fetch);
    reveal(Scan::fetch_here);
    if !(s.tokens.len() > 0 && !s.pending()) && !(s.ended && s.tokens.len() == 0) {
        lemma_fetch_cover(s, 0);
        if let Ok((t, true)) = s.fetch() {
            lemma_front_steady(t);
        }
    }
}

/// Behind the end of the input no token is scanned.
proof fn lemma_fetch_ended(s: Scan)
    requires
        sane(s),
        s.b.len() <= MAX_INPUT,
        s.started,
        s.ended,
        !s.in_block(),
    ensures
        s.fetch() matches Ok((t, more)) ==> t.tokens == s.tokens && t.ended && !more,
{
    reveal(Scan::fetch);
    reveal(Scan::fetch_here);
    lemma_gap_cover(s, false, 0);
    if let Ok(g) = s.skip_gap(false) {
        lemma_unroll_frame(g.stale_keys(), g.cur.column);
    }
}

/// The first token in `q` that is no trivia is `f`, if there is one.
spec fn leads(q: Seq<TokenView>, f: TokenView) -> bool {
    forall|j: int|
        0 <= j < q.len() && !is_trivia(#[trigger] q[j]) ==> exists|k: int|
            0 <= k <= j && #[trigger] q[k] == f
}

/// The first token of the queue comes before every other.
proof fn lemma_leads(s: Scan, lo: int, tlo: int)
    requires
        sane(s),
        s.b.len() <= MAX_INPUT,
        !s.errored,
        orderly(s, lo, tlo),
        steady(s),
    ensures
        leads(tape(s), s.tokens[0]),
    decreases s.weight(),
{
    reveal(Scan::next);
    reveal(Scan::next_token);
    reveal(Scan::next_with_trivia);
    lemma_front_orderly(s, lo, tlo);
    lemma_front_cover(s, 0);
    lemma_front_steady(s);
    if s.pending() {
        lemma_fetch_ended(s);
    }
    if let Next::Token(x, rest) = s.next() {
        let t = s.front()->Ready_0;
        let f = s.tokens[0];
        assert(s.front() is Ready && t.tokens == s.tokens);
        let _ = lemma_pop_orderly(t, lo, tlo);
        if is_trivia(x) {
            let tlo2 = lemma_pop_trivia_orderly(t, lo, tlo);
            assert(rest == Scan { trivia: t.trivia.drop_first(), ..t });
            assert(rest.pending() == t.pending());
            lemma_leads(rest, lo, tlo2);
            let q = tape(s);
            let r = tape(rest);
            assert forall|j: int| 0 <= j < q.len() && !is_trivia(#[trigger] q[j]) implies exists|
                k: int,
            |
                0 <= k <= j && #[trigger] q[k] == f by {
                assert(q[j] == r[j - 1]);
                let k = choose|k: int| 0 <= k <= j - 1 && #[trigger] r[k] == f;
                assert(q[k + 1] == f);
            }
        } else {
            assert(tape(s)[0] == f);
        }
    }
}

/// Between the `j`th token and a token without bytes that is handed out before it stands
/// the `i`th, a piece of trivia.
pub open spec fn comes_early(q: Seq<TokenView>, i: int, j: int) -> bool {
    &&& is_trivia(q[i])
    &&& q[j].span.start.offset < q[i].span.start.offset
    &&& exists|k: int|
        i < k < j && !is_trivia(#[trigger] q[k]) && !has_bytes(q[k]) && q[i].span.start.offset
            <= q[k].span.start.offset
}

/// Tokens that have bytes and pieces of trivia come in the order of the input, but for
/// trivia that comes early.
pub open spec fn in_order_across(q: Seq<TokenView>) -> bool {
    forall|i: int, j: int|
        0 <= i < j < q.len() && has_bytes(#[trigger] q[i]) && has_bytes(#[trigger] q[j])
            ==> q[i].span.start.offset <= q[j].span.start.offset || comes_early(q, i, j)
}

proof fn lemma_prepend_across(x: TokenView, q: Seq<TokenView>)
    requires
        in_order_across(q),
        forall|j: int|
            0 <= j < q.len() && has_bytes(x) && has_bytes(#[trigger] q[j])
                ==> x.span.start.offset <= q[j].span.start.offset || comes_early(
                seq![x] + q,
                0,
                j + 1,
            ),
    ensures
        in_order_across(seq![x] + q),
{
    let r = seq![x] + q;
    assert forall|i: int| 1 <= i < r.len() implies r[i] == q[i - 1] by {}
    assert forall|i: int, j: int|
        0 <= i < j < r.len() && has_bytes(#[trigger] r[i]) && has_bytes(
            #[trigger] r[j],
        ) implies r[i].span.start.offset <= r[j].span.start.offset || comes_early(r, i, j) by {
        assert(r[j] == q[j - 1]);
        if i > 0 {
            assert(r[i] == q[i - 1]);
            if comes_early(q, i - 1, j - 1) {
                let k = choose|k: int|
                    i - 1 < k < j - 1 && !is_trivia(#[trigger] q[k]) && !has_bytes(q[k])
                        && q[i - 1].span.start.offset <= q[k].span.start.offset;
                assert(r[k + 1] == q[k]);
            }
        }
    }
}

/// Trivia in front of the first token of the queue.
proof fn lemma_trivia_across(x: TokenView, f: TokenView, q: Seq<TokenView>)
    requires
        leads(q, f),
        in_order_by_class(seq![x] + q),
        is_trivia(x),
        !is_trivia(f),
        x.span.start.offset <= f.span.start.offset,
        has_bytes(x),
    ensures
        forall|j: int|
            0 <= j < q.len() && has_bytes(x) && has_bytes(#[trigger] q[j])
                ==> x.span.start.offset <= q[j].span.start.offset || comes_early(
                seq![x] + q,
                0,
                j + 1,
            ),
{
    let r = seq![x] + q;
    assert forall|j: int| 0 <= j < q.len() && has_bytes(#[trigger] q[j]) implies x.span.start.offset
        <= q[j].span.start.offset || comes_early(r, 0, j + 1) by {
        assert(r[0] == x && r[j + 1] == q[j]);
        if !is_trivia(q[j]) {
            let k = choose|k: int| 0 <= k <= j && #[trigger] q[k] == f;
            assert(r[k + 1] == f);
        }
    }
}

proof fn lemma_tape_across(s: Scan, lo: int, tlo: int)
    requires
        sane(s),
        s.b.len() <= MAX_INPUT,
        !s.errored,
        orderly(s, lo, tlo),
    ensures
        in_order_across(tape(s)),
    decreases s.weight(),
{
    reveal(Scan::next);
    reveal(Scan::next_token);
    reveal(Scan::next_with_trivia);
    lemma_front_orderly(s, lo, tlo);
    lemma_front_cover(s, 0);
    lemma_front_steady(s);
    lemma_tape_orderly(s, lo, tlo);
    if let Next::Token(x, rest) = s.next() {
        let t = match s.front() {
            Front::Ready(t) => t,
            Front::Exhausted(t) => t,
            Front::Failed(_) => s,
        };
        let q = tape(rest);
        assert(tape(s)[0] == x);
        assert forall|i: int| 0 <= i < q.len() implies tape(s)[i + 1] == q[i] by {}
        if s.front() is Ready {
            let lo2 = lemma_pop_orderly(t, lo, tlo);
            if is_trivia(x) {
                let tlo2 = lemma_pop_trivia_orderly(t, lo, tlo);
                assert(rest == Scan { trivia: t.trivia.drop_first(), ..t });
                assert(rest.pending() == t.pending());
                lemma_tape_across(rest, lo, tlo2);
                lemma_leads(rest, lo, tlo2);
                lemma_trivia_across(x, t.tokens[0], q);
            } else {
                let tlo2 = if t.trivia.len() > 0 && s.keep_trivia {
                    t.trivia[0].span.start.offset as int
                } else if t.trivia.len() > 0 {
                    tlo
                } else {
                    t.cur.offset
                };
                assert forall|i: int| 0 <= i < t.trivia.len() && s.keep_trivia implies tlo2 <= (
                #[trigger] t.trivia[i]).span.start.offset by {
                    assert(has_bytes(t.trivia[0]) && has_bytes(t.trivia[i]));
                }
                assert(orderly(rest, lo2, tlo2));
                lemma_tape_across(rest, lo2, tlo2);
                lemma_tape_orderly(rest, lo2, tlo2);
            }
        } else {
            let tlo2 = lemma_pop_trivia_orderly(t, lo, tlo);
            lemma_tape_across(rest, lo, tlo2);
            lemma_tape_orderly(rest, lo, tlo2);
        }
        lemma_prepend_across(x, q);
    }
}

pub proof fn lemma_fresh_orderly(b: Seq<u8>, limits: crate::limits::ResourceLimits, keep: bool)
    ensures
        orderly(Scan::fresh(b, limits, keep), 0, 0),
        sane(Scan::fresh(b, limits, keep)),
{
}

/// The tokens of every input start with the start of the stream and hold no trivia. The
/// end of the stream is the last of them, if it is among them, and it is among them if
/// the input is scanned without an error.
pub proof fn law_stream_end_comes_last(b: Seq<u8>, limits: crate::limits::ResourceLimits)
    requires
        b.len() <= MAX_INPUT,
    ensures
        ({
            let s = Scan::fresh(b, limits, false);
            let q = tape(s);
            &&& q.len() > 0
            &&& q[0].kind is StreamStart
            &&& forall|i: int| 0 <= i < q.len() ==> !is_trivia(#[trigger] q[i])
            &&& forall|i: int|
                0 <= i < q.len() && (#[trigger] q[i]).kind is StreamEnd ==> i == q.len() - 1
            &&& ends_well(s) ==> q.last().kind is StreamEnd
        }),
{
    reveal(Scan::next);
    let s = Scan::fresh(b, limits, false);
    let q = tape(s);
    lemma_fresh_orderly(b, limits, false);
    lemma_tape_orderly(s, 0, 0);
    crate::scanner::frame::lemma_first_token(b, limits);
    assert forall|i: int| 0 <= i < q.len() && (#[trigger] q[i]).kind is StreamEnd implies i
        == q.len() - 1 by {
        if i < q.len() - 1 {
            assert(is_trivia(q[i + 1]));
        }
    }
}

/// Where nothing more was handed out, nothing ever is: neither behind the end of the
/// input nor behind an error.
pub proof fn law_nothing_follows_the_end(s: Scan)
    requires
        sane(s),
        s.b.len() <= MAX_INPUT,
    ensures
        s.errored ==> s.next_token() == Next::End(s),
        s.next_token() matches Next::End(t) ==> t.next_token() == Next::End(t),
{
    reveal(Scan::next_token);
    lemma_front_cover(s, 0);
}

/// Tokens that have bytes are handed out in the order of the input, and so are the pieces
/// of trivia, whatever the input is. Between the two the order is that of the input as
/// well, with one exception: trivia comes before a token in front of it if a token without
/// bytes behind the trivia comes before that token. Such is the start of a mapping, which
/// stands at the `:` behind its first key: trivia in front of that `:` comes before it, and
/// so before the key.
pub proof fn law_tokens_come_in_order(b: Seq<u8>, limits: crate::limits::ResourceLimits, keep: bool)
    requires
        b.len() <= MAX_INPUT,
    ensures
        in_order_by_class(tape(Scan::fresh(b, limits, keep))),
        in_order_across(tape(Scan::fresh(b, limits, keep))),
        end_comes_last(tape(Scan::fresh(b, limits, keep))),
{
    lemma_fresh_orderly(b, limits, keep);
    lemma_tape_orderly(Scan::fresh(b, limits, keep), 0, 0);
    lemma_tape_across(Scan::fresh(b, limits, keep), 0, 0);
}

} // verus!
