//! All tokens of an input at once, and what holds of them: together with the trivia
//! their spans tile the input.
use crate::scanner::advance::{lemma_dispatch_moves, lemma_unroll_frame, sane};
use crate::scanner::chars::PERCENT;
use crate::scanner::cursor::{lemma_run, Until, MAX_INPUT};
use crate::scanner::model::{lemma_skip_in_line, lemma_skip_whitespace, Front, Next, Scan, Step};
use crate::scanner::props::directive;
use crate::scanner::token::{TokenKindView, TokenView};
use crate::types::{point, Position, ScalarStyle};
use vstd::prelude::*;

verus! {

/// What a scanner hands out from a state on, up to its end or its first error.
/// Each token leaves less to hand out.
pub open spec fn tape(s: Scan) -> Seq<TokenView>
    decreases s.weight(),
{
    match s.next() {
        Next::Token(t, rest) => if 0 <= rest.weight() < s.weight() {
            seq![t] + tape(rest)
        } else {
            seq![t]
        },
        _ => seq![],
    }
}

/// Whether the `i`th byte of the input belongs to a token.
pub open spec fn covers(t: TokenView, i: int) -> bool {
    t.span.start.offset <= i < t.span.end.offset
}

/// The number of tokens to which the `i`th byte belongs.
pub open spec fn cover(s: Seq<TokenView>, i: int) -> nat
    decreases s.len(),
{
    if s.len() == 0 {
        0
    } else {
        cover(s.drop_last(), i) + if covers(s.last(), i) {
            1nat
        } else {
            0
        }
    }
}

/// One if `lo <= i < hi`, else nothing.
pub open spec fn within(lo: int, i: int, hi: int) -> nat {
    if lo <= i < hi {
        1
    } else {
        0
    }
}

/// The number of tokens and pieces of trivia still held to which the `i`th byte
/// belongs.
pub open spec fn held(s: Scan, i: int) -> nat {
    cover(s.tokens, i) + cover(s.trivia, i)
}

proof fn lemma_cover_push(s: Seq<TokenView>, t: TokenView, i: int)
    ensures
        cover(s.push(t), i) == cover(s, i) + if covers(t, i) {
            1nat
        } else {
            0
        },
{
    assert(s.push(t).drop_last() =~= s);
}

proof fn lemma_cover_insert(s: Seq<TokenView>, k: int, t: TokenView, i: int)
    requires
        0 <= k <= s.len(),
        !covers(t, i),
    ensures
        cover(s.insert(k, t), i) == cover(s, i),
    decreases s.len(),
{
    if k == s.len() {
        assert(s.insert(k, t) =~= s.push(t));
        lemma_cover_push(s, t, i);
    } else {
        lemma_cover_insert(s.drop_last(), k, t, i);
        assert(s.insert(k, t).drop_last() =~= s.drop_last().insert(k, t));
    }
}

proof fn lemma_cover_first(s: Seq<TokenView>, i: int)
    requires
        s.len() > 0,
    ensures
        cover(s, i) == cover(s.drop_first(), i) + if covers(s[0], i) {
            1nat
        } else {
            0
        },
    decreases s.len(),
{
    if s.len() > 1 {
        lemma_cover_first(s.drop_last(), i);
        assert(s.drop_last().drop_first() =~= s.drop_first().drop_last());
    } else {
        assert(s.drop_last() =~= Seq::<TokenView>::empty());
        assert(s.drop_first() =~= Seq::<TokenView>::empty());
    }
}

proof fn lemma_cover_prepend(t: TokenView, s: Seq<TokenView>, i: int)
    ensures
        cover(seq![t] + s, i) == cover(s, i) + if covers(t, i) {
            1nat
        } else {
            0
        },
{
    lemma_cover_first(seq![t] + s, i);
    assert((seq![t] + s).drop_first() =~= s);
}

// ─── Tokens ─────────────────────────────────────────────────────────

/// A step adds the bytes that it passes over to one token.
spec fn laid(s: Scan, step: Step, i: int) -> bool {
    step matches Ok(t) ==> cover(t.tokens, i) == cover(s.tokens, i) + within(
        s.cur.offset,
        i,
        t.cur.offset,
    )
}

/// The scanner stands in an input that is short enough to be scanned.
spec fn placed(s: Scan) -> bool {
    0 <= s.cur.offset < s.b.len() <= MAX_INPUT
}

proof fn lemma_unroll_cover(s: Scan, column: int, i: int)
    ensures
        cover(s.unroll(column).tokens, i) == cover(s.tokens, i),
    decreases s.indents.len(),
{
    if !(!s.in_block() || s.indent <= column || s.indents.len() == 0) {
        let t = Scan {
            indent: s.indents.last(),
            indents: s.indents.drop_last(),
            ..s.enqueue(TokenKindView::BlockEnd, point(s.pos()))
        };
        lemma_cover_push(
            s.tokens,
            TokenView { kind: TokenKindView::BlockEnd, span: point(s.pos()) },
            i,
        );
        lemma_unroll_cover(t, column, i);
    }
}

proof fn lemma_insert_cover(s: Scan, index: int, kind: TokenKindView, pos: Position, i: int)
    ensures
        cover(s.insert_at(index, kind, point(pos)).tokens, i) == cover(s.tokens, i),
{
    let k = if index > s.produced {
        index - s.produced
    } else {
        0
    };
    if k <= s.tokens.len() {
        lemma_cover_insert(s.tokens, k, TokenView { kind, span: point(pos) }, i);
    }
}

proof fn lemma_roll_cover(
    s: Scan,
    column: int,
    kind: TokenKindView,
    index: Option<int>,
    i: int,
)
    ensures
        cover(s.roll(column, kind, index).tokens, i) == cover(s.tokens, i),
{
    if s.indent < column {
        let t = Scan { indents: s.indents.push(s.indent), indent: column, ..s };
        match index {
            Some(k) => lemma_insert_cover(t, k, kind, s.pos(), i),
            None => lemma_cover_push(s.tokens, TokenView { kind, span: point(s.pos()) }, i),
        }
    }
}

/// A token from the current place to a later one covers what lies between.
proof fn lemma_token_cover(s: Scan, lo: int, kind: TokenKindView, i: int)
    requires
        0 <= lo <= s.cur.offset <= MAX_INPUT,
    ensures
        forall|start: Position|
            start.offset == lo ==> cover(#[trigger] s.token_from(start, kind).tokens, i) == cover(
                s.tokens,
                i,
            ) + within(lo, i, s.cur.offset),
{
    assert forall|start: Position| start.offset == lo implies cover(
        #[trigger] s.token_from(start, kind).tokens,
        i,
    ) == cover(s.tokens, i) + within(lo, i, s.cur.offset) by {
        lemma_cover_push(s.tokens, TokenView { kind, span: s.cur.span_from(start) }, i);
    }
}

proof fn lemma_laid_document(s: Scan, i: int)
    requires
        placed(s),
    ensures
        crate::scanner::cursor::marker_at(
            s.b,
            s.cur.offset,
            crate::scanner::chars::DASH,
        ) ==> laid(s, s.document_start(), i),
        crate::scanner::cursor::marker_at(
            s.b,
            s.cur.offset,
            crate::scanner::chars::DOT,
        ) ==> laid(s, s.document_end(), i),
{
    lemma_unroll_frame(s, -1);
    lemma_unroll_cover(s, -1, i);
    let t = Scan { allow: false, ..s.unroll(-1).remove_key() };
    if s.cur.offset + 3 <= s.b.len() {
        let c = s.cur.to(s.cur.offset + 3);
        lemma_token_cover(t.at(c), s.cur.offset, TokenKindView::DocumentStart, i);
        lemma_run(s.b, c.offset, Until::NotWhitespace);
        let c1 = c.run(s.b, Until::NotWhitespace);
        lemma_run(s.b, c1.offset, Until::Break);
        lemma_token_cover(t.at(c1), s.cur.offset, TokenKindView::DocumentEnd, i);
        lemma_token_cover(
            t.at(c1.run(s.b, Until::Break)),
            s.cur.offset,
            TokenKindView::DocumentEnd,
            i,
        );
    }
}

/// A directive that is neither `%YAML` nor `%TAG` stands here. It is passed over
/// without a token.
pub open spec fn reserved_here(s: Scan) -> bool {
    &&& s.cur.column == 0
    &&& s.cur.sees(s.b, PERCENT)
    &&& directive(s.b, s.step().cur, s.pos()) matches Ok((_, None))
}

proof fn lemma_laid_directive(s: Scan, i: int)
    requires
        placed(s),
        s.cur.column == 0,
        s.byte() == PERCENT,
    ensures
        !reserved_here(s) ==> laid(s, s.directive(), i),
        reserved_here(s) ==> (s.directive() matches Ok(t) ==> cover(t.tokens, i) == cover(
            s.tokens,
            i,
        )),
{
    lemma_unroll_frame(s, -1);
    lemma_unroll_cover(s, -1, i);
    let t = Scan { allow: false, ..s.unroll(-1).remove_key() };
    crate::scanner::advance::lemma_directive_moves(s);
    if let Ok((c, Some(kind))) = directive(s.b, s.step().cur, s.pos()) {
        lemma_token_cover(t.at(c), s.cur.offset, kind, i);
    }
}

proof fn lemma_laid_block(s: Scan, i: int)
    requires
        placed(s),
    ensures
        laid(s, s.block_entry(), i),
        laid(s, s.key_indicator(), i),
{
    let column = s.cur.column;
    lemma_roll_cover(s, column, TokenKindView::BlockSequenceStart, None, i);
    lemma_roll_cover(s, column, TokenKindView::BlockMappingStart, None, i);
    let entry = if s.in_block() {
        s.roll(column, TokenKindView::BlockSequenceStart, None)
    } else {
        s
    };
    let key = if s.in_block() {
        s.roll(column, TokenKindView::BlockMappingStart, None)
    } else {
        s
    };
    lemma_token_cover(
        Scan { allow: true, ..entry.remove_key() }.step(),
        s.cur.offset,
        TokenKindView::BlockEntry,
        i,
    );
    lemma_token_cover(
        Scan { allow: s.in_block(), ..key.remove_key() }.step(),
        s.cur.offset,
        TokenKindView::Key,
        i,
    );
}

proof fn lemma_laid_value(s: Scan, i: int)
    requires
        placed(s),
    ensures
        laid(s, s.value_indicator(), i),
{
    reveal(Scan::value_of_key);
    let column = s.cur.column;
    lemma_roll_cover(s, column, TokenKindView::BlockMappingStart, None, i);
    let open = if s.in_block() {
        s.roll(column, TokenKindView::BlockMappingStart, None)
    } else {
        s
    };
    lemma_token_cover(
        Scan { allow: s.in_block(), ..open.remove_key() }.step(),
        s.cur.offset,
        TokenKindView::Value,
        i,
    );
    let key = s.keys.last();
    lemma_insert_cover(s, key.index, TokenKindView::Key, key.pos, i);
    let t = s.insert_at(key.index, TokenKindView::Key, point(key.pos));
    lemma_roll_cover(t, key.column(), TokenKindView::BlockMappingStart, Some(key.index), i);
    let u = if s.in_block() {
        t.roll(key.column(), TokenKindView::BlockMappingStart, Some(key.index))
    } else {
        t
    };
    lemma_token_cover(
        Scan { allow: false, ..u.remove_key() }.step(),
        s.cur.offset,
        TokenKindView::Value,
        i,
    );
}

proof fn lemma_laid_flow(s: Scan, is_sequence: bool, kind: TokenKindView, i: int)
    requires
        placed(s),
    ensures
        laid(s, s.flow_start(is_sequence), i),
        laid(s, s.flow_end(kind), i),
        laid(s, s.flow_entry(), i),
{
    let start = if is_sequence {
        TokenKindView::FlowSequenceStart
    } else {
        TokenKindView::FlowMappingStart
    };
    if let Ok(t) = s.flow_start(is_sequence) {
        lemma_token_cover(Scan { tokens: s.tokens, ..t }, s.cur.offset, start, i);
    }
    if let Ok(t) = s.flow_end(kind) {
        lemma_token_cover(Scan { tokens: s.tokens, ..t }, s.cur.offset, kind, i);
    }
    if let Ok(t) = s.flow_entry() {
        lemma_token_cover(
            Scan { tokens: s.tokens, ..t },
            s.cur.offset,
            TokenKindView::FlowEntry,
            i,
        );
    }
}

/// What is scanned from the current place on is one token.
proof fn lemma_laid_lexed(s: Scan, l: crate::scanner::props::Lexed, i: int)
    requires
        placed(s),
        l matches Ok((c, k)) ==> s.cur.offset <= c.offset <= s.b.len() && k is Some,
    ensures
        laid(s, s.lexed(s.pos(), l), i),
{
    if let Ok((c, Some(kind))) = l {
        lemma_token_cover(s.at(c), s.cur.offset, kind, i);
    }
}

/// A scalar scanned from the current place on is one token.
proof fn lemma_laid_scalar(
    s: Scan,
    q: crate::scanner::quoted::Quoted,
    style: ScalarStyle,
    i: int,
)
    requires
        placed(s),
        q matches Ok((c, _)) ==> s.cur.offset <= c.offset <= s.b.len(),
    ensures
        laid(s, s.scalar(s.pos(), q, style), i),
{
    if let Ok((c, value)) = q {
        lemma_token_cover(s.at(c), s.cur.offset, TokenKindView::Scalar { value, style }, i);
    }
}

proof fn lemma_laid_node(s: Scan, is_anchor: bool, style: ScalarStyle, i: int)
    requires
        placed(s),
    ensures
        laid(s, s.anchor(is_anchor), i),
        laid(s, s.tag(), i),
        laid(s, s.block_scalar(style), i),
        laid(s, s.single_quoted(), i),
        laid(s, s.double_quoted(), i),
{
    crate::scanner::advance::lemma_node_onward(s, is_anchor, style);
    let n = s.node_start();
    let c = s.step().cur;
    lemma_laid_lexed(
        n,
        crate::scanner::props::anchor_or_alias(s.b, c, is_anchor, s.pos()),
        i,
    );
    lemma_laid_lexed(n, crate::scanner::props::tag(s.b, c, s.cur.offset, s.pos()), i);
    lemma_laid_scalar(
        Scan { allow: true, ..s.remove_key() },
        crate::scanner::block::block_scalar(s.b, c, style, s.indent, s.pos()),
        style,
        i,
    );
    lemma_laid_scalar(
        n,
        crate::scanner::quoted::single_quoted(s.b, c, seq![], s.pos()),
        ScalarStyle::SingleQuoted,
        i,
    );
    let indent_from = if s.in_block() {
        Some(s.indent + 1)
    } else {
        None
    };
    lemma_laid_scalar(
        n,
        crate::scanner::quoted::double_quoted(s.b, c, seq![], seq![], indent_from, s.pos()),
        ScalarStyle::DoubleQuoted,
        i,
    );
}

proof fn lemma_laid_plain(s: Scan, i: int)
    requires
        placed(s),
    ensures
        laid(s, s.plain(), i),
{
    crate::scanner::advance::lemma_moves_plain(s);
    if let Ok(t) = s.plain() {
        let p = crate::scanner::plain::plain_scalar(s.b, s.cur, !s.in_block(), s.indent);
        lemma_token_cover(
            s.node_start().at(p.cur),
            s.cur.offset,
            TokenKindView::Scalar { value: p.content, style: ScalarStyle::Plain },
            i,
        );
    }
}

/// The token that starts here covers the bytes that scanning it passes over.
proof fn lemma_laid_dispatch(s: Scan, i: int)
    requires
        placed(s),
    ensures
        !reserved_here(s) ==> laid(s, s.dispatch(), i),
        reserved_here(s) ==> (s.dispatch() matches Ok(t) ==> cover(t.tokens, i) == cover(
            s.tokens,
            i,
        )),
{
    reveal(Scan::dispatch);
    lemma_laid_document(s, i);
    lemma_laid_flow(s, true, TokenKindView::FlowSequenceEnd, i);
    lemma_laid_flow(s, false, TokenKindView::FlowMappingEnd, i);
    lemma_laid_block(s, i);
    lemma_laid_value(s, i);
    lemma_laid_node(s, true, ScalarStyle::Literal, i);
    lemma_laid_node(s, false, ScalarStyle::Folded, i);
    lemma_laid_plain(s, i);
    if s.byte() == PERCENT && s.cur.column == 0 {
        lemma_laid_directive(s, i);
    }
}

// ─── Between tokens ─────────────────────────────────────────────────

/// Recording the text since `start` as trivia covers it.
proof fn lemma_trivia_cover(s: Scan, start: crate::scanner::cursor::Cur, kind: TokenKindView, i: int)
    requires
        0 <= start.offset <= s.cur.offset <= MAX_INPUT,
        s.keep_trivia,
    ensures
        cover(s.push_trivia(start, kind).trivia, i) == cover(s.trivia, i) + within(
            start.offset,
            i,
            s.cur.offset,
        ),
{
    lemma_cover_push(s.trivia, TokenView { kind, span: s.cur.span_from(start.pos()) }, i);
}

proof fn lemma_in_line_cover(s: Scan, line_start: bool, i: int)
    requires
        0 <= s.cur.offset <= s.b.len() <= MAX_INPUT,
        s.keep_trivia,
    ensures
        s.skip_in_line(line_start) matches Ok(t) ==> cover(t.trivia, i) == cover(s.trivia, i)
            + within(s.cur.offset, i, t.cur.offset),
{
    reveal(Scan::skip_in_line);
    lemma_skip_whitespace(s, line_start, false);
    if let Ok((s1, _)) = s.skip_whitespace(line_start, false) {
        let ws = TokenKindView::Whitespace(
            crate::text::text(s1.b, s.cur.offset, s1.cur.offset),
        );
        lemma_trivia_cover(s1, s.cur, ws, i);
        lemma_run(s.b, s1.cur.offset, Until::Break);
        let s2 = Scan { after_indicator: false, ..s1.keep_whitespace(s.cur) };
        let s3 = s2.at(s2.cur.run(s2.b, Until::Break));
        let comment = TokenKindView::Comment(
            crate::text::text(s2.b, s2.cur.offset, s3.cur.offset),
        );
        lemma_trivia_cover(s3, s2.cur, comment, i);
    }
}

/// What is skipped between two tokens is covered by trivia.
pub proof fn lemma_gap_cover(s: Scan, line_start: bool, i: int)
    requires
        0 <= s.cur.offset <= s.b.len() <= MAX_INPUT,
    ensures
        s.skip_gap(line_start) matches Ok(t) ==> {
            &&& s.cur.offset <= t.cur.offset <= s.b.len()
            &&& t == (Scan {
                cur: t.cur,
                tab_line: t.tab_line,
                after_indicator: t.after_indicator,
                allow: t.allow,
                colon_adjacent: t.colon_adjacent,
                trivia: t.trivia,
                ..s
            })
            &&& t.trivia.len() - s.trivia.len() <= t.cur.offset - s.cur.offset
            &&& s.keep_trivia ==> cover(t.trivia, i) == cover(s.trivia, i) + within(
                s.cur.offset,
                i,
                t.cur.offset,
            )
        },
    decreases s.b.len() - s.cur.offset,
{
    lemma_skip_in_line(s, line_start);
    if s.keep_trivia {
        lemma_in_line_cover(s, line_start, i);
    }
    if let Ok(t) = s.skip_in_line(line_start) {
        if t.cur.sees_break(t.b) {
            let u = t.at(t.cur.newline(t.b));
            let lb = TokenKindView::LineBreak(
                crate::text::text(t.b, t.cur.offset, u.cur.offset),
            );
            if s.keep_trivia {
                lemma_trivia_cover(u, t.cur, lb, i);
            }
            lemma_gap_cover(t.skip_break(), true, i);
        }
    }
}

// ─── Pieces of input ────────────────────────────────────────────────

/// The next piece of input is a reserved directive.
pub open spec fn fetches_reserved(s: Scan) -> bool {
    s.started && (s.skip_gap(false) matches Ok(g) && reserved_here(g))
}

/// Every byte scanned gives at most four tokens and open collections.
pub open spec fn counted(s: Scan) -> bool {
    &&& 0 <= s.produced
    &&& s.produced + s.tokens.len() + s.indents.len() <= 4 * s.cur.offset + (if s.started {
        1int
    } else {
        0
    }) + (if s.ended {
        1int
    } else {
        0
    })
}

/// Scanning a piece of input covers it, but for a reserved directive, and leaves less
/// to hand out.
pub proof fn lemma_fetch_cover(s: Scan, i: int)
    requires
        sane(s),
        s.b.len() <= MAX_INPUT,
    ensures
        s.fetch() matches Ok((t, more)) ==> {
            &&& sane(t)
            &&& t.b == s.b
            &&& t.keep_trivia == s.keep_trivia
            &&& t.errored == s.errored
            &&& t.started
            &&& s.cur.offset <= t.cur.offset
            &&& t.weight() <= s.weight()
            &&& counted(s) ==> counted(t)
            &&& more ==> 0 <= t.todo() < s.todo()
            &&& !more ==> t.ended
            &&& s.keep_trivia ==> held(t, i) <= held(s, i) + within(
                s.cur.offset,
                i,
                t.cur.offset,
            )
            &&& s.keep_trivia && !fetches_reserved(s) ==> held(t, i) == held(s, i) + within(
                s.cur.offset,
                i,
                t.cur.offset,
            )
        },
{
    reveal(Scan::fetch);
    reveal(Scan::fetch_here);
    if !s.started {
        let m = Scan { started: true, ..s }.at(
            crate::scanner::cursor::Cur { offset: s.cur.offset + 3, ..s.cur },
        );
        let t = s.stream_start();
        lemma_cover_push(s.tokens, t.tokens.last(), i);
        if s.keep_trivia && s.has_bom() {
            lemma_trivia_cover(
                m,
                s.cur,
                TokenKindView::Whitespace(crate::text::text(s.b, s.cur.offset, m.cur.offset)),
                i,
            );
        }
    } else {
        lemma_gap_cover(s, false, i);
        if let Ok(g) = s.skip_gap(false) {
            let k = g.stale_keys();
            lemma_unroll_frame(k, g.cur.column);
            lemma_unroll_cover(k, g.cur.column, i);
            let u = k.unroll(g.cur.column);
            if u.at_end() {
                lemma_unroll_frame(u, -1);
                lemma_unroll_cover(u, -1, i);
                let e = Scan { allow: false, ended: true, ..u.unroll(-1).remove_key() };
                lemma_cover_push(
                    e.tokens,
                    TokenView { kind: TokenKindView::StreamEnd, span: point(e.pos()) },
                    i,
                );
            } else if let Ok(p) = u.check_property() {
                lemma_dispatch_moves(p);
                lemma_laid_dispatch(p, i);
                crate::scanner::model::lemma_dispatch(p);
                assert(reserved_here(p) == reserved_here(g));
            }
        }
    }
}

/// Before the first token can be handed out, a reserved directive is passed over.
pub open spec fn front_reserved(s: Scan) -> bool
    decreases s.todo(),
{
    if (s.tokens.len() > 0 && !s.pending()) || (s.ended && s.tokens.len() == 0) {
        false
    } else {
        fetches_reserved(s) || match s.fetch() {
            Ok((t, true)) => 0 <= t.todo() < s.todo() && front_reserved(t),
            _ => false,
        }
    }
}

/// What scanning ahead covers, and what it leaves.
pub open spec fn fronted(s: Scan, t: Scan, i: int) -> bool {
    &&& sane(t)
    &&& t.b == s.b
    &&& t.keep_trivia == s.keep_trivia
    &&& t.errored == s.errored
    &&& t.weight() <= s.weight()
    &&& counted(s) ==> counted(t)
    &&& s.cur.offset <= t.cur.offset
    &&& s.keep_trivia ==> held(t, i) <= held(s, i) + within(s.cur.offset, i, t.cur.offset)
    &&& s.keep_trivia && !front_reserved(s) ==> held(t, i) == held(s, i) + within(
        s.cur.offset,
        i,
        t.cur.offset,
    )
}

/// Scanning ahead covers what it passes over, but for reserved directives.
pub proof fn lemma_front_cover(s: Scan, i: int)
    requires
        sane(s),
        s.b.len() <= MAX_INPUT,
    ensures
        match s.front() {
            Front::Ready(t) => fronted(s, t, i) && t.tokens.len() > 0,
            Front::Exhausted(t) => fronted(s, t, i) && t.tokens.len() == 0 && t.ended,
            Front::Failed(_) => true,
        },
    decreases s.todo(),
{
    if !(s.tokens.len() > 0 && !s.pending()) && !(s.ended && s.tokens.len() == 0) {
        lemma_fetch_cover(s, i);
        if let Ok((t, true)) = s.fetch() {
            lemma_front_cover(t, i);
        }
    }
}

/// What a token handed out leaves.
pub proof fn lemma_next_cover(s: Scan, i: int)
    requires
        sane(s),
        s.b.len() <= MAX_INPUT,
        s.keep_trivia,
        !s.errored,
    ensures
        match s.next() {
            Next::Token(t, rest) => {
                &&& sane(rest)
                &&& rest.b == s.b
                &&& rest.keep_trivia
                &&& !rest.errored
                &&& 0 <= rest.weight() < s.weight()
                &&& s.cur.offset <= rest.cur.offset
                &&& held(rest, i) + (if covers(t, i) {
                    1nat
                } else {
                    0
                }) <= held(s, i) + within(s.cur.offset, i, rest.cur.offset)
                &&& !front_reserved(s) ==> held(rest, i) + (if covers(t, i) {
                    1nat
                } else {
                    0
                }) == held(s, i) + within(s.cur.offset, i, rest.cur.offset)
            },
            Next::End(rest) => {
                &&& !front_reserved(s) ==> held(s, i) + within(
                    s.cur.offset,
                    i,
                    s.b.len() as int,
                ) == 0
            },
            Next::Failed(_) => true,
        },
{
    reveal(Scan::next);
    reveal(Scan::next_with_trivia);
    lemma_front_cover(s, i);
    match s.front() {
        Front::Ready(t) => {
            lemma_cover_first(t.tokens, i);
            if t.trivia.len() > 0 {
                lemma_cover_first(t.trivia, i);
            }
        },
        Front::Exhausted(t) => {
            if t.trivia.len() > 0 {
                lemma_cover_first(t.trivia, i);
            }
        },
        Front::Failed(_) => {},
    }
}

/// The input is scanned to its end, without an error and without a reserved
/// directive.
pub open spec fn whole(s: Scan) -> bool
    decreases s.weight(),
{
    !front_reserved(s) && match s.next() {
        Next::Token(_, rest) => 0 <= rest.weight() < s.weight() && whole(rest),
        Next::End(_) => true,
        Next::Failed(_) => false,
    }
}

proof fn lemma_tape_cover(s: Scan, i: int)
    requires
        sane(s),
        s.b.len() <= MAX_INPUT,
        s.keep_trivia,
        !s.errored,
        0 <= i < s.b.len(),
    ensures
        cover(tape(s), i) <= held(s, i) + within(s.cur.offset, i, s.b.len() as int),
        whole(s) ==> cover(tape(s), i) == held(s, i) + within(s.cur.offset, i, s.b.len() as int),
    decreases s.weight(),
{
    lemma_next_cover(s, i);
    if let Next::Token(t, rest) = s.next() {
        lemma_tape_cover(rest, i);
        lemma_cover_prepend(t, tape(rest), i);
    }
}

/// No byte of the input belongs to two tokens or pieces of trivia, whatever the input
/// is.
pub proof fn law_spans_are_disjoint(b: Seq<u8>, limits: crate::limits::ResourceLimits, i: int)
    requires
        b.len() <= MAX_INPUT,
        0 <= i < b.len(),
    ensures
        cover(tape(Scan::fresh(b, limits, true)), i) <= 1,
{
    lemma_tape_cover(Scan::fresh(b, limits, true), i);
}

/// Every byte of the input belongs to exactly one token or piece of trivia, if the
/// input is scanned to its end and holds no reserved directive.
pub proof fn law_spans_tile(b: Seq<u8>, limits: crate::limits::ResourceLimits, i: int)
    requires
        b.len() <= MAX_INPUT,
        0 <= i < b.len(),
        whole(Scan::fresh(b, limits, true)),
    ensures
        cover(tape(Scan::fresh(b, limits, true)), i) == 1,
{
    lemma_tape_cover(Scan::fresh(b, limits, true), i);
}

} // verus!
