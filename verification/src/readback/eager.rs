//! Handing tokens out early changes nothing: the tokens that a scanner hands out are those
//! that it would have if it scanned everything first.
use crate::error::unexpected;
use crate::readback::tokens::fetched;
use crate::scanner::advance::{lemma_unroll_frame, sane};
use crate::scanner::chars::{
    AMP, BANG, COLON, COMMA, DASH, DOT, DQUOTE, GT, LBRACE, LBRACKET, PERCENT, PIPE, QUESTION, RBRACE,
    RBRACKET, SPACE, SQUOTE, STAR, TAB,
};
use crate::scanner::cursor::{blank_at, blank_or_flow_at, marker_at, MAX_INPUT};
use crate::scanner::model::{lemma_skip_in_line, Fail, Front, Next, Scan, Step};
use crate::scanner::plain::{plain_scalar, PlainState};
use crate::scanner::stream::{lemma_fetch_cover, tape};
use crate::scanner::token::{TokenKindView, TokenView};
use crate::text::quoted;
use crate::types::{point, Position, ScalarStyle, Span};
use vstd::prelude::*;

verus! {

/// No possible key stands among the tokens that are handed out.
pub open spec fn keyed(s: Scan) -> bool {
    forall|i: int| 0 <= i < s.keys.len() && (#[trigger] s.keys[i]).possible ==> s.keys[i].index
        >= s.produced
}

/// A token waits, and every possible key stands behind it.
spec fn loose(s: Scan) -> bool {
    &&& s.tokens.len() > 0
    &&& s.keys.len() == s.flows.len() + 1
    &&& forall|i: int|
        0 <= i < s.keys.len() && (#[trigger] s.keys[i]).possible ==> s.keys[i].index > s.produced
}

/// The first token stays the first, and may be handed out before the step as well as
/// behind it.
spec fn parted(s: Scan, u: Scan) -> bool {
    &&& loose(u)
    &&& u.tokens[0] == s.tokens[0]
    &&& u.produced == s.produced
}

#[verifier::opaque]
spec fn parts(s: Scan, a: Step, b: Step) -> bool {
    match a {
        Ok(u) => parted(s, u) && b == Ok::<Scan, Fail>(u.pop()),
        Err(f) => b == Err::<Scan, Fail>(f),
    }
}

proof fn lemma_enqueue(s: Scan, kind: TokenKindView, span: Span)
    requires
        loose(s),
    ensures
        parted(s, s.enqueue(kind, span)),
        s.pop().enqueue(kind, span) == s.enqueue(kind, span).pop(),
{
    let t = TokenView { kind, span };
    assert(s.tokens.drop_first().push(t) =~= s.tokens.push(t).drop_first());
}

proof fn lemma_token(s: Scan, c: crate::scanner::cursor::Cur, start: Position, kind: TokenKindView)
    requires
        loose(s),
    ensures
        parted(s, s.at(c).token_from(start, kind)),
        s.pop().at(c).token_from(start, kind) == s.at(c).token_from(start, kind).pop(),
{
    lemma_enqueue(s.at(c), kind, c.span_from(start));
    assert(s.pop().at(c) == s.at(c).pop());
}

proof fn lemma_insert(s: Scan, index: int, kind: TokenKindView, span: Span)
    requires
        loose(s),
        index > s.produced,
    ensures
        parted(s, s.insert_at(index, kind, span)),
        s.pop().insert_at(index, kind, span) == s.insert_at(index, kind, span).pop(),
{
    let i = index - s.produced;
    let t = TokenView { kind, span };
    if i <= s.tokens.len() {
        assert(s.tokens.drop_first().insert(i - 1, t) =~= s.tokens.insert(i, t).drop_first());
    }
    assert(s.pop().insert_at(index, kind, span) =~= s.insert_at(index, kind, span).pop());
}

proof fn lemma_roll(s: Scan, column: int, kind: TokenKindView, index: Option<int>)
    requires
        loose(s),
        index matches Some(i) ==> i > s.produced,
    ensures
        parted(s, s.roll(column, kind, index)),
        s.pop().roll(column, kind, index) == s.roll(column, kind, index).pop(),
{
    if s.indent < column {
        let t = Scan { indents: s.indents.push(s.indent), indent: column, ..s };
        match index {
            Some(i) => lemma_insert(t, i, kind, point(s.pos())),
            None => lemma_enqueue(t, kind, point(s.pos())),
        }
    }
}

proof fn lemma_unroll(s: Scan, column: int)
    requires
        loose(s),
    ensures
        parted(s, s.unroll(column)),
        s.pop().unroll(column) == s.unroll(column).pop(),
    decreases s.indents.len(),
{
    if !(!s.in_block() || s.indent <= column || s.indents.len() == 0) {
        let t = Scan {
            indent: s.indents.last(),
            indents: s.indents.drop_last(),
            ..s.enqueue(TokenKindView::BlockEnd, point(s.pos()))
        };
        lemma_enqueue(
            Scan { indent: s.indents.last(), indents: s.indents.drop_last(), ..s },
            TokenKindView::BlockEnd,
            point(s.pos()),
        );
        lemma_unroll(t, column);
    }
}

proof fn lemma_remove_key(s: Scan)
    requires
        loose(s),
    ensures
        parted(s, s.remove_key()),
        s.pop().remove_key() == s.remove_key().pop(),
{
}

proof fn lemma_save_key(s: Scan)
    requires
        loose(s),
    ensures
        parted(s, s.save_key()),
        s.pop().save_key() == s.save_key().pop(),
        parted(s, s.node_start()),
        s.pop().node_start() == s.node_start().pop(),
{
}

proof fn lemma_document(s: Scan)
    requires
        loose(s),
    ensures
        parts(s, s.document_start(), s.pop().document_start()),
        parts(s, s.document_end(), s.pop().document_end()),
        parts(s, s.directive(), s.pop().directive()),
{
    reveal(parts);
    lemma_unroll(s, -1);
    let u = s.unroll(-1);
    lemma_remove_key(u);
    let t = Scan { allow: false, ..u.remove_key() };
    assert(loose(t));
    assert(t.pop() == (Scan { allow: false, ..s.pop().unroll(-1).remove_key() }));
    crate::scanner::advance::lemma_unroll_frame(s, -1);
    let c = t.cur.to(t.cur.offset + 3);
    lemma_token(t, c, t.pos(), TokenKindView::DocumentStart);
    let c1 = c.run(t.b, crate::scanner::cursor::Until::NotWhitespace);
    lemma_token(t, c1, t.pos(), TokenKindView::DocumentEnd);
    lemma_token(
        t,
        c1.run(t.b, crate::scanner::cursor::Until::Break),
        t.pos(),
        TokenKindView::DocumentEnd,
    );
    lemma_lexed(t, crate::scanner::props::directive(t.b, t.step().cur, t.pos()));
}

proof fn lemma_lexed(s: Scan, l: crate::scanner::props::Lexed)
    requires
        loose(s),
    ensures
        parts(s, s.lexed(s.pos(), l), s.pop().lexed(s.pos(), l)),
{
    reveal(parts);
    if let Ok((c, Some(kind))) = l {
        lemma_token(s, c, s.pos(), kind);
    }
}

proof fn lemma_scalar(s: Scan, q: crate::scanner::quoted::Quoted, style: ScalarStyle)
    requires
        loose(s),
    ensures
        parts(s, s.scalar(s.pos(), q, style), s.pop().scalar(s.pos(), q, style)),
{
    reveal(parts);
    if let Ok((c, value)) = q {
        lemma_token(s, c, s.pos(), TokenKindView::Scalar { value, style });
    }
}

proof fn lemma_byte_token(s: Scan, kind: TokenKindView)
    requires
        loose(s),
    ensures
        parted(s, s.byte_token(kind)),
        s.pop().byte_token(kind) == s.byte_token(kind).pop(),
{
    lemma_token(s, s.step().cur, s.pos(), kind);
}

proof fn lemma_flow(s: Scan, is_sequence: bool, kind: TokenKindView)
    requires
        loose(s),
    ensures
        parts(s, s.flow_start(is_sequence), s.pop().flow_start(is_sequence)),
        parts(s, s.flow_end(kind), s.pop().flow_end(kind)),
        parts(s, s.flow_entry(), s.pop().flow_entry()),
{
    reveal(parts);
    lemma_save_key(s);
    let a = s.save_key();
    let start = Scan {
        flows: a.flows.push(is_sequence),
        allow: true,
        keys: a.keys.push(
            crate::scanner::model::KeyView { possible: false, index: 0, pos: a.pos() },
        ),
        ..a
    };
    assert(loose(start)) by {
        assert forall|i: int|
            0 <= i < start.keys.len() && (#[trigger] start.keys[i]).possible implies
            start.keys[i].index > start.produced by {
            assert(start.keys[i] == a.keys[i]);
        }
    }
    let first = if is_sequence {
        TokenKindView::FlowSequenceStart
    } else {
        TokenKindView::FlowMappingStart
    };
    lemma_byte_token(start, first);
    lemma_remove_key(s);
    let r = s.remove_key();
    lemma_byte_token(Scan { allow: true, ..r }, TokenKindView::FlowEntry);
    let e = if r.flows.len() > 0 {
        Scan { flows: r.flows.drop_last(), keys: r.keys.drop_last(), ..r }
    } else {
        r
    };
    let end = Scan { allow: false, ..e };
    assert(loose(end)) by {
        assert forall|i: int|
            0 <= i < end.keys.len() && (#[trigger] end.keys[i]).possible implies end.keys[i].index
            > end.produced by {
            assert(end.keys[i] == r.keys[i]);
        }
    }
    lemma_byte_token(end, kind);
}

proof fn lemma_block(s: Scan)
    requires
        loose(s),
    ensures
        parts(s, s.block_entry(), s.pop().block_entry()),
        parts(s, s.key_indicator(), s.pop().key_indicator()),
{
    reveal(parts);
    lemma_roll(s, s.cur.column, TokenKindView::BlockSequenceStart, None);
    lemma_roll(s, s.cur.column, TokenKindView::BlockMappingStart, None);
    let a = if s.in_block() {
        s.roll(s.cur.column, TokenKindView::BlockSequenceStart, None)
    } else {
        s
    };
    let b = if s.in_block() {
        s.roll(s.cur.column, TokenKindView::BlockMappingStart, None)
    } else {
        s
    };
    lemma_remove_key(a);
    lemma_remove_key(b);
    lemma_byte_token(Scan { allow: true, ..a.remove_key() }, TokenKindView::BlockEntry);
    lemma_byte_token(Scan { allow: s.in_block(), ..b.remove_key() }, TokenKindView::Key);
}

proof fn lemma_value_token(s: Scan)
    requires
        loose(s),
    ensures
        parted(s, s.value_token()),
        s.pop().value_token() == s.value_token().pop(),
{
    lemma_byte_token(s, TokenKindView::Value);
}

proof fn lemma_value(s: Scan)
    requires
        loose(s),
    ensures
        parts(s, s.value_indicator(), s.pop().value_indicator()),
{
    reveal(parts);
    reveal(Scan::value_of_key);
    if s.keys.len() > 0 && s.keys.last().possible {
        let key = s.keys.last();
        assert(s.keys[s.keys.len() - 1] == key);
        lemma_insert(s, key.index, TokenKindView::Key, point(key.pos));
        let a = s.insert_at(key.index, TokenKindView::Key, point(key.pos));
        lemma_roll(a, key.column(), TokenKindView::BlockMappingStart, Some(key.index));
        let r = if s.in_block() {
            a.roll(key.column(), TokenKindView::BlockMappingStart, Some(key.index))
        } else {
            a
        };
        lemma_remove_key(r);
        lemma_value_token(Scan { allow: false, ..r.remove_key() });
    } else {
        lemma_roll(s, s.cur.column, TokenKindView::BlockMappingStart, None);
        let r = if s.in_block() {
            s.roll(s.cur.column, TokenKindView::BlockMappingStart, None)
        } else {
            s
        };
        lemma_remove_key(r);
        lemma_value_token(Scan { allow: s.in_block(), ..r.remove_key() });
    }
}

proof fn lemma_node(s: Scan, is_anchor: bool, style: ScalarStyle)
    requires
        loose(s),
    ensures
        parts(s, s.anchor(is_anchor), s.pop().anchor(is_anchor)),
        parts(s, s.tag(), s.pop().tag()),
        parts(s, s.block_scalar(style), s.pop().block_scalar(style)),
        parts(s, s.single_quoted(), s.pop().single_quoted()),
        parts(s, s.double_quoted(), s.pop().double_quoted()),
{
    reveal(parts);
    lemma_save_key(s);
    lemma_remove_key(s);
    let n = s.node_start();
    let c = n.step().cur;
    lemma_lexed(n, crate::scanner::props::anchor_or_alias(n.b, c, is_anchor, n.pos()));
    lemma_lexed(n, crate::scanner::props::tag(n.b, c, n.cur.offset, n.pos()));
    let r = Scan { allow: true, ..s.remove_key() };
    lemma_scalar(
        r,
        crate::scanner::block::block_scalar(r.b, r.step().cur, style, r.indent, r.pos()),
        style,
    );
    lemma_scalar(
        n,
        crate::scanner::quoted::single_quoted(n.b, c, seq![], n.pos()),
        ScalarStyle::SingleQuoted,
    );
    let from = if n.in_block() {
        Some(n.indent + 1)
    } else {
        None
    };
    lemma_scalar(
        n,
        crate::scanner::quoted::double_quoted(n.b, c, seq![], seq![], from, n.pos()),
        ScalarStyle::DoubleQuoted,
    );
}

/// A plain scalar behind the mark of a possible key.
#[verifier::opaque]
spec fn plain_from(n: Scan, p: PlainState) -> Step {
    if n.bad_plain_start() {
        Err(
            Fail {
                error: unexpected("scalar value"@, quoted(n.byte() as char), point(n.pos())),
                trivia: n.trivia,
            },
        )
    } else if p.content.len() == 0 {
        Err(
            Fail {
                error: unexpected(
                    "scalar value"@,
                    n.at(p.cur).found_here(),
                    p.cur.span_from(n.pos()),
                ),
                trivia: n.trivia,
            },
        )
    } else {
        Ok(
            Scan {
                allow: true,
                colon_adjacent: p.last_line == p.cur.line && p.last_line != n.cur.line
                    && p.cur.sees(n.b, COLON) && blank_at(n.b, p.cur.offset + 1),
                ..n.at(p.cur).token_from(
                    n.pos(),
                    TokenKindView::Scalar { value: p.content, style: ScalarStyle::Plain },
                )
            },
        )
    }
}

/// What a plain scalar is read to.
spec fn plain_state(n: Scan) -> PlainState {
    plain_scalar(n.b, n.cur, !n.in_block(), n.indent)
}

proof fn lemma_plain_from(s: Scan)
    ensures
        s.plain() == plain_from(s.node_start(), plain_state(s.node_start())),
{
    reveal(plain_from);
}

proof fn lemma_plain_pop(n: Scan, p: PlainState)
    requires
        loose(n),
    ensures
        parts(n, plain_from(n, p), plain_from(n.pop(), p)),
{
    reveal(plain_from);
    reveal(parts);
    lemma_token(
        n,
        p.cur,
        n.pos(),
        TokenKindView::Scalar { value: p.content, style: ScalarStyle::Plain },
    );
}

proof fn lemma_plain(s: Scan)
    requires
        loose(s),
    ensures
        parts(s, s.plain(), s.pop().plain()),
{
    lemma_save_key(s);
    let n = s.node_start();
    lemma_plain_from(s);
    lemma_plain_from(s.pop());
    let p = plain_state(n);
    assert(plain_state(n.pop()) == p);
    lemma_plain_pop(n, p);
    assert(parts(s, plain_from(n, p), plain_from(n.pop(), p))) by {
        reveal(parts);
    }
}

/// Which kind of token starts here.
spec fn choice(s: Scan) -> int {
    let x = s.byte();
    let next = s.cur.offset + 1;
    if s.cur.column == 0 && marker_at(s.b, s.cur.offset, DASH) {
        0
    } else if s.cur.column == 0 && marker_at(s.b, s.cur.offset, DOT) {
        1
    } else if x == LBRACKET {
        2
    } else if x == LBRACE {
        3
    } else if x == RBRACKET {
        4
    } else if x == RBRACE {
        5
    } else if x == COMMA {
        6
    } else if x == DASH && blank_at(s.b, next) && s.in_block() {
        7
    } else if x == QUESTION && (blank_at(s.b, next) || (!s.in_block() && blank_or_flow_at(
        s.b,
        next,
    ))) {
        8
    } else if x == COLON && (blank_at(s.b, next) || (!s.in_block() && (blank_or_flow_at(s.b, next)
        || (s.keys.len() > 0 && s.keys.last().possible)))) {
        9
    } else if x == STAR {
        10
    } else if x == AMP {
        11
    } else if x == BANG {
        12
    } else if x == PIPE && s.in_block() {
        13
    } else if x == GT && s.in_block() {
        14
    } else if x == SQUOTE {
        15
    } else if x == DQUOTE {
        16
    } else if x == PERCENT && s.cur.column == 0 {
        17
    } else {
        18
    }
}

/// What is scanned for that kind.
#[verifier::opaque]
spec fn chosen(s: Scan, c: int) -> Step {
    if c == 0 {
        s.document_start()
    } else if c == 1 {
        s.document_end()
    } else if c == 2 {
        s.flow_start(true)
    } else if c == 3 {
        s.flow_start(false)
    } else if c == 4 {
        s.flow_end(TokenKindView::FlowSequenceEnd)
    } else if c == 5 {
        s.flow_end(TokenKindView::FlowMappingEnd)
    } else if c == 6 {
        s.flow_entry()
    } else if c == 7 {
        s.block_entry()
    } else if c == 8 {
        s.key_indicator()
    } else if c == 9 {
        s.value_indicator()
    } else if c == 10 {
        s.anchor(false)
    } else if c == 11 {
        s.anchor(true)
    } else if c == 12 {
        s.tag()
    } else if c == 13 {
        s.block_scalar(ScalarStyle::Literal)
    } else if c == 14 {
        s.block_scalar(ScalarStyle::Folded)
    } else if c == 15 {
        s.single_quoted()
    } else if c == 16 {
        s.double_quoted()
    } else if c == 17 {
        s.directive()
    } else {
        s.plain()
    }
}

proof fn lemma_choice(s: Scan)
    ensures
        s.dispatch() == chosen(s, choice(s)),
{
    reveal(Scan::dispatch);
    reveal(chosen);
}

proof fn lemma_choice_pop(s: Scan)
    ensures
        choice(s.pop()) == choice(s),
{
}

proof fn lemma_chosen(s: Scan, c: int)
    requires
        loose(s),
    ensures
        parts(s, chosen(s, c), chosen(s.pop(), c)),
{
    reveal(chosen);
    if c == 0 || c == 1 || c == 17 {
        lemma_document(s);
    } else if 2 <= c <= 6 {
        lemma_flow(s, true, TokenKindView::FlowSequenceEnd);
        lemma_flow(s, false, TokenKindView::FlowMappingEnd);
    } else if c == 7 || c == 8 {
        lemma_block(s);
    } else if c == 9 {
        lemma_value(s);
    } else if 10 <= c <= 16 {
        lemma_node(s, true, ScalarStyle::Literal);
        lemma_node(s, false, ScalarStyle::Folded);
    } else {
        lemma_plain(s);
    }
}

proof fn lemma_dispatch(s: Scan)
    requires
        loose(s),
    ensures
        parts(s, s.dispatch(), s.pop().dispatch()),
{
    lemma_choice(s);
    lemma_choice(s.pop());
    lemma_choice_pop(s);
    lemma_chosen(s, choice(s));
}

/// Skipping what stands between tokens leaves the tokens alone.
proof fn lemma_whitespace(s: Scan, line_start: bool, had_tab: bool)
    ensures
        s.pop().skip_whitespace(line_start, had_tab) == match s.skip_whitespace(
            line_start,
            had_tab,
        ) {
            Ok((t, f)) => Ok::<(Scan, bool), Fail>((t.pop(), f)),
            Err(e) => Err(e),
        },
    decreases s.b.len() - s.cur.offset,
{
    if s.cur.sees(s.b, SPACE) {
        lemma_whitespace(s.step(), line_start, had_tab);
        assert(s.pop().step() == s.step().pop());
    } else if s.cur.sees(s.b, TAB) {
        let indentation = line_start && s.cur.column <= s.indent;
        if !(indentation && s.in_block()) {
            let t = Scan {
                tab_line: if s.after_indicator && s.in_block() {
                    s.cur.line
                } else {
                    s.tab_line
                },
                ..s.step()
            };
            lemma_whitespace(t, line_start, had_tab || indentation);
        }
    }
}

proof fn lemma_in_line(s: Scan, line_start: bool)
    ensures
        s.pop().skip_in_line(line_start) == match s.skip_in_line(line_start) {
            Ok(t) => Ok::<Scan, Fail>(t.pop()),
            Err(e) => Err(e),
        },
{
    reveal(Scan::skip_in_line);
    lemma_whitespace(s, line_start, false);
}

proof fn lemma_gap(s: Scan, line_start: bool)
    ensures
        s.pop().skip_gap(line_start) == match s.skip_gap(line_start) {
            Ok(t) => Ok::<Scan, Fail>(t.pop()),
            Err(e) => Err(e),
        },
    decreases s.b.len() - s.cur.offset,
{
    lemma_in_line(s, line_start);
    lemma_skip_in_line(s, line_start);
    if let Ok(t) = s.skip_in_line(line_start) {
        if t.cur.sees_break(t.b) {
            lemma_gap(t.skip_break(), true);
            assert(t.pop().skip_break() == t.skip_break().pop());
        }
    }
}

proof fn lemma_stale(s: Scan)
    requires
        loose(s),
    ensures
        parted(s, s.stale_keys()),
        s.pop().stale_keys() == s.stale_keys().pop(),
{
    assert(s.pop().stale_keys().keys =~= s.stale_keys().keys);
}

proof fn lemma_stream_end(s: Scan)
    requires
        loose(s),
    ensures
        parted(s, s.stream_end()),
        s.pop().stream_end() == s.stream_end().pop(),
{
    lemma_unroll(s, -1);
    let u = s.unroll(-1);
    lemma_remove_key(u);
    let r = u.remove_key();
    lemma_enqueue(Scan { allow: false, ended: true, ..r }, TokenKindView::StreamEnd, point(r.pos()));
}

/// Scanning a piece of input and handing out the first token can be done in either order.
proof fn lemma_fetch_pop(s: Scan)
    requires
        loose(s),
        s.started,
    ensures
        s.fetch() matches Ok((u, more)) ==> parted(s, u) && s.pop().fetch() == Ok::<
            (Scan, bool),
            Fail,
        >((u.pop(), more)),
{
    reveal(Scan::fetch);
    reveal(Scan::fetch_here);
    lemma_gap(s, false);
    if let Ok(g) = s.skip_gap(false) {
        lemma_gap_tokens(s, false);
        assert(loose(g));
        let k = g.stale_keys();
        lemma_stale(g);
        lemma_unroll(k, g.cur.column);
        let u = k.unroll(g.cur.column);
        lemma_unroll_frame(k, g.cur.column);
        if u.at_end() {
            if !u.ended {
                lemma_stream_end(u);
            }
        } else if let Ok(p) = u.check_property() {
            assert(u.pop().check_property() == Ok::<Scan, Fail>(p.pop()));
            lemma_dispatch(p);
            reveal(parts);
        }
    }
}

proof fn lemma_gap_tokens(s: Scan, line_start: bool)
    ensures
        s.skip_gap(line_start) matches Ok(t) ==> t.tokens == s.tokens && t.keys == s.keys && t.flows
            == s.flows && t.produced == s.produced && t.started == s.started,
    decreases s.b.len() - s.cur.offset,
{
    lemma_skip_in_line(s, line_start);
    if let Ok(t) = s.skip_in_line(line_start) {
        if t.cur.sees_break(t.b) {
            lemma_gap_tokens(t.skip_break(), true);
        }
    }
}

/// Scanning several pieces and handing out the first token can be done in either order.
proof fn lemma_fetched_pop(s: Scan, k: nat, t: Scan)
    requires
        loose(s),
        s.started,
        fetched(s, k) == Some(t),
    ensures
        fetched(s.pop(), k) == Some(t.pop()),
        t.tokens.len() > 0,
        t.tokens[0] == s.tokens[0],
    decreases k,
{
    if k > 0 {
        lemma_fetch_pop(s);
        if let Ok((u, true)) = s.fetch() {
            lemma_started(s);
            lemma_fetched_pop(u, (k - 1) as nat, t);
        }
    }
}

proof fn lemma_started(s: Scan)
    requires
        s.started,
    ensures
        s.fetch() matches Ok((u, _)) ==> u.started,
{
    reveal(Scan::fetch);
    reveal(Scan::fetch_here);
    lemma_gap_tokens(s, false);
    if let Ok(g) = s.skip_gap(false) {
        let k = g.stale_keys();
        lemma_unroll_frame(k, g.cur.column);
        let u = k.unroll(g.cur.column);
        lemma_unroll_frame(u, -1);
        if let Ok(p) = u.check_property() {
            crate::scanner::model::lemma_dispatch(p);
        }
    }
}

/// Everything is scanned, and no key is possible any more.
pub open spec fn finished(t: Scan) -> bool {
    t.ended && t.keys.len() == 1 && !t.keys[0].possible
}

/// What stays so from piece to piece.
spec fn running(s: Scan) -> bool {
    &&& sane(s)
    &&& s.started
    &&& s.b.len() <= MAX_INPUT
    &&& !s.errored
    &&& !s.keep_trivia
    &&& keyed(s)
    &&& s.keys.len() == s.flows.len() + 1
}

/// The tokens that are handed out are those that are there once everything is scanned.
proof fn lemma_handed_out(s: Scan, k: nat, t: Scan)
    requires
        running(s),
        fetched(s, k) == Some(t),
        finished(t),
    ensures
        tape(s) == t.tokens,
    decreases k, t.tokens.len(),
{
    reveal(Scan::next);
    reveal(Scan::next_token);
    if s.tokens.len() > 0 && !s.pending() {
        assert(loose(s));
        lemma_fetched_pop(s, k, t);
        assert(running(s.pop()));
        lemma_handed_out(s.pop(), k, t.pop());
        assert(s.front() == Front::Ready(s));
        assert(tape(s) == seq![s.tokens[0]] + tape(s.pop()));
        assert(tape(s) =~= t.tokens);
    } else if k == 0 {
        assert(!s.pending());
        assert(s.front() == Front::Exhausted(s));
        assert(tape(s) =~= t.tokens);
    } else {
        lemma_fetch_cover(s, 0);
        let u = s.fetch()->Ok_0.0;
        lemma_keyed(s);
        lemma_handed_out(u, (k - 1) as nat, t);
        assert(s.front() == u.front());
        assert(s.next() == u.next());
        lemma_weights(u);
        assert(tape(s) =~= tape(u));
    }
}

/// Each token leaves less to hand out.
proof fn lemma_weights(u: Scan)
    requires
        running(u),
    ensures
        u.next() matches Next::Token(_, rest) ==> 0 <= rest.weight() < u.weight(),
{
    reveal(Scan::next);
    reveal(Scan::next_token);
    crate::scanner::stream::lemma_front_cover(u, 0);
}

/// A step keeps every possible key ahead.
spec fn ahead(s: Scan, step: Step) -> bool {
    step matches Ok(u) ==> keyed(u) && u.keys.len() == u.flows.len() + 1 && u.produced
        == s.produced
}

proof fn lemma_unroll_keyed(s: Scan)
    requires
        keyed(s),
        s.keys.len() == s.flows.len() + 1,
    ensures
        ahead(s, s.document_start()),
        ahead(s, s.document_end()),
        ahead(s, s.directive()),
{
    lemma_unroll_frame(s, -1);
}

proof fn lemma_flow_keyed(s: Scan, is_sequence: bool, kind: TokenKindView)
    requires
        keyed(s),
        s.keys.len() == s.flows.len() + 1,
    ensures
        ahead(s, s.flow_start(is_sequence)),
        ahead(s, s.flow_end(kind)),
        ahead(s, s.flow_entry()),
{
}

proof fn lemma_block_keyed(s: Scan)
    requires
        keyed(s),
        s.keys.len() == s.flows.len() + 1,
    ensures
        ahead(s, s.block_entry()),
        ahead(s, s.key_indicator()),
        ahead(s, s.value_indicator()),
{
    reveal(Scan::value_of_key);
}

proof fn lemma_node_keyed(s: Scan, is_anchor: bool, style: ScalarStyle)
    requires
        keyed(s),
        s.keys.len() == s.flows.len() + 1,
    ensures
        ahead(s, s.anchor(is_anchor)),
        ahead(s, s.tag()),
        ahead(s, s.block_scalar(style)),
        ahead(s, s.single_quoted()),
        ahead(s, s.double_quoted()),
        ahead(s, s.plain()),
{
}

proof fn lemma_chosen_keyed(s: Scan, c: int)
    requires
        keyed(s),
        s.keys.len() == s.flows.len() + 1,
    ensures
        ahead(s, chosen(s, c)),
{
    reveal(chosen);
    if c == 0 || c == 1 || c == 17 {
        lemma_unroll_keyed(s);
    } else if 2 <= c <= 6 {
        lemma_flow_keyed(s, true, TokenKindView::FlowSequenceEnd);
        lemma_flow_keyed(s, false, TokenKindView::FlowMappingEnd);
    } else if 7 <= c <= 9 {
        lemma_block_keyed(s);
    } else {
        lemma_node_keyed(s, true, ScalarStyle::Literal);
        lemma_node_keyed(s, false, ScalarStyle::Folded);
    }
}

/// Scanning a piece of input leaves every possible key ahead.
proof fn lemma_keyed(s: Scan)
    requires
        running(s),
    ensures
        s.fetch() matches Ok((u, _)) ==> keyed(u) && u.keys.len() == u.flows.len() + 1,
{
    reveal(Scan::fetch);
    reveal(Scan::fetch_here);
    lemma_gap_tokens(s, false);
    if let Ok(g) = s.skip_gap(false) {
        let k = g.stale_keys();
        lemma_unroll_frame(k, g.cur.column);
        let u = k.unroll(g.cur.column);
        lemma_unroll_frame(u, -1);
        if let Ok(p) = u.check_property() {
            lemma_choice(p);
            lemma_chosen_keyed(p, choice(p));
        }
    }
}

/// The tokens of an input are those that are there once everything is scanned.
pub proof fn lemma_tape(b: Seq<u8>, limits: crate::limits::ResourceLimits, k: nat, t: Scan)
    requires
        b.len() <= MAX_INPUT,
        fetched(Scan::fresh(b, limits, false), k) == Some(t),
        finished(t),
    ensures
        tape(Scan::fresh(b, limits, false)) == t.tokens,
{
    reveal(Scan::next);
    reveal(Scan::next_token);
    let s = Scan::fresh(b, limits, false);
    let u = s.stream_start();
    assert(s.fetch() == Ok::<(Scan, bool), Fail>((u, true))) by {
        reveal(Scan::fetch);
    }
    lemma_fetch_cover(s, 0);
    assert(running(u));
    lemma_handed_out(u, (k - 1) as nat, t);
    assert(s.front() == u.front());
    assert(s.next() == u.next());
    lemma_weights(u);
    assert(tape(s) =~= tape(u));
}

} // verus!
