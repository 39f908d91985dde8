//! Keeping trivia changes no token: the tokens of an input are the same with and
//! without it.
use crate::scanner::advance::{lemma_unroll_frame, sane};
use crate::scanner::chars::{SPACE, TAB};
use crate::scanner::cursor::MAX_INPUT;
use crate::scanner::model::{
    lemma_skip_in_line, lemma_skip_whitespace, Fail, Front, Next, Scan, Step,
};
use crate::scanner::stream::tape;
use crate::scanner::token::{TokenKindView, TokenView};
use crate::types::{point, ScalarStyle};
use vstd::prelude::*;

verus! {

/// The state without its trivia, and without the wish to keep any.
pub open spec fn bare(s: Scan) -> Scan {
    Scan { keep_trivia: false, trivia: seq![], ..s }
}

/// A step gives the same with and without trivia: the same state but for the trivia,
/// or the same error.
#[verifier::opaque]
spec fn same_step(with: Step, without: Step) -> bool {
    match with {
        Ok(t) => without == Ok::<Scan, Fail>(bare(t)),
        Err(f) => without matches Err(g) && g.error == f.error,
    }
}

proof fn lemma_bare_whitespace(s: Scan, line_start: bool, had_tab: bool)
    ensures
        match s.skip_whitespace(line_start, had_tab) {
            Ok((t, tab)) => bare(s).skip_whitespace(line_start, had_tab) == Ok::<
                (Scan, bool),
                Fail,
            >((bare(t), tab)),
            Err(f) => bare(s).skip_whitespace(line_start, had_tab) matches Err(g) && g.error
                == f.error,
        },
    decreases s.b.len() - s.cur.offset,
{
    if s.cur.sees(s.b, SPACE) {
        lemma_bare_whitespace(s.step(), line_start, had_tab);
        assert(bare(s.step()) =~= bare(s).step());
    } else if s.cur.sees(s.b, TAB) {
        let indentation = line_start && s.cur.column <= s.indent;
        if !(indentation && s.in_block()) {
            let line = if s.after_indicator && s.in_block() {
                s.cur.line
            } else {
                s.tab_line
            };
            let t = Scan { tab_line: line, ..s.step() };
            lemma_bare_whitespace(t, line_start, had_tab || indentation);
            assert(bare(t) =~= Scan { tab_line: line, ..bare(s).step() });
        }
    }
}

proof fn lemma_bare_in_line(s: Scan, line_start: bool)
    ensures
        same_step(s.skip_in_line(line_start), bare(s).skip_in_line(line_start)),
{
    reveal(same_step);
    reveal(Scan::skip_in_line);
    lemma_bare_whitespace(s, line_start, false);
    if let Ok((s1, _)) = s.skip_whitespace(line_start, false) {
        let s2 = s1.keep_whitespace(s.cur);
        assert(bare(s2) =~= bare(s1).keep_whitespace(bare(s).cur));
        let s3 = Scan { after_indicator: false, ..s2 };
        assert(bare(s3) =~= Scan { after_indicator: false, ..bare(s2) });
        assert(bare(s3.skip_comment()) =~= bare(s3).skip_comment());
    }
}

proof fn lemma_bare_gap(s: Scan, line_start: bool)
    ensures
        same_step(s.skip_gap(line_start), bare(s).skip_gap(line_start)),
    decreases s.b.len() - s.cur.offset,
{
    reveal(same_step);
    lemma_bare_in_line(s, line_start);
    lemma_skip_in_line(s, line_start);
    if let Ok(t) = s.skip_in_line(line_start) {
        if t.cur.sees_break(t.b) {
            assert(bare(t.skip_break()) =~= bare(t).skip_break());
            lemma_bare_gap(t.skip_break(), true);
        }
    }
}

proof fn lemma_bare_unroll(s: Scan, column: int)
    ensures
        bare(s.unroll(column)) == bare(s).unroll(column),
    decreases s.indents.len(),
{
    if !(!s.in_block() || s.indent <= column || s.indents.len() == 0) {
        let t = Scan {
            indent: s.indents.last(),
            indents: s.indents.drop_last(),
            ..s.enqueue(TokenKindView::BlockEnd, point(s.pos()))
        };
        lemma_bare_unroll(t, column);
        let u = Scan {
            indent: s.indents.last(),
            indents: s.indents.drop_last(),
            ..bare(s).enqueue(TokenKindView::BlockEnd, point(s.pos()))
        };
        assert(bare(t) =~= u);
    }
}

proof fn lemma_bare_document(s: Scan)
    ensures
        same_step(s.document_start(), bare(s).document_start()),
        same_step(s.document_end(), bare(s).document_end()),
        same_step(s.directive(), bare(s).directive()),
{
    reveal(same_step);
    lemma_bare_unroll(s, -1);
    let t = Scan { allow: false, ..s.unroll(-1).remove_key() };
    let u = Scan { allow: false, ..bare(s).unroll(-1).remove_key() };
    assert(bare(t) =~= u);
    if let Ok(x) = s.document_start() {
        assert(bare(x) =~= bare(s).document_start()->Ok_0);
    }
    if let Ok(x) = s.document_end() {
        assert(bare(x) =~= bare(s).document_end()->Ok_0);
    }
    if let Ok(x) = s.directive() {
        assert(bare(x) =~= bare(s).directive()->Ok_0);
    }
}

proof fn lemma_bare_parts(s: Scan, allow: bool)
    ensures
        bare(s.remove_key()) == bare(s).remove_key(),
        bare(Scan { allow, ..s }) == (Scan { allow, ..bare(s) }),
        bare(s.value_token()) == bare(s).value_token(),
{
    assert(bare(s.remove_key()) =~= bare(s).remove_key());
    assert(bare(Scan { allow, ..s }) =~= Scan { allow, ..bare(s) });
    assert(bare(s.value_token()) =~= bare(s).value_token());
}

proof fn lemma_bare_byte_token(s: Scan, kind: TokenKindView, after_indicator: bool)
    ensures
        bare(Scan { after_indicator, ..s.byte_token(kind) }) == (Scan {
            after_indicator,
            ..bare(s).byte_token(kind)
        }),
{
    assert(bare(Scan { after_indicator, ..s.byte_token(kind) }) =~= Scan {
        after_indicator,
        ..bare(s).byte_token(kind)
    });
}

proof fn lemma_bare_insert(s: Scan, index: int, kind: TokenKindView, span: crate::types::Span)
    ensures
        bare(s.insert_at(index, kind, span)) == bare(s).insert_at(index, kind, span),
{
    assert(bare(s.insert_at(index, kind, span)) =~= bare(s).insert_at(index, kind, span));
}

proof fn lemma_bare_roll(s: Scan, column: int, kind: TokenKindView, index: Option<int>)
    ensures
        bare(s.roll(column, kind, index)) == bare(s).roll(column, kind, index),
{
    if s.indent < column {
        let t = Scan { indents: s.indents.push(s.indent), indent: column, ..s };
        assert(bare(t) =~= Scan { indents: s.indents.push(s.indent), indent: column, ..bare(s) });
        match index {
            Some(i) => lemma_bare_insert(t, i, kind, point(s.pos())),
            None => {
                assert(bare(t.enqueue(kind, point(s.pos()))) =~= bare(t).enqueue(
                    kind,
                    point(s.pos()),
                ));
            },
        }
    }
}

/// The state in which a block collection of the given kind is open here.
spec fn rolled(s: Scan, kind: TokenKindView) -> Scan {
    if s.in_block() {
        s.roll(s.cur.column, kind, None)
    } else {
        s
    }
}

proof fn lemma_bare_rolled(s: Scan, kind: TokenKindView)
    ensures
        bare(rolled(s, kind)) == rolled(bare(s), kind),
{
    lemma_bare_roll(s, s.cur.column, kind, None);
}

proof fn lemma_bare_entry(s: Scan)
    ensures
        same_step(s.block_entry(), bare(s).block_entry()),
        same_step(s.key_indicator(), bare(s).key_indicator()),
{
    reveal(same_step);
    let e = rolled(s, TokenKindView::BlockSequenceStart);
    lemma_bare_rolled(s, TokenKindView::BlockSequenceStart);
    lemma_bare_parts(e, true);
    lemma_bare_parts(e.remove_key(), true);
    lemma_bare_byte_token(
        Scan { allow: true, ..e.remove_key() },
        TokenKindView::BlockEntry,
        s.in_block(),
    );
    let k = rolled(s, TokenKindView::BlockMappingStart);
    lemma_bare_rolled(s, TokenKindView::BlockMappingStart);
    lemma_bare_parts(k, true);
    lemma_bare_parts(k.remove_key(), s.in_block());
    lemma_bare_byte_token(
        Scan { allow: s.in_block(), ..k.remove_key() },
        TokenKindView::Key,
        s.in_block(),
    );
}

proof fn lemma_bare_value_of_key(s: Scan, key: crate::scanner::model::KeyView)
    ensures
        bare(s.value_of_key(key)) == bare(s).value_of_key(key),
{
    reveal(Scan::value_of_key);
    lemma_bare_insert(s, key.index, TokenKindView::Key, point(key.pos));
    let t = s.insert_at(key.index, TokenKindView::Key, point(key.pos));
    lemma_bare_roll(t, key.column(), TokenKindView::BlockMappingStart, Some(key.index));
    let u = if s.in_block() {
        t.roll(key.column(), TokenKindView::BlockMappingStart, Some(key.index))
    } else {
        t
    };
    lemma_bare_parts(u, false);
    lemma_bare_parts(u.remove_key(), false);
    lemma_bare_parts(Scan { allow: false, ..u.remove_key() }, false);
}

proof fn lemma_bare_value(s: Scan)
    ensures
        same_step(s.value_indicator(), bare(s).value_indicator()),
{
    reveal(same_step);
    lemma_bare_value_of_key(s, s.keys.last());
    let k = rolled(s, TokenKindView::BlockMappingStart);
    lemma_bare_rolled(s, TokenKindView::BlockMappingStart);
    lemma_bare_parts(k, true);
    lemma_bare_parts(k.remove_key(), s.in_block());
    lemma_bare_parts(Scan { allow: s.in_block(), ..k.remove_key() }, true);
}

proof fn lemma_bare_flow(s: Scan, is_sequence: bool, kind: TokenKindView)
    ensures
        same_step(s.flow_start(is_sequence), bare(s).flow_start(is_sequence)),
        same_step(s.flow_end(kind), bare(s).flow_end(kind)),
        same_step(s.flow_entry(), bare(s).flow_entry()),
{
    reveal(same_step);
    assert(bare(s.flow_start(is_sequence)->Ok_0) =~= bare(s).flow_start(is_sequence)->Ok_0);
    assert(bare(s.flow_end(kind)->Ok_0) =~= bare(s).flow_end(kind)->Ok_0);
    assert(bare(s.flow_entry()->Ok_0) =~= bare(s).flow_entry()->Ok_0);
}

/// Properties and scalars are added to the state in the same way.
proof fn lemma_bare_lexed(
    s: Scan,
    l: crate::scanner::props::Lexed,
    q: crate::scanner::quoted::Quoted,
    style: ScalarStyle,
)
    ensures
        same_step(s.lexed(s.pos(), l), bare(s).lexed(s.pos(), l)),
        same_step(s.scalar(s.pos(), q, style), bare(s).scalar(s.pos(), q, style)),
{
    reveal(same_step);
    if let Ok(x) = s.lexed(s.pos(), l) {
        assert(bare(x) =~= bare(s).lexed(s.pos(), l)->Ok_0);
    }
    if let Ok(x) = s.scalar(s.pos(), q, style) {
        assert(bare(x) =~= bare(s).scalar(s.pos(), q, style)->Ok_0);
    }
}

proof fn lemma_bare_node(s: Scan, is_anchor: bool, style: ScalarStyle)
    ensures
        same_step(s.anchor(is_anchor), bare(s).anchor(is_anchor)),
        same_step(s.tag(), bare(s).tag()),
        same_step(s.block_scalar(style), bare(s).block_scalar(style)),
        same_step(s.single_quoted(), bare(s).single_quoted()),
        same_step(s.double_quoted(), bare(s).double_quoted()),
{
    let n = s.node_start();
    assert(bare(n) =~= bare(s).node_start());
    let k = Scan { allow: true, ..s.remove_key() };
    assert(bare(k) =~= Scan { allow: true, ..bare(s).remove_key() });
    let c = s.step().cur;
    let indent_from = if s.in_block() {
        Some(s.indent + 1)
    } else {
        None
    };
    let single = crate::scanner::quoted::single_quoted(s.b, c, seq![], s.pos());
    let double = crate::scanner::quoted::double_quoted(
        s.b,
        c,
        seq![],
        seq![],
        indent_from,
        s.pos(),
    );
    let block = crate::scanner::block::block_scalar(s.b, c, style, s.indent, s.pos());
    let anchor = crate::scanner::props::anchor_or_alias(s.b, c, is_anchor, s.pos());
    let tag = crate::scanner::props::tag(s.b, c, s.cur.offset, s.pos());
    lemma_bare_lexed(n, anchor, single, ScalarStyle::SingleQuoted);
    lemma_bare_lexed(n, tag, double, ScalarStyle::DoubleQuoted);
    lemma_bare_lexed(k, tag, block, style);
}

proof fn lemma_bare_plain(s: Scan)
    ensures
        same_step(s.plain(), bare(s).plain()),
{
    reveal(same_step);
    assert(bare(s.node_start()) =~= bare(s).node_start());
    if let Ok(x) = s.plain() {
        assert(bare(x) =~= bare(s).plain()->Ok_0);
    }
}

#[verifier::rlimit(60)]
proof fn lemma_bare_dispatch(s: Scan)
    ensures
        same_step(s.dispatch(), bare(s).dispatch()),
{
    reveal(Scan::dispatch);
    lemma_bare_document(s);
    lemma_bare_flow(s, true, TokenKindView::FlowSequenceEnd);
    lemma_bare_flow(s, false, TokenKindView::FlowMappingEnd);
    lemma_bare_entry(s);
    lemma_bare_value(s);
    lemma_bare_node(s, true, ScalarStyle::Literal);
    lemma_bare_node(s, false, ScalarStyle::Folded);
    lemma_bare_plain(s);
}

proof fn lemma_bare_fetch(s: Scan)
    ensures
        match s.fetch() {
            Ok((t, more)) => bare(s).fetch() == Ok::<(Scan, bool), Fail>((bare(t), more)),
            Err(f) => bare(s).fetch() matches Err(g) && g.error == f.error,
        },
{
    reveal(same_step);
    reveal(Scan::fetch);
    reveal(Scan::fetch_here);
    if !s.started {
        assert(bare(s.stream_start()) =~= bare(s).stream_start());
    } else {
        lemma_bare_gap(s, false);
        if let Ok(g) = s.skip_gap(false) {
            assert(bare(g.stale_keys()) =~= bare(g).stale_keys());
            lemma_bare_unroll(g.stale_keys(), g.cur.column);
            let u = g.stale_keys().unroll(g.cur.column);
            lemma_unroll_frame(g.stale_keys(), g.cur.column);
            lemma_unroll_frame(bare(g).stale_keys(), g.cur.column);
            if u.at_end() {
                lemma_bare_unroll(u, -1);
                assert(bare(u.stream_end()) =~= bare(u).stream_end());
            } else if let Ok(p) = u.check_property() {
                assert(bare(p) =~= bare(u).check_property()->Ok_0);
                lemma_bare_dispatch(p);
            }
        }
    }
}

proof fn lemma_bare_pending(s: Scan)
    ensures
        bare(s).pending() == s.pending(),
{
    let t = bare(s);
    assert(t.keys == s.keys && t.produced == s.produced);
    if s.pending() {
        let i = choose|i: int|
            0 <= i < s.keys.len() && (#[trigger] s.keys[i]).possible && s.keys[i].index
                == s.produced;
        assert(t.keys[i].possible);
    }
    if t.pending() {
        let i = choose|i: int|
            0 <= i < t.keys.len() && (#[trigger] t.keys[i]).possible && t.keys[i].index
                == t.produced;
        assert(s.keys[i].possible);
    }
}

proof fn lemma_bare_front(s: Scan)
    ensures
        match s.front() {
            Front::Ready(t) => bare(s).front() == Front::Ready(bare(t)),
            Front::Exhausted(t) => bare(s).front() == Front::Exhausted(bare(t)),
            Front::Failed(f) => bare(s).front() matches Front::Failed(g) && g.error == f.error,
        },
    decreases s.todo(),
{
    lemma_bare_pending(s);
    if !(s.tokens.len() > 0 && !s.pending()) && !(s.ended && s.tokens.len() == 0) {
        lemma_bare_fetch(s);
        if let Ok((t, true)) = s.fetch() {
            assert(bare(t).todo() == t.todo());
            if 0 <= t.todo() < s.todo() {
                lemma_bare_front(t);
            }
        }
    }
}

// ─── The queue holds no trivia ──────────────────────────────────────

/// None of the tokens is trivia.
pub open spec fn solid(s: Seq<TokenView>) -> bool {
    forall|i: int| 0 <= i < s.len() ==> !(#[trigger] s[i]).kind.is_trivia()
}

/// All of the tokens are trivia.
pub open spec fn loose(s: Seq<TokenView>) -> bool {
    forall|i: int| 0 <= i < s.len() ==> (#[trigger] s[i]).kind.is_trivia()
}

/// A step puts no trivia into the queue.
spec fn stays_solid(s: Scan, step: Step) -> bool {
    step matches Ok(t) ==> solid(t.tokens)
}

proof fn lemma_solid_unroll(s: Scan, column: int)
    requires
        solid(s.tokens),
    ensures
        solid(s.unroll(column).tokens),
    decreases s.indents.len(),
{
    if !(!s.in_block() || s.indent <= column || s.indents.len() == 0) {
        let t = Scan {
            indent: s.indents.last(),
            indents: s.indents.drop_last(),
            ..s.enqueue(TokenKindView::BlockEnd, point(s.pos()))
        };
        lemma_solid_unroll(t, column);
    }
}

proof fn lemma_solid_document(s: Scan)
    requires
        solid(s.tokens),
    ensures
        stays_solid(s, s.document_start()),
        stays_solid(s, s.document_end()),
        stays_solid(s, s.directive()),
{
    lemma_solid_unroll(s, -1);
}

proof fn lemma_solid_entry(s: Scan)
    requires
        solid(s.tokens),
    ensures
        stays_solid(s, s.block_entry()),
        stays_solid(s, s.key_indicator()),
{
}

proof fn lemma_solid_value(s: Scan)
    requires
        solid(s.tokens),
    ensures
        stays_solid(s, s.value_indicator()),
{
    reveal(Scan::value_of_key);
}

proof fn lemma_solid_flow(s: Scan, is_sequence: bool, kind: TokenKindView)
    requires
        solid(s.tokens),
        !kind.is_trivia(),
    ensures
        stays_solid(s, s.flow_start(is_sequence)),
        stays_solid(s, s.flow_end(kind)),
        stays_solid(s, s.flow_entry()),
{
}

proof fn lemma_solid_node(s: Scan, is_anchor: bool, style: ScalarStyle)
    requires
        solid(s.tokens),
    ensures
        stays_solid(s, s.anchor(is_anchor)),
        stays_solid(s, s.tag()),
        stays_solid(s, s.block_scalar(style)),
        stays_solid(s, s.single_quoted()),
        stays_solid(s, s.double_quoted()),
        stays_solid(s, s.plain()),
{
}

#[verifier::rlimit(60)]
proof fn lemma_solid_dispatch(s: Scan)
    requires
        solid(s.tokens),
    ensures
        stays_solid(s, s.dispatch()),
{
    reveal(Scan::dispatch);
    lemma_solid_document(s);
    lemma_solid_flow(s, true, TokenKindView::FlowSequenceEnd);
    lemma_solid_flow(s, false, TokenKindView::FlowMappingEnd);
    lemma_solid_entry(s);
    lemma_solid_value(s);
    lemma_solid_node(s, true, ScalarStyle::Literal);
    lemma_solid_node(s, false, ScalarStyle::Folded);
}

proof fn lemma_loose_gap(s: Scan, line_start: bool)
    requires
        loose(s.trivia),
    ensures
        s.skip_gap(line_start) matches Ok(t) ==> loose(t.trivia) && t.tokens == s.tokens
            && !t.after_indicator,
    decreases s.b.len() - s.cur.offset,
{
    lemma_skip_in_line(s, line_start);
    if let Ok(t) = s.skip_in_line(line_start) {
        assert(loose(t.trivia)) by {
            reveal(Scan::skip_in_line);
            lemma_skip_whitespace(s, line_start, false);
        }
        if t.cur.sees_break(t.b) {
            lemma_loose_gap(t.skip_break(), true);
        }
    }
}

proof fn lemma_kinds_fetch(s: Scan)
    requires
        solid(s.tokens),
        loose(s.trivia),
    ensures
        s.fetch() matches Ok((t, _)) ==> solid(t.tokens) && loose(t.trivia),
{
    reveal(Scan::fetch);
    reveal(Scan::fetch_here);
    if s.started {
        lemma_loose_gap(s, false);
        if let Ok(g) = s.skip_gap(false) {
            let k = g.stale_keys();
            lemma_solid_unroll(k, g.cur.column);
            lemma_unroll_frame(k, g.cur.column);
            let u = k.unroll(g.cur.column);
            if u.at_end() {
                lemma_solid_unroll(u, -1);
                lemma_unroll_frame(u, -1);
            } else if let Ok(p) = u.check_property() {
                lemma_solid_dispatch(p);
                crate::scanner::model::lemma_dispatch(p);
            }
        }
    }
}

proof fn lemma_kinds_front(s: Scan)
    requires
        solid(s.tokens),
        loose(s.trivia),
    ensures
        match s.front() {
            Front::Ready(t) => solid(t.tokens) && loose(t.trivia),
            Front::Exhausted(t) => solid(t.tokens) && loose(t.trivia),
            Front::Failed(_) => true,
        },
    decreases s.todo(),
{
    lemma_kinds_fetch(s);
    if !(s.tokens.len() > 0 && !s.pending()) && !(s.ended && s.tokens.len() == 0) {
        if let Ok((t, true)) = s.fetch() {
            if 0 <= t.todo() < s.todo() {
                lemma_kinds_front(t);
            }
        }
    }
}

// ─── Scanning ahead twice ───────────────────────────────────────────

proof fn lemma_unroll_twice(s: Scan, column: int)
    ensures
        s.unroll(column).unroll(column) == s.unroll(column),
    decreases s.indents.len(),
{
    if !(!s.in_block() || s.indent <= column || s.indents.len() == 0) {
        let t = Scan {
            indent: s.indents.last(),
            indents: s.indents.drop_last(),
            ..s.enqueue(TokenKindView::BlockEnd, point(s.pos()))
        };
        lemma_unroll_twice(t, column);
    }
}

/// At the end of the input there is nothing more to scan.
proof fn lemma_fetch_again(s: Scan)
    requires
        sane(s),
        s.b.len() <= MAX_INPUT,
        s.started,
        loose(s.trivia),
    ensures
        s.fetch() matches Ok((t, false)) ==> t.fetch() == Ok::<(Scan, bool), Fail>((t, false)),
{
    if let Ok((t, false)) = s.fetch() {
        assert(t.fetch() == Ok::<(Scan, bool), Fail>((t, false))) by {
            reveal(Scan::fetch);
            reveal(Scan::fetch_here);
            lemma_loose_gap(s, false);
            crate::scanner::stream::lemma_gap_cover(s, false, 0);
            let g = s.skip_gap(false)->Ok_0;
            let k = g.stale_keys();
            lemma_unroll_frame(k, g.cur.column);
            lemma_unroll_twice(k, g.cur.column);
            assert(t == k.unroll(g.cur.column));
            assert(t.at_end());
            reveal(Scan::skip_in_line);
            assert(t.skip_whitespace(false, false) == Ok::<(Scan, bool), Fail>((t, false)));
            assert(t.keep_whitespace(t.cur) == t);
            assert(Scan { after_indicator: false, ..t } =~= t);
            assert(t.skip_comment() == t);
            assert(t.skip_in_line(false) == Ok::<Scan, Fail>(t));
            assert(t.skip_gap(false) == Ok::<Scan, Fail>(t));
            assert(t.stale_keys() =~= t);
            assert(t.unroll(t.cur.column) == t);
            assert(!t.too_long() && t.ended && t.started);
            assert(t.fetch_here() == Ok::<(Scan, bool), Fail>((t, false)));
        }
    }
}

/// Once the first token can be handed out, scanning ahead changes nothing.
proof fn lemma_front_again(s: Scan)
    requires
        sane(s),
        s.b.len() <= MAX_INPUT,
        loose(s.trivia),
        solid(s.tokens),
    ensures
        s.front() matches Front::Ready(t) ==> t.front() == Front::Ready(t),
    decreases s.todo(),
{
    if !(s.tokens.len() > 0 && !s.pending()) && !(s.ended && s.tokens.len() == 0) {
        crate::scanner::stream::lemma_fetch_cover(s, 0);
        lemma_kinds_fetch(s);
        match s.fetch() {
            Ok((t, true)) => {
                lemma_front_again(t);
            },
            Ok((t, false)) => {
                if !s.started {
                    reveal(Scan::fetch);
                }
                lemma_fetch_again(s);
            },
            Err(_) => {},
        }
    }
}

// ─── The law ────────────────────────────────────────────────────────

/// The tokens of a stream that are no trivia.
pub open spec fn significant(s: Seq<TokenView>) -> Seq<TokenView>
    decreases s.len(),
{
    if s.len() == 0 {
        seq![]
    } else if s[0].kind.is_trivia() {
        significant(s.drop_first())
    } else {
        seq![s[0]] + significant(s.drop_first())
    }
}

/// Without trivia, a token handed out leaves less to hand out.
proof fn lemma_bare_weight(s: Scan)
    requires
        sane(s),
        s.b.len() <= MAX_INPUT,
        !s.keep_trivia,
    ensures
        s.next() matches Next::Token(_, rest) ==> 0 <= rest.weight() < s.weight(),
{
    reveal(Scan::next);
    reveal(Scan::next_token);
    crate::scanner::stream::lemma_front_cover(s, 0);
}

proof fn lemma_tape_neutral(s: Scan)
    requires
        sane(s),
        s.b.len() <= MAX_INPUT,
        s.keep_trivia,
        !s.errored,
        solid(s.tokens),
        loose(s.trivia),
    ensures
        significant(tape(s)) == tape(bare(s)),
    decreases s.weight(),
{
    crate::scanner::stream::lemma_next_cover(s, 0);
    crate::scanner::stream::lemma_front_cover(s, 0);
    lemma_bare_front(s);
    lemma_kinds_front(s);
    lemma_front_again(s);
    lemma_bare_weight(bare(s));
    assert(s.next() == s.next_with_trivia() && bare(s).next() == bare(s).next_token()) by {
        reveal(Scan::next);
    }
    reveal(Scan::next_with_trivia);
    reveal(Scan::next_token);
    match s.front() {
        Front::Failed(_) => {},
        Front::Ready(t) => {
            let from_trivia = t.trivia.len() > 0 && t.trivia[0].span.start.offset
                <= t.tokens[0].span.start.offset;
            if from_trivia {
                let rest = Scan { trivia: t.trivia.drop_first(), ..t };
                lemma_tape_neutral(rest);
                assert(bare(rest) =~= bare(t));
                lemma_bare_front(t);
                lemma_bare_weight(bare(t));
                assert(bare(t).next() == bare(t).next_token()) by {
                    reveal(Scan::next);
                }
                assert(tape(s) =~= seq![t.trivia[0]] + tape(rest));
                assert(tape(s).drop_first() =~= tape(rest));
                assert(bare(t).next() == bare(s).next());
                assert(tape(bare(t)) == tape(bare(s)));
            } else {
                let rest = t.pop();
                lemma_tape_neutral(rest);
                assert(bare(rest) =~= bare(t).pop());
                assert(tape(s) =~= seq![t.tokens[0]] + tape(rest));
                assert(tape(s).drop_first() =~= tape(rest));
            }
        },
        Front::Exhausted(t) => {
            assert(tape(bare(s)) =~= Seq::<TokenView>::empty());
            if t.trivia.len() > 0 {
                let rest = Scan { trivia: t.trivia.drop_first(), ..t };
                lemma_tape_neutral(rest);
                assert(tape(s) =~= seq![t.trivia[0]] + tape(rest));
                assert(tape(s).drop_first() =~= tape(rest));
                assert(bare(rest) =~= bare(t));
                assert(bare(t).next() == bare(t).next_token()) by {
                    reveal(Scan::next);
                }
                assert(bare(t).front() == Front::Exhausted(bare(t)));
                assert(tape(bare(rest)) =~= Seq::<TokenView>::empty());
            }
        },
    }
}

/// The tokens of an input are the same whether trivia is kept or not: what remains of
/// the stream with trivia when the trivia is left out is the stream without.
pub proof fn law_trivia_changes_no_token(b: Seq<u8>, limits: crate::limits::ResourceLimits)
    requires
        b.len() <= MAX_INPUT,
    ensures
        significant(tape(Scan::fresh(b, limits, true))) == tape(Scan::fresh(b, limits, false)),
{
    let s = Scan::fresh(b, limits, true);
    lemma_tape_neutral(s);
    assert(bare(s) =~= Scan::fresh(b, limits, false));
}

} // verus!
