//! What the indicators do: which token a byte starts, which block collections open and
//! close with it, and what may not stand around it.
use crate::scanner::chars::{blank, line_break};
use crate::scanner::cursor::{lemma_run, run_end, stops, Until};
use crate::scanner::model::{KeyView, Scan};
use crate::scanner::token::TokenKindView;
use crate::types::ScalarStyle;
use vstd::prelude::*;

verus! {

/// The kind of the last token.
pub open spec fn last_kind(s: Scan) -> TokenKindView {
    s.tokens.last().kind
}

/// The first byte of a token tells its kind: brackets, braces and commas, `&`, `*` and `!`
/// for properties, quotes, and in block context `|` and `>` for the two sorts of block
/// scalars.
pub proof fn law_first_byte_tells_the_token(s: Scan)
    requires
        0 <= s.cur.offset < s.b.len(),
    ensures
        ({
            let x = s.b[s.cur.offset];
            s.dispatch() matches Ok(t) ==> {
                &&& x == 0x5b ==> last_kind(t) == TokenKindView::FlowSequenceStart
                &&& x == 0x5d ==> last_kind(t) == TokenKindView::FlowSequenceEnd
                &&& x == 0x7b ==> last_kind(t) == TokenKindView::FlowMappingStart
                &&& x == 0x7d ==> last_kind(t) == TokenKindView::FlowMappingEnd
                &&& x == 0x2c ==> last_kind(t) == TokenKindView::FlowEntry
                &&& x == 0x26 ==> last_kind(t) is Anchor
                &&& x == 0x2a ==> last_kind(t) is Alias
                &&& x == 0x21 ==> last_kind(t) is Tag
                &&& x == 0x27 ==> last_kind(t) is Scalar && last_kind(t)->Scalar_style
                    == ScalarStyle::SingleQuoted
                &&& x == 0x22 ==> last_kind(t) is Scalar && last_kind(t)->Scalar_style
                    == ScalarStyle::DoubleQuoted
                &&& x == 0x7c && s.flows.len() == 0 ==> last_kind(t) is Scalar && last_kind(
                    t,
                )->Scalar_style == ScalarStyle::Literal
                &&& x == 0x3e && s.flows.len() == 0 ==> last_kind(t) is Scalar && last_kind(
                    t,
                )->Scalar_style == ScalarStyle::Folded
            }
        }),
{
    reveal(Scan::dispatch);
}

/// A byte order mark at the start of the input is passed and leaves the column as it is;
/// without one nothing is passed. The stream starts with its own token.
pub proof fn law_byte_order_mark_is_passed(s: Scan)
    requires
        s.cur.offset == 0,
    ensures
        ({
            let t = s.stream_start();
            let marked = s.b.len() >= 3 && s.b[0] == 0xef && s.b[1] == 0xbb && s.b[2] == 0xbf;
            &&& t.cur.offset == if marked {
                3int
            } else {
                0
            }
            &&& t.cur.column == 0
            &&& t.tokens.len() == s.tokens.len() + 1
            &&& last_kind(t) == TokenKindView::StreamStart
        }),
{
}

/// A tab is no indentation: at the start of a line, no deeper than the block collection
/// around it, it is an error; elsewhere it is passed like a space.
pub proof fn law_tab_is_no_indentation(s: Scan, had_tab: bool)
    requires
        0 <= s.cur.offset < s.b.len(),
        s.b[s.cur.offset] == 0x09,
        s.flows.len() == 0,
    ensures
        s.cur.column <= s.indent ==> s.skip_whitespace(true, had_tab) is Err,
        s.cur.offset + 1 < s.b.len() && !blank(s.b[s.cur.offset + 1]) ==> {
            s.skip_whitespace(false, had_tab) matches Ok((t, tab)) && t.cur.offset == s.cur.offset
                + 1 && tab == had_tab
        },
{
    reveal_with_fuel(Scan::skip_whitespace, 2);
}

proof fn lemma_at_once(b: Seq<u8>, i: int, u: Until)
    requires
        0 <= i < b.len(),
        stops(u, b[i]),
    ensures
        run_end(b, i, u) == i,
{
    lemma_run(b, i, u);
}

/// Three dots end a document where the line ends behind them; where text follows them on
/// the line, they are an error.
pub proof fn law_document_end_marker(s: Scan)
    requires
        0 <= s.cur.offset,
        s.cur.offset + 4 < s.b.len(),
    ensures
        s.b[s.cur.offset + 3] == 0x0a ==> {
            s.document_end() matches Ok(t) && last_kind(t) == TokenKindView::DocumentEnd
                && t.cur.offset == s.cur.offset + 3
        },
        s.b[s.cur.offset + 3] == 0x20 && !blank(s.b[s.cur.offset + 4]) && s.b[s.cur.offset + 4]
            != 0x23 ==> s.document_end() is Err,
{
    crate::scanner::advance::lemma_unroll_frame(s, -1);
    let f = s.cur.offset + 3;
    if s.b[f] == 0x0a {
        lemma_at_once(s.b, f, Until::NotWhitespace);
    }
    if s.b[f] == 0x20 && !blank(s.b[f + 1]) {
        lemma_at_once(s.b, f + 1, Until::NotWhitespace);
        lemma_run(s.b, f, Until::NotWhitespace);
        assert(!line_break(s.b[f + 1]));
    }
}

/// A `-` in front of a blank starts an entry. Deeper than the collections around it, it
/// opens a block sequence first. It is an error where no block content may start.
pub proof fn law_block_entry(s: Scan)
    requires
        s.flows.len() == 0,
        s.tab_line != s.cur.line,
        s.doc_line != s.cur.line,
    ensures
        !s.allow ==> s.block_entry() is Err,
        s.allow ==> {
            s.block_entry() matches Ok(t) && {
                let n = s.tokens.len() as int;
                &&& t.allow
                &&& t.cur.offset == s.cur.offset + 1
                &&& s.indent < s.cur.column ==> t.tokens.len() == n + 2 && t.tokens[n].kind
                    == TokenKindView::BlockSequenceStart && t.tokens[n + 1].kind
                    == TokenKindView::BlockEntry && t.indent == s.cur.column && t.indents
                    == s.indents.push(s.indent)
                &&& s.indent >= s.cur.column ==> t.tokens.len() == n + 1 && t.tokens[n].kind
                    == TokenKindView::BlockEntry && t.indent == s.indent && t.indents == s.indents
            }
        },
{
}

/// A `?` starts a key. Deeper than the collections around it, it opens a block mapping
/// first. It is an error where no block content may start.
pub proof fn law_explicit_key(s: Scan)
    requires
        s.flows.len() == 0,
        s.tab_line != s.cur.line,
    ensures
        !s.allow ==> s.key_indicator() is Err,
        s.allow ==> {
            s.key_indicator() matches Ok(t) && {
                let n = s.tokens.len() as int;
                &&& t.allow
                &&& t.cur.offset == s.cur.offset + 1
                &&& s.indent < s.cur.column ==> t.tokens.len() == n + 2 && t.tokens[n].kind
                    == TokenKindView::BlockMappingStart && t.tokens[n + 1].kind
                    == TokenKindView::Key && t.indent == s.cur.column && t.indents
                    == s.indents.push(s.indent)
                &&& s.indent >= s.cur.column ==> t.tokens.len() == n + 1 && t.tokens[n].kind
                    == TokenKindView::Key && t.indent == s.indent && t.indents == s.indents
            }
        },
{
}

/// A `:` behind something that may be a key makes it one: the key token goes in front of
/// it, and in front of that, where the key is deeper than the collections around it, the
/// start of a block mapping in the column of the key.
pub proof fn law_implicit_key(s: Scan, key: KeyView)
    requires
        s.keys.len() > 0,
        s.keys.last() == key,
        key.possible,
        s.flows.len() == 0,
        s.tab_line != s.cur.line,
        s.produced <= key.index <= s.produced + s.tokens.len(),
    ensures
        s.value_indicator() matches Ok(t) && {
            let i = key.index - s.produced;
            let before = s.tokens.take(i);
            let behind = s.tokens.skip(i);
            &&& !t.allow
            &&& !t.keys.last().possible
            &&& last_kind(t) == TokenKindView::Value
            &&& s.indent < key.column() ==> t.tokens.len() == s.tokens.len() + 3 && t.tokens.take(i)
                == before && t.tokens[i].kind == TokenKindView::BlockMappingStart && t.tokens[i
                + 1].kind == TokenKindView::Key && t.tokens.subrange(
                i + 2,
                t.tokens.len() - 1,
            ) == behind && t.indent == key.column()
            &&& s.indent >= key.column() ==> t.tokens.len() == s.tokens.len() + 2 && t.tokens.take(
                i,
            ) == before && t.tokens[i].kind == TokenKindView::Key && t.tokens.subrange(
                i + 1,
                t.tokens.len() - 1,
            ) == behind && t.indent == s.indent
        },
{
    reveal(Scan::value_of_key);
    let t = s.value_indicator()->Ok_0;
    let i = key.index - s.produced;
    let before = s.tokens.take(i);
    let behind = s.tokens.skip(i);
    assert(t.tokens.take(i) =~= before);
    if s.indent < key.column() {
        assert(t.tokens.subrange(i + 2, t.tokens.len() - 1) =~= behind);
    } else {
        assert(t.tokens.subrange(i + 1, t.tokens.len() - 1) =~= behind);
    }
}

/// Content further left closes the block collections that are deeper than its column, each
/// with a token, and no others; inside brackets it closes none.
pub proof fn law_outdented_content_closes(s: Scan, column: int)
    ensures
        ({
            let t = s.unroll(column);
            let n = s.tokens.len() as int;
            let closed = s.indents.len() - t.indents.len();
            &&& s.flows.len() > 0 ==> t == s
            &&& s.indent <= column ==> t == s
            &&& closed >= 0
            &&& closed == 0 ==> t == s
            &&& t.indents == s.indents.take(t.indents.len() as int)
            &&& t.tokens.len() == n + closed
            &&& t.tokens.take(n) == s.tokens
            &&& forall|i: int|
                n <= i < t.tokens.len() ==> (#[trigger] t.tokens[i]).kind == TokenKindView::BlockEnd
            &&& s.flows.len() == 0 && t.indents.len() > 0 ==> t.indent <= column
            &&& closed > 0 ==> s.indent > column && t.indent == s.indents[t.indents.len() as int]
            &&& forall|i: int|
                t.indents.len() < i < s.indents.len() ==> #[trigger] s.indents[i] > column
        }),
    decreases s.indents.len(),
{
    let n = s.tokens.len() as int;
    if s.flows.len() > 0 || s.indent <= column || s.indents.len() == 0 {
        assert(s.indents =~= s.indents.take(s.indents.len() as int));
        assert(s.tokens.take(n) =~= s.tokens);
    } else {
        let u = Scan {
            indent: s.indents.last(),
            indents: s.indents.drop_last(),
            ..s.enqueue(TokenKindView::BlockEnd, crate::types::point(s.pos()))
        };
        law_outdented_content_closes(u, column);
        let t = s.unroll(column);
        assert(t == u.unroll(column));
        assert(t.indents =~= s.indents.take(t.indents.len() as int));
        assert(t.indent == s.indents[t.indents.len() as int]) by {
            if t.indents.len() < u.indents.len() {
                assert(u.indents[t.indents.len() as int] == s.indents[t.indents.len() as int]);
            }
        }
        assert(t.tokens[n] == t.tokens.take(n + 1)[n]);
        assert(t.tokens.take(n) =~= s.tokens) by {
            assert forall|i: int| 0 <= i < n implies t.tokens[i] == s.tokens[i] by {
                assert(t.tokens[i] == t.tokens.take(n + 1)[i]);
            }
        }
        assert forall|i: int| n <= i < t.tokens.len() implies (#[trigger] t.tokens[i]).kind
            == TokenKindView::BlockEnd by {
            if i == n {
                assert(t.tokens[n] == u.tokens[n]);
            }
        }
        assert forall|i: int| t.indents.len() < i < s.indents.len() implies #[trigger] s.indents[i]
            > column by {
            if i < s.indents.len() - 1 {
                assert(u.indents[i] == s.indents[i]);
            } else {
                assert(u.indent == s.indents[i]);
            }
        }
    }
}

/// A closing bracket undoes what its opening bracket did to the context.
pub proof fn law_brackets_match(s: Scan, is_sequence: bool, kind: TokenKindView)
    requires
        s.keys.len() > 0,
    ensures
        ({
            let t = s.flow_start(is_sequence)->Ok_0;
            let u = t.flow_end(kind)->Ok_0;
            &&& t.flows == s.flows.push(is_sequence)
            &&& t.keys.len() == s.keys.len() + 1
            &&& t.allow
            &&& u.flows == s.flows
            &&& u.keys.len() == s.keys.len()
            &&& s.allow ==> u.keys.last().possible && u.keys.last().index == s.produced
                + s.tokens.len()
            &&& !u.allow
        }),
{
    let t = s.flow_start(is_sequence)->Ok_0;
    let u = t.flow_end(kind)->Ok_0;
    assert(u.flows =~= s.flows);
}

} // verus!
