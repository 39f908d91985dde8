//! One token at a time: what a scanner makes of the pieces of which emitted text consists.
use crate::cst::green::lemma_encode_concat;
use crate::emitter::roundtrip::{
    law_double_quoted_round_trip, law_single_quoted_round_trip, lemma_char_bytes, lemma_nonempty,
};
use crate::emitter::scalar::{double_quoted_text, single_quoted_text};
use crate::scanner::chars::blank;
use crate::scanner::cursor::{lemma_run, marker_at, run_end, stops, Cur, Until, MAX_INPUT};
use crate::scanner::model::{Fail, Scan};
use crate::scanner::plain::{plain, plain_scalar, PlainState};
use crate::scanner::swar::flow_stop;
use crate::scanner::token::{TokenKindView, TokenView};
use crate::text::text;
use crate::types::{point, ScalarStyle};
use vstd::prelude::*;
use vstd::utf8::*;

verus! {

/// The number of bytes of the first `k` characters of a text.
pub open spec fn off(all: Seq<char>, k: int) -> int {
    encode_utf8(all.take(k)).len() as int
}

/// Whether `piece` stands in a text behind its first `k` characters.
pub open spec fn stands(all: Seq<char>, k: int, piece: Seq<char>) -> bool {
    &&& 0 <= k
    &&& k + piece.len() <= all.len()
    &&& all.subrange(k, k + piece.len()) == piece
}

/// What stands in a text stands there piece by piece.
pub proof fn lemma_stands(all: Seq<char>, k: int, a: Seq<char>, b: Seq<char>)
    requires
        stands(all, k, a + b),
    ensures
        stands(all, k, a),
        stands(all, k + a.len(), b),
{
    let whole = all.subrange(k, k + (a + b).len());
    assert(all.subrange(k, k + a.len()) =~= whole.subrange(0, a.len() as int));
    assert(whole.subrange(0, a.len() as int) =~= a);
    assert(all.subrange(k + a.len(), k + a.len() + b.len()) =~= whole.subrange(
        a.len() as int,
        (a.len() + b.len()) as int,
    ));
    assert(whole.subrange(a.len() as int, (a.len() + b.len()) as int) =~= b);
}

/// A character that stands in a text.
pub proof fn lemma_stands_char(all: Seq<char>, k: int, piece: Seq<char>, i: int)
    requires
        stands(all, k, piece),
        0 <= i < piece.len(),
    ensures
        all[k + i] == piece[i],
{
    assert(all.subrange(k, k + piece.len())[i] == piece[i]);
}

/// The offset behind a piece.
pub proof fn lemma_off(all: Seq<char>, k: int, n: int)
    requires
        0 <= k,
        0 <= n,
        k + n <= all.len(),
    ensures
        off(all, k + n) == off(all, k) + encode_utf8(all.subrange(k, k + n)).len(),
        off(all, k) <= off(all, k + n) <= encode_utf8(all).len(),
{
    assert(all.take(k + n) =~= all.take(k) + all.subrange(k, k + n));
    lemma_encode_concat(all.take(k), all.subrange(k, k + n));
    assert(all =~= all.take(k + n) + all.skip(k + n));
    lemma_encode_concat(all.take(k + n), all.skip(k + n));
}

/// The byte at an ASCII character.
pub proof fn lemma_byte(all: Seq<char>, k: int)
    requires
        0 <= k < all.len(),
        (all[k] as u32) < 0x80,
    ensures
        off(all, k) < encode_utf8(all).len(),
        encode_utf8(all)[off(all, k)] == all[k] as u8,
        off(all, k + 1) == off(all, k) + 1,
{
    let c = all[k];
    let rest = all.skip(k);
    assert(all =~= all.take(k) + rest);
    lemma_encode_concat(all.take(k), rest);
    assert(rest =~= seq![c] + all.skip(k + 1));
    lemma_encode_concat(seq![c], all.skip(k + 1));
    lemma_nonempty(seq![c]);
    lemma_char_bytes(c, 0);
    assert(encode_utf8(all)[off(all, k)] == encode_utf8(rest)[0]);
    assert(all.subrange(k, k + 1) =~= seq![c]);
    lemma_off(all, k, 1);
}

/// The end of a text.
pub proof fn lemma_off_end(all: Seq<char>)
    ensures
        off(all, all.len() as int) == encode_utf8(all).len(),
        off(all, 0) == 0,
{
    assert(all.take(all.len() as int) =~= all);
    assert(all.take(0) =~= Seq::<char>::empty());
}

/// The kinds of some tokens.
pub open spec fn kinds_of(q: Seq<TokenView>) -> Seq<TokenKindView> {
    Seq::new(q.len(), |i: int| q[i].kind)
}

/// The scanner stands behind the first `k` characters of a text that is not too long, and
/// has handed nothing out.
pub open spec fn at(s: Scan, all: Seq<char>, k: int) -> bool {
    &&& s.b == encode_utf8(all)
    &&& 0 <= k <= all.len()
    &&& s.cur.offset == off(all, k)
    &&& 0 <= s.cur.column <= s.cur.offset
    &&& 1 <= s.cur.line <= s.cur.offset + 1
    &&& s.b.len() <= MAX_INPUT
    &&& s.b.len() <= s.limits.max_document_size
    &&& s.produced == 0
    &&& s.started && !s.ended && !s.errored && !s.keep_trivia
    &&& s.tab_line == 0
    &&& s.doc_line <= s.cur.line
    &&& s.property_min >= -1
    &&& s.keys.len() == s.flows.len() + 1
}

/// So many block collections are open, each two columns further in.
pub open spec fn deep(s: Scan, d: nat) -> bool {
    &&& s.indent == if d == 0 {
        -1
    } else {
        2 * d - 2
    }
    &&& s.indents == Seq::new(
        d,
        |i: int|
            if i == 0 {
                -1int
            } else {
                2 * i - 2
            },
    )
}

/// So many ends of block collections.
pub open spec fn ends(n: nat) -> Seq<TokenKindView> {
    Seq::new(n, |i: int| TokenKindView::BlockEnd)
}

pub proof fn lemma_kinds_push(q: Seq<TokenView>, t: TokenView)
    ensures
        kinds_of(q.push(t)) == kinds_of(q).push(t.kind),
{
    assert(kinds_of(q.push(t)) =~= kinds_of(q).push(t.kind));
}

pub proof fn lemma_kinds_insert(q: Seq<TokenView>, i: int, t: TokenView)
    requires
        0 <= i <= q.len(),
    ensures
        kinds_of(q.insert(i, t)) == kinds_of(q).insert(i, t.kind),
{
    assert(kinds_of(q.insert(i, t)) =~= kinds_of(q).insert(i, t.kind));
}

/// Moving to a column closes the block collections further in.
pub proof fn lemma_unroll(s: Scan, d: nat, e: nat, column: int)
    requires
        deep(s, d),
        s.in_block(),
        e <= d,
        if e == 0 {
            column >= -1
        } else {
            2 * e - 2 <= column
        },
        e < d ==> column < 2 * e,
    ensures
        ({
            let t = s.unroll(column);
            &&& t == (Scan { tokens: t.tokens, indent: t.indent, indents: t.indents, ..s })
            &&& deep(t, e)
            &&& kinds_of(t.tokens) == kinds_of(s.tokens) + ends((d - e) as nat)
        }),
    decreases d,
{
    if e < d {
        let token = TokenView { kind: TokenKindView::BlockEnd, span: point(s.pos()) };
        let t = Scan {
            indent: s.indents.last(),
            indents: s.indents.drop_last(),
            ..s.enqueue(TokenKindView::BlockEnd, point(s.pos()))
        };
        assert(t.indents =~= Seq::new(
            (d - 1) as nat,
            |i: int|
                if i == 0 {
                    -1int
                } else {
                    2 * i - 2
                },
        ));
        assert(deep(t, (d - 1) as nat));
        lemma_kinds_push(s.tokens, token);
        lemma_unroll(t, (d - 1) as nat, e, column);
        assert(kinds_of(s.tokens).push(TokenKindView::BlockEnd) + ends((d - 1 - e) as nat)
            =~= kinds_of(s.tokens) + ends((d - e) as nat));
    } else {
        assert(kinds_of(s.tokens) + ends(0) =~= kinds_of(s.tokens));
    }
}

/// A character that can start a plain text.
pub open spec fn word_start(c: char) -> bool {
    'a' <= c <= 'z' || 'A' <= c <= 'Z' || '0' <= c <= '9' || c == '_'
}

/// A character that can start a token of emitted text.
pub open spec fn starts_token(c: char) -> bool {
    word_start(c) || c == '.' || c == '|' || c == '"' || c == '\'' || c == '-' || c == ':' || c == ',' || c == '[' || c == ']' || c == '{'
        || c == '}'
}

/// The text ends behind `k` characters, or a token starts there.
pub open spec fn token_at(all: Seq<char>, k: int) -> bool {
    k == all.len() || (0 <= k < all.len() && starts_token(all[k]))
}

proof fn lemma_token_byte(all: Seq<char>, k: int)
    requires
        0 <= k < all.len(),
        starts_token(all[k]),
    ensures
        off(all, k) < encode_utf8(all).len(),
        encode_utf8(all)[off(all, k)] == all[k] as u8,
        off(all, k + 1) == off(all, k) + 1,
        !blank(encode_utf8(all)[off(all, k)]),
        encode_utf8(all)[off(all, k)] != crate::scanner::chars::HASH,
        encode_utf8(all)[off(all, k)] != crate::scanner::chars::AMP,
        encode_utf8(all)[off(all, k)] != crate::scanner::chars::BANG,
{
    lemma_byte(all, k);
}

/// Spaces are skipped.
proof fn lemma_spaces(s: Scan, all: Seq<char>, k: int, n: nat, line_start: bool)
    requires
        s.b == encode_utf8(all),
        s.cur.offset == off(all, k),
        0 <= k,
        k + n <= all.len(),
        forall|i: int| k <= i < k + n ==> #[trigger] all[i] == ' ',
        token_at(all, k + n),
    ensures
        s.skip_whitespace(line_start, false) == Ok::<(Scan, bool), Fail>(
            (s.at(s.cur.to(s.cur.offset + n)), false),
        ),
        off(all, k + n) == off(all, k) + n,
    decreases n,
{
    if n > 0 {
        assert(all[k] == ' ');
        lemma_byte(all, k);
        lemma_spaces(s.step(), all, k + 1, (n - 1) as nat, line_start);
        assert(s.step().cur.to(s.step().cur.offset + (n - 1)) == s.cur.to(s.cur.offset + n));
    } else {
        lemma_off_end(all);
        if k < all.len() {
            lemma_token_byte(all, k);
        }
        assert(s.cur.to(s.cur.offset) == s.cur);
    }
}

/// Spaces in a line are skipped in front of a token.
pub proof fn lemma_gap(s: Scan, all: Seq<char>, k: int, n: nat)
    requires
        at(s, all, k),
        k + n <= all.len(),
        forall|i: int| k <= i < k + n ==> #[trigger] all[i] == ' ',
        token_at(all, k + n),
    ensures
        ({
            let g = Scan { cur: s.cur.to(s.cur.offset + n), after_indicator: false, ..s };
            &&& s.skip_gap(false) == Ok::<Scan, Fail>(g)
            &&& at(g, all, k + n)
        }),
{
    reveal(Scan::skip_in_line);
    lemma_spaces(s, all, k, n, false);
    lemma_off(all, k, n as int);
    lemma_off_end(all);
    if k + n < all.len() {
        lemma_token_byte(all, k + n);
    }
}

/// A line break and the spaces behind it are skipped in front of a token.
pub proof fn lemma_gap_line(s: Scan, all: Seq<char>, k: int, n: nat)
    requires
        at(s, all, k),
        s.in_block(),
        k + 1 + n <= all.len(),
        all[k] == '\n',
        forall|i: int| k + 1 <= i < k + 1 + n ==> #[trigger] all[i] == ' ',
        token_at(all, k + 1 + n),
    ensures
        ({
            let g = Scan {
                cur: Cur {
                    offset: s.cur.offset + 1 + n,
                    line: s.cur.line + 1,
                    column: n as int,
                },
                after_indicator: false,
                allow: true,
                colon_adjacent: false,
                ..s
            };
            &&& s.skip_gap(false) == Ok::<Scan, Fail>(g)
            &&& at(g, all, k + 1 + n)
        }),
{
    reveal(Scan::skip_in_line);
    reveal_with_fuel(Scan::skip_gap, 3);
    lemma_byte(all, k);
    let first = Scan { after_indicator: false, ..s };
    assert(s.skip_whitespace(false, false) == Ok::<(Scan, bool), Fail>((s, false)));
    assert(s.skip_in_line(false) == Ok::<Scan, Fail>(first));
    let t = first.skip_break();
    lemma_spaces(t, all, k + 1, n, true);
    lemma_off(all, k + 1, n as int);
    lemma_off_end(all);
    if k + 1 + n < all.len() {
        lemma_token_byte(all, k + 1 + n);
    }
    let g = Scan { cur: t.cur.to(t.cur.offset + n), after_indicator: false, ..t };
    assert(t.skip_in_line(true) == Ok::<Scan, Fail>(g));
    assert(t.skip_gap(true) == Ok::<Scan, Fail>(g));
}

/// The state in which the token behind a gap is scanned.
pub open spec fn seated(g: Scan) -> Scan {
    Scan { property_min: -1, ..g.stale_keys().unroll(g.cur.column) }
}

/// Behind a gap, the token that starts there is scanned.
pub proof fn lemma_fetch(s: Scan, g: Scan, all: Seq<char>, k: int)
    requires
        s.started,
        s.skip_gap(false) == Ok::<Scan, Fail>(g),
        at(g, all, k),
        0 <= k < all.len(),
        starts_token(all[k]),
    ensures
        s.fetch() == match seated(g).dispatch() {
            Ok(u) => Ok::<(Scan, bool), Fail>((u, true)),
            Err(f) => Err(f),
        },
{
    reveal(Scan::fetch);
    reveal(Scan::fetch_here);
    lemma_token_byte(all, k);
    crate::scanner::advance::lemma_unroll_frame(g.stale_keys(), g.cur.column);
}

/// What stays the same when a scanner is seated.
pub proof fn lemma_seated(g: Scan, all: Seq<char>, k: int)
    requires
        at(g, all, k),
    ensures
        at(seated(g), all, k),
        seated(g).cur == g.cur,
        seated(g).doc_line == g.doc_line,
        seated(g).flows == g.flows,
        seated(g).allow == g.allow,
        seated(g).keys == g.stale_keys().keys,
        !g.in_block() ==> seated(g).tokens == g.tokens && seated(g).indent == g.indent
            && seated(g).indents == g.indents,
{
    crate::scanner::advance::lemma_unroll_frame(g.stale_keys(), g.cur.column);
}

/// A character of a plain text: one that can end no plain scalar.
pub open spec fn word_char(c: char) -> bool {
    (c as u32) >= 0x80 || !flow_stop(c as u8)
}

/// A text that is read back as it stands: words with spaces between them, the first of
/// which starts with a letter, a digit or an underscore.
pub open spec fn plain_words(v: Seq<char>) -> bool {
    &&& v.len() > 0
    &&& word_start(v[0])
    &&& v.last() != ' '
    &&& forall|i: int| 0 <= i < v.len() ==> #[trigger] v[i] == ' ' || word_char(v[i])
}

/// A scalar whose text can be read back: in double quotes, in single quotes without line
/// breaks, or plain words.
pub open spec fn legible(v: Seq<char>, style: ScalarStyle) -> bool {
    ||| style is DoubleQuoted
    ||| style is SingleQuoted && !v.contains('\n') && !v.contains('\r')
    ||| style is Plain && plain_words(v)
}

/// The text of a scalar.
pub open spec fn scalar_text(v: Seq<char>, style: ScalarStyle) -> Seq<char> {
    if style is DoubleQuoted {
        double_quoted_text(v)
    } else if style is SingleQuoted {
        single_quoted_text(v)
    } else {
        v
    }
}

/// A quoted scalar is scanned to one token, which may be a key.
proof fn lemma_quoted(p: Scan, all: Seq<char>, k: int, v: Seq<char>, style: ScalarStyle) -> (t:
    Scan)
    requires
        at(p, all, k),
        legible(v, style),
        !(style is Plain),
        stands(all, k, scalar_text(v, style)),
        ({
            let end = k + scalar_text(v, style).len();
            end == all.len() || all[end] != '\''
        }),
    ensures
        p.dispatch() == Ok::<Scan, Fail>(t),
        t == (Scan {
            cur: t.cur,
            tokens: t.tokens,
            keys: p.save_key().keys,
            allow: false,
            ..p
        }),
        t.cur.line == p.cur.line,
        t.cur.column >= p.cur.column,
        at(t, all, k + scalar_text(v, style).len()),
        t.tokens.len() == p.tokens.len() + 1,
        kinds_of(t.tokens) == kinds_of(p.tokens).push(TokenKindView::Scalar { value: v, style }),
{
    let q = scalar_text(v, style);
    let n = q.len() as int;
    let pre = all.take(k);
    let post = all.skip(k + n);
    lemma_stands_char(all, k, q, 0);
    lemma_off(all, k, n);
    assert(all =~= pre + q + post);
    assert(all.take(k + n) =~= pre + q);
    lemma_quote_dispatch(p, all, k);
    let s = p.node_start();
    let c = s.step().cur;
    if style is DoubleQuoted {
        let from = if s.in_block() {
            Some(s.indent + 1)
        } else {
            None
        };
        law_double_quoted_round_trip(pre, v, post, c, from, s.pos());
    } else {
        if post.len() > 0 {
            assert(post[0] == all[k + n]);
        }
        law_single_quoted_round_trip(pre, v, post, c, s.pos());
    }
    let t = p.dispatch()->Ok_0;
    assert(t.tokens == p.tokens.push(t.tokens.last()));
    lemma_kinds_push(p.tokens, t.tokens.last());
    t
}

/// A quote starts a quoted scalar.
proof fn lemma_quote_dispatch(p: Scan, all: Seq<char>, k: int)
    requires
        at(p, all, k),
        k < all.len(),
        all[k] == '"' || all[k] == '\'',
    ensures
        p.dispatch() == if all[k] == '"' {
            p.double_quoted()
        } else {
            p.single_quoted()
        },
        off(all, k + 1) == off(all, k) + 1,
{
    reveal(Scan::dispatch);
    lemma_byte(all, k);
}

/// How far plain words have been read: so many characters, of which the last may be
/// spaces.
spec fn words_read(all: Seq<char>, k: int, v: Seq<char>, c: Cur, i: int, j: int) -> PlainState {
    PlainState {
        cur: c.to(off(all, k + i)),
        content: v.take(j),
        ws: v.subrange(j, i),
        lead: false,
        trail: 0,
        end: off(all, k + j),
        last_line: c.line,
    }
}

/// The characters of a word are no stops.
proof fn lemma_word_bytes(all: Seq<char>, k: int, e: int, u: Until)
    requires
        0 <= k <= e <= all.len(),
        u == Until::PlainFlow || u == Until::PlainBlock,
        forall|i: int| k <= i < e ==> word_char(#[trigger] all[i]),
    ensures
        forall|o: int| off(all, k) <= o < off(all, e) ==> !stops(u, #[trigger] encode_utf8(all)[o]),
    decreases e - k,
{
    if k < e {
        lemma_word_bytes(all, k + 1, e, u);
        lemma_off(all, k, 1);
        let c = all[k];
        let piece = encode_utf8(seq![c]);
        assert(all.subrange(k, k + 1) =~= seq![c]);
        let rest = all.skip(k);
        assert(all =~= all.take(k) + rest);
        lemma_encode_concat(all.take(k), rest);
        assert(rest =~= seq![c] + all.skip(k + 1));
        lemma_encode_concat(seq![c], all.skip(k + 1));
        assert forall|o: int| off(all, k) <= o < off(all, e) implies !stops(
            u,
            #[trigger] encode_utf8(all)[o],
        ) by {
            if o < off(all, k + 1) {
                let i = o - off(all, k);
                assert(encode_utf8(all)[o] == piece[i]);
                lemma_char_bytes(c, i);
            }
        }
    }
}

/// The end of the word that starts at `i`.
spec fn word_end(v: Seq<char>, i: int) -> int
    decreases v.len() - i,
{
    if 0 <= i < v.len() && v[i] != ' ' {
        word_end(v, i + 1)
    } else {
        i
    }
}

proof fn lemma_word_end(v: Seq<char>, i: int)
    requires
        0 <= i <= v.len(),
    ensures
        i <= word_end(v, i) <= v.len(),
        forall|j: int| i <= j < word_end(v, i) ==> #[trigger] v[j] != ' ',
        word_end(v, i) < v.len() ==> v[word_end(v, i)] == ' ',
        i < v.len() && v[i] != ' ' ==> word_end(v, i) > i,
    decreases v.len() - i,
{
    if i < v.len() && v[i] != ' ' {
        lemma_word_end(v, i + 1);
    }
}

/// A character that ends plain words.
pub open spec fn word_stop(all: Seq<char>, k: int, in_flow: bool) -> bool {
    &&& 0 <= k < all.len()
    &&& if in_flow {
        all[k] == ',' || all[k] == ']' || all[k] == '}' || (all[k] == ':' && k + 1 < all.len()
            && all[k + 1] == ' ')
    } else {
        all[k] == '\n' || (all[k] == ':' && k + 1 < all.len() && (all[k + 1] == ' ' || all[k + 1]
            == '\n'))
    }
}

/// Plain words are read up to what ends them.
proof fn lemma_words(
    all: Seq<char>,
    k: int,
    v: Seq<char>,
    c: Cur,
    i: int,
    j: int,
    in_flow: bool,
    indent: int,
)
    requires
        0 <= k,
        stands(all, k, v),
        plain_words(v),
        c.offset == off(all, k),
        0 <= c.column,
        0 <= j <= i <= v.len(),
        forall|x: int| j <= x < i ==> #[trigger] v[x] == ' ',
        i > 0 ==> j > 0,
        i == v.len() ==> j == i,
        word_stop(all, k + v.len(), in_flow),
    ensures
        plain(encode_utf8(all), words_read(all, k, v, c, i, j), in_flow, indent) == plain(
            encode_utf8(all),
            words_read(all, k, v, c, v.len() as int, v.len() as int),
            in_flow,
            indent,
        ),
    decreases v.len() - i,
{
    let b = encode_utf8(all);
    if i < v.len() {
        let s = words_read(all, k, v, c, i, j);
        lemma_stands_char(all, k, v, i);
        lemma_off(all, k, i);
        if i > 0 {
            lemma_off(all, k, 1);
            lemma_off(all, k + 1, i - 1);
            lemma_stands_char(all, k, v, 0);
            lemma_byte(all, k);
        }
        if v[i] == ' ' {
            lemma_byte(all, k + i);
            assert(v.subrange(j, i).push(' ') =~= v.subrange(j, i + 1));
            assert(i + 1 < v.len());
            lemma_words(all, k, v, c, i + 1, j, in_flow, indent);
        } else {
            let e = word_end(v, i);
            lemma_word_end(v, i);
            let u = if in_flow {
                Until::PlainFlow
            } else {
                Until::PlainBlock
            };
            assert forall|x: int| k + i <= x < k + e implies word_char(#[trigger] all[x]) by {
                lemma_stands_char(all, k, v, x - k);
                assert(v[x - k] != ' ');
            }
            lemma_word_bytes(all, k + i, k + e, u);
            if e < v.len() {
                lemma_stands_char(all, k, v, e);
            }
            lemma_byte(all, k + e);
            lemma_off(all, k + i, e - i);
            lemma_off(all, k + i, 1);
            lemma_off(all, k + i + 1, e - i - 1);
            lemma_nonempty(all.subrange(k + i, k + i + 1));
            lemma_run(b, off(all, k + i), u);
            assert(run_end(b, off(all, k + i), u) == off(all, k + e));
            assert(!stops(u, b[off(all, k + i)]));
            lemma_text_off(all, k + i, k + e);
            assert(all.subrange(k + i, k + e) =~= v.subrange(i, e)) by {
                assert(all.subrange(k, k + v.len()).subrange(i, e) =~= all.subrange(k + i, k + e));
            }
            assert(v.take(j) + v.subrange(j, i) + v.subrange(i, e) =~= v.take(e));
            assert(v.subrange(e, e) =~= Seq::<char>::empty());
            if i == 0 {
                lemma_not_marker(all, k);
            }
            assert(plain(b, s, in_flow, indent) == plain(
                b,
                words_read(all, k, v, c, e, e),
                in_flow,
                indent,
            ));
            lemma_words(all, k, v, c, e, e, in_flow, indent);
        }
    }
}

/// A letter, a digit or an underscore starts no marker.
proof fn lemma_not_marker(all: Seq<char>, k: int)
    requires
        0 <= k < all.len(),
        word_start(all[k]),
    ensures
        !marker_at(encode_utf8(all), off(all, k), crate::scanner::chars::DASH),
        !marker_at(encode_utf8(all), off(all, k), crate::scanner::chars::DOT),
{
    lemma_byte(all, k);
}

/// The text between two places.
pub proof fn lemma_text_off(all: Seq<char>, i: int, j: int)
    requires
        0 <= i <= j <= all.len(),
    ensures
        text(encode_utf8(all), off(all, i), off(all, j)) == all.subrange(i, j),
{
    let mid = all.subrange(i, j);
    lemma_off(all, i, j - i);
    assert(all =~= all.take(i) + (mid + all.skip(j)));
    lemma_encode_concat(all.take(i), mid + all.skip(j));
    lemma_encode_concat(mid, all.skip(j));
    assert(encode_utf8(all).subrange(off(all, i), off(all, j)) =~= encode_utf8(mid));
    encode_utf8_decode_utf8(mid);
}

/// A plain text in front of a colon, or in a flow collection, is scanned to one token,
/// which may be a key.
proof fn lemma_plain(p: Scan, all: Seq<char>, k: int, v: Seq<char>) -> (t: Scan)
    requires
        at(p, all, k),
        plain_words(v),
        stands(all, k, v),
        word_stop(all, k + v.len(), !p.in_block()),
        all[k + v.len()] != '\n',
    ensures
        p.dispatch() == Ok::<Scan, Fail>(t),
        t == (Scan {
            cur: t.cur,
            tokens: t.tokens,
            keys: p.save_key().keys,
            allow: true,
            colon_adjacent: false,
            ..p
        }),
        t.cur.line == p.cur.line,
        t.cur.column >= p.cur.column,
        at(t, all, k + v.len()),
        t.tokens.len() == p.tokens.len() + 1,
        kinds_of(t.tokens) == kinds_of(p.tokens).push(
            TokenKindView::Scalar { value: v, style: ScalarStyle::Plain },
        ),
{
    let n = p.node_start();
    let c = n.cur;
    let b = encode_utf8(all);
    lemma_plain_read(p, all, k, v);
    let end = words_read(all, k, v, c, v.len() as int, v.len() as int);
    lemma_byte(all, k + v.len());
    if all[k + v.len()] == ':' {
        lemma_byte(all, k + v.len() + 1);
    }
    lemma_off(all, k, v.len() as int);
    lemma_off(all, k, 1);
    lemma_off(all, k + 1, v.len() - 1);
    lemma_stands_char(all, k, v, 0);
    lemma_byte(all, k);
    assert(plain(b, end, !n.in_block(), n.indent) == end);
    assert(v.take(v.len() as int) =~= v);
    lemma_plain_dispatch(p, all, k);
    let t = p.dispatch()->Ok_0;
    assert(t.tokens == p.tokens.push(t.tokens.last()));
    lemma_kinds_push(p.tokens, t.tokens.last());
    t
}

/// A plain text is read to its last word.
proof fn lemma_plain_read(p: Scan, all: Seq<char>, k: int, v: Seq<char>)
    requires
        at(p, all, k),
        plain_words(v),
        stands(all, k, v),
        word_stop(all, k + v.len(), !p.in_block()),
    ensures
        ({
            let c = p.cur;
            plain_scalar(encode_utf8(all), c, !p.in_block(), p.indent) == plain(
                encode_utf8(all),
                words_read(all, k, v, c, v.len() as int, v.len() as int),
                !p.in_block(),
                p.indent,
            )
        }),
{
    let c = p.cur;
    assert(v.take(0) =~= Seq::<char>::empty());
    assert(v.subrange(0, 0) =~= Seq::<char>::empty());
    assert(c.to(off(all, k)) == c);
    lemma_words(all, k, v, c, 0, 0, !p.in_block(), p.indent);
}

/// A letter, a digit or an underscore starts a plain scalar.
proof fn lemma_plain_dispatch(p: Scan, all: Seq<char>, k: int)
    requires
        at(p, all, k),
        k < all.len(),
        word_start(all[k]),
    ensures
        p.dispatch() == p.plain(),
        !p.node_start().bad_plain_start(),
{
    reveal(Scan::dispatch);
    lemma_byte(all, k);
}

/// A scalar in front of a colon, or in a flow collection, is scanned to one token, which
/// may be a key.
pub proof fn lemma_scalar(p: Scan, all: Seq<char>, k: int, v: Seq<char>, style: ScalarStyle) -> (t:
    Scan)
    requires
        at(p, all, k),
        legible(v, style),
        stands(all, k, scalar_text(v, style)),
        word_stop(all, k + scalar_text(v, style).len(), !p.in_block()),
        style is Plain ==> all[k + scalar_text(v, style).len()] != '\n',
    ensures
        p.dispatch() == Ok::<Scan, Fail>(t),
        t == (Scan {
            cur: t.cur,
            tokens: t.tokens,
            keys: p.save_key().keys,
            allow: t.allow,
            colon_adjacent: t.colon_adjacent,
            ..p
        }),
        t.cur.line == p.cur.line,
        t.cur.column >= p.cur.column,
        at(t, all, k + scalar_text(v, style).len()),
        t.tokens.len() == p.tokens.len() + 1,
        kinds_of(t.tokens) == kinds_of(p.tokens).push(TokenKindView::Scalar { value: v, style }),
{
    if style is Plain {
        lemma_plain(p, all, k, v)
    } else {
        lemma_quoted(p, all, k, v, style)
    }
}

/// A plain text at the end of a line of block context takes the line break with it, and
/// the spaces behind that: the next line does not stand further in than what is open.
pub proof fn lemma_plain_line(p: Scan, all: Seq<char>, k: int, v: Seq<char>, m: nat) -> (t: Scan)
    requires
        at(p, all, k),
        p.in_block(),
        plain_words(v),
        stands(all, k, v),
        ({
            let e = k + v.len();
            &&& e < all.len()
            &&& all[e] == '\n'
            &&& e + 1 + m <= all.len()
            &&& forall|i: int| e + 1 <= i < e + 1 + m ==> #[trigger] all[i] == ' '
            &&& token_at(all, e + 1 + m)
            &&& m <= p.indent || e + 1 + m == all.len() || (m == 0 && marker_at(
                encode_utf8(all),
                off(all, e + 1),
                crate::scanner::chars::DOT,
            ))
        }),
    ensures
        p.dispatch() == Ok::<Scan, Fail>(t),
        t == (Scan {
            cur: t.cur,
            tokens: t.tokens,
            keys: p.save_key().keys,
            allow: true,
            colon_adjacent: false,
            ..p
        }),
        t.cur.column == m,
        t.cur.line == p.cur.line + 1,
        at(t, all, k + v.len() + 1 + m),
        t.tokens.len() == p.tokens.len() + 1,
        kinds_of(t.tokens) == kinds_of(p.tokens).push(
            TokenKindView::Scalar { value: v, style: ScalarStyle::Plain },
        ),
{
    let n = p.node_start();
    let c = n.cur;
    let b = encode_utf8(all);
    let e = k + v.len();
    lemma_plain_read(p, all, k, v);
    let end = words_read(all, k, v, c, v.len() as int, v.len() as int);
    lemma_byte(all, e);
    lemma_off(all, k, v.len() as int);
    lemma_off(all, k, 1);
    lemma_off(all, k + 1, v.len() - 1);
    lemma_stands_char(all, k, v, 0);
    lemma_byte(all, k);
    lemma_space_run(all, e + 1, m);
    lemma_off(all, e + 1, m as int);
    lemma_off_end(all);
    let line = end.cur.newline(b);
    let next = line.run(b, Until::NotSpace);
    assert(line.offset == off(all, e + 1));
    assert(next == (Cur { offset: off(all, e + 1 + m), line: c.line + 1, column: m as int }));
    let last = PlainState { cur: next, ws: seq![], lead: true, trail: 0, ..end };
    if e + 1 + m < all.len() {
        lemma_token_byte(all, e + 1 + m);
    }
    assert(m <= n.indent || plain(b, last, false, n.indent) == last);
    assert(plain(b, end, false, n.indent) == last);
    assert(v.take(v.len() as int) =~= v);
    lemma_plain_dispatch(p, all, k);
    let t = p.dispatch()->Ok_0;
    assert(t.tokens == p.tokens.push(t.tokens.last()));
    lemma_kinds_push(p.tokens, t.tokens.last());
    t
}

/// A run of spaces ends at the next token.
proof fn lemma_space_run(all: Seq<char>, k: int, m: nat)
    requires
        0 <= k,
        k + m <= all.len(),
        forall|i: int| k <= i < k + m ==> #[trigger] all[i] == ' ',
        token_at(all, k + m),
    ensures
        run_end(encode_utf8(all), off(all, k), Until::NotSpace) == off(all, k + m),
        off(all, k + m) == off(all, k) + m,
    decreases m,
{
    let b = encode_utf8(all);
    lemma_run(b, off(all, k), Until::NotSpace);
    if m > 0 {
        assert(all[k] == ' ');
        lemma_byte(all, k);
        lemma_space_run(all, k + 1, (m - 1) as nat);
    } else {
        lemma_off_end(all);
        if k < all.len() {
            lemma_token_byte(all, k);
        }
    }
}

/// A dash in front of a space starts an entry of a block sequence, and the sequence if
/// it stands further in than what is open.
pub proof fn lemma_dash(p: Scan, all: Seq<char>, k: int, d: nat) -> (t: Scan)
    requires
        at(p, all, k),
        p.in_block(),
        p.allow,
        p.doc_line < p.cur.line,
        deep(p, d),
        k + 1 < all.len(),
        all[k] == '-',
        all[k + 1] == ' ',
        p.cur.column == 2 * d || (d > 0 && p.cur.column == 2 * d - 2),
    ensures
        p.dispatch() == Ok::<Scan, Fail>(t),
        at(t, all, k + 1),
        t.in_block(),
        t.allow,
        t.cur == p.cur.to(p.cur.offset + 1),
        t.doc_line == p.doc_line,
        p.cur.column == 2 * d ==> deep(t, d + 1) && kinds_of(t.tokens) == kinds_of(p.tokens)
            + seq![TokenKindView::BlockSequenceStart, TokenKindView::BlockEntry],
        p.cur.column != 2 * d ==> deep(t, d) && kinds_of(t.tokens) == kinds_of(p.tokens).push(
            TokenKindView::BlockEntry,
        ),
{
    reveal(Scan::dispatch);
    lemma_byte(all, k);
    lemma_byte(all, k + 1);
    let r = p.roll(p.cur.column, TokenKindView::BlockSequenceStart, None);
    let t = p.dispatch()->Ok_0;
    assert(p.dispatch() == p.block_entry());
    if p.cur.column == 2 * d {
        let start = TokenView { kind: TokenKindView::BlockSequenceStart, span: point(p.pos()) };
        lemma_kinds_push(p.tokens, start);
        assert(r.indents =~= Seq::new(
            d + 1,
            |i: int|
                if i == 0 {
                    -1int
                } else {
                    2 * i - 2
                },
        ));
    }
    lemma_kinds_push(r.tokens, t.tokens.last());
    assert(t.tokens == r.tokens.push(t.tokens.last()));
    assert(kinds_of(p.tokens).push(TokenKindView::BlockSequenceStart).push(
        TokenKindView::BlockEntry,
    ) =~= kinds_of(p.tokens) + seq![
        TokenKindView::BlockSequenceStart,
        TokenKindView::BlockEntry,
    ]);
    t
}

/// A colon behind a key of block context: the key goes in front of it, and the start of
/// the mapping if the key stands further in than what is open.
pub proof fn lemma_colon(p: Scan, all: Seq<char>, k: int, d: nat, i: int) -> (t: Scan)
    requires
        at(p, all, k),
        p.in_block(),
        deep(p, d),
        k + 1 < all.len(),
        all[k] == ':',
        all[k + 1] == ' ' || all[k + 1] == '\n',
        p.keys[0].possible,
        p.keys[0].index == i,
        0 <= i <= p.tokens.len(),
        p.keys[0].column() == 2 * d || (d > 0 && p.keys[0].column() == 2 * d - 2),
    ensures
        p.dispatch() == Ok::<Scan, Fail>(t),
        at(t, all, k + 1),
        t.in_block(),
        !t.allow,
        t.cur == p.cur.to(p.cur.offset + 1),
        t.doc_line == p.doc_line,
        !t.keys[0].possible,
        p.keys[0].column() == 2 * d ==> deep(t, d + 1) && kinds_of(t.tokens) == kinds_of(
            p.tokens,
        ).insert(i, TokenKindView::Key).insert(i, TokenKindView::BlockMappingStart).push(
            TokenKindView::Value,
        ),
        p.keys[0].column() != 2 * d ==> deep(t, d) && kinds_of(t.tokens) == kinds_of(
            p.tokens,
        ).insert(i, TokenKindView::Key).push(TokenKindView::Value),
{
    reveal(Scan::dispatch);
    reveal(Scan::value_of_key);
    lemma_byte(all, k);
    lemma_byte(all, k + 1);
    let key = p.keys[0];
    assert(p.keys.last() == key);
    assert(p.dispatch() == p.value_indicator());
    let a = p.insert_at(key.index, TokenKindView::Key, point(key.pos));
    lemma_kinds_insert(
        p.tokens,
        i,
        TokenView { kind: TokenKindView::Key, span: point(key.pos) },
    );
    let r = a.roll(key.column(), TokenKindView::BlockMappingStart, Some(key.index));
    if key.column() == 2 * d {
        lemma_kinds_insert(
            a.tokens,
            i,
            TokenView { kind: TokenKindView::BlockMappingStart, span: point(a.pos()) },
        );
        assert(r.indents =~= Seq::new(
            d + 1,
            |i: int|
                if i == 0 {
                    -1int
                } else {
                    2 * i - 2
                },
        ));
    }
    let t = p.dispatch()->Ok_0;
    lemma_kinds_push(r.tokens, t.tokens.last());
    assert(t.tokens == r.tokens.push(t.tokens.last()));
    t
}

/// An opening bracket of a flow collection.
pub proof fn lemma_open(p: Scan, all: Seq<char>, k: int, is_sequence: bool) -> (t: Scan)
    requires
        at(p, all, k),
        k < all.len(),
        all[k] == if is_sequence {
            '['
        } else {
            '{'
        },
    ensures
        p.dispatch() == Ok::<Scan, Fail>(t),
        at(t, all, k + 1),
        t.cur == p.cur.to(p.cur.offset + 1),
        t.doc_line == p.doc_line,
        t.allow,
        t.flows == p.flows.push(is_sequence),
        t.keys.drop_last() == p.save_key().keys,
        t.indent == p.indent && t.indents == p.indents,
        kinds_of(t.tokens) == kinds_of(p.tokens).push(
            if is_sequence {
                TokenKindView::FlowSequenceStart
            } else {
                TokenKindView::FlowMappingStart
            },
        ),
{
    reveal(Scan::dispatch);
    lemma_byte(all, k);
    let t = p.dispatch()->Ok_0;
    assert(p.dispatch() == p.flow_start(is_sequence));
    lemma_kinds_push(p.tokens, t.tokens.last());
    assert(t.tokens == p.tokens.push(t.tokens.last()));
    assert(t.keys.drop_last() =~= p.save_key().keys);
    t
}

/// A closing bracket of a flow collection.
pub proof fn lemma_close(p: Scan, all: Seq<char>, k: int, is_sequence: bool) -> (t: Scan)
    requires
        at(p, all, k),
        k < all.len(),
        p.flows.len() > 0,
        all[k] == if is_sequence {
            ']'
        } else {
            '}'
        },
    ensures
        p.dispatch() == Ok::<Scan, Fail>(t),
        at(t, all, k + 1),
        t.cur == p.cur.to(p.cur.offset + 1),
        t.doc_line == p.doc_line,
        !t.allow,
        t.flows == p.flows.drop_last(),
        t.keys == p.keys.drop_last(),
        t.indent == p.indent && t.indents == p.indents,
        kinds_of(t.tokens) == kinds_of(p.tokens).push(
            if is_sequence {
                TokenKindView::FlowSequenceEnd
            } else {
                TokenKindView::FlowMappingEnd
            },
        ),
{
    reveal(Scan::dispatch);
    lemma_byte(all, k);
    let t = p.dispatch()->Ok_0;
    let kind = if is_sequence {
        TokenKindView::FlowSequenceEnd
    } else {
        TokenKindView::FlowMappingEnd
    };
    assert(p.dispatch() == p.flow_end(kind));
    lemma_kinds_push(p.tokens, t.tokens.last());
    assert(t.tokens == p.tokens.push(t.tokens.last()));
    assert(t.keys =~= p.keys.drop_last());
    t
}

/// A comma in a flow collection.
pub proof fn lemma_comma(p: Scan, all: Seq<char>, k: int) -> (t: Scan)
    requires
        at(p, all, k),
        k < all.len(),
        p.flows.len() > 0,
        all[k] == ',',
    ensures
        p.dispatch() == Ok::<Scan, Fail>(t),
        at(t, all, k + 1),
        t.cur == p.cur.to(p.cur.offset + 1),
        t.doc_line == p.doc_line,
        t.allow,
        t.flows == p.flows,
        t.keys.drop_last() == p.keys.drop_last(),
        t.indent == p.indent && t.indents == p.indents,
        kinds_of(t.tokens) == kinds_of(p.tokens).push(TokenKindView::FlowEntry),
{
    reveal(Scan::dispatch);
    lemma_byte(all, k);
    let t = p.dispatch()->Ok_0;
    assert(p.dispatch() == p.flow_entry());
    lemma_kinds_push(p.tokens, t.tokens.last());
    assert(t.tokens == p.tokens.push(t.tokens.last()));
    assert(t.keys.drop_last() =~= p.keys.drop_last());
    t
}

/// A colon behind a key of a flow mapping: the key goes in front of it.
pub proof fn lemma_flow_colon(p: Scan, all: Seq<char>, k: int, i: int) -> (t: Scan)
    requires
        at(p, all, k),
        p.flows.len() > 0,
        k < all.len(),
        all[k] == ':',
        p.keys.last().possible,
        p.keys.last().index == i,
        0 <= i <= p.tokens.len(),
    ensures
        p.dispatch() == Ok::<Scan, Fail>(t),
        at(t, all, k + 1),
        t.cur == p.cur.to(p.cur.offset + 1),
        t.doc_line == p.doc_line,
        t.flows == p.flows,
        t.keys.drop_last() == p.keys.drop_last(),
        t.indent == p.indent && t.indents == p.indents,
        kinds_of(t.tokens) == kinds_of(p.tokens).insert(i, TokenKindView::Key).push(
            TokenKindView::Value,
        ),
{
    reveal(Scan::dispatch);
    reveal(Scan::value_of_key);
    lemma_byte(all, k);
    let key = p.keys.last();
    assert(p.dispatch() == p.value_indicator());
    let a = p.insert_at(key.index, TokenKindView::Key, point(key.pos));
    lemma_kinds_insert(
        p.tokens,
        i,
        TokenView { kind: TokenKindView::Key, span: point(key.pos) },
    );
    let t = p.dispatch()->Ok_0;
    lemma_kinds_push(a.tokens, t.tokens.last());
    assert(t.tokens == a.tokens.push(t.tokens.last()));
    assert(t.keys.drop_last() =~= p.keys.drop_last());
    t
}

/// Behind the last token stands the end of the stream.
pub proof fn lemma_end(s: Scan, g: Scan, all: Seq<char>, d: nat) -> (t: Scan)
    requires
        s.started,
        s.skip_gap(false) == Ok::<Scan, Fail>(g),
        at(g, all, all.len() as int),
        g.in_block(),
        deep(g, d),
        g.cur.column == 0,
    ensures
        s.fetch() == Ok::<(Scan, bool), Fail>((t, true)),
        t.ended,
        t.keys.len() == 1,
        !t.keys[0].possible,
        kinds_of(t.tokens) == kinds_of(g.tokens) + ends(d).push(TokenKindView::StreamEnd),
{
    reveal(Scan::fetch);
    reveal(Scan::fetch_here);
    lemma_off_end(all);
    let k = g.stale_keys();
    let e: nat = if d == 0 {
        0
    } else {
        1
    };
    lemma_unroll(k, d, e, 0);
    let u = k.unroll(0);
    lemma_unroll(u, e, 0, -1);
    let w = u.unroll(-1).remove_key();
    let t = s.fetch()->Ok_0.0;
    lemma_kinds_push(w.tokens, t.tokens.last());
    assert(t.tokens == w.tokens.push(t.tokens.last()));
    assert(kinds_of(t.tokens) =~= kinds_of(g.tokens) + ends(d).push(TokenKindView::StreamEnd));
    t
}

/// The marker that starts a document.
pub proof fn lemma_start_marker(p: Scan, all: Seq<char>, k: int) -> (t: Scan)
    requires
        at(p, all, k),
        p.in_block(),
        deep(p, 0),
        p.cur.column == 0,
        stands(all, k, seq!['-', '-', '-', '\n']),
    ensures
        p.dispatch() == Ok::<Scan, Fail>(t),
        at(t, all, k + 3),
        t.in_block(),
        deep(t, 0),
        kinds_of(t.tokens) == kinds_of(p.tokens).push(TokenKindView::DocumentStart),
{
    reveal(Scan::dispatch);
    lemma_marker_bytes(all, k, '-');
    assert(p.unroll(-1) == p);
    assert(p.dispatch() == p.document_start());
    let t = p.dispatch()->Ok_0;
    lemma_kinds_push(p.tokens, t.tokens.last());
    assert(t.tokens == p.tokens.push(t.tokens.last()));
    t
}

/// The bytes of a marker and of the line break behind it.
pub proof fn lemma_marker_bytes(all: Seq<char>, k: int, c: char)
    requires
        c == '-' || c == '.',
        stands(all, k, seq![c, c, c, '\n']),
    ensures
        k + 3 < all.len(),
        all[k] == c && all[k + 3] == '\n',
        marker_at(encode_utf8(all), off(all, k), c as u8),
        off(all, k + 3) == off(all, k) + 3,
        off(all, k + 3) < encode_utf8(all).len(),
        encode_utf8(all)[off(all, k + 3)] == crate::scanner::chars::LF,
{
    let m = seq![c, c, c, '\n'];
    lemma_stands_char(all, k, m, 0);
    lemma_stands_char(all, k, m, 1);
    lemma_stands_char(all, k, m, 2);
    lemma_stands_char(all, k, m, 3);
    lemma_byte(all, k);
    lemma_byte(all, k + 1);
    lemma_byte(all, k + 2);
    lemma_byte(all, k + 3);
}

/// The marker that ends a document.
pub proof fn lemma_end_marker(p: Scan, all: Seq<char>, k: int, d: nat) -> (t: Scan)
    requires
        at(p, all, k),
        p.in_block(),
        deep(p, d),
        p.cur.column == 0,
        stands(all, k, seq!['.', '.', '.', '\n']),
    ensures
        p.dispatch() == Ok::<Scan, Fail>(t),
        at(t, all, k + 3),
        t.in_block(),
        deep(t, 0),
        kinds_of(t.tokens) == kinds_of(p.tokens) + ends(d).push(TokenKindView::DocumentEnd),
{
    reveal(Scan::dispatch);
    lemma_marker_bytes(all, k, '.');
    lemma_unroll(p, d, 0, -1);
    assert(p.dispatch() == p.document_end());
    let s = Scan { allow: false, ..p.unroll(-1).remove_key() };
    let b = encode_utf8(all);
    let c = s.cur.to(s.cur.offset + 3);
    lemma_run(b, c.offset, Until::NotWhitespace);
    assert(c.run(b, Until::NotWhitespace) == c);
    let t = p.dispatch()->Ok_0;
    lemma_kinds_push(s.tokens, t.tokens.last());
    assert(t.tokens == s.tokens.push(t.tokens.last()));
    assert(kinds_of(t.tokens) =~= kinds_of(p.tokens) + ends(d).push(TokenKindView::DocumentEnd));
    t
}

} // verus!
