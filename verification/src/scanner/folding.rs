//! Line folding: what becomes of the line breaks inside scalars.
use crate::scanner::block::{
    after_header, auto_indent, block_join, block_lines, block_scalar, header, probe, spaces, Header,
    Lines,
};
use crate::scanner::chars::{line_break, LF, SPACE, TAB};
use crate::scanner::cursor::{lemma_run, run_end, stops, Cur, Until};
use crate::scanner::plain::{piece_end, plain, plain_scalar, separator, PlainState};
use crate::scanner::quoted::{
    double_quoted, folded, hex_char, hex_number, hex_run, newlines, single_quoted, skip_blanks,
    skip_dq_blanks, trim_end,
};
use crate::text::{lemma_ascii_boundary, lemma_text_nonempty, text};
use crate::types::{Position, ScalarStyle};
use vstd::prelude::*;
use vstd::utf8::{decode_utf8, valid_utf8};

verus! {

/// `n` times the byte `x`.
pub open spec fn times(x: u8, n: nat) -> Seq<u8> {
    Seq::new(n, |i: int| x)
}

/// Bytes that stand on one line.
pub open spec fn one_line(s: Seq<u8>) -> bool {
    forall|i: int| 0 <= i < s.len() ==> #[trigger] s[i] != 0x0a && s[i] != 0x0d
}

/// What can follow a block scalar: nothing, or a line that starts with neither a space,
/// a tab nor a line break.
pub open spec fn leaves_block(rest: Seq<u8>) -> bool {
    rest.len() > 0 ==> rest[0] != 0x20 && rest[0] != 0x09 && rest[0] != 0x0a && rest[0] != 0x0d
}

/// Spaces from `lo` to `hi`, and none behind.
proof fn lemma_space_run(b: Seq<u8>, lo: int, hi: int)
    requires
        0 <= lo <= hi <= b.len(),
        forall|i: int| lo <= i < hi ==> #[trigger] b[i] == SPACE,
    ensures
        run_end(b, lo, Until::NotSpace) >= hi,
        hi == b.len() || b[hi] != SPACE ==> run_end(b, lo, Until::NotSpace) == hi,
    decreases hi - lo,
{
    lemma_run(b, lo, Until::NotSpace);
    if lo < hi {
        assert(b[lo] == SPACE);
        lemma_space_run(b, lo + 1, hi);
        lemma_run(b, lo + 1, Until::NotSpace);
        assert(run_end(b, lo, Until::NotSpace) == run_end(b, lo + 1, Until::NotSpace));
    }
}

/// No line break from `lo` to `hi`, and one behind.
proof fn lemma_line_run(b: Seq<u8>, lo: int, hi: int)
    requires
        0 <= lo <= hi < b.len(),
        forall|i: int| lo <= i < hi ==> !line_break(#[trigger] b[i]),
        line_break(b[hi]),
    ensures
        run_end(b, lo, Until::Break) == hi,
    decreases hi - lo,
{
    lemma_run(b, lo, Until::Break);
    if lo < hi {
        assert(!line_break(b[lo]));
        lemma_line_run(b, lo + 1, hi);
        assert(run_end(b, lo, Until::Break) == run_end(b, lo + 1, Until::Break));
    }
}

/// The width of the first line with content.
proof fn lemma_probe_spaces(b: Seq<u8>, i: int, e: int, width: nat)
    requires
        0 <= i <= e < b.len(),
        forall|j: int| i <= j < e ==> #[trigger] b[j] == SPACE,
        b[e] != SPACE,
        !line_break(b[e]),
    ensures
        probe(b, i, width, 0) == (e, (width + (e - i)) as nat, 0nat),
    decreases e - i,
{
    if i < e {
        assert(b[i] == SPACE);
        lemma_probe_spaces(b, i + 1, e, width + 1);
    }
}

/// One line of content: `n` spaces, then bytes up to a line feed at `e`.
pub proof fn lemma_content_line(
    b: Seq<u8>,
    c: Cur,
    style: ScalarStyle,
    n: nat,
    acc: Seq<char>,
    breaks: nat,
    prev_more: bool,
    e: int,
)
    requires
        0 <= c.offset,
        0 < n,
        c.offset + n < e < b.len(),
        forall|i: int| c.offset <= i < c.offset + n ==> #[trigger] b[i] == SPACE,
        forall|i: int| c.offset + n <= i < e ==> !line_break(#[trigger] b[i]),
        b[e] == LF,
    ensures
        ({
            let more = b[c.offset + n] == SPACE || b[c.offset + n] == TAB;
            block_lines(b, c, style, n, acc, breaks, prev_more) == block_lines(
                b,
                Cur { offset: e + 1, line: c.line + 1, column: 0 },
                style,
                n,
                acc + block_join(style, acc, breaks, prev_more || more) + text(
                    b,
                    c.offset + n,
                    e,
                ),
                1,
                more,
            )
        }),
{
    assert(b[c.offset] == SPACE);
    lemma_space_run(b, c.offset, c.offset + n);
    assert(spaces(b, c, n) == n);
    assert(!line_break(b[c.offset + n]));
    lemma_line_run(b, c.offset + n, e);
}

/// One empty line.
pub proof fn lemma_empty_line(
    b: Seq<u8>,
    c: Cur,
    style: ScalarStyle,
    n: nat,
    acc: Seq<char>,
    breaks: nat,
    prev_more: bool,
)
    requires
        0 <= c.offset < b.len(),
        0 < n,
        b[c.offset] == LF,
    ensures
        block_lines(b, c, style, n, acc, breaks, prev_more) == block_lines(
            b,
            Cur { offset: c.offset + 1, line: c.line + 1, column: 0 },
            style,
            n,
            acc,
            breaks + 1,
            prev_more,
        ),
{
    lemma_run(b, c.offset, Until::NotSpace);
    assert(stops(Until::NotSpace, b[c.offset]));
    assert(spaces(b, c, n) == 0);
}

/// Some empty lines.
pub proof fn lemma_empty_lines(
    b: Seq<u8>,
    c: Cur,
    style: ScalarStyle,
    n: nat,
    acc: Seq<char>,
    breaks: nat,
    prev_more: bool,
    k: nat,
)
    requires
        0 <= c.offset,
        c.offset + k <= b.len(),
        c.column == 0,
        0 < n,
        forall|i: int| c.offset <= i < c.offset + k ==> #[trigger] b[i] == LF,
    ensures
        block_lines(b, c, style, n, acc, breaks, prev_more) == block_lines(
            b,
            Cur { offset: c.offset + k, line: c.line + k, column: 0 },
            style,
            n,
            acc,
            breaks + k,
            prev_more,
        ),
    decreases k,
{
    if k > 0 {
        assert(b[c.offset] == LF);
        lemma_empty_line(b, c, style, n, acc, breaks, prev_more);
        let d = Cur { offset: c.offset + 1, line: c.line + 1, column: 0 };
        lemma_empty_lines(b, d, style, n, acc, breaks + 1, prev_more, (k - 1) as nat);
    }
}

/// The end of the block.
pub proof fn lemma_block_end(
    b: Seq<u8>,
    c: Cur,
    style: ScalarStyle,
    n: nat,
    acc: Seq<char>,
    breaks: nat,
    prev_more: bool,
)
    requires
        0 <= c.offset <= b.len(),
        0 < n,
        c.offset < b.len() ==> b[c.offset] != SPACE && b[c.offset] != TAB && !line_break(
            b[c.offset],
        ),
    ensures
        block_lines(b, c, style, n, acc, breaks, prev_more) == Ok::<Lines, crate::error::ErrorView>(
            Lines { cur: c, content: acc, breaks },
        ),
{
    lemma_run(b, c.offset, Until::NotSpace);
    if c.offset < b.len() {
        assert(stops(Until::NotSpace, b[c.offset]));
    }
    assert(spaces(b, c, n) == 0);
    assert(c.to(c.offset + 0) == c);
}

/// A header without indicators, at the end of its line.
pub proof fn lemma_bare_header(b: Seq<u8>, c: Cur)
    requires
        0 <= c.offset < b.len(),
        b[c.offset] == LF,
    ensures
        header(b, c) == (Header { cur: c, chomp: 0, explicit: None }),
        after_header(b, c) == (Cur { offset: c.offset + 1, line: c.line + 1, column: 0 }),
{
    lemma_run(b, c.offset, Until::NotWhitespace);
    assert(c.to(c.offset) == c);
}

/// Where the pieces of a block scalar of two lines stand.
proof fn lemma_block_layout(
    pre: Seq<u8>,
    n: nat,
    first: Seq<u8>,
    k: nat,
    second: Seq<u8>,
    rest: Seq<u8>,
)
    requires
        0 < n,
        first.len() > 0,
        second.len() > 0,
        one_line(first),
        one_line(second),
    ensures
        ({
            let b = pre + seq![0x0a] + times(0x20, n) + first + times(0x0a, k + 1) + times(0x20, n)
                + second + seq![0x0a] + rest;
            let p = pre.len() + 1;
            let f = p + n;
            let g = f + first.len();
            let q = g + k + 1;
            let s = q + n;
            let e = s + second.len();
            &&& b.len() == e + 1 + rest.len()
            &&& b[p - 1] == LF
            &&& forall|i: int| p <= i < f ==> #[trigger] b[i] == SPACE
            &&& forall|i: int| f <= i < g ==> !line_break(#[trigger] b[i])
            &&& forall|i: int| g <= i < q ==> #[trigger] b[i] == LF
            &&& forall|i: int| q <= i < s ==> #[trigger] b[i] == SPACE
            &&& forall|i: int| s <= i < e ==> !line_break(#[trigger] b[i])
            &&& b[e as int] == LF
            &&& b[f as int] == first[0]
            &&& b[s as int] == second[0]
            &&& e + 1 < b.len() ==> b[e as int + 1] == rest[0]
            &&& b.subrange(f as int, g as int) == first
            &&& b.subrange(s as int, e as int) == second
        }),
{
    let b = pre + seq![0x0a] + times(0x20, n) + first + times(0x0a, k + 1) + times(0x20, n) + second
        + seq![0x0a] + rest;
    let p = pre.len() + 1;
    let f = p + n;
    let g = f + first.len();
    let q = g + k + 1;
    let s = q + n;
    let e = s + second.len();
    assert forall|i: int| f <= i < g implies !line_break(#[trigger] b[i]) by {
        assert(b[i] == first[i - f]);
    }
    assert forall|i: int| s <= i < e implies !line_break(#[trigger] b[i]) by {
        assert(b[i] == second[i - s]);
    }
    assert(b.subrange(f as int, g as int) =~= first);
    assert(b.subrange(s as int, e as int) =~= second);
}

/// A line break between two lines of a block scalar, with `k` empty lines behind it, both
/// lines indented by `n` spaces. In a literal scalar all line breaks stay. In a folded one
/// a single line break becomes a space, and of several the first one goes; but next to a
/// line that starts with a space or a tab behind its indentation all stay.
#[verifier::rlimit(80)]
pub proof fn law_lines_of_a_block_scalar(
    pre: Seq<u8>,
    n: nat,
    first: Seq<u8>,
    k: nat,
    second: Seq<u8>,
    rest: Seq<u8>,
    c: Cur,
    style: ScalarStyle,
    parent: int,
    start: Position,
)
    requires
        c.offset == pre.len(),
        style is Literal || style is Folded,
        0 < n,
        parent < n,
        first.len() > 0,
        second.len() > 0,
        first[0] != 0x20,
        one_line(first),
        one_line(second),
        leaves_block(rest),
        valid_utf8(
            pre + seq![0x0a] + times(0x20, n) + first + times(0x0a, k + 1) + times(0x20, n) + second
                + seq![0x0a] + rest,
        ),
    ensures
        ({
            let b = pre + seq![0x0a] + times(0x20, n) + first + times(0x0a, k + 1) + times(0x20, n)
                + second + seq![0x0a] + rest;
            let kept = style is Literal || first[0] == 0x09 || second[0] == 0x20 || second[0]
                == 0x09;
            let between = if kept {
                Seq::new(k + 1, |i: int| '\n')
            } else if k == 0 {
                seq![' ']
            } else {
                Seq::new(k, |i: int| '\n')
            };
            &&& block_scalar(b, c, style, parent, start) is Ok
            &&& block_scalar(b, c, style, parent, start)->Ok_0.0.offset == b.len() - rest.len()
            &&& block_scalar(b, c, style, parent, start)->Ok_0.1 == decode_utf8(first) + between
                + decode_utf8(second) + seq!['\n']
        }),
{
    let b = pre + seq![0x0a] + times(0x20, n) + first + times(0x0a, k + 1) + times(0x20, n) + second
        + seq![0x0a] + rest;
    let p = c.offset + 1;
    let f = p + n;
    let g = f + first.len();
    let q = g + k + 1;
    let s = q + n;
    let e = s + second.len();
    lemma_block_layout(pre, n, first, k, second, rest);
    lemma_bare_header(b, c);
    lemma_probe_spaces(b, p, f, 0);
    let body = Cur { offset: p, line: c.line + 1, column: 0 };
    let least = (if parent + 1 > 0 { parent + 1 } else { 0 }) as nat;
    assert(auto_indent(b, body, least) == Ok::<nat, crate::error::ErrorView>(n));
    let none = Seq::<char>::empty();
    lemma_content_line(b, body, style, n, none, 0, false, g);
    let t = text(b, f, g);
    let u = text(b, s, e);
    assert(none + block_join(style, none, 0, first[0] == 0x09) + t =~= t);
    let more = b[f] == TAB;
    let line2 = Cur { offset: g + 1, line: c.line + 2, column: 0 };
    lemma_empty_lines(b, line2, style, n, t, 1, more, k);
    let line3 = Cur { offset: q, line: c.line + 2 + k, column: 0 };
    let more2 = b[s] == SPACE || b[s] == TAB;
    lemma_content_line(b, line3, style, n, t, k + 1, more, e);
    let acc = t + block_join(style, t, k + 1, more || more2) + u;
    let last = Cur { offset: e + 1, line: c.line + 3 + k, column: 0 };
    lemma_block_end(b, last, style, n, acc, 1, more2);
    lemma_ascii_boundary(b, f - 1);
    lemma_ascii_boundary(b, g);
    lemma_text_nonempty(b, f, g);
    assert(newlines(k + 1) =~= Seq::new(k + 1, |i: int| '\n'));
    assert(newlines(k) =~= Seq::new(k, |i: int| '\n'));
    assert(newlines(1) =~= seq!['\n']);
    assert(acc.push('\n') =~= acc + seq!['\n']);
}

// ─── Quoted and plain scalars ───────────────────────────────────────

/// Bytes of a word: none that ends a piece of a scalar, in whatever style.
pub open spec fn word(s: Seq<u8>) -> bool {
    s.len() > 0 && forall|i: int|
        0 <= i < s.len() ==> {
            let x = #[trigger] s[i];
            x != 0x20 && x != 0x09 && x != 0x0a && x != 0x0d && x != 0x22 && x != 0x27 && x != 0x5c
                && x != 0x23 && x != 0x3a && x != 0x2c && x != 0x5b && x != 0x5d && x != 0x7b && x
                != 0x7d
        }
}

/// Two words on two lines: `k` empty lines between them, and `m` spaces in front of the
/// second one.
pub open spec fn two_lines(
    pre: Seq<u8>,
    first: Seq<u8>,
    k: nat,
    m: nat,
    second: Seq<u8>,
    tail: Seq<u8>,
) -> Seq<u8> {
    pre + first + times(0x0a, k + 1) + times(0x20, m) + second + tail
}

/// What the line breaks between two lines become: a space, or a line feed for each empty
/// line.
pub open spec fn folded_break(k: nat) -> Seq<char> {
    if k == 0 {
        seq![' ']
    } else {
        Seq::new(k, |i: int| '\n')
    }
}

proof fn lemma_two_lines(
    pre: Seq<u8>,
    first: Seq<u8>,
    k: nat,
    m: nat,
    second: Seq<u8>,
    tail: Seq<u8>,
)
    ensures
        ({
            let b = two_lines(pre, first, k, m, second, tail);
            let f = pre.len() as int;
            let g = f + first.len();
            let q = g + k + 1;
            let s = q + m;
            let e = s + second.len();
            &&& b.len() == e + tail.len()
            &&& forall|i: int| f <= i < g ==> #[trigger] b[i] == first[i - f]
            &&& forall|i: int| g <= i < q ==> #[trigger] b[i] == LF
            &&& forall|i: int| q <= i < s ==> #[trigger] b[i] == SPACE
            &&& forall|i: int| s <= i < e ==> #[trigger] b[i] == second[i - s]
            &&& forall|i: int| e <= i < b.len() ==> #[trigger] b[i] == tail[i - e]
            &&& b.subrange(f, g) == first
            &&& b.subrange(s, e) == second
        }),
{
    let b = two_lines(pre, first, k, m, second, tail);
    let f = pre.len() as int;
    let g = f + first.len();
    let s = g + k + 1 + m;
    let e = s + second.len();
    assert(b.subrange(f, g) =~= first);
    assert(b.subrange(s, e) =~= second);
}

/// A run over bytes that do not stop it.
proof fn lemma_run_over(b: Seq<u8>, lo: int, hi: int, u: Until)
    requires
        0 <= lo <= hi < b.len(),
        forall|i: int| lo <= i < hi ==> !stops(u, #[trigger] b[i]),
        stops(u, b[hi]),
    ensures
        run_end(b, lo, u) == hi,
    decreases hi - lo,
{
    lemma_run(b, lo, u);
    if lo < hi {
        assert(!stops(u, b[lo]));
        lemma_run_over(b, lo + 1, hi, u);
        assert(run_end(b, lo, u) == run_end(b, lo + 1, u));
    }
}

/// Line breaks and spaces are skipped in a single-quoted scalar.
proof fn lemma_blanks_skipped(b: Seq<u8>, c: Cur, q: int, s: int, n: nat)
    requires
        0 <= c.offset <= q <= s < b.len(),
        forall|i: int| c.offset <= i < q ==> #[trigger] b[i] == LF,
        forall|i: int| q <= i < s ==> #[trigger] b[i] == SPACE,
        !line_break(b[s]),
        !crate::scanner::chars::whitespace(b[s]),
        q < s,
        c.offset < q || c.column == 0,
    ensures
        ({
            let (d, k) = skip_blanks(b, c, n);
            d.offset == s && k == n + (q - c.offset) && (c.column == 0 ==> d.column == s - q)
        }),
    decreases s - c.offset,
{
    if c.offset < q {
        assert(b[c.offset] == LF);
        lemma_blanks_skipped(b, c.newline(b), q, s, n + 1);
    } else {
        lemma_spaces_skipped(b, c, s, n);
    }
}

proof fn lemma_spaces_skipped(b: Seq<u8>, c: Cur, s: int, n: nat)
    requires
        0 <= c.offset <= s < b.len(),
        forall|i: int| c.offset <= i < s ==> #[trigger] b[i] == SPACE,
        !line_break(b[s]),
        !crate::scanner::chars::whitespace(b[s]),
    ensures
        skip_blanks(b, c, n) == (c.to(s), n),
    decreases s - c.offset,
{
    if c.offset < s {
        assert(b[c.offset] == SPACE);
        lemma_spaces_skipped(b, c.to(c.offset + 1), s, n);
        assert(c.to(c.offset + 1).to(s) == c.to(s));
    } else {
        assert(c.to(s) == c);
    }
}

/// A line break in a single-quoted scalar becomes a space, and with `k` empty lines behind
/// it `k` line feeds.
pub proof fn law_single_quoted_folds(
    pre: Seq<u8>,
    first: Seq<u8>,
    k: nat,
    m: nat,
    second: Seq<u8>,
    rest: Seq<u8>,
    c: Cur,
    start: Position,
)
    requires
        c.offset == pre.len(),
        word(first),
        word(second),
        0 < m,
        rest.len() == 0 || rest[0] != 0x27,
        decode_utf8(first).len() > 0,
        decode_utf8(first).last() != ' ',
        decode_utf8(first).last() != '\t',
    ensures
        ({
            let b = two_lines(pre, first, k, m, second, seq![0x27] + rest);
            single_quoted(b, c, seq![], start) matches Ok((d, v)) && v == decode_utf8(first)
                + folded_break(k) + decode_utf8(second) && d.offset == b.len() - rest.len()
        }),
{
    let tail = seq![0x27u8] + rest;
    let b = two_lines(pre, first, k, m, second, tail);
    lemma_two_lines(pre, first, k, m, second, tail);
    let f = pre.len() as int;
    let g = f + first.len();
    let q = g + k + 1;
    let s = q + m;
    let e = s + second.len();
    assert(b[f] == first[0] && b[g] == LF && b[s] == second[0]);
    assert(b[e] == tail[0] && tail[0] == 0x27);
    assert(e + 1 < b.len() ==> b[e + 1] == tail[1] && tail[1] == rest[0]);
    lemma_run_over(b, f, g, Until::SingleQuoted);
    lemma_run_over(b, s, e, Until::SingleQuoted);
    let none = Seq::<char>::empty();
    let c1 = c.to(g);
    let t = text(b, f, g);
    assert(none + t =~= t);
    assert(single_quoted(b, c, none, start) == single_quoted(b, c1, t, start));
    lemma_blanks_skipped(b, c1.newline(b), q, s, 0);
    let (d, n) = skip_blanks(b, c1.newline(b), 0);
    assert(trim_end(t) == t);
    let acc = t + folded(n);
    assert(single_quoted(b, c1, t, start) == single_quoted(b, d, acc, start));
    let all = acc + text(b, s, e);
    assert(single_quoted(b, d, acc, start) == single_quoted(b, d.to(e), all, start));
    assert(newlines(k) =~= Seq::new(k, |i: int| '\n'));
}

/// Line breaks and spaces are skipped in a double-quoted scalar.
proof fn lemma_dq_skipped(
    b: Seq<u8>,
    c: Cur,
    q: int,
    s: int,
    n: nat,
    from: Option<int>,
    start: Position,
)
    requires
        0 <= c.offset <= q <= s < b.len(),
        forall|i: int| c.offset <= i < q ==> #[trigger] b[i] == LF,
        forall|i: int| q <= i < s ==> #[trigger] b[i] == SPACE,
        !line_break(b[s]),
        !crate::scanner::chars::whitespace(b[s]),
    ensures
        skip_dq_blanks(b, c, n, from, start) matches Ok((d, k)) && d.offset == s && k == n + (
        if c.offset < q {
            q - c.offset
        } else {
            0
        }) && (c.offset < q ==> d.column == s - q) && (c.offset >= q ==> d.column == c.column + (s
            - c.offset)),
    decreases s - c.offset,
{
    if c.offset < q {
        assert(b[c.offset] == LF);
        lemma_dq_skipped(b, c.newline(b), q, s, n + 1, from, start);
    } else if c.offset < s {
        assert(b[c.offset] == SPACE);
        lemma_dq_spaces(b, c, s, n, from, start);
    }
}

proof fn lemma_dq_spaces(b: Seq<u8>, c: Cur, s: int, n: nat, from: Option<int>, start: Position)
    requires
        0 <= c.offset <= s < b.len(),
        forall|i: int| c.offset <= i < s ==> #[trigger] b[i] == SPACE,
        !line_break(b[s]),
        !crate::scanner::chars::whitespace(b[s]),
    ensures
        skip_dq_blanks(b, c, n, from, start) == Ok::<(Cur, nat), crate::error::ErrorView>(
            (c.to(s), n),
        ),
    decreases s - c.offset,
{
    if c.offset < s {
        assert(b[c.offset] == SPACE);
        lemma_dq_spaces(b, c.to(c.offset + 1), s, n, from, start);
        assert(c.to(c.offset + 1).to(s) == c.to(s));
    } else {
        assert(c.to(s) == c);
    }
}

/// A line break in a double-quoted scalar becomes a space, and with `k` empty lines behind
/// it `k` line feeds.
pub proof fn law_double_quoted_folds(
    pre: Seq<u8>,
    first: Seq<u8>,
    k: nat,
    m: nat,
    second: Seq<u8>,
    rest: Seq<u8>,
    c: Cur,
    from: Option<int>,
    start: Position,
)
    requires
        c.offset == pre.len(),
        word(first),
        word(second),
        0 < m,
        from matches Some(j) ==> j <= m,
    ensures
        ({
            let b = two_lines(pre, first, k, m, second, seq![0x22] + rest);
            double_quoted(b, c, seq![], seq![], from, start) matches Ok((d, v)) && v == decode_utf8(
                first,
            ) + folded_break(k) + decode_utf8(second) && d.offset == b.len() - rest.len()
        }),
{
    let tail = seq![0x22u8] + rest;
    let b = two_lines(pre, first, k, m, second, tail);
    lemma_two_lines(pre, first, k, m, second, tail);
    let f = pre.len() as int;
    let g = f + first.len();
    let q = g + k + 1;
    let s = q + m;
    let e = s + second.len();
    assert(b[f] == first[0] && b[g] == LF && b[s] == second[0]);
    assert(b[e] == tail[0] && tail[0] == 0x22);
    lemma_run_over(b, f, g, Until::DoubleQuoted);
    lemma_run_over(b, s, e, Until::DoubleQuoted);
    let none = Seq::<char>::empty();
    let c1 = c.to(g);
    let t = text(b, f, g);
    assert(none + none + t =~= t);
    assert(double_quoted(b, c, none, none, from, start) == double_quoted(
        b,
        c1,
        t,
        none,
        from,
        start,
    ));
    lemma_dq_skipped(b, c1.newline(b), q, s, 0, from, start);
    let (d, n) = skip_dq_blanks(b, c1.newline(b), 0, from, start)->Ok_0;
    assert(n == k && d.column == m);
    let acc = t + folded(n);
    assert(double_quoted(b, c1, t, none, from, start) == double_quoted(
        b,
        d,
        acc,
        none,
        from,
        start,
    ));
    let all = acc + text(b, s, e);
    assert(acc + none + text(b, s, e) =~= all);
    assert(double_quoted(b, d, acc, none, from, start) == double_quoted(
        b,
        d.to(e),
        all,
        none,
        from,
        start,
    ));
    assert(all + none =~= all);
    assert(newlines(k) =~= Seq::new(k, |i: int| '\n'));
}

/// A backslash in front of a line break in a double-quoted scalar joins the two lines, and
/// the spaces in front of the second one go.
pub proof fn law_escaped_line_break_joins(
    pre: Seq<u8>,
    first: Seq<u8>,
    m: nat,
    second: Seq<u8>,
    rest: Seq<u8>,
    c: Cur,
    from: Option<int>,
    start: Position,
)
    requires
        c.offset == pre.len(),
        word(first),
        word(second),
    ensures
        ({
            let b = pre + first + seq![0x5c, 0x0a] + times(0x20, m) + second + seq![0x22] + rest;
            double_quoted(b, c, seq![], seq![], from, start) matches Ok((d, v)) && v == decode_utf8(
                first,
            ) + decode_utf8(second)
        }),
{
    let b = pre + first + seq![0x5c, 0x0a] + times(0x20, m) + second + seq![0x22] + rest;
    let f = pre.len() as int;
    let g = f + first.len();
    let q = g + 2;
    let s = q + m;
    let e = s + second.len();
    assert forall|i: int| f <= i < g implies #[trigger] b[i] == first[i - f] by {}
    assert forall|i: int| q <= i < s implies #[trigger] b[i] == SPACE by {}
    assert forall|i: int| s <= i < e implies #[trigger] b[i] == second[i - s] by {}
    assert(b[f] == first[0] && b[g] == 0x5c && b[g + 1] == LF && b[s] == second[0] && b[e] == 0x22);
    assert(b.subrange(f, g) =~= first);
    assert(b.subrange(s, e) =~= second);
    lemma_run_over(b, f, g, Until::DoubleQuoted);
    lemma_run_over(b, s, e, Until::DoubleQuoted);
    lemma_run_over(b, q, s, Until::NotWhitespace);
    let none = Seq::<char>::empty();
    let c1 = c.to(g);
    let t = text(b, f, g);
    assert(none + none + t =~= t);
    assert(double_quoted(b, c, none, none, from, start) == double_quoted(
        b,
        c1,
        t,
        none,
        from,
        start,
    ));
    let d = c1.to(g + 1).newline(b).run(b, Until::NotWhitespace);
    assert(d.offset == s);
    assert(t + none =~= t);
    assert(double_quoted(b, c1, t, none, from, start) == double_quoted(b, d, t, none, from, start));
    let all = t + text(b, s, e);
    assert(t + none + text(b, s, e) =~= all);
    assert(double_quoted(b, d, t, none, from, start) == double_quoted(
        b,
        d.to(e),
        all,
        none,
        from,
        start,
    ));
    assert(all + none =~= all);
}

/// The characters that follow a backslash, and what each stands for.
pub open spec fn escape_pair(x: u8, ch: char) -> bool {
    ||| x == 0x30 && ch == '\0'
    ||| x == 0x61 && ch == '\x07'
    ||| x == 0x62 && ch == '\x08'
    ||| x == 0x74 && ch == '\t'
    ||| x == 0x09 && ch == '\t'
    ||| x == 0x6e && ch == '\n'
    ||| x == 0x76 && ch == '\x0b'
    ||| x == 0x66 && ch == '\x0c'
    ||| x == 0x72 && ch == '\r'
    ||| x == 0x65 && ch == '\x1b'
    ||| x == 0x20 && ch == ' '
    ||| x == 0x22 && ch == '"'
    ||| x == 0x2f && ch == '/'
    ||| x == 0x5c && ch == '\\'
    ||| x == 0x4e && ch == '\u{85}'
    ||| x == 0x5f && ch == '\u{a0}'
    ||| x == 0x4c && ch == '\u{2028}'
    ||| x == 0x50 && ch == '\u{2029}'
}

/// What each escape of one letter in a double-quoted scalar stands for.
pub proof fn law_escapes(
    b: Seq<u8>,
    c: Cur,
    x: u8,
    ch: char,
    from: Option<int>,
    start: Position,
)
    requires
        0 <= c.offset,
        c.offset + 2 < b.len(),
        b[c.offset] == 0x5c,
        b[c.offset + 1] == x,
        b[c.offset + 2] == 0x22,
        escape_pair(x, ch),
    ensures
        double_quoted(b, c, seq![], seq![], from, start) matches Ok((d, v)) && v == seq![ch]
            && d.offset == c.offset + 3,
{
    let none = Seq::<char>::empty();
    let d = c.to(c.offset + 1).to(c.offset + 2);
    let one = (none + none).push(ch);
    assert(one =~= seq![ch]);
    assert(double_quoted(b, c, none, none, from, start) == double_quoted(
        b,
        d,
        one,
        none,
        from,
        start,
    ));
    assert(one + none =~= one);
}

/// The value of a hexadecimal digit, in letters of either case.
pub open spec fn digit_value(x: u8) -> int {
    if x <= 0x39 {
        x - 0x30
    } else if x <= 0x46 {
        x - 0x37
    } else {
        x - 0x57
    }
}

/// A backslash and `x` in front of two hexadecimal digits stand for the character with
/// that number.
pub proof fn law_hexadecimal_escape(b: Seq<u8>, c: Cur, from: Option<int>, start: Position)
    requires
        0 <= c.offset,
        c.offset + 4 < b.len(),
        b[c.offset] == 0x5c,
        b[c.offset + 1] == 0x78,
        forall|i: int|
            c.offset + 2 <= i < c.offset + 4 ==> 0x30 <= #[trigger] b[i] <= 0x39 || 0x41 <= b[i]
                <= 0x46 || 0x61 <= b[i] <= 0x66,
        b[c.offset + 4] == 0x22,
    ensures
        double_quoted(b, c, seq![], seq![], from, start) matches Ok((d, v)) && v.len() == 1
            && v[0] as u32 == 16 * digit_value(b[c.offset + 2]) + digit_value(b[c.offset + 3]),
{
    let none = Seq::<char>::empty();
    let h = c.offset + 2;
    assert(0x30 <= b[h] <= 0x66 && 0x30 <= b[h + 1] <= 0x66);
    reveal_with_fuel(hex_run, 3);
    reveal_with_fuel(hex_number, 3);
    let code = hex_number(b, h, 2);
    assert(code == 16 * digit_value(b[h]) + digit_value(b[h + 1]));
    let e = c.to(c.offset + 1);
    assert(hex_char(b, e.to(h), 2, start) == Ok::<(Cur, char), crate::error::ErrorView>(
        (e.to(h).to(h + 2), code as char),
    ));
    let one = (none + none).push(code as char);
    assert(double_quoted(b, c, none, none, from, start) == double_quoted(
        b,
        e.to(h).to(h + 2),
        one,
        none,
        from,
        start,
    ));
    assert(one + none =~= one);
}

/// A line break in a plain scalar becomes a space, and with `k` empty lines behind it `k`
/// line feeds. In block context the second line is indented past what surrounds it.
pub proof fn law_plain_folds(
    pre: Seq<u8>,
    first: Seq<u8>,
    k: nat,
    m: nat,
    second: Seq<u8>,
    rest: Seq<u8>,
    c: Cur,
    in_flow: bool,
    indent: int,
)
    requires
        c.offset == pre.len(),
        c.column > 0 || first[0] != 0x2d && first[0] != 0x2e,
        word(first),
        word(second),
        0 < m,
        indent < m,
    ensures
        ({
            let b = two_lines(pre, first, k, m, second, seq![0x3a, 0x20] + rest);
            plain_scalar(b, c, in_flow, indent).content == decode_utf8(first) + folded_break(k)
                + decode_utf8(second)
        }),
{
    let tail = seq![0x3au8, 0x20u8] + rest;
    let b = two_lines(pre, first, k, m, second, tail);
    lemma_two_lines(pre, first, k, m, second, tail);
    let f = pre.len() as int;
    let g = f + first.len();
    let q = g + k + 1;
    let s = q + m;
    let e = s + second.len();
    assert(b[f] == first[0] && b[g] == LF && b[s] == second[0]);
    assert(b[e] == tail[0] && b[e + 1] == tail[1]);
    let u = if in_flow {
        Until::PlainFlow
    } else {
        Until::PlainBlock
    };
    lemma_run_over(b, f, g, u);
    lemma_run_over(b, s, e, u);
    let none = Seq::<char>::empty();
    let s0 = PlainState {
        cur: c,
        content: none,
        ws: none,
        lead: false,
        trail: 0,
        end: f,
        last_line: c.line,
    };
    let t = text(b, f, g);
    assert(none + none + t =~= t);
    let s1 = PlainState {
        cur: c.to(g),
        content: t,
        ws: none,
        lead: false,
        trail: 0,
        end: g,
        last_line: c.line,
    };
    assert(plain(b, s0, in_flow, indent) == plain(b, s1, in_flow, indent));
    let s2 = lemma_plain_breaks(b, s1, q, s, in_flow, indent);
    let s3 = PlainState {
        cur: s2.cur.to(e),
        content: t + folded(k) + text(b, s, e),
        ws: none,
        lead: false,
        trail: 0,
        end: e,
        last_line: s2.cur.line,
    };
    assert(plain(b, s2, in_flow, indent) == plain(b, s3, in_flow, indent));
    assert(plain(b, s3, in_flow, indent) == s3);
    assert(newlines(k) =~= Seq::new(k, |i: int| '\n'));
}

/// The line breaks between two lines of a plain scalar are counted.
proof fn lemma_plain_breaks(b: Seq<u8>, p: PlainState, q: int, s: int, in_flow: bool, indent: int) -> (r:
    PlainState)
    requires
        0 <= p.cur.offset < q < s < b.len(),
        p.end <= p.cur.offset,
        forall|i: int| p.cur.offset <= i < q ==> #[trigger] b[i] == LF,
        forall|i: int| q <= i < s ==> #[trigger] b[i] == SPACE,
        b[s] != SPACE,
        !line_break(b[s]),
        indent < s - q,
    ensures
        plain(b, p, in_flow, indent) == plain(b, r, in_flow, indent),
        r.cur.offset == s,
        r.cur.column == s - q,
        r.lead,
        r.trail == (if p.lead {
            p.trail + 1
        } else {
            0
        }) + (q - p.cur.offset - 1),
        r.content == p.content,
        r.end == p.end,
    decreases q - p.cur.offset,
{
    let c = p.cur;
    assert(b[c.offset] == LF);
    let line = c.newline(b);
    let n = line.run(b, Until::NotSpace);
    let next = PlainState {
        cur: n,
        ws: seq![],
        lead: true,
        trail: if p.lead {
            p.trail + 1
        } else {
            0
        },
        ..p
    };
    if c.offset + 1 < q {
        assert(b[c.offset + 1] == LF);
        lemma_run(b, line.offset, Until::NotSpace);
        assert(n == line.to(line.offset));
        assert(n.sees_break(b));
        assert(plain(b, p, in_flow, indent) == plain(b, next, in_flow, indent));
        lemma_plain_breaks(b, next, q, s, in_flow, indent)
    } else {
        lemma_run_over(b, q, s, Until::NotSpace);
        assert(plain(b, p, in_flow, indent) == plain(b, next, in_flow, indent));
        next
    }
}

/// A line break is one of line feed, carriage return, and carriage return with a line feed
/// behind it; whichever it is, what follows stands on the next line.
pub proof fn law_line_break_is_passed(b: Seq<u8>, c: Cur)
    requires
        0 <= c.offset < b.len(),
    ensures
        c.sees_break(b) <==> b[c.offset] == 0x0a || b[c.offset] == 0x0d,
        c.newline(b).offset == c.offset + (if b[c.offset] == 0x0d && c.offset + 1 < b.len()
            && b[c.offset + 1] == 0x0a {
            2int
        } else {
            1int
        }),
        c.newline(b).line == c.line + 1,
        c.newline(b).column == 0,
{
}

/// A header with one indicator, at the end of its line.
proof fn lemma_indicator(b: Seq<u8>, c: Cur)
    requires
        0 <= c.offset,
        c.offset + 1 < b.len(),
        b[c.offset + 1] == LF,
        b[c.offset] == 0x2b || b[c.offset] == 0x2d || 0x31 <= b[c.offset] <= 0x39,
    ensures
        header(b, c) == (Header {
            cur: c.to(c.offset + 1),
            chomp: if b[c.offset] == 0x2b {
                1int
            } else if b[c.offset] == 0x2d {
                -1int
            } else {
                0int
            },
            explicit: if 0x31 <= b[c.offset] <= 0x39 {
                Some((b[c.offset] - 0x30) as nat)
            } else {
                None
            },
        }),
        after_header(b, c.to(c.offset + 1)) == (Cur {
            offset: c.offset + 2,
            line: c.line + 1,
            column: 0,
        }),
{
    let one = Header { cur: c, chomp: 0, explicit: None }.step(b);
    assert(one.step(b) == one);
    lemma_bare_header(b, c.to(c.offset + 1));
}

/// The end of a block scalar: of one line with `k` empty lines behind it, `-` keeps no line
/// break, no indicator keeps one, and `+` keeps them all.
pub proof fn law_end_of_a_block_scalar(
    pre: Seq<u8>,
    indicator: Seq<u8>,
    n: nat,
    line: Seq<u8>,
    k: nat,
    rest: Seq<u8>,
    c: Cur,
    style: ScalarStyle,
    parent: int,
    start: Position,
)
    requires
        c.offset == pre.len(),
        indicator.len() == 0 || indicator == seq![0x2bu8] || indicator == seq![0x2du8],
        0 < n,
        parent < n,
        line.len() > 0,
        line[0] != 0x20,
        one_line(line),
        leaves_block(rest),
        valid_utf8(
            pre + indicator + seq![0x0a] + times(0x20, n) + line + times(0x0a, k + 1) + rest,
        ),
    ensures
        ({
            let b = pre + indicator + seq![0x0a] + times(0x20, n) + line + times(0x0a, k + 1) + rest;
            let kept: nat = if indicator.len() == 0 {
                1
            } else if indicator[0] == 0x2b {
                k + 1
            } else {
                0
            };
            block_scalar(b, c, style, parent, start) matches Ok((d, v)) && v == decode_utf8(line)
                + Seq::new(kept, |i: int| '\n') && d.offset == b.len() - rest.len()
        }),
{
    let b = pre + indicator + seq![0x0a] + times(0x20, n) + line + times(0x0a, k + 1) + rest;
    let h = c.offset + indicator.len();
    let p = h + 1;
    let f = p + n;
    let g = f + line.len();
    let q = g + k + 1;
    assert(b[h] == LF);
    assert forall|i: int| p <= i < f implies #[trigger] b[i] == SPACE by {}
    assert forall|i: int| f <= i < g implies !line_break(#[trigger] b[i]) by {
        assert(b[i] == line[i - f]);
    }
    assert forall|i: int| g <= i < q implies #[trigger] b[i] == LF by {}
    assert(b[f] == line[0] && b[g] == LF);
    assert(q < b.len() ==> b[q] == rest[0]);
    assert(b.subrange(f, g) =~= line);
    if indicator.len() == 0 {
        lemma_bare_header(b, c);
    } else {
        assert(b[c.offset] == indicator[0]);
        lemma_indicator(b, c);
    }
    let body = Cur { offset: p, line: c.line + 1, column: 0 };
    lemma_probe_spaces(b, p, f, 0);
    let least = (if parent + 1 > 0 { parent + 1 } else { 0 }) as nat;
    assert(auto_indent(b, body, least) == Ok::<nat, crate::error::ErrorView>(n));
    let none = Seq::<char>::empty();
    lemma_content_line(b, body, style, n, none, 0, false, g);
    let t = text(b, f, g);
    let more = b[f] == TAB;
    assert(none + block_join(style, none, 0, more) + t =~= t);
    let next = Cur { offset: g + 1, line: c.line + 2, column: 0 };
    lemma_empty_lines(b, next, style, n, t, 1, more, k);
    let last = Cur { offset: q, line: c.line + 2 + k, column: 0 };
    lemma_block_end(b, last, style, n, t, 1 + k, more);
    lemma_ascii_boundary(b, f - 1);
    lemma_ascii_boundary(b, g);
    lemma_text_nonempty(b, f, g);
    assert(newlines(k + 1) =~= Seq::new(k + 1, |i: int| '\n'));
    assert(t.push('\n') =~= t + Seq::new(1, |i: int| '\n'));
    assert(t =~= t + Seq::new(0, |i: int| '\n'));
}

/// A digit behind `|` or `>` says how far the lines are indented past what surrounds them:
/// further spaces belong to the value.
pub proof fn law_indentation_indicator(
    pre: Seq<u8>,
    digit: u8,
    j: nat,
    line: Seq<u8>,
    rest: Seq<u8>,
    c: Cur,
    style: ScalarStyle,
    parent: int,
    start: Position,
)
    requires
        c.offset == pre.len(),
        0x31 <= digit <= 0x39,
        line.len() > 0,
        one_line(line),
        leaves_block(rest),
        ({
            let n = ((if parent > 0 { parent } else { 0 }) + (digit - 0x30)) as nat;
            valid_utf8(
                pre + seq![digit, 0x0a] + times(0x20, n) + (times(0x20, j) + line) + seq![0x0a]
                    + rest,
            )
        }),
    ensures
        ({
            let n = ((if parent > 0 { parent } else { 0 }) + (digit - 0x30)) as nat;
            let b = pre + seq![digit, 0x0a] + times(0x20, n) + (times(0x20, j) + line) + seq![0x0a]
                + rest;
            block_scalar(b, c, style, parent, start) matches Ok((d, v)) && v == decode_utf8(
                times(0x20, j) + line,
            ) + seq!['\n']
        }),
{
    let n = ((if parent > 0 { parent } else { 0 }) + (digit - 0x30)) as nat;
    let whole = times(0x20, j) + line;
    let b = pre + seq![digit, 0x0a] + times(0x20, n) + whole + seq![0x0a] + rest;
    let p = c.offset + 2;
    let f = p + n;
    let g = f + whole.len();
    assert(b[c.offset] == digit && b[c.offset + 1] == LF);
    assert forall|i: int| p <= i < f implies #[trigger] b[i] == SPACE by {}
    assert forall|i: int| f <= i < g implies !line_break(#[trigger] b[i]) by {
        assert(b[i] == whole[i - f]);
        if i - f >= j {
            assert(whole[i - f] == line[i - f - j]);
        }
    }
    assert(b[g] == LF);
    assert(g + 1 < b.len() ==> b[g + 1] == rest[0]);
    assert(b.subrange(f, g) =~= whole);
    lemma_indicator(b, c);
    let body = Cur { offset: p, line: c.line + 1, column: 0 };
    let none = Seq::<char>::empty();
    lemma_content_line(b, body, style, n, none, 0, false, g);
    let t = text(b, f, g);
    let more = b[f] == SPACE || b[f] == TAB;
    assert(none + block_join(style, none, 0, more) + t =~= t);
    let last = Cur { offset: g + 1, line: c.line + 2, column: 0 };
    lemma_block_end(b, last, style, n, t, 1, more);
    lemma_ascii_boundary(b, f - 1);
    lemma_ascii_boundary(b, g);
    lemma_text_nonempty(b, f, g);
    assert(t.push('\n') =~= t + seq!['\n']);
}

/// A plain scalar goes on behind a `:` or a `#` that a word follows and a word precedes, and
/// behind spaces in front of a word; it ends in front of a `:` that a space follows, and in
/// front of a `#` that a space precedes.
pub proof fn law_plain_goes_on(
    pre: Seq<u8>,
    first: Seq<u8>,
    mid: Seq<u8>,
    second: Seq<u8>,
    tail: Seq<u8>,
    rest: Seq<u8>,
    c: Cur,
    in_flow: bool,
    indent: int,
)
    requires
        c.offset == pre.len(),
        0 <= c.column,
        c.column > 0 || first[0] != 0x2d && first[0] != 0x2e,
        word(first),
        word(second),
        mid == seq![0x3au8] || mid == seq![0x23u8] || mid == seq![0x20u8],
        tail == seq![0x3au8, 0x20u8] || tail == seq![0x20u8, 0x23u8],
        valid_utf8(pre + first + mid + second + tail + rest),
        crate::text::at_boundary(pre + first + mid + second + tail + rest, pre.len() as int),
    ensures
        ({
            let b = pre + first + mid + second + tail + rest;
            let s = plain_scalar(b, c, in_flow, indent);
            &&& s.content == decode_utf8(first) + decode_utf8(mid) + decode_utf8(second)
            &&& s.end == b.len() - rest.len() - tail.len()
        }),
{
    let b = pre + first + mid + second + tail + rest;
    let f = pre.len() as int;
    let g = f + first.len();
    let s = g + 1;
    let e = s + second.len();
    assert forall|i: int| f <= i < g implies #[trigger] b[i] == first[i - f] by {}
    assert forall|i: int| s <= i < e implies #[trigger] b[i] == second[i - s] by {}
    assert(b[f] == first[0] && b[g] == mid[0] && b[s] == second[0]);
    assert(b[e] == tail[0] && b[e + 1] == tail[1]);
    assert(b.subrange(f, g) =~= first);
    assert(b.subrange(g, s) =~= mid);
    assert(b.subrange(s, e) =~= second);
    let u = if in_flow {
        Until::PlainFlow
    } else {
        Until::PlainBlock
    };
    lemma_run_over(b, f, g, u);
    lemma_run_over(b, s, e, u);
    lemma_ascii_boundary(b, g);
    lemma_text_nonempty(b, f, g);
    crate::text::lemma_text_ascii(b, g);
    let none = Seq::<char>::empty();
    let s0 = PlainState {
        cur: c,
        content: none,
        ws: none,
        lead: false,
        trail: 0,
        end: f,
        last_line: c.line,
    };
    let t = text(b, f, g);
    assert(none + none + t =~= t);
    let s1 = PlainState {
        cur: c.to(g),
        content: t,
        ws: none,
        lead: false,
        trail: 0,
        end: g,
        last_line: c.line,
    };
    assert(plain(b, s0, in_flow, indent) == plain(b, s1, in_flow, indent));
    let m = text(b, g, s);
    let s2 = if mid[0] == 0x20 {
        PlainState { cur: c.to(g).to(g + 1), ws: none.push(' '), ..s1 }
    } else {
        PlainState { cur: c.to(g).to(g + 1), content: t + none + m, end: s, ..s1 }
    };
    if mid[0] != 0x20 {
        lemma_run(b, g, u);
        assert(piece_end(b, g, in_flow) == g + 1);
    }
    assert(plain(b, s1, in_flow, indent) == plain(b, s2, in_flow, indent));
    assert(m =~= seq![b[g] as char]);
    let s3 = PlainState {
        cur: s2.cur.to(e),
        content: t + m + text(b, s, e),
        ws: none,
        lead: false,
        trail: 0,
        end: e,
        last_line: c.line,
    };
    assert(s2.content + separator(s2) + text(b, s, e) =~= t + m + text(b, s, e));
    assert(plain(b, s2, in_flow, indent) == plain(b, s3, in_flow, indent));
    if tail[0] == 0x20 {
        let s4 = PlainState { cur: s3.cur.to(e + 1), ws: none.push(' '), ..s3 };
        assert(plain(b, s3, in_flow, indent) == plain(b, s4, in_flow, indent));
        assert(plain(b, s4, in_flow, indent) == s4);
    } else {
        assert(plain(b, s3, in_flow, indent) == s3);
    }
}

} // verus!
