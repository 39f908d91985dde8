//! Literal scalars: their lines as they are written, and that a scanner reads them back.
use crate::emitter::roundtrip::{lemma_ascii_byte, lemma_char_bytes, lemma_nonempty};
use crate::emitter::scalar::{blanks, block_text, chomp_indicator, padded_lines};
use crate::readback::scan::{
    at, kinds_of, lemma_byte, lemma_kinds_push, lemma_off, lemma_off_end, lemma_stands,
    lemma_stands_char, lemma_text_off, off, stands,
};
use crate::readback::tokens::{lemma_spaced, spaced};
use crate::scanner::block::{
    after_header, auto_indent, block_lines, block_scalar, header, probe, spaces, Header, Lines,
};
use crate::scanner::chars::{line_break, CR, DASH, LF, SPACE, TAB};
use crate::scanner::cursor::{lemma_run, run_end, Cur, Until};
use crate::scanner::folding::{lemma_bare_header, lemma_content_line, lemma_empty_line, lemma_empty_lines};
use crate::scanner::model::{Fail, Scan};
use crate::scanner::quoted::newlines;
use crate::scanner::token::TokenKindView;
use crate::types::{Position, ScalarStyle};
use vstd::prelude::*;
use vstd::utf8::*;

verus! {

/// A text that is read back as a literal scalar: with a line feed in it, but neither two
/// at its end nor one alone, without carriage returns, and with no line that starts with a
/// space or a tab.
pub open spec fn upright(v: Seq<char>) -> bool {
    &&& v.contains('\n')
    &&& v.len() >= 2
    &&& !(v[v.len() - 1] == '\n' && v[v.len() - 2] == '\n')
    &&& forall|i: int| 0 <= i < v.len() ==> #[trigger] v[i] != '\r'
    &&& forall|i: int|
        0 <= i < v.len() && #[trigger] starts_line(v, i) ==> v[i] != ' ' && v[i] != '\t'
}

/// Whether a line starts at the `i`th character.
pub open spec fn starts_line(v: Seq<char>, i: int) -> bool {
    i == 0 || v[i - 1] == '\n'
}

/// What the `i`th character of a text is written as.
pub open spec fn line_piece(v: Seq<char>, i: int, pad: Seq<char>) -> Seq<char> {
    if v[i] != '\n' && starts_line(v, i) {
        pad + seq![v[i]]
    } else {
        seq![v[i]]
    }
}

/// The lines of a text from its `i`th character on, each non-empty one behind `pad`.
pub open spec fn lines_text(v: Seq<char>, i: int, pad: Seq<char>) -> Seq<char>
    decreases v.len() - i,
{
    if 0 <= i < v.len() {
        line_piece(v, i, pad) + lines_text(v, i + 1, pad)
    } else {
        seq![]
    }
}

/// `n` line feeds.
pub open spec fn feeds(n: nat) -> Seq<char> {
    Seq::new(n, |i: int| '\n')
}

/// The text of a literal scalar, with `n` spaces in front of its lines and `z` line feeds
/// behind them.
pub open spec fn literal_text(v: Seq<char>, n: nat, z: nat) -> Seq<char> {
    seq!['|'] + (chomp_indicator(v) + (seq!['\n'] + (lines_text(v, 0, blanks(n)) + feeds(z))))
}

/// The lines of a text, counted from either end.
proof fn lemma_padded(v: Seq<char>, j: int, pad: Seq<char>)
    requires
        0 <= j <= v.len(),
    ensures
        padded_lines(v.take(j), pad) + lines_text(v, j, pad) == lines_text(v, 0, pad),
    decreases j,
{
    if j == 0 {
        assert(v.take(0) =~= Seq::<char>::empty());
        assert(padded_lines(v.take(0), pad) =~= Seq::<char>::empty());
        assert(Seq::<char>::empty() + lines_text(v, 0, pad) =~= lines_text(v, 0, pad));
    } else {
        lemma_padded(v, j - 1, pad);
        let u = v.take(j);
        assert(u.drop_last() =~= v.take(j - 1));
        assert(u.last() == v[j - 1]);
        if j > 1 {
            assert(u[j - 2] == v[j - 2]);
        }
        let init = padded_lines(v.take(j - 1), pad);
        assert(padded_lines(u, pad) =~= init + line_piece(v, j - 1, pad));
        assert(init + line_piece(v, j - 1, pad) + lines_text(v, j, pad) =~= init + (line_piece(
            v,
            j - 1,
            pad,
        ) + lines_text(v, j, pad)));
    }
}

/// The text that is written for a literal scalar.
pub proof fn lemma_literal_text(v: Seq<char>, n: nat)
    requires
        v.contains('\n'),
    ensures
        block_text(v, '|', blanks(n)) == literal_text(v, n, 1),
{
    lemma_padded(v, v.len() as int, blanks(n));
    assert(v.take(v.len() as int) =~= v);
    assert(padded_lines(v, blanks(n)) + Seq::<char>::empty() =~= padded_lines(v, blanks(n)));
    assert(feeds(1) =~= seq!['\n']);
    assert(block_text(v, '|', blanks(n)) =~= literal_text(v, n, 1));
}

/// More line feeds behind a literal scalar.
pub proof fn lemma_literal_feeds(v: Seq<char>, n: nat, z: nat)
    ensures
        literal_text(v, n, z) + seq!['\n'] == literal_text(v, n, z + 1),
{
    assert(feeds(z) + seq!['\n'] =~= feeds(z + 1));
    assert(literal_text(v, n, z) + seq!['\n'] =~= literal_text(v, n, z + 1));
}

/// The end of the line that holds the `i`th character.
spec fn line_end(v: Seq<char>, i: int) -> int
    decreases v.len() - i,
{
    if 0 <= i < v.len() && v[i] != '\n' {
        line_end(v, i + 1)
    } else {
        i
    }
}

proof fn lemma_line_end(v: Seq<char>, i: int)
    requires
        0 <= i <= v.len(),
    ensures
        i <= line_end(v, i) <= v.len(),
        forall|j: int| i <= j < line_end(v, i) ==> #[trigger] v[j] != '\n',
        line_end(v, i) < v.len() ==> v[line_end(v, i)] == '\n',
        i < v.len() && v[i] != '\n' ==> i < line_end(v, i),
    decreases v.len() - i,
{
    if i < v.len() && v[i] != '\n' {
        lemma_line_end(v, i + 1);
    }
}

/// Characters inside a line.
proof fn lemma_inside_line(v: Seq<char>, i: int, j: int, pad: Seq<char>)
    requires
        0 < i <= j <= v.len(),
        v[i - 1] != '\n',
        forall|k: int| i <= k < j ==> #[trigger] v[k] != '\n',
    ensures
        lines_text(v, i, pad) == v.subrange(i, j) + lines_text(v, j, pad),
    decreases j - i,
{
    if i < j {
        assert(v[i] != '\n');
        lemma_inside_line(v, i + 1, j, pad);
        assert(seq![v[i]] + (v.subrange(i + 1, j) + lines_text(v, j, pad)) =~= v.subrange(i, j)
            + lines_text(v, j, pad));
    } else {
        assert(v.subrange(i, j) + lines_text(v, j, pad) =~= lines_text(v, j, pad));
    }
}

/// A line with content.
proof fn lemma_whole_line(v: Seq<char>, i: int, j: int, pad: Seq<char>)
    requires
        0 <= i < j <= v.len(),
        starts_line(v, i),
        forall|k: int| i <= k < j ==> #[trigger] v[k] != '\n',
    ensures
        lines_text(v, i, pad) == pad + (v.subrange(i, j) + lines_text(v, j, pad)),
{
    assert(v[i] != '\n');
    lemma_inside_line(v, i + 1, j, pad);
    assert(pad + seq![v[i]] + (v.subrange(i + 1, j) + lines_text(v, j, pad)) =~= pad + (v.subrange(
        i,
        j,
    ) + lines_text(v, j, pad)));
}

// ─── Bytes ──────────────────────────────────────────────────────────

/// A piece of text without line breaks has no bytes of line breaks.
proof fn lemma_line_bytes(all: Seq<char>, k: int, e: int)
    requires
        0 <= k <= e <= all.len(),
        forall|i: int| k <= i < e ==> #[trigger] all[i] != '\n' && all[i] != '\r',
    ensures
        forall|o: int| off(all, k) <= o < off(all, e) ==> !line_break(#[trigger] encode_utf8(all)[o]),
    decreases e - k,
{
    if k < e {
        let c = all[k];
        let b = encode_utf8(all);
        assert(c != '\n' && c != '\r');
        lemma_line_bytes(all, k + 1, e);
        lemma_off(all, k, 1);
        assert(all.subrange(k, k + 1) =~= seq![c]);
        assert(all =~= all.take(k) + (seq![c] + all.skip(k + 1)));
        crate::cst::green::lemma_encode_concat(all.take(k), seq![c] + all.skip(k + 1));
        crate::cst::green::lemma_encode_concat(seq![c], all.skip(k + 1));
        assert forall|o: int| off(all, k) <= o < off(all, e) implies !line_break(#[trigger] b[o]) by {
            if o < off(all, k + 1) {
                let i = o - off(all, k);
                assert(b[o] == encode_utf8(seq![c])[i]);
                lemma_char_bytes(c, i);
                if (c as u32) < 0x80 {
                    if c as u8 == '\n' as u8 {
                        lemma_ascii_byte(c, '\n');
                    }
                    if c as u8 == '\r' as u8 {
                        lemma_ascii_byte(c, '\r');
                    }
                }
            }
        }
    }
}

/// The first byte of a character that is no blank is no blank.
proof fn lemma_other_byte(all: Seq<char>, k: int)
    requires
        0 <= k < all.len(),
        all[k] != ' ' && all[k] != '\t' && all[k] != '\n' && all[k] != '\r',
    ensures
        off(all, k) < encode_utf8(all).len(),
        ({
            let x = encode_utf8(all)[off(all, k)];
            x != SPACE && x != TAB && x != LF && x != CR
        }),
{
    let c = all[k];
    lemma_off(all, k, 1);
    assert(all.subrange(k, k + 1) =~= seq![c]);
    assert(all =~= all.take(k) + (seq![c] + all.skip(k + 1)));
    crate::cst::green::lemma_encode_concat(all.take(k), seq![c] + all.skip(k + 1));
    crate::cst::green::lemma_encode_concat(seq![c], all.skip(k + 1));
    lemma_nonempty(seq![c]);
    lemma_char_bytes(c, 0);
    assert(encode_utf8(all)[off(all, k)] == encode_utf8(seq![c])[0]);
    if (c as u32) < 0x80 {
        if c as u8 == ' ' as u8 {
            lemma_ascii_byte(c, ' ');
        }
        if c as u8 == '\t' as u8 {
            lemma_ascii_byte(c, '\t');
        }
        if c as u8 == '\n' as u8 {
            lemma_ascii_byte(c, '\n');
        }
        if c as u8 == '\r' as u8 {
            lemma_ascii_byte(c, '\r');
        }
    }
}

/// The bytes of equal ASCII characters in a row.
proof fn lemma_row(all: Seq<char>, k: int, n: nat, c: char)
    requires
        0 <= k,
        k + n <= all.len(),
        (c as u32) < 0x80,
        forall|i: int| k <= i < k + n ==> #[trigger] all[i] == c,
    ensures
        off(all, k + n) == off(all, k) + n,
        off(all, k + n) <= encode_utf8(all).len(),
        forall|o: int|
            off(all, k) <= o < off(all, k) + n ==> #[trigger] encode_utf8(all)[o] == c as u8,
    decreases n,
{
    lemma_off(all, k, n as int);
    if n > 0 {
        assert(all[k] == c);
        lemma_byte(all, k);
        lemma_row(all, k + 1, (n - 1) as nat, c);
    }
}

// ─── Scanning ───────────────────────────────────────────────────────

/// What can follow a block scalar on its line: nothing, or a character that is no blank.
pub open spec fn goes_on(all: Seq<char>, k: int) -> bool {
    k == all.len() || (0 <= k < all.len() && all[k] != ' ' && all[k] != '\t' && all[k] != '\n'
        && all[k] != '\r')
}

/// The block ends at a line that is indented less.
proof fn lemma_outdented(
    all: Seq<char>,
    k: int,
    c: Cur,
    n: nat,
    m: nat,
    acc: Seq<char>,
    breaks: nat,
    more: bool,
)
    requires
        c.offset == off(all, k),
        c.column == 0,
        m < n,
        spaced(all, k, m),
        goes_on(all, k + m),
    ensures
        block_lines(encode_utf8(all), c, ScalarStyle::Literal, n, acc, breaks, more) == Ok::<
            Lines,
            crate::error::ErrorView,
        >(
            Lines {
                cur: Cur { offset: off(all, k + m), line: c.line, column: m as int },
                content: acc,
                breaks,
            },
        ),
        off(all, k + m) == off(all, k) + m,
{
    let b = encode_utf8(all);
    lemma_row(all, k, m, ' ');
    lemma_off_end(all);
    if k + m < all.len() {
        lemma_other_byte(all, k + m);
    }
    lemma_spaces_end(b, c.offset, c.offset + m);
    assert(spaces(b, c, n) == m);
    assert(c.to(c.offset + m) == (Cur { offset: off(all, k + m), line: c.line, column: m as int }));
    if m > 0 {
        assert(b[c.offset] == SPACE);
    }
}

proof fn lemma_spaces_end(b: Seq<u8>, lo: int, hi: int)
    requires
        0 <= lo <= hi <= b.len(),
        forall|i: int| lo <= i < hi ==> #[trigger] b[i] == SPACE,
        hi == b.len() || b[hi] != SPACE,
    ensures
        run_end(b, lo, Until::NotSpace) == hi,
    decreases hi - lo,
{
    lemma_run(b, lo, Until::NotSpace);
    if lo < hi {
        assert(b[lo] == SPACE);
        lemma_spaces_end(b, lo + 1, hi);
        assert(run_end(b, lo, Until::NotSpace) == run_end(b, lo + 1, Until::NotSpace));
    }
}

/// Empty lines, and then the end of the block.
proof fn lemma_last_lines(
    all: Seq<char>,
    k: int,
    c: Cur,
    n: nat,
    z: nat,
    m: nat,
    acc: Seq<char>,
    breaks: nat,
    more: bool,
)
    requires
        c.offset == off(all, k),
        c.column == 0,
        m < n,
        0 <= k,
        stands(all, k, feeds(z)),
        spaced(all, k + z, m),
        goes_on(all, k + z + m),
    ensures
        block_lines(encode_utf8(all), c, ScalarStyle::Literal, n, acc, breaks, more) == Ok::<
            Lines,
            crate::error::ErrorView,
        >(
            Lines {
                cur: Cur { offset: off(all, k + z + m), line: c.line + z, column: m as int },
                content: acc,
                breaks: breaks + z,
            },
        ),
        off(all, k + z + m) == off(all, k) + z + m,
{
    assert forall|i: int| k <= i < k + z implies #[trigger] all[i] == '\n' by {
        lemma_stands_char(all, k, feeds(z), i - k);
    }
    lemma_row(all, k, z, '\n');
    lemma_empty_lines(encode_utf8(all), c, ScalarStyle::Literal, n, acc, breaks, more, z);
    let d = Cur { offset: c.offset + z, line: c.line + z, column: 0 };
    lemma_outdented(all, k + z, d, n, m, acc, breaks + z, more);
}

/// One line of a literal scalar.
proof fn lemma_literal_line(
    all: Seq<char>,
    k: int,
    c: Cur,
    v: Seq<char>,
    i: int,
    j: int,
    n: nat,
    acc: Seq<char>,
    breaks: nat,
    more: bool,
)
    requires
        upright(v),
        0 <= i < j <= v.len(),
        starts_line(v, i),
        forall|x: int| i <= x < j ==> #[trigger] v[x] != '\n',
        c.offset == off(all, k),
        c.column == 0,
        0 < n,
        stands(all, k, blanks(n)),
        stands(all, k + n, v.subrange(i, j)),
        k + n + (j - i) < all.len(),
        all[k + n + (j - i)] == '\n',
        acc + newlines(breaks) == v.take(i),
    ensures
        ({
            let e = k + n + (j - i);
            &&& block_lines(encode_utf8(all), c, ScalarStyle::Literal, n, acc, breaks, more)
                == block_lines(
                encode_utf8(all),
                Cur { offset: off(all, e) + 1, line: c.line + 1, column: 0 },
                ScalarStyle::Literal,
                n,
                v.take(j),
                1,
                false,
            )
            &&& off(all, e + 1) == off(all, e) + 1
            &&& c.offset <= off(all, e)
        }),
{
    let b = encode_utf8(all);
    let line = v.subrange(i, j);
    let s = k + n;
    let e = s + line.len();
    lemma_spaced(all, k, n);
    lemma_row(all, k, n, ' ');
    assert forall|x: int| s <= x < e implies #[trigger] all[x] != '\n' && all[x] != '\r' by {
        lemma_stands_char(all, s, line, x - s);
        assert(line[x - s] == v[i + (x - s)]);
    }
    lemma_line_bytes(all, s, e);
    lemma_text_off(all, s, e);
    lemma_off(all, s, line.len() as int);
    lemma_stands_char(all, s, line, 0);
    assert(line[0] == v[i]);
    lemma_other_byte(all, s);
    lemma_byte(all, e);
    lemma_off(all, s, 1);
    lemma_off(all, s + 1, line.len() - 1);
    lemma_nonempty(seq![all[s]]);
    assert(all.subrange(s, s + 1) =~= seq![all[s]]);
    lemma_content_line(b, c, ScalarStyle::Literal, n, acc, breaks, more, off(all, e));
    assert(acc + newlines(breaks) + line =~= v.take(j));
}

/// One more line feed was read.
proof fn lemma_one_more(v: Seq<char>, i: int, acc: Seq<char>, breaks: nat)
    requires
        0 <= i < v.len(),
        v[i] == '\n',
        acc + newlines(breaks) == v.take(i),
    ensures
        acc + newlines(breaks + 1) == v.take(i + 1),
{
    assert(v.take(i + 1) =~= v.take(i).push('\n'));
    assert(acc + newlines(breaks + 1) =~= (acc + newlines(breaks)).push('\n'));
}

/// A text that ends with one line feed.
proof fn lemma_one_feed(v: Seq<char>, acc: Seq<char>, breaks: nat)
    requires
        v.len() >= 2,
        !(v[v.len() - 1] == '\n' && v[v.len() - 2] == '\n'),
        v[v.len() - 1] == '\n',
        acc + newlines(breaks) == v.take(v.len() as int),
        acc.len() == 0 || acc.last() != '\n',
    ensures
        acc == v.drop_last(),
{
    assert(v.take(v.len() as int) =~= v);
    if breaks == 0 {
        assert(v =~= acc);
    } else if breaks >= 2 {
        assert((acc + newlines(breaks))[v.len() - 2] == '\n');
    }
    assert(acc =~= v.drop_last());
}

/// The lines of a literal scalar from the `i`th character of its value on. What was read
/// before is `acc` and so many line breaks.
#[verifier::rlimit(60)]
proof fn lemma_literal_lines(
    all: Seq<char>,
    k: int,
    c: Cur,
    v: Seq<char>,
    i: int,
    n: nat,
    z: nat,
    m: nat,
    acc: Seq<char>,
    breaks: nat,
    more: bool,
) -> (r: (int, nat))
    requires
        upright(v),
        0 <= i <= v.len(),
        starts_line(v, i),
        c.offset == off(all, k),
        c.column == 0,
        m < n,
        0 < z,
        stands(all, k, lines_text(v, i, blanks(n)) + feeds(z)),
        spaced(all, k + lines_text(v, i, blanks(n)).len() + z, m),
        goes_on(all, k + lines_text(v, i, blanks(n)).len() + z + m),
        acc + newlines(breaks) == v.take(i),
        acc.len() == 0 || acc.last() != '\n',
    ensures
        ({
            let e = k + lines_text(v, i, blanks(n)).len() + z + m;
            &&& block_lines(encode_utf8(all), c, ScalarStyle::Literal, n, acc, breaks, more) == Ok::<
                Lines,
                crate::error::ErrorView,
            >(
                Lines {
                    cur: Cur { offset: off(all, e), line: r.0, column: m as int },
                    content: if v.last() == '\n' {
                        v.drop_last()
                    } else {
                        v
                    },
                    breaks: r.1,
                },
            )
            &&& c.line < r.0 <= c.line + (off(all, e) - c.offset)
        }),
    decreases v.len() - i,
{
    let b = encode_utf8(all);
    let pad = blanks(n);
    let lines = lines_text(v, i, pad);
    if i == v.len() {
        assert(lines + feeds(z) =~= feeds(z));
        lemma_last_lines(all, k, c, n, z, m, acc, breaks, more);
        lemma_one_feed(v, acc, breaks);
        (c.line + z, breaks + z)
    } else if v[i] == '\n' {
        let rest = lines_text(v, i + 1, pad);
        assert(lines + feeds(z) =~= seq!['\n'] + (rest + feeds(z)));
        lemma_stands(all, k, seq!['\n'], rest + feeds(z));
        lemma_stands_char(all, k, seq!['\n'], 0);
        lemma_byte(all, k);
        lemma_empty_line(b, c, ScalarStyle::Literal, n, acc, breaks, more);
        lemma_one_more(v, i, acc, breaks);
        let d = Cur { offset: c.offset + 1, line: c.line + 1, column: 0 };
        lemma_literal_lines(all, k + 1, d, v, i + 1, n, z, m, acc, breaks + 1, more)
    } else {
        lemma_line_end(v, i);
        let j = line_end(v, i);
        lemma_whole_line(v, i, j, pad);
        let line = v.subrange(i, j);
        let rest = lines_text(v, j, pad);
        assert(lines + feeds(z) =~= pad + (line + (rest + feeds(z))));
        lemma_stands(all, k, pad, line + (rest + feeds(z)));
        lemma_stands(all, k + n, line, rest + feeds(z));
        let e = k + n + line.len();
        let acc2 = v.take(j);
        assert(acc2.last() == v[j - 1]);
        let d = Cur { offset: off(all, e) + 1, line: c.line + 1, column: 0 };
        if j < v.len() {
            let tail = lines_text(v, j + 1, pad);
            assert(rest + feeds(z) =~= seq!['\n'] + (tail + feeds(z)));
            lemma_stands(all, e, seq!['\n'], tail + feeds(z));
            lemma_stands_char(all, e, seq!['\n'], 0);
            lemma_literal_line(all, k, c, v, i, j, n, acc, breaks, more);
            assert(acc2 + newlines(0) =~= acc2);
            lemma_one_more(v, j, acc2, 0);
            lemma_literal_lines(all, e + 1, d, v, j + 1, n, z, m, acc2, 1, false)
        } else {
            let y = (z - 1) as nat;
            assert(rest + feeds(z) =~= seq!['\n'] + feeds(y));
            lemma_stands(all, e, seq!['\n'], feeds(y));
            lemma_stands_char(all, e, seq!['\n'], 0);
            lemma_literal_line(all, k, c, v, i, j, n, acc, breaks, more);
            assert(acc2 =~= v);
            lemma_last_lines(all, e + 1, d, n, y, m, acc2, 1, false);
            (d.line + y, 1 + y)
        }
    }
}

/// The first line with content of a literal scalar.
proof fn lemma_literal_probe(all: Seq<char>, k: int, v: Seq<char>, i: int, n: nat, z: nat)
    requires
        upright(v),
        0 <= i < v.len(),
        forall|j: int| 0 <= j < i ==> #[trigger] v[j] == '\n',
        0 < n,
        stands(all, k, lines_text(v, i, blanks(n)) + feeds(z)),
    ensures
        probe(encode_utf8(all), off(all, k), 0, 0).1 == n,
        probe(encode_utf8(all), off(all, k), 0, 0).2 == 0,
    decreases v.len() - i,
{
    let b = encode_utf8(all);
    let pad = blanks(n);
    let rest = lines_text(v, i + 1, pad);
    if i > 0 {
        assert(v[i - 1] == '\n');
    }
    if v[i] == '\n' {
        assert(lines_text(v, i, pad) + feeds(z) =~= seq!['\n'] + (rest + feeds(z)));
        lemma_stands(all, k, seq!['\n'], rest + feeds(z));
        lemma_stands_char(all, k, seq!['\n'], 0);
        lemma_byte(all, k);
        if i + 1 == v.len() {
            assert(v[v.len() - 2] == '\n');
        }
        lemma_literal_probe(all, k + 1, v, i + 1, n, z);
    } else {
        assert(lines_text(v, i, pad) + feeds(z) =~= pad + (seq![v[i]] + (rest + feeds(z))));
        lemma_stands(all, k, pad, seq![v[i]] + (rest + feeds(z)));
        lemma_stands_char(all, k + n, seq![v[i]] + (rest + feeds(z)), 0);
        assert(starts_line(v, i));
        lemma_spaced(all, k, n);
        lemma_row(all, k, n, ' ');
        lemma_other_byte(all, k + n);
        lemma_probe_row(b, off(all, k), off(all, k) + n, 0);
    }
}

proof fn lemma_probe_row(b: Seq<u8>, i: int, e: int, width: nat)
    requires
        0 <= i <= e < b.len(),
        forall|j: int| i <= j < e ==> #[trigger] b[j] == SPACE,
        b[e] != SPACE,
        !line_break(b[e]),
    ensures
        probe(b, i, width, 0) == (e, (width + (e - i)) as nat, 0nat),
    decreases e - i,
{
    if i < e {
        assert(b[i] == SPACE);
        lemma_probe_row(b, i + 1, e, width + 1);
    }
}

/// A header with the indicator `-`, at the end of its line.
proof fn lemma_strip_header(b: Seq<u8>, c: Cur)
    requires
        0 <= c.offset,
        c.offset + 1 < b.len(),
        b[c.offset] == DASH,
        b[c.offset + 1] == LF,
    ensures
        header(b, c) == (Header { cur: c.to(c.offset + 1), chomp: -1, explicit: None }),
        after_header(b, c.to(c.offset + 1)) == (Cur {
            offset: c.offset + 2,
            line: c.line + 1,
            column: 0,
        }),
{
    let one = Header { cur: c, chomp: 0, explicit: None }.step(b);
    assert(one == (Header { cur: c.to(c.offset + 1), chomp: -1, explicit: None }));
    assert(one.step(b) == one);
    lemma_bare_header(b, c.to(c.offset + 1));
}

/// The header of a literal scalar, from behind the `|`.
proof fn lemma_literal_header(all: Seq<char>, k: int, c: Cur, v: Seq<char>)
    requires
        upright(v),
        c.offset == off(all, k),
        stands(all, k, chomp_indicator(v) + seq!['\n']),
    ensures
        ({
            let b = encode_utf8(all);
            let h = header(b, c);
            let e = k + chomp_indicator(v).len();
            &&& h.chomp == if v.last() == '\n' {
                0int
            } else {
                -1int
            }
            &&& h.explicit is None
            &&& h.cur.offset == off(all, e) < b.len()
            &&& b[h.cur.offset] == LF
            &&& after_header(b, h.cur) == (Cur {
                offset: off(all, e + 1),
                line: c.line + 1,
                column: 0,
            })
            &&& off(all, e + 1) == off(all, e) + 1
            &&& off(all, e) >= off(all, k)
        }),
{
    let b = encode_utf8(all);
    let mark = chomp_indicator(v);
    lemma_stands(all, k, mark, seq!['\n']);
    let e = k + mark.len();
    lemma_stands_char(all, e, seq!['\n'], 0);
    lemma_byte(all, e);
    if mark.len() > 0 {
        assert(mark =~= seq!['-']);
        lemma_stands_char(all, k, mark, 0);
        lemma_byte(all, k);
        lemma_strip_header(b, c);
    } else {
        lemma_bare_header(b, c);
    }
}

/// A text that is written as a literal scalar is read back: at whatever indentation, as
/// long as it is larger than that of what surrounds it, and whatever follows, as long as
/// that is indented less.
pub proof fn law_literal_round_trip(
    all: Seq<char>,
    k: int,
    v: Seq<char>,
    n: nat,
    z: nat,
    m: nat,
    c: Cur,
    parent: int,
    start: Position,
) -> (line: int)
    requires
        upright(v),
        stands(all, k, literal_text(v, n, z)),
        0 < z,
        m < n,
        parent < n,
        spaced(all, k + literal_text(v, n, z).len(), m),
        goes_on(all, k + literal_text(v, n, z).len() + m),
        c.offset == off(all, k + 1),
    ensures
        ({
            let e = k + literal_text(v, n, z).len() + m;
            &&& block_scalar(encode_utf8(all), c, ScalarStyle::Literal, parent, start) == Ok::<
                (Cur, Seq<char>),
                crate::error::ErrorView,
            >((Cur { offset: off(all, e), line, column: m as int }, v))
            &&& c.line < line <= c.line + (off(all, e) - c.offset)
        }),
{
    let b = encode_utf8(all);
    let mark = chomp_indicator(v);
    let body = lines_text(v, 0, blanks(n)) + feeds(z);
    lemma_stands(all, k, seq!['|'], mark + (seq!['\n'] + body));
    assert(mark + (seq!['\n'] + body) =~= (mark + seq!['\n']) + body);
    lemma_stands(all, k + 1, mark + seq!['\n'], body);
    lemma_literal_header(all, k + 1, c, v);
    let q = k + 1 + mark.len() + 1;
    let d = Cur { offset: off(all, q), line: c.line + 1, column: 0 };
    let none = Seq::<char>::empty();
    assert(none + newlines(0) =~= v.take(0));
    lemma_literal_probe(all, q, v, 0, n, z);
    let (line, breaks) = lemma_literal_lines(all, q, d, v, 0, n, z, m, none, 0, false);
    let least = (if parent + 1 > 0 { parent + 1 } else { 0 }) as nat;
    assert(auto_indent(b, d, least) == Ok::<nat, crate::error::ErrorView>(n));
    assert(v.last() == '\n' ==> v.drop_last().push('\n') =~= v);
    line
}

/// A literal scalar in block context is scanned to one token. The scanner then stands at
/// the next line, behind its spaces.
pub proof fn lemma_literal(p: Scan, all: Seq<char>, k: int, v: Seq<char>, n: nat, z: nat, m: nat) -> (t:
    Scan)
    requires
        at(p, all, k),
        p.in_block(),
        upright(v),
        stands(all, k, literal_text(v, n, z)),
        0 < z,
        m < n,
        p.indent < n,
        spaced(all, k + literal_text(v, n, z).len(), m),
        goes_on(all, k + literal_text(v, n, z).len() + m),
    ensures
        p.dispatch() == Ok::<Scan, Fail>(t),
        at(t, all, k + literal_text(v, n, z).len() + m),
        t.in_block(),
        t.indent == p.indent,
        t.indents == p.indents,
        t.doc_line == p.doc_line,
        t.allow,
        t.cur.column == m,
        t.cur.line > p.cur.line,
        kinds_of(t.tokens) == kinds_of(p.tokens).push(
            TokenKindView::Scalar { value: v, style: ScalarStyle::Literal },
        ),
{
    let e = k + literal_text(v, n, z).len() + m;
    lemma_stands_char(all, k, literal_text(v, n, z), 0);
    lemma_byte(all, k);
    assert(p.dispatch() == p.block_scalar(ScalarStyle::Literal)) by {
        reveal(Scan::dispatch);
    }
    let s = Scan { allow: true, ..p.remove_key() };
    let c = s.step().cur;
    assert(c.offset == off(all, k + 1));
    let line = law_literal_round_trip(all, k, v, n, z, m, c, p.indent, s.pos());
    let text = literal_text(v, n, z).len() as int;
    lemma_off(all, k, text);
    lemma_off(all, k + text, m as int);
    lemma_off(all, k + 1, text - 1 + m);
    lemma_row(all, k + text, m, ' ');
    let t = p.dispatch()->Ok_0;
    assert(t.tokens == p.tokens.push(t.tokens.last()));
    lemma_kinds_push(p.tokens, t.tokens.last());
    t
}

} // verus!
