//! What is written in quotes is scanned back to what was written.
use crate::cst::green::lemma_encode_concat;
use crate::emitter::scalar::{
    control, double_quoted_text, dq_body, dq_char, hex_padded, hex_upper, named_escape,
    separator_or_format, single_quoted_text, sq_body, sq_char,
};
use crate::limits::ResourceLimits;
use crate::scanner::chars::{line_break, whitespace, BACKSLASH, DQUOTE, SPACE, SQUOTE};
use crate::scanner::cursor::{lemma_run, lemma_run_boundary, run_end, stops, Cur, Until};
use crate::scanner::model::{Fail, Front, Next, Scan};
use crate::scanner::quoted::{
    double_quoted, hex_char, hex_digit, hex_escape, hex_number, hex_run, simple_escape,
    single_quoted,
};
use crate::scanner::stream::tape;
use crate::scanner::token::{TokenKindView, TokenView};
use crate::text::{at_boundary, lemma_boundary_zero, lemma_text_join, text};
use crate::types::{Position, ScalarStyle};
use vstd::prelude::*;
use vstd::utf8::*;

verus! {

/// The bytes `b` are those of the texts `a` and `rest`, and the cursor stands between
/// them.
spec fn between(b: Seq<u8>, c: Cur, a: Seq<char>, rest: Seq<char>) -> bool {
    &&& b == encode_utf8(a) + encode_utf8(rest)
    &&& c.offset == encode_utf8(a).len()
}

/// Between two texts is a boundary.
proof fn lemma_between(b: Seq<u8>, c: Cur, a: Seq<char>, rest: Seq<char>)
    requires
        between(b, c, a, rest),
    ensures
        valid_utf8(b),
        0 <= c.offset <= b.len(),
        at_boundary(b, c.offset),
        forall|i: int|
            0 <= i < encode_utf8(rest).len() ==> #[trigger] b[c.offset + i] == encode_utf8(
                rest,
            )[i],
        b.len() == c.offset + encode_utf8(rest).len(),
{
    lemma_encode_concat(a, rest);
    crate::text::lemma_text_whole(a + rest);
    crate::text::lemma_text_whole(rest);
    lemma_boundary_zero(encode_utf8(rest));
    if rest.len() > 0 {
        assert(encode_utf8(rest).len() > 0);
        assert(b[c.offset + 0] == encode_utf8(rest)[0]);
    }
}

/// Moving past some text.
proof fn lemma_past(b: Seq<u8>, c: Cur, a: Seq<char>, piece: Seq<char>, rest: Seq<char>)
    requires
        between(b, c, a, piece + rest),
    ensures
        between(b, c.to(c.offset + encode_utf8(piece).len()), a + piece, rest),
        b.subrange(c.offset, c.offset + encode_utf8(piece).len()) == encode_utf8(piece),
{
    lemma_encode_concat(a, piece);
    lemma_encode_concat(piece, rest);
    let k = encode_utf8(piece).len() as int;
    assert(b =~= encode_utf8(a + piece) + encode_utf8(rest));
    assert(b.subrange(c.offset, c.offset + k) =~= encode_utf8(piece));
}

/// A run ends where it ends when some of it has been passed.
proof fn lemma_run_on(b: Seq<u8>, lo: int, hi: int, u: Until)
    requires
        0 <= lo <= hi <= b.len(),
        forall|i: int| lo <= i < hi ==> !stops(u, #[trigger] b[i]),
    ensures
        run_end(b, lo, u) == run_end(b, hi, u),
    decreases hi - lo,
{
    if lo < hi {
        assert(!stops(u, b[lo]));
        lemma_run_on(b, lo + 1, hi, u);
    }
}

/// The bytes of a character: an ASCII character is its own, all others are not ASCII.
pub proof fn lemma_char_bytes(c: char, i: int)
    requires
        0 <= i < encode_utf8(seq![c]).len(),
    ensures
        encode_utf8(seq![c]).len() >= 1,
        (c as u32) < 0x80 ==> encode_utf8(seq![c]).len() == 1 && encode_utf8(seq![c])[0]
            == c as u8,
        (c as u32) >= 0x80 ==> encode_utf8(seq![c])[i] >= 0x80,
{
    reveal_with_fuel(encode_utf8, 2);
    assert(seq![c].drop_first() =~= Seq::<char>::empty());
    let s = encode_scalar(c as u32);
    assert(encode_utf8(seq![c]) =~= s);
    if (c as u32) < 0x80 {
        is_ascii_chars_encode_utf8(seq![c]);
    } else {
        lemma_scalar_bytes(c as u32, i);
    }
}

/// Different ASCII characters have different bytes.
pub proof fn lemma_ascii_byte(c: char, x: char)
    requires
        (c as u32) < 0x80,
        (x as u32) < 0x80,
        c as u8 == x as u8,
    ensures
        c == x,
{
    assert(c as u32 == x as u32);
}

/// The bytes of an encoding of several bytes are not ASCII.
proof fn lemma_scalar_bytes(x: u32, i: int)
    requires
        x >= 0x80,
        0 <= i < encode_scalar(x).len(),
    ensures
        encode_scalar(x)[i] >= 0x80,
{
    assert(0x80u8 | ((x & 0x3f) as u8) >= 0x80) by (bit_vector);
    assert(0x80u8 | (((x >> 6) & 0x3f) as u8) >= 0x80) by (bit_vector);
    assert(0x80u8 | (((x >> 12) & 0x3f) as u8) >= 0x80) by (bit_vector);
    assert(0xc0u8 | (((x >> 6) & 0x1f) as u8) >= 0x80) by (bit_vector);
    assert(0xe0u8 | (((x >> 12) & 0x0f) as u8) >= 0x80) by (bit_vector);
    assert(0xf0u8 | (((x >> 18) & 0x07) as u8) >= 0x80) by (bit_vector);
}

// ─── Plain characters ───────────────────────────────────────────────

/// A character none of whose bytes stops a run: the run goes on behind it.
proof fn lemma_char_in_run(b: Seq<u8>, c: Cur, a: Seq<char>, ch: char, rest: Seq<char>, u: Until)
    requires
        between(b, c, a, seq![ch] + rest),
        (ch as u32) < 0x80 ==> !stops(u, ch as u8),
        forall|x: u8| x >= 0x80 ==> !stops(u, x),
    ensures
        ({
            let k = encode_utf8(seq![ch]).len();
            let e = run_end(b, c.offset, u);
            &&& k >= 1
            &&& c.offset + k <= e <= b.len()
            &&& e == run_end(b, c.offset + k, u)
            &&& text(b, c.offset, c.offset + k) == seq![ch]
            &&& text(b, c.offset, e) == seq![ch] + text(b, c.offset + k, e)
            &&& b[c.offset] == encode_utf8(seq![ch])[0]
            &&& !stops(u, b[c.offset])
        }),
{
    let whole = seq![ch] + rest;
    let k = encode_utf8(seq![ch]).len() as int;
    lemma_between(b, c, a, whole);
    lemma_past(b, c, a, seq![ch], rest);
    let d = c.to(c.offset + k);
    lemma_between(b, d, a + seq![ch], rest);
    crate::text::lemma_text_whole(seq![ch]);
    lemma_nonempty(seq![ch]);
    let bytes = encode_utf8(seq![ch]);
    assert forall|i: int| c.offset <= i < c.offset + k implies !stops(u, #[trigger] b[i]) by {
        lemma_char_bytes(ch, i - c.offset);
        assert(b.subrange(c.offset, c.offset + k)[i - c.offset] == b[i]);
    }
    assert(b.subrange(c.offset, c.offset + k)[0] == b[c.offset]);
    lemma_run_on(b, c.offset, c.offset + k, u);
    lemma_run(b, d.offset, u);
    lemma_run_boundary(b, d.offset, u);
    let e = run_end(b, c.offset, u);
    assert(bytes.subrange(0, bytes.len() as int) =~= bytes);
    lemma_text_join(b, c.offset, c.offset + k, e);
}

/// A text that is not empty has bytes.
pub proof fn lemma_nonempty(s: Seq<char>)
    requires
        s.len() > 0,
    ensures
        encode_utf8(s).len() > 0,
{
}

/// A plain character in a double-quoted scalar stands for itself.
proof fn lemma_dq_plain(
    b: Seq<u8>,
    c: Cur,
    a: Seq<char>,
    ch: char,
    rest: Seq<char>,
    acc: Seq<char>,
    ws: Seq<char>,
    m: Option<int>,
    start: Position,
)
    requires
        between(b, c, a, seq![ch] + rest),
        (ch as u32) < 0x80 ==> !stops(Until::DoubleQuoted, ch as u8),
    ensures
        double_quoted(b, c, acc, ws, m, start) == double_quoted(
            b,
            c.to(c.offset + encode_utf8(seq![ch]).len()),
            (acc + ws).push(ch),
            seq![],
            m,
            start,
        ),
{
    let u = Until::DoubleQuoted;
    lemma_char_in_run(b, c, a, ch, rest, u);
    let k = encode_utf8(seq![ch]).len() as int;
    let d = c.to(c.offset + k);
    let e = run_end(b, c.offset, u);
    let acc2 = (acc + ws).push(ch);
    assert(acc2 =~= acc + ws + seq![ch]);
    assert(double_quoted(b, c, acc, ws, m, start) == double_quoted(
        b,
        c.to(e),
        acc + ws + text(b, c.offset, e),
        seq![],
        m,
        start,
    ));
    if d.offset < e {
        lemma_run(b, d.offset, u);
        assert(!stops(u, b[d.offset]));
        assert(d.to(e) == c.to(e));
        assert(acc2 + Seq::<char>::empty() + text(b, d.offset, e) =~= acc + ws + text(
            b,
            c.offset,
            e,
        ));
    } else {
        crate::text::lemma_text_empty(b, e);
        assert(acc + ws + text(b, c.offset, e) =~= acc2);
    }
}

// ─── Escapes ────────────────────────────────────────────────────────

/// Sixteen to the power of `w`.
spec fn pow16(w: nat) -> nat
    decreases w,
{
    if w == 0 {
        1
    } else {
        16 * pow16((w - 1) as nat)
    }
}

/// Hexadecimal digits are ASCII, and denote what was written.
proof fn lemma_hex_padded(n: nat, w: nat)
    requires
        n < pow16(w),
    ensures
        hex_padded(n, w).len() == w,
        is_ascii_chars(hex_padded(n, w)),
        forall|i: int|
            0 <= i < w ==> hex_digit((#[trigger] hex_padded(n, w)[i]) as u8) is Some,
    decreases w,
{
    if w > 0 {
        lemma_hex_padded(n / 16, (w - 1) as nat);
        let d = n % 16;
        let c = hex_upper(d);
        assert(c as u32 == if d < 10 {
            48 + d
        } else {
            55 + d
        });
        let head = hex_padded(n / 16, (w - 1) as nat);
        assert(hex_padded(n, w) =~= head.push(c));
    }
}

/// The number that written digits denote is the number written.
proof fn lemma_hex_number(b: Seq<u8>, i: int, n: nat, w: nat)
    requires
        0 <= i,
        i + w <= b.len(),
        n < pow16(w),
        forall|j: int| 0 <= j < w ==> #[trigger] b[i + j] == hex_padded(n, w)[j] as u8,
    ensures
        hex_number(b, i, w) == n,
    decreases w,
{
    if w > 0 {
        let head = hex_padded(n / 16, (w - 1) as nat);
        let d = n % 16;
        lemma_hex_padded(n / 16, (w - 1) as nat);
        assert(hex_padded(n, w) =~= head.push(hex_upper(d)));
        assert forall|j: int| 0 <= j < w - 1 implies #[trigger] b[i + j] == head[j] as u8 by {
            assert(b[i + j] == hex_padded(n, w)[j] as u8);
        }
        lemma_hex_number(b, i, n / 16, (w - 1) as nat);
        assert(b[i + (w - 1)] == hex_padded(n, w)[w - 1] as u8);
        assert(hex_digit(hex_upper(d) as u8) == Some(d));
    }
}

/// As many digits as were written are found.
proof fn lemma_hex_run_full(b: Seq<u8>, i: int, w: nat)
    requires
        0 <= i,
        i + w <= b.len(),
        forall|j: int| i <= j < i + w ==> hex_digit(#[trigger] b[j]) is Some,
    ensures
        hex_run(b, i, w) == w,
    decreases w,
{
    if w > 0 {
        lemma_hex_run_full(b, i + 1, (w - 1) as nat);
    }
}

/// A numeric escape stands for the character it was written for.
proof fn lemma_dq_hex(
    b: Seq<u8>,
    c: Cur,
    a: Seq<char>,
    ch: char,
    letter: char,
    w: nat,
    rest: Seq<char>,
    acc: Seq<char>,
    ws: Seq<char>,
    m: Option<int>,
    start: Position,
)
    requires
        between(b, c, a, seq!['\\', letter] + hex_padded(ch as u32 as nat, w) + rest),
        (letter == 'x' && w == 2) || (letter == 'u' && w == 4) || (letter == 'U' && w == 8),
        (ch as u32 as nat) < pow16(w),
    ensures
        ({
            let piece = seq!['\\', letter] + hex_padded(ch as u32 as nat, w);
            double_quoted(b, c, acc, ws, m, start) == double_quoted(
                b,
                c.to(c.offset + encode_utf8(piece).len()),
                (acc + ws).push(ch),
                seq![],
                m,
                start,
            )
        }),
{
    let n = ch as u32 as nat;
    let digits = hex_padded(n, w);
    let piece = seq!['\\', letter] + digits;
    lemma_hex_padded(n, w);
    assert(is_ascii_chars(piece));
    is_ascii_chars_encode_utf8(piece);
    lemma_past(b, c, a, piece, rest);
    lemma_between(b, c, a, piece + rest);
    lemma_encode_concat(piece, rest);
    let k = piece.len() as int;
    let o = c.offset;
    assert forall|j: int| 0 <= j < k implies #[trigger] b[o + j] == piece[j] as u8 by {
        assert(b.subrange(o, o + k)[j] == b[o + j]);
    }
    assert(b[o + 0] == BACKSLASH);
    assert(b[o + 1] == letter as u8);
    let e = c.to(o + 1);
    assert(b[e.offset] == letter as u8);
    assert(simple_escape(b[e.offset]) is None);
    assert(hex_escape(b[e.offset]) == w);
    let h = e.to(e.offset + 1);
    assert(h.offset == o + 2);
    assert forall|j: int| 0 <= j < w implies #[trigger] b[o + 2 + j] == digits[j] as u8 by {
        assert(b[o + (2 + j)] == piece[2 + j] as u8);
    }
    assert forall|j: int| o + 2 <= j < o + 2 + w implies hex_digit(#[trigger] b[j]) is Some by {
        assert(b[o + 2 + (j - o - 2)] == digits[j - o - 2] as u8);
    }
    lemma_hex_run_full(b, o + 2, w);
    lemma_hex_number(b, o + 2, n, w);
    assert(hex_char(b, h, w, start) == Ok::<(Cur, char), crate::error::ErrorView>(
        (c.to(o + k), ch),
    ));
}

/// A named escape stands for the character it was written for.
proof fn lemma_dq_named(
    b: Seq<u8>,
    c: Cur,
    a: Seq<char>,
    ch: char,
    rest: Seq<char>,
    acc: Seq<char>,
    ws: Seq<char>,
    m: Option<int>,
    start: Position,
)
    requires
        named_escape(ch) is Some,
        between(b, c, a, seq!['\\', named_escape(ch)->0] + rest),
    ensures
        double_quoted(b, c, acc, ws, m, start) == double_quoted(
            b,
            c.to(c.offset + encode_utf8(seq!['\\', named_escape(ch)->0]).len()),
            (acc + ws).push(ch),
            seq![],
            m,
            start,
        ),
{
    let piece = seq!['\\', named_escape(ch)->0];
    assert(is_ascii_chars(piece));
    is_ascii_chars_encode_utf8(piece);
    lemma_past(b, c, a, piece, rest);
    lemma_between(b, c, a, piece + rest);
    lemma_encode_concat(piece, rest);
    let o = c.offset;
    assert(b.subrange(o, o + 2)[0] == b[o]);
    assert(b.subrange(o, o + 2)[1] == b[o + 1]);
    assert(b[o] == BACKSLASH);
    assert(simple_escape(b[o + 1]) == Some(ch));
    assert(c.to(o + 1).to(o + 2) == c.to(o + 2));
}

/// A space in a double-quoted scalar stands for itself, as long as no line break
/// follows.
proof fn lemma_dq_space(
    b: Seq<u8>,
    c: Cur,
    a: Seq<char>,
    rest: Seq<char>,
    acc: Seq<char>,
    ws: Seq<char>,
    m: Option<int>,
    start: Position,
)
    requires
        between(b, c, a, seq![' '] + rest),
    ensures
        encode_utf8(seq![' ']).len() == 1,
        double_quoted(b, c, acc, ws, m, start) == double_quoted(
            b,
            c.to(c.offset + 1),
            acc,
            ws.push(' '),
            m,
            start,
        ),
{
    lemma_nonempty(seq![' ']);
    lemma_char_bytes(' ', 0);
    lemma_past(b, c, a, seq![' '], rest);
    lemma_between(b, c, a, seq![' '] + rest);
    lemma_encode_concat(seq![' '], rest);
    assert(b.subrange(c.offset, c.offset + 1)[0] == b[c.offset]);
    assert(b[c.offset] == SPACE);
}

// ─── Double quotes ──────────────────────────────────────────────────

proof fn lemma_dq_body_front(c: char, v: Seq<char>)
    ensures
        dq_body(seq![c] + v) == dq_char(c) + dq_body(v),
    decreases v.len(),
{
    if v.len() == 0 {
        assert(seq![c] + v =~= seq![c]);
        assert(seq![c].drop_last() =~= Seq::<char>::empty());
        reveal_with_fuel(dq_body, 2);
        assert(dq_body(seq![c]) =~= dq_char(c) + dq_body(v));
    } else {
        lemma_dq_body_front(c, v.drop_last());
        assert((seq![c] + v).drop_last() =~= seq![c] + v.drop_last());
        assert(dq_body(seq![c] + v) =~= dq_char(c) + dq_body(v));
    }
}

/// The rest of a double-quoted text is scanned to what it was written for.
proof fn lemma_dq_rest(
    b: Seq<u8>,
    c: Cur,
    a: Seq<char>,
    v: Seq<char>,
    post: Seq<char>,
    acc: Seq<char>,
    ws: Seq<char>,
    m: Option<int>,
    start: Position,
)
    requires
        between(b, c, a, dq_body(v) + (seq!['"'] + post)),
    ensures
        double_quoted(b, c, acc, ws, m, start) matches Ok((d, value)) && value == acc + ws + v
            && d.offset == b.len() - encode_utf8(post).len() && d == c.to(d.offset),
    decreases v.len(),
{
    if v.len() == 0 {
        assert(dq_body(v) + (seq!['"'] + post) =~= seq!['"'] + post);
        lemma_nonempty(seq!['"']);
        lemma_char_bytes('"', 0);
        lemma_past(b, c, a, seq!['"'], post);
        lemma_between(b, c, a, seq!['"'] + post);
        lemma_encode_concat(seq!['"'], post);
        assert(b.subrange(c.offset, c.offset + 1)[0] == b[c.offset]);
        assert(b[c.offset] == DQUOTE);
        assert(acc + ws + v =~= acc + ws);
    } else {
        let ch = v[0];
        let r = v.drop_first();
        assert(v =~= seq![ch] + r);
        lemma_dq_body_front(ch, r);
        let rest = dq_body(r) + (seq!['"'] + post);
        let piece = dq_char(ch);
        assert(dq_body(v) + (seq!['"'] + post) =~= piece + rest);
        lemma_past(b, c, a, piece, rest);
        let d = c.to(c.offset + encode_utf8(piece).len());
        let u = ch as u32 as nat;
        let next = (acc + ws).push(ch);
        reveal_with_fuel(pow16, 9);
        if named_escape(ch) is Some {
            lemma_dq_named(b, c, a, ch, rest, acc, ws, m, start);
        } else if control(u as int) {
            lemma_dq_hex(b, c, a, ch, 'x', 2, rest, acc, ws, m, start);
        } else if separator_or_format(u as int) {
            if u <= 0xffff {
                lemma_dq_hex(b, c, a, ch, 'u', 4, rest, acc, ws, m, start);
            } else {
                lemma_dq_hex(b, c, a, ch, 'U', 8, rest, acc, ws, m, start);
            }
        } else if ch == ' ' {
            lemma_dq_space(b, c, a, rest, acc, ws, m, start);
        } else {
            assert((ch as u32) < 0x80 ==> !stops(Until::DoubleQuoted, ch as u8)) by {
                if (ch as u32) < 0x80 {
                    if ch as u8 == DQUOTE {
                        lemma_ascii_byte(ch, '"');
                    } else if ch as u8 == BACKSLASH {
                        lemma_ascii_byte(ch, '\\');
                    } else if ch as u8 == SPACE {
                        lemma_ascii_byte(ch, ' ');
                    } else if whitespace(ch as u8) {
                        lemma_ascii_byte(ch, '\t');
                    } else if line_break(ch as u8) {
                        if ch as u8 == crate::scanner::chars::LF {
                            lemma_ascii_byte(ch, '\n');
                        } else {
                            lemma_ascii_byte(ch, '\r');
                        }
                    }
                }
            }
            lemma_dq_plain(b, c, a, ch, rest, acc, ws, m, start);
        }
        if ch == ' ' {
            lemma_dq_rest(b, d, a + piece, r, post, acc, ws.push(' '), m, start);
            assert(acc + ws.push(' ') + r =~= acc + ws + v);
        } else {
            lemma_dq_rest(b, d, a + piece, r, post, next, seq![], m, start);
            assert(next + Seq::<char>::empty() + r =~= acc + ws + v);
        }
    }
}

/// A text written in double quotes is scanned back to that text, on one line, whatever the
/// text is and whatever surrounds it.
pub proof fn law_double_quoted_round_trip(
    pre: Seq<char>,
    v: Seq<char>,
    post: Seq<char>,
    c: Cur,
    m: Option<int>,
    start: Position,
)
    requires
        c.offset == encode_utf8(pre).len() + 1,
    ensures
        double_quoted(
            encode_utf8(pre + double_quoted_text(v) + post),
            c,
            seq![],
            seq![],
            m,
            start,
        ) matches Ok((d, value)) && value == v && d.offset == encode_utf8(
            pre + double_quoted_text(v),
        ).len() && d == c.to(d.offset),
{
    let all = pre + double_quoted_text(v) + post;
    let b = encode_utf8(all);
    let a = pre + seq!['"'];
    let rest = dq_body(v) + (seq!['"'] + post);
    assert(all =~= a + rest);
    lemma_encode_concat(a, rest);
    lemma_encode_concat(pre, seq!['"']);
    lemma_nonempty(seq!['"']);
    lemma_char_bytes('"', 0);
    lemma_dq_rest(b, c, a, v, post, seq![], seq![], m, start);
    assert(Seq::<char>::empty() + Seq::<char>::empty() + v =~= v);
    lemma_encode_concat(pre + double_quoted_text(v), post);
}

/// The state of a scanner behind the start of the stream of a text in double quotes.
spec fn opened(b: Seq<u8>, limits: ResourceLimits) -> Scan {
    Scan::fresh(b, limits, false).stream_start().pop()
}

/// The first byte of a text in double quotes is a quote.
proof fn lemma_first_quote(v: Seq<char>)
    ensures
        encode_utf8(double_quoted_text(v)).len() > 0,
        encode_utf8(double_quoted_text(v))[0] == DQUOTE,
{
    let rest = dq_body(v) + seq!['"'];
    assert(double_quoted_text(v) =~= seq!['"'] + rest);
    lemma_encode_concat(seq!['"'], rest);
    lemma_nonempty(seq!['"']);
    lemma_char_bytes('"', 0);
}

/// The scalar is scanned, and may still be a key.
proof fn lemma_scalar_fetched(v: Seq<char>, limits: ResourceLimits)
    requires
        encode_utf8(double_quoted_text(v)).len() <= limits.max_document_size,
    ensures
        ({
            let b = encode_utf8(double_quoted_text(v));
            &&& opened(b, limits).fetch() matches Ok((t, more))
            &&& more
            &&& t.b == b
            &&& t.limits == limits
            &&& t.cur.offset == b.len()
            &&& t.tokens.len() == 1
            &&& t.tokens[0].kind == (TokenKindView::Scalar {
                value: v,
                style: ScalarStyle::DoubleQuoted,
            })
            &&& t.keys.len() == 1
            &&& t.keys[0].possible
            &&& t.keys[0].index == t.produced
            &&& t.flows.len() == 0
            &&& t.indents.len() == 0
            &&& t.trivia.len() == 0
            &&& t.started && !t.ended && !t.errored && !t.keep_trivia
        }),
{
    reveal(Scan::fetch);
    reveal(Scan::fetch_here);
    reveal(Scan::dispatch);
    reveal(Scan::skip_in_line);
    let b = encode_utf8(double_quoted_text(v));
    lemma_first_quote(v);
    let s = opened(b, limits);
    let g = Scan { after_indicator: false, ..s };
    assert(s.tokens =~= Seq::<TokenView>::empty());
    assert(s.skip_gap(false) == Ok::<Scan, Fail>(g));
    let k = g.stale_keys();
    assert(k.keys =~= g.keys);
    assert(k.unroll(g.cur.column) == k);
    assert(k.check_property() == Ok::<Scan, Fail>(k));
    let n = k.node_start();
    let pre = Seq::<char>::empty();
    assert(encode_utf8(pre) =~= Seq::<u8>::empty());
    assert(pre + double_quoted_text(v) + pre =~= double_quoted_text(v));
    assert(pre + double_quoted_text(v) =~= double_quoted_text(v));
    law_double_quoted_round_trip(pre, v, pre, n.step().cur, Some(n.indent + 1), n.pos());
}

/// Behind the scalar stands the end of the stream.
proof fn lemma_end_fetched(t: Scan)
    requires
        t.cur.offset == t.b.len(),
        t.b.len() <= t.limits.max_document_size,
        t.keys.len() == 1,
        t.flows.len() == 0,
        t.indents.len() == 0,
        t.started,
        !t.ended,
        !t.keep_trivia,
    ensures
        t.fetch() matches Ok((u, more)) && more && u.tokens == t.tokens.push(u.tokens.last())
            && u.tokens.last().kind is StreamEnd && u.keys.len() == 1 && !u.keys[0].possible
            && u.ended && u.started && u.b == t.b && u.cur == t.cur && u.errored == t.errored
            && u.keep_trivia == t.keep_trivia && u.produced == t.produced && u.trivia == t.trivia
            && u.indents.len() == 0,
{
    reveal(Scan::fetch);
    reveal(Scan::fetch_here);
    reveal(Scan::skip_in_line);
    let g = Scan { after_indicator: false, ..t };
    assert(t.skip_gap(false) == Ok::<Scan, Fail>(g));
    let k = g.stale_keys();
    assert(k.unroll(g.cur.column) == k);
    assert(k.unroll(-1) == k);
}

/// A text written in double quotes, alone in an input, is scanned to exactly that scalar.
pub proof fn law_double_quoted_alone(v: Seq<char>, limits: ResourceLimits)
    requires
        encode_utf8(double_quoted_text(v)).len() <= limits.max_document_size,
    ensures
        ({
            let q = tape(Scan::fresh(encode_utf8(double_quoted_text(v)), limits, false));
            &&& q.len() == 3
            &&& q[0].kind is StreamStart
            &&& q[1].kind == (TokenKindView::Scalar {
                value: v,
                style: ScalarStyle::DoubleQuoted,
            })
            &&& q[2].kind is StreamEnd
        }),
{
    reveal(Scan::next);
    reveal(Scan::next_token);
    let b = encode_utf8(double_quoted_text(v));
    lemma_first_quote(v);
    let s0 = Scan::fresh(b, limits, false);
    let s1 = s0.stream_start();
    assert(s0.fetch() == Ok::<(Scan, bool), Fail>((s1, true))) by {
        reveal(Scan::fetch);
    }
    assert(!s1.pending());
    assert(s1.front() == Front::Ready(s1));
    assert(s0.front() == Front::Ready(s1));
    let s2 = s1.pop();
    assert(s0.next() == Next::Token(s1.tokens[0], s2));
    lemma_scalar_fetched(v, limits);
    let t = s2.fetch()->Ok_0.0;
    lemma_end_fetched(t);
    let u = t.fetch()->Ok_0.0;
    assert(t.pending()) by {
        assert(t.keys[0].possible && t.keys[0].index == t.produced);
    }
    assert(!u.pending());
    assert(u.front() == Front::Ready(u));
    assert(t.front() == Front::Ready(u));
    assert(s2.tokens =~= Seq::<TokenView>::empty());
    assert(s2.front() == Front::Ready(u));
    assert(u.tokens[0] == t.tokens[0]);
    let s3 = u.pop();
    assert(s2.next() == Next::Token(u.tokens[0], s3));
    assert(s3.tokens.len() == 1);
    assert(!s3.pending());
    assert(s3.front() == Front::Ready(s3));
    let s4 = s3.pop();
    assert(s3.next() == Next::Token(s3.tokens[0], s4));
    assert(s3.tokens[0] == u.tokens.last());
    assert(s4.tokens.len() == 0);
    assert(s4.front() == Front::Exhausted(s4));
    assert(s4.next() == Next::End(s4));
    reveal_with_fuel(tape, 5);
    assert(tape(s4) =~= Seq::<TokenView>::empty());
    assert(tape(s3) =~= seq![s3.tokens[0]]);
    assert(tape(s2) =~= seq![u.tokens[0], s3.tokens[0]]);
    assert(tape(s0) =~= seq![s1.tokens[0], u.tokens[0], s3.tokens[0]]);
}

/// A hexadecimal number has no control characters.
proof fn lemma_hex_printable(n: nat, w: nat, i: int)
    requires
        0 <= i < hex_padded(n, w).len(),
    ensures
        !control(hex_padded(n, w)[i] as u32 as int),
    decreases w,
{
    if w > 0 {
        let init = hex_padded(n / 16, (w - 1) as nat);
        if i < init.len() {
            lemma_hex_printable(n / 16, (w - 1) as nat, i);
        } else {
            let d = n % 16;
            assert(d < 16);
            assert(hex_upper(d) as u32 >= 0x30 && hex_upper(d) as u32 <= 0x46);
        }
    }
}

proof fn lemma_char_printable(c: char, i: int)
    requires
        0 <= i < dq_char(c).len(),
    ensures
        !control(dq_char(c)[i] as u32 as int),
{
    let u = c as u32 as nat;
    if named_escape(c) is None && control(u as int) {
        if i >= 2 {
            lemma_hex_printable(u, 2, i - 2);
            assert(dq_char(c)[i] == hex_padded(u, 2)[i - 2]);
        }
    } else if named_escape(c) is None && separator_or_format(u as int) {
        let w: nat = if u <= 0xffff {
            4
        } else {
            8
        };
        if i >= 2 {
            lemma_hex_printable(u, w, i - 2);
            assert(dq_char(c)[i] == hex_padded(u, w)[i - 2]);
        }
    }
}

proof fn lemma_body_printable(v: Seq<char>, i: int)
    requires
        0 <= i < dq_body(v).len(),
    ensures
        !control(dq_body(v)[i] as u32 as int),
    decreases v.len(),
{
    let init = dq_body(v.drop_last());
    if i < init.len() {
        lemma_body_printable(v.drop_last(), i);
    } else {
        lemma_char_printable(v.last(), i - init.len());
        assert(dq_body(v)[i] == dq_char(v.last())[i - init.len()]);
    }
}

/// A text written in double quotes holds no control character, whatever the text is.
pub proof fn law_double_quoted_is_printable(v: Seq<char>, i: int)
    requires
        0 <= i < double_quoted_text(v).len(),
    ensures
        !control(double_quoted_text(v)[i] as u32 as int),
{
    let n = dq_body(v).len() as int;
    if 0 < i <= n {
        lemma_body_printable(v, i - 1);
        assert(double_quoted_text(v)[i] == dq_body(v)[i - 1]);
    }
}

// ─── Single quotes ──────────────────────────────────────────────────

proof fn lemma_sq_body_front(c: char, v: Seq<char>)
    ensures
        sq_body(seq![c] + v) == sq_char(c) + sq_body(v),
    decreases v.len(),
{
    if v.len() == 0 {
        assert(seq![c] + v =~= seq![c]);
        assert(seq![c].drop_last() =~= Seq::<char>::empty());
        reveal_with_fuel(sq_body, 2);
        assert(sq_body(seq![c]) =~= sq_char(c) + sq_body(v));
    } else {
        lemma_sq_body_front(c, v.drop_last());
        assert((seq![c] + v).drop_last() =~= seq![c] + v.drop_last());
        assert(sq_body(seq![c] + v) =~= sq_char(c) + sq_body(v));
    }
}

/// A character other than a quote or a line break in a single-quoted scalar stands
/// for itself.
proof fn lemma_sq_plain(
    b: Seq<u8>,
    c: Cur,
    a: Seq<char>,
    ch: char,
    rest: Seq<char>,
    acc: Seq<char>,
    start: Position,
)
    requires
        between(b, c, a, seq![ch] + rest),
        ch != '\'' && ch != '\n' && ch != '\r',
    ensures
        single_quoted(b, c, acc, start) == single_quoted(
            b,
            c.to(c.offset + encode_utf8(seq![ch]).len()),
            acc.push(ch),
            start,
        ),
{
    let u = Until::SingleQuoted;
    lemma_char_in_run(b, c, a, ch, rest, u);
    let k = encode_utf8(seq![ch]).len() as int;
    let d = c.to(c.offset + k);
    let e = run_end(b, c.offset, u);
    let acc2 = acc.push(ch);
    assert(acc2 =~= acc + seq![ch]);
    if d.offset < e {
        lemma_run(b, d.offset, u);
        assert(!stops(u, b[d.offset]));
        assert(d.to(e) == c.to(e));
        assert(acc2 + text(b, d.offset, e) =~= acc + text(b, c.offset, e));
    } else {
        crate::text::lemma_text_empty(b, e);
        assert(acc + text(b, c.offset, e) =~= acc2);
    }
}

/// The rest of a single-quoted text is scanned to what it was written for.
proof fn lemma_sq_rest(
    b: Seq<u8>,
    c: Cur,
    a: Seq<char>,
    v: Seq<char>,
    post: Seq<char>,
    acc: Seq<char>,
    start: Position,
)
    requires
        between(b, c, a, sq_body(v) + (seq!['\''] + post)),
        !v.contains('\n') && !v.contains('\r'),
        post.len() == 0 || post[0] != '\'',
    ensures
        single_quoted(b, c, acc, start) matches Ok((d, value)) && value == acc + v && d.offset
            == b.len() - encode_utf8(post).len() && d == c.to(d.offset),
    decreases v.len(),
{
    let q = seq!['\''];
    lemma_nonempty(q);
    lemma_char_bytes('\'', 0);
    if v.len() == 0 {
        assert(sq_body(v) + (q + post) =~= q + post);
        lemma_past(b, c, a, q, post);
        lemma_between(b, c, a, q + post);
        lemma_encode_concat(q, post);
        assert(b.subrange(c.offset, c.offset + 1)[0] == b[c.offset]);
        assert(b[c.offset] == SQUOTE);
        let d = c.to(c.offset + 1);
        lemma_between(b, d, a + q, post);
        if post.len() > 0 {
            lemma_first_byte(post, '\'');
            assert(b[d.offset + 0] == encode_utf8(post)[0]);
        }
        assert(acc + v =~= acc);
    } else {
        let ch = v[0];
        let r = v.drop_first();
        assert(v =~= seq![ch] + r);
        assert(v.contains(ch));
        assert(!r.contains('\n') && !r.contains('\r')) by {
            if r.contains('\n') {
                let i = choose|i: int| 0 <= i < r.len() && r[i] == '\n';
                assert(v[i + 1] == '\n');
            }
            if r.contains('\r') {
                let i = choose|i: int| 0 <= i < r.len() && r[i] == '\r';
                assert(v[i + 1] == '\r');
            }
        }
        lemma_sq_body_front(ch, r);
        let rest = sq_body(r) + (q + post);
        let piece = sq_char(ch);
        assert(sq_body(v) + (q + post) =~= piece + rest);
        lemma_past(b, c, a, piece, rest);
        let d = c.to(c.offset + encode_utf8(piece).len());
        if ch == '\'' {
            assert(is_ascii_chars(piece));
            is_ascii_chars_encode_utf8(piece);
            lemma_between(b, c, a, piece + rest);
            lemma_encode_concat(piece, rest);
            assert(b.subrange(c.offset, c.offset + 2)[0] == b[c.offset]);
            assert(b.subrange(c.offset, c.offset + 2)[1] == b[c.offset + 1]);
            assert(b[c.offset] == SQUOTE && b[c.offset + 1] == SQUOTE);
        } else {
            lemma_sq_plain(b, c, a, ch, rest, acc, start);
        }
        lemma_sq_rest(b, d, a + piece, r, post, acc.push(ch), start);
        assert(acc.push(ch) + r =~= acc + v);
    }
}

/// A text that starts with another character than the ASCII character `x` starts with
/// another byte.
proof fn lemma_first_byte(s: Seq<char>, x: char)
    requires
        s.len() > 0,
        s[0] != x,
        (x as u32) < 0x80,
    ensures
        encode_utf8(s).len() > 0,
        encode_utf8(s)[0] != x as u8,
{
    lemma_encode_concat(seq![s[0]], s.drop_first());
    assert(s =~= seq![s[0]] + s.drop_first());
    lemma_nonempty(seq![s[0]]);
    lemma_char_bytes(s[0], 0);
    assert(encode_utf8(s)[0] == encode_utf8(seq![s[0]])[0]);
    if (s[0] as u32) < 0x80 && s[0] as u8 == x as u8 {
        lemma_ascii_byte(s[0], x);
    }
    assert((x as u8) < 0x80);
}

/// A text without line breaks written in single quotes is scanned back to that text, on
/// one line, whatever surrounds it, unless another quote follows.
pub proof fn law_single_quoted_round_trip(
    pre: Seq<char>,
    v: Seq<char>,
    post: Seq<char>,
    c: Cur,
    start: Position,
)
    requires
        c.offset == encode_utf8(pre).len() + 1,
        !v.contains('\n') && !v.contains('\r'),
        post.len() == 0 || post[0] != '\'',
    ensures
        single_quoted(
            encode_utf8(pre + single_quoted_text(v) + post),
            c,
            seq![],
            start,
        ) matches Ok((d, value)) && value == v && d.offset == encode_utf8(
            pre + single_quoted_text(v),
        ).len() && d == c.to(d.offset),
{
    let all = pre + single_quoted_text(v) + post;
    let b = encode_utf8(all);
    let a = pre + seq!['\''];
    let rest = sq_body(v) + (seq!['\''] + post);
    assert(all =~= a + rest);
    lemma_encode_concat(a, rest);
    lemma_encode_concat(pre, seq!['\'']);
    lemma_nonempty(seq!['\'']);
    lemma_char_bytes('\'', 0);
    lemma_sq_rest(b, c, a, v, post, seq![], start);
    assert(Seq::<char>::empty() + v =~= v);
    lemma_encode_concat(pre + single_quoted_text(v), post);
}

} // verus!
