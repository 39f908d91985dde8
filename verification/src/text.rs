//! Text as bytes and as characters.
//!
//! The input of the scanner is a `&str`. Offsets into it are byte offsets, so
//! the specifications speak of its UTF-8 bytes; what a token holds is text, so
//! they speak of characters there. This module relates the two views.
use std::borrow::Cow;
use vstd::prelude::*;
use vstd::string::*;
use vstd::utf8::*;

verus! {

/// Appends one character.
///
/// Stands for `String::push`, documented to append the given `char` to the end
/// of the string.
pub assume_specification[ std::string::String::push ](s: &mut std::string::String, c: char)
    ensures
        final(s)@ == old(s)@.push(c),
;

/// Whether `i` lies between two characters of the UTF-8 text `b`.
pub open spec fn at_boundary(b: Seq<u8>, i: int) -> bool {
    i == b.len() || (0 <= i < b.len() && !is_continuation_byte(b[i]))
}

/// The characters that the bytes `lo..hi` of `b` encode.
pub open spec fn text(b: Seq<u8>, lo: int, hi: int) -> Seq<char> {
    decode_utf8(b.subrange(lo, hi))
}

/// A byte below 0x80 stands for a character of its own.
pub proof fn lemma_ascii_boundary(b: Seq<u8>, i: int)
    requires
        valid_utf8(b),
        0 <= i < b.len(),
        b[i] < 0x80,
    ensures
        at_boundary(b, i),
        at_boundary(b, i + 1),
{
    lemma_boundary(b, i);
    valid_utf8_split(b, i);
    let rest = b.subrange(i, b.len() as int);
    assert(rest[0] == b[i]);
    assert(valid_utf8(pop_first_scalar(rest)));
    assert(length_of_first_scalar(rest) == 1);
    let tail = pop_first_scalar(rest);
    if i + 1 < b.len() {
        assert(tail[0] == b[i + 1]);
        assert(valid_first_scalar(tail));
    }
}

/// `at_boundary` is the notion of boundary that `str` uses.
pub proof fn lemma_boundary(b: Seq<u8>, i: int)
    requires
        valid_utf8(b),
        0 <= i <= b.len(),
    ensures
        is_char_boundary(b, i) == at_boundary(b, i),
{
    is_char_boundary_start_end_of_seq(b);
    if i < b.len() {
        is_char_boundary_iff_not_is_continuation_byte(b, i);
    }
}

/// The start of a text is a boundary.
pub proof fn lemma_boundary_zero(b: Seq<u8>)
    requires
        valid_utf8(b),
    ensures
        at_boundary(b, 0),
        at_boundary(b, b.len() as int),
{
    is_char_boundary_start_end_of_seq(b);
    lemma_boundary(b, 0);
}

/// Cutting a text at boundaries leaves texts.
pub proof fn lemma_text_valid(b: Seq<u8>, lo: int, hi: int)
    requires
        valid_utf8(b),
        0 <= lo <= hi <= b.len(),
        at_boundary(b, lo),
        at_boundary(b, hi),
    ensures
        valid_utf8(b.subrange(lo, hi)),
{
    lemma_boundary(b, hi);
    valid_utf8_split(b, hi);
    let head = b.subrange(0, hi);
    assert(at_boundary(head, lo)) by {
        if lo < hi {
            assert(head[lo] == b[lo]);
        }
    }
    lemma_boundary(head, lo);
    valid_utf8_split(head, lo);
    assert(head.subrange(lo, hi) =~= b.subrange(lo, hi));
}

/// Adjacent pieces of a text join to the piece that spans both.
pub proof fn lemma_text_join(b: Seq<u8>, lo: int, mid: int, hi: int)
    requires
        valid_utf8(b),
        0 <= lo <= mid <= hi <= b.len(),
        at_boundary(b, lo),
        at_boundary(b, mid),
        at_boundary(b, hi),
    ensures
        text(b, lo, mid) + text(b, mid, hi) == text(b, lo, hi),
{
    lemma_text_valid(b, lo, hi);
    let whole = b.subrange(lo, hi);
    let m = mid - lo;
    assert(at_boundary(whole, m)) by {
        if mid < hi {
            assert(whole[m] == b[mid]);
        }
    }
    lemma_boundary(whole, m);
    decode_utf8_split(whole, m);
    assert(whole.subrange(0, m) =~= b.subrange(lo, mid));
    assert(whole.subrange(m, whole.len() as int) =~= b.subrange(mid, hi));
}

/// An empty range holds no characters.
pub proof fn lemma_text_empty(b: Seq<u8>, i: int)
    requires
        0 <= i <= b.len(),
    ensures
        text(b, i, i) == Seq::<char>::empty(),
{
    assert(b.subrange(i, i) =~= Seq::<u8>::empty());
}

/// A non-empty range between boundaries holds at least one character.
pub proof fn lemma_text_nonempty(b: Seq<u8>, lo: int, hi: int)
    requires
        valid_utf8(b),
        0 <= lo < hi <= b.len(),
        at_boundary(b, lo),
        at_boundary(b, hi),
    ensures
        text(b, lo, hi).len() > 0,
{
    lemma_text_valid(b, lo, hi);
}

/// One ASCII byte is one character.
pub proof fn lemma_text_ascii(b: Seq<u8>, i: int)
    requires
        valid_utf8(b),
        0 <= i < b.len(),
        b[i] < 0x80,
    ensures
        text(b, i, i + 1) == seq![b[i] as char],
{
    lemma_ascii_boundary(b, i);
    lemma_text_valid(b, i, i + 1);
    let s = b.subrange(i, i + 1);
    assert(s[0] == b[i]);
    reveal_with_fuel(decode_utf8, 2);
    assert(pop_first_scalar(s) =~= Seq::<u8>::empty());
    let x = b[i];
    assert(x < 0x80 ==> (x & 0x7f) == x) by (bit_vector);
    assert(decode_first_scalar(s) == b[i] as u32);
}

/// The text of a whole string is the string.
pub proof fn lemma_text_whole(s: Seq<char>)
    ensures
        valid_utf8(encode_utf8(s)),
        text(encode_utf8(s), 0, encode_utf8(s).len() as int) == s,
{
    encode_utf8_valid_utf8(s);
    encode_utf8_decode_utf8(s);
    let b = encode_utf8(s);
    assert(b.subrange(0, b.len() as int) =~= b);
}

/// The part of `input` between two byte offsets.
pub fn slice<'a>(input: &'a str, lo: usize, hi: usize) -> (r: &'a str)
    requires
        lo <= hi <= input.spec_bytes().len(),
        at_boundary(input.spec_bytes(), lo as int),
        at_boundary(input.spec_bytes(), hi as int),
    ensures
        r@ == text(input.spec_bytes(), lo as int, hi as int),
        r.spec_bytes() == input.spec_bytes().subrange(lo as int, hi as int),
{
    let ghost b = input.spec_bytes();
    proof {
        lemma_text_whole(input@);
        lemma_boundary(b, hi as int);
    }
    let (head, _tail) = input.split_at(hi);
    proof {
        lemma_text_whole(head@);
        assert(at_boundary(head.spec_bytes(), lo as int)) by {
            if lo < hi {
                assert(head.spec_bytes()[lo as int] == b[lo as int]);
            }
        }
        lemma_boundary(head.spec_bytes(), lo as int);
    }
    let (_init, r) = head.split_at(lo);
    proof {
        assert(r.spec_bytes() =~= b.subrange(lo as int, hi as int));
        encode_utf8_decode_utf8(r@);
    }
    r
}

/// The text of a `Cow`.
pub fn cow_str<'b>(c: &'b Cow<'_, str>) -> (r: &'b str)
    ensures
        r@ == c@,
{
    match c {
        Cow::Borrowed(s) => s,
        Cow::Owned(s) => s.as_str(),
    }
}

/// The decimal digit of a number below ten.
pub open spec fn digit(d: nat) -> char {
    (48 + d) as char
}

/// A number in decimal notation, without leading zeros.
pub open spec fn decimal(n: nat) -> Seq<char>
    decreases n,
{
    if n < 10 {
        seq![digit(n)]
    } else {
        decimal(n / 10).push(digit(n % 10))
    }
}

/// Appends a number in decimal notation.
pub fn push_decimal(s: &mut String, n: u64)
    ensures
        final(s)@ == old(s)@ + decimal(n as nat),
    decreases n,
{
    if n >= 10 {
        push_decimal(s, n / 10);
    }
    let d: u8 = (n % 10) as u8;
    s.push((48 + d) as char);
    assert(s@ =~= old(s)@ + decimal(n as nat));
}

/// A number in decimal notation.
pub fn decimal_string(n: u64) -> (r: String)
    ensures
        r@ == decimal(n as nat),
{
    let mut r = String::new();
    push_decimal(&mut r, n);
    assert(r@ =~= decimal(n as nat));
    r
}

/// A character between single quotes.
pub open spec fn quoted(c: char) -> Seq<char> {
    seq!['\'', c, '\'']
}

/// Writes a character between single quotes.
pub fn quoted_string(c: char) -> (r: String)
    ensures
        r@ == quoted(c),
{
    let mut r = String::new();
    r.push('\'');
    r.push(c);
    r.push('\'');
    assert(r@ =~= quoted(c));
    r
}

/// Appends the characters of `s` to `buf`.
pub fn push_text(buf: &mut Vec<char>, s: &str)
    ensures
        final(buf)@ == old(buf)@ + s@,
{
    for c in it: s.chars()
        invariant
            it.seq() == s@,
            buf@ == old(buf)@ + s@.subrange(0, it.index()),
    {
        buf.push(c);
        assert(buf@ =~= old(buf)@ + s@.subrange(0, it.index() + 1));
    }
    assert(s@.subrange(0, s@.len() as int) =~= s@);
}

/// The string whose characters are those of `v`.
pub fn string_of(v: &Vec<char>) -> (r: String)
    ensures
        r@ == v@,
{
    let mut r = String::new();
    let mut i: usize = 0;
    while i < v.len()
        invariant
            i <= v.len(),
            r@ == v@.subrange(0, i as int),
        decreases v.len() - i,
    {
        r.push(v[i]);
        i += 1;
        assert(r@ =~= v@.subrange(0, i as int));
    }
    assert(v@.subrange(0, v.len() as int) =~= v@);
    r
}

/// A decimal digit.
pub open spec fn is_digit_char(c: char) -> bool {
    0x30 <= c as u32 <= 0x39
}

/// The number that some decimal digits denote.
pub open spec fn number(s: Seq<char>) -> nat
    decreases s.len(),
{
    if s.len() == 0 {
        0
    } else {
        number(s.drop_last()) * 10 + (s.last() as u32 - 0x30) as nat
    }
}

/// The number that a text of decimal digits, at least one, denotes.
pub open spec fn digits_value(s: Seq<char>) -> Option<nat> {
    if s.len() > 0 && forall|i: int| 0 <= i < s.len() ==> is_digit_char(#[trigger] s[i]) {
        Some(number(s))
    } else {
        None
    }
}

/// More digits never make a smaller number.
proof fn lemma_number_grows(s: Seq<char>, k: int)
    requires
        0 <= k <= s.len(),
    ensures
        number(s.subrange(0, k)) <= number(s),
    decreases s.len() - k,
{
    if k < s.len() {
        lemma_number_grows(s, k + 1);
        assert(s.subrange(0, k + 1).drop_last() =~= s.subrange(0, k));
    } else {
        assert(s.subrange(0, k) =~= s);
    }
}

/// Reads the decimal digits of `v` from `from` on as a number.
pub fn parse_digits(v: &Vec<char>, from: usize) -> (r: Option<u64>)
    requires
        from <= v@.len(),
    ensures
        match digits_value(v@.subrange(from as int, v@.len() as int)) {
            Some(n) => r == (if n <= u64::MAX {
                Some(n as u64)
            } else {
                None
            }),
            None => r is None,
        },
{
    let ghost s = v@.subrange(from as int, v@.len() as int);
    if from == v.len() {
        return None;
    }
    let mut value: u64 = 0;
    let mut i: usize = from;
    assert(s.subrange(0, 0) =~= Seq::<char>::empty());
    while i < v.len()
        invariant
            from <= i <= v@.len(),
            from < v@.len(),
            s == v@.subrange(from as int, v@.len() as int),
            value == number(s.subrange(0, i - from)),
            forall|j: int| 0 <= j < i - from ==> is_digit_char(#[trigger] s[j]),
        decreases v@.len() - i,
    {
        let c = v[i];
        assert(c == s[i - from]);
        let x: u32 = c as u32;
        if x < 0x30 || x > 0x39 {
            assert(!is_digit_char(s[i - from]));
            return None;
        }
        let d: u64 = (x - 0x30) as u64;
        proof {
            lemma_number_grows(s, i - from + 1);
            assert(s.subrange(0, i - from + 1).drop_last() =~= s.subrange(0, i - from));
        }
        if value > (u64::MAX - d) / 10 {
            return None;
        }
        value = value * 10 + d;
        i += 1;
    }
    assert(s.subrange(0, s.len() as int) =~= s);
    Some(value)
}

/// The number that a text denotes: decimal digits, with an optional `+`, within the
/// range of `usize`.
pub open spec fn usize_value(s: Seq<char>) -> Option<nat> {
    let digits = if s.len() > 0 && s[0] == '+' {
        s.drop_first()
    } else {
        s
    };
    match digits_value(digits) {
        Some(n) => if n <= usize::MAX {
            Some(n)
        } else {
            None
        },
        None => None,
    }
}

/// The number that a text denotes.
pub fn parse_usize(s: &str) -> (r: Option<usize>)
    ensures
        match usize_value(s@) {
            Some(n) => r == Some(n as usize),
            None => r is None,
        },
{
    let mut chars: Vec<char> = Vec::new();
    push_text(&mut chars, s);
    assert(chars@ =~= s@);
    let from: usize = if chars.len() > 0 && chars[0] == '+' {
        1
    } else {
        0
    };
    proof {
        if from == 1 {
            assert(s@.subrange(1, s@.len() as int) =~= s@.drop_first());
        } else {
            assert(s@.subrange(0, s@.len() as int) =~= s@);
        }
    }
    match parse_digits(&chars, from) {
        Some(n) => if n <= usize::MAX as u64 {
            Some(n as usize)
        } else {
            None
        },
        None => None,
    }
}

/// Whether two texts are the same.
pub fn same_text(a: &str, b: &str) -> (r: bool)
    ensures
        r == (a@ == b@),
{
    a.to_owned() == b.to_owned()
}

} // verus!
