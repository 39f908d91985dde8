//! Numbers as text: which texts denote integers and floating-point numbers, and the
//! canonical text of an integer.
use crate::text::{parse_digits, push_decimal, push_text};
use vstd::prelude::*;
use vstd::string::*;

verus! {

/// A text without its sign, and whether it had a minus.
pub open spec fn unsigned(s: Seq<char>) -> (bool, Seq<char>) {
    if s.len() > 0 && (s[0] == '-' || s[0] == '+') {
        (s[0] == '-', s.drop_first())
    } else {
        (false, s)
    }
}

/// The integer that a text denotes: decimal digits with an optional sign, within the
/// range of 64 bits.
pub open spec fn integer_value(s: Seq<char>) -> Option<int> {
    let (negative, digits) = unsigned(s);
    match crate::text::digits_value(digits) {
        None => None,
        Some(n) => {
            let value = if negative {
                -(n as int)
            } else {
                n as int
            };
            if i64::MIN <= value <= i64::MAX {
                Some(value)
            } else {
                None
            }
        },
    }
}

/// The canonical text of an integer.
pub open spec fn integer_text(i: int) -> Seq<char> {
    if i < 0 {
        seq!['-'] + crate::text::decimal((-i) as nat)
    } else {
        crate::text::decimal(i as nat)
    }
}

/// The place behind the decimal digits that start at `i`.
pub open spec fn digits_end(s: Seq<char>, i: int) -> int
    decreases s.len() - i,
{
    if 0 <= i < s.len() && crate::text::is_digit_char(s[i]) {
        digits_end(s, i + 1)
    } else {
        i
    }
}

/// Whether an exponent, or nothing, makes up the rest of the text from `i` on.
pub open spec fn exponent_from(s: Seq<char>, i: int) -> bool {
    if i >= s.len() {
        true
    } else if s[i] == 'e' || s[i] == 'E' {
        let d = if i + 1 < s.len() && (s[i + 1] == '-' || s[i + 1] == '+') {
            i + 2
        } else {
            i + 1
        };
        d < s.len() && digits_end(s, d) == s.len()
    } else {
        false
    }
}

/// Whether a text without sign is a decimal number: digits, with a point before,
/// among or behind them, and an optional exponent.
pub open spec fn is_decimal_number(s: Seq<char>) -> bool {
    let whole = digits_end(s, 0);
    if whole < s.len() && s[whole] == '.' {
        let end = digits_end(s, whole + 1);
        (whole > 0 || end > whole + 1) && exponent_from(s, end)
    } else {
        whole > 0 && exponent_from(s, whole)
    }
}

/// The lower-case form of an ASCII letter; other characters as they are.
pub open spec fn lower(c: char) -> char {
    if 0x41 <= c as u32 <= 0x5a {
        (c as u32 + 0x20) as char
    } else {
        c
    }
}

/// A text with its ASCII letters in lower case.
pub open spec fn lowered(s: Seq<char>) -> Seq<char> {
    Seq::new(s.len(), |i: int| lower(s[i]))
}

/// Whether a text denotes a floating-point number: a decimal number, an infinity or
/// not-a-number, with an optional sign.
pub open spec fn is_float(s: Seq<char>) -> bool {
    let t = unsigned(s).1;
    is_decimal_number(t) || lowered(t) == "inf"@ || lowered(t) == "infinity"@ || lowered(t)
        == "nan"@
}

/// The decimal notation of a number consists of digits, and denotes the number.
pub proof fn lemma_decimal_digits(n: nat)
    ensures
        crate::text::decimal(n).len() > 0,
        forall|i: int|
            0 <= i < crate::text::decimal(n).len() ==> crate::text::is_digit_char(
                #[trigger] crate::text::decimal(n)[i],
            ),
        crate::text::number(crate::text::decimal(n)) == n,
    decreases n,
{
    let d = (n % 10) as nat;
    let c = crate::text::digit(d);
    assert(c as u32 == 48 + d);
    if n < 10 {
        reveal_with_fuel(crate::text::number, 2);
        assert(crate::text::decimal(n) =~= seq![c]);
        assert(seq![c].drop_last() =~= Seq::<char>::empty());
    } else {
        lemma_decimal_digits(n / 10);
        let head = crate::text::decimal(n / 10);
        assert(crate::text::decimal(n) =~= head.push(c));
        assert(head.push(c).drop_last() =~= head);
    }
}

/// The canonical text of an integer denotes that integer.
pub proof fn law_integer_text(i: int)
    requires
        i64::MIN <= i <= i64::MAX,
    ensures
        integer_value(integer_text(i)) == Some(i),
{
    if i < 0 {
        let digits = crate::text::decimal((-i) as nat);
        lemma_decimal_digits((-i) as nat);
        assert((seq!['-'] + digits).drop_first() =~= digits);
    } else {
        let digits = crate::text::decimal(i as nat);
        lemma_decimal_digits(i as nat);
        assert(crate::text::is_digit_char(digits[0]));
        assert(digits[0] != '-' && digits[0] != '+');
    }
}

/// The characters of a text.
fn chars_of(s: &str) -> (r: Vec<char>)
    ensures
        r@ == s@,
{
    let mut chars: Vec<char> = Vec::new();
    push_text(&mut chars, s);
    assert(chars@ =~= s@);
    chars
}

/// The integer that a text denotes.
pub fn parse_integer(s: &str) -> (r: Option<i64>)
    ensures
        match integer_value(s@) {
            Some(i) => r == Some(i as i64),
            None => r is None,
        },
{
    let chars = chars_of(s);
    let signed = chars.len() > 0 && (chars[0] == '-' || chars[0] == '+');
    let negative = chars.len() > 0 && chars[0] == '-';
    let from: usize = if signed {
        1
    } else {
        0
    };
    proof {
        if signed {
            assert(s@.subrange(1, s@.len() as int) =~= s@.drop_first());
        } else {
            assert(s@.subrange(0, s@.len() as int) =~= s@);
        }
    }
    match parse_digits(&chars, from) {
        None => None,
        Some(n) => {
            if negative {
                if n <= 0x7fff_ffff_ffff_ffff {
                    Some(-(n as i64))
                } else if n == 0x8000_0000_0000_0000 {
                    Some(i64::MIN)
                } else {
                    None
                }
            } else if n <= 0x7fff_ffff_ffff_ffff {
                Some(n as i64)
            } else {
                None
            }
        },
    }
}

/// The canonical text of an integer.
pub fn integer_string(i: i64) -> (r: String)
    ensures
        r@ == integer_text(i as int),
{
    let mut s = String::new();
    if i < 0 {
        s.push('-');
        let n: u64 = if i == i64::MIN {
            0x8000_0000_0000_0000
        } else {
            (-i) as u64
        };
        push_decimal(&mut s, n);
    } else {
        push_decimal(&mut s, i as u64);
    }
    assert(s@ =~= integer_text(i as int));
    s
}

/// The place behind the decimal digits that start at `from`.
fn find_digits_end(v: &Vec<char>, from: usize) -> (r: usize)
    requires
        from <= v@.len(),
    ensures
        r == digits_end(v@, from as int),
        from <= r <= v@.len(),
{
    let mut i: usize = from;
    while i < v.len() && 0x30 <= v[i] as u32 && v[i] as u32 <= 0x39
        invariant
            from <= i <= v@.len(),
            digits_end(v@, i as int) == digits_end(v@, from as int),
        decreases v@.len() - i,
    {
        i += 1;
    }
    i
}

/// Whether an exponent, or nothing, makes up the rest of the text from `i` on.
fn has_exponent_from(v: &Vec<char>, i: usize) -> (r: bool)
    requires
        i <= v@.len(),
    ensures
        r == exponent_from(v@, i as int),
{
    let n: usize = v.len();
    if i >= n {
        return true;
    }
    if v[i] != 'e' && v[i] != 'E' {
        return false;
    }
    let mut d: usize = i + 1;
    if d < n && (v[d] == '-' || v[d] == '+') {
        d += 1;
    }
    d < n && find_digits_end(v, d) == n
}

/// Whether a text without sign is a decimal number.
fn decimal_number(v: &Vec<char>) -> (r: bool)
    ensures
        r == is_decimal_number(v@),
{
    let n: usize = v.len();
    let whole: usize = find_digits_end(v, 0);
    if whole < n && v[whole] == '.' {
        let end: usize = find_digits_end(v, whole + 1);
        (whole > 0 || end > whole + 1) && has_exponent_from(v, end)
    } else {
        whole > 0 && has_exponent_from(v, whole)
    }
}

/// A text with its ASCII letters in lower case.
pub fn ascii_lowercase(s: &str) -> (r: String)
    ensures
        r@ == lowered(s@),
{
    let mut out = String::new();
    for c in it: s.chars()
        invariant
            it.seq() == s@,
            out@ == lowered(s@).subrange(0, it.index()),
    {
        let x: u32 = c as u32;
        if 0x41 <= x && x <= 0x5a {
            out.push(((x as u8) + 0x20) as char);
        } else {
            out.push(c);
        }
        assert(out@ =~= lowered(s@).subrange(0, it.index() + 1));
    }
    assert(out@ =~= lowered(s@));
    out
}

/// Whether a text denotes a floating-point number.
pub fn is_float_text(s: &str) -> (r: bool)
    ensures
        r == is_float(s@),
{
    let chars = chars_of(s);
    let mut rest: Vec<char> = Vec::new();
    let mut i: usize = if chars.len() > 0 && (chars[0] == '-' || chars[0] == '+') {
        1
    } else {
        0
    };
    let ghost t = unsigned(s@).1;
    let ghost from = i as int;
    assert(t =~= s@.subrange(from, s@.len() as int));
    while i < chars.len()
        invariant
            from <= i <= chars@.len(),
            0 <= from,
            chars@ == s@,
            rest@ == s@.subrange(from, i as int),
        decreases chars@.len() - i,
    {
        rest.push(chars[i]);
        i += 1;
        assert(rest@ =~= s@.subrange(from, i as int));
    }
    if decimal_number(&rest) {
        return true;
    }
    let word = ascii_lowercase(crate::text::string_of(&rest).as_str());
    crate::text::same_text(word.as_str(), "inf") || crate::text::same_text(
        word.as_str(),
        "infinity",
    ) || crate::text::same_text(word.as_str(), "nan")
}

} // verus!
