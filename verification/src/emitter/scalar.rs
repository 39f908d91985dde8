//! How scalar values are written in each style.
use vstd::prelude::*;
use vstd::string::*;

verus! {

/// `n` spaces.
pub open spec fn blanks(n: nat) -> Seq<char> {
    Seq::new(n, |i: int| ' ')
}

/// A character inside single quotes: a quote is doubled.
pub open spec fn sq_char(c: char) -> Seq<char> {
    if c == '\'' {
        seq!['\'', '\'']
    } else {
        seq![c]
    }
}

/// A text inside single quotes.
pub open spec fn sq_body(v: Seq<char>) -> Seq<char>
    decreases v.len(),
{
    if v.len() == 0 {
        seq![]
    } else {
        sq_body(v.drop_last()) + sq_char(v.last())
    }
}

/// A text in single quotes.
pub open spec fn single_quoted_text(v: Seq<char>) -> Seq<char> {
    seq!['\''] + sq_body(v) + seq!['\'']
}

/// An upper-case hexadecimal digit.
pub open spec fn hex_upper(d: nat) -> char {
    if d < 10 {
        (48 + d) as char
    } else {
        (55 + d) as char
    }
}

/// A number in hexadecimal notation, with exactly `w` digits.
pub open spec fn hex_padded(n: nat, w: nat) -> Seq<char>
    decreases w,
{
    if w == 0 {
        seq![]
    } else {
        hex_padded(n / 16, (w - 1) as nat).push(hex_upper(n % 16))
    }
}

/// Characters with an escape of their own in double-quoted scalars.
pub open spec fn named_escape(c: char) -> Option<char> {
    if c == '"' {
        Some('"')
    } else if c == '\\' {
        Some('\\')
    } else if c == '\n' {
        Some('n')
    } else if c == '\r' {
        Some('r')
    } else if c == '\t' {
        Some('t')
    } else if c == '\0' {
        Some('0')
    } else if c == '\x07' {
        Some('a')
    } else if c == '\x08' {
        Some('b')
    } else if c == '\x0b' {
        Some('v')
    } else if c == '\x0c' {
        Some('f')
    } else if c == '\x1b' {
        Some('e')
    } else {
        None
    }
}

/// The Unicode control characters (General_Category=Cc).
pub open spec fn control(u: int) -> bool {
    u <= 0x1f || 0x7f <= u <= 0x9f
}

/// Characters that are valid (`c-printable`, YAML 1.2 §5.1) but are still
/// escaped in double-quoted output for safe, unambiguous interop:
///
/// * **U+2028 / U+2029** — line and paragraph separators. Legal in YAML, but
///   JavaScript/JSON consumers treat them as line breaks.
/// * **Format characters** (General_Category=Cf) — zero-width joiners, bidi
///   overrides, tag characters, the BOM, … They are invisible.
pub open spec fn separator_or_format(u: int) -> bool {
    ||| u == 0x2028
    ||| u == 0x2029
    ||| u == 0x00ad
    ||| 0x0600 <= u <= 0x0605
    ||| u == 0x061c
    ||| u == 0x06dd
    ||| u == 0x070f
    ||| 0x0890 <= u <= 0x0891
    ||| u == 0x08e2
    ||| u == 0x180e
    ||| 0x200b <= u <= 0x200f
    ||| 0x202a <= u <= 0x202e
    ||| 0x2060 <= u <= 0x2064
    ||| 0x2066 <= u <= 0x206f
    ||| u == 0xfeff
    ||| 0xfff9 <= u <= 0xfffb
    ||| u == 0x110bd
    ||| u == 0x110cd
    ||| 0x13430 <= u <= 0x1343f
    ||| 0x1bca0 <= u <= 0x1bca3
    ||| 0x1d173 <= u <= 0x1d17a
    ||| u == 0xe0001
    ||| 0xe0020 <= u <= 0xe007f
}

/// A character inside double quotes.
pub open spec fn dq_char(c: char) -> Seq<char> {
    let u = c as u32 as nat;
    if named_escape(c) is Some {
        seq!['\\', named_escape(c)->0]
    } else if control(u as int) {
        seq!['\\', 'x'] + hex_padded(u, 2)
    } else if separator_or_format(u as int) {
        if u <= 0xffff {
            seq!['\\', 'u'] + hex_padded(u, 4)
        } else {
            seq!['\\', 'U'] + hex_padded(u, 8)
        }
    } else {
        seq![c]
    }
}

/// A text inside double quotes.
pub open spec fn dq_body(v: Seq<char>) -> Seq<char>
    decreases v.len(),
{
    if v.len() == 0 {
        seq![]
    } else {
        dq_body(v.drop_last()) + dq_char(v.last())
    }
}

/// A text in double quotes.
pub open spec fn double_quoted_text(v: Seq<char>) -> Seq<char> {
    seq!['"'] + dq_body(v) + seq!['"']
}

/// The chomping indicator of a text: keep for two final line feeds, clip for one, strip
/// for none.
pub open spec fn chomp_indicator(v: Seq<char>) -> Seq<char> {
    if v.len() >= 2 && v.last() == '\n' && v[v.len() - 2] == '\n' {
        seq!['+']
    } else if v.len() >= 1 && v.last() == '\n' {
        seq![]
    } else {
        seq!['-']
    }
}

/// The lines of a text, each non-empty one behind `pad`.
pub open spec fn padded_lines(v: Seq<char>, pad: Seq<char>) -> Seq<char>
    decreases v.len(),
{
    if v.len() == 0 {
        seq![]
    } else {
        let init = padded_lines(v.drop_last(), pad);
        if v.last() != '\n' && (v.len() == 1 || v[v.len() - 2] == '\n') {
            init + pad + seq![v.last()]
        } else {
            init.push(v.last())
        }
    }
}

/// A text as a block scalar; one of a single line is double-quoted instead.
///
/// The line feed behind the last line is written even if that line is empty. So a text
/// that ends with two line feeds is read back with one more, and a folded text with line
/// feeds inside is read back with them folded.
pub open spec fn block_text(v: Seq<char>, indicator: char, pad: Seq<char>) -> Seq<char> {
    if v.contains('\n') {
        seq![indicator] + chomp_indicator(v) + seq!['\n'] + padded_lines(v, pad) + seq!['\n']
    } else {
        double_quoted_text(v)
    }
}

/// Appends a text.
fn push_seq(out: &mut Vec<char>, s: &Vec<char>)
    ensures
        final(out)@ == old(out)@ + s@,
{
    let mut i: usize = 0;
    while i < s.len()
        invariant
            i <= s@.len(),
            out@ == old(out)@ + s@.take(i as int),
        decreases s@.len() - i,
    {
        out.push(s[i]);
        i += 1;
        assert(out@ =~= old(out)@ + s@.take(i as int));
    }
    assert(s@.take(s@.len() as int) =~= s@);
}

/// Writes a text in single quotes.
pub fn emit_single_quoted(value: &str) -> (r: Vec<char>)
    ensures
        r@ == single_quoted_text(value@),
{
    let mut out: Vec<char> = Vec::new();
    out.push('\'');
    for ch in it: value.chars()
        invariant
            it.seq() == value@,
            out@ == seq!['\''] + sq_body(value@.take(it.index())),
    {
        let ghost i = it.index();
        proof {
            assert(value@.take(i + 1).drop_last() =~= value@.take(i));
            assert(value@.take(i + 1).last() == ch);
        }
        if ch == '\'' {
            out.push('\'');
        }
        out.push(ch);
        assert(out@ =~= seq!['\''] + sq_body(value@.take(i + 1)));
    }
    assert(value@.take(value@.len() as int) =~= value@);
    out.push('\'');
    assert(out@ =~= single_quoted_text(value@));
    out
}

/// Appends a number in hexadecimal notation, with exactly `w` digits.
fn push_hex(out: &mut Vec<char>, n: u32, w: u32)
    ensures
        final(out)@ == old(out)@ + hex_padded(n as nat, w as nat),
    decreases w,
{
    if w > 0 {
        push_hex(out, n / 16, w - 1);
        let d: u8 = (n % 16) as u8;
        out.push(
            if d < 10 {
                (48 + d) as char
            } else {
                (55 + d) as char
            },
        );
    }
    assert(out@ =~= old(out)@ + hex_padded(n as nat, w as nat));
}

/// Whether a character is escaped in double-quoted output though it is printable.
fn needs_quoted_escape(u: u32) -> (r: bool)
    ensures
        r == separator_or_format(u as int),
{
    u == 0x2028 || u == 0x2029 || u == 0x00ad || (0x0600 <= u && u <= 0x0605) || u == 0x061c || u
        == 0x06dd || u == 0x070f || (0x0890 <= u && u <= 0x0891) || u == 0x08e2 || u == 0x180e || (
    0x200b <= u && u <= 0x200f) || (0x202a <= u && u <= 0x202e) || (0x2060 <= u && u <= 0x2064) || (
    0x2066 <= u && u <= 0x206f) || u == 0xfeff || (0xfff9 <= u && u <= 0xfffb) || u == 0x110bd || u
        == 0x110cd || (0x13430 <= u && u <= 0x1343f) || (0x1bca0 <= u && u <= 0x1bca3) || (0x1d173
        <= u && u <= 0x1d17a) || u == 0xe0001 || (0xe0020 <= u && u <= 0xe007f)
}

/// The escape that a character has of its own.
fn named(c: char) -> (r: Option<char>)
    ensures
        r == named_escape(c),
{
    if c == '"' {
        Some('"')
    } else if c == '\\' {
        Some('\\')
    } else if c == '\n' {
        Some('n')
    } else if c == '\r' {
        Some('r')
    } else if c == '\t' {
        Some('t')
    } else if c == '\0' {
        Some('0')
    } else if c == '\x07' {
        Some('a')
    } else if c == '\x08' {
        Some('b')
    } else if c == '\x0b' {
        Some('v')
    } else if c == '\x0c' {
        Some('f')
    } else if c == '\x1b' {
        Some('e')
    } else {
        None
    }
}

/// Appends a character as it stands inside double quotes.
fn push_dq_char(out: &mut Vec<char>, c: char)
    ensures
        final(out)@ == old(out)@ + dq_char(c),
{
    let u: u32 = c as u32;
    match named(c) {
        Some(e) => {
            out.push('\\');
            out.push(e);
        },
        None => {
            if u <= 0x1f || (0x7f <= u && u <= 0x9f) {
                out.push('\\');
                out.push('x');
                push_hex(out, u, 2);
            } else if needs_quoted_escape(u) {
                out.push('\\');
                if u <= 0xffff {
                    out.push('u');
                    push_hex(out, u, 4);
                } else {
                    out.push('U');
                    push_hex(out, u, 8);
                }
            } else {
                out.push(c);
            }
        },
    }
    assert(out@ =~= old(out)@ + dq_char(c));
}

/// Writes a text in double quotes.
pub fn emit_double_quoted(value: &str) -> (r: Vec<char>)
    ensures
        r@ == double_quoted_text(value@),
{
    let mut out: Vec<char> = Vec::new();
    out.push('"');
    for ch in it: value.chars()
        invariant
            it.seq() == value@,
            out@ == seq!['"'] + dq_body(value@.take(it.index())),
    {
        let ghost i = it.index();
        proof {
            assert(value@.take(i + 1).drop_last() =~= value@.take(i));
            assert(value@.take(i + 1).last() == ch);
        }
        push_dq_char(&mut out, ch);
        assert(out@ =~= seq!['"'] + dq_body(value@.take(i + 1)));
    }
    assert(value@.take(value@.len() as int) =~= value@);
    out.push('"');
    assert(out@ =~= double_quoted_text(value@));
    out
}

/// Writes a text as a block scalar whose lines stand behind `pad`.
pub fn emit_block_scalar(value: &str, indicator: char, pad: &Vec<char>) -> (r: Vec<char>)
    ensures
        r@ == block_text(value@, indicator, pad@),
{
    let mut v: Vec<char> = Vec::new();
    crate::text::push_text(&mut v, value);
    assert(v@ =~= value@);
    if !has_newline(&v) {
        return emit_double_quoted(value);
    }
    let n: usize = v.len();
    let mut out: Vec<char> = Vec::new();
    out.push(indicator);
    if n >= 2 && v[n - 1] == '\n' && v[n - 2] == '\n' {
        out.push('+');
    } else if !(n >= 1 && v[n - 1] == '\n') {
        out.push('-');
    }
    out.push('\n');
    let ghost head = seq![indicator] + chomp_indicator(v@) + seq!['\n'];
    assert(out@ =~= head);
    let mut i: usize = 0;
    while i < n
        invariant
            i <= n,
            n == v@.len(),
            out@ == head + padded_lines(v@.take(i as int), pad@),
        decreases n - i,
    {
        proof {
            assert(v@.take(i + 1).drop_last() =~= v@.take(i as int));
            assert(v@.take(i + 1).last() == v@[i as int]);
            if i > 0 {
                assert(v@.take(i + 1)[i - 1] == v@[i - 1]);
            }
        }
        if v[i] != '\n' && (i == 0 || v[i - 1] == '\n') {
            push_seq(&mut out, pad);
        }
        out.push(v[i]);
        assert(out@ =~= head + padded_lines(v@.take(i + 1), pad@));
        i += 1;
    }
    assert(v@.take(n as int) =~= v@);
    out.push('\n');
    assert(out@ =~= block_text(value@, indicator, pad@));
    out
}

/// Whether a text holds a line feed.
fn has_newline(v: &Vec<char>) -> (r: bool)
    ensures
        r == v@.contains('\n'),
{
    let mut i: usize = 0;
    while i < v.len()
        invariant
            i <= v@.len(),
            forall|j: int| 0 <= j < i ==> v@[j] != '\n',
        decreases v@.len() - i,
    {
        if v[i] == '\n' {
            assert(v@[i as int] == '\n');
            return true;
        }
        i += 1;
    }
    false
}

} // verus!
