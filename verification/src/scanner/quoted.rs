//! Single- and double-quoted scalars.
use crate::error::{unexpected, Error, ErrorKind, ErrorKindView, ErrorView, Result};
use crate::scanner::chars::{
    is_break, is_whitespace, line_break, whitespace, BACKSLASH, DQUOTE, SPACE, SQUOTE, TAB,
};
use crate::scanner::cursor::{lemma_run, run_end, Cur, Cursor, Until};
use crate::text::{
    at_boundary, decimal, lemma_text_empty, lemma_text_join, push_decimal, push_text, slice,
    string_of, text,
};
use crate::types::Position;
use std::borrow::Cow;
use vstd::prelude::*;
use vstd::string::*;
use vstd::utf8::char_u32_cast;

verus! {

/// The character with a given code point, if there is one.
///
/// Stands for `char::from_u32`, documented to return the character whose code is
/// `i`, and `None` exactly if `i` is not a valid Unicode scalar value.
pub assume_specification[ char::from_u32 ](i: u32) -> (r: Option<char>)
    ensures
        r is Some <==> (i <= 0xd7ff || 0xe000 <= i <= 0x10ffff),
        r matches Some(c) ==> c as u32 == i,
;

/// `n` line feeds.
pub open spec fn newlines(n: nat) -> Seq<char> {
    Seq::new(n, |i: int| '\n')
}

/// What a folded line break contributes: a space, or one line feed for each
/// empty line that followed it.
pub open spec fn folded(n: nat) -> Seq<char> {
    if n == 0 {
        seq![' ']
    } else {
        newlines(n)
    }
}

/// A text without its trailing spaces and tabs.
pub open spec fn trim_end(s: Seq<char>) -> Seq<char>
    decreases s.len(),
{
    if s.len() > 0 && (s.last() == ' ' || s.last() == '\t') {
        trim_end(s.drop_last())
    } else {
        s
    }
}

/// What a quoted scalar is scanned to: where it ends, and its value.
pub type Quoted = core::result::Result<(Cur, Seq<char>), ErrorView>;

/// Skips whitespace and line breaks, counting the breaks on top of `n`.
pub open spec fn skip_blanks(b: Seq<u8>, c: Cur, n: nat) -> (Cur, nat)
    decreases b.len() - c.offset,
{
    if c.offset >= b.len() {
        (c, n)
    } else if whitespace(b[c.offset]) {
        skip_blanks(b, c.to(c.offset + 1), n)
    } else if line_break(b[c.offset]) {
        skip_blanks(b, c.newline(b), n + 1)
    } else {
        (c, n)
    }
}

/// Skipping never moves back.
pub proof fn lemma_skip_blanks(b: Seq<u8>, c: Cur, n: nat)
    ensures
        skip_blanks(b, c, n).0.offset >= c.offset,
        c.offset <= b.len() ==> skip_blanks(b, c, n).0.offset <= b.len(),
    decreases b.len() - c.offset,
{
    if c.offset >= b.len() {
    } else if whitespace(b[c.offset]) {
        lemma_skip_blanks(b, c.to(c.offset + 1), n);
    } else if line_break(b[c.offset]) {
        lemma_skip_blanks(b, c.newline(b), n + 1);
    }
}

/// The rest of a single-quoted scalar whose value so far is `acc`: `''` stands
/// for a quote, a line break is folded, and everything else stands for itself.
pub open spec fn single_quoted(b: Seq<u8>, c: Cur, acc: Seq<char>, start: Position) -> Quoted
    decreases b.len() - c.offset,
{
    if c.offset >= b.len() {
        Err(ErrorView { kind: ErrorKindView::UnexpectedEof, span: Some(c.span_from(start)) })
    } else if b[c.offset] == SQUOTE {
        if c.offset + 1 < b.len() && b[c.offset + 1] == SQUOTE {
            single_quoted(b, c.to(c.offset + 2), acc.push('\''), start)
        } else {
            Ok((c.to(c.offset + 1), acc))
        }
    } else if line_break(b[c.offset]) {
        let (n, k) = skip_blanks(b, c.newline(b), 0);
        proof {
            lemma_skip_blanks(b, c.newline(b), 0);
        }
        if n.column == 0 && n.sees_marker(b) {
            Err(unexpected("closing single quote"@, "document indicator"@, n.span_from(start)))
        } else {
            single_quoted(b, n, trim_end(acc) + folded(k), start)
        }
    } else {
        let e = run_end(b, c.offset, Until::SingleQuoted);
        proof {
            lemma_run(b, c.offset, Until::SingleQuoted);
        }
        single_quoted(b, c.to(e), acc + text(b, c.offset, e), start)
    }
}

/// The character that a one-byte escape stands for.
pub open spec fn simple_escape(x: u8) -> Option<char> {
    if x == 0x30 {
        Some('\0')
    } else if x == 0x61 {
        Some('\x07')
    } else if x == 0x62 {
        Some('\x08')
    } else if x == 0x74 || x == TAB {
        Some('\t')
    } else if x == 0x6e {
        Some('\n')
    } else if x == 0x76 {
        Some('\x0b')
    } else if x == 0x66 {
        Some('\x0c')
    } else if x == 0x72 {
        Some('\r')
    } else if x == 0x65 {
        Some('\x1b')
    } else if x == SPACE {
        Some(' ')
    } else if x == DQUOTE {
        Some('"')
    } else if x == 0x2f {
        Some('/')
    } else if x == BACKSLASH {
        Some('\\')
    } else if x == 0x4e {
        Some('\u{85}')
    } else if x == 0x5f {
        Some('\u{a0}')
    } else if x == 0x4c {
        Some('\u{2028}')
    } else if x == 0x50 {
        Some('\u{2029}')
    } else {
        None
    }
}

/// The number of hexadecimal digits that follow `\x`, `\u` and `\U`.
pub open spec fn hex_escape(x: u8) -> nat {
    if x == 0x78 {
        2
    } else if x == 0x75 {
        4
    } else if x == 0x55 {
        8
    } else {
        0
    }
}

/// The value of a hexadecimal digit.
pub open spec fn hex_digit(x: u8) -> Option<nat> {
    if 0x30 <= x <= 0x39 {
        Some((x - 0x30) as nat)
    } else if 0x41 <= x <= 0x46 {
        Some((x - 0x41 + 10) as nat)
    } else if 0x61 <= x <= 0x66 {
        Some((x - 0x61 + 10) as nat)
    } else {
        None
    }
}

/// The number of hexadecimal digits at `i`, at most `n`.
pub open spec fn hex_run(b: Seq<u8>, i: int, n: nat) -> nat
    decreases n,
{
    if n == 0 || i >= b.len() || hex_digit(b[i]) is None {
        0
    } else {
        1 + hex_run(b, i + 1, (n - 1) as nat)
    }
}

/// The number that `n` hexadecimal digits at `i` write.
pub open spec fn hex_number(b: Seq<u8>, i: int, n: nat) -> nat
    decreases n,
{
    if n == 0 {
        0
    } else {
        hex_number(b, i, (n - 1) as nat) * 16 + hex_digit(b[i + n - 1])->0
    }
}

/// The character that `n` hexadecimal digits write; it ends at the returned
/// cursor.
pub open spec fn hex_char(b: Seq<u8>, c: Cur, n: nat, start: Position) -> core::result::Result<
    (Cur, char),
    ErrorView,
> {
    let k = hex_run(b, c.offset, n);
    let end = c.to(c.offset + k);
    if k < n {
        Err(ErrorView { kind: ErrorKindView::InvalidEscape('x'), span: Some(end.span_from(start)) })
    } else {
        let code = hex_number(b, c.offset, n);
        if code <= 0xd7ff || 0xe000 <= code <= 0x10ffff {
            Ok((end, code as char))
        } else {
            Err(
                ErrorView {
                    kind: ErrorKindView::InvalidEscape('u'),
                    span: Some(end.span_from(start)),
                },
            )
        }
    }
}

/// The number of hexadecimal digits is at most what was asked for.
pub proof fn lemma_hex_run(b: Seq<u8>, i: int, n: nat)
    ensures
        hex_run(b, i, n) <= n,
        i <= b.len() ==> i + hex_run(b, i, n) <= b.len(),
        forall|j: int| i <= j < i + hex_run(b, i, n) ==> hex_digit(#[trigger] b[j]) is Some,
        hex_run(b, i, n) < n && 0 <= i + hex_run(b, i, n) < b.len() ==> hex_digit(
            b[i + hex_run(b, i, n)],
        ) is None,
    decreases n,
{
    if n == 0 || i >= b.len() || hex_digit(b[i]) is None {
    } else {
        lemma_hex_run(b, i + 1, (n - 1) as nat);
    }
}

/// Skips whitespace and line breaks in a double-quoted scalar. With `tabs_from`
/// a tab to the left of that column is an error.
pub open spec fn skip_dq_blanks(
    b: Seq<u8>,
    c: Cur,
    n: nat,
    tabs_from: Option<int>,
    start: Position,
) -> core::result::Result<(Cur, nat), ErrorView>
    decreases b.len() - c.offset,
{
    if c.offset >= b.len() {
        Ok((c, n))
    } else if whitespace(b[c.offset]) {
        if b[c.offset] == TAB && (tabs_from matches Some(m) && c.column < m) {
            Err(unexpected("spaces for indentation"@, "tab character"@, c.span_from(start)))
        } else {
            skip_dq_blanks(b, c.to(c.offset + 1), n, tabs_from, start)
        }
    } else if line_break(b[c.offset]) {
        skip_dq_blanks(b, c.newline(b), n + 1, tabs_from, start)
    } else {
        Ok((c, n))
    }
}

/// Skipping never moves back.
pub proof fn lemma_skip_dq_blanks(
    b: Seq<u8>,
    c: Cur,
    n: nat,
    tabs_from: Option<int>,
    start: Position,
)
    ensures
        skip_dq_blanks(b, c, n, tabs_from, start) matches Ok(p) ==> p.0.offset >= c.offset && (
        c.offset <= b.len() ==> p.0.offset <= b.len()),
    decreases b.len() - c.offset,
{
    if c.offset >= b.len() {
    } else if whitespace(b[c.offset]) {
        lemma_skip_dq_blanks(b, c.to(c.offset + 1), n, tabs_from, start);
    } else if line_break(b[c.offset]) {
        lemma_skip_dq_blanks(b, c.newline(b), n + 1, tabs_from, start);
    }
}

/// The rest of a double-quoted scalar whose value so far is `acc`, followed by
/// the literal whitespace `ws` which counts only if no line break follows.
///
/// Escapes stand for what they name, an escaped line break for nothing, an
/// unescaped one is folded. `indent_from` is the column that continuation lines
/// reach at least, where there is one.
pub open spec fn double_quoted(
    b: Seq<u8>,
    c: Cur,
    acc: Seq<char>,
    ws: Seq<char>,
    indent_from: Option<int>,
    start: Position,
) -> Quoted
    decreases b.len() - c.offset,
{
    if c.offset >= b.len() {
        Err(ErrorView { kind: ErrorKindView::UnexpectedEof, span: Some(c.span_from(start)) })
    } else if b[c.offset] == DQUOTE {
        Ok((c.to(c.offset + 1), acc + ws))
    } else if b[c.offset] == BACKSLASH {
        let e = c.to(c.offset + 1);
        if e.offset >= b.len() {
            Err(ErrorView { kind: ErrorKindView::UnexpectedEof, span: Some(e.span_from(start)) })
        } else if simple_escape(b[e.offset]) is Some {
            double_quoted(
                b,
                e.to(e.offset + 1),
                (acc + ws).push(simple_escape(b[e.offset])->0),
                seq![],
                indent_from,
                start,
            )
        } else if hex_escape(b[e.offset]) > 0 {
            proof {
                lemma_hex_run(b, e.offset + 1, hex_escape(b[e.offset]));
            }
            match hex_char(b, e.to(e.offset + 1), hex_escape(b[e.offset]), start) {
                Ok((n, ch)) => double_quoted(
                    b,
                    n,
                    (acc + ws).push(ch),
                    seq![],
                    indent_from,
                    start,
                ),
                Err(err) => Err(err),
            }
        } else if line_break(b[e.offset]) {
            let n = e.newline(b).run(b, Until::NotWhitespace);
            proof {
                lemma_run(b, e.newline(b).offset, Until::NotWhitespace);
            }
            double_quoted(b, n, acc + ws, seq![], indent_from, start)
        } else {
            Err(
                ErrorView {
                    kind: ErrorKindView::InvalidEscape(b[e.offset] as char),
                    span: Some(e.span_from(start)),
                },
            )
        }
    } else if line_break(b[c.offset]) {
        proof {
            lemma_skip_dq_blanks(b, c.newline(b), 0, indent_from, start);
        }
        match skip_dq_blanks(b, c.newline(b), 0, indent_from, start) {
            Err(err) => Err(err),
            Ok((n, k)) => if n.column == 0 && n.sees_marker(b) {
                Err(unexpected("closing double quote"@, "document indicator"@, n.span_from(start)))
            } else if indent_from matches Some(m) && n.column < m {
                Err(
                    unexpected(
                        "proper indentation in quoted scalar"@,
                        "column "@ + decimal(n.column as nat),
                        n.span_from(start),
                    ),
                )
            } else {
                double_quoted(b, n, acc + folded(k), seq![], indent_from, start)
            },
        }
    } else if whitespace(b[c.offset]) {
        double_quoted(
            b,
            c.to(c.offset + 1),
            acc,
            ws.push(b[c.offset] as char),
            indent_from,
            start,
        )
    } else {
        let e = run_end(b, c.offset, Until::DoubleQuoted);
        proof {
            lemma_run(b, c.offset, Until::DoubleQuoted);
        }
        double_quoted(
            b,
            c.to(e),
            acc + ws + text(b, c.offset, e),
            seq![],
            indent_from,
            start,
        )
    }
}

/// Skips whitespace and line breaks, counting the breaks.
fn scan_blanks(bytes: &[u8], start: Cursor) -> (r: (Cursor, usize))
    requires
        start@.ok(bytes@),
    ensures
        r.0@.ok(bytes@),
        start.offset <= r.0.offset,
        (r.0@, r.1 as nat) == skip_blanks(bytes@, start@, 0),
{
    let mut c = start;
    let mut n: usize = 0;
    while c.offset < bytes.len()
        invariant_except_break
            skip_blanks(bytes@, start@, 0) == skip_blanks(bytes@, c@, n as nat),
        invariant
            c@.ok(bytes@),
            start.offset <= c.offset,
            n <= c.offset,
        ensures
            skip_blanks(bytes@, start@, 0) == (c@, n as nat),
        decreases bytes@.len() - c.offset,
    {
        let x = bytes[c.offset];
        if is_whitespace(x) {
            c = c.step(bytes);
        } else if is_break(x) {
            c = c.skip_line(bytes);
            n += 1;
        } else {
            break;
        }
    }
    (c, n)
}

/// Appends what a folded line break contributes.
fn push_folded(buf: &mut Vec<char>, n: usize)
    ensures
        final(buf)@ == old(buf)@ + folded(n as nat),
{
    if n == 0 {
        buf.push(' ');
        assert(buf@ =~= old(buf)@ + folded(0));
    } else {
        push_newlines(buf, n);
    }
}

/// Appends `n` line feeds.
pub fn push_newlines(buf: &mut Vec<char>, n: usize)
    ensures
        final(buf)@ == old(buf)@ + newlines(n as nat),
{
    let mut i: usize = 0;
    while i < n
        invariant
            i <= n,
            buf@ == old(buf)@ + newlines(i as nat),
        decreases n - i,
    {
        buf.push('\n');
        i += 1;
        assert(buf@ =~= old(buf)@ + newlines(i as nat));
    }
    assert(buf@ =~= old(buf)@ + newlines(n as nat));
}

/// Removes trailing spaces and tabs.
fn trim(buf: &mut Vec<char>)
    ensures
        final(buf)@ == trim_end(old(buf)@),
{
    let ghost goal = trim_end(buf@);
    while buf.len() > 0 && (buf[buf.len() - 1] == ' ' || buf[buf.len() - 1] == '\t')
        invariant
            trim_end(buf@) == goal,
        decreases buf.len(),
    {
        let ghost prev = buf@;
        let _ = buf.pop();
        assert(buf@ =~= prev.drop_last());
    }
}

/// Whether neither a quote nor a line break stands at `lo..hi`: what stands between the
/// quotes of a single-quoted scalar is then its value.
pub open spec fn as_written(b: Seq<u8>, lo: int, hi: int) -> bool {
    forall|i: int| lo <= i < hi ==> #[trigger] b[i] != SQUOTE && !line_break(b[i])
}

/// Scans a single-quoted scalar from behind its opening quote.
///
/// The value is borrowed from the input where it stands there as it is.
pub fn scan_single_quoted<'a>(input: &'a str, bytes: &[u8], open: Cursor, start: Position) -> (r:
    Result<(Cursor, Cow<'a, str>)>)
    requires
        bytes@ == input.spec_bytes(),
        open@.ok(bytes@),
    ensures
        match single_quoted(bytes@, open@, seq![], start) {
            Ok((c, v)) => r matches Ok(p) && p.0@ == c && p.1@ == v && p.0@.ok(bytes@)
                && p.0.offset > open.offset && (p.1 is Borrowed <==> as_written(
                bytes@,
                open.offset as int,
                p.0.offset - 1,
            )),
            Err(e) => r matches Err(x) && x@ == e,
        },
{
    let ghost b = bytes@;
    let ghost goal = single_quoted(b, open@, seq![], start);
    let mut c = open;
    let mut buf: Vec<char> = Vec::new();
    let mut verbatim = true;
    proof {
        lemma_text_empty(b, open.offset as int);
    }
    loop
        invariant_except_break
            goal == single_quoted(b, c@, buf@, start),
            verbatim ==> buf@ == text(b, open.offset as int, c.offset as int),
            verbatim <==> as_written(b, open.offset as int, c.offset as int),
        invariant
            b == bytes@,
            b == input.spec_bytes(),
            open@.ok(b),
            c@.ok(b),
            goal == single_quoted(b, open@, seq![], start),
            open.offset <= c.offset,
        ensures
            goal == Ok::<(Cur, Seq<char>), ErrorView>((c@, buf@)),
            open.offset < c.offset,
            at_boundary(b, c.offset - 1),
            verbatim ==> buf@ == text(b, open.offset as int, c.offset - 1),
            verbatim <==> as_written(b, open.offset as int, c.offset - 1),
        decreases b.len() - c.offset,
    {
        if c.offset >= bytes.len() {
            return Err(Error::new(ErrorKind::UnexpectedEof, c.span_from(start)));
        }
        let x = bytes[c.offset];
        if x == SQUOTE {
            let n = c.step(bytes);
            assert(!as_written(b, open.offset as int, c.offset + 1) && b[c.offset as int] == SQUOTE);
            if n.at(bytes, SQUOTE) {
                buf.push('\'');
                verbatim = false;
                c = n.step(bytes);
            } else {
                c = n;
                break;
            }
        } else if is_break(x) {
            verbatim = false;
            assert(line_break(b[c.offset as int]));
            trim(&mut buf);
            let (n, k) = scan_blanks(bytes, c.skip_line(bytes));
            if n.column == 0 && n.at_marker(bytes) {
                return Err(
                    Error::unexpected(
                        "closing single quote",
                        "document indicator",
                        n.span_from(start),
                    ),
                );
            }
            push_folded(&mut buf, k);
            c = n;
        } else {
            let n = c.run(bytes, Until::SingleQuoted);
            proof {
                lemma_run(b, c.offset as int, Until::SingleQuoted);
                lemma_text_join(b, open.offset as int, c.offset as int, n.offset as int);
            }
            push_text(&mut buf, slice(input, c.offset, n.offset));
            c = n;
        }
    }
    let value = if verbatim {
        Cow::Borrowed(slice(input, open.offset, c.offset - 1))
    } else {
        Cow::Owned(string_of(&buf))
    };
    Ok((c, value))
}

/// The character that a one-byte escape stands for.
fn escaped(x: u8) -> (r: Option<char>)
    ensures
        r == simple_escape(x),
{
    if x == 0x30 {
        Some('\0')
    } else if x == 0x61 {
        Some('\x07')
    } else if x == 0x62 {
        Some('\x08')
    } else if x == 0x74 || x == TAB {
        Some('\t')
    } else if x == 0x6e {
        Some('\n')
    } else if x == 0x76 {
        Some('\x0b')
    } else if x == 0x66 {
        Some('\x0c')
    } else if x == 0x72 {
        Some('\r')
    } else if x == 0x65 {
        Some('\x1b')
    } else if x == SPACE {
        Some(' ')
    } else if x == DQUOTE {
        Some('"')
    } else if x == 0x2f {
        Some('/')
    } else if x == BACKSLASH {
        Some('\\')
    } else if x == 0x4e {
        Some('\u{85}')
    } else if x == 0x5f {
        Some('\u{a0}')
    } else if x == 0x4c {
        Some('\u{2028}')
    } else if x == 0x50 {
        Some('\u{2029}')
    } else {
        None
    }
}

/// The value of a hexadecimal digit.
pub fn hex_value(x: u8) -> (r: Option<u32>)
    ensures
        r is Some <==> hex_digit(x) is Some,
        r matches Some(v) ==> v == hex_digit(x)->0 && v < 16,
{
    if 0x30 <= x && x <= 0x39 {
        Some((x - 0x30) as u32)
    } else if 0x41 <= x && x <= 0x46 {
        Some((x - 0x41) as u32 + 10)
    } else if 0x61 <= x && x <= 0x66 {
        Some((x - 0x61) as u32 + 10)
    } else {
        None
    }
}

/// An upper bound on what `n` hexadecimal digits can write.
pub open spec fn hex_bound(n: nat) -> nat
    decreases n,
{
    if n == 0 {
        1
    } else {
        16 * hex_bound((n - 1) as nat)
    }
}

/// Scans the digits of a `\x`, `\u` or `\U` escape.
pub fn scan_hex_escape(bytes: &[u8], from: Cursor, digits: usize, start: Position) -> (r: Result<
    (Cursor, char),
>)
    requires
        from@.ok(bytes@),
        digits <= 8,
    ensures
        match hex_char(bytes@, from@, digits as nat, start) {
            Ok((c, ch)) => r matches Ok(p) && p.0@ == c && p.1 == ch && p.0@.ok(bytes@)
                && p.0.offset == from.offset + digits,
            Err(e) => r matches Err(x) && x@ == e,
        },
{
    let ghost b = bytes@;
    let mut c = from;
    let mut code: u32 = 0;
    let mut k: usize = 0;
    proof {
        lemma_hex_run(b, from.offset as int, digits as nat);
        reveal_with_fuel(hex_bound, 9);
    }
    while k < digits
        invariant
            b == bytes@,
            from@.ok(b),
            c@.ok(b),
            c@ == from@.to(from.offset + k),
            c.offset == from.offset + k,
            k <= digits <= 8,
            k <= hex_run(b, from.offset as int, digits as nat),
            hex_run(b, from.offset as int, digits as nat) == k + hex_run(
                b,
                from.offset + k,
                (digits - k) as nat,
            ),
            code == hex_number(b, from.offset as int, k as nat),
            code < hex_bound(k as nat),
            hex_bound(8) == 0x1_0000_0000,
            k < 8 ==> 16 * hex_bound(k as nat) <= 0x1_0000_0000,
        decreases digits - k,
    {
        let d = match c.peek(bytes) {
            Some(x) => hex_value(x),
            None => None,
        };
        match d {
            Some(v) => {
                proof {
                    reveal_with_fuel(hex_bound, 9);
                }
                code = code * 16 + v;
                c = c.step(bytes);
                k += 1;
            },
            None => {
                return Err(Error::new(ErrorKind::InvalidEscape('x'), c.span_from(start)));
            },
        }
    }
    match char::from_u32(code) {
        Some(ch) => {
            proof {
                char_u32_cast(ch, code);
            }
            Ok((c, ch))
        },
        None => Err(Error::new(ErrorKind::InvalidEscape('u'), c.span_from(start))),
    }
}

/// Skips whitespace and line breaks in a double-quoted scalar, counting the
/// breaks.
fn scan_dq_blanks(bytes: &[u8], from: Cursor, tabs_from: Option<u32>, start: Position) -> (r: Result<
    (Cursor, usize),
>)
    requires
        from@.ok(bytes@),
    ensures
        match skip_dq_blanks(bytes@, from@, 0, column_bound(tabs_from), start) {
            Ok((c, n)) => r matches Ok(p) && p.0@ == c && p.1 == n && p.0@.ok(bytes@)
                && p.0.offset >= from.offset,
            Err(e) => r matches Err(x) && x@ == e,
        },
{
    let ghost goal = skip_dq_blanks(bytes@, from@, 0, column_bound(tabs_from), start);
    let mut c = from;
    let mut n: usize = 0;
    while c.offset < bytes.len()
        invariant_except_break
            goal == skip_dq_blanks(bytes@, c@, n as nat, column_bound(tabs_from), start),
        invariant
            goal == skip_dq_blanks(bytes@, from@, 0, column_bound(tabs_from), start),
            c@.ok(bytes@),
            from.offset <= c.offset,
            n <= c.offset,
        ensures
            goal == Ok::<(Cur, nat), ErrorView>((c@, n as nat)),
        decreases bytes@.len() - c.offset,
    {
        let x = bytes[c.offset];
        if is_whitespace(x) {
            if x == TAB {
                if let Some(m) = tabs_from {
                    if c.column < m {
                        return Err(
                            Error::unexpected(
                                "spaces for indentation",
                                "tab character",
                                c.span_from(start),
                            ),
                        );
                    }
                }
            }
            c = c.step(bytes);
        } else if is_break(x) {
            c = c.skip_line(bytes);
            n += 1;
        } else {
            break;
        }
    }
    Ok((c, n))
}

/// A column bound as a number.
pub open spec fn column_bound(m: Option<u32>) -> Option<int> {
    match m {
        Some(v) => Some(v as int),
        None => None,
    }
}

/// `column n`, as errors put it.
pub fn column_text(n: u32) -> (r: String)
    ensures
        r@ == "column "@ + decimal(n as nat),
{
    let mut s = "column ".to_owned();
    push_decimal(&mut s, n as u64);
    s
}

/// Appends `ws` to `buf` and empties it.
fn flush(buf: &mut Vec<char>, ws: &mut Vec<char>)
    ensures
        final(buf)@ == old(buf)@ + old(ws)@,
        final(ws)@ == Seq::<char>::empty(),
{
    buf.append(ws);
}

/// Scans a double-quoted scalar from behind its opening quote.
pub fn scan_double_quoted(
    input: &str,
    bytes: &[u8],
    open: Cursor,
    indent_from: Option<u32>,
    start: Position,
) -> (r: Result<(Cursor, String)>)
    requires
        bytes@ == input.spec_bytes(),
        open@.ok(bytes@),
    ensures
        match double_quoted(bytes@, open@, seq![], seq![], column_bound(indent_from), start) {
            Ok((c, v)) => r matches Ok(p) && p.0@ == c && p.1@ == v && p.0@.ok(bytes@)
                && p.0.offset > open.offset,
            Err(e) => r matches Err(x) && x@ == e,
        },
{
    let ghost b = bytes@;
    let ghost bound = column_bound(indent_from);
    let ghost goal = double_quoted(b, open@, seq![], seq![], bound, start);
    let mut c = open;
    let mut buf: Vec<char> = Vec::new();
    let mut ws: Vec<char> = Vec::new();
    loop
        invariant_except_break
            goal == double_quoted(b, c@, buf@, ws@, bound, start),
        invariant
            b == bytes@,
            b == input.spec_bytes(),
            bound == column_bound(indent_from),
            c@.ok(b),
            goal == double_quoted(b, open@, seq![], seq![], bound, start),
            open.offset <= c.offset,
        ensures
            goal == Ok::<(Cur, Seq<char>), ErrorView>((c@, buf@)),
            open.offset < c.offset,
        decreases b.len() - c.offset,
    {
        if c.offset >= bytes.len() {
            return Err(Error::new(ErrorKind::UnexpectedEof, c.span_from(start)));
        }
        let x = bytes[c.offset];
        if x == DQUOTE {
            flush(&mut buf, &mut ws);
            c = c.step(bytes);
            break;
        } else if x == BACKSLASH {
            flush(&mut buf, &mut ws);
            let e = c.step(bytes);
            if e.offset >= bytes.len() {
                return Err(Error::new(ErrorKind::UnexpectedEof, e.span_from(start)));
            }
            let y = bytes[e.offset];
            if let Some(ch) = escaped(y) {
                buf.push(ch);
                c = e.step(bytes);
            } else if y == 0x78 || y == 0x75 || y == 0x55 {
                let digits: usize = if y == 0x78 {
                    2
                } else if y == 0x75 {
                    4
                } else {
                    8
                };
                match scan_hex_escape(bytes, e.step(bytes), digits, start) {
                    Ok((n, ch)) => {
                        buf.push(ch);
                        c = n;
                    },
                    Err(err) => {
                        return Err(err);
                    },
                }
            } else if is_break(y) {
                c = e.skip_line(bytes).run(bytes, Until::NotWhitespace);
            } else {
                return Err(Error::new(ErrorKind::InvalidEscape(y as char), e.span_from(start)));
            }
        } else if is_break(x) {
            ws.clear();
            match scan_dq_blanks(bytes, c.skip_line(bytes), indent_from, start) {
                Err(err) => {
                    return Err(err);
                },
                Ok((n, k)) => {
                    if n.column == 0 && n.at_marker(bytes) {
                        return Err(
                            Error::unexpected(
                                "closing double quote",
                                "document indicator",
                                n.span_from(start),
                            ),
                        );
                    }
                    if let Some(m) = indent_from {
                        if n.column < m {
                            let found = column_text(n.column);
                            return Err(
                                Error::unexpected(
                                    "proper indentation in quoted scalar",
                                    found.as_str(),
                                    n.span_from(start),
                                ),
                            );
                        }
                    }
                    push_folded(&mut buf, k);
                    c = n;
                },
            }
        } else if is_whitespace(x) {
            ws.push(x as char);
            c = c.step(bytes);
        } else {
            flush(&mut buf, &mut ws);
            let n = c.run(bytes, Until::DoubleQuoted);
            proof {
                lemma_run(b, c.offset as int, Until::DoubleQuoted);
            }
            push_text(&mut buf, slice(input, c.offset, n.offset));
            c = n;
        }
    }
    Ok((c, string_of(&buf)))
}

} // verus!
