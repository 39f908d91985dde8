//! Anchors, aliases, tags and directives.
use crate::error::{unexpected, Error, ErrorKind, ErrorKindView, ErrorView, Result};
use crate::scanner::chars::{
    ascii_digit, blank, is_blank_or_break, is_break, is_digit, line_break, BANG, COMMA, DOT, GT,
    HASH, LT, PERCENT, PLUS, ZERO,
};
use crate::scanner::cursor::{Cur, Cursor, Until};
use crate::scanner::quoted::{hex_digit, hex_value};
use crate::scanner::token::{TokenKind, TokenKindView};
use crate::text::{lemma_ascii_boundary, quoted, quoted_string, slice, text};
use crate::types::Position;
use std::borrow::Cow;
use vstd::prelude::*;
use vstd::string::*;
use vstd::utf8::{decode_utf8, encode_utf8_decode_utf8};

verus! {

/// A token that ends at the cursor, if there is one.
pub type Lexed = core::result::Result<(Cur, Option<TokenKindView>), ErrorView>;

/// An anchor or alias, from behind its `&` or `*`: the name reaches to the next
/// blank or flow indicator and is not empty.
pub open spec fn anchor_or_alias(b: Seq<u8>, c: Cur, is_anchor: bool, start: Position) -> Lexed {
    let e = c.run(b, Until::BlankOrFlow);
    let name = text(b, c.offset, e.offset);
    if e.offset == c.offset {
        Err(
            ErrorView {
                kind: ErrorKindView::InvalidAnchor("empty name"@),
                span: Some(e.span_from(start)),
            },
        )
    } else if is_anchor {
        Ok((e, Some(TokenKindView::Anchor(name))))
    } else {
        Ok((e, Some(TokenKindView::Alias(name))))
    }
}

/// The first index in `lo..hi` at which `x` stands, or `hi`.
pub open spec fn find_byte(b: Seq<u8>, lo: int, hi: int, x: u8) -> int
    decreases hi - lo,
{
    if lo >= hi || b[lo] == x {
        lo
    } else {
        find_byte(b, lo + 1, hi, x)
    }
}

/// The value of a hexadecimal digit.
pub open spec fn hex_of(c: char) -> Option<nat> {
    if (c as u32) < 0x80 {
        hex_digit(c as u8)
    } else {
        None
    }
}

/// Decodes the escapes `%XX` of a text from index `i` on, each to the character with that
/// code; other characters stand for themselves.
pub open spec fn percent_from(s: Seq<char>, i: int) -> Seq<char>
    decreases s.len() - i,
{
    if i >= s.len() {
        seq![]
    } else if s[i] == '%' && i + 2 < s.len() && hex_of(s[i + 1]) is Some && hex_of(s[i + 2]) is Some {
        seq![((hex_of(s[i + 1])->0 * 16 + hex_of(s[i + 2])->0) as u8) as char] + percent_from(
            s,
            i + 3,
        )
    } else {
        seq![s[i]] + percent_from(s, i + 1)
    }
}

/// A tag suffix with its `%XX` escapes decoded; without any, as it stands.
pub open spec fn percent_decoded(s: Seq<u8>) -> Seq<char> {
    if find_byte(s, 0, s.len() as int, PERCENT) == s.len() {
        decode_utf8(s)
    } else {
        percent_from(decode_utf8(s), 0)
    }
}

/// A tag, from behind its `!`. `bang` is the offset of that `!`.
pub open spec fn tag(b: Seq<u8>, c: Cur, bang: int, start: Position) -> Lexed {
    if c.sees(b, LT) {
        // !<uri>
        let o = c.to(c.offset + 1);
        let e = o.run(b, Until::Gt);
        let suffix = text(b, o.offset, e.offset);
        let end = if e.sees(b, GT) {
            e.to(e.offset + 1)
        } else {
            e
        };
        tag_end(b, end, TokenKindView::Tag { handle: ""@, suffix }, start)
    } else if c.sees(b, BANG) {
        // !!suffix
        let o = c.to(c.offset + 1);
        let e = o.run(b, Until::BlankOrFlow);
        let suffix = percent_decoded(b.subrange(o.offset, e.offset));
        tag_end(b, e, TokenKindView::Tag { handle: "!!"@, suffix }, start)
    } else {
        let e = c.run(b, Until::TagPart);
        if e.sees(b, BANG) {
            // !handle!suffix
            let o = e.to(e.offset + 1);
            let f = o.run(b, Until::BlankOrFlow);
            let suffix = percent_decoded(b.subrange(o.offset, f.offset));
            Ok((f, Some(TokenKindView::Tag { handle: text(b, bang, o.offset), suffix })))
        } else {
            // !suffix
            let suffix = percent_decoded(b.subrange(c.offset, e.offset));
            tag_end(b, e, TokenKindView::Tag { handle: "!"@, suffix }, start)
        }
    }
}

/// A tag without a named handle is followed by a blank, a comma or the end.
pub open spec fn tag_end(b: Seq<u8>, c: Cur, kind: TokenKindView, start: Position) -> Lexed {
    if c.offset < b.len() && !blank(b[c.offset]) && b[c.offset] != COMMA {
        Err(unexpected("whitespace after tag"@, quoted(b[c.offset] as char), c.span_from(start)))
    } else {
        Ok((c, Some(kind)))
    }
}

/// The number that the decimal digits in `lo..hi` write.
pub open spec fn digits_value(b: Seq<u8>, lo: int, hi: int) -> nat
    decreases hi - lo,
{
    if lo >= hi {
        0
    } else {
        (digits_value(b, lo, hi - 1) * 10 + (b[hi - 1] - ZERO)) as nat
    }
}

/// The number below 256 that an optional `+` and decimal digits in `lo..hi`
/// write.
pub open spec fn small_number(b: Seq<u8>, lo: int, hi: int) -> Option<u8> {
    let from = if lo < hi && b[lo] == PLUS {
        lo + 1
    } else {
        lo
    };
    if from < hi && (forall|i: int| from <= i < hi ==> ascii_digit(#[trigger] b[i])) && digits_value(
        b,
        from,
        hi,
    ) < 256 {
        Some(digits_value(b, from, hi) as u8)
    } else {
        None
    }
}

/// A version `major.minor`. A part that is no number below 256 counts as 1 or 2.
pub open spec fn version(b: Seq<u8>, lo: int, hi: int) -> Option<(u8, u8)> {
    let p = find_byte(b, lo, hi, DOT);
    if p < hi && find_byte(b, p + 1, hi, DOT) == hi {
        Some(
            (
                match small_number(b, lo, p) {
                    Some(v) => v,
                    None => 1,
                },
                match small_number(b, p + 1, hi) {
                    Some(v) => v,
                    None => 2,
                },
            ),
        )
    } else {
        None
    }
}

/// The rest of a `%YAML` directive.
pub open spec fn yaml_directive(b: Seq<u8>, c: Cur, start: Position) -> Lexed {
    let o = c.run(b, Until::NotWhitespace);
    let e = o.run(b, Until::Blank);
    match version(b, o.offset, e.offset) {
        Some((major, minor)) => {
            let end = e.run(b, Until::NotWhitespace);
            if end.offset < b.len() && !line_break(b[end.offset]) && b[end.offset] != HASH {
                Err(
                    unexpected(
                        "end of %YAML directive"@,
                        quoted(b[end.offset] as char),
                        end.span_from(start),
                    ),
                )
            } else {
                Ok((end, Some(TokenKindView::VersionDirective { major, minor })))
            }
        },
        None => Err(
            ErrorView {
                kind: ErrorKindView::InvalidTag(
                    "invalid YAML version: "@ + text(b, o.offset, e.offset),
                ),
                span: Some(e.span_from(start)),
            },
        ),
    }
}

/// The rest of a `%TAG` directive: a handle, which ends at a space, and a
/// prefix, which ends at a blank.
pub open spec fn tag_directive(b: Seq<u8>, c: Cur) -> (Cur, TokenKindView) {
    let h = c.run(b, Until::NotSpace);
    let he = h.run(b, Until::Space);
    let p = he.run(b, Until::NotSpace);
    let pe = p.run(b, Until::Blank);
    (
        pe,
        TokenKindView::TagDirective {
            handle: text(b, h.offset, he.offset),
            prefix: text(b, p.offset, pe.offset),
        },
    )
}

/// A directive, from behind its `%`. Of an unknown one the line is skipped.
pub open spec fn directive(b: Seq<u8>, c: Cur, start: Position) -> Lexed {
    let e = c.run(b, Until::Blank);
    let name = b.subrange(c.offset, e.offset);
    if name == seq![0x59u8, 0x41u8, 0x4du8, 0x4cu8] {
        yaml_directive(b, e, start)
    } else if name == seq![0x54u8, 0x41u8, 0x47u8] {
        let (end, kind) = tag_directive(b, e);
        Ok((end, Some(kind)))
    } else {
        Ok((e.run(b, Until::Break), None))
    }
}

/// What a scan of a token gives: where it ends, and the token if there is one.
pub open spec fn lexed_as<'a>(
    r: Result<(Cursor, Option<TokenKind<'a>>)>,
    l: Lexed,
    b: Seq<u8>,
    from: Cursor,
) -> bool {
    match l {
        Ok((c, k)) => {
            &&& r matches Ok(p)
            &&& p.0@ == c
            &&& p.0@.ok(b)
            &&& p.0.offset >= from.offset
            &&& match k {
                Some(kind) => p.1 matches Some(t) && t@ == kind,
                None => p.1 is None,
            }
        },
        Err(e) => r matches Err(x) && x@ == e,
    }
}

/// Scans an anchor or alias from behind its `&` or `*`.
pub fn scan_anchor_or_alias<'a>(
    input: &'a str,
    bytes: &[u8],
    c: Cursor,
    is_anchor: bool,
    start: Position,
) -> (r: Result<(Cursor, Option<TokenKind<'a>>)>)
    requires
        bytes@ == input.spec_bytes(),
        c@.ok(bytes@),
    ensures
        lexed_as(r, anchor_or_alias(bytes@, c@, is_anchor, start), bytes@, c),
{
    let e = c.run(bytes, Until::BlankOrFlow);
    if e.offset == c.offset {
        return Err(
            Error::new(ErrorKind::InvalidAnchor("empty name".to_owned()), e.span_from(start)),
        );
    }
    let name = Cow::Borrowed(slice(input, c.offset, e.offset));
    let kind = if is_anchor {
        TokenKind::Anchor(name)
    } else {
        TokenKind::Alias(name)
    };
    Ok((e, Some(kind)))
}

/// Finds the first index in `lo..hi` at which `x` stands.
fn find_in(bytes: &[u8], lo: usize, hi: usize, x: u8) -> (r: usize)
    requires
        lo <= hi <= bytes@.len(),
    ensures
        r == find_byte(bytes@, lo as int, hi as int, x),
        lo <= r <= hi,
        r < hi ==> bytes@[r as int] == x,
        forall|j: int| lo <= j < r ==> bytes@[j] != x,
{
    let mut i: usize = lo;
    while i < hi && bytes[i] != x
        invariant
            lo <= i <= hi <= bytes@.len(),
            find_byte(bytes@, lo as int, hi as int, x) == find_byte(bytes@, i as int, hi as int, x),
            forall|j: int| lo <= j < i ==> bytes@[j] != x,
        decreases hi - i,
    {
        i += 1;
    }
    i
}

/// The value of a hexadecimal digit.
fn hex_char_value(c: char) -> (r: Option<u8>)
    ensures
        match hex_of(c) {
            Some(v) => r matches Some(x) && x == v && x < 16,
            None => r is None,
        },
{
    if (c as u32) < 0x80 {
        match hex_value(c as u8) {
            Some(v) => Some(v as u8),
            None => None,
        }
    } else {
        None
    }
}

/// Decode percent-encoded characters in a tag suffix (e.g., `%21` → `!`).
pub fn percent_decode<'a>(s: &'a str) -> (r: Cow<'a, str>)
    ensures
        r@ == percent_decoded(s.spec_bytes()),
        r is Borrowed <==> !s.spec_bytes().contains(PERCENT),
{
    let bytes = s.as_bytes();
    let size: usize = bytes.len();
    proof {
        encode_utf8_decode_utf8(s@);
    }
    if find_in(bytes, 0, size, PERCENT) == size {
        return Cow::Borrowed(s);
    }
    let mut chars: Vec<char> = Vec::new();
    crate::text::push_text(&mut chars, s);
    assert(chars@ =~= s@);
    let n: usize = chars.len();
    let ghost goal = percent_from(chars@, 0);
    let mut out = String::new();
    let mut i: usize = 0;
    while i < n
        invariant
            n == chars@.len(),
            i <= n,
            goal == out@ + percent_from(chars@, i as int),
        decreases n - i,
    {
        if chars[i] == '%' && n - i > 2 {
            let hi = hex_char_value(chars[i + 1]);
            let lo = hex_char_value(chars[i + 2]);
            if let (Some(h), Some(l)) = (hi, lo) {
                out.push((h * 16 + l) as char);
                assert(goal =~= out@ + percent_from(chars@, i + 3));
                i += 3;
                continue;
            }
        }
        out.push(chars[i]);
        assert(goal =~= out@ + percent_from(chars@, i + 1));
        i += 1;
    }
    assert(goal =~= out@);
    Cow::Owned(out)
}

/// Checks what follows a tag without a named handle.
fn end_tag<'a>(bytes: &[u8], c: Cursor, kind: TokenKind<'a>, start: Position) -> (r: Result<
    (Cursor, Option<TokenKind<'a>>),
>)
    requires
        c@.ok(bytes@),
    ensures
        lexed_as(r, tag_end(bytes@, c@, kind@, start), bytes@, c),
{
    if let Some(x) = c.peek(bytes) {
        if !is_blank_or_break(x) && x != COMMA {
            let found = quoted_string(x as char);
            return Err(Error::unexpected("whitespace after tag", found.as_str(), c.span_from(start)));
        }
    }
    Ok((c, Some(kind)))
}

/// Scans a tag from behind its `!`.
pub fn scan_tag<'a>(input: &'a str, bytes: &[u8], c: Cursor, start: Position) -> (r: Result<
    (Cursor, Option<TokenKind<'a>>),
>)
    requires
        bytes@ == input.spec_bytes(),
        c@.ok(bytes@),
        c.offset > 0,
        bytes@[c.offset - 1] == BANG,
    ensures
        lexed_as(r, tag(bytes@, c@, c.offset - 1, start), bytes@, c),
{
    if c.at(bytes, LT) {
        let o = c.step(bytes);
        let e = o.run(bytes, Until::Gt);
        let suffix = Cow::Borrowed(slice(input, o.offset, e.offset));
        let end = if e.at(bytes, GT) {
            e.step(bytes)
        } else {
            e
        };
        end_tag(bytes, end, TokenKind::Tag { handle: Cow::Borrowed(""), suffix }, start)
    } else if c.at(bytes, BANG) {
        let o = c.step(bytes);
        let e = o.run(bytes, Until::BlankOrFlow);
        let suffix = percent_decode(slice(input, o.offset, e.offset));
        end_tag(bytes, e, TokenKind::Tag { handle: Cow::Borrowed("!!"), suffix }, start)
    } else {
        let e = c.run(bytes, Until::TagPart);
        if e.at(bytes, BANG) {
            proof {
                lemma_ascii_boundary(bytes@, c.offset - 1);
            }
            let o = e.step(bytes);
            let handle = Cow::Borrowed(slice(input, c.offset - 1, o.offset));
            let f = o.run(bytes, Until::BlankOrFlow);
            let suffix = percent_decode(slice(input, o.offset, f.offset));
            Ok((f, Some(TokenKind::Tag { handle, suffix })))
        } else {
            let suffix = percent_decode(slice(input, c.offset, e.offset));
            end_tag(bytes, e, TokenKind::Tag { handle: Cow::Borrowed("!"), suffix }, start)
        }
    }
}

/// Reads a number below 256.
fn parse_small(bytes: &[u8], lo: usize, hi: usize) -> (r: Option<u8>)
    requires
        lo <= hi <= bytes@.len(),
    ensures
        r == small_number(bytes@, lo as int, hi as int),
{
    let from: usize = if lo < hi && bytes[lo] == PLUS {
        lo + 1
    } else {
        lo
    };
    if from == hi {
        return None;
    }
    let mut i: usize = from;
    let mut acc: u32 = 0;
    while i < hi
        invariant
            lo <= from <= i <= hi <= bytes@.len(),
            from == (if lo < hi && bytes@[lo as int] == PLUS { lo + 1 } else { lo as int }),
            forall|j: int| from <= j < i ==> ascii_digit(#[trigger] bytes@[j]),
            acc < 256 ==> acc == digits_value(bytes@, from as int, i as int),
            acc >= 256 ==> digits_value(bytes@, from as int, i as int) >= 256,
            acc < 2560,
        decreases hi - i,
    {
        let x = bytes[i];
        if !is_digit(x) {
            return None;
        }
        if acc < 256 {
            acc = acc * 10 + (x - ZERO) as u32;
        }
        i += 1;
    }
    if acc < 256 {
        Some(acc as u8)
    } else {
        None
    }
}

/// Reads a version `major.minor`.
fn parse_version(bytes: &[u8], lo: usize, hi: usize) -> (r: Option<(u8, u8)>)
    requires
        lo <= hi <= bytes@.len(),
    ensures
        r == version(bytes@, lo as int, hi as int),
{
    let p = find_in(bytes, lo, hi, DOT);
    if p < hi && find_in(bytes, p + 1, hi, DOT) == hi {
        let major = match parse_small(bytes, lo, p) {
            Some(v) => v,
            None => 1,
        };
        let minor = match parse_small(bytes, p + 1, hi) {
            Some(v) => v,
            None => 2,
        };
        Some((major, minor))
    } else {
        None
    }
}

/// Scans the rest of a `%YAML` directive.
fn scan_yaml_directive<'a>(input: &'a str, bytes: &[u8], c: Cursor, start: Position) -> (r: Result<
    (Cursor, Option<TokenKind<'a>>),
>)
    requires
        bytes@ == input.spec_bytes(),
        c@.ok(bytes@),
    ensures
        lexed_as(r, yaml_directive(bytes@, c@, start), bytes@, c),
{
    let o = c.run(bytes, Until::NotWhitespace);
    let e = o.run(bytes, Until::Blank);
    match parse_version(bytes, o.offset, e.offset) {
        Some((major, minor)) => {
            let end = e.run(bytes, Until::NotWhitespace);
            if let Some(x) = end.peek(bytes) {
                if !is_break(x) && x != HASH {
                    let found = quoted_string(x as char);
                    return Err(
                        Error::unexpected(
                            "end of %YAML directive",
                            found.as_str(),
                            end.span_from(start),
                        ),
                    );
                }
            }
            Ok((end, Some(TokenKind::VersionDirective { major, minor })))
        },
        None => {
            let mut what = "invalid YAML version: ".to_owned();
            what.append(slice(input, o.offset, e.offset));
            Err(Error::new(ErrorKind::InvalidTag(what), e.span_from(start)))
        },
    }
}

/// Scans the rest of a `%TAG` directive.
fn scan_tag_directive<'a>(input: &'a str, bytes: &[u8], c: Cursor) -> (r: (Cursor, TokenKind<'a>))
    requires
        bytes@ == input.spec_bytes(),
        c@.ok(bytes@),
    ensures
        (r.0@, r.1@) == tag_directive(bytes@, c@),
        r.0@.ok(bytes@),
        r.0.offset >= c.offset,
{
    let h = c.run(bytes, Until::NotSpace);
    let he = h.run(bytes, Until::Space);
    let p = he.run(bytes, Until::NotSpace);
    let pe = p.run(bytes, Until::Blank);
    let handle = Cow::Borrowed(slice(input, h.offset, he.offset));
    let prefix = Cow::Borrowed(slice(input, p.offset, pe.offset));
    (pe, TokenKind::TagDirective { handle, prefix })
}

/// Scans a directive from behind its `%`.
pub fn scan_directive<'a>(input: &'a str, bytes: &[u8], c: Cursor, start: Position) -> (r: Result<
    (Cursor, Option<TokenKind<'a>>),
>)
    requires
        bytes@ == input.spec_bytes(),
        c@.ok(bytes@),
    ensures
        lexed_as(r, directive(bytes@, c@, start), bytes@, c),
{
    let e = c.run(bytes, Until::Blank);
    let i: usize = c.offset;
    let n: usize = e.offset - c.offset;
    let ghost name = bytes@.subrange(c.offset as int, e.offset as int);
    if n == 4 && bytes[i] == 0x59 && bytes[i + 1] == 0x41 && bytes[i + 2] == 0x4d && bytes[i + 3]
        == 0x4c {
        assert(name =~= seq![0x59u8, 0x41u8, 0x4du8, 0x4cu8]);
        scan_yaml_directive(input, bytes, e, start)
    } else if n == 3 && bytes[i] == 0x54 && bytes[i + 1] == 0x41 && bytes[i + 2] == 0x47 {
        assert(name =~= seq![0x54u8, 0x41u8, 0x47u8]);
        let (end, kind) = scan_tag_directive(input, bytes, e);
        Ok((end, Some(kind)))
    } else {
        assert(name != seq![0x59u8, 0x41u8, 0x4du8, 0x4cu8]) by {
            assert(name.len() == n);
            if name == seq![0x59u8, 0x41u8, 0x4du8, 0x4cu8] {
                assert(name[0] == bytes@[i as int] && name[1] == bytes@[i + 1] && name[2] == bytes@[i
                    + 2] && name[3] == bytes@[i + 3]);
            }
        }
        assert(name != seq![0x54u8, 0x41u8, 0x47u8]) by {
            assert(name.len() == n);
            if name == seq![0x54u8, 0x41u8, 0x47u8] {
                assert(name[0] == bytes@[i as int] && name[1] == bytes@[i + 1] && name[2] == bytes@[i
                    + 2]);
            }
        }
        Ok((e.run(bytes, Until::Break), None))
    }
}

} // verus!
