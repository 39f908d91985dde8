//! Anchors, aliases, tags and directives: what each form of them is read as.
use crate::parser::model::{default_tags, prefix_of, Parse};
use crate::scanner::cursor::{lemma_run, run_end, stops, Cur, Until};
use crate::scanner::model::Scan;
use crate::scanner::props::{
    anchor_or_alias, directive, find_byte, hex_of, percent_decoded, percent_from, tag,
};
use crate::scanner::token::TokenKindView;
use crate::types::{Position, Span};
use vstd::prelude::*;
use vstd::utf8::decode_utf8;

verus! {

/// Bytes of a name: no blanks, no line breaks and no flow indicators.
pub open spec fn name(s: Seq<u8>) -> bool {
    s.len() > 0 && forall|i: int|
        0 <= i < s.len() ==> {
            let x = #[trigger] s[i];
            x != 0x20 && x != 0x09 && x != 0x0a && x != 0x0d && x != 0x2c && x != 0x5b && x != 0x5d
                && x != 0x7b && x != 0x7d
        }
}

/// Without the given byte.
pub open spec fn lacks(s: Seq<u8>, y: u8) -> bool {
    forall|i: int| 0 <= i < s.len() ==> #[trigger] s[i] != y
}

/// A run over bytes that do not stop it.
proof fn lemma_over(b: Seq<u8>, lo: int, hi: int, u: Until)
    requires
        0 <= lo <= hi < b.len(),
        forall|i: int| lo <= i < hi ==> !stops(u, #[trigger] b[i]),
        stops(u, b[hi]),
    ensures
        run_end(b, lo, u) == hi,
    decreases hi - lo,
{
    lemma_run(b, lo, u);
    if lo < hi {
        assert(!stops(u, b[lo]));
        lemma_over(b, lo + 1, hi, u);
        assert(run_end(b, lo, u) == run_end(b, lo + 1, u));
    }
}

proof fn lemma_absent(b: Seq<u8>, lo: int, hi: int, x: u8)
    requires
        0 <= lo <= hi <= b.len(),
        forall|i: int| lo <= i < hi ==> #[trigger] b[i] != x,
    ensures
        find_byte(b, lo, hi, x) == hi,
    decreases hi - lo,
{
    if lo < hi {
        assert(b[lo] != x);
        lemma_absent(b, lo + 1, hi, x);
    }
}

/// The name of an anchor or an alias reaches from behind its `&` or `*` to the next blank.
pub proof fn law_anchor_is_read(
    pre: Seq<u8>,
    id: Seq<u8>,
    rest: Seq<u8>,
    c: Cur,
    start: Position,
)
    requires
        c.offset == pre.len(),
        name(id),
    ensures
        ({
            let b = pre + id + seq![0x20] + rest;
            let end = c.to(c.offset + id.len());
            &&& anchor_or_alias(b, c, true, start) == Ok::<_, crate::error::ErrorView>(
                (end, Some(TokenKindView::Anchor(decode_utf8(id)))),
            )
            &&& anchor_or_alias(b, c, false, start) == Ok::<_, crate::error::ErrorView>(
                (end, Some(TokenKindView::Alias(decode_utf8(id)))),
            )
        }),
{
    let b = pre + id + seq![0x20] + rest;
    let f = pre.len() as int;
    let g = f + id.len();
    assert forall|i: int| f <= i < g implies #[trigger] b[i] == id[i - f] by {}
    assert(b[g] == 0x20);
    assert(b.subrange(f, g) =~= id);
    lemma_over(b, f, g, Until::BlankOrFlow);
}

/// The forms of a tag, from behind its `!`: in angle brackets as it stands, behind a second
/// `!` with that handle, without one with the handle `!`, and behind a name and another `!`
/// with both of them and the name as its handle.
pub proof fn law_tag_is_read(
    pre: Seq<u8>,
    id: Seq<u8>,
    handle: Seq<u8>,
    rest: Seq<u8>,
    c: Cur,
    start: Position,
)
    requires
        c.offset == pre.len(),
        pre.len() > 0,
        pre.last() == 0x21,
        name(id),
        lacks(id, 0x21),
        lacks(id, 0x25),
        lacks(id, 0x3c),
        lacks(id, 0x3e),
        name(handle),
        lacks(handle, 0x21),
        lacks(handle, 0x3c),
    ensures
        ({
            let b = pre + seq![0x3c] + id + seq![0x3e, 0x20] + rest;
            tag(b, c, c.offset - 1, start) matches Ok((d, Some(TokenKindView::Tag {
                handle: h,
                suffix,
            }))) && h.len() == 0 && suffix == decode_utf8(id) && d.offset == c.offset + id.len() + 2
        }),
        ({
            let b = pre + seq![0x21] + id + seq![0x20] + rest;
            tag(b, c, c.offset - 1, start) matches Ok((d, Some(TokenKindView::Tag {
                handle: h,
                suffix,
            }))) && h == seq!['!', '!'] && suffix == decode_utf8(id) && d.offset == c.offset
                + id.len() + 1
        }),
        ({
            let b = pre + id + seq![0x20] + rest;
            tag(b, c, c.offset - 1, start) matches Ok((d, Some(TokenKindView::Tag {
                handle: h,
                suffix,
            }))) && h == seq!['!'] && suffix == decode_utf8(id) && d.offset == c.offset + id.len()
        }),
        ({
            let b = pre + handle + seq![0x21] + id + seq![0x20] + rest;
            tag(b, c, c.offset - 1, start) matches Ok((d, Some(TokenKindView::Tag {
                handle: h,
                suffix,
            }))) && h == decode_utf8(seq![0x21] + handle + seq![0x21]) && suffix == decode_utf8(id)
                && d.offset == c.offset + handle.len() + 1 + id.len()
        }),
{
    lemma_verbatim_tag(pre, id, rest, c, start);
    lemma_secondary_tag(pre, id, rest, c, start);
    lemma_primary_tag(pre, id, rest, c, start);
    lemma_named_tag(pre, id, handle, rest, c, start);
}

pub proof fn lemma_verbatim_tag(pre: Seq<u8>, id: Seq<u8>, rest: Seq<u8>, c: Cur, start: Position)
    requires
        c.offset == pre.len(),
        name(id),
        lacks(id, 0x3e),
    ensures
        ({
            let b = pre + seq![0x3c] + id + seq![0x3e, 0x20] + rest;
            tag(b, c, c.offset - 1, start) matches Ok((d, Some(TokenKindView::Tag {
                handle: h,
                suffix,
            }))) && h.len() == 0 && suffix == decode_utf8(id) && d.offset == c.offset + id.len() + 2
        }),
{
    reveal_strlit("");
    let b = pre + seq![0x3c] + id + seq![0x3e, 0x20] + rest;
    let f = pre.len() + 1int;
    let g = f + id.len();
    assert forall|i: int| f <= i < g implies #[trigger] b[i] == id[i - f] by {}
    assert(b[f - 1] == 0x3c && b[g] == 0x3e && b[g + 1] == 0x20);
    assert(b.subrange(f, g) =~= id);
    lemma_over(b, f, g, Until::Gt);
}

proof fn lemma_undecoded(id: Seq<u8>)
    requires
        lacks(id, 0x25),
    ensures
        percent_decoded(id) == decode_utf8(id),
{
    lemma_absent(id, 0, id.len() as int, 0x25);
}

proof fn lemma_secondary_tag(pre: Seq<u8>, id: Seq<u8>, rest: Seq<u8>, c: Cur, start: Position)
    requires
        c.offset == pre.len(),
        name(id),
        lacks(id, 0x25),
    ensures
        ({
            let b = pre + seq![0x21] + id + seq![0x20] + rest;
            tag(b, c, c.offset - 1, start) matches Ok((d, Some(TokenKindView::Tag {
                handle: h,
                suffix,
            }))) && h == seq!['!', '!'] && suffix == decode_utf8(id) && d.offset == c.offset
                + id.len() + 1
        }),
{
    reveal_strlit("!!");
    assert("!!"@ =~= seq!['!', '!']);
    let b = pre + seq![0x21] + id + seq![0x20] + rest;
    let f = pre.len() + 1int;
    let g = f + id.len();
    assert forall|i: int| f <= i < g implies #[trigger] b[i] == id[i - f] by {}
    assert(b[f - 1] == 0x21 && b[g] == 0x20);
    assert(b.subrange(f, g) =~= id);
    lemma_over(b, f, g, Until::BlankOrFlow);
    lemma_undecoded(id);
}

proof fn lemma_primary_tag(pre: Seq<u8>, id: Seq<u8>, rest: Seq<u8>, c: Cur, start: Position)
    requires
        c.offset == pre.len(),
        name(id),
        lacks(id, 0x21),
        lacks(id, 0x25),
        lacks(id, 0x3c),
    ensures
        ({
            let b = pre + id + seq![0x20] + rest;
            tag(b, c, c.offset - 1, start) matches Ok((d, Some(TokenKindView::Tag {
                handle: h,
                suffix,
            }))) && h == seq!['!'] && suffix == decode_utf8(id) && d.offset == c.offset + id.len()
        }),
{
    reveal_strlit("!");
    assert("!"@ =~= seq!['!']);
    let b = pre + id + seq![0x20] + rest;
    let f = pre.len() as int;
    let g = f + id.len();
    assert forall|i: int| f <= i < g implies #[trigger] b[i] == id[i - f] by {}
    assert(b[f] == id[0] && b[g] == 0x20);
    assert(b.subrange(f, g) =~= id);
    lemma_over(b, f, g, Until::TagPart);
    lemma_undecoded(id);
}

proof fn lemma_named_tag(
    pre: Seq<u8>,
    id: Seq<u8>,
    handle: Seq<u8>,
    rest: Seq<u8>,
    c: Cur,
    start: Position,
)
    requires
        c.offset == pre.len(),
        pre.len() > 0,
        pre.last() == 0x21,
        name(id),
        lacks(id, 0x25),
        name(handle),
        lacks(handle, 0x21),
        lacks(handle, 0x3c),
    ensures
        ({
            let b = pre + handle + seq![0x21] + id + seq![0x20] + rest;
            tag(b, c, c.offset - 1, start) matches Ok((d, Some(TokenKindView::Tag {
                handle: h,
                suffix,
            }))) && h == decode_utf8(seq![0x21] + handle + seq![0x21]) && suffix == decode_utf8(id)
                && d.offset == c.offset + handle.len() + 1 + id.len()
        }),
{
    let b = pre + handle + seq![0x21] + id + seq![0x20] + rest;
    let f = pre.len() as int;
    let m = f + handle.len();
    let g = m + 1 + id.len();
    assert forall|i: int| f <= i < m implies #[trigger] b[i] == handle[i - f] by {}
    assert forall|i: int| m + 1 <= i < g implies #[trigger] b[i] == id[i - m - 1] by {}
    assert(b[f] == handle[0] && b[m] == 0x21 && b[g] == 0x20);
    assert(b[f - 1] == pre.last());
    assert(b.subrange(m + 1, g) =~= id);
    assert(b.subrange(f - 1, m + 1) =~= seq![0x21u8] + handle + seq![0x21u8]);
    lemma_over(b, f, m, Until::TagPart);
    lemma_over(b, m + 1, g, Until::BlankOrFlow);
    lemma_undecoded(id);
}

proof fn lemma_percent_free(s: Seq<char>, i: int, e: int)
    requires
        0 <= i <= e <= s.len(),
        forall|j: int| i <= j < e ==> #[trigger] s[j] != '%',
    ensures
        percent_from(s, i) == s.subrange(i, e) + percent_from(s, e),
    decreases e - i,
{
    if i < e {
        assert(s[i] != '%');
        lemma_percent_free(s, i + 1, e);
        assert(seq![s[i]] + (s.subrange(i + 1, e) + percent_from(s, e)) =~= s.subrange(i, e)
            + percent_from(s, e));
    } else {
        assert(s.subrange(i, e) + percent_from(s, e) =~= percent_from(s, e));
    }
}

/// The value of a hexadecimal digit, in letters of either case.
pub open spec fn hex(c: char) -> int {
    let x = c as u32;
    if x <= 0x39 {
        x - 0x30
    } else if x <= 0x46 {
        x - 0x37
    } else {
        x - 0x57
    }
}

/// Whether a character is a hexadecimal digit.
pub open spec fn is_hex(c: char) -> bool {
    let x = c as u32;
    0x30 <= x <= 0x39 || 0x41 <= x <= 0x46 || 0x61 <= x <= 0x66
}

/// A `%` with two hexadecimal digits behind it stands for the character with that number;
/// what stands in front of it and behind it stays.
pub proof fn law_percent_escape(before: Seq<char>, x: char, y: char, behind: Seq<char>, ch: char)
    requires
        !before.contains('%'),
        !behind.contains('%'),
        is_hex(x),
        is_hex(y),
        ch as u32 == 16 * hex(x) + hex(y),
    ensures
        percent_from(before + seq!['%', x, y] + behind, 0) == before + seq![ch] + behind,
{
    let s = before + seq!['%', x, y] + behind;
    let k = before.len() as int;
    assert forall|j: int| 0 <= j < k implies #[trigger] s[j] != '%' by {
        assert(before.contains(before[j]));
    }
    assert forall|j: int| k + 3 <= j < s.len() implies #[trigger] s[j] != '%' by {
        assert(behind.contains(behind[j - k - 3]));
    }
    lemma_percent_free(s, 0, k);
    lemma_percent_free(s, k + 3, s.len() as int);
    assert(s[k] == '%' && s[k + 1] == x && s[k + 2] == y);
    assert(hex_of(x) == Some(hex(x) as nat) && hex_of(y) == Some(hex(y) as nat));
    let code = hex(x) * 16 + hex(y);
    assert(0 <= code < 256);
    vstd::utf8::char_u32_cast(ch, ch as u32);
    assert((code as u8) as char == ch);
    assert(s.subrange(0, k) =~= before);
    assert(s.subrange(k + 3, s.len() as int) =~= behind);
    assert(percent_from(s, s.len() as int) =~= Seq::<char>::empty());
    assert(percent_from(s, k) == seq![ch] + percent_from(s, k + 3));
    assert(before + (seq![ch] + (behind + Seq::<char>::empty())) =~= before + seq![ch] + behind);
}

/// A `%YAML` directive names a version: two decimal digits with a dot between them.
pub proof fn law_version_directive(
    pre: Seq<u8>,
    major: u8,
    minor: u8,
    rest: Seq<u8>,
    c: Cur,
    start: Position,
)
    requires
        c.offset == pre.len(),
        major < 10,
        minor < 10,
    ensures
        ({
            let b = pre + seq![
                0x59,
                0x41,
                0x4d,
                0x4c,
                0x20,
                (0x30 + major) as u8,
                0x2e,
                (0x30 + minor) as u8,
                0x0a,
            ] + rest;
            directive(b, c, start) matches Ok((_, k)) && k == Some(
                TokenKindView::VersionDirective { major, minor },
            )
        }),
{
    let b = pre + seq![
        0x59,
        0x41,
        0x4d,
        0x4c,
        0x20,
        (0x30 + major) as u8,
        0x2e,
        (0x30 + minor) as u8,
        0x0a,
    ] + rest;
    let f = pre.len() as int;
    assert(b[f] == 0x59 && b[f + 1] == 0x41 && b[f + 2] == 0x4d && b[f + 3] == 0x4c && b[f + 4]
        == 0x20 && b[f + 6] == 0x2e && b[f + 8] == 0x0a);
    assert(b[f + 5] == 0x30 + major && b[f + 7] == 0x30 + minor);
    lemma_over(b, f, f + 4, Until::Blank);
    assert(b.subrange(f, f + 4) =~= seq![0x59u8, 0x41u8, 0x4du8, 0x4cu8]);
    lemma_over(b, f + 4, f + 5, Until::NotWhitespace);
    lemma_over(b, f + 5, f + 8, Until::Blank);
    lemma_over(b, f + 8, f + 8, Until::NotWhitespace);
    assert(find_byte(b, f + 6, f + 8, 0x2e) == f + 6);
    assert(find_byte(b, f + 5, f + 8, 0x2e) == f + 6);
    lemma_absent(b, f + 7, f + 8, 0x2e);
    reveal_with_fuel(crate::scanner::props::digits_value, 2);
    assert(crate::scanner::props::digits_value(b, f + 5, f + 6) == major);
    assert(crate::scanner::props::digits_value(b, f + 7, f + 8) == minor);
}

/// A comment starts with a `#` behind a blank and reaches up to the end of its line; it
/// becomes no token.
pub proof fn law_comment_reaches_line_end(s: Scan, said: Seq<u8>, pre: Seq<u8>, rest: Seq<u8>)
    requires
        s.b == pre + seq![0x20, 0x23] + said + seq![0x0a] + rest,
        s.cur.offset == pre.len() + 1,
        lacks(said, 0x0a),
        lacks(said, 0x0d),
    ensures
        s.skip_comment().cur.offset == s.cur.offset + 1 + said.len(),
        s.skip_comment().tokens == s.tokens,
        s.keep_trivia ==> {
            let t = s.skip_comment().trivia;
            t.len() == s.trivia.len() + 1 && t.last().kind == TokenKindView::Comment(
                decode_utf8(seq![0x23u8] + said),
            )
        },
{
    let b = s.b;
    let f = s.cur.offset;
    let g = f + 1 + said.len();
    assert(b[f - 1] == 0x20 && b[f] == 0x23 && b[g] == 0x0a);
    assert forall|i: int| f < i < g implies #[trigger] b[i] == said[i - f - 1] by {}
    lemma_over(b, f, g, Until::Break);
    assert(b.subrange(f, g) =~= seq![0x23u8] + said);
}

/// A `#` behind anything but a blank starts no comment.
pub proof fn law_comment_needs_a_blank(s: Scan)
    requires
        0 < s.cur.offset < s.b.len(),
        s.b[s.cur.offset - 1] != 0x20,
        s.b[s.cur.offset - 1] != 0x09,
        s.b[s.cur.offset - 1] != 0x0a,
        s.b[s.cur.offset - 1] != 0x0d,
    ensures
        s.skip_comment() == s,
{
}

/// A key that may still come ends with its line, except inside a flow mapping, where it may
/// stand on an earlier line.
pub proof fn law_key_ends_with_its_line(s: Scan, i: int)
    requires
        0 <= i < s.keys.len(),
        s.keys.len() == s.flows.len() + 1,
    ensures
        ({
            let t = s.stale_keys();
            &&& t.keys.len() == s.keys.len()
            &&& s.keys[i].pos.line == s.cur.line ==> t.keys[i] == s.keys[i]
            &&& s.keys[i].pos.line != s.cur.line && (i == 0 || s.flows[i - 1])
                ==> !t.keys[i].possible
            &&& i > 0 && !s.flows[i - 1] ==> t.keys[i] == s.keys[i]
            &&& t.tokens == s.tokens && t.cur == s.cur
        }),
{
}

/// Three dashes at the start of a line with a blank behind them start a document, whatever
/// is open there.
pub proof fn law_document_marker_is_read(s: Scan)
    requires
        0 <= s.cur.offset,
        s.cur.offset + 3 < s.b.len(),
        s.b[s.cur.offset + 3] == 0x20 || s.b[s.cur.offset + 3] == 0x0a,
        s.b[s.cur.offset] == 0x2d,
        s.b[s.cur.offset + 1] == 0x2d,
        s.b[s.cur.offset + 2] == 0x2d,
    ensures
        s.cur.column == 0 ==> {
            s.dispatch() matches Ok(t) && t.tokens.len() > 0 && t.tokens.last().kind
                == TokenKindView::DocumentStart && t.cur.offset == s.cur.offset + 3 && !t.allow
        },
{
    reveal(Scan::dispatch);
    crate::scanner::advance::lemma_unroll_frame(s, -1);
}

/// A `%TAG` directive names a handle and a prefix, each behind a space.
pub proof fn law_tag_directive(
    pre: Seq<u8>,
    handle: Seq<u8>,
    prefix: Seq<u8>,
    rest: Seq<u8>,
    c: Cur,
    start: Position,
)
    requires
        c.offset == pre.len(),
        name(handle),
        name(prefix),
    ensures
        ({
            let b = pre + seq![0x54, 0x41, 0x47, 0x20] + handle + seq![0x20] + prefix + seq![0x0a]
                + rest;
            directive(b, c, start) matches Ok((d, k)) && k == Some(
                TokenKindView::TagDirective {
                    handle: decode_utf8(handle),
                    prefix: decode_utf8(prefix),
                },
            )
        }),
{
    let b = pre + seq![0x54, 0x41, 0x47, 0x20] + handle + seq![0x20] + prefix + seq![0x0a] + rest;
    let f = pre.len() as int;
    let h = f + 4;
    let he = h + handle.len();
    let p = he + 1;
    let pe = p + prefix.len();
    assert(b[f] == 0x54 && b[f + 1] == 0x41 && b[f + 2] == 0x47 && b[f + 3] == 0x20);
    assert forall|i: int| h <= i < he implies #[trigger] b[i] == handle[i - h] by {}
    assert forall|i: int| p <= i < pe implies #[trigger] b[i] == prefix[i - p] by {}
    assert(b[h] == handle[0] && b[he] == 0x20 && b[p] == prefix[0] && b[pe] == 0x0a);
    lemma_over(b, f, f + 3, Until::Blank);
    assert(b.subrange(f, f + 3) =~= seq![0x54u8, 0x41u8, 0x47u8]);
    assert(seq![0x54u8, 0x41u8, 0x47u8].len() != seq![0x59u8, 0x41u8, 0x4du8, 0x4cu8].len());
    lemma_over(b, f + 3, h, Until::NotSpace);
    lemma_over(b, h, he, Until::Space);
    lemma_over(b, he, p, Until::NotSpace);
    lemma_over(b, p, pe, Until::Blank);
    assert(b.subrange(h, he) =~= handle);
    assert(b.subrange(p, pe) =~= prefix);
}

/// The tag that a handle stands for: what was last declared for it, and without a
/// declaration an error; a tag without a handle stands for itself.
pub proof fn law_declared_handle(
    p: Parse,
    handle: Seq<char>,
    prefix: Seq<char>,
    other: Seq<char>,
    suffix: Seq<char>,
    span: Span,
)
    requires
        handle.len() > 0,
        other != handle,
    ensures
        ({
            let q = Parse { tags: p.tags.push((handle, prefix)), ..p };
            &&& q.resolve(handle, suffix, span) == Ok::<_, crate::error::ErrorView>(
                (prefix, suffix),
            )
            &&& q.resolve(other, suffix, span) == p.resolve(other, suffix, span)
        }),
        p.resolve(seq![], suffix, span) matches Ok((x, y)) && x.len() == 0 && y == suffix,
        (Parse { tags: seq![], ..p }).resolve(handle, suffix, span) is Err,
{
    let q = Parse { tags: p.tags.push((handle, prefix)), ..p };
    assert(q.tags.last() == (handle, prefix));
    assert(q.tags.drop_last() =~= p.tags);
    reveal_strlit("");
}

/// Every document knows the handle `!!` for the tags of YAML itself and the handle `!` for
/// those of its own, and no other.
pub proof fn law_known_handles(handle: Seq<char>)
    ensures
        prefix_of(default_tags(), handle) == if handle == seq!['!', '!'] {
            Some("tag:yaml.org,2002:"@)
        } else if handle == seq!['!'] {
            Some(seq!['!'])
        } else {
            None
        },
{
    reveal_strlit("!!");
    reveal_strlit("!");
    assert("!!"@ =~= seq!['!', '!']);
    assert("!"@ =~= seq!['!']);
    let tags = default_tags();
    assert(tags.last() == ("!"@, "!"@));
    assert(tags.drop_last() =~= seq![("!!"@, "tag:yaml.org,2002:"@)]);
    assert(tags.drop_last().last() == ("!!"@, "tag:yaml.org,2002:"@));
    assert(tags.drop_last().drop_last() =~= Seq::<(Seq<char>, Seq<char>)>::empty());
    assert(seq!['!', '!'].len() != seq!['!'].len());
    reveal_with_fuel(prefix_of, 4);
}

} // verus!
