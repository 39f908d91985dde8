//! Chomping: how the indicators `-` and `+` of a block scalar change its value.
use crate::scanner::block::{
    after_header, auto_indent, block_join, block_lines, block_scalar, chomped, header, past_break,
    probe, spaces, Header, Lines,
};
use crate::scanner::chars::{line_break, DASH, LF, PLUS, SPACE, TAB};
use crate::scanner::cursor::{lemma_run, run_end, stops, Cur, Until};
use crate::scanner::quoted::newlines;
use crate::text::text;
use crate::types::{Position, ScalarStyle};
use vstd::prelude::*;
use vstd::utf8::valid_utf8;

verus! {

/// From `o` on, `x` holds the bytes of `y` from `o - d` on.
spec fn shifted(x: Seq<u8>, y: Seq<u8>, o: int, d: int) -> bool {
    &&& 0 <= d <= o <= x.len()
    &&& x.len() == y.len() + d
    &&& forall|i: int| o <= i < x.len() ==> #[trigger] x[i] == y[i - d]
}

/// The cursors stand at the same place behind the shift.
spec fn level(c: Cur, e: Cur, o: int, d: int) -> bool {
    &&& o <= c.offset
    &&& c.offset == e.offset + d
    &&& c.column == e.column
}

proof fn lemma_run_shifted(x: Seq<u8>, y: Seq<u8>, o: int, d: int, lo: int, u: Until)
    requires
        shifted(x, y, o, d),
        o <= lo,
    ensures
        run_end(x, lo, u) == run_end(y, lo - d, u) + d,
    decreases x.len() - lo,
{
    if lo < x.len() && !stops(u, x[lo]) {
        assert(x[lo] == y[lo - d]);
        lemma_run_shifted(x, y, o, d, lo + 1, u);
    }
}

proof fn lemma_text_shifted(x: Seq<u8>, y: Seq<u8>, o: int, d: int, lo: int, hi: int)
    requires
        shifted(x, y, o, d),
        o <= lo <= hi <= x.len(),
    ensures
        text(x, lo, hi) == text(y, lo - d, hi - d),
{
    assert(x.subrange(lo, hi) =~= y.subrange(lo - d, hi - d));
}

proof fn lemma_probe_shifted(
    x: Seq<u8>,
    y: Seq<u8>,
    o: int,
    d: int,
    i: int,
    width: nat,
    widest: nat,
)
    requires
        shifted(x, y, o, d),
        o <= i,
    ensures
        probe(x, i, width, widest) == (
            probe(y, i - d, width, widest).0 + d,
            probe(y, i - d, width, widest).1,
            probe(y, i - d, width, widest).2,
        ),
    decreases x.len() - i,
{
    if i < x.len() {
        assert(x[i] == y[i - d]);
        if x[i] == SPACE {
            lemma_probe_shifted(x, y, o, d, i + 1, width + 1, widest);
        } else if line_break(x[i]) {
            if i + 1 < x.len() {
                assert(x[i + 1] == y[i + 1 - d]);
            }
            lemma_probe_shifted(
                x,
                y,
                o,
                d,
                past_break(x, i),
                0,
                if width > widest {
                    width
                } else {
                    widest
                },
            );
        }
    }
}

proof fn lemma_marker_shifted(x: Seq<u8>, y: Seq<u8>, o: int, d: int, c: Cur, e: Cur)
    requires
        shifted(x, y, o, d),
        level(c, e, o, d),
    ensures
        c.sees_marker(x) == e.sees_marker(y),
{
    if c.offset + 3 <= x.len() {
        let i = c.offset;
        assert(x[i] == y[i - d]);
        assert(x[i + 1] == y[i + 1 - d]);
        assert(x[i + 2] == y[i + 2 - d]);
        if i + 3 < x.len() {
            assert(x[i + 3] == y[i + 3 - d]);
        }
    }
}

/// The line break at the cursor is passed at the same place.
proof fn lemma_newline_shifted(x: Seq<u8>, y: Seq<u8>, o: int, d: int, c: Cur, e: Cur)
    requires
        shifted(x, y, o, d),
        level(c, e, o, d),
        c.offset < x.len(),
    ensures
        level(c.newline(x), e.newline(y), o, d),
{
    assert(x[c.offset] == y[c.offset - d]);
    if c.offset + 1 < x.len() {
        assert(x[c.offset + 1] == y[c.offset + 1 - d]);
    }
}

/// The same lines were collected, at whatever place.
spec fn same_lines(
    p: core::result::Result<Lines, crate::error::ErrorView>,
    q: core::result::Result<Lines, crate::error::ErrorView>,
) -> bool {
    &&& p is Ok == q is Ok
    &&& p is Ok ==> p->Ok_0.content == q->Ok_0.content && p->Ok_0.breaks == q->Ok_0.breaks
}

proof fn lemma_lines_shifted(
    x: Seq<u8>,
    y: Seq<u8>,
    o: int,
    d: int,
    c: Cur,
    e: Cur,
    style: ScalarStyle,
    indent: nat,
    acc: Seq<char>,
    breaks: nat,
    prev_more: bool,
)
    requires
        shifted(x, y, o, d),
        level(c, e, o, d),
        c.offset <= x.len(),
    ensures
        same_lines(
            block_lines(x, c, style, indent, acc, breaks, prev_more),
            block_lines(y, e, style, indent, acc, breaks, prev_more),
        ),
    decreases x.len() - c.offset,
{
    lemma_run_shifted(x, y, o, d, c.offset, Until::NotSpace);
    lemma_marker_shifted(x, y, o, d, c, e);
    lemma_run(x, c.offset, Until::NotSpace);
    lemma_run(y, e.offset, Until::NotSpace);
    let k = spaces(x, c, indent);
    assert(k == spaces(y, e, indent));
    let c1 = c.to(c.offset + k);
    let e1 = e.to(e.offset + k);
    lemma_run(x, c1.offset, Until::Break);
    lemma_run(y, e1.offset, Until::Break);
    lemma_run_shifted(x, y, o, d, c1.offset, Until::Break);
    if c1.offset < x.len() {
        assert(x[c1.offset] == y[e1.offset]);
        if line_break(x[c1.offset]) {
            lemma_newline_shifted(x, y, o, d, c1, e1);
            lemma_lines_shifted(
                x,
                y,
                o,
                d,
                c1.newline(x),
                e1.newline(y),
                style,
                indent,
                acc,
                breaks + 1,
                prev_more,
            );
        } else {
            let more = x[c1.offset] == SPACE || x[c1.offset] == TAB;
            let hi = run_end(x, c1.offset, Until::Break);
            let acc2 = acc + block_join(style, acc, breaks, prev_more || more) + text(
                x,
                c1.offset,
                hi,
            );
            let c2 = c1.to(hi);
            let e2 = e1.to(hi - d);
            lemma_text_shifted(x, y, o, d, c1.offset, hi);
            if hi < x.len() {
                assert(x[hi] == y[hi - d]);
                lemma_newline_shifted(x, y, o, d, c2, e2);
                lemma_lines_shifted(
                    x,
                    y,
                    o,
                    d,
                    c2.newline(x),
                    e2.newline(y),
                    style,
                    indent,
                    acc2,
                    1,
                    more,
                );
            } else {
                lemma_lines_shifted(x, y, o, d, c2, e2, style, indent, acc2, 0, more);
            }
        }
    }
}

/// The content of a block scalar does not end with a line feed.
proof fn lemma_content_end(
    b: Seq<u8>,
    c: Cur,
    style: ScalarStyle,
    indent: nat,
    acc: Seq<char>,
    breaks: nat,
    prev_more: bool,
)
    requires
        valid_utf8(b),
        0 <= c.offset <= b.len(),
        crate::text::at_boundary(b, c.offset),
        acc.len() > 0 ==> acc.last() != '\n',
    ensures
        block_lines(b, c, style, indent, acc, breaks, prev_more) matches Ok(l) ==> l.content.len()
            > 0 ==> l.content.last() != '\n',
    decreases b.len() - c.offset,
{
    let k = spaces(b, c, indent);
    let c1 = c.to(c.offset + k);
    lemma_run(b, c.offset, Until::NotSpace);
    lemma_ascii_run(b, c.offset, c1.offset);
    lemma_run(b, c1.offset, Until::Break);
    if c1.offset < b.len() {
        if line_break(b[c1.offset]) {
            lemma_newline_boundary(b, c1);
            lemma_content_end(b, c1.newline(b), style, indent, acc, breaks + 1, prev_more);
        } else {
            let more = b[c1.offset] == SPACE || b[c1.offset] == TAB;
            let e = run_end(b, c1.offset, Until::Break);
            crate::scanner::cursor::lemma_run_boundary(b, c1.offset, Until::Break);
            lemma_no_break(b, c1.offset, e);
            let line = text(b, c1.offset, e);
            let acc2 = acc + block_join(style, acc, breaks, prev_more || more) + line;
            assert(acc2.last() == line.last());
            let c2 = c1.to(e);
            if c2.sees_break(b) {
                lemma_newline_boundary(b, c2);
                lemma_content_end(b, c2.newline(b), style, indent, acc2, 1, more);
            } else {
                lemma_content_end(b, c2, style, indent, acc2, 0, more);
            }
        }
    }
}

/// Behind spaces stands a character.
proof fn lemma_ascii_run(b: Seq<u8>, lo: int, hi: int)
    requires
        valid_utf8(b),
        0 <= lo <= hi <= b.len(),
        crate::text::at_boundary(b, lo),
        forall|i: int| lo <= i < hi ==> #[trigger] b[i] == SPACE,
    ensures
        crate::text::at_boundary(b, hi),
    decreases hi - lo,
{
    if lo < hi {
        crate::text::lemma_ascii_boundary(b, lo);
        lemma_ascii_run(b, lo + 1, hi);
    }
}

proof fn lemma_newline_boundary(b: Seq<u8>, c: Cur)
    requires
        valid_utf8(b),
        0 <= c.offset < b.len(),
        line_break(b[c.offset]),
    ensures
        c.offset < c.newline(b).offset <= b.len(),
        crate::text::at_boundary(b, c.newline(b).offset),
{
    crate::text::lemma_ascii_boundary(b, c.offset);
    if c.newline(b).offset == c.offset + 2 {
        crate::text::lemma_ascii_boundary(b, c.offset + 1);
    }
}

/// A piece of a line is not empty and holds no line feed.
proof fn lemma_no_break(b: Seq<u8>, lo: int, hi: int)
    requires
        valid_utf8(b),
        0 <= lo < hi <= b.len(),
        crate::text::at_boundary(b, lo),
        crate::text::at_boundary(b, hi),
        forall|i: int| lo <= i < hi ==> !line_break(#[trigger] b[i]),
    ensures
        text(b, lo, hi).len() > 0,
        text(b, lo, hi).last() != '\n',
{
    crate::text::lemma_text_nonempty(b, lo, hi);
    let t = text(b, lo, hi);
    if t.last() == '\n' {
        crate::text::lemma_text_valid(b, lo, hi);
        vstd::utf8::decode_utf8_encode_utf8(b.subrange(lo, hi));
        let init = t.drop_last();
        assert(t =~= init + seq!['\n']);
        crate::cst::green::lemma_encode_concat(init, seq!['\n']);
        vstd::utf8::is_ascii_chars_encode_utf8(seq!['\n']);
        let k = vstd::utf8::encode_utf8(init).len() as int;
        assert(vstd::utf8::encode_utf8(t)[k] == LF);
        assert(b[lo + k] == LF);
    }
}

/// What a block scalar is scanned to, whose indicators are `mark` and whose first line
/// break stands right behind them.
pub open spec fn marked(
    pre: Seq<u8>,
    mark: Seq<u8>,
    body: Seq<u8>,
    c: Cur,
    style: ScalarStyle,
    parent: int,
    start: Position,
) -> crate::scanner::quoted::Quoted {
    block_scalar(pre + mark + body, c, style, parent, start)
}

/// The lines of a block scalar whose indicators end at the cursor.
spec fn body_lines(b: Seq<u8>, c: Cur, style: ScalarStyle, parent: int) -> core::result::Result<
    Lines,
    crate::error::ErrorView,
> {
    let body = after_header(b, c);
    match auto_indent(b, body, (if parent + 1 > 0 { parent + 1 } else { 0 }) as nat) {
        Err(e) => Err(e),
        Ok(n) => block_lines(b, body, style, n, seq![], 0, false),
    }
}

proof fn lemma_body_lines(
    x: Seq<u8>,
    y: Seq<u8>,
    d: int,
    c: Cur,
    e: Cur,
    style: ScalarStyle,
    parent: int,
)
    requires
        shifted(x, y, c.offset, d),
        c.offset == e.offset + d,
        c.offset < x.len(),
        x[c.offset] == LF,
    ensures
        same_lines(body_lines(x, c, style, parent), body_lines(y, e, style, parent)),
{
    let o = c.offset;
    assert(x[o] == y[o - d]);
    lemma_run(x, o, Until::NotWhitespace);
    lemma_run(y, o - d, Until::NotWhitespace);
    let p = after_header(x, c);
    let q = after_header(y, e);
    assert(p == c.newline(x));
    assert(q == e.newline(y));
    assert(level(p, q, o, d));
    lemma_probe_shifted(x, y, o, d, p.offset, 0, 0);
    let least = (if parent + 1 > 0 { parent + 1 } else { 0 }) as nat;
    if let Ok(n) = auto_indent(x, p, least) {
        assert(auto_indent(y, q, least) == Ok::<nat, crate::error::ErrorView>(n));
        lemma_lines_shifted(x, y, o, d, p, q, style, n, seq![], 0, false);
    }
}

/// A block scalar with one chomping indicator, or none, in front of a line break.
proof fn lemma_marked(
    pre: Seq<u8>,
    mark: Seq<u8>,
    body: Seq<u8>,
    c: Cur,
    style: ScalarStyle,
    parent: int,
    start: Position,
)
    requires
        c.offset == pre.len(),
        body.len() > 0,
        body[0] == LF,
        mark == Seq::<u8>::empty() || mark == seq![DASH] || mark == seq![PLUS],
    ensures
        ({
            let b = pre + mark + body;
            let lines = body_lines(b, c.to(c.offset + mark.len()), style, parent);
            let chomp = if mark == seq![DASH] {
                -1int
            } else if mark == seq![PLUS] {
                1
            } else {
                0
            };
            let q = marked(pre, mark, body, c, style, parent, start);
            &&& q is Ok == lines is Ok
            &&& q is Ok ==> q->Ok_0.1 == chomped(lines->Ok_0, chomp)
        }),
{
    let b = pre + mark + body;
    let at = c.offset + mark.len();
    assert(b[at] == LF);
    if mark.len() > 0 {
        assert(b[c.offset] == mark[0]);
        assert(seq![DASH][0] == DASH);
        assert(seq![PLUS][0] == PLUS);
    }
    let first = Header { cur: c, chomp: 0, explicit: None }.step(b);
    assert(first.cur == c.to(at));
    assert(first.step(b) == first);
    assert(header(b, c) == first);
}

/// Strip, clip and keep of one body differ only in final line feeds: `-` gives a value
/// without any, no indicator the same with one line feed if it is not empty, and `+` the
/// same with all of them. If one of the three is a scalar, all are.
pub proof fn law_chomping(
    pre: Seq<u8>,
    body: Seq<u8>,
    c: Cur,
    style: ScalarStyle,
    parent: int,
    start: Position,
)
    requires
        c.offset == pre.len(),
        body.len() > 0,
        body[0] == LF,
        valid_utf8(pre + body),
    ensures
        ({
            let strip = marked(pre, seq![DASH], body, c, style, parent, start);
            let clip = marked(pre, seq![], body, c, style, parent, start);
            let keep = marked(pre, seq![PLUS], body, c, style, parent, start);
            &&& strip is Ok == clip is Ok
            &&& keep is Ok == clip is Ok
            &&& clip is Ok ==> {
                let value = strip->Ok_0.1;
                &&& value.len() > 0 ==> value.last() != '\n'
                &&& clip->Ok_0.1 == if value.len() == 0 {
                    value
                } else {
                    value.push('\n')
                }
                &&& exists|n: nat| keep->Ok_0.1 == value + #[trigger] newlines(n)
            }
        }),
{
    let none = Seq::<u8>::empty();
    lemma_marked(pre, seq![DASH], body, c, style, parent, start);
    lemma_marked(pre, none, body, c, style, parent, start);
    lemma_marked(pre, seq![PLUS], body, c, style, parent, start);
    let y = pre + none + body;
    assert(y =~= pre + body);
    let e = c.to(c.offset + 0);
    assert(none != seq![DASH] && none != seq![PLUS]) by {
        assert(none.len() != seq![DASH].len());
    }
    assert(seq![DASH] != seq![PLUS]) by {
        assert(seq![DASH][0] != seq![PLUS][0]);
    }
    let c1 = c.to(c.offset + 1);
    lemma_body_lines(pre + seq![DASH] + body, y, 1, c1, e, style, parent);
    lemma_body_lines(pre + seq![PLUS] + body, y, 1, c1, e, style, parent);
    let lines = body_lines(y, e, style, parent);
    if let Ok(l) = lines {
        let at = after_header(y, e);
        lemma_run(y, e.offset, Until::NotWhitespace);
        assert(y[e.offset] == LF);
        assert(at == e.newline(y));
        lemma_newline_boundary(y, e);
        let least = (if parent + 1 > 0 { parent + 1 } else { 0 }) as nat;
        let n = auto_indent(y, at, least)->Ok_0;
        lemma_content_end(y, at, style, n, seq![], 0, false);
        let keep = marked(pre, seq![PLUS], body, c, style, parent, start);
        assert(keep->Ok_0.1 == l.content + newlines(l.breaks));
    }
}

} // verus!
