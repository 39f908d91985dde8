//! Literal and folded block scalars.
use crate::error::{unexpected, Error, ErrorView, Result};
use crate::scanner::chars::{
    ascii_digit, blank, is_blank_or_break, is_break, is_digit, line_break, CR, DASH, HASH, LF, PLUS,
    SPACE, TAB, ZERO,
};
use crate::scanner::cursor::{lemma_run, run_end, Cur, Cursor, Until};
use crate::scanner::quoted::{newlines, push_newlines, Quoted};
use crate::text::{decimal, push_decimal, push_text, quoted, quoted_string, slice, string_of, text};
use crate::types::{point, Position, ScalarStyle, Span};
use vstd::prelude::*;
use vstd::string::*;

verus! {

/// What the indicators behind `|` or `>` ask for.
pub struct Header {
    pub cur: Cur,
    /// -1 strips the final breaks, 1 keeps them, 0 keeps one.
    pub chomp: int,
    /// The indentation, relative to the parent.
    pub explicit: Option<nat>,
}

impl Header {
    /// Reads one indicator, if there is one.
    pub open spec fn step(self, b: Seq<u8>) -> Header {
        let c = self.cur;
        if c.sees(b, PLUS) {
            Header { cur: c.to(c.offset + 1), chomp: 1, ..self }
        } else if c.sees(b, DASH) {
            Header { cur: c.to(c.offset + 1), chomp: -1, ..self }
        } else if c.offset < b.len() && ascii_digit(b[c.offset]) && b[c.offset] != ZERO {
            Header {
                cur: c.to(c.offset + 1),
                explicit: Some((b[c.offset] - ZERO) as nat),
                ..self
            }
        } else {
            self
        }
    }
}

/// The header that starts at `c`: at most two indicators.
pub open spec fn header(b: Seq<u8>, c: Cur) -> Header {
    Header { cur: c, chomp: 0, explicit: None }.step(b).step(b)
}

/// What follows a complete header: whitespace and a comment are skipped, and so
/// is the line break.
pub open spec fn after_header(b: Seq<u8>, c: Cur) -> Cur {
    let c1 = c.run(b, Until::NotWhitespace);
    let c2 = if c1.sees(b, HASH) {
        c1.run(b, Until::Break)
    } else {
        c1
    };
    if c2.sees_break(b) {
        c2.newline(b)
    } else {
        c2
    }
}

/// The offset behind the line break at `i`.
pub open spec fn past_break(b: Seq<u8>, i: int) -> int {
    if b[i] == CR && i + 1 < b.len() && b[i + 1] == LF {
        i + 2
    } else {
        i + 1
    }
}

/// The first line that holds more than spaces: where its content starts, how
/// many spaces precede it, and the widest of the space-only lines before it.
/// `width` spaces were counted on the current line so far.
pub open spec fn probe(b: Seq<u8>, i: int, width: nat, widest: nat) -> (int, nat, nat)
    decreases b.len() - i,
{
    if i >= b.len() {
        (i, width, widest)
    } else if b[i] == SPACE {
        probe(b, i + 1, width + 1, widest)
    } else if line_break(b[i]) {
        probe(b, past_break(b, i), 0, if width > widest { width } else { widest })
    } else {
        (i, width, widest)
    }
}

/// The indentation of the content, found from the content itself, at least
/// `least`.
pub open spec fn auto_indent(b: Seq<u8>, c: Cur, least: nat) -> core::result::Result<nat, ErrorView> {
    let (i, width, widest) = probe(b, c.offset, 0, 0);
    let auto = if width == 0 {
        widest
    } else {
        width
    };
    if i < b.len() && widest > auto {
        Err(
            unexpected(
                "indentation of at most "@ + decimal(auto) + " spaces"@,
                "line with "@ + decimal(widest) + " spaces before content"@,
                point(c.pos()),
            ),
        )
    } else {
        Ok(if auto > least { auto } else { least })
    }
}

/// The number of spaces at `c`, at most `n`.
pub open spec fn spaces(b: Seq<u8>, c: Cur, n: nat) -> int {
    let k = run_end(b, c.offset, Until::NotSpace) - c.offset;
    if k < n {
        k
    } else {
        n as int
    }
}

/// How the line breaks between two content lines are rendered. `more` says that
/// one of the two lines is indented further than the block.
pub open spec fn block_join(style: ScalarStyle, acc: Seq<char>, breaks: nat, more: bool) -> Seq<char> {
    if style is Folded && acc.len() > 0 {
        if breaks == 1 {
            if more {
                seq!['\n']
            } else {
                seq![' ']
            }
        } else if more || breaks == 0 {
            newlines(breaks)
        } else {
            newlines((breaks - 1) as nat)
        }
    } else {
        newlines(breaks)
    }
}

/// The lines of a block scalar: the text up to the last content line, the
/// number of line breaks behind it, and where the scalar ends.
pub struct Lines {
    pub cur: Cur,
    pub content: Seq<char>,
    pub breaks: nat,
}

/// Collects the lines of a block scalar that is indented by `indent` spaces.
/// `prev_more` says that the last content line was indented further.
pub open spec fn block_lines(
    b: Seq<u8>,
    c: Cur,
    style: ScalarStyle,
    indent: nat,
    acc: Seq<char>,
    breaks: nat,
    prev_more: bool,
) -> core::result::Result<Lines, ErrorView>
    decreases b.len() - c.offset,
{
    let k = spaces(b, c, indent);
    let c1 = c.to(c.offset + k);
    proof {
        lemma_run(b, c.offset, Until::NotSpace);
        lemma_run(b, c1.offset, Until::Break);
    }
    if c.column == 0 && c.sees_marker(b) {
        Ok(Lines { cur: c, content: acc, breaks })
    } else if c1.sees(b, TAB) && k < indent {
        Err(unexpected("spaces for indentation"@, "tab character"@, point(c1.pos())))
    } else if k < indent && c1.offset < b.len() && !line_break(b[c1.offset]) {
        Ok(Lines { cur: c1, content: acc, breaks })
    } else if c1.offset >= b.len() {
        Ok(Lines { cur: c1, content: acc, breaks: if k >= indent { breaks + 1 } else { breaks } })
    } else if line_break(b[c1.offset]) {
        block_lines(b, c1.newline(b), style, indent, acc, breaks + 1, prev_more)
    } else {
        let more = b[c1.offset] == SPACE || b[c1.offset] == TAB;
        let e = run_end(b, c1.offset, Until::Break);
        let acc2 = acc + block_join(style, acc, breaks, prev_more || more) + text(b, c1.offset, e);
        let c2 = c1.to(e);
        if c2.sees_break(b) {
            block_lines(b, c2.newline(b), style, indent, acc2, 1, more)
        } else {
            block_lines(b, c2, style, indent, acc2, 0, more)
        }
    }
}

/// The value of a block scalar after chomping its final line breaks.
pub open spec fn chomped(l: Lines, chomp: int) -> Seq<char> {
    if chomp < 0 {
        l.content
    } else if chomp == 0 {
        if l.content.len() > 0 {
            l.content.push('\n')
        } else {
            l.content
        }
    } else {
        l.content + newlines(l.breaks)
    }
}

/// A block scalar, from behind its `|` or `>`. `parent` is the indentation of
/// the surrounding block.
pub open spec fn block_scalar(b: Seq<u8>, c: Cur, style: ScalarStyle, parent: int, start: Position) -> Quoted {
    let h = header(b, c);
    if h.cur.offset < b.len() && !blank(b[h.cur.offset]) {
        Err(
            unexpected(
                "valid block scalar header"@,
                quoted(b[h.cur.offset] as char),
                h.cur.span_from(start),
            ),
        )
    } else {
        let body = after_header(b, h.cur);
        let indent = match h.explicit {
            Some(n) => Ok(((if parent > 0 { parent } else { 0 }) + n) as nat),
            None => auto_indent(b, body, (if parent + 1 > 0 { parent + 1 } else { 0 }) as nat),
        };
        match indent {
            Err(e) => Err(e),
            Ok(n) => match block_lines(b, body, style, n, seq![], 0, false) {
                Err(e) => Err(e),
                Ok(l) => Ok((l.cur, chomped(l, h.chomp))),
            },
        }
    }
}

/// What the indicators behind `|` or `>` ask for.
struct HeaderData {
    cur: Cursor,
    chomp: i8,
    explicit: Option<u32>,
}

impl HeaderData {
    spec fn model(self) -> Header {
        Header {
            cur: self.cur@,
            chomp: self.chomp as int,
            explicit: match self.explicit {
                Some(n) => Some(n as nat),
                None => None,
            },
        }
    }

    spec fn ok(self, b: Seq<u8>) -> bool {
        &&& self.cur@.ok(b)
        &&& (self.explicit matches Some(n) ==> n <= 9)
    }

    fn step(self, bytes: &[u8]) -> (r: HeaderData)
        requires
            self.ok(bytes@),
        ensures
            r.model() == self.model().step(bytes@),
            r.ok(bytes@),
            r.cur.offset >= self.cur.offset,
    {
        match self.cur.peek(bytes) {
            Some(x) => {
                if x == PLUS {
                    HeaderData { cur: self.cur.step(bytes), chomp: 1, explicit: self.explicit }
                } else if x == DASH {
                    HeaderData { cur: self.cur.step(bytes), chomp: -1, explicit: self.explicit }
                } else if is_digit(x) && x != ZERO {
                    HeaderData {
                        cur: self.cur.step(bytes),
                        chomp: self.chomp,
                        explicit: Some((x - ZERO) as u32),
                    }
                } else {
                    self
                }
            },
            None => self,
        }
    }
}

/// Moves behind a header.
fn skip_header_rest(bytes: &[u8], c: Cursor) -> (r: Cursor)
    requires
        c@.ok(bytes@),
    ensures
        r@ == after_header(bytes@, c@),
        r@.ok(bytes@),
        r.offset >= c.offset,
{
    let mut n = c.run(bytes, Until::NotWhitespace);
    if n.at(bytes, HASH) {
        n = n.run(bytes, Until::Break);
    }
    if n.at_break(bytes) {
        n = n.skip_line(bytes);
    }
    n
}

/// Finds the first line that holds more than spaces.
fn find_content(bytes: &[u8], from: usize) -> (r: (usize, u32, u32))
    requires
        from <= bytes@.len(),
        bytes@.len() <= 0x7fff_fffe,
    ensures
        (r.0 as int, r.1 as nat, r.2 as nat) == probe(bytes@, from as int, 0, 0),
        r.0 <= bytes@.len(),
        r.1 <= bytes@.len(),
        r.2 <= bytes@.len(),
{
    let ghost goal = probe(bytes@, from as int, 0, 0);
    let mut i: usize = from;
    let mut width: u32 = 0;
    let mut widest: u32 = 0;
    while i < bytes.len()
        invariant_except_break
            goal == probe(bytes@, i as int, width as nat, widest as nat),
        invariant
            from <= i <= bytes@.len() <= 0x7fff_fffe,
            width <= i,
            widest <= i,
        ensures
            goal == (i as int, width as nat, widest as nat),
        decreases bytes@.len() - i,
    {
        let x = bytes[i];
        if x == SPACE {
            width += 1;
            i += 1;
        } else if is_break(x) {
            if width > widest {
                widest = width;
            }
            width = 0;
            if x == CR && i + 1 < bytes.len() && bytes[i + 1] == LF {
                i += 2;
            } else {
                i += 1;
            }
        } else {
            break;
        }
    }
    (i, width, widest)
}

/// Finds the indentation of the content.
fn find_indent(bytes: &[u8], c: Cursor, least: u32) -> (r: Result<u32>)
    requires
        c@.ok(bytes@),
        least <= 0x7fff_ffff,
    ensures
        match auto_indent(bytes@, c@, least as nat) {
            Ok(n) => r matches Ok(v) && v == n && v <= 0x7fff_ffff,
            Err(e) => r matches Err(x) && x@ == e,
        },
{
    let (i, width, widest) = find_content(bytes, c.offset);
    let auto: u32 = if width == 0 {
        widest
    } else {
        width
    };
    if i < bytes.len() && widest > auto {
        let mut expected = "indentation of at most ".to_owned();
        push_decimal(&mut expected, auto as u64);
        expected.append(" spaces");
        let mut found = "line with ".to_owned();
        push_decimal(&mut found, widest as u64);
        found.append(" spaces before content");
        return Err(Error::unexpected(expected.as_str(), found.as_str(), Span::point(c.pos())));
    }
    Ok(
        if auto > least {
            auto
        } else {
            least
        },
    )
}

/// Moves over at most `n` spaces; also tells how many there were.
fn skip_spaces(bytes: &[u8], c: Cursor, n: u32) -> (r: (Cursor, u32))
    requires
        c@.ok(bytes@),
    ensures
        r.1 == spaces(bytes@, c@, n as nat),
        r.0@ == c@.to(c.offset + r.1),
        r.0@.ok(bytes@),
        r.1 <= n,
{
    let ghost b = bytes@;
    let mut d = c;
    let mut k: u32 = 0;
    proof {
        lemma_run(b, c.offset as int, Until::NotSpace);
    }
    while k < n && d.at(bytes, SPACE)
        invariant
            b == bytes@,
            c@.ok(b),
            d@.ok(b),
            d@ == c@.to(c.offset + k),
            d.offset == c.offset + k,
            k <= n,
            c.offset + k <= run_end(b, c.offset as int, Until::NotSpace) <= b.len(),
            run_end(b, c.offset as int, Until::NotSpace) == run_end(b, d.offset as int, Until::NotSpace),
        decreases n - k,
    {
        proof {
            lemma_run(b, d.offset as int, Until::NotSpace);
            lemma_run(b, d.offset + 1, Until::NotSpace);
        }
        d = d.step(bytes);
        k += 1;
    }
    proof {
        lemma_run(b, d.offset as int, Until::NotSpace);
    }
    (d, k)
}

/// Appends the rendering of the line breaks between two content lines.
fn push_join(style: ScalarStyle, buf: &mut Vec<char>, breaks: usize, more: bool)
    ensures
        final(buf)@ == old(buf)@ + block_join(style, old(buf)@, breaks as nat, more),
{
    let ghost acc = buf@;
    if style == ScalarStyle::Folded && buf.len() > 0 {
        if breaks == 1 {
            if more {
                buf.push('\n');
            } else {
                buf.push(' ');
            }
            assert(buf@ =~= acc + block_join(style, acc, breaks as nat, more));
        } else if more || breaks == 0 {
            push_newlines(buf, breaks);
        } else {
            push_newlines(buf, breaks - 1);
        }
    } else {
        push_newlines(buf, breaks);
    }
}

/// Collects the lines of a block scalar.
fn scan_lines(input: &str, bytes: &[u8], from: Cursor, style: ScalarStyle, indent: u32) -> (r: Result<
    (Cursor, Vec<char>, usize),
>)
    requires
        bytes@ == input.spec_bytes(),
        from@.ok(bytes@),
    ensures
        match block_lines(bytes@, from@, style, indent as nat, seq![], 0, false) {
            Ok(l) => r matches Ok(t) && t.0@ == l.cur && t.1@ == l.content && t.2 == l.breaks
                && t.0@.ok(bytes@) && t.0.offset >= from.offset,
            Err(e) => r matches Err(x) && x@ == e,
        },
{
    let ghost b = bytes@;
    let ghost goal = block_lines(b, from@, style, indent as nat, seq![], 0, false);
    let mut c = from;
    let mut buf: Vec<char> = Vec::new();
    let mut breaks: usize = 0;
    let mut prev_more = false;
    loop
        invariant_except_break
            goal == block_lines(b, c@, style, indent as nat, buf@, breaks as nat, prev_more),
            breaks <= c.offset,
        invariant
            b == bytes@,
            b == input.spec_bytes(),
            c@.ok(b),
            from.offset <= c.offset,
            goal == block_lines(b, from@, style, indent as nat, seq![], 0, false),
        ensures
            goal == Ok::<Lines, ErrorView>(Lines { cur: c@, content: buf@, breaks: breaks as nat }),
        decreases b.len() - c.offset,
    {
        if c.column == 0 && c.at_marker(bytes) {
            break;
        }
        let (c1, k) = skip_spaces(bytes, c, indent);
        if c1.at(bytes, TAB) && k < indent {
            return Err(
                Error::unexpected("spaces for indentation", "tab character", Span::point(c1.pos())),
            );
        }
        if c1.offset >= bytes.len() {
            if k >= indent {
                breaks += 1;
            }
            c = c1;
            break;
        }
        let x = bytes[c1.offset];
        if k < indent && !is_break(x) {
            c = c1;
            break;
        }
        if is_break(x) {
            breaks += 1;
            c = c1.skip_line(bytes);
        } else {
            let more = x == SPACE || x == TAB;
            push_join(style, &mut buf, breaks, prev_more || more);
            let c2 = c1.run(bytes, Until::Break);
            proof {
                lemma_run(b, c1.offset as int, Until::Break);
            }
            push_text(&mut buf, slice(input, c1.offset, c2.offset));
            prev_more = more;
            if c2.at_break(bytes) {
                breaks = 1;
                c = c2.skip_line(bytes);
            } else {
                breaks = 0;
                c = c2;
            }
        }
    }
    Ok((c, buf, breaks))
}

/// Scans a block scalar from behind its `|` or `>`.
pub fn scan_block_scalar(
    input: &str,
    bytes: &[u8],
    open: Cursor,
    style: ScalarStyle,
    parent: i32,
    start: Position,
) -> (r: Result<(Cursor, String)>)
    requires
        bytes@ == input.spec_bytes(),
        open@.ok(bytes@),
        -1 <= parent <= 0x7fff_fffe,
    ensures
        match block_scalar(bytes@, open@, style, parent as int, start) {
            Ok((c, v)) => r matches Ok(p) && p.0@ == c && p.1@ == v && p.0@.ok(bytes@)
                && p.0.offset >= open.offset,
            Err(e) => r matches Err(x) && x@ == e,
        },
{
    let h = HeaderData { cur: open, chomp: 0, explicit: None }.step(bytes).step(bytes);
    if let Some(x) = h.cur.peek(bytes) {
        if !is_blank_or_break(x) {
            let found = quoted_string(x as char);
            return Err(
                Error::unexpected(
                    "valid block scalar header",
                    found.as_str(),
                    h.cur.span_from(start),
                ),
            );
        }
    }
    let body = skip_header_rest(bytes, h.cur);
    let indent: u32 = match h.explicit {
        Some(n) => (if parent > 0 {
            parent as u32
        } else {
            0
        }) + n,
        None => match find_indent(bytes, body, (parent + 1) as u32) {
            Ok(n) => n,
            Err(e) => {
                return Err(e);
            },
        },
    };
    match scan_lines(input, bytes, body, style, indent) {
        Err(e) => Err(e),
        Ok((c, buf, breaks)) => {
            let mut buf = buf;
            if h.chomp == 0 {
                if buf.len() > 0 {
                    buf.push('\n');
                }
            } else if h.chomp > 0 {
                push_newlines(&mut buf, breaks);
            }
            Ok((c, string_of(&buf)))
        },
    }
}

} // verus!
