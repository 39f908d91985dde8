//! Plain scalars.
use crate::scanner::chars::{
    flow, is_break, is_flow, is_whitespace, line_break, whitespace, COLON, HASH,
};
use crate::scanner::cursor::{
    blank_at, blank_or_flow_at, is_blank_at, is_blank_or_flow_at, lemma_run, lemma_run_boundary,
    run_end, Cur, Cursor, Until,
};
use crate::scanner::quoted::{folded, push_newlines};
use crate::text::{
    at_boundary, lemma_ascii_boundary, lemma_text_ascii, lemma_text_empty, lemma_text_join,
    lemma_text_nonempty, push_text, slice, string_of, text,
};
use std::borrow::Cow;
use vstd::prelude::*;
use vstd::string::*;

verus! {

/// How far a plain scalar has been read.
pub struct PlainState {
    pub cur: Cur,
    /// The value so far.
    pub content: Seq<char>,
    /// The whitespace behind it, as long as no line break follows.
    pub ws: Seq<char>,
    /// Whether a line break stands behind the value.
    pub lead: bool,
    /// The number of empty lines behind that line break.
    pub trail: nat,
    /// The offset at which the value ends.
    pub end: int,
    /// The line on which the value ends.
    pub last_line: int,
}

/// What stands between the value so far and the next piece of it: the
/// whitespace as it is, or the line breaks folded.
pub open spec fn separator(s: PlainState) -> Seq<char> {
    if s.lead {
        folded(s.trail)
    } else {
        s.ws
    }
}

/// The offset to which the next piece of a plain scalar reaches.
pub open spec fn piece_end(b: Seq<u8>, o: int, in_flow: bool) -> int {
    let e = run_end(b, o, if in_flow { Until::PlainFlow } else { Until::PlainBlock });
    if e > o {
        e
    } else {
        o + 1
    }
}

/// Reads a plain scalar on from `s`. In block context continuation lines are
/// indented past `indent`.
pub open spec fn plain(b: Seq<u8>, s: PlainState, in_flow: bool, indent: int) -> PlainState
    decreases b.len() - s.cur.offset,
{
    let c = s.cur;
    if c.offset >= b.len() {
        s
    } else if c.column == 0 && c.sees_marker(b) {
        s
    } else if b[c.offset] == HASH && (c.offset > s.end || s.content.len() == 0) {
        s
    } else if whitespace(b[c.offset]) {
        let ws = if !s.lead {
            s.ws.push(b[c.offset] as char)
        } else {
            s.ws
        };
        plain(b, PlainState { cur: c.to(c.offset + 1), ws, ..s }, in_flow, indent)
    } else if line_break(b[c.offset]) {
        let n = c.newline(b).run(b, Until::NotSpace);
        let s2 = PlainState {
            cur: n,
            ws: seq![],
            lead: true,
            trail: if s.lead { s.trail + 1 } else { 0 },
            ..s
        };
        proof {
            lemma_run(b, c.newline(b).offset, Until::NotSpace);
        }
        if !in_flow && n.column <= indent && !n.sees_break(b) {
            s2
        } else {
            plain(b, s2, in_flow, indent)
        }
    } else if b[c.offset] == COLON && (blank_at(b, c.offset + 1) || (in_flow && blank_or_flow_at(
        b,
        c.offset + 1,
    ))) {
        s
    } else if in_flow && flow(b[c.offset]) {
        s
    } else {
        let e = piece_end(b, c.offset, in_flow);
        proof {
            lemma_run(b, c.offset, if in_flow { Until::PlainFlow } else { Until::PlainBlock });
        }
        plain(
            b,
            PlainState {
                cur: c.to(e),
                content: s.content + separator(s) + text(b, c.offset, e),
                ws: seq![],
                lead: false,
                trail: 0,
                end: e,
                last_line: c.line,
            },
            in_flow,
            indent,
        )
    }
}

/// A plain scalar that starts at `c`.
pub open spec fn plain_scalar(b: Seq<u8>, c: Cur, in_flow: bool, indent: int) -> PlainState {
    plain(
        b,
        PlainState {
            cur: c,
            content: seq![],
            ws: seq![],
            lead: false,
            trail: 0,
            end: c.offset,
            last_line: c.line,
        },
        in_flow,
        indent,
    )
}

/// A piece of a plain scalar ends between two characters.
proof fn lemma_piece(b: Seq<u8>, c: Cur, in_flow: bool)
    requires
        c.ok(b),
        c.offset < b.len(),
    ensures
        c.offset < piece_end(b, c.offset, in_flow) <= b.len(),
        at_boundary(b, piece_end(b, c.offset, in_flow)),
{
    let u = if in_flow {
        Until::PlainFlow
    } else {
        Until::PlainBlock
    };
    lemma_run(b, c.offset, u);
    lemma_run_boundary(b, c.offset, u);
    if run_end(b, c.offset, u) == c.offset {
        lemma_ascii_boundary(b, c.offset);
    }
}

/// What was read of a plain scalar.
pub struct Plain<'a> {
    /// Where reading stopped.
    pub cur: Cursor,
    /// The value.
    pub value: Cow<'a, str>,
    /// The line on which the value ends.
    pub last_line: u32,
}

/// Whether no line break stands at `lo..hi`.
pub open spec fn on_one_line(b: Seq<u8>, lo: int, hi: int) -> bool {
    forall|i: int| lo <= i < hi ==> !line_break(#[trigger] b[i])
}

/// Scans a plain scalar.
///
/// The value is borrowed from the input unless a line break was read.
pub fn scan_plain<'a>(input: &'a str, bytes: &[u8], from: Cursor, in_flow: bool, indent: i32) -> (r: Plain<
    'a,
>)
    requires
        bytes@ == input.spec_bytes(),
        from@.ok(bytes@),
    ensures
        ({
            let s = plain_scalar(bytes@, from@, in_flow, indent as int);
            &&& r.cur@ == s.cur
            &&& r.value@ == s.content
            &&& r.last_line == s.last_line
            &&& r.cur@.ok(bytes@)
            &&& r.cur.offset >= from.offset
            &&& r.value@.len() > 0 ==> r.cur.offset > from.offset
            &&& r.value is Borrowed <==> on_one_line(
                bytes@,
                from.offset as int,
                r.cur.offset as int,
            )
        }),
{
    let ghost b = bytes@;
    let ghost goal = plain_scalar(b, from@, in_flow, indent as int);
    let mut c = from;
    // The value while it is no part of the input; `None` as long as it stands at
    // `from.offset..end`.
    let mut owned: Option<Vec<char>> = None;
    let mut ws: Vec<char> = Vec::new();
    let mut lead = false;
    let mut trail: usize = 0;
    let mut end: usize = from.offset;
    let mut last_line: u32 = from.line;
    let ghost mut st = PlainState {
        cur: from@,
        content: seq![],
        ws: seq![],
        lead: false,
        trail: 0,
        end: from.offset as int,
        last_line: from.line as int,
    };
    proof {
        lemma_text_empty(b, from.offset as int);
    }
    loop
        invariant_except_break
            goal == plain(b, st, in_flow, indent as int),
            owned is None ==> !lead,
            owned is None ==> st.ws == text(b, end as int, c.offset as int),
            owned is Some ==> st.ws == ws@,
        invariant
            b == bytes@,
            b == input.spec_bytes(),
            from@.ok(b),
            c@.ok(b),
            goal == plain_scalar(b, from@, in_flow, indent as int),
            from.offset <= end <= c.offset,
            at_boundary(b, end as int),
            trail <= c.offset,
            st.cur == c@,
            st.lead == lead,
            st.trail == trail,
            st.end == end,
            st.last_line == last_line,
            owned matches Some(v) ==> st.content == v@,
            owned is None ==> st.content == text(b, from.offset as int, end as int),
            st.content.len() == 0 <==> end == from.offset,
            owned is None <==> on_one_line(b, from.offset as int, c.offset as int),
        ensures
            goal == st,
        decreases b.len() - c.offset,
    {
        if c.offset >= bytes.len() {
            break;
        }
        if c.column == 0 && c.at_marker(bytes) {
            break;
        }
        let x = bytes[c.offset];
        if x == HASH && (c.offset > end || end == from.offset) {
            break;
        }
        if is_whitespace(x) {
            proof {
                lemma_ascii_boundary(b, c.offset as int);
                lemma_text_ascii(b, c.offset as int);
                lemma_text_join(b, end as int, c.offset as int, c.offset + 1);
                assert(st.ws + seq![x as char] =~= st.ws.push(x as char));
                st = PlainState {
                    cur: c@.to(c.offset + 1),
                    ws: if !st.lead { st.ws.push(x as char) } else { st.ws },
                    ..st
                };
            }
            if owned.is_some() && !lead {
                ws.push(x as char);
            }
            c = c.step(bytes);
            continue;
        }
        if is_break(x) {
            if owned.is_none() {
                let mut v: Vec<char> = Vec::new();
                push_text(&mut v, slice(input, from.offset, end));
                assert(v@ =~= text(b, from.offset as int, end as int));
                owned = Some(v);
            }
            ws.clear();
            let n = c.skip_line(bytes).run(bytes, Until::NotSpace);
            proof {
                assert(line_break(b[c.offset as int]));
                lemma_run(b, c@.newline(b).offset, Until::NotSpace);
                st = PlainState {
                    cur: n@,
                    ws: seq![],
                    lead: true,
                    trail: if st.lead { st.trail + 1 } else { 0 },
                    ..st
                };
            }
            if lead {
                trail += 1;
            } else {
                trail = 0;
                lead = true;
            }
            c = n;
            if !in_flow && (c.column as i32) <= indent && !c.at_break(bytes) {
                break;
            }
            continue;
        }
        if x == COLON && (is_blank_at(bytes, c.offset + 1) || (in_flow && is_blank_or_flow_at(
            bytes,
            c.offset + 1,
        ))) {
            break;
        }
        if in_flow && is_flow(x) {
            break;
        }
        let n = c.run(
            bytes,
            if in_flow {
                Until::PlainFlow
            } else {
                Until::PlainBlock
            },
        );
        proof {
            lemma_piece(b, c@, in_flow);
            lemma_run(
                b,
                c.offset as int,
                if in_flow {
                    Until::PlainFlow
                } else {
                    Until::PlainBlock
                },
            );
        }
        let e: usize = if n.offset > c.offset {
            n.offset
        } else {
            c.offset + 1
        };
        let ghost piece = text(b, c.offset as int, e as int);
        proof {
            lemma_text_nonempty(b, c.offset as int, e as int);
            assert(st.content + separator(st) + piece =~= st.content + (separator(st) + piece));
        }
        if let Some(mut v) = owned {
            if lead {
                if trail == 0 {
                    v.push(' ');
                    assert(v@ =~= st.content + folded(0));
                } else {
                    push_newlines(&mut v, trail);
                }
            } else {
                v.append(&mut ws);
            }
            push_text(&mut v, slice(input, c.offset, e));
            owned = Some(v);
        } else {
            owned = None;
            proof {
                lemma_text_join(b, from.offset as int, end as int, c.offset as int);
                lemma_text_join(b, from.offset as int, c.offset as int, e as int);
            }
        }
        ws.clear();
        proof {
            st = PlainState {
                cur: c@.to(e as int),
                content: st.content + separator(st) + piece,
                ws: seq![],
                lead: false,
                trail: 0,
                end: e as int,
                last_line: c.line as int,
            };
            lemma_text_empty(b, e as int);
        }
        lead = false;
        trail = 0;
        last_line = c.line;
        c = c.to(bytes, e);
        end = e;
    }
    let value = match owned {
        Some(v) => Cow::Owned(string_of(&v)),
        None => Cow::Borrowed(slice(input, from.offset, end)),
    };
    Plain { cur: c, value, last_line }
}

} // verus!
