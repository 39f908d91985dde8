//! Where a value stands in the source.
//!
//! The events of the parser tell where most nodes stand. Two of them say less: that of
//! a value that is not written, which has the span of a token beside it, and that of a
//! block mapping, which stands at the `:` behind the first key. For these the tokens of
//! the source tell the place.
use crate::cst::path::{is_block_mapping, node_range, node_span, starts_block_mapping, Range};
use crate::emitter::scalar::blanks;
use crate::parser::event::{Event, EventKind, EventKindView, EventView};
use crate::scanner::chars::{COLON, COMMA, CR, DASH, LF, RBRACE, RBRACKET, SPACE, TAB};
use crate::scanner::token::{Token, TokenKind, TokenView};
use crate::text::cow_str;
use crate::types::ScalarStyle;
use vstd::prelude::*;
use vstd::string::*;

verus! {

/// A byte of ASCII whitespace: space, tab, line feed, form feed or carriage return.
pub open spec fn ascii_space(x: u8) -> bool {
    x == SPACE || x == TAB || x == LF || x == 0x0c || x == CR
}

/// The end of a range without the ASCII whitespace at its end.
pub open spec fn trimmed_end(b: Seq<u8>, lo: int, hi: int) -> int
    decreases hi - lo,
{
    if lo < hi && ascii_space(b[hi - 1]) {
        trimmed_end(b, lo, hi - 1)
    } else {
        hi
    }
}

/// Whether the token is no trivia and has bytes.
pub open spec fn is_written(t: TokenView) -> bool {
    &&& t.span.start.offset < t.span.end.offset
    &&& !(t.kind is Comment || t.kind is Whitespace || t.kind is LineBreak)
}

/// The last of the first `k` tokens that is written and ends no later than `at`.
pub open spec fn last_before(tokens: Seq<TokenView>, k: nat, at: int) -> Option<TokenView>
    decreases k,
{
    if !(0 < k <= tokens.len()) {
        None
    } else if is_written(tokens[k - 1]) && tokens[k - 1].span.end.offset <= at {
        Some(tokens[k - 1])
    } else {
        last_before(tokens, (k - 1) as nat, at)
    }
}

/// The last `?` among the first `k` tokens that ends no later than `at`.
pub open spec fn key_before(tokens: Seq<TokenView>, k: nat, at: int) -> Option<TokenView>
    decreases k,
{
    if !(0 < k <= tokens.len()) {
        None
    } else if is_written(tokens[k - 1]) && tokens[k - 1].kind is Key && tokens[k
        - 1].span.end.offset <= at {
        Some(tokens[k - 1])
    } else {
        key_before(tokens, (k - 1) as nat, at)
    }
}

/// Where the anchors and tags start that stand in front of `start` on its line, among
/// the first `k` tokens; `start` itself without any.
pub open spec fn properties_start(tokens: Seq<TokenView>, k: nat, start: int) -> int
    decreases k,
{
    if !(0 < k <= tokens.len()) {
        start
    } else {
        let t = tokens[k - 1];
        let rest = (k - 1) as nat;
        if t.span.start.offset >= start || t.span.start.offset >= t.span.end.offset
            || t.kind is Whitespace {
            properties_start(tokens, rest, start)
        } else if t.kind is Anchor || t.kind is Tag {
            properties_start(tokens, rest, t.span.start.offset as int)
        } else {
            start
        }
    }
}

/// Whether the event is that of a value that is not written: a plain scalar without
/// text.
pub open spec fn is_missing(e: EventView) -> bool {
    e.kind matches EventKindView::Scalar { value, style, .. } && value.len() == 0
        && style is Plain
}

/// Whether the span of a missing value is that of the `:` or `-` in front of it. With
/// an anchor or a tag, or without any such indicator, it is that of the token behind it.
pub open spec fn spans_indicator(b: Seq<u8>, e: EventView) -> bool {
    let start = e.span.start.offset as int;
    &&& e.kind->Scalar_anchor is None
    &&& e.kind->Scalar_tag is None
    &&& e.span.end.offset == start + 1
    &&& start < b.len()
    &&& (b[start] == COLON || b[start] == DASH)
}

/// The token behind which a missing value would stand: its indicator, its properties,
/// or the key without a `:`.
pub open spec fn token_in_front(b: Seq<u8>, tokens: Seq<TokenView>, e: EventView) -> Option<
    TokenView,
> {
    last_before(
        tokens,
        tokens.len(),
        if spans_indicator(b, e) {
            e.span.end.offset as int
        } else {
            e.span.start.offset as int
        },
    )
}

/// The place of a missing value: behind the token in front of it.
pub open spec fn missing_place(b: Seq<u8>, tokens: Seq<TokenView>, e: EventView) -> int {
    match token_in_front(b, tokens, e) {
        Some(t) => if t.span.end.offset <= b.len() {
            trimmed_end(b, t.span.start.offset as int, t.span.end.offset as int)
        } else {
            e.span.start.offset as int
        },
        None => e.span.start.offset as int,
    }
}

/// Whether the token behind a missing value belongs to a flow collection.
pub open spec fn in_flow(b: Seq<u8>, e: EventView) -> bool {
    let at = e.span.start.offset as int;
    at < b.len() && (b[at] == COMMA || b[at] == RBRACE || b[at] == RBRACKET)
}

/// What separates a missing value, once it is written, from the token in front of it: a
/// space; behind a key without a `:` also that. In a block mapping such a key stands
/// behind a `?`, and the `:` goes on the next line, under the `?`.
pub open spec fn missing_lead(b: Seq<u8>, tokens: Seq<TokenView>, e: EventView) -> Seq<char> {
    match token_in_front(b, tokens, e) {
        None => ""@,
        Some(t) => if !(t.kind is Scalar) {
            " "@
        } else if in_flow(b, e) {
            ": "@
        } else {
            match key_before(tokens, tokens.len(), t.span.start.offset as int) {
                Some(key) => "\n"@ + blanks(
                    (if key.span.start.column > 0 {
                        key.span.start.column - 1
                    } else {
                        0
                    }) as nat,
                ) + ": "@,
                None => ": "@,
            }
        },
    }
}

/// Where the node that starts at the `i`th event stands: nowhere between its surroundings
/// if it is not written; a block mapping from its first key on, with the anchors and tags
/// of that key.
pub open spec fn place_of(b: Seq<u8>, tokens: Seq<TokenView>, events: Seq<EventView>, i: int) -> Range {
    let (lo, hi) = node_range(events, i);
    if is_missing(events[i]) {
        (missing_place(b, tokens, events[i]), missing_place(b, tokens, events[i]))
    } else if starts_block_mapping(events[i]) {
        (properties_start(tokens, tokens.len(), lo), hi)
    } else {
        (lo, hi)
    }
}

/// What goes in front of a new text for the node that starts at the `i`th event.
pub open spec fn lead_of(b: Seq<u8>, tokens: Seq<TokenView>, events: Seq<EventView>, i: int) -> Seq<
    char,
> {
    if is_missing(events[i]) {
        missing_lead(b, tokens, events[i])
    } else {
        ""@
    }
}

/// Trims ASCII whitespace from the end of a range.
pub fn trim_range(bytes: &[u8], start: usize, end: usize) -> (r: usize)
    requires
        end <= bytes@.len(),
    ensures
        r == trimmed_end(bytes@, start as int, end as int),
        r <= end,
        start <= end ==> start <= r,
{
    let ghost b = bytes@;
    let mut hi: usize = end;
    while start < hi && (bytes[hi - 1] == SPACE || bytes[hi - 1] == TAB || bytes[hi - 1] == LF
        || bytes[hi - 1] == 0x0c || bytes[hi - 1] == CR)
        invariant
            hi <= end,
            start <= end ==> start <= hi,
            end <= b.len(),
            bytes@ == b,
            trimmed_end(b, start as int, hi as int) == trimmed_end(b, start as int, end as int),
        decreases hi,
    {
        hi -= 1;
    }
    hi
}

/// Whether the token is no trivia and has bytes.
fn token_is_written(t: &Token<'_>) -> (r: bool)
    ensures
        r == is_written(t@),
{
    if t.span.start.offset >= t.span.end.offset {
        return false;
    }
    match &t.kind {
        TokenKind::Comment(_) | TokenKind::Whitespace(_) | TokenKind::LineBreak(_) => false,
        _ => true,
    }
}

/// Finds the last token that is written and ends no later than `at`.
fn find_before<'t, 'a>(tokens: &'t Vec<Token<'a>>, at: usize) -> (r: Option<&'t Token<'a>>)
    ensures
        match last_before(crate::scanner::token_views(tokens@), tokens@.len(), at as int) {
            Some(t) => r matches Some(x) && x@ == t,
            None => r is None,
        },
{
    let ghost views = crate::scanner::token_views(tokens@);
    let mut k: usize = tokens.len();
    while k > 0
        invariant
            k <= tokens@.len(),
            views == crate::scanner::token_views(tokens@),
            last_before(views, k as nat, at as int) == last_before(views, views.len(), at as int),
        decreases k,
    {
        assert(views[k - 1] == tokens@[k - 1]@);
        if token_is_written(&tokens[k - 1]) && tokens[k - 1].span.end.offset <= at {
            return Some(&tokens[k - 1]);
        }
        k -= 1;
    }
    None
}

/// Finds the last `?` that ends no later than `at`.
fn find_key_before<'t, 'a>(tokens: &'t Vec<Token<'a>>, at: usize) -> (r: Option<&'t Token<'a>>)
    ensures
        match key_before(crate::scanner::token_views(tokens@), tokens@.len(), at as int) {
            Some(t) => r matches Some(x) && x@ == t,
            None => r is None,
        },
{
    let ghost views = crate::scanner::token_views(tokens@);
    let mut k: usize = tokens.len();
    while k > 0
        invariant
            k <= tokens@.len(),
            views == crate::scanner::token_views(tokens@),
            key_before(views, k as nat, at as int) == key_before(views, views.len(), at as int),
        decreases k,
    {
        assert(views[k - 1] == tokens@[k - 1]@);
        let is_key = match &tokens[k - 1].kind {
            TokenKind::Key => true,
            _ => false,
        };
        if is_key && token_is_written(&tokens[k - 1]) && tokens[k - 1].span.end.offset <= at {
            return Some(&tokens[k - 1]);
        }
        k -= 1;
    }
    None
}

/// Finds where the anchors and tags in front of `from` start.
fn find_properties(tokens: &Vec<Token<'_>>, from: usize) -> (r: usize)
    ensures
        r == properties_start(crate::scanner::token_views(tokens@), tokens@.len(), from as int),
{
    let ghost views = crate::scanner::token_views(tokens@);
    let mut start: usize = from;
    let mut k: usize = tokens.len();
    while k > 0
        invariant
            k <= tokens@.len(),
            views == crate::scanner::token_views(tokens@),
            properties_start(views, k as nat, start as int) == properties_start(
                views,
                views.len(),
                from as int,
            ),
        decreases k,
    {
        assert(views[k - 1] == tokens@[k - 1]@);
        let t = &tokens[k - 1];
        k -= 1;
        if t.span.start.offset < start && t.span.start.offset < t.span.end.offset {
            match &t.kind {
                TokenKind::Whitespace(_) => {},
                TokenKind::Anchor(_) | TokenKind::Tag { .. } => {
                    start = t.span.start.offset;
                },
                _ => {
                    return start;
                },
            }
        }
    }
    start
}

/// Whether the event is that of a value that is not written.
fn event_is_missing(e: &Event<'_>) -> (r: bool)
    ensures
        r == is_missing(e@),
{
    match &e.kind {
        EventKind::Scalar { value, style, .. } => *style == ScalarStyle::Plain && cow_str(
            value,
        ).is_empty(),
        _ => false,
    }
}

/// Whether the span of a missing value is that of the indicator in front of it.
fn event_spans_indicator(bytes: &[u8], e: &Event<'_>) -> (r: bool)
    requires
        is_missing(e@),
    ensures
        r == spans_indicator(bytes@, e@),
{
    let start: usize = e.span.start.offset;
    let bare = match &e.kind {
        EventKind::Scalar { anchor, tag, .. } => anchor.is_none() && tag.is_none(),
        _ => false,
    };
    bare && start < bytes.len() && e.span.end.offset == start + 1 && (bytes[start] == COLON
        || bytes[start] == DASH)
}

/// Finds the token in front of a missing value.
fn find_in_front<'t, 'a>(bytes: &[u8], tokens: &'t Vec<Token<'a>>, e: &Event<'_>) -> (r: Option<
    &'t Token<'a>,
>)
    requires
        is_missing(e@),
    ensures
        match token_in_front(bytes@, crate::scanner::token_views(tokens@), e@) {
            Some(t) => r matches Some(x) && x@ == t,
            None => r is None,
        },
{
    let at: usize = if event_spans_indicator(bytes, e) {
        e.span.end.offset
    } else {
        e.span.start.offset
    };
    find_before(tokens, at)
}

/// Finds where a node stands in the source.
pub fn find_place(bytes: &[u8], tokens: &Vec<Token<'_>>, events: &Vec<Event<'_>>, i: usize) -> (r: (
    usize,
    usize,
))
    requires
        i < events@.len(),
    ensures
        (r.0 as int, r.1 as int) == place_of(
            bytes@,
            crate::scanner::token_views(tokens@),
            crate::parser::stream::event_views(events@),
            i as int,
        ),
{
    let ghost views = crate::parser::stream::event_views(events@);
    assert(views[i as int] == events@[i as int]@);
    let e = &events[i];
    if event_is_missing(e) {
        let at: usize = match find_in_front(bytes, tokens, e) {
            Some(t) => if t.span.end.offset <= bytes.len() {
                trim_range(bytes, t.span.start.offset, t.span.end.offset)
            } else {
                e.span.start.offset
            },
            None => e.span.start.offset,
        };
        return (at, at);
    }
    let (lo, hi) = node_span(events, i);
    if is_block_mapping(e) {
        (find_properties(tokens, lo), hi)
    } else {
        (lo, hi)
    }
}

/// What goes in front of a new text for a node.
pub fn find_lead(bytes: &[u8], tokens: &Vec<Token<'_>>, events: &Vec<Event<'_>>, i: usize) -> (r:
    String)
    requires
        i < events@.len(),
    ensures
        r@ == lead_of(
            bytes@,
            crate::scanner::token_views(tokens@),
            crate::parser::stream::event_views(events@),
            i as int,
        ),
{
    let ghost views = crate::parser::stream::event_views(events@);
    assert(views[i as int] == events@[i as int]@);
    let e = &events[i];
    if !event_is_missing(e) {
        return "".to_owned();
    }
    let front = match find_in_front(bytes, tokens, e) {
        Some(t) => t,
        None => {
            return "".to_owned();
        },
    };
    match &front.kind {
        TokenKind::Scalar { .. } => {},
        _ => {
            return " ".to_owned();
        },
    }
    let at: usize = e.span.start.offset;
    if at < bytes.len() && (bytes[at] == COMMA || bytes[at] == RBRACE || bytes[at] == RBRACKET) {
        return ": ".to_owned();
    }
    match find_key_before(tokens, front.span.start.offset) {
        None => ": ".to_owned(),
        Some(key) => {
            let n: u32 = if key.span.start.column > 0 {
                key.span.start.column - 1
            } else {
                0
            };
            let mut s = "\n".to_owned();
            let mut j: u32 = 0;
            assert("\n"@ + blanks(0) =~= "\n"@);
            while j < n
                invariant
                    j <= n,
                    s@ == "\n"@ + blanks(j as nat),
                decreases n - j,
            {
                s.push(' ');
                j += 1;
                assert(s@ =~= "\n"@ + blanks(j as nat));
            }
            s.append(": ");
            s
        },
    }
}

} // verus!
