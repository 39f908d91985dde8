//! Paths into a document: which part of the source a dotted path denotes.
//!
//! A path is resolved over the events of the first document. What stands at its
//! end is a node; the span of a node is that of its event, or from the event that
//! starts it to the one that ends it. A node is named by the index of its first
//! event.
use crate::parser::event::{Event, EventKind, EventKindView, EventView};
use crate::text::{cow_str, parse_usize, same_text};
use crate::types::CollectionStyle;
use vstd::prelude::*;
use vstd::string::*;

verus! {

/// The start and the end of a part of the source, in bytes.
pub type Range = (int, int);

/// The parts of a text between dots, the first of them continuing `part`.
pub open spec fn split_dots(s: Seq<char>, part: Seq<char>) -> Seq<Seq<char>>
    decreases s.len(),
{
    if s.len() == 0 {
        seq![part]
    } else if s[0] == '.' {
        seq![part] + split_dots(s.drop_first(), seq![])
    } else {
        split_dots(s.drop_first(), part.push(s[0]))
    }
}

/// The segments of a path; the empty path has none.
pub open spec fn segments(path: Seq<char>) -> Seq<Seq<char>> {
    if path.len() == 0 {
        seq![]
    } else {
        split_dots(path, seq![])
    }
}

/// Whether the event starts a collection.
pub open spec fn starts(e: EventView) -> bool {
    e.kind is MappingStart || e.kind is SequenceStart
}

/// Whether the event ends a collection.
pub open spec fn ends(e: EventView) -> bool {
    e.kind is MappingEnd || e.kind is SequenceEnd
}

/// Whether the event is a node of its own.
pub open spec fn is_leaf(e: EventView) -> bool {
    e.kind is Scalar || e.kind is Alias
}

/// The index of the event that ends the innermost of `depth` open collections'
/// outermost one, from `i` on.
pub open spec fn body_end(events: Seq<EventView>, i: int, depth: int) -> Option<int>
    decreases events.len() - i,
{
    if !(0 <= i < events.len()) {
        None
    } else if starts(events[i]) {
        body_end(events, i + 1, depth + 1)
    } else if ends(events[i]) {
        if depth <= 1 {
            Some(i)
        } else {
            body_end(events, i + 1, depth - 1)
        }
    } else {
        body_end(events, i + 1, depth)
    }
}

proof fn lemma_body_end(events: Seq<EventView>, i: int, depth: int)
    ensures
        body_end(events, i, depth) matches Some(j) ==> i <= j < events.len() && ends(events[j]),
    decreases events.len() - i,
{
    if 0 <= i < events.len() {
        if starts(events[i]) {
            lemma_body_end(events, i + 1, depth + 1);
        } else if ends(events[i]) {
            if depth > 1 {
                lemma_body_end(events, i + 1, depth - 1);
            }
        } else {
            lemma_body_end(events, i + 1, depth);
        }
    }
}

/// Whether a node starts at the `i`th event, and the index behind it. Where none
/// does, one event is passed over; where it never ends, all are.
pub open spec fn skipped(events: Seq<EventView>, i: int) -> (bool, int) {
    if !(0 <= i < events.len()) {
        (false, i)
    } else if is_leaf(events[i]) {
        (true, i + 1)
    } else if starts(events[i]) {
        match body_end(events, i + 1, 1) {
            Some(j) => (true, j + 1),
            None => (false, events.len() as int),
        }
    } else {
        (false, i + 1)
    }
}

/// The key that starts at the `i`th event, and the index behind it: its text if it
/// is a scalar; nothing where no node stands.
pub open spec fn key_at(events: Seq<EventView>, i: int) -> (Option<Option<Seq<char>>>, int) {
    if 0 <= i < events.len() && events[i].kind is Scalar {
        (Some(Some(events[i].kind->Scalar_value)), i + 1)
    } else {
        let (ok, next) = skipped(events, i);
        (
            if ok {
                Some(None)
            } else {
                None
            },
            next,
        )
    }
}

/// Reading a node or a key moves on, within the events.
pub proof fn lemma_skipped(events: Seq<EventView>, i: int)
    requires
        0 <= i < events.len(),
    ensures
        i < skipped(events, i).1 <= events.len(),
        i < key_at(events, i).1 <= events.len(),
{
    lemma_body_end(events, i + 1, 1);
}

/// Where the text of the node that starts at the `i`th event starts. The event of a
/// block mapping stands at the `:` behind the first key; its text starts with that
/// key.
pub open spec fn node_start(events: Seq<EventView>, i: int) -> int {
    let start = events[i].span.start.offset as int;
    if events[i].kind is MappingStart && i + 1 < events.len() && events[i + 1].span.start.offset
        < start {
        events[i + 1].span.start.offset as int
    } else {
        start
    }
}

/// The part of the source where the node that starts at the `i`th event stands.
pub open spec fn node_range(events: Seq<EventView>, i: int) -> Range {
    match body_end(events, i + 1, 1) {
        Some(j) if starts(events[i]) => (node_start(events, i), events[j].span.end.offset as int),
        _ => (node_start(events, i), events[i].span.end.offset as int),
    }
}

/// Whether the event starts a block mapping.
pub open spec fn starts_block_mapping(e: EventView) -> bool {
    e.kind matches EventKindView::MappingStart { style, .. } && style is Block
}

/// The node that the segments from the `k`th on denote, from the node that starts
/// at the `i`th event, and the index behind what was read.
pub open spec fn resolved(events: Seq<EventView>, i: int, path: Seq<Seq<char>>, k: int) -> (
    Option<int>,
    int,
)
    decreases events.len() - i, 0int,
{
    if !(0 <= i < events.len()) {
        (None, i)
    } else if is_leaf(events[i]) {
        (
            if k >= path.len() {
                Some(i)
            } else {
                None
            },
            i + 1,
        )
    } else if starts(events[i]) && k >= path.len() {
        match body_end(events, i + 1, 1) {
            Some(j) => (Some(i), j + 1),
            None => (None, events.len() as int),
        }
    } else if events[i].kind is MappingStart {
        in_mapping(events, i + 1, path, k, None)
    } else if events[i].kind is SequenceStart {
        match crate::text::usize_value(path[k]) {
            Some(target) => in_sequence(events, i + 1, path, k, target as int, 0, None),
            None => (None, i + 1),
        }
    } else {
        (None, i + 1)
    }
}

/// What the first entry whose key is the `k`th segment leads to, among the entries
/// from the `i`th event on. `found` is what an earlier one led to.
pub open spec fn in_mapping(
    events: Seq<EventView>,
    i: int,
    path: Seq<Seq<char>>,
    k: int,
    found: Option<int>,
) -> (Option<int>, int)
    decreases events.len() - i, 1int,
{
    if !(0 <= i < events.len()) {
        (None, i)
    } else if events[i].kind is MappingEnd {
        (found, i + 1)
    } else {
        proof {
            lemma_skipped(events, i);
        }
        let (key, v) = key_at(events, i);
        match key {
            None => (None, v),
            Some(text) => if found is None && text == Some(path[k]) {
                let (hit, next) = resolved(events, v, path, k + 1);
                if i < next <= events.len() {
                    in_mapping(events, next, path, k, hit)
                } else {
                    (None, next)
                }
            } else {
                let (ok, next) = skipped(events, v);
                if ok && i < next <= events.len() {
                    in_mapping(events, next, path, k, found)
                } else {
                    (None, next)
                }
            },
        }
    }
}

/// What the item with index `target` leads to, among the items from the `i`th event
/// on, of which the first has index `n`. `found` is what an earlier one led to.
pub open spec fn in_sequence(
    events: Seq<EventView>,
    i: int,
    path: Seq<Seq<char>>,
    k: int,
    target: int,
    n: int,
    found: Option<int>,
) -> (Option<int>, int)
    decreases events.len() - i, 1int,
{
    if !(0 <= i < events.len()) {
        (None, i)
    } else if events[i].kind is SequenceEnd {
        (found, i + 1)
    } else if n == target && found is None {
        let (hit, next) = resolved(events, i, path, k + 1);
        if i < next <= events.len() {
            in_sequence(events, next, path, k, target, n + 1, hit)
        } else {
            (None, next)
        }
    } else {
        let (ok, next) = skipped(events, i);
        if ok && i < next <= events.len() {
            in_sequence(events, next, path, k, target, n + 1, found)
        } else {
            (None, next)
        }
    }
}

/// Resolving reads at least one event, and none twice.
proof fn lemma_resolved(events: Seq<EventView>, i: int, path: Seq<Seq<char>>, k: int)
    requires
        0 <= i <= events.len(),
    ensures
        i <= resolved(events, i, path, k).1 <= events.len(),
        i < events.len() ==> i < resolved(events, i, path, k).1,
    decreases events.len() - i, 0int,
{
    if i < events.len() {
        lemma_body_end(events, i + 1, 1);
        if !is_leaf(events[i]) && k < path.len() {
            if events[i].kind is MappingStart {
                lemma_in_mapping(events, i + 1, path, k, None);
            } else if events[i].kind is SequenceStart {
                if let Some(target) = crate::text::usize_value(path[k]) {
                    lemma_in_sequence(events, i + 1, path, k, target as int, 0, None);
                }
            }
        }
    }
}

proof fn lemma_in_mapping(
    events: Seq<EventView>,
    i: int,
    path: Seq<Seq<char>>,
    k: int,
    found: Option<int>,
)
    requires
        0 <= i <= events.len(),
    ensures
        i <= in_mapping(events, i, path, k, found).1 <= events.len(),
    decreases events.len() - i, 1int,
{
    if i < events.len() && !(events[i].kind is MappingEnd) {
        lemma_skipped(events, i);
        let (key, v) = key_at(events, i);
        if v < events.len() {
            lemma_skipped(events, v);
        }
        lemma_resolved(events, v, path, k + 1);
        let (hit, next) = resolved(events, v, path, k + 1);
        lemma_in_mapping(events, next, path, k, hit);
        let (ok, after) = skipped(events, v);
        lemma_in_mapping(events, after, path, k, found);
    }
}

proof fn lemma_in_sequence(
    events: Seq<EventView>,
    i: int,
    path: Seq<Seq<char>>,
    k: int,
    target: int,
    n: int,
    found: Option<int>,
)
    requires
        0 <= i <= events.len(),
    ensures
        i <= in_sequence(events, i, path, k, target, n, found).1 <= events.len(),
    decreases events.len() - i, 1int,
{
    if i < events.len() && !(events[i].kind is SequenceEnd) {
        lemma_skipped(events, i);
        if n == target && found is None {
            lemma_resolved(events, i, path, k + 1);
            let (hit, next) = resolved(events, i, path, k + 1);
            lemma_in_sequence(events, next, path, k, target, n + 1, hit);
        } else {
            let (ok, next) = skipped(events, i);
            lemma_in_sequence(events, next, path, k, target, n + 1, found);
        }
    }
}

/// The index of the first event behind the framing of the first document, if a node
/// stands there.
pub open spec fn first_node(events: Seq<EventView>, i: int) -> Option<int>
    decreases events.len() - i,
{
    if !(0 <= i < events.len()) {
        None
    } else {
        match events[i].kind {
            EventKindView::StreamStart => first_node(events, i + 1),
            EventKindView::DocumentStart { .. } => first_node(events, i + 1),
            EventKindView::StreamEnd => None,
            EventKindView::DocumentEnd { .. } => None,
            EventKindView::MappingEnd => None,
            EventKindView::SequenceEnd => None,
            _ => Some(i),
        }
    }
}

/// The node that a path denotes, among the events of a stream.
pub open spec fn path_node(events: Seq<EventView>, path: Seq<char>) -> Option<int> {
    match first_node(events, 0) {
        Some(i) => resolved(events, i, segments(path), 0).0,
        None => None,
    }
}

/// The values of some strings.
pub open spec fn string_views(s: Seq<String>) -> Seq<Seq<char>> {
    Seq::new(s.len(), |i: int| s[i]@)
}

/// An index in machine integers, as an integer.
pub open spec fn index_of(r: Option<usize>) -> Option<int> {
    match r {
        Some(i) => Some(i as int),
        None => None,
    }
}

/// The segments of a path.
fn split_path(path: &str) -> (r: Vec<String>)
    ensures
        string_views(r@) == segments(path@),
{
    let mut out: Vec<String> = Vec::new();
    assert(string_views(out@) =~= Seq::<Seq<char>>::empty());
    if path.is_empty() {
        return out;
    }
    let mut part = String::new();
    let ghost goal = segments(path@);
    assert(path@.subrange(0, path@.len() as int) =~= path@);
    assert(part@ =~= Seq::<char>::empty());
    assert(string_views(out@) + goal =~= goal);
    for c in it: path.chars()
        invariant
            it.seq() == path@,
            string_views(out@) + split_dots(
                path@.subrange(it.index(), path@.len() as int),
                part@,
            ) == goal,
    {
        let ghost rest = path@.subrange(it.index(), path@.len() as int);
        assert(rest.drop_first() =~= path@.subrange(it.index() + 1, path@.len() as int));
        assert(rest[0] == c);
        if c == '.' {
            let ghost before = string_views(out@);
            let ghost ended = part@;
            out.push(part);
            part = String::new();
            assert(part@ =~= Seq::<char>::empty());
            assert(string_views(out@) =~= before.push(ended));
            assert(string_views(out@) + split_dots(rest.drop_first(), part@) =~= goal);
        } else {
            part.push(c);
        }
    }
    let ghost before = string_views(out@);
    let ghost ended = part@;
    out.push(part);
    assert(string_views(out@) =~= before.push(ended));
    assert(string_views(out@) =~= goal);
    out
}

/// What kind of event it is, as far as resolving tells.
#[derive(Clone, Copy, PartialEq, Eq, Structural)]
enum Shape {
    Leaf,
    MappingStart,
    SequenceStart,
    MappingEnd,
    SequenceEnd,
    Opening,
    Closing,
}

spec fn shape_of(e: EventView) -> Shape {
    match e.kind {
        EventKindView::Scalar { .. } => Shape::Leaf,
        EventKindView::Alias { .. } => Shape::Leaf,
        EventKindView::MappingStart { .. } => Shape::MappingStart,
        EventKindView::SequenceStart { .. } => Shape::SequenceStart,
        EventKindView::MappingEnd => Shape::MappingEnd,
        EventKindView::SequenceEnd => Shape::SequenceEnd,
        EventKindView::StreamStart => Shape::Opening,
        EventKindView::DocumentStart { .. } => Shape::Opening,
        EventKindView::StreamEnd => Shape::Closing,
        EventKindView::DocumentEnd { .. } => Shape::Closing,
    }
}

fn shape(e: &Event<'_>) -> (r: Shape)
    ensures
        r == shape_of(e@),
{
    match &e.kind {
        EventKind::Scalar { .. } => Shape::Leaf,
        EventKind::Alias { .. } => Shape::Leaf,
        EventKind::MappingStart { .. } => Shape::MappingStart,
        EventKind::SequenceStart { .. } => Shape::SequenceStart,
        EventKind::MappingEnd => Shape::MappingEnd,
        EventKind::SequenceEnd => Shape::SequenceEnd,
        EventKind::StreamStart => Shape::Opening,
        EventKind::DocumentStart { .. } => Shape::Opening,
        EventKind::StreamEnd => Shape::Closing,
        EventKind::DocumentEnd { .. } => Shape::Closing,
    }
}

/// Consumes the remainder of a collection body up to and including its matching
/// end. Returns the index of that end, found purely by depth counting, so it works
/// for both mappings and sequences.
fn consume_node_body(events: &Vec<Event<'_>>, from: usize) -> (r: Option<usize>)
    requires
        1 <= from <= events@.len(),
    ensures
        match body_end(crate::parser::stream::event_views(events@), from as int, 1) {
            Some(j) => r == Some(j as usize) && from <= j < events@.len(),
            None => r is None,
        },
{
    let ghost views = crate::parser::stream::event_views(events@);
    let n: usize = events.len();
    let mut depth: usize = 1;
    let mut i: usize = from;
    while i < n
        invariant
            1 <= from <= i <= n,
            n == events@.len(),
            1 <= depth <= 1 + i - from,
            views == crate::parser::stream::event_views(events@),
            body_end(views, i as int, depth as int) == body_end(views, from as int, 1),
        decreases events@.len() - i,
    {
        assert(views[i as int] == events@[i as int]@);
        match shape(&events[i]) {
            Shape::MappingStart | Shape::SequenceStart => {
                depth += 1;
            },
            Shape::MappingEnd | Shape::SequenceEnd => {
                if depth == 1 {
                    return Some(i);
                }
                depth -= 1;
            },
            _ => {},
        }
        i += 1;
    }
    None
}

/// Skips exactly one full node. Tells whether there was one, and the index behind
/// what was read.
pub fn skip_node(events: &Vec<Event<'_>>, i: usize) -> (r: (bool, usize))
    requires
        i <= events@.len(),
    ensures
        ({
            let (ok, next) = skipped(crate::parser::stream::event_views(events@), i as int);
            r.0 == ok && r.1 == next && i <= next <= events@.len()
        }),
{
    let ghost views = crate::parser::stream::event_views(events@);
    if i >= events.len() {
        return (false, i);
    }
    assert(views[i as int] == events@[i as int]@);
    match shape(&events[i]) {
        Shape::Leaf => (true, i + 1),
        Shape::MappingStart | Shape::SequenceStart => match consume_node_body(events, i + 1) {
            Some(j) => (true, j + 1),
            None => (false, events.len()),
        },
        _ => (false, i + 1),
    }
}

/// Reads one key node, and tells whether there is one and whether it is the given
/// text.
pub fn read_key(events: &Vec<Event<'_>>, i: usize, wanted: &str) -> (r: (Option<bool>, usize))
    requires
        i <= events@.len(),
    ensures
        ({
            let (key, next) = key_at(crate::parser::stream::event_views(events@), i as int);
            &&& r.1 == next
            &&& i <= next <= events@.len()
            &&& i < events@.len() ==> i < next
            &&& match key {
                None => r.0 is None,
                Some(text) => r.0 == Some(text == Some(wanted@)),
            }
        }),
{
    let ghost views = crate::parser::stream::event_views(events@);
    let n: usize = events.len();
    if i >= n {
        return (None, i);
    }
    assert(views[i as int] == events@[i as int]@);
    proof {
        lemma_skipped(views, i as int);
    }
    if let EventKind::Scalar { value, .. } = &events[i].kind {
        return (Some(same_text(cow_str(value), wanted)), i + 1);
    }
    let (ok, next) = skip_node(events, i);
    if ok {
        (Some(false), next)
    } else {
        (None, next)
    }
}

/// Resolves the segments from the `k`th on against the node that starts at the
/// `i`th event.
pub fn resolve(events: &Vec<Event<'_>>, i: usize, path: &Vec<String>, k: usize) -> (r: (
    Option<usize>,
    usize,
))
    requires
        i <= events@.len(),
        k <= path@.len(),
    ensures
        ({
            let (node, next) = resolved(
                crate::parser::stream::event_views(events@),
                i as int,
                string_views(path@),
                k as int,
            );
            index_of(r.0) == node && r.1 == next && i <= next <= events@.len()
        }),
        r.0 matches Some(j) ==> j < events@.len(),
    decreases events@.len() - i, 0int,
{
    let ghost views = crate::parser::stream::event_views(events@);
    proof {
        lemma_resolved(views, i as int, string_views(path@), k as int);
    }
    if i >= events.len() {
        return (None, i);
    }
    assert(views[i as int] == events@[i as int]@);
    let kind = shape(&events[i]);
    match kind {
        Shape::Leaf => {
            if k >= path.len() {
                (Some(i), i + 1)
            } else {
                (None, i + 1)
            }
        },
        Shape::MappingStart | Shape::SequenceStart => {
            if k >= path.len() {
                return match consume_node_body(events, i + 1) {
                    Some(j) => (Some(i), j + 1),
                    None => (None, events.len()),
                };
            }
            if kind == Shape::MappingStart {
                resolve_mapping(events, i + 1, path, k)
            } else {
                assert(string_views(path@)[k as int] == path@[k as int]@);
                match parse_usize(path[k].as_str()) {
                    Some(target) => resolve_sequence(events, i + 1, path, k, target),
                    None => (None, i + 1),
                }
            }
        },
        _ => (None, i + 1),
    }
}

/// Resolves a mapping whose first entry starts at the `from`th event. Reads
/// `key`/`value` node pairs until the mapping ends.
fn resolve_mapping(events: &Vec<Event<'_>>, from: usize, path: &Vec<String>, k: usize) -> (r: (
    Option<usize>,
    usize,
))
    requires
        from <= events@.len(),
        k < path@.len(),
    ensures
        ({
            let (node, next) = in_mapping(
                crate::parser::stream::event_views(events@),
                from as int,
                string_views(path@),
                k as int,
                None,
            );
            index_of(r.0) == node && r.1 == next
        }),
        r.0 matches Some(j) ==> j < events@.len(),
    decreases events@.len() - from, 1int,
{
    let ghost views = crate::parser::stream::event_views(events@);
    let ghost goal = in_mapping(views, from as int, string_views(path@), k as int, None);
    let names: usize = path.len();
    let mut found: Option<usize> = None;
    let mut i: usize = from;
    while i < events.len()
        invariant
            from <= i <= events@.len(),
            found matches Some(j) ==> j < events@.len(),
            k < names,
            names == path@.len(),
            views == crate::parser::stream::event_views(events@),
            goal == in_mapping(views, from as int, string_views(path@), k as int, None),
            goal == in_mapping(views, i as int, string_views(path@), k as int, index_of(found)),
        decreases events@.len() - i,
    {
        assert(views[i as int] == events@[i as int]@);
        assert(string_views(path@)[k as int] == path@[k as int]@);
        if shape(&events[i]) == Shape::MappingEnd {
            return (found, i + 1);
        }
        let (key, v) = read_key(events, i, path[k].as_str());
        match key {
            None => {
                return (None, v);
            },
            Some(wanted) => {
                if found.is_none() && wanted {
                    proof {
                        lemma_resolved(views, v as int, string_views(path@), k + 1);
                    }
                    let (hit, next) = resolve(events, v, path, k + 1);
                    found = hit;
                    i = next;
                } else {
                    let (ok, next) = skip_node(events, v);
                    if !ok {
                        return (None, next);
                    }
                    i = next;
                }
            },
        }
    }
    (None, i)
}

/// Resolves a sequence whose first item starts at the `from`th event.
fn resolve_sequence(
    events: &Vec<Event<'_>>,
    from: usize,
    path: &Vec<String>,
    k: usize,
    target: usize,
) -> (r: (Option<usize>, usize))
    requires
        from <= events@.len(),
        k < path@.len(),
    ensures
        ({
            let (node, next) = in_sequence(
                crate::parser::stream::event_views(events@),
                from as int,
                string_views(path@),
                k as int,
                target as int,
                0,
                None,
            );
            index_of(r.0) == node && r.1 == next
        }),
        r.0 matches Some(j) ==> j < events@.len(),
    decreases events@.len() - from, 1int,
{
    let ghost views = crate::parser::stream::event_views(events@);
    let ghost goal = in_sequence(
        views,
        from as int,
        string_views(path@),
        k as int,
        target as int,
        0,
        None,
    );
    let names: usize = path.len();
    let mut found: Option<usize> = None;
    let mut i: usize = from;
    let mut n: usize = 0;
    while i < events.len()
        invariant
            from <= i <= events@.len(),
            found matches Some(j) ==> j < events@.len(),
            n <= i - from,
            k < names,
            names == path@.len(),
            views == crate::parser::stream::event_views(events@),
            goal == in_sequence(
                views,
                from as int,
                string_views(path@),
                k as int,
                target as int,
                0,
                None,
            ),
            goal == in_sequence(
                views,
                i as int,
                string_views(path@),
                k as int,
                target as int,
                n as int,
                index_of(found),
            ),
        decreases events@.len() - i,
    {
        assert(views[i as int] == events@[i as int]@);
        if shape(&events[i]) == Shape::SequenceEnd {
            return (found, i + 1);
        }
        proof {
            lemma_skipped(views, i as int);
            lemma_resolved(views, i as int, string_views(path@), k + 1);
        }
        if n == target && found.is_none() {
            let (hit, next) = resolve(events, i, path, k + 1);
            found = hit;
            i = next;
        } else {
            let (ok, next) = skip_node(events, i);
            if !ok {
                return (None, next);
            }
            i = next;
        }
        n += 1;
    }
    (None, i)
}

/// Resolves a path over the events of a stream to the node that it denotes.
pub fn resolve_path(events: &Vec<Event<'_>>, path: &str) -> (r: Option<usize>)
    ensures
        index_of(r) == path_node(crate::parser::stream::event_views(events@), path@),
        r matches Some(i) ==> i < events@.len(),
{
    let ghost views = crate::parser::stream::event_views(events@);
    let names = split_path(path);
    let mut i: usize = 0;
    while i < events.len()
        invariant
            i <= events@.len(),
            views == crate::parser::stream::event_views(events@),
            first_node(views, i as int) == first_node(views, 0),
            string_views(names@) == segments(path@),
        decreases events@.len() - i,
    {
        assert(views[i as int] == events@[i as int]@);
        match shape(&events[i]) {
            Shape::Opening => {
                i += 1;
            },
            Shape::Closing | Shape::MappingEnd | Shape::SequenceEnd => {
                return None;
            },
            _ => {
                let (node, _next) = resolve(events, i, &names, 0);
                return node;
            },
        }
    }
    None
}

/// The part of the source where a node stands.
pub fn node_span(events: &Vec<Event<'_>>, i: usize) -> (r: (usize, usize))
    requires
        i < events@.len(),
    ensures
        (r.0 as int, r.1 as int) == node_range(
            crate::parser::stream::event_views(events@),
            i as int,
        ),
{
    let ghost views = crate::parser::stream::event_views(events@);
    assert(views[i as int] == events@[i as int]@);
    let n: usize = events.len();
    let kind = shape(&events[i]);
    let mut start: usize = events[i].span.start.offset;
    if kind == Shape::MappingStart && i + 1 < n {
        assert(views[i + 1] == events@[i + 1]@);
        if events[i + 1].span.start.offset < start {
            start = events[i + 1].span.start.offset;
        }
    }
    if kind == Shape::MappingStart || kind == Shape::SequenceStart {
        if let Some(j) = consume_node_body(events, i + 1) {
            assert(views[j as int] == events@[j as int]@);
            return (start, events[j].span.end.offset);
        }
    }
    (start, events[i].span.end.offset)
}

/// Whether an event starts a block mapping.
pub fn is_block_mapping(e: &Event<'_>) -> (r: bool)
    ensures
        r == starts_block_mapping(e@),
{
    match &e.kind {
        EventKind::MappingStart { style, .. } => *style == CollectionStyle::Block,
        _ => false,
    }
}

} // verus!
