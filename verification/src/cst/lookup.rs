//! Paths and trees: a path denotes, in the source of a document, what its names lead to in
//! the tree of nodes that is composed of it.
use crate::composer::{
    content_at, document_at, documents, documents_at, entries_at, items_at, node_at, Known,
    NextDocument,
};
use crate::cst::document::{
    denotes_block_mapping, root_of, source_root, source_stream, value_range, with_entry, RootKind,
    SetError,
};
use crate::cst::path::{
    body_end, first_node, in_mapping, in_sequence, key_at, path_node, resolved, segments, skipped,
    split_dots,
};
use crate::limits::ResourceLimits;
use crate::node::NodeView;
use crate::parser::balance::{nested, nested_all, Slot};
use crate::parser::event::EventView;
use vstd::prelude::*;
use vstd::utf8::encode_utf8;

verus! {

/// The first entry, from the `j`th on, whose key is a scalar with the given value,
/// whatever its style.
pub open spec fn entry_index(entries: Seq<(NodeView, NodeView)>, key: Seq<char>, j: int) -> Option<
    int,
>
    decreases entries.len() - j,
{
    if !(0 <= j < entries.len()) {
        None
    } else if entries[j].0 is Scalar && entries[j].0->Scalar_value == key {
        Some(j)
    } else {
        entry_index(entries, key, j + 1)
    }
}

/// The node that some names lead to, from the `k`th name on: a name is the key of an entry
/// of a mapping, or the index of an item of a sequence.
pub open spec fn led_to(n: NodeView, names: Seq<Seq<char>>, k: int) -> Option<NodeView>
    decreases n,
{
    if k >= names.len() {
        Some(n)
    } else {
        match n {
            NodeView::Scalar { .. } => None,
            NodeView::Mapping { entries, .. } => match entry_index(entries, names[k], 0) {
                Some(j) => if 0 <= j < entries.len() {
                    led_to(entries[j].1, names, k + 1)
                } else {
                    None
                },
                None => None,
            },
            NodeView::Sequence { items, .. } => match crate::text::usize_value(names[k]) {
                Some(j) => if j < items.len() {
                    led_to(items[j as int], names, k + 1)
                } else {
                    None
                },
                None => None,
            },
        }
    }
}

/// Names in a row, with a dot between each two.
pub open spec fn joined(names: Seq<Seq<char>>) -> Seq<char>
    decreases names.len(),
{
    if names.len() == 0 {
        seq![]
    } else if names.len() == 1 {
        names[0]
    } else {
        names[0] + seq!['.'] + joined(names.drop_first())
    }
}

/// Names that a path can hold: without dots, and not the empty name alone.
pub open spec fn speakable(names: Seq<Seq<char>>) -> bool {
    &&& forall|i: int| 0 <= i < names.len() ==> !(#[trigger] names[i]).contains('.')
    &&& names.len() == 1 ==> names[0].len() > 0
}

/// No alias among the events.
pub open spec fn without_aliases(events: Seq<EventView>) -> bool {
    forall|i: int| 0 <= i < events.len() ==> !((#[trigger] events[i]).kind is Alias)
}

// ─── Names ──────────────────────────────────────────────────────────

proof fn lemma_split_name(name: Seq<char>, part: Seq<char>, rest: Seq<char>)
    requires
        !name.contains('.'),
        rest.len() == 0 || rest[0] == '.',
    ensures
        split_dots(name + rest, part) == split_dots(rest, part + name),
    decreases name.len(),
{
    if name.len() == 0 {
        assert(name + rest =~= rest);
        assert(part + name =~= part);
    } else {
        let all = name + rest;
        assert(name.contains(name[0]));
        assert(all[0] == name[0]);
        assert(all.drop_first() =~= name.drop_first() + rest);
        assert forall|i: int| 0 <= i < name.drop_first().len() implies name.drop_first()[i]
            != '.' by {
            assert(name.contains(name[i + 1]));
        }
        lemma_split_name(name.drop_first(), part.push(name[0]), rest);
        assert(part.push(name[0]) + name.drop_first() =~= part + name);
    }
}

proof fn lemma_split_joined(names: Seq<Seq<char>>)
    requires
        names.len() > 0,
        forall|i: int| 0 <= i < names.len() ==> !(#[trigger] names[i]).contains('.'),
    ensures
        split_dots(joined(names), seq![]) == names,
    decreases names.len(),
{
    let none = Seq::<char>::empty();
    assert(none + names[0] =~= names[0]);
    if names.len() == 1 {
        assert(names[0] + none =~= names[0]);
        lemma_split_name(names[0], none, none);
        assert(seq![names[0]] =~= names);
    } else {
        let tail = names.drop_first();
        assert forall|i: int| 0 <= i < tail.len() implies !(#[trigger] tail[i]).contains('.') by {
            assert(tail[i] == names[i + 1]);
        }
        lemma_split_joined(tail);
        let rest = seq!['.'] + joined(tail);
        assert(joined(names) =~= names[0] + rest);
        lemma_split_name(names[0], none, rest);
        assert(rest.drop_first() =~= joined(tail));
        assert(seq![names[0]] + tail =~= names);
    }
}

/// A path is read as the names that it is written with.
pub proof fn law_path_holds_its_names(names: Seq<Seq<char>>)
    requires
        speakable(names),
    ensures
        segments(joined(names)) == names,
{
    if names.len() > 0 {
        lemma_split_joined(names);
        if names.len() > 1 {
            assert(joined(names).len() > 0);
        }
    } else {
        assert(segments(joined(names)) =~= names);
    }
}

/// The decimal notation of a number is the index of the item with that number.
pub proof fn law_index_is_decimal(j: nat)
    requires
        j <= usize::MAX,
    ensures
        crate::text::usize_value(crate::text::decimal(j)) == Some(j),
{
    crate::schema::number::lemma_decimal_digits(j);
    let d = crate::text::decimal(j);
    assert(crate::text::is_digit_char(d[0]));
}

// ─── Nodes among events ─────────────────────────────────────────────

proof fn lemma_node_body(
    events: Seq<EventView>,
    i: int,
    known: Known,
    limits: ResourceLimits,
    depth: int,
)
    requires
        depth >= 1,
        node_at(events, i, known, limits) is Ok,
    ensures
        ({
            let next = node_at(events, i, known, limits)->Ok_0.1;
            i < next <= events.len() && body_end(events, i, depth) == body_end(events, next, depth)
        }),
    decreases events.len() - i, 0int,
{
    let span = events[i].span;
    if let Ok(k) = known.counted(1, limits, span) {
        if events[i].kind is SequenceStart {
            lemma_items_body(events, i + 1, k, limits, seq![], depth + 1);
        } else if events[i].kind is MappingStart {
            lemma_entries_body(events, i + 1, k, limits, seq![], depth + 1);
        }
    }
}

proof fn lemma_items_body(
    events: Seq<EventView>,
    i: int,
    known: Known,
    limits: ResourceLimits,
    done: Seq<NodeView>,
    depth: int,
)
    requires
        depth >= 1,
        items_at(events, i, known, limits, done) is Ok,
    ensures
        ({
            let (items, end, _) = items_at(events, i, known, limits, done)->Ok_0;
            &&& i <= end < events.len()
            &&& events[end].kind is SequenceEnd
            &&& body_end(events, i, depth) == body_end(events, end, depth)
            &&& items.len() >= done.len()
            &&& items.subrange(0, done.len() as int) == done
        }),
    decreases events.len() - i, 1int,
{
    if events[i].kind is SequenceEnd {
        assert(done.subrange(0, done.len() as int) =~= done);
    } else {
        lemma_node_body(events, i, known, limits, depth);
        let (node, next, k) = node_at(events, i, known, limits)->Ok_0;
        lemma_items_body(events, next, k, limits, done.push(node), depth);
        let items = items_at(events, i, known, limits, done)->Ok_0.0;
        assert(items.subrange(0, done.len() as int) =~= done) by {
            let more = items.subrange(0, done.len() as int + 1);
            assert forall|j: int| 0 <= j < done.len() implies items[j] == done[j] by {
                assert(items[j] == more[j]);
            }
        }
    }
}

proof fn lemma_entries_body(
    events: Seq<EventView>,
    i: int,
    known: Known,
    limits: ResourceLimits,
    done: Seq<(NodeView, NodeView)>,
    depth: int,
)
    requires
        depth >= 1,
        entries_at(events, i, known, limits, done) is Ok,
    ensures
        ({
            let (entries, end, _) = entries_at(events, i, known, limits, done)->Ok_0;
            &&& i <= end < events.len()
            &&& events[end].kind is MappingEnd
            &&& body_end(events, i, depth) == body_end(events, end, depth)
            &&& entries.len() >= done.len()
            &&& entries.subrange(0, done.len() as int) == done
        }),
    decreases events.len() - i, 1int,
{
    if events[i].kind is MappingEnd {
        assert(done.subrange(0, done.len() as int) =~= done);
    } else {
        lemma_node_body(events, i, known, limits, depth);
        let (key, v, k) = node_at(events, i, known, limits)->Ok_0;
        lemma_node_body(events, v, k, limits, depth);
        let (value, next, m) = node_at(events, v, k, limits)->Ok_0;
        lemma_entries_body(events, next, m, limits, done.push((key, value)), depth);
        let entries = entries_at(events, i, known, limits, done)->Ok_0.0;
        assert(entries.subrange(0, done.len() as int) =~= done) by {
            let more = entries.subrange(0, done.len() as int + 1);
            assert forall|j: int| 0 <= j < done.len() implies entries[j] == done[j] by {
                assert(entries[j] == more[j]);
            }
        }
    }
}

/// A composed node is skipped as a whole.
proof fn lemma_node_skipped(events: Seq<EventView>, i: int, known: Known, limits: ResourceLimits)
    requires
        node_at(events, i, known, limits) is Ok,
    ensures
        skipped(events, i) == (true, node_at(events, i, known, limits)->Ok_0.1),
        i < node_at(events, i, known, limits)->Ok_0.1 <= events.len(),
{
    lemma_node_body(events, i, known, limits, 1);
    let span = events[i].span;
    if let Ok(k) = known.counted(1, limits, span) {
        if events[i].kind is SequenceStart {
            lemma_items_body(events, i + 1, k, limits, seq![], 1);
        } else if events[i].kind is MappingStart {
            lemma_entries_body(events, i + 1, k, limits, seq![], 1);
        }
    }
}

/// The key of an entry, as it is read and as it is composed.
proof fn lemma_key(events: Seq<EventView>, i: int, known: Known, limits: ResourceLimits)
    requires
        without_aliases(events),
        node_at(events, i, known, limits) is Ok,
    ensures
        ({
            let (key, v, _) = node_at(events, i, known, limits)->Ok_0;
            &&& key_at(events, i).1 == v
            &&& key_at(events, i).0 == Some(
                if key is Scalar {
                    Some(key->Scalar_value)
                } else {
                    None
                },
            )
        }),
{
    lemma_node_skipped(events, i, known, limits);
    assert(!(events[i].kind is Alias));
}

/// What was found stays found to the end of a mapping.
proof fn lemma_mapping_found(
    events: Seq<EventView>,
    i: int,
    known: Known,
    limits: ResourceLimits,
    done: Seq<(NodeView, NodeView)>,
    path: Seq<Seq<char>>,
    k: int,
    found: int,
)
    requires
        without_aliases(events),
        entries_at(events, i, known, limits, done) is Ok,
    ensures
        in_mapping(events, i, path, k, Some(found)) == (
            Some(found),
            entries_at(events, i, known, limits, done)->Ok_0.1 + 1,
        ),
    decreases events.len() - i,
{
    if !(events[i].kind is MappingEnd) {
        lemma_key(events, i, known, limits);
        lemma_node_skipped(events, i, known, limits);
        let (key, v, m) = node_at(events, i, known, limits)->Ok_0;
        lemma_node_skipped(events, v, m, limits);
        let (value, next, l) = node_at(events, v, m, limits)->Ok_0;
        lemma_mapping_found(events, next, l, limits, done.push((key, value)), path, k, found);
    }
}

/// What was found stays found to the end of a sequence.
proof fn lemma_sequence_found(
    events: Seq<EventView>,
    i: int,
    known: Known,
    limits: ResourceLimits,
    done: Seq<NodeView>,
    path: Seq<Seq<char>>,
    k: int,
    target: int,
    n: int,
    found: int,
)
    requires
        items_at(events, i, known, limits, done) is Ok,
    ensures
        in_sequence(events, i, path, k, target, n, Some(found)) == (
            Some(found),
            items_at(events, i, known, limits, done)->Ok_0.1 + 1,
        ),
    decreases events.len() - i,
{
    if !(events[i].kind is SequenceEnd) {
        lemma_node_skipped(events, i, known, limits);
        let (node, next, m) = node_at(events, i, known, limits)->Ok_0;
        lemma_sequence_found(
            events,
            next,
            m,
            limits,
            done.push(node),
            path,
            k,
            target,
            n + 1,
            found,
        );
    }
}

/// Whether the node that starts at the `j`th event is `n`.
pub open spec fn starts_node(events: Seq<EventView>, j: int, n: NodeView, limits: ResourceLimits) -> bool {
    exists|known: Known|
        (#[trigger] node_at(events, j, known, limits)) matches Ok((m, _, _)) && m == n
}

/// Whether resolving found the node, and read all up to `next`.
spec fn hits(
    events: Seq<EventView>,
    r: (Option<int>, int),
    n: NodeView,
    next: int,
    limits: ResourceLimits,
) -> bool {
    r.0 is Some && r.1 == next && starts_node(events, r.0->0, n, limits)
}

proof fn lemma_resolved_node(
    events: Seq<EventView>,
    i: int,
    known: Known,
    limits: ResourceLimits,
    path: Seq<Seq<char>>,
    k: int,
)
    requires
        0 <= k <= path.len(),
        without_aliases(events),
        node_at(events, i, known, limits) is Ok,
        led_to(node_at(events, i, known, limits)->Ok_0.0, path, k) is Some,
    ensures
        ({
            let (n, next, _) = node_at(events, i, known, limits)->Ok_0;
            hits(events, resolved(events, i, path, k), led_to(n, path, k)->0, next, limits)
        }),
    decreases events.len() - i, 0int,
{
    let (n, next, _) = node_at(events, i, known, limits)->Ok_0;
    lemma_node_skipped(events, i, known, limits);
    assert(!(events[i].kind is Alias));
    let span = events[i].span;
    let c = known.counted(1, limits, span)->Ok_0;
    if k < path.len() {
        if events[i].kind is MappingStart {
            let entries = n->Mapping_entries;
            lemma_in_mapping_node(events, i + 1, c, limits, seq![], path, k);
        } else {
            let items = n->Sequence_items;
            lemma_in_sequence_node(events, i + 1, c, limits, seq![], path, k);
        }
    } else {
        assert(starts_node(events, i, n, limits));
    }
}

proof fn lemma_in_mapping_node(
    events: Seq<EventView>,
    i: int,
    known: Known,
    limits: ResourceLimits,
    done: Seq<(NodeView, NodeView)>,
    path: Seq<Seq<char>>,
    k: int,
)
    requires
        0 <= k < path.len(),
        without_aliases(events),
        entries_at(events, i, known, limits, done) is Ok,
        ({
            let entries = entries_at(events, i, known, limits, done)->Ok_0.0;
            entry_index(entries, path[k], done.len() as int) matches Some(j) && 0 <= j
                < entries.len() && led_to(entries[j].1, path, k + 1) is Some
        }),
    ensures
        ({
            let (entries, end, _) = entries_at(events, i, known, limits, done)->Ok_0;
            let j = entry_index(entries, path[k], done.len() as int)->0;
            hits(
                events,
                in_mapping(events, i, path, k, None),
                led_to(entries[j].1, path, k + 1)->0,
                end + 1,
                limits,
            )
        }),
    decreases events.len() - i, 1int,
{
    let (entries, end, _) = entries_at(events, i, known, limits, done)->Ok_0;
    lemma_entries_body(events, i, known, limits, done, 1);
    if events[i].kind is MappingEnd {
        assert(entry_index(entries, path[k], done.len() as int) is None);
    } else {
        lemma_key(events, i, known, limits);
        lemma_node_skipped(events, i, known, limits);
        let (key, v, m) = node_at(events, i, known, limits)->Ok_0;
        lemma_node_skipped(events, v, m, limits);
        let (value, next, l) = node_at(events, v, m, limits)->Ok_0;
        let more = done.push((key, value));
        lemma_entries_body(events, next, l, limits, more, 1);
        let at = done.len() as int;
        assert(entries.subrange(0, more.len() as int)[at] == (key, value));
        assert(entries[at] == (key, value));
        if key is Scalar && key->Scalar_value == path[k] {
            lemma_resolved_node(events, v, m, limits, path, k + 1);
            let hit = resolved(events, v, path, k + 1).0->0;
            lemma_mapping_found(events, next, l, limits, more, path, k, hit);
        } else {
            lemma_in_mapping_node(events, next, l, limits, more, path, k);
        }
    }
}

proof fn lemma_in_sequence_node(
    events: Seq<EventView>,
    i: int,
    known: Known,
    limits: ResourceLimits,
    done: Seq<NodeView>,
    path: Seq<Seq<char>>,
    k: int,
)
    requires
        0 <= k < path.len(),
        without_aliases(events),
        items_at(events, i, known, limits, done) is Ok,
        ({
            let items = items_at(events, i, known, limits, done)->Ok_0.0;
            crate::text::usize_value(path[k]) matches Some(j) && done.len() <= j < items.len()
                && led_to(items[j as int], path, k + 1) is Some
        }),
    ensures
        ({
            let (items, end, _) = items_at(events, i, known, limits, done)->Ok_0;
            let j = crate::text::usize_value(path[k])->0 as int;
            hits(
                events,
                in_sequence(events, i, path, k, j, done.len() as int, None),
                led_to(items[j], path, k + 1)->0,
                end + 1,
                limits,
            )
        }),
    decreases events.len() - i, 1int,
{
    let (items, end, _) = items_at(events, i, known, limits, done)->Ok_0;
    let j = crate::text::usize_value(path[k])->0 as int;
    lemma_items_body(events, i, known, limits, done, 1);
    if !(events[i].kind is SequenceEnd) {
        lemma_node_skipped(events, i, known, limits);
        let (node, next, m) = node_at(events, i, known, limits)->Ok_0;
        let more = done.push(node);
        lemma_items_body(events, next, m, limits, more, 1);
        let at = done.len() as int;
        assert(items.subrange(0, more.len() as int)[at] == node);
        assert(items[at] == node);
        if at == j {
            lemma_resolved_node(events, i, known, limits, path, k + 1);
            let hit = resolved(events, i, path, k + 1).0->0;
            lemma_sequence_found(events, next, m, limits, more, path, k, j, at + 1, hit);
        } else {
            lemma_in_sequence_node(events, next, m, limits, more, path, k);
        }
    }
}

/// A key that no entry of a mapping has is not found in it.
proof fn lemma_mapping_lacks(
    events: Seq<EventView>,
    i: int,
    known: Known,
    limits: ResourceLimits,
    done: Seq<(NodeView, NodeView)>,
    path: Seq<Seq<char>>,
    k: int,
)
    requires
        0 <= k < path.len(),
        without_aliases(events),
        entries_at(events, i, known, limits, done) is Ok,
        entry_index(
            entries_at(events, i, known, limits, done)->Ok_0.0,
            path[k],
            done.len() as int,
        ) is None,
    ensures
        in_mapping(events, i, path, k, None).0 is None,
    decreases events.len() - i,
{
    let (entries, end, _) = entries_at(events, i, known, limits, done)->Ok_0;
    lemma_entries_body(events, i, known, limits, done, 1);
    if !(events[i].kind is MappingEnd) {
        lemma_key(events, i, known, limits);
        lemma_node_skipped(events, i, known, limits);
        let (key, v, m) = node_at(events, i, known, limits)->Ok_0;
        lemma_node_skipped(events, v, m, limits);
        let (value, next, l) = node_at(events, v, m, limits)->Ok_0;
        let more = done.push((key, value));
        lemma_entries_body(events, next, l, limits, more, 1);
        let at = done.len() as int;
        assert(entries.subrange(0, more.len() as int)[at] == (key, value));
        assert(entries[at] == (key, value));
        lemma_mapping_lacks(events, next, l, limits, more, path, k);
    }
}

// ─── Documents ──────────────────────────────────────────────────────

/// The first node stands behind the framing of the first document.
proof fn lemma_first_node(events: Seq<EventView>, i: int, open: Seq<Slot>)
    requires
        0 <= i <= events.len(),
        nested_all(open, events.subrange(i, events.len() as int)) is Some,
        open.len() == 0 || open == seq![Slot::Document { rooted: false }],
    ensures
        ({
            let at = content_at(events, i);
            at < events.len() && crate::cst::path::is_leaf(events[at]) || at < events.len()
                && crate::cst::path::starts(events[at]) ==> first_node(events, i) == Some(at)
        }),
    decreases events.len() - i,
{
    if i < events.len() {
        let rest = events.subrange(i, events.len() as int);
        assert(rest[0] == events[i]);
        assert(rest.drop_first() =~= events.subrange(i + 1, events.len() as int));
        if open.len() > 0 {
            assert(open.last() == (Slot::Document { rooted: false }));
        }
        if events[i].kind is StreamStart || events[i].kind is DocumentStart {
            let o = nested(open, events[i])->0;
            assert(o.len() == 0 || o =~= seq![Slot::Document { rooted: false }]);
            lemma_first_node(events, i + 1, o);
        }
    }
}

proof fn lemma_documents_extend(
    stream: crate::parser::stream::Stream,
    i: int,
    limits: ResourceLimits,
    done: Seq<NodeView>,
)
    ensures
        documents_at(stream, i, limits, done) matches Ok(nodes) ==> nodes.len() >= done.len()
            && nodes.subrange(0, done.len() as int) == done,
    decreases stream.events.len() - i,
{
    assert(done.subrange(0, done.len() as int) =~= done);
    if let NextDocument::Document(node, next) = document_at(stream, i, limits) {
        if i < next <= stream.events.len() {
            lemma_documents_extend(stream, next, limits, done.push(node));
            if let Ok(nodes) = documents_at(stream, i, limits, done) {
                let more = nodes.subrange(0, done.len() as int + 1);
                assert forall|j: int| 0 <= j < done.len() implies nodes[j] == done[j] by {
                    assert(nodes[j] == more[j]);
                }
                assert(nodes.subrange(0, done.len() as int) =~= done);
            }
        }
    }
}

/// Where the root of the first document starts.
proof fn lemma_root(source: Seq<char>) -> (at: int)
    requires
        encode_utf8(source).len() <= crate::scanner::cursor::MAX_INPUT,
        documents(source) matches Ok(nodes) && nodes.len() > 0,
    ensures
        first_node(source_stream(source).events, 0) == Some(at),
        node_at(
            source_stream(source).events,
            at,
            Known::nothing(),
            crate::limits::default_limits(),
        ) matches Ok((n, _, _)) && n == documents(source)->Ok_0[0],
{
    let limits = crate::limits::default_limits();
    let b = encode_utf8(source);
    let stream = source_stream(source);
    let events = stream.events;
    let at = content_at(events, 0);
    let node = document_at(stream, 0, limits)->Document_0;
    let next = document_at(stream, 0, limits)->Document_1;
    assert(document_at(stream, 0, limits) is Document);
    crate::parser::balance::law_events_are_balanced(b, limits);
    assert(events.subrange(0, events.len() as int) =~= events);
    lemma_first_node(events, 0, seq![]);
    lemma_node_skipped(events, at, Known::nothing(), limits);
    lemma_content_behind(events, 0);
    let none = Seq::<NodeView>::empty();
    lemma_documents_extend(stream, next, limits, none.push(node));
    let nodes = documents(source)->Ok_0;
    assert(nodes.subrange(0, 1)[0] == node);
    at
}

proof fn lemma_content_behind(events: Seq<EventView>, i: int)
    ensures
        content_at(events, i) >= i,
    decreases events.len() - i,
{
    if 0 <= i < events.len() {
        lemma_content_behind(events, i + 1);
    }
}

/// A path denotes the node to which its names lead in the tree of the first document:
/// each name is looked up as the value of a key, in whatever style the key is written, or
/// as an index. The documents are valid and have no aliases.
pub proof fn law_path_leads_to_node(source: Seq<char>, names: Seq<Seq<char>>)
    requires
        encode_utf8(source).len() <= crate::scanner::cursor::MAX_INPUT,
        documents(source) matches Ok(nodes) && nodes.len() > 0 && led_to(nodes[0], names, 0) is Some,
        without_aliases(source_stream(source).events),
        speakable(names),
    ensures
        path_node(source_stream(source).events, joined(names)) matches Some(i) && starts_node(
            source_stream(source).events,
            i,
            led_to(documents(source)->Ok_0[0], names, 0)->0,
            crate::limits::default_limits(),
        ),
{
    let at = lemma_root(source);
    law_path_holds_its_names(names);
    let limits = crate::limits::default_limits();
    lemma_resolved_node(
        source_stream(source).events,
        at,
        Known::nothing(),
        limits,
        names,
        0,
    );
}

/// Where the names of a path lead to a scalar that is written out, the part of the source
/// that the path denotes is where that scalar stands, without the whitespace at its end.
pub proof fn law_scalar_is_found(source: Seq<char>, names: Seq<Seq<char>>)
    requires
        encode_utf8(source).len() <= crate::scanner::cursor::MAX_INPUT,
        documents(source) matches Ok(nodes) && nodes.len() > 0 && (led_to(
            nodes[0],
            names,
            0,
        ) matches Some(n) && n is Scalar && (n->Scalar_value.len() > 0 || !(
        n->Scalar_style is Plain)) && n.span().start.offset <= n.span().end.offset
            <= encode_utf8(source).len() && crate::text::at_boundary(
            encode_utf8(source),
            n.span().start.offset as int,
        ) && crate::text::at_boundary(encode_utf8(source), n.span().end.offset as int)),
        without_aliases(source_stream(source).events),
        speakable(names),
    ensures
        ({
            let n = led_to(documents(source)->Ok_0[0], names, 0)->0;
            let b = encode_utf8(source);
            &&& value_range(source, joined(names)) matches Some((lo, hi))
            &&& lo == n.span().start.offset
            &&& lo <= hi <= n.span().end.offset
            &&& hi == lo || !(b[hi - 1] == 0x20 || 0x09 <= b[hi - 1] <= 0x0a || 0x0c <= b[hi - 1]
                <= 0x0d)
            &&& forall|j: int|
                hi <= j < n.span().end.offset ==> #[trigger] b[j] == 0x20 || 0x09 <= b[j] <= 0x0a
                    || 0x0c <= b[j] <= 0x0d
        }),
{
    law_path_leads_to_node(source, names);
    let events = source_stream(source).events;
    let limits = crate::limits::default_limits();
    let n = led_to(documents(source)->Ok_0[0], names, 0)->0;
    let i = path_node(events, joined(names))->0;
    let known = choose|known: Known|
        (#[trigger] node_at(events, i, known, limits)) matches Ok((m, _, _)) && m == n;
    assert(!(events[i].kind is Alias));
    assert(events[i].kind is Scalar && events[i].span == n.span());
    lemma_trimmed_end(
        encode_utf8(source),
        n.span().start.offset as int,
        n.span().end.offset as int,
    );
}

proof fn lemma_trimmed_end(b: Seq<u8>, lo: int, hi: int)
    requires
        0 <= lo <= hi <= b.len(),
    ensures
        ({
            let e = crate::cst::place::trimmed_end(b, lo, hi);
            &&& lo <= e <= hi
            &&& e == lo || !crate::cst::place::ascii_space(b[e - 1])
            &&& forall|j: int| e <= j < hi ==> crate::cst::place::ascii_space(#[trigger] b[j])
        }),
    decreases hi - lo,
{
    if lo < hi && crate::cst::place::ascii_space(b[hi - 1]) {
        lemma_trimmed_end(b, lo, hi - 1);
    }
}

/// A key that no entry of the root has denotes nothing.
pub proof fn law_absent_key_is_not_found(source: Seq<char>, name: Seq<char>)
    requires
        encode_utf8(source).len() <= crate::scanner::cursor::MAX_INPUT,
        documents(source) matches Ok(nodes) && nodes.len() > 0 && nodes[0] is Mapping && forall|
            j: int,
        |
            0 <= j < nodes[0]->Mapping_entries.len() ==> !((
            #[trigger] nodes[0]->Mapping_entries[j]).0 is Scalar
                && nodes[0]->Mapping_entries[j].0->Scalar_value == name),
        without_aliases(source_stream(source).events),
        name.len() > 0,
        !name.contains('.'),
    ensures
        path_node(source_stream(source).events, name) is None,
        value_range(source, name) is None,
{
    let at = lemma_root(source);
    let names = seq![name];
    assert(joined(names) == name);
    law_path_holds_its_names(names);
    let limits = crate::limits::default_limits();
    let events = source_stream(source).events;
    let known = Known::nothing();
    let span = events[at].span;
    let c = known.counted(1, limits, span)->Ok_0;
    assert(!(events[at].kind is Alias));
    let entries = documents(source)->Ok_0[0]->Mapping_entries;
    lemma_no_index(entries, name, 0);
    lemma_mapping_lacks(events, at + 1, c, limits, seq![], names, 0);
}

proof fn lemma_no_index(entries: Seq<(NodeView, NodeView)>, key: Seq<char>, j: int)
    requires
        forall|i: int|
            0 <= i < entries.len() ==> !((#[trigger] entries[i]).0 is Scalar
                && entries[i].0->Scalar_value == key),
        0 <= j,
    ensures
        entry_index(entries, key, j) is None,
    decreases entries.len() - j,
{
    if j < entries.len() {
        assert(!(entries[j].0 is Scalar && entries[j].0->Scalar_value == key));
        lemma_no_index(entries, key, j + 1);
    }
}

/// A path denotes a block mapping exactly if its names lead to one.
pub proof fn law_block_mapping_is_told(source: Seq<char>, names: Seq<Seq<char>>)
    requires
        encode_utf8(source).len() <= crate::scanner::cursor::MAX_INPUT,
        documents(source) matches Ok(nodes) && nodes.len() > 0 && led_to(nodes[0], names, 0) is Some,
        without_aliases(source_stream(source).events),
        speakable(names),
    ensures
        ({
            let n = led_to(documents(source)->Ok_0[0], names, 0)->0;
            denotes_block_mapping(source, joined(names)) <==> n is Mapping
                && n->Mapping_style is Block
        }),
{
    law_path_leads_to_node(source, names);
    let events = source_stream(source).events;
    let limits = crate::limits::default_limits();
    let n = led_to(documents(source)->Ok_0[0], names, 0)->0;
    let i = path_node(events, joined(names))->0;
    let known = choose|known: Known|
        (#[trigger] node_at(events, i, known, limits)) matches Ok((m, _, _)) && m == n;
    assert(node_at(events, i, known, limits) is Ok);
    assert(!(events[i].kind is Alias));
}

/// An entry goes into what a path denotes where that is a block mapping, and is refused
/// where it is anything else.
pub proof fn law_entry_needs_block_mapping(
    source: Seq<char>,
    names: Seq<Seq<char>>,
    key: Seq<char>,
    value: Seq<char>,
)
    requires
        encode_utf8(source).len() <= crate::scanner::cursor::MAX_INPUT,
        documents(source) matches Ok(nodes) && nodes.len() > 0 && led_to(nodes[0], names, 0) is Some,
        without_aliases(source_stream(source).events),
        speakable(names),
        joined(names).len() > 0,
        value_range(source, joined(names)) is Some,
    ensures
        ({
            let n = led_to(documents(source)->Ok_0[0], names, 0)->0;
            let r = with_entry(source, joined(names), key, value);
            if n is Mapping && n->Mapping_style is Block {
                r is Ok
            } else {
                r == Err::<Seq<char>, SetError>(SetError::NotAMapping)
            }
        }),
{
    law_block_mapping_is_told(source, names);
}

/// The root of a valid document takes an entry exactly if it is a block mapping; another
/// root refuses it.
pub proof fn law_root_takes_entries(source: Seq<char>, key: Seq<char>, value: Seq<char>)
    requires
        encode_utf8(source).len() <= crate::scanner::cursor::MAX_INPUT,
        documents(source) matches Ok(nodes) && nodes.len() > 0,
        without_aliases(source_stream(source).events),
    ensures
        ({
            let n = documents(source)->Ok_0[0];
            &&& source_root(source) is Mapping <==> n is Mapping && n->Mapping_style is Block
            &&& n is Mapping && n->Mapping_style is Block ==> with_entry(
                source,
                seq![],
                key,
                value,
            ) is Ok
            &&& !(n is Mapping && n->Mapping_style is Block) ==> with_entry(
                source,
                seq![],
                key,
                value,
            ) == Err::<Seq<char>, SetError>(SetError::NotAMapping)
        }),
{
    let at = lemma_root(source);
    let events = source_stream(source).events;
    let failed = source_stream(source).error is Some;
    lemma_root_kind(events, failed, 0);
    assert(!(events[at].kind is Alias));
}

proof fn lemma_root_kind(events: Seq<EventView>, failed: bool, i: int)
    requires
        first_node(events, i) is Some,
    ensures
        ({
            let at = first_node(events, i)->0;
            &&& 0 <= at < events.len()
            &&& root_of(events, failed, i) == if crate::cst::path::starts_block_mapping(
                events[at],
            ) {
                RootKind::Mapping
            } else {
                RootKind::Other
            }
        }),
    decreases events.len() - i,
{
    if 0 <= i < events.len() && (events[i].kind is StreamStart || events[i].kind is DocumentStart) {
        lemma_root_kind(events, failed, i + 1);
    }
}

} // verus!
