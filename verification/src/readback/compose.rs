//! The node that is composed from the events of a node, and the law that emitted nodes are
//! read back.
use crate::composer::{
    content_at, document_at, documents, documents_at, entries_at, items_at, node_at, Known,
    NextDocument,
};
use crate::emitter::{document_text, EmitterConfig};
use crate::limits::{default_limits, ResourceLimits};
use crate::node::NodeView;
use crate::parser::event::{EventKindView, EventView};
use crate::parser::model::Parse;
use crate::parser::stream::{stream, Stream};
use crate::readback::blocks::{lemma_document_scanned, marked_text};
use crate::readback::eager::lemma_tape;
use crate::readback::parse::{
    document_events, entry_events, event_kinds, events_of, height, item_events,
    lemma_document_parsed,
};
use crate::readback::shape::{lemma_document_text, readable};
use vstd::prelude::*;
use vstd::utf8::encode_utf8;

verus! {

/// The number of nodes in a node.
pub open spec fn count(n: NodeView) -> nat
    decreases n,
{
    match n {
        NodeView::Scalar { .. } => 1,
        NodeView::Sequence { items, .. } => 1 + items_count(items, 0),
        NodeView::Mapping { entries, .. } => 1 + entries_count(entries, 0),
    }
}

/// The number of nodes in the items from the `m`th on.
pub open spec fn items_count(items: Seq<NodeView>, m: nat) -> nat
    decreases items, items.len() - m,
{
    if m < items.len() {
        count(items[m as int]) + items_count(items, m + 1)
    } else {
        0
    }
}

/// The number of nodes in the entries from the `m`th on.
pub open spec fn entries_count(entries: Seq<(NodeView, NodeView)>, m: nat) -> nat
    decreases entries, entries.len() - m,
{
    if m < entries.len() {
        count(entries[m as int].0) + count(entries[m as int].1) + entries_count(entries, m + 1)
    } else {
        0
    }
}

/// Whether two nodes without tags hold the same: the same texts and children at every
/// depth, in whatever style and place.
pub open spec fn same_content(s: NodeView, t: NodeView) -> bool
    decreases s,
{
    &&& s.tag() is None
    &&& t.tag() is None
    &&& match (s, t) {
        (NodeView::Scalar { value, .. }, NodeView::Scalar { value: v, .. }) => value == v,
        (NodeView::Sequence { items, .. }, NodeView::Sequence { items: i, .. }) => items.len()
            == i.len() && forall|k: int|
            0 <= k < items.len() ==> same_content(#[trigger] items[k], i[k]),
        (NodeView::Mapping { entries, .. }, NodeView::Mapping { entries: e, .. }) => entries.len()
            == e.len() && forall|k: int|
            0 <= k < entries.len() ==> same_content((#[trigger] entries[k]).0, e[k].0)
                && same_content(entries[k].1, e[k].1),
        _ => false,
    }
}

/// Events of these kinds stand from the `i`th event on.
spec fn at_events(events: Seq<EventView>, i: int, kinds: Seq<EventKindView>) -> bool {
    &&& 0 <= i
    &&& i + kinds.len() <= events.len()
    &&& forall|j: int| 0 <= j < kinds.len() ==> (#[trigger] events[i + j]).kind == kinds[j]
}

proof fn lemma_at_events(events: Seq<EventView>, i: int, a: Seq<EventKindView>, b: Seq<EventKindView>)
    requires
        at_events(events, i, a + b),
    ensures
        at_events(events, i, a),
        at_events(events, i + a.len(), b),
{
    assert forall|j: int| 0 <= j < a.len() implies (#[trigger] events[i + j]).kind == a[j] by {
        assert((a + b)[j] == a[j]);
    }
    assert forall|j: int| 0 <= j < b.len() implies (#[trigger] events[i + a.len() + j]).kind
        == b[j] by {
        assert(events[i + (a.len() + j)].kind == (a + b)[a.len() + j]);
    }
}

/// The first event of a node.
proof fn lemma_first_event(n: NodeView)
    ensures
        events_of(n).len() > 0,
        events_of(n)[0] is Scalar || events_of(n)[0] is SequenceStart || events_of(n)[0]
            is MappingStart,
{
}

/// The node composed from the events of a node.
proof fn lemma_composed(events: Seq<EventView>, i: int, n: NodeView, known: Known, limits: ResourceLimits) -> (m:
    NodeView)
    requires
        readable(n, false) || readable(n, true),
        at_events(events, i, events_of(n)),
        known.nodes + count(n) <= limits.max_node_count,
    ensures
        same_content(n, m),
        node_at(events, i, known, limits) == Ok::<
            (NodeView, int, Known),
            Option<crate::error::ErrorView>,
        >((m, i + events_of(n).len(), Known { nodes: known.nodes + count(n), ..known })),
    decreases n, 1nat, 0nat,
{
    lemma_first_event(n);
    assert(events[i + 0].kind == events_of(n)[0]);
    match n {
        NodeView::Scalar { .. } => {
            let m = node_at(events, i, known, limits)->Ok_0.0;
            m
        },
        NodeView::Sequence { items, .. } => {
            let start = seq![events_of(n)[0]];
            let end = seq![EventKindView::SequenceEnd];
            let inner = item_events(items, 0);
            assert(events_of(n) =~= start + (inner + end));
            lemma_at_events(events, i, start, inner + end);
            let k = known.counted(1, limits, events[i].span)->Ok_0;
            let found = lemma_items(events, i + 1, n, 0, k, limits, seq![]);
            node_at(events, i, known, limits)->Ok_0.0
        },
        NodeView::Mapping { entries, .. } => {
            let start = seq![events_of(n)[0]];
            let end = seq![EventKindView::MappingEnd];
            let inner = entry_events(entries, 0);
            assert(events_of(n) =~= start + (inner + end));
            lemma_at_events(events, i, start, inner + end);
            let k = known.counted(1, limits, events[i].span)->Ok_0;
            let found = lemma_entries(events, i + 1, n, 0, k, limits, seq![]);
            node_at(events, i, known, limits)->Ok_0.0
        },
    }
}

/// The items composed from the `m`th on, behind those already `done`.
proof fn lemma_items(
    events: Seq<EventView>,
    i: int,
    n: NodeView,
    m: nat,
    known: Known,
    limits: ResourceLimits,
    done: Seq<NodeView>,
) -> (found: Seq<NodeView>)
    requires
        n is Sequence,
        readable(n, false) || readable(n, true),
        m <= n->items.len(),
        at_events(events, i, item_events(n->items, m) + seq![EventKindView::SequenceEnd]),
        known.nodes + items_count(n->items, m) <= limits.max_node_count,
        done.len() == m,
        forall|k: int| 0 <= k < m ==> same_content(n->items[k], #[trigger] done[k]),
    ensures
        found.len() == n->items.len(),
        forall|k: int| 0 <= k < found.len() ==> same_content(n->items[k], #[trigger] found[k]),
        items_at(events, i, known, limits, done) == Ok::<
            (Seq<NodeView>, int, Known),
            Option<crate::error::ErrorView>,
        >(
            (
                found,
                i + item_events(n->items, m).len(),
                Known { nodes: known.nodes + items_count(n->items, m), ..known },
            ),
        ),
    decreases n, 0nat, n->items.len() - m,
{
    let items = n->items;
    let end = seq![EventKindView::SequenceEnd];
    if m == items.len() {
        assert(item_events(items, m) + end =~= end);
        assert(events[i + 0].kind == end[0]);
        done
    } else {
        let item = items[m as int];
        assert(readable(item, false) || readable(item, true));
        let more = item_events(items, m + 1) + end;
        assert(item_events(items, m) + end =~= events_of(item) + more);
        lemma_at_events(events, i, events_of(item), more);
        lemma_first_event(item);
        assert(events[i + 0].kind == events_of(item)[0]);
        let node = lemma_composed(events, i, item, known, limits);
        let k = Known { nodes: known.nodes + count(item), ..known };
        let next = i + events_of(item).len();
        let later = done.push(node);
        assert forall|j: int| 0 <= j < m + 1 implies same_content(items[j], #[trigger] later[j]) by {
            if j < m {
                assert(later[j] == done[j]);
            }
        }
        lemma_items(events, next, n, m + 1, k, limits, later)
    }
}

/// The entries composed from the `m`th on, behind those already `done`.
proof fn lemma_entries(
    events: Seq<EventView>,
    i: int,
    n: NodeView,
    m: nat,
    known: Known,
    limits: ResourceLimits,
    done: Seq<(NodeView, NodeView)>,
) -> (found: Seq<(NodeView, NodeView)>)
    requires
        n is Mapping,
        readable(n, false) || readable(n, true),
        m <= n->entries.len(),
        at_events(events, i, entry_events(n->entries, m) + seq![EventKindView::MappingEnd]),
        known.nodes + entries_count(n->entries, m) <= limits.max_node_count,
        done.len() == m,
        forall|k: int|
            0 <= k < m ==> same_content(n->entries[k].0, (#[trigger] done[k]).0) && same_content(
                n->entries[k].1,
                done[k].1,
            ),
    ensures
        found.len() == n->entries.len(),
        forall|k: int|
            0 <= k < found.len() ==> same_content(n->entries[k].0, (#[trigger] found[k]).0)
                && same_content(n->entries[k].1, found[k].1),
        entries_at(events, i, known, limits, done) == Ok::<
            (Seq<(NodeView, NodeView)>, int, Known),
            Option<crate::error::ErrorView>,
        >(
            (
                found,
                i + entry_events(n->entries, m).len(),
                Known { nodes: known.nodes + entries_count(n->entries, m), ..known },
            ),
        ),
    decreases n, 0nat, n->entries.len() - m,
{
    let entries = n->entries;
    let end = seq![EventKindView::MappingEnd];
    if m == entries.len() {
        assert(entry_events(entries, m) + end =~= end);
        assert(events[i + 0].kind == end[0]);
        done
    } else {
        let entry = entries[m as int];
        assert(readable(entry.0, false) || readable(entry.0, true));
        assert(readable(entry.1, false) || readable(entry.1, true));
        let more = entry_events(entries, m + 1) + end;
        assert(entry_events(entries, m) + end =~= events_of(entry.0) + (events_of(entry.1) + more));
        lemma_at_events(events, i, events_of(entry.0), events_of(entry.1) + more);
        let v = i + events_of(entry.0).len();
        lemma_at_events(events, v, events_of(entry.1), more);
        lemma_first_event(entry.0);
        lemma_first_event(entry.1);
        assert(events[i + 0].kind == events_of(entry.0)[0]);
        let key = lemma_composed(events, i, entry.0, known, limits);
        let k = Known { nodes: known.nodes + count(entry.0), ..known };
        let value = lemma_composed(events, v, entry.1, k, limits);
        let l = Known { nodes: k.nodes + count(entry.1), ..k };
        let next = v + events_of(entry.1).len();
        let later = done.push((key, value));
        assert forall|j: int| 0 <= j < m + 1 implies same_content(
            entries[j].0,
            (#[trigger] later[j]).0,
        ) && same_content(entries[j].1, later[j].1) by {
            if j < m {
                assert(later[j] == done[j]);
            }
        }
        lemma_entries(events, next, n, m + 1, l, limits, later)
    }
}

/// The one document composed from the events of a document.
proof fn lemma_one_document(s: Stream, n: NodeView, explicit: bool, limits: ResourceLimits) -> (m:
    NodeView)
    requires
        readable(n, false),
        event_kinds(s.events) == document_events(n, explicit),
        s.error is None,
        count(n) <= limits.max_node_count,
    ensures
        same_content(n, m),
        documents_at(s, 0, limits, seq![]) == Ok::<Seq<NodeView>, crate::error::ErrorView>(seq![m]),
{
    let events = s.events;
    let kinds = document_events(n, explicit);
    let size = events_of(n).len() as int;
    assert forall|j: int| 0 <= j < kinds.len() implies (#[trigger] events[0 + j]).kind == kinds[j] by {
        assert(event_kinds(events)[j] == events[j].kind);
    }
    assert(events.len() == event_kinds(events).len());
    let start = seq![EventKindView::StreamStart, EventKindView::DocumentStart { explicit }];
    let end = seq![EventKindView::DocumentEnd { explicit }, EventKindView::StreamEnd];
    assert(kinds =~= start + (events_of(n) + end));
    lemma_at_events(events, 0, start, events_of(n) + end);
    lemma_at_events(events, 2, events_of(n), end);
    lemma_first_event(n);
    assert(events[0int + 0].kind == start[0]);
    assert(events[0int + 1].kind == start[1]);
    assert(events[2int + 0].kind == events_of(n)[0]);
    let next = 2 + size;
    assert(events[next + 0].kind == end[0]);
    assert(events[next + 1].kind == end[1]);
    reveal_with_fuel(content_at, 4);
    assert(content_at(events, 0) == 2);
    assert(content_at(events, next) == next + 1);
    let m = lemma_composed(events, 2, n, Known::nothing(), limits);
    assert(document_at(s, 0, limits) == NextDocument::Document(m, next));
    assert(document_at(s, next, limits) == NextDocument::End);
    let none = Seq::<NodeView>::empty();
    assert(none.push(m) =~= seq![m]);
    reveal_with_fuel(documents_at, 3);
    assert(documents_at(s, next, limits, seq![m]) == Ok::<Seq<NodeView>, crate::error::ErrorView>(
        seq![m],
    ));
    m
}

/// What the emitter writes is read back: a node without tags, whose scalars are quoted,
/// plain words or upright literal texts and whose keys are scalars of the first two sorts,
/// without block collections or literal texts in flow collections, written with two spaces
/// per level and within the limits, gives one document that holds the same as the node. The
/// document may have markers around it.
pub proof fn law_emission_is_read_back(n: NodeView, config: EmitterConfig)
    requires
        readable(n, false),
        config.indent == 2,
        !config.sort_keys,
        encode_utf8(document_text(n, config, seq![])).len() <= default_limits().max_document_size,
        height(n) <= default_limits().max_depth,
        count(n) <= default_limits().max_node_count,
    ensures
        documents(document_text(n, config, seq![])) matches Ok(r) && r.len() == 1 && same_content(
            n,
            r[0],
        ),
{
    let limits = default_limits();
    let all = document_text(n, config, seq![]);
    let explicit = config.explicit_document;
    lemma_document_text(n, config);
    reveal_strlit("---\n");
    reveal_strlit("...\n");
    assert("---\n"@ =~= seq!['-', '-', '-', '\n']);
    assert("...\n"@ =~= seq!['.', '.', '.', '\n']);
    assert(all == marked_text(n, explicit));
    let b = encode_utf8(all);
    let (k, t) = lemma_document_scanned(n, explicit, limits);
    lemma_tape(b, limits, k, t);
    lemma_document_parsed(n, explicit, b, limits);
    let m = lemma_one_document(stream(Parse::fresh(b, limits)), n, explicit, limits);
}

} // verus!
