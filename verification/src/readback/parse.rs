//! The events of a node, and that they are what a parser makes of its tokens.
use crate::node::NodeView;
use crate::parser::event::{EventKindView, EventView};
use crate::parser::model::{NextEvent, Parse, Parsed, State};
use crate::parser::progress::{lemma_next_event, steady};
use crate::parser::stream::stream;
use crate::readback::blocks::document_tokens;
use crate::readback::scan::kinds_of;
use crate::readback::shape::{in_line, readable};
use crate::readback::tokens::{
    block_entry_tokens, block_item_tokens, comma_token, flow_entry_tokens, flow_item_tokens,
    pair_tokens, tokens_of,
};
use crate::scanner::model::Scan;
use crate::scanner::stream::{lemma_front_cover, tape};
use crate::scanner::token::TokenKindView;
use crate::types::CollectionStyle;
use vstd::prelude::*;

verus! {

/// The style in which a collection is written.
pub open spec fn written_style(n: NodeView) -> CollectionStyle {
    if in_line(n) {
        CollectionStyle::Flow
    } else {
        CollectionStyle::Block
    }
}

/// The events of a node.
pub open spec fn events_of(n: NodeView) -> Seq<EventKindView>
    decreases n,
{
    match n {
        NodeView::Scalar { value, style, .. } => seq![
            EventKindView::Scalar { value, style, anchor: None, tag: None },
        ],
        NodeView::Sequence { items, .. } => seq![
            EventKindView::SequenceStart { anchor: None, tag: None, style: written_style(n) },
        ] + item_events(items, 0) + seq![EventKindView::SequenceEnd],
        NodeView::Mapping { entries, .. } => seq![
            EventKindView::MappingStart { anchor: None, tag: None, style: written_style(n) },
        ] + entry_events(entries, 0) + seq![EventKindView::MappingEnd],
    }
}

/// The events of the items from the `m`th on.
pub open spec fn item_events(items: Seq<NodeView>, m: nat) -> Seq<EventKindView>
    decreases items, items.len() - m,
{
    if m < items.len() {
        events_of(items[m as int]) + item_events(items, m + 1)
    } else {
        seq![]
    }
}

/// The events of the entries from the `m`th on.
pub open spec fn entry_events(entries: Seq<(NodeView, NodeView)>, m: nat) -> Seq<EventKindView>
    decreases entries, entries.len() - m,
{
    if m < entries.len() {
        events_of(entries[m as int].0) + events_of(entries[m as int].1) + entry_events(
            entries,
            m + 1,
        )
    } else {
        seq![]
    }
}

/// How many collections stand in each other.
pub open spec fn height(n: NodeView) -> nat
    decreases n,
{
    match n {
        NodeView::Scalar { .. } => 0,
        NodeView::Sequence { items, .. } => 1 + items_height(items, items.len()),
        NodeView::Mapping { entries, .. } => 1 + entries_height(entries, entries.len()),
    }
}

/// The greatest height among the first `k` items.
pub open spec fn items_height(items: Seq<NodeView>, k: nat) -> nat
    decreases items, k,
{
    if 0 < k <= items.len() {
        let a = items_height(items, (k - 1) as nat);
        let b = height(items[k - 1]);
        if a > b {
            a
        } else {
            b
        }
    } else {
        0
    }
}

/// The greatest height among the values of the first `k` entries.
pub open spec fn entries_height(entries: Seq<(NodeView, NodeView)>, k: nat) -> nat
    decreases entries, k,
{
    if 0 < k <= entries.len() {
        let a = entries_height(entries, (k - 1) as nat);
        let b = height(entries[k - 1].1);
        if a > b {
            a
        } else {
            b
        }
    } else {
        0
    }
}

proof fn lemma_items_height(items: Seq<NodeView>, k: nat, i: int)
    requires
        0 <= i < k <= items.len(),
    ensures
        height(items[i]) <= items_height(items, k),
    decreases k,
{
    if i < k - 1 {
        lemma_items_height(items, (k - 1) as nat, i);
    }
}

proof fn lemma_entries_height(entries: Seq<(NodeView, NodeView)>, k: nat, i: int)
    requires
        0 <= i < k <= entries.len(),
    ensures
        height(entries[i].1) <= entries_height(entries, k),
    decreases k,
{
    if i < k - 1 {
        lemma_entries_height(entries, (k - 1) as nat, i);
    }
}

// ─── Tokens, from the front ─────────────────────────────────────────

/// The tokens of the items of a flow sequence from the `m`th on.
spec fn flow_items_from(items: Seq<NodeView>, m: nat) -> Seq<TokenKindView>
    decreases items.len() - m,
{
    if m < items.len() {
        comma_token(m + 1) + tokens_of(items[m as int]) + flow_items_from(items, m + 1)
    } else {
        seq![]
    }
}

spec fn flow_entries_from(entries: Seq<(NodeView, NodeView)>, m: nat) -> Seq<TokenKindView>
    decreases entries.len() - m,
{
    if m < entries.len() {
        comma_token(m + 1) + pair_tokens(entries[m as int]) + flow_entries_from(entries, m + 1)
    } else {
        seq![]
    }
}

spec fn block_items_from(items: Seq<NodeView>, m: nat) -> Seq<TokenKindView>
    decreases items.len() - m,
{
    if m < items.len() {
        seq![TokenKindView::BlockEntry] + tokens_of(items[m as int]) + block_items_from(
            items,
            m + 1,
        )
    } else {
        seq![]
    }
}

spec fn block_entries_from(entries: Seq<(NodeView, NodeView)>, m: nat) -> Seq<TokenKindView>
    decreases entries.len() - m,
{
    if m < entries.len() {
        pair_tokens(entries[m as int]) + block_entries_from(entries, m + 1)
    } else {
        seq![]
    }
}

proof fn lemma_flow_items_from(items: Seq<NodeView>, m: nat)
    requires
        m <= items.len(),
    ensures
        flow_item_tokens(items, m) + flow_items_from(items, m) == flow_item_tokens(
            items,
            items.len(),
        ),
    decreases items.len() - m,
{
    if m < items.len() {
        lemma_flow_items_from(items, m + 1);
        assert(flow_item_tokens(items, m) + flow_items_from(items, m) =~= flow_item_tokens(
            items,
            m + 1,
        ) + flow_items_from(items, m + 1));
    } else {
        assert(flow_item_tokens(items, m) + flow_items_from(items, m) =~= flow_item_tokens(items, m));
    }
}

proof fn lemma_flow_entries_from(entries: Seq<(NodeView, NodeView)>, m: nat)
    requires
        m <= entries.len(),
    ensures
        flow_entry_tokens(entries, m) + flow_entries_from(entries, m) == flow_entry_tokens(
            entries,
            entries.len(),
        ),
    decreases entries.len() - m,
{
    if m < entries.len() {
        lemma_flow_entries_from(entries, m + 1);
        assert(flow_entry_tokens(entries, m) + flow_entries_from(entries, m) =~= flow_entry_tokens(
            entries,
            m + 1,
        ) + flow_entries_from(entries, m + 1));
    } else {
        assert(flow_entry_tokens(entries, m) + flow_entries_from(entries, m) =~= flow_entry_tokens(
            entries,
            m,
        ));
    }
}

proof fn lemma_block_items_from(items: Seq<NodeView>, m: nat)
    requires
        m <= items.len(),
    ensures
        block_item_tokens(items, m) + block_items_from(items, m) == block_item_tokens(
            items,
            items.len(),
        ),
    decreases items.len() - m,
{
    if m < items.len() {
        lemma_block_items_from(items, m + 1);
        assert(block_item_tokens(items, m) + block_items_from(items, m) =~= block_item_tokens(
            items,
            m + 1,
        ) + block_items_from(items, m + 1));
    } else {
        assert(block_item_tokens(items, m) + block_items_from(items, m) =~= block_item_tokens(
            items,
            m,
        ));
    }
}

proof fn lemma_block_entries_from(entries: Seq<(NodeView, NodeView)>, m: nat)
    requires
        m <= entries.len(),
    ensures
        block_entry_tokens(entries, m) + block_entries_from(entries, m) == block_entry_tokens(
            entries,
            entries.len(),
        ),
    decreases entries.len() - m,
{
    if m < entries.len() {
        lemma_block_entries_from(entries, m + 1);
        assert(block_entry_tokens(entries, m) + block_entries_from(entries, m)
            =~= block_entry_tokens(entries, m + 1) + block_entries_from(entries, m + 1));
    } else {
        assert(block_entry_tokens(entries, m) + block_entries_from(entries, m)
            =~= block_entry_tokens(entries, m));
    }
}

/// The first token of a node.
proof fn lemma_first_token(n: NodeView)
    ensures
        tokens_of(n).len() > 0,
        ({
            let t = tokens_of(n)[0];
            t is Scalar || t is FlowSequenceStart || t is FlowMappingStart || (!in_line(n) && (t
                is BlockSequenceStart || t is BlockMappingStart))
        }),
{
}

// ─── Reading tokens ─────────────────────────────────────────────────

/// The tokens that a parser has not consumed yet.
pub open spec fn coming(p: Parse) -> Seq<TokenKindView> {
    (match p.peeked {
        Some(t) => seq![t.kind],
        None => seq![],
    }) + kinds_of(tape(p.scan))
}

/// The parser has not failed, and its scanner neither.
pub open spec fn calm(p: Parse) -> bool {
    &&& steady(p.scan)
    &&& !p.scan.errored
    &&& !p.scan.keep_trivia
    &&& !p.errored
}

/// The next token is read ahead.
pub proof fn lemma_peek(p: Parse) -> (q: Parse)
    requires
        calm(p),
        coming(p).len() > 0,
    ensures
        p.filled() == Ok::<Parse, crate::error::ErrorView>(q),
        q == (Parse { scan: q.scan, peeked: q.peeked, ..p }),
        q.peeked is Some,
        q.kind() == Some(coming(p)[0]),
        calm(q),
        coming(q) == coming(p),
        calm(q.taken()),
        coming(q.taken()) == coming(p).drop_first(),
        q.filled() == Ok::<Parse, crate::error::ErrorView>(q),
{
    reveal(Scan::next);
    reveal(Scan::next_token);
    crate::parser::progress::lemma_filled(p);
    if p.peeked is None {
        assert(coming(p) =~= kinds_of(tape(p.scan)));
        lemma_front_cover(p.scan, 0);
        let q = p.filled()->Ok_0;
        let t = q.peeked->0;
        assert(tape(p.scan) == seq![t] + tape(q.scan));
        assert(coming(q) =~= coming(p));
        assert(coming(q.taken()) =~= coming(p).drop_first());
        crate::scanner::frame::lemma_next_token(p.scan);
        q
    } else {
        assert(coming(p.taken()) =~= coming(p).drop_first());
        p
    }
}

// ─── Steps ──────────────────────────────────────────────────────────

/// The events of so many steps, and the state after them.
pub open spec fn stepped(p: Parse, k: nat) -> Option<(Seq<EventKindView>, Parse)>
    decreases k,
{
    if k == 0 {
        Some((seq![], p))
    } else {
        match p.next() {
            NextEvent::Event(e, q) => match stepped(q, (k - 1) as nat) {
                Some((es, r)) => Some((seq![e.kind] + es, r)),
                None => None,
            },
            _ => None,
        }
    }
}

/// Steps in a row.
proof fn lemma_stepped(p: Parse, j: nat, es: Seq<EventKindView>, q: Parse, k: nat, fs: Seq<EventKindView>, r: Parse)
    requires
        stepped(p, j) == Some((es, q)),
        stepped(q, k) == Some((fs, r)),
    ensures
        stepped(p, j + k) == Some((es + fs, r)),
    decreases j,
{
    if j > 0 {
        if let NextEvent::Event(e, u) = p.next() {
            let (gs, v) = stepped(u, (j - 1) as nat)->0;
            lemma_stepped(u, (j - 1) as nat, gs, q, k, fs, r);
            assert(seq![e.kind] + (gs + fs) =~= es + fs);
        }
    } else {
        assert(es + fs =~= fs);
    }
}

/// A step that gives the first event of a node, and the steps that give the others.
pub open spec fn gives(parsed: Parsed, k: nat, events: Seq<EventKindView>, r: Parse) -> bool {
    parsed matches Ok((q, event)) && (event matches Some(e) && (stepped(q, k) matches Some((es, u))
        && u == r && seq![e.kind] + es == events))
}

/// The first step is that of a state.
proof fn lemma_gives(p: Parse, parsed: Parsed, k: nat, events: Seq<EventKindView>, r: Parse)
    requires
        !p.errored,
        p.step() == parsed,
        gives(parsed, k, events, r),
    ensures
        stepped(p, k + 1) == Some((events, r)),
{
}

/// Behind a node, the parser is back where it was told to return to.
pub open spec fn returned(p: Parse, r: Parse, rest: Seq<TokenKindView>) -> bool {
    &&& r.state == p.states.last()
    &&& r.states == p.states.drop_last()
    &&& r.depth == p.depth
    &&& r.limits == p.limits
    &&& r.implicit_end == p.implicit_end
    &&& calm(r)
    &&& coming(r) == rest
}

/// A node without properties.
proof fn lemma_bare(p: Parse, block: bool, indentless: bool) -> (q: Parse)
    requires
        calm(p),
        coming(p).len() > 0,
        !(coming(p)[0] is Anchor),
        !(coming(p)[0] is Tag),
    ensures
        p.filled() == Ok::<Parse, crate::error::ErrorView>(q),
        q == (Parse { scan: q.scan, peeked: q.peeked, ..p }),
        q.kind() == Some(coming(p)[0]),
        calm(q.taken()),
        coming(q.taken()) == coming(p).drop_first(),
        p.node(block, indentless) == q.node_with(block, indentless, None, None),
{
    lemma_peek(p)
}

/// The state inside a collection, by its first token.
spec fn inside(kind: TokenKindView) -> State {
    match kind {
        TokenKindView::FlowSequenceStart => State::FlowSequenceEntry { first: true },
        TokenKindView::FlowMappingStart => State::FlowMappingKey { first: true, implicit: false },
        TokenKindView::BlockSequenceStart => State::BlockSequenceEntry {
            first: true,
            indentless: false,
        },
        _ => State::BlockMappingKey { first: true },
    }
}

/// A collection is entered.
proof fn lemma_entered(q: Parse, n: NodeView, block: bool, indentless: bool)
    requires
        !(n is Scalar),
        q.kind() == Some(tokens_of(n)[0]),
        block || in_line(n),
        0 <= q.depth < q.limits.max_depth,
    ensures
        ({
            let u = Parse { depth: q.depth + 1, state: inside(tokens_of(n)[0]), ..q.taken() };
            q.node_with(block, indentless, None, None) matches Ok((v, event)) && v == u && (event
                matches Some(e) && e.kind == events_of(n)[0])
        }),
{
    lemma_first_token(n);
}

/// The events of a collection: its start, and what follows.
proof fn lemma_gives_more(
    parsed: Parsed,
    u: Parse,
    kind: EventKindView,
    k: nat,
    more: Seq<EventKindView>,
    r: Parse,
    events: Seq<EventKindView>,
)
    requires
        parsed matches Ok((v, event)) && v == u && (event matches Some(e) && e.kind == kind),
        stepped(u, k) == Some((more, r)),
        events == seq![kind] + more,
    ensures
        gives(parsed, k, events, r),
{
}

/// What a node is parsed to.
proof fn lemma_node(p: Parse, n: NodeView, rest: Seq<TokenKindView>, block: bool, indentless: bool) -> (r: (
    nat,
    Parse,
))
    requires
        calm(p),
        p.states.len() > 0,
        coming(p) == tokens_of(n) + rest,
        rest.len() > 0,
        readable(n, !block),
        0 <= p.depth,
        p.depth + height(n) <= p.limits.max_depth,
    ensures
        gives(p.node(block, indentless), r.0, events_of(n), r.1),
        returned(p, r.1, rest),
    decreases n, 1nat, 0nat,
{
    lemma_first_token(n);
    assert(coming(p)[0] == tokens_of(n)[0]);
    let q = lemma_bare(p, block, indentless);
    let t = q.taken();
    let parsed = p.node(block, indentless);
    if n is Scalar {
        assert(coming(t) =~= rest);
        let u = t.pop();
        let none = Seq::<EventKindView>::empty();
        assert(stepped(u, 0) == Some((none, u)));
        assert(seq![events_of(n)[0]] + none =~= events_of(n));
        lemma_gives_more(parsed, u, events_of(n)[0], 0, none, u, events_of(n));
        (0nat, u)
    } else {
        if !block {
            crate::readback::shape::lemma_readable_inline(n);
        }
        assert(readable(n, false));
        lemma_entered(q, n, block, indentless);
        let u = Parse { depth: q.depth + 1, state: inside(tokens_of(n)[0]), ..t };
        assert(coming(u) == coming(p).drop_first());
        let (k, r) = lemma_inside(u, n, rest);
        let more = events_of(n).drop_first();
        assert(seq![events_of(n)[0]] + more =~= events_of(n));
        lemma_gives_more(parsed, u, events_of(n)[0], k, more, r, events_of(n));
        (k, r)
    }
}

/// The number of children of a node.
spec fn size_of(n: NodeView) -> nat {
    match n {
        NodeView::Scalar { .. } => 0,
        NodeView::Sequence { items, .. } => items.len(),
        NodeView::Mapping { entries, .. } => entries.len(),
    }
}

/// What stands in a collection, and its end.
proof fn lemma_inside(u: Parse, n: NodeView, rest: Seq<TokenKindView>) -> (r: (nat, Parse))
    requires
        calm(u),
        u.states.len() > 0,
        !(n is Scalar),
        readable(n, false),
        u.state == inside(tokens_of(n)[0]),
        coming(u) == (tokens_of(n) + rest).drop_first(),
        rest.len() > 0,
        1 <= u.depth,
        u.depth - 1 + height(n) <= u.limits.max_depth,
    ensures
        stepped(u, r.0) == Some((events_of(n).drop_first(), r.1)),
        left(u, r.1, rest),
    decreases n, 0nat, size_of(n) + 1,
{
    if n is Sequence {
        let items = n->items;
        lemma_sequence_events(n);
        let more = item_events(items, 0) + seq![EventKindView::SequenceEnd];
        assert(events_of(n).drop_first() =~= more);
        if in_line(n) {
            lemma_flow_items_from(items, 0);
            assert(coming(u) =~= flow_items_from(items, 0) + seq![TokenKindView::FlowSequenceEnd]
                + rest);
            lemma_flow_items(u, n, 0, rest)
        } else {
            lemma_block_items_from(items, 0);
            assert(coming(u) =~= block_items_from(items, 0) + seq![TokenKindView::BlockEnd] + rest);
            lemma_block_items(u, n, 0, rest, true)
        }
    } else {
        let entries = n->entries;
        lemma_mapping_events(n);
        let more = entry_events(entries, 0) + seq![EventKindView::MappingEnd];
        assert(events_of(n).drop_first() =~= more);
        if in_line(n) {
            lemma_flow_entries_from(entries, 0);
            assert(coming(u) =~= flow_entries_from(entries, 0) + seq![
                TokenKindView::FlowMappingEnd,
            ] + rest);
            lemma_flow_entries(u, n, 0, rest)
        } else {
            lemma_block_entries_from(entries, 0);
            assert(coming(u) =~= block_entries_from(entries, 0) + seq![TokenKindView::BlockEnd]
                + rest);
            lemma_block_entries(u, n, 0, rest, true)
        }
    }
}

proof fn lemma_sequence_events(n: NodeView)
    requires
        n is Sequence,
    ensures
        events_of(n) == seq![
            EventKindView::SequenceStart { anchor: None, tag: None, style: written_style(n) },
        ] + (item_events(n->items, 0) + seq![EventKindView::SequenceEnd]),
{
    assert(events_of(n) =~= seq![
        EventKindView::SequenceStart { anchor: None, tag: None, style: written_style(n) },
    ] + (item_events(n->items, 0) + seq![EventKindView::SequenceEnd]));
}

proof fn lemma_mapping_events(n: NodeView)
    requires
        n is Mapping,
    ensures
        events_of(n) == seq![
            EventKindView::MappingStart { anchor: None, tag: None, style: written_style(n) },
        ] + (entry_events(n->entries, 0) + seq![EventKindView::MappingEnd]),
{
    assert(events_of(n) =~= seq![
        EventKindView::MappingStart { anchor: None, tag: None, style: written_style(n) },
    ] + (entry_events(n->entries, 0) + seq![EventKindView::MappingEnd]));
}

/// A collection is left.
spec fn left(p: Parse, r: Parse, rest: Seq<TokenKindView>) -> bool {
    &&& r.state == p.states.last()
    &&& r.states == p.states.drop_last()
    &&& r.depth == p.depth - 1
    &&& r.limits == p.limits
    &&& r.implicit_end == p.implicit_end
    &&& calm(r)
    &&& coming(r) == rest
}

/// In the same collection, in another state, with other tokens to come.
spec fn moved(p: Parse, r: Parse, state: State, rest: Seq<TokenKindView>) -> bool {
    &&& r.state == state
    &&& r.states == p.states
    &&& r.depth == p.depth
    &&& r.limits == p.limits
    &&& r.implicit_end == p.implicit_end
    &&& calm(r)
    &&& coming(r) == rest
}

/// Going on behind a node with the state that was pushed.
proof fn lemma_pushed(p: Parse, q: Parse, state: State, r: Parse, rest: Seq<TokenKindView>)
    requires
        q == (Parse { scan: q.scan, peeked: q.peeked, ..p }),
        returned(q.push(state), r, rest),
    ensures
        moved(p, r, state, rest),
{
    assert(p.states.push(state).drop_last() =~= p.states);
}

/// A step that ends a collection.
proof fn lemma_closed(p: Parse, q: Parse, parsed: Parsed, kind: EventKindView, rest: Seq<TokenKindView>)
    requires
        !p.errored,
        p.step() == parsed,
        p.depth >= 1,
        p.states.len() > 0,
        q == (Parse { scan: q.scan, peeked: q.peeked, ..p }),
        parsed matches Ok((r, event)) && r == q.taken().close() && (event matches Some(e) && e.kind
            == kind),
        calm(q.taken()),
        coming(q.taken()) == rest,
    ensures
        stepped(p, 1) == Some((seq![kind], q.taken().close())),
        left(p, q.taken().close(), rest),
{
    let r = q.taken().close();
    assert(stepped(r, 0) == Some((Seq::<EventKindView>::empty(), r)));
    assert(seq![kind] + Seq::<EventKindView>::empty() =~= seq![kind]);
    lemma_gives(p, parsed, 0, seq![kind], r);
}

/// The end of a flow sequence.
proof fn lemma_flow_sequence_end(p: Parse, first: bool, rest: Seq<TokenKindView>) -> (r: Parse)
    requires
        calm(p),
        p.state == (State::FlowSequenceEntry { first }),
        p.states.len() > 0,
        p.depth >= 1,
        coming(p) == seq![TokenKindView::FlowSequenceEnd] + rest,
    ensures
        stepped(p, 1) == Some((seq![EventKindView::SequenceEnd], r)),
        left(p, r, rest),
{
    let q = lemma_peek(p);
    assert(coming(q.taken()) =~= rest);
    lemma_closed(p, q, p.flow_sequence_entry(first), EventKindView::SequenceEnd, rest);
    q.taken().close()
}

/// The end of a block sequence.
proof fn lemma_block_sequence_end(p: Parse, first: bool, rest: Seq<TokenKindView>) -> (r: Parse)
    requires
        calm(p),
        p.state == (State::BlockSequenceEntry { first, indentless: false }),
        p.states.len() > 0,
        p.depth >= 1,
        coming(p) == seq![TokenKindView::BlockEnd] + rest,
    ensures
        stepped(p, 1) == Some((seq![EventKindView::SequenceEnd], r)),
        left(p, r, rest),
{
    let q = lemma_peek(p);
    assert(coming(q.taken()) =~= rest);
    lemma_closed(p, q, p.block_sequence_entry(false), EventKindView::SequenceEnd, rest);
    q.taken().close()
}

/// The end of a flow mapping.
proof fn lemma_flow_mapping_end(p: Parse, first: bool, rest: Seq<TokenKindView>) -> (r: Parse)
    requires
        calm(p),
        p.state == (State::FlowMappingKey { first, implicit: false }),
        p.states.len() > 0,
        p.depth >= 1,
        coming(p) == seq![TokenKindView::FlowMappingEnd] + rest,
    ensures
        stepped(p, 1) == Some((seq![EventKindView::MappingEnd], r)),
        left(p, r, rest),
{
    let q = lemma_peek(p);
    assert(coming(q.taken()) =~= rest);
    lemma_closed(p, q, p.flow_mapping_key(first, false), EventKindView::MappingEnd, rest);
    q.taken().close()
}

/// The end of a block mapping.
proof fn lemma_block_mapping_end(p: Parse, first: bool, rest: Seq<TokenKindView>) -> (r: Parse)
    requires
        calm(p),
        p.state == (State::BlockMappingKey { first }),
        p.states.len() > 0,
        p.depth >= 1,
        coming(p) == seq![TokenKindView::BlockEnd] + rest,
    ensures
        stepped(p, 1) == Some((seq![EventKindView::MappingEnd], r)),
        left(p, r, rest),
{
    let q = lemma_peek(p);
    assert(coming(q.taken()) =~= rest);
    lemma_closed(p, q, p.block_mapping_key(), EventKindView::MappingEnd, rest);
    q.taken().close()
}

/// The token behind the comma between two entries.
proof fn lemma_past_comma(p: Parse, m: nat, more: Seq<TokenKindView>, close: TokenKindView, expected: Seq<char>) -> (u:
    Parse)
    requires
        calm(p),
        more.len() > 0,
        coming(p) == comma_token(m + 1) + more,
        m > 0 ==> close != TokenKindView::FlowEntry,
    ensures
        p.separated(m == 0, close, expected) == Ok::<Parse, crate::error::ErrorView>(u),
        u == (Parse { scan: u.scan, peeked: u.peeked, ..p }),
        u.kind() == Some(more[0]),
        calm(u),
        coming(u) == more,
        calm(u.taken()),
        coming(u.taken()) == more.drop_first(),
        u.filled() == Ok::<Parse, crate::error::ErrorView>(u),
{
    let q = lemma_peek(p);
    if m == 0 {
        assert(coming(p) =~= more);
        q
    } else {
        assert(coming(q.taken()) =~= more);
        lemma_peek(q.taken())
    }
}

/// An item of a flow sequence.
proof fn lemma_flow_item(p: Parse, item: NodeView, m: nat, after: Seq<TokenKindView>) -> (r: (
    nat,
    Parse,
))
    requires
        calm(p),
        p.state == (State::FlowSequenceEntry { first: m == 0 }),
        coming(p) == comma_token(m + 1) + (tokens_of(item) + after),
        after.len() > 0,
        readable(item, true),
        0 <= p.depth,
        p.depth + height(item) <= p.limits.max_depth,
    ensures
        stepped(p, r.0) == Some((events_of(item), r.1)),
        moved(p, r.1, State::FlowSequenceEntry { first: false }, after),
    decreases item, 2nat, 0nat,
{
    lemma_first_token(item);
    let u = lemma_past_comma(
        p,
        m,
        tokens_of(item) + after,
        TokenKindView::FlowSequenceEnd,
        "',' or ']'"@,
    );
    let next = State::FlowSequenceEntry { first: false };
    assert(coming(u.push(next)) == tokens_of(item) + after);
    let (k, v) = lemma_node(u.push(next), item, after, false, false);
    lemma_pushed(p, u, next, v, after);
    lemma_gives(p, p.flow_sequence_entry(m == 0), k, events_of(item), v);
    (k + 1, v)
}

/// An item of a block sequence.
proof fn lemma_block_item(p: Parse, item: NodeView, first: bool, after: Seq<TokenKindView>) -> (r: (
    nat,
    Parse,
))
    requires
        calm(p),
        p.state == (State::BlockSequenceEntry { first, indentless: false }),
        coming(p) == seq![TokenKindView::BlockEntry] + (tokens_of(item) + after),
        after.len() > 0,
        readable(item, false),
        0 <= p.depth,
        p.depth + height(item) <= p.limits.max_depth,
    ensures
        stepped(p, r.0) == Some((events_of(item), r.1)),
        moved(p, r.1, State::BlockSequenceEntry { first: false, indentless: false }, after),
    decreases item, 2nat, 0nat,
{
    lemma_first_token(item);
    let q = lemma_peek(p);
    assert(coming(q.taken()) =~= tokens_of(item) + after);
    let u = lemma_peek(q.taken());
    let next = State::BlockSequenceEntry { first: false, indentless: false };
    let w = u.push(next);
    assert(coming(w) == tokens_of(item) + after);
    assert(w.filled() == Ok::<Parse, crate::error::ErrorView>(w));
    assert(w.entry_node() == w.node(true, true));
    let (k, v) = lemma_node(w, item, after, true, true);
    lemma_pushed(p, u, next, v, after);
    lemma_gives(p, p.block_sequence_entry(false), k, events_of(item), v);
    (k + 1, v)
}

/// A key of a flow mapping.
proof fn lemma_flow_key(p: Parse, key: NodeView, m: nat, value: Seq<TokenKindView>) -> (r: (
    nat,
    Parse,
))
    requires
        calm(p),
        p.state == (State::FlowMappingKey { first: m == 0, implicit: false }),
        coming(p) == comma_token(m + 1) + (seq![TokenKindView::Key] + (tokens_of(key) + value)),
        value.len() > 0,
        key is Scalar,
        readable(key, true),
        0 <= p.depth <= p.limits.max_depth,
    ensures
        stepped(p, r.0) == Some((events_of(key), r.1)),
        moved(p, r.1, State::FlowMappingValue { implicit: false }, value),
    decreases key, 2nat, 0nat,
{
    lemma_first_token(key);
    let pair = seq![TokenKindView::Key] + (tokens_of(key) + value);
    let u = lemma_past_comma(p, m, pair, TokenKindView::FlowMappingEnd, "',' or '}'"@);
    assert(coming(u.taken()) =~= tokens_of(key) + value);
    let w = lemma_peek(u.taken());
    let next = State::FlowMappingValue { implicit: false };
    assert(coming(w.push(next)) == tokens_of(key) + value);
    let (k, v) = lemma_node(w.push(next), key, value, false, false);
    lemma_pushed(p, w, next, v, value);
    assert(p.flow_mapping_key(m == 0, false) == u.flow_mapping_pair(false));
    lemma_gives(p, p.flow_mapping_key(m == 0, false), k, events_of(key), v);
    (k + 1, v)
}

/// A key of a block mapping.
proof fn lemma_block_key(p: Parse, key: NodeView, first: bool, value: Seq<TokenKindView>) -> (r: (
    nat,
    Parse,
))
    requires
        calm(p),
        p.state == (State::BlockMappingKey { first }),
        coming(p) == seq![TokenKindView::Key] + (tokens_of(key) + value),
        value.len() > 0,
        key is Scalar,
        readable(key, false),
        0 <= p.depth <= p.limits.max_depth,
    ensures
        stepped(p, r.0) == Some((events_of(key), r.1)),
        moved(p, r.1, State::BlockMappingValue, value),
    decreases key, 2nat, 0nat,
{
    lemma_first_token(key);
    let q = lemma_peek(p);
    assert(coming(q.taken()) =~= tokens_of(key) + value);
    let w = lemma_peek(q.taken());
    let next = State::BlockMappingValue;
    assert(coming(w.push(next)) == tokens_of(key) + value);
    let (k, v) = lemma_node(w.push(next), key, value, true, true);
    lemma_pushed(p, w, next, v, value);
    lemma_gives(p, p.block_mapping_key(), k, events_of(key), v);
    (k + 1, v)
}

/// A value of a flow mapping.
proof fn lemma_flow_value(p: Parse, n: NodeView, after: Seq<TokenKindView>) -> (r: (nat, Parse))
    requires
        calm(p),
        p.state == (State::FlowMappingValue { implicit: false }),
        coming(p) == seq![TokenKindView::Value] + (tokens_of(n) + after),
        after.len() > 0,
        readable(n, true),
        0 <= p.depth,
        p.depth + height(n) <= p.limits.max_depth,
    ensures
        stepped(p, r.0) == Some((events_of(n), r.1)),
        moved(p, r.1, State::FlowMappingKey { first: false, implicit: false }, after),
    decreases n, 2nat, 0nat,
{
    lemma_first_token(n);
    let q = lemma_peek(p);
    assert(coming(q.taken()) =~= tokens_of(n) + after);
    let u = lemma_peek(q.taken());
    let next = State::FlowMappingKey { first: false, implicit: false };
    assert(coming(u.push(next)) == tokens_of(n) + after);
    let (k, v) = lemma_node(u.push(next), n, after, false, false);
    lemma_pushed(p, u, next, v, after);
    lemma_gives(p, p.flow_mapping_value(false), k, events_of(n), v);
    (k + 1, v)
}

/// A value of a block mapping.
proof fn lemma_block_value(p: Parse, n: NodeView, after: Seq<TokenKindView>) -> (r: (nat, Parse))
    requires
        calm(p),
        p.state == State::BlockMappingValue,
        coming(p) == seq![TokenKindView::Value] + (tokens_of(n) + after),
        after.len() > 0,
        readable(n, false),
        0 <= p.depth,
        p.depth + height(n) <= p.limits.max_depth,
    ensures
        stepped(p, r.0) == Some((events_of(n), r.1)),
        moved(p, r.1, State::BlockMappingKey { first: false }, after),
    decreases n, 2nat, 0nat,
{
    lemma_first_token(n);
    let q = lemma_peek(p);
    assert(coming(q.taken()) =~= tokens_of(n) + after);
    let u = lemma_peek(q.taken());
    let next = State::BlockMappingKey { first: false };
    assert(coming(u.push(next)) == tokens_of(n) + after);
    let (k, v) = lemma_node(u.push(next), n, after, true, true);
    lemma_pushed(p, u, next, v, after);
    lemma_gives(p, p.block_mapping_value(), k, events_of(n), v);
    (k + 1, v)
}

/// The items of a flow sequence from the `m`th on, and its end.
#[verifier::rlimit(60)]
proof fn lemma_flow_items(p: Parse, n: NodeView, m: nat, rest: Seq<TokenKindView>) -> (r: (nat, Parse))
    requires
        calm(p),
        p.state == (State::FlowSequenceEntry { first: m == 0 }),
        p.states.len() > 0,
        n is Sequence,
        in_line(n),
        readable(n, false),
        m <= n->items.len(),
        coming(p) == flow_items_from(n->items, m) + seq![TokenKindView::FlowSequenceEnd] + rest,
        rest.len() > 0,
        1 <= p.depth,
        p.depth + items_height(n->items, n->items.len()) <= p.limits.max_depth,
    ensures
        stepped(p, r.0) == Some(
            (item_events(n->items, m) + seq![EventKindView::SequenceEnd], r.1),
        ),
        left(p, r.1, rest),
    decreases n, 0nat, n->items.len() - m,
{
    let items = n->items;
    let end = seq![TokenKindView::FlowSequenceEnd];
    let close = seq![EventKindView::SequenceEnd];
    if m == items.len() {
        assert(coming(p) =~= end + rest);
        let r = lemma_flow_sequence_end(p, m == 0, rest);
        assert(close =~= item_events(items, m) + close);
        (1nat, r)
    } else {
        let item = items[m as int];
        assert(readable(item, true));
        lemma_items_height(items, items.len(), m as int);
        let after = flow_items_from(items, m + 1) + end + rest;
        assert(coming(p) =~= comma_token(m + 1) + (tokens_of(item) + after));
        let (k, v) = lemma_flow_item(p, item, m, after);
        let (j, w) = lemma_flow_items(v, n, m + 1, rest);
        let more = item_events(items, m + 1) + close;
        lemma_stepped(p, k, events_of(item), v, j, more, w);
        assert(events_of(item) + more =~= item_events(items, m) + close);
        (k + j, w)
    }
}

/// The items of a block sequence from the `m`th on, and its end.
proof fn lemma_block_items(p: Parse, n: NodeView, m: nat, rest: Seq<TokenKindView>, first: bool) -> (r: (
    nat,
    Parse,
))
    requires
        calm(p),
        p.state == (State::BlockSequenceEntry { first, indentless: false }),
        p.states.len() > 0,
        n is Sequence,
        !in_line(n),
        readable(n, false),
        m <= n->items.len(),
        coming(p) == block_items_from(n->items, m) + seq![TokenKindView::BlockEnd] + rest,
        rest.len() > 0,
        1 <= p.depth,
        p.depth + items_height(n->items, n->items.len()) <= p.limits.max_depth,
    ensures
        stepped(p, r.0) == Some(
            (item_events(n->items, m) + seq![EventKindView::SequenceEnd], r.1),
        ),
        left(p, r.1, rest),
    decreases n, 0nat, n->items.len() - m,
{
    let items = n->items;
    let end = seq![TokenKindView::BlockEnd];
    let close = seq![EventKindView::SequenceEnd];
    if m == items.len() {
        assert(coming(p) =~= end + rest);
        let r = lemma_block_sequence_end(p, first, rest);
        assert(close =~= item_events(items, m) + close);
        (1nat, r)
    } else {
        let item = items[m as int];
        assert(readable(item, false));
        lemma_items_height(items, items.len(), m as int);
        let after = block_items_from(items, m + 1) + end + rest;
        assert(coming(p) =~= seq![TokenKindView::BlockEntry] + (tokens_of(item) + after));
        let (k, v) = lemma_block_item(p, item, first, after);
        let (j, w) = lemma_block_items(v, n, m + 1, rest, false);
        let more = item_events(items, m + 1) + close;
        lemma_stepped(p, k, events_of(item), v, j, more, w);
        assert(events_of(item) + more =~= item_events(items, m) + close);
        (k + j, w)
    }
}

/// The tokens of a pair, from the front.
proof fn lemma_pair(entry: (NodeView, NodeView), after: Seq<TokenKindView>)
    ensures
        pair_tokens(entry) + after == seq![TokenKindView::Key] + (tokens_of(entry.0) + (seq![
            TokenKindView::Value,
        ] + (tokens_of(entry.1) + after))),
{
    assert(pair_tokens(entry) == seq![TokenKindView::Key] + tokens_of(entry.0) + seq![
        TokenKindView::Value,
    ] + tokens_of(entry.1));
    assert(pair_tokens(entry) + after =~= seq![TokenKindView::Key] + (tokens_of(entry.0) + (seq![
        TokenKindView::Value,
    ] + (tokens_of(entry.1) + after))));
}

/// The entries of a flow mapping from the `m`th on, and its end.
#[verifier::rlimit(60)]
proof fn lemma_flow_entries(p: Parse, n: NodeView, m: nat, rest: Seq<TokenKindView>) -> (r: (nat, Parse))
    requires
        calm(p),
        p.state == (State::FlowMappingKey { first: m == 0, implicit: false }),
        p.states.len() > 0,
        n is Mapping,
        in_line(n),
        readable(n, false),
        m <= n->entries.len(),
        coming(p) == flow_entries_from(n->entries, m) + seq![TokenKindView::FlowMappingEnd] + rest,
        rest.len() > 0,
        1 <= p.depth,
        p.depth + entries_height(n->entries, n->entries.len()) <= p.limits.max_depth,
    ensures
        stepped(p, r.0) == Some(
            (entry_events(n->entries, m) + seq![EventKindView::MappingEnd], r.1),
        ),
        left(p, r.1, rest),
    decreases n, 0nat, n->entries.len() - m,
{
    let entries = n->entries;
    let end = seq![TokenKindView::FlowMappingEnd];
    let close = seq![EventKindView::MappingEnd];
    if m == entries.len() {
        assert(coming(p) =~= end + rest);
        let r = lemma_flow_mapping_end(p, m == 0, rest);
        assert(close =~= entry_events(entries, m) + close);
        (1nat, r)
    } else {
        let entry = entries[m as int];
        assert(entry.0 is Scalar && readable(entry.0, true) && readable(entry.1, true));
        lemma_entries_height(entries, entries.len(), m as int);
        let after = flow_entries_from(entries, m + 1) + end + rest;
        let value = seq![TokenKindView::Value] + (tokens_of(entry.1) + after);
        lemma_pair(entry, after);
        assert(coming(p) =~= comma_token(m + 1) + (pair_tokens(entry) + after));
        let (k, v) = lemma_flow_key(p, entry.0, m, value);
        let (i, x) = lemma_flow_value(v, entry.1, after);
        let (j, y) = lemma_flow_entries(x, n, m + 1, rest);
        let more = entry_events(entries, m + 1) + close;
        lemma_stepped(p, k, events_of(entry.0), v, i, events_of(entry.1), x);
        lemma_stepped(p, k + i, events_of(entry.0) + events_of(entry.1), x, j, more, y);
        assert(events_of(entry.0) + events_of(entry.1) + more =~= entry_events(entries, m) + close);
        (k + i + j, y)
    }
}

/// The entries of a block mapping from the `m`th on, and its end.
proof fn lemma_block_entries(p: Parse, n: NodeView, m: nat, rest: Seq<TokenKindView>, first: bool) -> (r: (
    nat,
    Parse,
))
    requires
        calm(p),
        p.state == (State::BlockMappingKey { first }),
        p.states.len() > 0,
        n is Mapping,
        !in_line(n),
        readable(n, false),
        m <= n->entries.len(),
        coming(p) == block_entries_from(n->entries, m) + seq![TokenKindView::BlockEnd] + rest,
        rest.len() > 0,
        1 <= p.depth,
        p.depth + entries_height(n->entries, n->entries.len()) <= p.limits.max_depth,
    ensures
        stepped(p, r.0) == Some(
            (entry_events(n->entries, m) + seq![EventKindView::MappingEnd], r.1),
        ),
        left(p, r.1, rest),
    decreases n, 0nat, n->entries.len() - m,
{
    let entries = n->entries;
    let end = seq![TokenKindView::BlockEnd];
    let close = seq![EventKindView::MappingEnd];
    if m == entries.len() {
        assert(coming(p) =~= end + rest);
        let r = lemma_block_mapping_end(p, first, rest);
        assert(close =~= entry_events(entries, m) + close);
        (1nat, r)
    } else {
        let entry = entries[m as int];
        assert(entry.0 is Scalar && readable(entry.0, false) && readable(entry.1, false));
        lemma_entries_height(entries, entries.len(), m as int);
        let after = block_entries_from(entries, m + 1) + end + rest;
        let value = seq![TokenKindView::Value] + (tokens_of(entry.1) + after);
        lemma_pair(entry, after);
        assert(coming(p) =~= pair_tokens(entry) + after);
        let (k, v) = lemma_block_key(p, entry.0, first, value);
        let (i, x) = lemma_block_value(v, entry.1, after);
        let (j, y) = lemma_block_entries(x, n, m + 1, rest, false);
        let more = entry_events(entries, m + 1) + close;
        lemma_stepped(p, k, events_of(entry.0), v, i, events_of(entry.1), x);
        lemma_stepped(p, k + i, events_of(entry.0) + events_of(entry.1), x, j, more, y);
        assert(events_of(entry.0) + events_of(entry.1) + more =~= entry_events(entries, m) + close);
        (k + i + j, y)
    }
}

// ─── Whole documents ────────────────────────────────────────────────

/// The events of a stream with one document, with or without markers around its root.
pub open spec fn document_events(n: NodeView, explicit: bool) -> Seq<EventKindView> {
    seq![EventKindView::StreamStart, EventKindView::DocumentStart { explicit }] + events_of(n)
        + seq![EventKindView::DocumentEnd { explicit }, EventKindView::StreamEnd]
}

/// The token in front of the root of a document, if there is one.
spec fn start_token(explicit: bool) -> Seq<TokenKindView> {
    if explicit {
        seq![TokenKindView::DocumentStart]
    } else {
        seq![]
    }
}

/// The token behind the root of a document, if there is one.
spec fn end_token(explicit: bool) -> Seq<TokenKindView> {
    if explicit {
        seq![TokenKindView::DocumentEnd]
    } else {
        seq![]
    }
}

/// One step with one event.
proof fn lemma_one(p: Parse, parsed: Parsed, kind: EventKindView, r: Parse)
    requires
        !p.errored,
        p.step() == parsed,
        parsed matches Ok((q, event)) && q == r && (event matches Some(e) && e.kind == kind),
    ensures
        stepped(p, 1) == Some((seq![kind], r)),
{
    assert(stepped(r, 0) == Some((Seq::<EventKindView>::empty(), r)));
    assert(seq![kind] + Seq::<EventKindView>::empty() =~= seq![kind]);
    lemma_gives(p, parsed, 0, seq![kind], r);
}

/// No directive stands in front of the next token.
proof fn lemma_no_directive(p: Parse) -> (q: Parse)
    requires
        calm(p),
        coming(p).len() > 0,
        ({
            let t = coming(p)[0];
            !(t is VersionDirective || t is TagDirective || t is DocumentEnd)
        }),
    ensures
        p.directives(false, false) == Ok::<(Parse, bool), crate::error::ErrorView>((q, false)),
        q == (Parse { scan: q.scan, peeked: q.peeked, ..p }),
        q.kind() == Some(coming(p)[0]),
        calm(q),
        coming(q) == coming(p),
        calm(q.taken()),
        coming(q.taken()) == coming(p).drop_first(),
{
    lemma_peek(p)
}

/// The start of the stream and that of the document.
proof fn lemma_opened(p: Parse, n: NodeView, explicit: bool, rest: Seq<TokenKindView>) -> (r: Parse)
    requires
        calm(p),
        p.state is StreamStart,
        !p.implicit_end,
        coming(p) == seq![TokenKindView::StreamStart] + (start_token(explicit) + (tokens_of(n)
            + rest)),
    ensures
        stepped(p, 2) == Some(
            (seq![EventKindView::StreamStart, EventKindView::DocumentStart { explicit }], r),
        ),
        moved(p, r, State::DocumentContent, tokens_of(n) + rest),
{
    lemma_first_token(n);
    let q = lemma_peek(p);
    let a = q.taken().enter(State::DocumentStart);
    let more = start_token(explicit) + (tokens_of(n) + rest);
    assert(coming(q.taken()) =~= more);
    lemma_one(p, p.stream_start(), EventKindView::StreamStart, a);
    let b = Parse { tags: crate::parser::model::default_tags(), ..a };
    assert(coming(b) == more);
    let c = lemma_no_directive(b);
    let r = if explicit {
        c.taken().enter(State::DocumentContent)
    } else {
        c.enter(State::DocumentContent)
    };
    assert(coming(r) =~= tokens_of(n) + rest);
    lemma_one(a, a.document_start(), EventKindView::DocumentStart { explicit }, r);
    let (x, y) = (
        seq![EventKindView::StreamStart],
        seq![EventKindView::DocumentStart { explicit }],
    );
    lemma_stepped(p, 1, x, a, 1, y, r);
    assert(x + y =~= seq![EventKindView::StreamStart, EventKindView::DocumentStart { explicit }]);
    r
}

/// The end of the document and that of the stream.
proof fn lemma_finished(p: Parse, explicit: bool) -> (r: Parse)
    requires
        calm(p),
        p.state is DocumentEnd,
        coming(p) == end_token(explicit) + seq![TokenKindView::StreamEnd],
    ensures
        stepped(p, 2) == Some(
            (seq![EventKindView::DocumentEnd { explicit }, EventKindView::StreamEnd], r),
        ),
        r.state is End,
        !r.errored,
{
    let q = lemma_peek(p);
    let last = seq![TokenKindView::StreamEnd];
    let o = if explicit {
        q.taken()
    } else {
        q
    };
    assert(coming(o) =~= last);
    let a = Parse { implicit_end: !explicit, ..o }.enter(State::DocumentStart);
    lemma_one(p, p.document_end(), EventKindView::DocumentEnd { explicit }, a);
    let b = Parse { tags: crate::parser::model::default_tags(), ..a };
    assert(coming(b) == last);
    let c = lemma_no_directive(b);
    let r = c.taken().enter(State::End);
    lemma_one(a, a.document_start(), EventKindView::StreamEnd, r);
    let (x, y) = (
        seq![EventKindView::DocumentEnd { explicit }],
        seq![EventKindView::StreamEnd],
    );
    lemma_stepped(p, 1, x, a, 1, y, r);
    assert(x + y =~= seq![EventKindView::DocumentEnd { explicit }, EventKindView::StreamEnd]);
    r
}

/// The root of a document.
proof fn lemma_root(p: Parse, n: NodeView, rest: Seq<TokenKindView>) -> (r: (nat, Parse))
    requires
        calm(p),
        p.state is DocumentContent,
        p.depth == 0,
        p.states.len() == 0,
        coming(p) == tokens_of(n) + rest,
        rest.len() > 0,
        readable(n, false),
        height(n) <= p.limits.max_depth,
    ensures
        stepped(p, r.0) == Some((events_of(n), r.1)),
        moved(p, r.1, State::DocumentEnd, rest),
{
    lemma_first_token(n);
    let q = lemma_peek(p);
    let w = q.push(State::DocumentEnd);
    assert(coming(w) == tokens_of(n) + rest);
    let (k, v) = lemma_node(w, n, rest, true, false);
    lemma_pushed(p, q, State::DocumentEnd, v, rest);
    lemma_gives(p, p.document_content(), k, events_of(n), v);
    (k + 1, v)
}

/// The kinds of some events.
pub open spec fn event_kinds(q: Seq<EventView>) -> Seq<EventKindView> {
    Seq::new(q.len(), |i: int| q[i].kind)
}

/// The events of a parser that comes to its end.
proof fn lemma_stream(p: Parse, k: nat, es: Seq<EventKindView>, r: Parse)
    requires
        p.stacked(),
        steady(p.scan),
        !p.errored,
        stepped(p, k) == Some((es, r)),
        r.state is End,
        !r.errored,
    ensures
        event_kinds(stream(p).events) == es,
        stream(p).error is None,
    decreases k,
{
    if k == 0 {
        assert(p.next() is End);
        assert(event_kinds(stream(p).events) =~= es);
    } else {
        lemma_next_event(p);
        if let NextEvent::Event(e, q) = p.next() {
            let (fs, _) = stepped(q, (k - 1) as nat)->0;
            lemma_stream(q, (k - 1) as nat, fs, r);
            assert(q.rank() >= 0);
            assert(stream(p).events == seq![e] + stream(q).events);
            assert(event_kinds(stream(p).events) =~= seq![e.kind] + event_kinds(stream(q).events));
        }
    }
}

/// The tokens of a document with one root are parsed to the events of that document.
pub proof fn lemma_document_parsed(
    n: NodeView,
    explicit: bool,
    b: Seq<u8>,
    limits: crate::limits::ResourceLimits,
)
    requires
        readable(n, false),
        height(n) <= limits.max_depth,
        b.len() <= crate::scanner::cursor::MAX_INPUT,
        kinds_of(tape(Scan::fresh(b, limits, false))) == document_tokens(n, explicit),
    ensures
        event_kinds(stream(Parse::fresh(b, limits)).events) == document_events(n, explicit),
        stream(Parse::fresh(b, limits)).error is None,
{
    let p = Parse::fresh(b, limits);
    let rest = end_token(explicit) + seq![TokenKindView::StreamEnd];
    assert(coming(p) =~= seq![TokenKindView::StreamStart] + (start_token(explicit) + (tokens_of(n)
        + rest)));
    let a = lemma_opened(p, n, explicit, rest);
    let (k, c) = lemma_root(a, n, rest);
    let r = lemma_finished(c, explicit);
    let start = seq![EventKindView::StreamStart, EventKindView::DocumentStart { explicit }];
    let end = seq![EventKindView::DocumentEnd { explicit }, EventKindView::StreamEnd];
    lemma_stepped(p, 2, start, a, k, events_of(n), c);
    lemma_stepped(p, 2 + k, start + events_of(n), c, 2, end, r);
    lemma_stream(p, 2 + k + 2, start + events_of(n) + end, r);
}

} // verus!
