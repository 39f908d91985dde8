//! Events are balanced: every collection that starts also ends, in the right order,
//! and before its document does; a mapping holds pairs, and a document one root.
use crate::parser::event::{AnchorView, EventKindView, EventView, TagView};
use crate::parser::model::{NextEvent, Parse, Parsed, State};
use crate::parser::progress::{
    lemma_directives, lemma_filled, lemma_next_event, lemma_properties, lemma_separated, steady,
};
use crate::parser::stream::stream;
use crate::scanner::token::TokenKindView;
use vstd::prelude::*;

verus! {

/// What kind of collection a state belongs to: `true` for a sequence, `false` for a
/// mapping.
pub open spec fn collection(state: State) -> Option<bool> {
    match state {
        State::BlockSequenceEntry { .. } => Some(true),
        State::FlowSequenceEntry { .. } => Some(true),
        State::BlockMappingKey { .. } => Some(false),
        State::BlockMappingValue => Some(false),
        State::FlowMappingKey { .. } => Some(false),
        State::FlowMappingValue { .. } => Some(false),
        State::FlowMappingEmptyValue => Some(false),
        _ => None,
    }
}

/// What is open: a document, or a collection in it.
pub enum Slot {
    /// A document, and whether it has its root.
    Document { rooted: bool },
    /// A sequence.
    Sequence,
    /// A mapping, and whether a key in it still lacks its value.
    Mapping { keyed: bool },
}

/// What is open in a state, innermost.
pub open spec fn slot(state: State) -> Option<Slot> {
    match state {
        State::DocumentContent => Some(Slot::Document { rooted: false }),
        State::DocumentEnd => Some(Slot::Document { rooted: true }),
        State::BlockSequenceEntry { .. } => Some(Slot::Sequence),
        State::FlowSequenceEntry { .. } => Some(Slot::Sequence),
        State::BlockMappingKey { .. } => Some(Slot::Mapping { keyed: false }),
        State::FlowMappingKey { .. } => Some(Slot::Mapping { keyed: false }),
        State::BlockMappingValue => Some(Slot::Mapping { keyed: true }),
        State::FlowMappingValue { .. } => Some(Slot::Mapping { keyed: true }),
        State::FlowMappingEmptyValue => Some(Slot::Mapping { keyed: true }),
        _ => None,
    }
}

/// What is open in some states.
pub open spec fn slots(states: Seq<State>) -> Seq<Slot>
    decreases states.len(),
{
    if states.len() == 0 {
        seq![]
    } else {
        match slot(states.last()) {
            Some(k) => slots(states.drop_last()).push(k),
            None => slots(states.drop_last()),
        }
    }
}

/// What is open, outermost first: nothing, or a document and the collections in it.
pub open spec fn open_slots(p: Parse) -> Seq<Slot> {
    slots(p.states.push(p.state))
}

/// The states to return to lead back to the end of the document.
pub open spec fn rooted(states: Seq<State>) -> bool {
    &&& states.len() > 0
    &&& states[0] == State::DocumentEnd
    &&& forall|i: int| 1 <= i < states.len() ==> collection(#[trigger] states[i]) is Some
}

/// A parser inside a document has the end of the document to return to; outside it has
/// nothing.
pub open spec fn framed(p: Parse) -> bool {
    if collection(p.state) is Some {
        rooted(p.states)
    } else {
        p.states.len() == 0
    }
}

/// What one more node makes of a slot: it is the root of a document that has none yet, an
/// item of a sequence, or a key or value of a mapping.
pub open spec fn slot_with_node(s: Slot) -> Option<Slot> {
    match s {
        Slot::Document { rooted } => if rooted {
            None
        } else {
            Some(Slot::Document { rooted: true })
        },
        Slot::Sequence => Some(s),
        Slot::Mapping { keyed } => Some(Slot::Mapping { keyed: !keyed }),
    }
}

/// What one more node makes of what is open.
pub open spec fn with_node(open: Seq<Slot>) -> Option<Seq<Slot>> {
    if open.len() == 0 {
        None
    } else {
        match slot_with_node(open.last()) {
            Some(s) => Some(open.drop_last().push(s)),
            None => None,
        }
    }
}

/// What an event does to what is open; nothing where it does not fit. A mapping ends
/// only where no key lacks its value, a document only where it has its root.
pub open spec fn nested(open: Seq<Slot>, e: EventView) -> Option<Seq<Slot>> {
    match e.kind {
        EventKindView::SequenceStart { .. } => match with_node(open) {
            Some(o) => Some(o.push(Slot::Sequence)),
            None => None,
        },
        EventKindView::MappingStart { .. } => match with_node(open) {
            Some(o) => Some(o.push(Slot::Mapping { keyed: false })),
            None => None,
        },
        EventKindView::SequenceEnd => if open.len() > 0 && open.last() == Slot::Sequence {
            Some(open.drop_last())
        } else {
            None
        },
        EventKindView::MappingEnd => if open.len() > 0 && open.last() == (Slot::Mapping {
            keyed: false,
        }) {
            Some(open.drop_last())
        } else {
            None
        },
        EventKindView::Scalar { .. } => with_node(open),
        EventKindView::Alias { .. } => with_node(open),
        EventKindView::DocumentStart { .. } => if open.len() == 0 {
            Some(seq![Slot::Document { rooted: false }])
        } else {
            None
        },
        EventKindView::DocumentEnd { .. } => if open == seq![Slot::Document { rooted: true }] {
            Some(seq![])
        } else {
            None
        },
        EventKindView::StreamStart => if open.len() == 0 {
            Some(open)
        } else {
            None
        },
        EventKindView::StreamEnd => if open.len() == 0 {
            Some(open)
        } else {
            None
        },
    }
}

/// The number of open collections.
pub open spec fn depth_of(open: Seq<Slot>) -> nat {
    if open.len() == 0 {
        0
    } else {
        (open.len() - 1) as nat
    }
}

/// What some events do to what is open.
pub open spec fn nested_all(open: Seq<Slot>, events: Seq<EventView>) -> Option<Seq<Slot>>
    decreases events.len(),
{
    if events.len() == 0 {
        Some(open)
    } else {
        match nested(open, events[0]) {
            Some(o) => nested_all(o, events.drop_first()),
            None => None,
        }
    }
}

proof fn lemma_slots_push(states: Seq<State>, state: State)
    ensures
        slots(states.push(state)) == match slot(state) {
            Some(k) => slots(states).push(k),
            None => slots(states),
        },
        slot(state) is Some ==> slots(states.push(state)).drop_last() == slots(states),
{
    assert(states.push(state).drop_last() =~= states);
    if let Some(k) = slot(state) {
        assert(slots(states).push(k).drop_last() =~= slots(states));
    }
}

/// With the end of the document to return to, a document is open.
proof fn lemma_rooted_slots(states: Seq<State>)
    requires
        rooted(states),
    ensures
        slots(states).len() == states.len(),
    decreases states.len(),
{
    let rest = states.drop_last();
    if states.len() > 1 {
        assert(rest[0] == states[0]);
        assert forall|i: int| 1 <= i < rest.len() implies collection(#[trigger] rest[i]) is Some by {
            assert(collection(states[i]) is Some);
        }
        assert(collection(states[states.len() - 1]) is Some);
        lemma_rooted_slots(rest);
    } else {
        assert(slots(rest) =~= Seq::<Slot>::empty());
    }
}

/// Back to a state on the stack.
proof fn lemma_popped(p: Parse)
    requires
        rooted(p.states),
    ensures
        framed(p.pop()),
        open_slots(p.pop()) == slots(p.states),
        !(p.pop().state is End),
        framed(p.close()),
        open_slots(p.close()) == slots(p.states),
        !(p.close().state is End),
{
    assert(p.states.drop_last().push(p.states.last()) =~= p.states);
    let rest = p.states.drop_last();
    assert forall|i: int| 1 <= i < rest.len() implies collection(#[trigger] rest[i]) is Some by {
        assert(collection(p.states[i]) is Some);
    }
    if p.states.len() > 1 {
        assert(collection(p.states[p.states.len() - 1]) is Some);
        assert(rest[0] == p.states[0]);
    }
}

/// A step from the given depth fits what is open, and counts it.
spec fn fits(open: Seq<Slot>, depth: int, parsed: Parsed) -> bool {
    parsed matches Ok((q, event)) ==> {
        &&& event matches Some(e)
        &&& framed(q)
        &&& nested(open, e) == Some(open_slots(q))
        &&& q.state is End ==> e.kind is StreamEnd
        &&& depth == depth_of(open) ==> q.depth == depth_of(open_slots(q))
    }
}

proof fn lemma_fits_node_with(
    open: Seq<Slot>,
    p: Parse,
    block: bool,
    indentless: bool,
    anchor: AnchorView,
    tag: TagView,
)
    requires
        rooted(p.states),
        with_node(open) == Some(slots(p.states)),
    ensures
        fits(open, p.depth, p.node_with(block, indentless, anchor, tag)),
{
    lemma_rooted_slots(p.states);
    lemma_popped(p);
    lemma_popped(p.taken());
    lemma_slots_push(p.states, State::FlowSequenceEntry { first: true });
    lemma_slots_push(p.states, State::FlowMappingKey { first: true, implicit: false });
    lemma_slots_push(p.states, State::BlockSequenceEntry { first: true, indentless: false });
    lemma_slots_push(p.states, State::BlockSequenceEntry { first: true, indentless: true });
    lemma_slots_push(p.states, State::BlockMappingKey { first: true });
}

proof fn lemma_fits_node(open: Seq<Slot>, p: Parse, block: bool, indentless: bool)
    requires
        rooted(p.states),
        with_node(open) == Some(slots(p.states)),
    ensures
        fits(open, p.depth, p.node(block, indentless)),
{
    lemma_properties(p, None, None);
    if let Ok((q, anchor, tag)) = p.properties(None, None) {
        lemma_fits_node_with(open, q, block, indentless, anchor, tag);
    }
}

proof fn lemma_fits_entry_node(open: Seq<Slot>, p: Parse)
    requires
        rooted(p.states),
        with_node(open) == Some(slots(p.states)),
    ensures
        fits(open, p.depth, p.entry_node()),
{
    lemma_filled(p);
    if let Ok(q) = p.filled() {
        lemma_properties(q, None, None);
        if let Ok((r, anchor, tag)) = q.properties(None, None) {
            lemma_popped(r);
            lemma_fits_node_with(open, r, true, true, anchor, tag);
        }
        lemma_fits_node(open, q, true, true);
    }
}

/// Going on behind one more node.
proof fn lemma_pushed(p: Parse, state: State)
    requires
        framed(p),
        collection(p.state) is Some,
        collection(state) is Some,
        slot_with_node(slot(p.state)->0) == slot(state),
    ensures
        rooted(p.push(state).states),
        with_node(open_slots(p)) == Some(slots(p.push(state).states)),
        framed(p.enter(state)),
        with_node(open_slots(p)) == Some(open_slots(p.enter(state))),
        depth_of(open_slots(p)) == depth_of(open_slots(p.enter(state))),
{
    lemma_slots_push(p.states, state);
    lemma_slots_push(p.states, p.state);
    let t = p.states.push(state);
    assert(t[0] == p.states[0]);
    assert forall|i: int| 1 <= i < t.len() implies collection(#[trigger] t[i]) is Some by {
        if i < p.states.len() {
            assert(collection(p.states[i]) is Some);
        }
    }
}

proof fn lemma_fits_document(p: Parse)
    requires
        framed(p),
        collection(p.state) is None,
    ensures
        p.state is StreamStart ==> fits(open_slots(p), p.depth, p.stream_start()),
        p.state is DocumentStart ==> fits(open_slots(p), p.depth, p.document_start()),
        p.state is DocumentContent ==> fits(open_slots(p), p.depth, p.document_content()),
        p.state is DocumentEnd ==> fits(open_slots(p), p.depth, p.document_end()),
{
    lemma_filled(p);
    lemma_directives(Parse { tags: crate::parser::model::default_tags(), ..p }, false, false);
    lemma_slots_push(p.states, p.state);
    lemma_slots_push(p.states, State::DocumentStart);
    lemma_slots_push(p.states, State::DocumentContent);
    lemma_slots_push(p.states, State::DocumentEnd);
    lemma_slots_push(p.states, State::End);
    assert(slots(p.states) =~= Seq::<Slot>::empty());
    if let Ok(q) = p.filled() {
        let r = q.push(State::DocumentEnd);
        assert(rooted(r.states));
        assert(slots(r.states.drop_last()) =~= Seq::<Slot>::empty());
        assert(slots(r.states) =~= seq![Slot::Document { rooted: true }]);
        if p.state is DocumentContent {
            assert(open_slots(p).drop_last() =~= Seq::<Slot>::empty());
            lemma_fits_node(open_slots(p), r, true, false);
        }
    }
    if p.state is DocumentEnd {
        assert(open_slots(p) =~= seq![Slot::Document { rooted: true }]);
    }
}

proof fn lemma_fits_block(p: Parse)
    requires
        framed(p),
    ensures
        p.state matches State::BlockSequenceEntry { indentless, .. } ==> fits(
            open_slots(p),
            p.depth,
            p.block_sequence_entry(indentless),
        ),
        p.state is BlockMappingKey ==> fits(open_slots(p), p.depth, p.block_mapping_key()),
        p.state is BlockMappingValue ==> fits(open_slots(p), p.depth, p.block_mapping_value()),
{
    if p.state is BlockSequenceEntry || p.state is BlockMappingKey || p.state is BlockMappingValue {
        lemma_filled(p);
        lemma_slots_push(p.states, p.state);
        if let Ok(q) = p.filled() {
            lemma_popped(q);
            lemma_popped(q.taken());
            lemma_filled(q.taken());
            if let State::BlockSequenceEntry { indentless, .. } = p.state {
                if let Ok(r) = q.taken().filled() {
                    let next = State::BlockSequenceEntry { first: false, indentless };
                    lemma_pushed(r, next);
                    lemma_fits_entry_node(open_slots(p), r.push(next));
                }
            } else {
                let next = if p.state is BlockMappingKey {
                    State::BlockMappingValue
                } else {
                    State::BlockMappingKey { first: false }
                };
                lemma_pushed(q, next);
                if let Ok(r) = q.taken().filled() {
                    lemma_pushed(r, next);
                    lemma_fits_node(open_slots(p), r.push(next), true, true);
                }
            }
        }
    }
}

proof fn lemma_fits_flow_sequence(p: Parse, first: bool)
    requires
        framed(p),
        p.state == (State::FlowSequenceEntry { first }),
    ensures
        fits(open_slots(p), p.depth, p.flow_sequence_entry(first)),
{
    lemma_separated(p, first, TokenKindView::FlowSequenceEnd, "',' or ']'"@);
    lemma_slots_push(p.states, p.state);
    if let Ok(q) = p.separated(first, TokenKindView::FlowSequenceEnd, "',' or ']'"@) {
        let next = State::FlowSequenceEntry { first: false };
        lemma_popped(q.taken());
        lemma_pushed(q, next);
        lemma_fits_node(open_slots(p), q.push(next), false, false);
        lemma_slots_push(
            q.push(next).states,
            State::FlowMappingKey { first: true, implicit: true },
        );
    }
}

proof fn lemma_fits_flow_pair(p: Parse, implicit: bool)
    requires
        framed(p),
        p.state is FlowMappingKey,
    ensures
        fits(open_slots(p), p.depth, p.flow_mapping_pair(implicit)),
{
    let value = State::FlowMappingValue { implicit };
    lemma_slots_push(p.states, p.state);
    lemma_popped(p.taken());
    lemma_pushed(p, value);
    lemma_pushed(p, State::FlowMappingEmptyValue);
    lemma_fits_node(open_slots(p), p.push(State::FlowMappingEmptyValue), false, false);
    lemma_filled(p.taken());
    if let Ok(r) = p.taken().filled() {
        lemma_pushed(r, value);
        lemma_fits_node(open_slots(p), r.push(value), false, false);
    }
}

proof fn lemma_fits_flow_mapping(p: Parse)
    requires
        framed(p),
    ensures
        p.state matches State::FlowMappingKey { first, implicit } ==> fits(
            open_slots(p),
            p.depth,
            p.flow_mapping_key(first, implicit),
        ),
        p.state matches State::FlowMappingValue { implicit } ==> fits(
            open_slots(p),
            p.depth,
            p.flow_mapping_value(implicit),
        ),
        p.state is FlowMappingEmptyValue ==> fits(open_slots(p), p.depth, p.flow_mapping_empty_value()),
{
    lemma_filled(p);
    lemma_slots_push(p.states, p.state);
    if let State::FlowMappingKey { first, implicit } = p.state {
        if let Ok(q) = p.filled() {
            lemma_popped(q);
        }
        lemma_separated(p, first, TokenKindView::FlowMappingEnd, "',' or '}'"@);
        if let Ok(q) = p.separated(first, TokenKindView::FlowMappingEnd, "',' or '}'"@) {
            lemma_fits_flow_pair(q, implicit);
        }
    } else if let State::FlowMappingValue { implicit } = p.state {
        if let Ok(q) = p.filled() {
            let next = State::FlowMappingKey { first: false, implicit };
            lemma_pushed(q, next);
            lemma_filled(q.taken());
            if let Ok(r) = q.taken().filled() {
                lemma_pushed(r, next);
                lemma_fits_node(open_slots(p), r.push(next), false, false);
            }
        }
    } else if p.state is FlowMappingEmptyValue {
        if let Ok(q) = p.filled() {
            lemma_pushed(q, State::FlowMappingKey { first: false, implicit: false });
        }
    }
}

/// The next event fits what is open.
proof fn lemma_next_fits(p: Parse)
    requires
        framed(p),
    ensures
        p.next() matches NextEvent::Event(e, q) ==> {
            &&& framed(q)
            &&& nested(open_slots(p), e) == Some(open_slots(q))
            &&& q.state is End ==> e.kind is StreamEnd
            &&& p.depth == depth_of(open_slots(p)) ==> q.depth == depth_of(open_slots(q))
        },
        p.next() matches NextEvent::End(q) ==> p.errored || p.state is End,
{
    if collection(p.state) is None {
        lemma_fits_document(p);
    } else {
        lemma_fits_block(p);
        if let State::FlowSequenceEntry { first } = p.state {
            lemma_fits_flow_sequence(p, first);
        }
        lemma_fits_flow_mapping(p);
    }
}

proof fn lemma_stream_nested(p: Parse)
    requires
        framed(p),
        p.stacked(),
        steady(p.scan),
        !p.errored,
    ensures
        nested_all(open_slots(p), stream(p).events) is Some,
        stream(p).error is None ==> nested_all(open_slots(p), stream(p).events) == Some(
            Seq::<Slot>::empty(),
        ),
        stream(p).error is None ==> p.state is End || (stream(p).events.len() > 0
            && stream(p).events.last().kind is StreamEnd),
    decreases p.rank(),
{
    lemma_next_event(p);
    lemma_next_fits(p);
    match p.next() {
        NextEvent::Event(e, q) => {
            lemma_stream_nested(q);
            assert(q.rank() >= 0);
            let s = stream(p);
            assert(s.events =~= seq![e] + stream(q).events);
            assert(s.events.drop_first() =~= stream(q).events);
            assert(s.events[0] == e);
            if stream(q).events.len() > 0 {
                assert(s.events.last() == stream(q).events.last());
            }
            if q.state is End {
                assert(q.next() is End);
            }
        },
        NextEvent::End(_) => {
            lemma_slots_push(p.states, p.state);
            assert(slots(p.states) =~= Seq::<Slot>::empty());
        },
        NextEvent::Failed(_) => {},
    }
}

/// No more than `limit` collections are open at any time.
pub open spec fn never_deeper(open: Seq<Slot>, events: Seq<EventView>, limit: nat) -> bool
    decreases events.len(),
{
    &&& depth_of(open) <= limit
    &&& events.len() > 0 ==> match nested(open, events[0]) {
        Some(o) => never_deeper(o, events.drop_first(), limit),
        None => true,
    }
}

proof fn lemma_never_deeper(p: Parse)
    requires
        framed(p),
        p.stacked(),
        steady(p.scan),
        !p.errored,
        p.depth == depth_of(open_slots(p)),
        p.depth <= p.limits.max_depth,
    ensures
        never_deeper(open_slots(p), stream(p).events, p.limits.max_depth as nat),
    decreases p.rank(),
{
    lemma_next_event(p);
    lemma_next_fits(p);
    crate::parser::progress::law_depth_is_limited(p);
    if let NextEvent::Event(e, q) = p.next() {
        lemma_never_deeper(q);
        assert(stream(p).events =~= seq![e] + stream(q).events);
        assert(stream(p).events.drop_first() =~= stream(q).events);
    }
}

/// However an input nests its collections, the events never have more than
/// `max_depth` of them open.
pub proof fn law_nesting_is_limited(b: Seq<u8>, limits: crate::limits::ResourceLimits)
    requires
        b.len() <= crate::scanner::cursor::MAX_INPUT,
    ensures
        never_deeper(
            seq![],
            stream(Parse::fresh(b, limits)).events,
            limits.max_depth as nat,
        ),
{
    let p = Parse::fresh(b, limits);
    lemma_slots_push(p.states, p.state);
    assert(slots(p.states) =~= Seq::<Slot>::empty());
    lemma_never_deeper(p);
}

/// The events of an input are balanced: no collection ends that is not the innermost
/// open one, documents start and end outside all collections, and in a stream without
/// an error every collection that starts also ends. The nodes in a mapping come in pairs,
/// and a document has exactly one root.
pub proof fn law_events_are_balanced(b: Seq<u8>, limits: crate::limits::ResourceLimits)
    requires
        b.len() <= crate::scanner::cursor::MAX_INPUT,
    ensures
        nested_all(seq![], stream(Parse::fresh(b, limits)).events) is Some,
        stream(Parse::fresh(b, limits)).error is None ==> nested_all(
            seq![],
            stream(Parse::fresh(b, limits)).events,
        ) == Some(Seq::<Slot>::empty()),
{
    let p = Parse::fresh(b, limits);
    lemma_slots_push(p.states, p.state);
    assert(slots(p.states) =~= Seq::<Slot>::empty());
    lemma_stream_nested(p);
}

/// The first event of an input is the start of the stream; without an error the last
/// is its end.
pub proof fn law_stream_is_framed(b: Seq<u8>, limits: crate::limits::ResourceLimits)
    requires
        b.len() <= crate::scanner::cursor::MAX_INPUT,
    ensures
        stream(Parse::fresh(b, limits)).events.len() > 0,
        stream(Parse::fresh(b, limits)).events[0].kind is StreamStart,
        stream(Parse::fresh(b, limits)).error is None ==> stream(
            Parse::fresh(b, limits),
        ).events.last().kind is StreamEnd,
{
    let p = Parse::fresh(b, limits);
    lemma_slots_push(p.states, p.state);
    assert(slots(p.states) =~= Seq::<Slot>::empty());
    lemma_stream_nested(p);
    lemma_next_event(p);
    lemma_next_fits(p);
    crate::scanner::frame::lemma_first_token(b, limits);
    lemma_filled(p);
    assert(p.next() is Event);
    if let NextEvent::Event(e, q) = p.next() {
        assert(q.rank() >= 0);
        assert(stream(p).events =~= seq![e] + stream(q).events);
    }
}

} // verus!
