//! Why parsing ends: every event leaves less to parse.
use crate::parser::event::{AnchorView, TagView};
use crate::parser::model::{NextEvent, Parse, Parsed, State};
use crate::scanner::model::{Next, Scan};
use crate::scanner::token::TokenKindView;
use vstd::prelude::*;

verus! {

/// The states that a finished node can be followed by.
pub open spec fn continuation(state: State) -> bool {
    match state {
        State::DocumentEnd => true,
        State::BlockSequenceEntry { first, .. } => !first,
        State::BlockMappingKey { first } => !first,
        State::BlockMappingValue => true,
        State::FlowSequenceEntry { first } => !first,
        State::FlowMappingKey { first, .. } => !first,
        State::FlowMappingValue { .. } => true,
        State::FlowMappingEmptyValue => true,
        _ => false,
    }
}

impl Parse {
    /// The states to return to are such as follow a node.
    pub open spec fn stacked(self) -> bool {
        forall|i: int| 0 <= i < self.states.len() ==> continuation(#[trigger] self.states[i])
    }

    /// How many events the current state can give without a token.
    pub open spec fn pace(self) -> int {
        match self.state {
            State::StreamStart => 1,
            State::DocumentStart => if self.implicit_end {
                1
            } else {
                4
            },
            State::DocumentContent => 3,
            State::DocumentEnd => 2,
            State::BlockSequenceEntry { .. } => 1,
            State::BlockMappingKey { .. } => match self.kind() {
                None => 2,
                Some(TokenKindView::Value) => 2,
                Some(_) => 1,
            },
            State::BlockMappingValue => match self.kind() {
                None => 3,
                Some(TokenKindView::Value) => 1,
                Some(_) => 2,
            },
            State::FlowSequenceEntry { first } => if first {
                20
            } else {
                1
            },
            State::FlowMappingKey { first, .. } => if first {
                3
            } else {
                1
            },
            State::FlowMappingValue { .. } => 2,
            State::FlowMappingEmptyValue => 2,
            State::End => 0,
        }
    }

    /// How much there is left to parse, without regard to the current state.
    pub open spec fn load(self) -> int {
        60 * self.todo() + 10 * self.states.len()
    }

    /// How much there is left to parse.
    pub open spec fn rank(self) -> int {
        self.load() + self.pace()
    }

    /// The same but for tokens read and what is declared.
    pub open spec fn same_place(self, o: Parse) -> bool {
        &&& self.states == o.states
        &&& self.implicit_end == o.implicit_end
        &&& self.depth == o.depth
        &&& self.limits == o.limits
        &&& self.errored == o.errored
        &&& self.scan.b == o.scan.b
        &&& self.state == o.state
        &&& steady(o.scan) ==> steady(self.scan)
    }
}

/// The scanner is in a state that scanning an input can reach.
pub open spec fn steady(s: Scan) -> bool {
    &&& crate::scanner::advance::sane(s)
    &&& crate::scanner::stream::counted(s)
    &&& s.b.len() <= crate::scanner::cursor::MAX_INPUT
}

/// Handing out a token keeps a scanner steady.
proof fn lemma_steady(s: Scan)
    requires
        steady(s),
    ensures
        match s.next_token() {
            Next::Token(_, t) => steady(t),
            Next::End(t) => steady(t),
            Next::Failed(_) => true,
        },
{
    reveal(Scan::next_token);
    crate::scanner::stream::lemma_front_cover(s, 0);
}

/// Reading a token ahead leaves the parser where it is.
pub proof fn lemma_filled(p: Parse)
    ensures
        p.filled() matches Ok(q) ==> {
            &&& q.same_place(p)
            &&& q.todo() == p.todo()
            &&& q.load() == p.load()
            &&& q.tags == p.tags
            &&& q.peeked is Some ==> q.taken().todo() == p.todo() - 1
            &&& p.peeked is Some ==> q == p
        },
{
    crate::scanner::frame::lemma_next_token(p.scan);
    if steady(p.scan) {
        lemma_steady(p.scan);
    }
}

/// Reading properties leaves the parser where it is.
pub proof fn lemma_properties(p: Parse, anchor: AnchorView, tag: TagView)
    ensures
        p.properties(anchor, tag) matches Ok((q, a, t)) ==> {
            &&& q.same_place(p)
            &&& q.todo() <= p.todo()
            &&& (a != anchor || t != tag) ==> q.todo() < p.todo()
        },
    decreases p.todo(),
{
    lemma_filled(p);
    if let Ok(f) = p.filled() {
        let next = f.taken();
        if 0 <= next.todo() < p.todo() {
            match f.kind() {
                Some(TokenKindView::Anchor(name)) => {
                    lemma_properties(next, Some(name), tag);
                },
                Some(TokenKindView::Tag { handle, suffix }) => {
                    if let Ok(t) = f.resolve(handle, suffix, f.span()) {
                        lemma_properties(next, anchor, Some(t));
                    }
                },
                _ => {},
            }
        }
    }
}

/// Returning to a state on the stack.
proof fn lemma_pop(p: Parse)
    requires
        p.stacked(),
    ensures
        p.pop().stacked(),
        p.pop().pace() <= 4,
        p.states.len() > 0 ==> p.pop().load() == p.load() - 10,
        p.states.len() == 0 ==> p.pop().load() == p.load() && p.pop().pace() == 0,
        p.close().stacked(),
        p.close().pace() <= 4,
        p.states.len() > 0 ==> p.close().load() == p.load() - 10,
        p.states.len() == 0 ==> p.close().load() == p.load() && p.close().pace() == 0,
{
    if p.states.len() > 0 {
        assert(continuation(p.states[p.states.len() - 1]));
        assert forall|i: int| 0 <= i < p.pop().states.len() implies continuation(
            #[trigger] p.pop().states[i],
        ) by {
            assert(continuation(p.states[i]));
        }
        assert forall|i: int| 0 <= i < p.close().states.len() implies continuation(
            #[trigger] p.close().states[i],
        ) by {
            assert(continuation(p.states[i]));
        }
    }
}

/// What a step keeps: the stack is in order, the depth is within its limit.
pub open spec fn orderly(p: Parse, parsed: Parsed) -> bool {
    parsed matches Ok((q, _)) ==> {
        &&& q.stacked()
        &&& q.scan.b == p.scan.b
        &&& steady(p.scan) ==> steady(q.scan)
        &&& q.limits == p.limits
        &&& q.errored == p.errored
        &&& 0 <= p.depth <= p.limits.max_depth ==> 0 <= q.depth <= q.limits.max_depth
    }
}

/// A node leaves at most `left` to parse.
spec fn node_leaves(p: Parse, parsed: Parsed, left: int) -> bool {
    &&& orderly(p, parsed)
    &&& parsed matches Ok((q, e)) ==> e is Some && q.rank() <= left
}

proof fn lemma_node_with(
    p: Parse,
    block: bool,
    indentless: bool,
    anchor: AnchorView,
    tag: TagView,
    full: int,
)
    requires
        p.stacked(),
        p.load() <= full,
        anchor is Some || tag is Some ==> p.load() <= full - 60,
    ensures
        node_leaves(p, p.node_with(block, indentless, anchor, tag), full + 4),
        !indentless ==> node_leaves(p, p.node_with(block, indentless, anchor, tag), full - 40),
{
    lemma_pop(p);
    lemma_pop(p.taken());
}

proof fn lemma_node(p: Parse, block: bool, indentless: bool)
    requires
        p.stacked(),
    ensures
        node_leaves(p, p.node(block, indentless), p.load() + 4),
        !indentless ==> node_leaves(p, p.node(block, indentless), p.load() - 40),
{
    lemma_properties(p, None, None);
    if let Ok((q, anchor, tag)) = p.properties(None, None) {
        lemma_node_with(q, block, indentless, anchor, tag, p.load());
    }
}

proof fn lemma_entry_node(p: Parse)
    requires
        p.stacked(),
    ensures
        node_leaves(p, p.entry_node(), p.load() + 4),
{
    lemma_filled(p);
    if let Ok(q) = p.filled() {
        lemma_properties(q, None, None);
        if let Ok((r, anchor, tag)) = q.properties(None, None) {
            lemma_pop(r);
            lemma_node_with(r, true, true, anchor, tag, p.load());
        }
        lemma_node(q, true, true);
    }
}

/// A step leaves less to parse.
spec fn shrinks(p: Parse, parsed: Parsed) -> bool {
    &&& orderly(p, parsed)
    &&& parsed matches Ok((q, Some(_))) ==> q.rank() < p.rank()
}

/// Reading directives leaves the parser where it is.
pub proof fn lemma_directives(p: Parse, has_version: bool, has_any: bool)
    ensures
        p.directives(has_version, has_any) matches Ok((q, _)) ==> {
            &&& q.same_place(p)
            &&& q.todo() <= p.todo()
        },
    decreases p.todo(),
{
    lemma_filled(p);
    if let Ok(f) = p.filled() {
        let next = f.taken();
        if 0 <= next.todo() < p.todo() {
            match f.kind() {
                Some(TokenKindView::VersionDirective { .. }) => {
                    lemma_directives(next, true, true);
                },
                Some(TokenKindView::TagDirective { handle, prefix }) => {
                    lemma_directives(
                        Parse { tags: next.tags.push((handle, prefix)), ..next },
                        has_version,
                        true,
                    );
                },
                Some(TokenKindView::DocumentEnd) => {
                    lemma_directives(next, has_version, has_any);
                },
                _ => {},
            }
        }
    }
}

proof fn lemma_document(p: Parse)
    requires
        p.stacked(),
    ensures
        p.state is StreamStart ==> shrinks(p, p.stream_start()),
        p.state is DocumentStart ==> shrinks(p, p.document_start()),
        p.state is DocumentContent ==> shrinks(p, p.document_content()),
        p.state is DocumentEnd ==> shrinks(p, p.document_end()),
{
    lemma_filled(p);
    lemma_directives(Parse { tags: crate::parser::model::default_tags(), ..p }, false, false);
    if let Ok(q) = p.filled() {
        let r = q.push(State::DocumentEnd);
        lemma_node(r, true, false);
    }
}

proof fn lemma_block(p: Parse)
    requires
        p.stacked(),
    ensures
        p.state matches State::BlockSequenceEntry { indentless, .. } ==> shrinks(
            p,
            p.block_sequence_entry(indentless),
        ),
        p.state is BlockMappingKey ==> shrinks(p, p.block_mapping_key()),
        p.state is BlockMappingValue ==> shrinks(p, p.block_mapping_value()),
{
    lemma_filled(p);
    if let Ok(q) = p.filled() {
        lemma_pop(q);
        lemma_pop(q.taken());
        lemma_filled(q.taken());
        if let Ok(r) = q.taken().filled() {
            if let State::BlockSequenceEntry { indentless, .. } = p.state {
                lemma_entry_node(r.push(State::BlockSequenceEntry { first: false, indentless }));
            }
            lemma_node(r.push(State::BlockMappingValue), true, true);
            lemma_node(r.push(State::BlockMappingKey { first: false }), true, true);
        }
    }
}

/// Reading a comma leaves the parser where it is.
pub proof fn lemma_separated(p: Parse, first: bool, end: TokenKindView, expected: Seq<char>)
    ensures
        p.separated(first, end, expected) matches Ok(q) ==> {
            &&& q.same_place(p)
            &&& q.todo() <= p.todo()
            &&& !first ==> q.kind() == Some(end) || q.todo() < p.todo()
        },
{
    lemma_filled(p);
    if let Ok(q) = p.filled() {
        lemma_filled(q.taken());
    }
}

proof fn lemma_flow_sequence(p: Parse, first: bool)
    requires
        p.stacked(),
        p.state == (State::FlowSequenceEntry { first }),
    ensures
        shrinks(p, p.flow_sequence_entry(first)),
{
    lemma_separated(p, first, TokenKindView::FlowSequenceEnd, "',' or ']'"@);
    if let Ok(q) = p.separated(first, TokenKindView::FlowSequenceEnd, "',' or ']'"@) {
        lemma_pop(q.taken());
        lemma_node(q.push(State::FlowSequenceEntry { first: false }), false, false);
    }
}

proof fn lemma_flow_pair(p: Parse, implicit: bool, full: int)
    requires
        p.stacked(),
        p.load() <= full,
    ensures
        orderly(p, p.flow_mapping_pair(implicit)),
        p.flow_mapping_pair(implicit) matches Ok((q, Some(_))) ==> q.rank() <= full + 2,
        p.kind() == Some(TokenKindView::FlowMappingEnd) ==> (p.flow_mapping_pair(
            implicit,
        ) matches Ok((q, Some(_))) ==> q.rank() <= full - 50),
{
    lemma_pop(p.taken());
    lemma_filled(p.taken());
    if let Ok(r) = p.taken().filled() {
        lemma_node(r.push(State::FlowMappingValue { implicit }), false, false);
    }
    lemma_node(p.push(State::FlowMappingEmptyValue), false, false);
}

proof fn lemma_flow_mapping(p: Parse)
    requires
        p.stacked(),
    ensures
        p.state matches State::FlowMappingKey { first, implicit } ==> shrinks(
            p,
            p.flow_mapping_key(first, implicit),
        ),
        p.state matches State::FlowMappingValue { implicit } ==> shrinks(
            p,
            p.flow_mapping_value(implicit),
        ),
        p.state is FlowMappingEmptyValue ==> shrinks(p, p.flow_mapping_empty_value()),
{
    lemma_filled(p);
    if let State::FlowMappingKey { first, implicit } = p.state {
        lemma_separated(p, first, TokenKindView::FlowMappingEnd, "',' or '}'"@);
        if let Ok(q) = p.separated(first, TokenKindView::FlowMappingEnd, "',' or '}'"@) {
            lemma_flow_pair(q, implicit, q.load());
        }
    }
    if let Ok(q) = p.filled() {
        lemma_pop(q);
        lemma_filled(q.taken());
        if let State::FlowMappingValue { implicit } = p.state {
            if let Ok(r) = q.taken().filled() {
                lemma_node(
                    r.push(State::FlowMappingKey { first: false, implicit }),
                    false,
                    false,
                );
            }
        }
    }
}

/// Every event leaves less to parse, and keeps the stack of states in order.
pub proof fn lemma_next_event(p: Parse)
    requires
        p.stacked(),
    ensures
        match p.next() {
            NextEvent::Event(_, q) => q.stacked() && q.rank() < p.rank() && q.errored == p.errored
                && q.scan.b == p.scan.b && (steady(p.scan) ==> steady(q.scan)),
            NextEvent::End(q) => q.stacked() && q.errored == p.errored,
            NextEvent::Failed(_) => true,
        },
{
    lemma_document(p);
    lemma_block(p);
    if let State::FlowSequenceEntry { first } = p.state {
        lemma_flow_sequence(p, first);
    }
    lemma_flow_mapping(p);
}

/// The number of open collections never exceeds the depth limit.
pub proof fn law_depth_is_limited(p: Parse)
    requires
        p.stacked(),
        0 <= p.depth <= p.limits.max_depth,
    ensures
        match p.next() {
            NextEvent::Event(_, q) => 0 <= q.depth <= q.limits.max_depth && q.limits == p.limits,
            NextEvent::End(q) => 0 <= q.depth <= q.limits.max_depth && q.limits == p.limits,
            NextEvent::Failed(_) => true,
        },
{
    lemma_document(p);
    lemma_block(p);
    if let State::FlowSequenceEntry { first } = p.state {
        lemma_flow_sequence(p, first);
    }
    lemma_flow_mapping(p);
}

} // verus!
