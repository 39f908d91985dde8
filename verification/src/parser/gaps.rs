//! What the parser makes of nodes that are left out, of the properties of a node and of
//! the marks between documents.
use crate::parser::event::{EventKindView, EventView};
use crate::parser::model::{Parse, Parsed, State};
use crate::scanner::token::TokenKindView;
use crate::types::ScalarStyle;
use vstd::prelude::*;

verus! {

/// An event of an empty plain scalar without properties.
pub open spec fn gives_empty(r: Parsed) -> bool {
    r matches Ok((_, Some(EventView {
        kind: EventKindView::Scalar { value, style, anchor, tag },
        ..
    }))) && value.len() == 0 && style == ScalarStyle::Plain && anchor is None && tag is None
}

/// The state that follows.
pub open spec fn state_of(r: Parsed) -> Option<State> {
    match r {
        Ok((p, _)) => Some(p.state),
        Err(_) => None,
    }
}

/// A part of a block collection that is left out is an empty plain scalar: an entry
/// followed by the next or by the end, a key or a value followed by the next indicator or
/// by the end, a value whose indicator is missing, and a key in front of which no
/// indicator stands.
pub proof fn law_missing_block_parts(p: Parse, q: Parse, indentless: bool)
    requires
        p.peeked is Some,
        p.taken().filled() == Ok::<Parse, crate::error::ErrorView>(q),
        q.peeked is Some,
    ensures
        p.kind() == Some(TokenKindView::BlockEntry) && (q.kind() == Some(TokenKindView::BlockEntry)
            || q.kind() == Some(TokenKindView::BlockEnd)) ==> {
            let r = p.block_sequence_entry(indentless);
            gives_empty(r) && state_of(r) == Some(
                State::BlockSequenceEntry { first: false, indentless },
            )
        },
        p.kind() == Some(TokenKindView::Key) && (q.kind() == Some(TokenKindView::Key) || q.kind()
            == Some(TokenKindView::Value) || q.kind() == Some(TokenKindView::BlockEnd)) ==> {
            let r = p.block_mapping_key();
            gives_empty(r) && state_of(r) == Some(State::BlockMappingValue)
        },
        p.kind() == Some(TokenKindView::Value) ==> gives_empty(p.block_mapping_key()) && state_of(
            p.block_mapping_key(),
        ) == Some(State::BlockMappingValue),
        p.kind() == Some(TokenKindView::Value) && (q.kind() == Some(TokenKindView::Key) || q.kind()
            == Some(TokenKindView::Value) || q.kind() == Some(TokenKindView::BlockEnd)) ==> {
            let r = p.block_mapping_value();
            gives_empty(r) && state_of(r) == Some(State::BlockMappingKey { first: false })
        },
        p.kind() != Some(TokenKindView::Value) ==> {
            let r = p.block_mapping_value();
            gives_empty(r) && state_of(r) == Some(State::BlockMappingKey { first: false })
        },
{
    reveal_strlit("");
}

/// A part of a flow mapping that is left out is an empty plain scalar: a key in front of a
/// value indicator, a comma or the closing brace, a value in front of a comma or the
/// closing brace, and the value of an entry without indicators.
pub proof fn law_missing_flow_parts(p: Parse, q: Parse, implicit: bool)
    requires
        p.peeked is Some,
        p.taken().filled() == Ok::<Parse, crate::error::ErrorView>(q),
        q.peeked is Some,
    ensures
        p.kind() == Some(TokenKindView::Key) && (q.kind() == Some(TokenKindView::Value) || q.kind()
            == Some(TokenKindView::FlowEntry) || q.kind() == Some(TokenKindView::FlowMappingEnd))
            ==> {
            let r = p.flow_mapping_key(true, implicit);
            gives_empty(r) && state_of(r) == Some(State::FlowMappingValue { implicit })
        },
        p.kind() == Some(TokenKindView::Value) ==> {
            let r = p.flow_mapping_key(true, implicit);
            gives_empty(r) && state_of(r) == Some(State::FlowMappingValue { implicit })
        },
        p.kind() == Some(TokenKindView::Value) && (q.kind() == Some(TokenKindView::FlowEntry)
            || q.kind() == Some(TokenKindView::FlowMappingEnd)) ==> {
            let r = p.flow_mapping_value(implicit);
            gives_empty(r) && state_of(r) == Some(State::FlowMappingKey { first: false, implicit })
        },
        p.kind() != Some(TokenKindView::Value) ==> {
            let r = p.flow_mapping_value(implicit);
            gives_empty(r) && state_of(r) == Some(State::FlowMappingKey { first: false, implicit })
        },
        gives_empty(p.flow_mapping_empty_value()),
        state_of(p.flow_mapping_empty_value()) == Some(
            State::FlowMappingKey { first: false, implicit: false },
        ),
{
    reveal_strlit("");
    reveal_strlit("',' or '}'");
}

/// Entries of a flow collection are separated by commas: behind an entry stands a comma or
/// the closing bracket, and anything else is an error. A pair inside a flow sequence is a
/// mapping of its own.
pub proof fn law_flow_entries_are_separated(p: Parse)
    requires
        p.peeked is Some,
        p.depth < p.limits.max_depth,
    ensures
        p.kind() == Some(TokenKindView::FlowSequenceEnd) ==> {
            p.flow_sequence_entry(false) matches Ok((_, Some(e))) && e.kind is SequenceEnd
        },
        p.kind() == Some(TokenKindView::FlowMappingEnd) ==> {
            p.flow_mapping_key(false, false) matches Ok((_, Some(e))) && e.kind is MappingEnd
        },
        p.kind() != Some(TokenKindView::FlowSequenceEnd) && p.kind() != Some(
            TokenKindView::FlowEntry,
        ) ==> p.flow_sequence_entry(false) is Err,
        p.kind() != Some(TokenKindView::FlowMappingEnd) && p.kind() != Some(
            TokenKindView::FlowEntry,
        ) ==> p.flow_mapping_key(false, false) is Err,
        p.kind() == Some(TokenKindView::Key) || p.kind() == Some(TokenKindView::Value) ==> {
            p.flow_sequence_entry(true) matches Ok((q, Some(e))) && e.kind is MappingStart
                && q.depth == p.depth + 1
        },
{
}

/// Properties alone make an empty scalar with them; an alias takes none; a scalar keeps
/// its text and style and gets them; without properties there must be content.
pub proof fn law_node_properties(
    p: Parse,
    anchor: Option<Seq<char>>,
    tag: Option<(Seq<char>, Seq<char>)>,
    block: bool,
    indentless: bool,
)
    requires
        p.peeked is Some,
    ensures
        p.kind() == Some(TokenKindView::BlockEnd) || p.kind() == Some(TokenKindView::FlowEntry)
            || p.kind() == Some(TokenKindView::StreamEnd) ==> {
            let r = p.node_with(block, indentless, anchor, tag);
            if anchor is None && tag is None {
                r is Err
            } else {
                r matches Ok((_, Some(EventView {
                    kind: EventKindView::Scalar { value, style, anchor: a, tag: t },
                    ..
                }))) && value.len() == 0 && style == ScalarStyle::Plain && a == anchor && t == tag
            }
        },
        p.kind() matches Some(TokenKindView::Alias(name)) ==> {
            let r = p.node_with(block, indentless, anchor, tag);
            if anchor is None && tag is None {
                r matches Ok((_, Some(e))) && e.kind == (EventKindView::Alias { name })
            } else {
                r is Err
            }
        },
        p.kind() matches Some(TokenKindView::Scalar { value, style }) ==> {
            p.node_with(block, indentless, anchor, tag) matches Ok((_, Some(e))) && e.kind == (
            EventKindView::Scalar { value, style, anchor, tag })
        },
{
    reveal_strlit("");
}

/// What stands between documents: `...` ends one explicitly and anything else implicitly;
/// a document without content is an empty plain scalar.
pub proof fn law_document_marks(p: Parse)
    requires
        p.peeked is Some,
    ensures
        p.document_end() matches Ok((q, Some(e))) && q.implicit_end == (p.kind() != Some(
            TokenKindView::DocumentEnd,
        )) && e.kind == (EventKindView::DocumentEnd { explicit: !q.implicit_end }),
        p.kind() == Some(TokenKindView::DocumentEnd) || p.kind() == Some(
            TokenKindView::DocumentStart,
        ) || p.kind() == Some(TokenKindView::StreamEnd) ==> gives_empty(p.document_content()),
{
    reveal_strlit("");
}

/// The start of a document: `---` starts one explicitly; content starts one implicitly,
/// but not behind a document that `...` did not end; without either the stream ends.
pub proof fn law_document_start(p: Parse)
    requires
        p.peeked is Some,
        0 <= p.taken().todo(),
        !(p.kind() matches Some(TokenKindView::VersionDirective { .. })),
        !(p.kind() matches Some(TokenKindView::TagDirective { .. })),
        p.kind() != Some(TokenKindView::DocumentEnd),
    ensures
        ({
            let r = p.document_start();
            if p.kind() == Some(TokenKindView::DocumentStart) {
                r matches Ok((_, Some(e))) && e.kind == (EventKindView::DocumentStart {
                    explicit: true,
                })
            } else if p.kind() == Some(TokenKindView::StreamEnd) {
                r matches Ok((_, Some(e))) && e.kind is StreamEnd
            } else if p.implicit_end {
                r is Err
            } else {
                r matches Ok((_, Some(e))) && e.kind == (EventKindView::DocumentStart {
                    explicit: false,
                })
            }
        }),
{
}

/// Directives stand in front of a document: none behind a document that `...` did not
/// end, one `%YAML` at most, and `---` behind them.
pub proof fn law_directives(p: Parse, q: Parse, has_any: bool)
    requires
        p.peeked is Some,
        0 <= p.taken().todo(),
        p.taken().filled() == Ok::<Parse, crate::error::ErrorView>(q),
    ensures
        p.kind() matches Some(TokenKindView::VersionDirective { .. }) ==> (p.implicit_end
            ==> p.directives(false, has_any) is Err) && p.directives(true, has_any) is Err,
        p.kind() matches Some(TokenKindView::TagDirective { .. }) && p.implicit_end ==> p.directives(
            false,
            has_any,
        ) is Err,
        p.kind() matches Some(TokenKindView::VersionDirective { .. }) && q.kind() == Some(
            TokenKindView::StreamEnd,
        ) ==> p.document_start() is Err,
{
    let d = Parse { tags: crate::parser::model::default_tags(), ..p };
    let e = Parse { tags: crate::parser::model::default_tags(), ..q };
    assert(d.taken().filled() == Ok::<Parse, crate::error::ErrorView>(e));
    if p.kind() matches Some(TokenKindView::VersionDirective { .. }) {
        if q.kind() == Some(TokenKindView::StreamEnd) && !p.implicit_end {
            assert(d.directives(false, false) == d.taken().directives(true, true));
            assert(d.taken().directives(true, true) == Ok::<_, crate::error::ErrorView>((e, true)));
        }
    }
}

} // verus!
