//! Composer: builds the tree of [`Node`]s of each document from parser events.
//!
//! An alias stands for a copy of the node its anchor names. Anchors belong to the
//! document they stand in. The limits bound how many aliases are expanded and how
//! many nodes a document has, counting those that aliases copy.
use crate::error::{Error, ErrorKind, ErrorKindView, ErrorView, ParserConfig, Result};
use crate::limits::ResourceLimits;
use crate::node::{copy_node, Mapping, Node, NodeView, Scalar, Sequence, TagValue};
use crate::parser::event::{Event, EventKind, EventKindView, EventView, TagView};
use crate::parser::stream::{collect_events, Stream};
use crate::scanner::cursor::MAX_INPUT;
use crate::text::{cow_str, same_text};
use crate::types::{copy_cow, Position, ScalarStyle, Span, Tag};
use std::borrow::Cow;
use vstd::prelude::*;
use vstd::string::*;

verus! {

/// An anchored node: its anchor, its value and the number of nodes in it.
pub struct AnchoredView {
    pub name: Seq<char>,
    pub node: NodeView,
    pub size: int,
}

/// What is known of a document while it is composed.
pub struct Known {
    pub anchors: Seq<AnchoredView>,
    /// The nodes composed so far.
    pub nodes: int,
    /// The aliases expanded so far.
    pub aliases: int,
}

/// What stops composition: an error, or the end of the events.
pub type Stop = Option<ErrorView>;

/// Something composed, the index behind it, and what is known then.
pub type Composed<T> = core::result::Result<(T, int, Known), Stop>;

/// The last node with the given anchor.
pub open spec fn anchored(anchors: Seq<AnchoredView>, name: Seq<char>) -> Option<AnchoredView>
    decreases anchors.len(),
{
    if anchors.len() == 0 {
        None
    } else if anchors.last().name == name {
        Some(anchors.last())
    } else {
        anchored(anchors.drop_last(), name)
    }
}

impl Known {
    /// Nothing yet.
    pub open spec fn nothing() -> Known {
        Known { anchors: seq![], nodes: 0, aliases: 0 }
    }

    /// With `n` more nodes, unless those are too many.
    pub open spec fn counted(self, n: int, limits: ResourceLimits, span: Span) -> core::result::Result<
        Known,
        Stop,
    > {
        if self.nodes + n > limits.max_node_count {
            Err(
                Some(
                    ErrorView {
                        kind: ErrorKindView::NodeCountExceeded { limit: limits.max_node_count },
                        span: Some(span),
                    },
                ),
            )
        } else {
            Ok(Known { nodes: self.nodes + n, ..self })
        }
    }

    /// With a node under its anchor, if it has one.
    pub open spec fn named(self, anchor: Option<Seq<char>>, node: NodeView, size: int) -> Known {
        match anchor {
            Some(name) => Known {
                anchors: self.anchors.push(AnchoredView { name, node, size }),
                ..self
            },
            None => self,
        }
    }
}

/// The tag of a node: the prefix and the suffix of the event's tag in a row.
pub open spec fn tag_of(tag: TagView, span: Span) -> Option<TagValue> {
    match tag {
        Some((prefix, suffix)) => Some(TagValue { value: prefix + suffix, span }),
        None => None,
    }
}

/// The node that an alias stands for.
pub open spec fn alias_at(
    name: Seq<char>,
    span: Span,
    i: int,
    known: Known,
    limits: ResourceLimits,
) -> Composed<NodeView> {
    match anchored(known.anchors, name) {
        None => Err(
            Some(ErrorView { kind: ErrorKindView::UndefinedAlias(name), span: Some(span) }),
        ),
        Some(a) => if known.aliases + 1 > limits.max_alias_expansions {
            Err(
                Some(
                    ErrorView {
                        kind: ErrorKindView::AliasLimitExceeded {
                            limit: limits.max_alias_expansions,
                        },
                        span: Some(span),
                    },
                ),
            )
        } else {
            match known.counted(a.size, limits, span) {
                Err(stop) => Err(stop),
                Ok(k) => Ok((a.node, i + 1, Known { aliases: k.aliases + 1, ..k })),
            }
        },
    }
}

/// The node that starts at the `i`th event.
pub open spec fn node_at(events: Seq<EventView>, i: int, known: Known, limits: ResourceLimits) -> Composed<
    NodeView,
>
    decreases events.len() - i, 0int,
{
    if !(0 <= i < events.len()) {
        Err(None)
    } else {
        let span = events[i].span;
        match events[i].kind {
            EventKindView::Alias { name } => alias_at(name, span, i, known, limits),
            EventKindView::Scalar { value, style, anchor, tag } => match known.counted(
                1,
                limits,
                span,
            ) {
                Err(stop) => Err(stop),
                Ok(k) => {
                    let node = NodeView::Scalar { value, tag: tag_of(tag, span), style, span };
                    Ok((node, i + 1, k.named(anchor, node, 1)))
                },
            },
            EventKindView::SequenceStart { anchor, tag, style } => match known.counted(
                1,
                limits,
                span,
            ) {
                Err(stop) => Err(stop),
                Ok(k) => match items_at(events, i + 1, k, limits, seq![]) {
                    Err(stop) => Err(stop),
                    Ok((items, end, done)) => {
                        let node = NodeView::Sequence {
                            items,
                            tag: tag_of(tag, span),
                            style,
                            span: span.merged(events[end].span),
                        };
                        Ok((node, end + 1, done.named(anchor, node, done.nodes - known.nodes)))
                    },
                },
            },
            EventKindView::MappingStart { anchor, tag, style } => match known.counted(
                1,
                limits,
                span,
            ) {
                Err(stop) => Err(stop),
                Ok(k) => match entries_at(events, i + 1, k, limits, seq![]) {
                    Err(stop) => Err(stop),
                    Ok((entries, end, done)) => {
                        let node = NodeView::Mapping {
                            entries,
                            tag: tag_of(tag, span),
                            style,
                            span: span.merged(events[end].span),
                        };
                        Ok((node, end + 1, done.named(anchor, node, done.nodes - known.nodes)))
                    },
                },
            },
            _ => Err(
                Some(
                    crate::error::unexpected("node content"@, events[i].kind.name(), span),
                ),
            ),
        }
    }
}

/// The items of a sequence from the `i`th event on, behind those already `done`, and
/// the index of the event that ends it.
pub open spec fn items_at(
    events: Seq<EventView>,
    i: int,
    known: Known,
    limits: ResourceLimits,
    done: Seq<NodeView>,
) -> Composed<Seq<NodeView>>
    decreases events.len() - i, 1int,
{
    if !(0 <= i < events.len()) {
        Err(None)
    } else if events[i].kind is SequenceEnd {
        Ok((done, i, known))
    } else {
        match node_at(events, i, known, limits) {
            Err(stop) => Err(stop),
            Ok((node, next, k)) => if i < next <= events.len() {
                items_at(events, next, k, limits, done.push(node))
            } else {
                Err(None)
            },
        }
    }
}

/// The entries of a mapping from the `i`th event on, behind those already `done`,
/// and the index of the event that ends it.
pub open spec fn entries_at(
    events: Seq<EventView>,
    i: int,
    known: Known,
    limits: ResourceLimits,
    done: Seq<(NodeView, NodeView)>,
) -> Composed<Seq<(NodeView, NodeView)>>
    decreases events.len() - i, 1int,
{
    if !(0 <= i < events.len()) {
        Err(None)
    } else if events[i].kind is MappingEnd {
        Ok((done, i, known))
    } else {
        match node_at(events, i, known, limits) {
            Err(stop) => Err(stop),
            Ok((key, v, k)) => if i < v <= events.len() {
                match node_at(events, v, k, limits) {
                    Err(stop) => Err(stop),
                    Ok((value, next, m)) => if v < next <= events.len() {
                        entries_at(events, next, m, limits, done.push((key, value)))
                    } else {
                        Err(None)
                    },
                }
            } else {
                Err(None)
            },
        }
    }
}

/// The index of the next event that is neither the start of the stream nor the start
/// or end of a document.
pub open spec fn content_at(events: Seq<EventView>, i: int) -> int
    decreases events.len() - i,
{
    if 0 <= i < events.len() && (events[i].kind is StreamStart || events[i].kind is DocumentStart
        || events[i].kind is DocumentEnd) {
        content_at(events, i + 1)
    } else {
        i
    }
}

/// The next document of a stream.
pub enum NextDocument {
    /// A document, and the index behind its root.
    Document(NodeView, int),
    Failed(ErrorView),
    End,
}

/// The document that follows the first `i` events of a stream.
pub open spec fn document_at(stream: Stream, i: int, limits: ResourceLimits) -> NextDocument {
    let at = content_at(stream.events, i);
    if !(0 <= at < stream.events.len()) {
        match stream.error {
            Some(e) => NextDocument::Failed(e),
            None => NextDocument::End,
        }
    } else if stream.events[at].kind is StreamEnd {
        NextDocument::End
    } else {
        match node_at(stream.events, at, Known::nothing(), limits) {
            Ok((node, next, _)) => NextDocument::Document(node, next),
            Err(Some(e)) => NextDocument::Failed(e),
            Err(None) => NextDocument::Failed(
                match stream.error {
                    Some(e) => e,
                    None => ErrorView { kind: ErrorKindView::UnexpectedEof, span: None },
                },
            ),
        }
    }
}

/// All documents of a stream behind its first `i` events, behind those already
/// `done`, or the first error.
pub open spec fn documents_at(
    stream: Stream,
    i: int,
    limits: ResourceLimits,
    done: Seq<NodeView>,
) -> core::result::Result<Seq<NodeView>, ErrorView>
    decreases stream.events.len() - i,
{
    match document_at(stream, i, limits) {
        NextDocument::End => Ok(done),
        NextDocument::Failed(e) => Err(e),
        NextDocument::Document(node, next) => if i < next <= stream.events.len() {
            documents_at(stream, next, limits, done.push(node))
        } else {
            Ok(done)
        },
    }
}

/// All documents of a source text, or the first error.
pub open spec fn documents(source: Seq<char>) -> core::result::Result<Seq<NodeView>, ErrorView> {
    let limits = crate::limits::default_limits();
    documents_at(
        crate::parser::stream::stream(
            crate::parser::model::Parse::fresh(vstd::utf8::encode_utf8(source), limits),
        ),
        0,
        limits,
        seq![],
    )
}

/// The root of the first document of a source text; an empty scalar where there is
/// none. Every document of the text must be valid.
pub open spec fn first_document(source: Seq<char>) -> core::result::Result<NodeView, ErrorView> {
    match documents(source) {
        Err(e) => Err(e),
        Ok(nodes) => Ok(
            if nodes.len() > 0 {
                nodes[0]
            } else {
                NodeView::Scalar {
                    value: ""@,
                    tag: None,
                    style: ScalarStyle::Plain,
                    span: crate::types::point(Position::origin()),
                }
            },
        ),
    }
}

/// An alias stands for the node that last had its anchor: whatever is composed, a node with
/// an anchor is what an alias of that name is composed to, as long as the limits allow it.
pub proof fn law_alias_stands_for_its_node(
    events: Seq<EventView>,
    i: int,
    j: int,
    known: Known,
    limits: ResourceLimits,
    name: Seq<char>,
)
    requires
        node_at(events, i, known, limits) is Ok,
        events[i].kind matches EventKindView::Scalar { anchor, .. } && anchor == Some(name)
            || (events[i].kind matches EventKindView::SequenceStart { anchor, .. } && anchor == Some(
            name,
        )) || (events[i].kind matches EventKindView::MappingStart { anchor, .. } && anchor == Some(
            name,
        )),
        0 <= j < events.len(),
        events[j].kind == (EventKindView::Alias { name }),
    ensures
        ({
            let (n, _, k) = node_at(events, i, known, limits)->Ok_0;
            match node_at(events, j, k, limits) {
                Ok((m, next, _)) => m == n && next == j + 1,
                Err(Some(e)) => e.kind is AliasLimitExceeded || e.kind is NodeCountExceeded,
                Err(None) => false,
            }
        }),
{
    let (n, _, k) = node_at(events, i, known, limits)->Ok_0;
    assert(k.anchors.last().name == name && k.anchors.last().node == n);
    assert(anchored(k.anchors, name) == Some(k.anchors.last()));
}

/// A scalar becomes a node with its text, its style and its tag, which is the prefix and
/// the suffix of the tag in a row; a collection keeps its style and gets its tag so.
pub proof fn law_node_keeps_its_properties(
    events: Seq<EventView>,
    i: int,
    known: Known,
    limits: ResourceLimits,
    prefix: Seq<char>,
    suffix: Seq<char>,
)
    requires
        0 <= i < events.len(),
        node_at(events, i, known, limits) is Ok,
    ensures
        ({
            let (n, _, _) = node_at(events, i, known, limits)->Ok_0;
            &&& events[i].kind matches EventKindView::Scalar { value, style, tag, .. } ==> {
                &&& n is Scalar
                &&& n->Scalar_value == value
                &&& n->Scalar_style == style
                &&& tag is None ==> n.tag() is None
                &&& tag == Some((prefix, suffix)) ==> n.tag() is Some && n.tag()->0.value == prefix
                    + suffix
            }
            &&& events[i].kind matches EventKindView::SequenceStart { style, tag, .. } ==> {
                &&& n is Sequence
                &&& n->Sequence_style == style
                &&& tag is None ==> n.tag() is None
                &&& tag == Some((prefix, suffix)) ==> n.tag() is Some && n.tag()->0.value == prefix
                    + suffix
            }
            &&& events[i].kind matches EventKindView::MappingStart { style, tag, .. } ==> {
                &&& n is Mapping
                &&& n->Mapping_style == style
                &&& tag is None ==> n.tag() is None
                &&& tag == Some((prefix, suffix)) ==> n.tag() is Some && n.tag()->0.value == prefix
                    + suffix
            }
        }),
{
}

/// Whether some events are those of `n` documents with one scalar each.
pub open spec fn scalar_documents(events: Seq<EventView>, n: nat) -> bool {
    &&& events.len() == 3 * n + 2
    &&& events[0].kind is StreamStart
    &&& events[3 * n as int + 1].kind is StreamEnd
    &&& forall|k: int| 0 <= k < n ==> #[trigger] scalar_document(events, k)
}

/// Whether the `k`th document has one scalar.
pub open spec fn scalar_document(events: Seq<EventView>, k: int) -> bool {
    &&& events[3 * k + 1].kind is DocumentStart
    &&& events[3 * k + 2].kind is Scalar
    &&& events[3 * k + 3].kind is DocumentEnd
}

proof fn lemma_scalar_documents(
    stream: Stream,
    n: nat,
    k: int,
    limits: ResourceLimits,
    done: Seq<NodeView>,
)
    requires
        scalar_documents(stream.events, n),
        0 <= k <= n,
        done.len() == k,
        limits.max_node_count > 0,
        forall|j: int|
            0 <= j < k ==> (#[trigger] done[j]) is Scalar && done[j]->Scalar_value
                == stream.events[3 * j + 2].kind->Scalar_value,
    ensures
        documents_at(stream, 3 * k, limits, done) matches Ok(nodes) && nodes.len() == n && forall|
            j: int,
        |
            0 <= j < n ==> (#[trigger] nodes[j]) is Scalar && nodes[j]->Scalar_value
                == stream.events[3 * j + 2].kind->Scalar_value,
    decreases n - k,
{
    let events = stream.events;
    let from = 3 * k;
    if k > 0 {
        assert(scalar_document(events, k - 1));
    }
    reveal_with_fuel(content_at, 4);
    if k < n {
        assert(scalar_document(events, k));
        assert(content_at(events, from) == 3 * k + 2);
        let node = node_at(events, 3 * k + 2, Known::nothing(), limits)->Ok_0.0;
        assert(document_at(stream, from, limits) == NextDocument::Document(node, 3 * k + 3));
        lemma_scalar_documents(stream, n, k + 1, limits, done.push(node));
    } else {
        assert(content_at(events, from) == 3 * n + 1);
        assert(document_at(stream, from, limits) is End);
    }
}

/// Every document of a stream is composed, in the order of the stream: documents of one
/// scalar each become as many nodes with their texts.
pub proof fn law_documents_come_in_order(stream: Stream, n: nat, limits: ResourceLimits)
    requires
        scalar_documents(stream.events, n),
        limits.max_node_count > 0,
    ensures
        documents_at(stream, 0, limits, seq![]) matches Ok(nodes) && nodes.len() == n && forall|
            j: int,
        |
            0 <= j < n ==> (#[trigger] nodes[j]) is Scalar && nodes[j]->Scalar_value
                == stream.events[3 * j + 2].kind->Scalar_value,
{
    lemma_scalar_documents(stream, n, 0, limits, seq![]);
}

/// The counts are within their limits.
pub open spec fn limited(known: Known, limits: ResourceLimits) -> bool {
    known.nodes <= limits.max_node_count && known.aliases <= limits.max_alias_expansions
}

/// Composing a node keeps the numbers of nodes and of expanded aliases within their
/// limits, whatever the events are.
pub proof fn law_composition_is_limited(
    events: Seq<EventView>,
    i: int,
    known: Known,
    limits: ResourceLimits,
)
    requires
        limited(known, limits),
    ensures
        node_at(events, i, known, limits) matches Ok((_, _, k)) ==> limited(k, limits),
    decreases events.len() - i, 0int,
{
    if 0 <= i < events.len() {
        let span = events[i].span;
        if let Ok(k) = known.counted(1, limits, span) {
            lemma_items_limited(events, i + 1, k, limits, seq![]);
            lemma_entries_limited(events, i + 1, k, limits, seq![]);
        }
    }
}

proof fn lemma_items_limited(
    events: Seq<EventView>,
    i: int,
    known: Known,
    limits: ResourceLimits,
    done: Seq<NodeView>,
)
    requires
        limited(known, limits),
    ensures
        items_at(events, i, known, limits, done) matches Ok((_, _, k)) ==> limited(k, limits),
    decreases events.len() - i, 1int,
{
    if 0 <= i < events.len() && !(events[i].kind is SequenceEnd) {
        law_composition_is_limited(events, i, known, limits);
        if let Ok((node, next, k)) = node_at(events, i, known, limits) {
            if i < next <= events.len() {
                lemma_items_limited(events, next, k, limits, done.push(node));
            }
        }
    }
}

proof fn lemma_entries_limited(
    events: Seq<EventView>,
    i: int,
    known: Known,
    limits: ResourceLimits,
    done: Seq<(NodeView, NodeView)>,
)
    requires
        limited(known, limits),
    ensures
        entries_at(events, i, known, limits, done) matches Ok((_, _, k)) ==> limited(k, limits),
    decreases events.len() - i, 1int,
{
    if 0 <= i < events.len() && !(events[i].kind is MappingEnd) {
        law_composition_is_limited(events, i, known, limits);
        if let Ok((key, v, k)) = node_at(events, i, known, limits) {
            if i < v <= events.len() {
                law_composition_is_limited(events, v, k, limits);
                if let Ok((value, next, m)) = node_at(events, v, k, limits) {
                    if v < next <= events.len() {
                        lemma_entries_limited(events, next, m, limits, done.push((key, value)));
                    }
                }
            }
        }
    }
}

/// Content is looked for among the events.
proof fn lemma_content_at(events: Seq<EventView>, i: int)
    requires
        0 <= i <= events.len(),
    ensures
        i <= content_at(events, i) <= events.len(),
    decreases events.len() - i,
{
    if i < events.len() && (events[i].kind is StreamStart || events[i].kind is DocumentStart
        || events[i].kind is DocumentEnd) {
        lemma_content_at(events, i + 1);
    }
}

/// An anchored node.
struct Anchored<'a> {
    name: String,
    node: Node<'a>,
    size: usize,
}

/// What is known of a document while it is composed.
struct Context<'a> {
    anchors: Vec<Anchored<'a>>,
    nodes: usize,
    aliases: usize,
    limits: ResourceLimits,
}

spec fn anchored_views<'a>(s: Seq<Anchored<'a>>) -> Seq<AnchoredView> {
    Seq::new(
        s.len(),
        |i: int| AnchoredView { name: s[i].name@, node: s[i].node@, size: s[i].size as int },
    )
}

/// Whether what stopped composition is the given value.
spec fn stop_is(r: Option<Error>, stop: Stop) -> bool {
    match r {
        Some(e) => stop == Some(e@),
        None => stop is None,
    }
}

impl<'a> View for Context<'a> {
    type V = Known;

    closed spec fn view(&self) -> Known {
        Known {
            anchors: anchored_views(self.anchors@),
            nodes: self.nodes as int,
            aliases: self.aliases as int,
        }
    }
}

impl<'a> Context<'a> {
    /// The count of nodes is within its limit.
    spec fn wf(&self) -> bool {
        self.nodes <= self.limits.max_node_count
    }

    fn new(limits: ResourceLimits) -> (r: Self)
        ensures
            r@ == Known::nothing(),
            r.limits == limits,
            r.wf(),
    {
        let r = Context { anchors: Vec::new(), nodes: 0, aliases: 0, limits };
        assert(anchored_views(r.anchors@) =~= Seq::<AnchoredView>::empty());
        r
    }

    /// Counts `n` more nodes.
    fn count(&mut self, n: usize, span: Span) -> (r: core::result::Result<(), Option<Error>>)
        requires
            old(self).wf(),
        ensures
            final(self).wf(),
            final(self).limits == old(self).limits,
            match old(self)@.counted(n as int, old(self).limits, span) {
                Ok(k) => r is Ok && final(self)@ == k,
                Err(stop) => r matches Err(e) && stop_is(e, stop),
            },
    {
        let limit: usize = self.limits.max_node_count;
        if n > limit - self.nodes {
            return Err(Some(Error::new(ErrorKind::NodeCountExceeded { limit }, span)));
        }
        self.nodes = self.nodes + n;
        Ok(())
    }

    /// Keeps a copy of a node under its anchor, if it has one.
    fn name(&mut self, anchor: &Option<Cow<'a, str>>, node: &Node<'a>, size: usize)
        requires
            old(self).wf(),
        ensures
            final(self).wf(),
            final(self).limits == old(self).limits,
            final(self)@ == old(self)@.named(
                crate::parser::event::anchor_view(*anchor),
                node@,
                size as int,
            ),
    {
        if let Some(name) = anchor {
            let entry = Anchored { name: cow_str(name).to_owned(), node: copy_node(node), size };
            let ghost added = AnchoredView { name: name@, node: node@, size: size as int };
            self.anchors.push(entry);
            assert(anchored_views(self.anchors@) =~= anchored_views(old(self).anchors@).push(
                added,
            ));
        }
    }

    /// The position of the last node with the given anchor.
    fn find(&self, name: &str) -> (r: Option<usize>)
        ensures
            match anchored(self@.anchors, name@) {
                Some(a) => r matches Some(k) && k < self.anchors@.len() && a
                    == anchored_views(self.anchors@)[k as int],
                None => r is None,
            },
    {
        let ghost views = anchored_views(self.anchors@);
        let mut n: usize = self.anchors.len();
        assert(views.subrange(0, n as int) =~= views);
        while n > 0
            invariant
                n <= self.anchors@.len(),
                views == anchored_views(self.anchors@),
                anchored(views.subrange(0, n as int), name@) == anchored(views, name@),
            decreases n,
        {
            assert(views.subrange(0, n as int).drop_last() =~= views.subrange(0, n - 1));
            n -= 1;
            if same_text(self.anchors[n].name.as_str(), name) {
                return Some(n);
            }
        }
        None
    }

    /// Expands an alias.
    fn expand(&mut self, name: &str, span: Span) -> (r: core::result::Result<
        Node<'a>,
        Option<Error>,
    >)
        requires
            old(self).wf(),
        ensures
            final(self).wf(),
            final(self).limits == old(self).limits,
            r is Ok ==> final(self)@.nodes >= old(self)@.nodes,
            forall|i: int|
                match #[trigger] alias_at(name@, span, i, old(self)@, old(self).limits) {
                    Ok((node, next, k)) => r matches Ok(n) && n@ == node && final(self)@ == k
                        && next == i + 1,
                    Err(stop) => r matches Err(e) && stop_is(e, stop),
                },
    {
        let at = match self.find(name) {
            Some(at) => at,
            None => {
                return Err(Some(Error::new(ErrorKind::UndefinedAlias(name.to_owned()), span)));
            },
        };
        let limit: usize = self.limits.max_alias_expansions;
        if self.aliases >= limit {
            return Err(Some(Error::new(ErrorKind::AliasLimitExceeded { limit }, span)));
        }
        let node = copy_node(&self.anchors[at].node);
        let size: usize = self.anchors[at].size;
        self.count(size, span)?;
        self.aliases = self.aliases + 1;
        Ok(node)
    }
}

/// The tag of a node.
fn tag_node<'a>(tag: &Option<(Cow<'a, str>, Cow<'a, str>)>, span: Span) -> (r: Option<Tag<'a>>)
    ensures
        crate::node::tag_value(r) == tag_of(crate::parser::event::tag_view(*tag), span),
{
    match tag {
        Some((prefix, suffix)) => {
            let mut value = cow_str(prefix).to_owned();
            value.append(cow_str(suffix));
            Some(Tag { value: Cow::Owned(value), span })
        },
        None => None,
    }
}

/// Composes the node that starts at the `i`th event. Returns it with the index
/// behind it.
fn compose_node<'a>(events: &Vec<Event<'a>>, i: usize, context: &mut Context<'a>) -> (r:
    core::result::Result<(Node<'a>, usize), Option<Error>>)
    requires
        i <= events@.len(),
        old(context).wf(),
    ensures
        final(context).wf(),
        final(context).limits == old(context).limits,
        match node_at(
            crate::parser::stream::event_views(events@),
            i as int,
            old(context)@,
            old(context).limits,
        ) {
            Ok((node, next, k)) => r matches Ok((n, at)) && n@ == node && at == next && i < at
                <= events@.len() && final(context)@ == k && k.nodes >= old(context)@.nodes,
            Err(stop) => r matches Err(e) && stop_is(e, stop),
        },
    decreases events@.len() - i, 0int,
{
    let ghost views = crate::parser::stream::event_views(events@);
    let ghost known = context@;
    let n: usize = events.len();
    if i >= n {
        return Err(None);
    }
    assert(views[i as int] == events@[i as int]@);
    let span = events[i].span;
    let before: usize = context.nodes;
    match &events[i].kind {
        EventKind::Alias { name } => {
            let ghost expanded = alias_at(name@, span, i as int, known, context.limits);
            let node = context.expand(cow_str(name), span)?;
            Ok((node, i + 1))
        },
        EventKind::Scalar { value, style, anchor, tag } => {
            context.count(1, span)?;
            let node = Node::Scalar(
                Scalar {
                    value: copy_cow(value),
                    tag: tag_node(tag, span),
                    style: *style,
                    span,
                },
            );
            context.name(anchor, &node, 1);
            Ok((node, i + 1))
        },
        EventKind::SequenceStart { anchor, tag, style } => {
            context.count(1, span)?;
            let (items, end) = compose_items(events, i + 1, context)?;
            assert(views[end as int] == events@[end as int]@);
            let sequence = Sequence {
                items,
                tag: tag_node(tag, span),
                style: *style,
                span: span.merge(events[end].span),
            };
            proof {
                crate::node::lemma_sequence_value(sequence);
            }
            let node = Node::Sequence(sequence);
            let size: usize = context.nodes - before;
            context.name(anchor, &node, size);
            Ok((node, end + 1))
        },
        EventKind::MappingStart { anchor, tag, style } => {
            context.count(1, span)?;
            let (entries, end) = compose_entries(events, i + 1, context)?;
            assert(views[end as int] == events@[end as int]@);
            let mapping = Mapping {
                entries,
                tag: tag_node(tag, span),
                style: *style,
                span: span.merge(events[end].span),
            };
            proof {
                crate::node::lemma_mapping_value(mapping);
            }
            let node = Node::Mapping(mapping);
            let size: usize = context.nodes - before;
            context.name(anchor, &node, size);
            Ok((node, end + 1))
        },
        _ => Err(Some(Error::unexpected("node content", events[i].kind.name(), span))),
    }
}

/// Composes the items of a sequence from the `from`th event on. Returns them with the
/// index of the event that ends it.
fn compose_items<'a>(events: &Vec<Event<'a>>, from: usize, context: &mut Context<'a>) -> (r:
    core::result::Result<(Vec<Node<'a>>, usize), Option<Error>>)
    requires
        from <= events@.len(),
        old(context).wf(),
    ensures
        final(context).wf(),
        final(context).limits == old(context).limits,
        match items_at(
            crate::parser::stream::event_views(events@),
            from as int,
            old(context)@,
            old(context).limits,
            seq![],
        ) {
            Ok((items, end, k)) => r matches Ok((x, at)) && crate::node::node_values(x@) == items
                && at == end && at < events@.len() && from <= at && final(context)@ == k
                && k.nodes >= old(context)@.nodes,
            Err(stop) => r matches Err(e) && stop_is(e, stop),
        },
    decreases events@.len() - from, 1int,
{
    let ghost views = crate::parser::stream::event_views(events@);
    let ghost limits = context.limits;
    let ghost goal = items_at(views, from as int, context@, limits, seq![]);
    let ghost start = context@;
    let mut items: Vec<Node<'a>> = Vec::new();
    let mut i: usize = from;
    assert(crate::node::node_values(items@) =~= Seq::<NodeView>::empty());
    while i < events.len()
        invariant
            from <= i <= events@.len(),
            context.wf(),
            context.limits == limits,
            limits == old(context).limits,
            start == old(context)@,
            context@.nodes >= start.nodes,
            views == crate::parser::stream::event_views(events@),
            goal == items_at(views, from as int, start, limits, seq![]),
            goal == items_at(
                views,
                i as int,
                context@,
                limits,
                crate::node::node_values(items@),
            ),
        decreases events@.len() - i,
    {
        assert(views[i as int] == events@[i as int]@);
        if let EventKind::SequenceEnd = &events[i].kind {
            return Ok((items, i));
        }
        let (node, next) = compose_node(events, i, context)?;
        let ghost before = items@;
        let ghost value = node@;
        items.push(node);
        assert(crate::node::node_values(items@) =~= crate::node::node_values(before).push(value));
        i = next;
    }
    Err(None)
}

/// Composes the entries of a mapping from the `from`th event on. Returns them with
/// the index of the event that ends it.
fn compose_entries<'a>(events: &Vec<Event<'a>>, from: usize, context: &mut Context<'a>) -> (r:
    core::result::Result<(Vec<(Node<'a>, Node<'a>)>, usize), Option<Error>>)
    requires
        from <= events@.len(),
        old(context).wf(),
    ensures
        final(context).wf(),
        final(context).limits == old(context).limits,
        match entries_at(
            crate::parser::stream::event_views(events@),
            from as int,
            old(context)@,
            old(context).limits,
            seq![],
        ) {
            Ok((entries, end, k)) => r matches Ok((x, at)) && crate::node::entry_values(x@)
                == entries && at == end && at < events@.len() && from <= at && final(context)@ == k
                && k.nodes >= old(context)@.nodes,
            Err(stop) => r matches Err(e) && stop_is(e, stop),
        },
    decreases events@.len() - from, 1int,
{
    let ghost views = crate::parser::stream::event_views(events@);
    let ghost limits = context.limits;
    let ghost goal = entries_at(views, from as int, context@, limits, seq![]);
    let ghost start = context@;
    let mut entries: Vec<(Node<'a>, Node<'a>)> = Vec::new();
    let mut i: usize = from;
    assert(crate::node::entry_values(entries@) =~= Seq::<(NodeView, NodeView)>::empty());
    while i < events.len()
        invariant
            from <= i <= events@.len(),
            context.wf(),
            context.limits == limits,
            limits == old(context).limits,
            start == old(context)@,
            context@.nodes >= start.nodes,
            views == crate::parser::stream::event_views(events@),
            goal == entries_at(views, from as int, start, limits, seq![]),
            goal == entries_at(
                views,
                i as int,
                context@,
                limits,
                crate::node::entry_values(entries@),
            ),
        decreases events@.len() - i,
    {
        assert(views[i as int] == events@[i as int]@);
        if let EventKind::MappingEnd = &events[i].kind {
            return Ok((entries, i));
        }
        let (key, v) = compose_node(events, i, context)?;
        let (value, next) = compose_node(events, v, context)?;
        let ghost before = entries@;
        let ghost added = (key@, value@);
        entries.push((key, value));
        assert(crate::node::entry_values(entries@) =~= crate::node::entry_values(before).push(
            added,
        ));
        i = next;
    }
    Err(None)
}

/// Composes the documents of an input one by one: call [`next`](Composer::next)
/// until it returns `None`.
pub struct Composer<'a> {
    events: Vec<Event<'a>>,
    error: Option<Error>,
    at: usize,
    limits: ResourceLimits,
    failed: bool,
}

impl<'a> Composer<'a> {
    /// The events of the input, and the error that ends them.
    pub closed spec fn stream(&self) -> Stream {
        Stream {
            events: crate::parser::stream::event_views(self.events@),
            error: match self.error {
                Some(e) => Some(e@),
                None => None,
            },
        }
    }

    /// The number of events read.
    pub closed spec fn position(&self) -> int {
        self.at as int
    }

    /// The limits of composition.
    pub closed spec fn spec_limits(&self) -> ResourceLimits {
        self.limits
    }

    /// Whether an error has been returned.
    pub closed spec fn has_failed(&self) -> bool {
        self.failed
    }

    /// The events read are among the events.
    pub open spec fn wf(&self) -> bool {
        0 <= self.position() <= self.stream().events.len()
    }

    /// Creates a composer for the given input.
    #[must_use]
    pub fn new(input: &'a str) -> (r: Self)
        requires
            input.spec_bytes().len() <= MAX_INPUT,
        ensures
            r.wf(),
            r.stream() == crate::parser::stream::stream(
                crate::parser::model::Parse::fresh(
                    input.spec_bytes(),
                    crate::limits::default_limits(),
                ),
            ),
            r.position() == 0,
            r.spec_limits() == crate::limits::default_limits(),
            !r.has_failed(),
    {
        Self::with_config(input, ParserConfig::default())
    }

    /// Creates a composer with custom configuration.
    #[must_use]
    pub fn with_config(input: &'a str, config: ParserConfig) -> (r: Self)
        requires
            input.spec_bytes().len() <= MAX_INPUT,
        ensures
            r.wf(),
            r.stream() == crate::parser::stream::stream(
                crate::parser::model::Parse::fresh(input.spec_bytes(), config.limits),
            ),
            r.position() == 0,
            r.spec_limits() == config.limits,
            !r.has_failed(),
    {
        let (events, error) = collect_events(input, config);
        Composer { events, error, at: 0, limits: config.limits, failed: false }
    }

    /// Composes the next document; `None` at the end of the stream and after an
    /// error.
    pub fn next(&mut self) -> (r: Option<Result<Node<'a>>>)
        requires
            old(self).wf(),
        ensures
            final(self).wf(),
            final(self).stream() == old(self).stream(),
            final(self).spec_limits() == old(self).spec_limits(),
            old(self).has_failed() ==> r is None && final(self).has_failed(),
            !old(self).has_failed() ==> match document_at(
                old(self).stream(),
                old(self).position(),
                old(self).spec_limits(),
            ) {
                NextDocument::Document(node, next) => {
                    &&& r matches Some(Ok(n))
                    &&& n@ == node
                    &&& final(self).position() == next
                    &&& next > old(self).position()
                    &&& !final(self).has_failed()
                },
                NextDocument::Failed(e) => {
                    &&& r matches Some(Err(x))
                    &&& x@ == e
                    &&& final(self).has_failed()
                },
                NextDocument::End => r is None && *final(self) == *old(self),
            },
    {
        if self.failed {
            return None;
        }
        let ghost views = crate::parser::stream::event_views(self.events@);
        let n: usize = self.events.len();
        let mut at: usize = self.at;
        proof {
            lemma_content_at(views, at as int);
        }
        loop
            invariant
                self.at <= at <= n,
                n == self.events@.len(),
                views == crate::parser::stream::event_views(self.events@),
                content_at(views, at as int) == content_at(views, self.at as int),
                *self == *old(self),
            ensures
                at == content_at(views, self.at as int),
            decreases n - at,
        {
            if at >= n {
                break;
            }
            assert(views[at as int] == self.events@[at as int]@);
            match &self.events[at].kind {
                EventKind::StreamStart => {},
                EventKind::DocumentStart { .. } => {},
                EventKind::DocumentEnd { .. } => {},
                _ => {
                    break;
                },
            }
            at += 1;
        }
        if at >= n {
            return match &self.error {
                Some(e) => {
                    let e = copy_error(e);
                    self.failed = true;
                    Some(Err(e))
                },
                None => None,
            };
        }
        assert(views[at as int] == self.events@[at as int]@);
        if let EventKind::StreamEnd = &self.events[at].kind {
            return None;
        }
        let mut context = Context::new(self.limits);
        match compose_node(&self.events, at, &mut context) {
            Ok((node, next)) => {
                self.at = next;
                Some(Ok(node))
            },
            Err(Some(e)) => {
                self.failed = true;
                Some(Err(e))
            },
            Err(None) => {
                let e = match &self.error {
                    Some(e) => copy_error(e),
                    None => Error::spanless(ErrorKind::UnexpectedEof),
                };
                self.failed = true;
                Some(Err(e))
            },
        }
    }
}

/// A copy of an error.
pub fn copy_error(e: &Error) -> (r: Error)
    ensures
        r@ == e@,
{
    let kind = match &e.kind {
        ErrorKind::UnexpectedToken { expected, found } => ErrorKind::UnexpectedToken {
            expected: expected.clone(),
            found: found.clone(),
        },
        ErrorKind::UnexpectedEof => ErrorKind::UnexpectedEof,
        ErrorKind::InvalidEscape(c) => ErrorKind::InvalidEscape(*c),
        ErrorKind::InvalidAnchor(s) => ErrorKind::InvalidAnchor(s.clone()),
        ErrorKind::InvalidTag(s) => ErrorKind::InvalidTag(s.clone()),
        ErrorKind::UndefinedAlias(s) => ErrorKind::UndefinedAlias(s.clone()),
        ErrorKind::DepthExceeded { limit } => ErrorKind::DepthExceeded { limit: *limit },
        ErrorKind::DocumentSizeExceeded { limit } => ErrorKind::DocumentSizeExceeded {
            limit: *limit,
        },
        ErrorKind::AliasLimitExceeded { limit } => ErrorKind::AliasLimitExceeded {
            limit: *limit,
        },
        ErrorKind::NodeCountExceeded { limit } => ErrorKind::NodeCountExceeded { limit: *limit },
    };
    Error { kind, span: e.span }
}

/// Composes all documents of `input`.
pub fn compose_all<'a>(input: &'a str) -> (r: Result<Vec<Node<'a>>>)
    requires
        input.spec_bytes().len() <= MAX_INPUT,
    ensures
        match documents(input@) {
            Ok(nodes) => r matches Ok(x) && crate::node::node_values(x@) == nodes,
            Err(e) => r matches Err(x) && x@ == e,
        },
{
    let mut composer = Composer::new(input);
    let mut out: Vec<Node<'a>> = Vec::new();
    let ghost limits = crate::limits::default_limits();
    let ghost stream = composer.stream();
    assert(crate::node::node_values(out@) =~= Seq::<NodeView>::empty());
    loop
        invariant
            composer.wf(),
            !composer.has_failed(),
            composer.stream() == stream,
            composer.spec_limits() == limits,
            documents(input@) == documents_at(
                stream,
                composer.position(),
                limits,
                crate::node::node_values(out@),
            ),
        decreases stream.events.len() - composer.position(),
    {
        match composer.next() {
            None => {
                return Ok(out);
            },
            Some(Err(e)) => {
                return Err(e);
            },
            Some(Ok(node)) => {
                let ghost before = out@;
                let ghost value = node@;
                out.push(node);
                assert(crate::node::node_values(out@) =~= crate::node::node_values(before).push(
                    value,
                ));
            },
        }
    }
}

/// Parses `input` and returns the root of its first document; an empty scalar where
/// there is none. Every document of the input must be valid.
pub fn from_str_node<'a>(input: &'a str) -> (r: Result<Node<'a>>)
    requires
        input.spec_bytes().len() <= MAX_INPUT,
    ensures
        match first_document(input@) {
            Ok(node) => r matches Ok(x) && x@ == node,
            Err(e) => r matches Err(x) && x@ == e,
        },
{
    match compose_all(input) {
        Err(e) => Err(e),
        Ok(nodes) => {
            if nodes.len() > 0 {
                Ok(copy_node(&nodes[0]))
            } else {
                Ok(
                    Node::Scalar(
                        Scalar {
                            value: Cow::Borrowed(""),
                            tag: None,
                            style: ScalarStyle::Plain,
                            span: Span::point(Position::start()),
                        },
                    ),
                )
            }
        },
    }
}

} // verus!
