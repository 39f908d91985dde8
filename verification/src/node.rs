//! The YAML representation tree.
use crate::text::{cow_str, same_text};
use crate::types::{copy_cow, own, CollectionStyle, ScalarStyle, Span, Tag};
use std::borrow::Cow;
use vstd::prelude::*;
use vstd::string::*;

verus! {

/// A node in the YAML representation tree.
#[derive(Debug, PartialEq)]
pub enum Node<'a> {
    /// A scalar (leaf) value.
    Scalar(Scalar<'a>),
    /// An ordered sequence of nodes.
    Sequence(Sequence<'a>),
    /// An ordered mapping of key-value pairs.
    Mapping(Mapping<'a>),
}

/// A scalar value.
#[derive(Debug, PartialEq)]
pub struct Scalar<'a> {
    /// The scalar value, borrowing from the input when no transformation is needed.
    pub value: Cow<'a, str>,
    /// Optional YAML tag.
    pub tag: Option<Tag<'a>>,
    /// The presentation style used in the source.
    pub style: ScalarStyle,
    /// Source span.
    pub span: Span,
}

/// An ordered sequence of nodes.
#[derive(Debug, PartialEq)]
pub struct Sequence<'a> {
    /// The items in the sequence.
    pub items: Vec<Node<'a>>,
    /// Optional YAML tag.
    pub tag: Option<Tag<'a>>,
    /// The presentation style used in the source.
    pub style: CollectionStyle,
    /// Source span.
    pub span: Span,
}

/// An ordered mapping of key-value pairs.
#[derive(Debug, PartialEq)]
pub struct Mapping<'a> {
    /// The key-value entries in insertion order.
    pub entries: Vec<(Node<'a>, Node<'a>)>,
    /// Optional YAML tag.
    pub tag: Option<Tag<'a>>,
    /// The presentation style used in the source.
    pub style: CollectionStyle,
    /// Source span.
    pub span: Span,
}

/// The value of a node's tag.
pub struct TagValue {
    pub value: Seq<char>,
    pub span: Span,
}

/// The value of a [`Node`].
pub enum NodeView {
    Scalar { value: Seq<char>, tag: Option<TagValue>, style: ScalarStyle, span: Span },
    Sequence { items: Seq<NodeView>, tag: Option<TagValue>, style: CollectionStyle, span: Span },
    Mapping {
        entries: Seq<(NodeView, NodeView)>,
        tag: Option<TagValue>,
        style: CollectionStyle,
        span: Span,
    },
}

/// The value of an optional tag.
pub open spec fn tag_value<'a>(t: Option<Tag<'a>>) -> Option<TagValue> {
    match t {
        Some(tag) => Some(TagValue { value: tag.value@, span: tag.span }),
        None => None,
    }
}

/// The value of a node.
pub open spec fn node_value<'a>(n: Node<'a>) -> NodeView
    decreases n,
{
    match n {
        Node::Scalar(s) => NodeView::Scalar {
            value: s.value@,
            tag: tag_value(s.tag),
            style: s.style,
            span: s.span,
        },
        Node::Sequence(s) => NodeView::Sequence {
            items: Seq::new(
                s.items@.len(),
                |i: int|
                    if 0 <= i < s.items@.len() {
                        node_value(s.items@[i])
                    } else {
                        arbitrary()
                    },
            ),
            tag: tag_value(s.tag),
            style: s.style,
            span: s.span,
        },
        Node::Mapping(m) => NodeView::Mapping {
            entries: Seq::new(
                m.entries@.len(),
                |i: int|
                    if 0 <= i < m.entries@.len() {
                        (node_value(m.entries@[i].0), node_value(m.entries@[i].1))
                    } else {
                        arbitrary()
                    },
            ),
            tag: tag_value(m.tag),
            style: m.style,
            span: m.span,
        },
    }
}

impl<'a> View for Node<'a> {
    type V = NodeView;

    open spec fn view(&self) -> NodeView {
        node_value(*self)
    }
}

/// Whether the text of a tag, if there is one, is owned.
pub open spec fn tag_owned<'a>(t: Option<Tag<'a>>) -> bool {
    t matches Some(tag) ==> tag.value is Owned
}

/// Whether all texts and tags of a node are owned, at every depth.
pub open spec fn all_owned<'a>(n: Node<'a>) -> bool
    decreases n,
{
    match n {
        Node::Scalar(s) => s.value is Owned && tag_owned(s.tag),
        Node::Sequence(s) => tag_owned(s.tag) && forall|i: int|
            0 <= i < s.items@.len() ==> all_owned(#[trigger] s.items@[i]),
        Node::Mapping(m) => tag_owned(m.tag) && forall|i: int|
            0 <= i < m.entries@.len() ==> all_owned((#[trigger] m.entries@[i]).0) && all_owned(
                m.entries@[i].1,
            ),
    }
}

/// The values of some nodes.
pub open spec fn node_values<'a>(s: Seq<Node<'a>>) -> Seq<NodeView> {
    Seq::new(s.len(), |i: int| s[i]@)
}

/// The values of some entries.
pub open spec fn entry_values<'a>(s: Seq<(Node<'a>, Node<'a>)>) -> Seq<(NodeView, NodeView)> {
    Seq::new(s.len(), |i: int| (s[i].0@, s[i].1@))
}

/// The value of a sequence consists of the values of its items.
pub proof fn lemma_sequence_value<'a>(s: Sequence<'a>)
    ensures
        node_value(Node::Sequence(s)) == (NodeView::Sequence {
            items: node_values(s.items@),
            tag: tag_value(s.tag),
            style: s.style,
            span: s.span,
        }),
{
    assert(node_value(Node::Sequence(s))->Sequence_items =~= node_values(s.items@));
}

/// The value of a mapping consists of the values of its entries.
pub proof fn lemma_mapping_value<'a>(m: Mapping<'a>)
    ensures
        node_value(Node::Mapping(m)) == (NodeView::Mapping {
            entries: entry_values(m.entries@),
            tag: tag_value(m.tag),
            style: m.style,
            span: m.span,
        }),
{
    assert(node_value(Node::Mapping(m))->entries =~= entry_values(m.entries@));
}

impl NodeView {
    /// The tag of the node.
    pub open spec fn tag(self) -> Option<TagValue> {
        match self {
            NodeView::Scalar { tag, .. } => tag,
            NodeView::Sequence { tag, .. } => tag,
            NodeView::Mapping { tag, .. } => tag,
        }
    }

    /// The span of the node.
    pub open spec fn span(self) -> Span {
        match self {
            NodeView::Scalar { span, .. } => span,
            NodeView::Sequence { span, .. } => span,
            NodeView::Mapping { span, .. } => span,
        }
    }

    /// The text of a scalar.
    pub open spec fn as_str(self) -> Option<Seq<char>> {
        match self {
            NodeView::Scalar { value, .. } => Some(value),
            _ => None,
        }
    }

    /// The items of a sequence.
    pub open spec fn as_sequence(self) -> Option<Seq<NodeView>> {
        match self {
            NodeView::Sequence { items, .. } => Some(items),
            _ => None,
        }
    }

    /// The entries of a mapping.
    pub open spec fn as_mapping(self) -> Option<Seq<(NodeView, NodeView)>> {
        match self {
            NodeView::Mapping { entries, .. } => Some(entries),
            _ => None,
        }
    }
}

/// Whether two tags are the same, wherever they stand.
pub open spec fn tags_alike(s: Option<TagValue>, t: Option<TagValue>) -> bool {
    match (s, t) {
        (Some(a), Some(b)) => a.value == b.value,
        (None, None) => true,
        _ => false,
    }
}

/// Whether two nodes are the same, wherever they stand: same texts, tags, styles and
/// children at every depth.
pub open spec fn alike(s: NodeView, t: NodeView) -> bool
    decreases s,
{
    &&& tags_alike(s.tag(), t.tag())
    &&& match (s, t) {
        (
            NodeView::Scalar { value, style, .. },
            NodeView::Scalar { value: v, style: y, .. },
        ) => value == v && style == y,
        (
            NodeView::Sequence { items, style, .. },
            NodeView::Sequence { items: i, style: y, .. },
        ) => style == y && items.len() == i.len() && forall|k: int|
            0 <= k < items.len() ==> alike(#[trigger] items[k], i[k]),
        (
            NodeView::Mapping { entries, style, .. },
            NodeView::Mapping { entries: e, style: y, .. },
        ) => style == y && entries.len() == e.len() && forall|k: int|
            0 <= k < entries.len() ==> alike((#[trigger] entries[k]).0, e[k].0) && alike(
                entries[k].1,
                e[k].1,
            ),
        _ => false,
    }
}

/// Whether two lists of nodes are the same, wherever the nodes stand.
pub open spec fn all_alike(s: Seq<NodeView>, t: Seq<NodeView>) -> bool {
    s.len() == t.len() && forall|k: int| 0 <= k < s.len() ==> alike(#[trigger] s[k], t[k])
}

/// A node is the same as itself.
pub proof fn lemma_alike_self(s: NodeView)
    ensures
        alike(s, s),
    decreases s,
{
    match s {
        NodeView::Scalar { .. } => {},
        NodeView::Sequence { items, .. } => {
            assert forall|k: int| 0 <= k < items.len() implies alike(#[trigger] items[k], items[k]) by {
                lemma_alike_self(items[k]);
            }
        },
        NodeView::Mapping { entries, .. } => {
            assert forall|k: int| 0 <= k < entries.len() implies alike(
                (#[trigger] entries[k]).0,
                entries[k].0,
            ) && alike(entries[k].1, entries[k].1) by {
                lemma_alike_self(entries[k].0);
                lemma_alike_self(entries[k].1);
            }
        },
    }
}

/// Nodes that are the same as a third are the same.
pub proof fn lemma_alike_on(s: NodeView, t: NodeView, u: NodeView)
    requires
        alike(s, t),
        alike(t, u),
    ensures
        alike(s, u),
    decreases s,
{
    match (s, t, u) {
        (
            NodeView::Sequence { items, .. },
            NodeView::Sequence { items: j, .. },
            NodeView::Sequence { items: l, .. },
        ) => {
            assert forall|k: int| 0 <= k < items.len() implies alike(#[trigger] items[k], l[k]) by {
                assert(alike(j[k], l[k]));
                lemma_alike_on(items[k], j[k], l[k]);
            }
        },
        (
            NodeView::Mapping { entries, .. },
            NodeView::Mapping { entries: j, .. },
            NodeView::Mapping { entries: l, .. },
        ) => {
            assert forall|k: int| 0 <= k < entries.len() implies alike(
                (#[trigger] entries[k]).0,
                l[k].0,
            ) && alike(entries[k].1, l[k].1) by {
                assert(alike(j[k].0, l[k].0) && alike(j[k].1, l[k].1));
                lemma_alike_on(entries[k].0, j[k].0, l[k].0);
                lemma_alike_on(entries[k].1, j[k].1, l[k].1);
            }
        },
        _ => {},
    }
}

/// Whether two tags are the same, wherever they stand.
fn same_tag(s: &Option<Tag<'_>>, t: &Option<Tag<'_>>) -> (r: bool)
    ensures
        r == tags_alike(tag_value(*s), tag_value(*t)),
{
    match (s, t) {
        (Some(a), Some(b)) => same_text(cow_str(&a.value), cow_str(&b.value)),
        (None, None) => true,
        _ => false,
    }
}

/// Whether two nodes are the same, wherever they stand.
pub fn same_node(s: &Node<'_>, t: &Node<'_>) -> (r: bool)
    ensures
        r == alike(s@, t@),
    decreases s,
{
    match (s, t) {
        (Node::Scalar(a), Node::Scalar(b)) => same_tag(&a.tag, &b.tag) && a.style == b.style
            && same_text(cow_str(&a.value), cow_str(&b.value)),
        (Node::Sequence(a), Node::Sequence(b)) => {
            proof {
                lemma_sequence_value(*a);
                lemma_sequence_value(*b);
            }
            let n: usize = a.items.len();
            if !same_tag(&a.tag, &b.tag) || a.style != b.style || n != b.items.len() {
                return false;
            }
            let mut i: usize = 0;
            while i < n
                invariant
                    i <= n,
                    n == a.items@.len(),
                    n == b.items@.len(),
                    s is Sequence,
                    *a == s->Sequence_0,
                    forall|k: int| 0 <= k < i ==> alike((#[trigger] a.items@[k])@, b.items@[k]@),
                    s@ is Sequence && t@ is Sequence,
                    s@->items == node_values(a.items@),
                    t@->items == node_values(b.items@),
                decreases n - i,
            {
                if !same_node(&a.items[i], &b.items[i]) {
                    assert(s@->items[i as int] == a.items@[i as int]@);
                    assert(t@->items[i as int] == b.items@[i as int]@);
                    return false;
                }
                i += 1;
            }
            assert forall|k: int| 0 <= k < s@->items.len() implies alike(
                #[trigger] s@->items[k],
                t@->items[k],
            ) by {
                assert(alike(a.items@[k]@, b.items@[k]@));
            }
            true
        },
        (Node::Mapping(a), Node::Mapping(b)) => {
            proof {
                lemma_mapping_value(*a);
                lemma_mapping_value(*b);
            }
            let n: usize = a.entries.len();
            if !same_tag(&a.tag, &b.tag) || a.style != b.style || n != b.entries.len() {
                return false;
            }
            let mut i: usize = 0;
            while i < n
                invariant
                    i <= n,
                    n == a.entries@.len(),
                    n == b.entries@.len(),
                    s is Mapping,
                    *a == s->Mapping_0,
                    forall|k: int|
                        0 <= k < i ==> alike((#[trigger] a.entries@[k]).0@, b.entries@[k].0@)
                            && alike(a.entries@[k].1@, b.entries@[k].1@),
                    s@ is Mapping && t@ is Mapping,
                    s@->entries == entry_values(a.entries@),
                    t@->entries == entry_values(b.entries@),
                decreases n - i,
            {
                if !same_node(&a.entries[i].0, &b.entries[i].0) || !same_node(
                    &a.entries[i].1,
                    &b.entries[i].1,
                ) {
                    assert(s@->entries[i as int] == (a.entries@[i as int].0@, a.entries@[i as int].1@));
                    assert(t@->entries[i as int] == (b.entries@[i as int].0@, b.entries@[i as int].1@));
                    return false;
                }
                i += 1;
            }
            assert forall|k: int| 0 <= k < s@->entries.len() implies alike(
                (#[trigger] s@->entries[k]).0,
                t@->entries[k].0,
            ) && alike(s@->entries[k].1, t@->entries[k].1) by {
                assert(alike(a.entries@[k].0@, b.entries@[k].0@));
            }
            true
        },
        _ => false,
    }
}

impl<'a> Node<'a> {
    /// Returns the span of this node in the source input.
    #[must_use]
    pub fn span(&self) -> (r: Span)
        ensures
            r == self@.span(),
    {
        match self {
            Node::Scalar(s) => s.span,
            Node::Sequence(s) => s.span,
            Node::Mapping(m) => m.span,
        }
    }

    /// Returns the tag of this node, if any.
    #[must_use]
    pub fn tag(&self) -> (r: Option<&Tag<'a>>)
        ensures
            match r {
                Some(t) => self@.tag() == Some(TagValue { value: t.value@, span: t.span }),
                None => self@.tag() is None,
            },
    {
        match self {
            Node::Scalar(s) => s.tag.as_ref(),
            Node::Sequence(s) => s.tag.as_ref(),
            Node::Mapping(m) => m.tag.as_ref(),
        }
    }

    /// Returns `true` if this node is a scalar.
    #[must_use]
    pub fn is_scalar(&self) -> (r: bool)
        ensures
            r == self@ is Scalar,
    {
        match self {
            Node::Scalar(_) => true,
            _ => false,
        }
    }

    /// Returns `true` if this node is a sequence.
    #[must_use]
    pub fn is_sequence(&self) -> (r: bool)
        ensures
            r == self@ is Sequence,
    {
        match self {
            Node::Sequence(_) => true,
            _ => false,
        }
    }

    /// Returns `true` if this node is a mapping.
    #[must_use]
    pub fn is_mapping(&self) -> (r: bool)
        ensures
            r == self@ is Mapping,
    {
        match self {
            Node::Mapping(_) => true,
            _ => false,
        }
    }

    /// Returns the scalar value as a string slice, if this is a scalar node.
    #[must_use]
    pub fn as_str(&self) -> (r: Option<&str>)
        ensures
            match r {
                Some(s) => self@.as_str() == Some(s@),
                None => self@.as_str() is None,
            },
    {
        match self {
            Node::Scalar(s) => Some(cow_str(&s.value)),
            _ => None,
        }
    }

    /// Returns a reference to the sequence items, if this is a sequence node.
    #[must_use]
    pub fn as_sequence(&self) -> (r: Option<&[Node<'a>]>)
        ensures
            match r {
                Some(s) => self is Sequence && s@ == self->Sequence_0.items@ && self@.as_sequence()
                    == Some(node_values(s@)),
                None => self@.as_sequence() is None,
            },
    {
        match self {
            Node::Sequence(s) => {
                proof {
                    lemma_sequence_value(*s);
                }
                Some(s.items.as_slice())
            },
            _ => None,
        }
    }

    /// Returns a reference to the mapping entries, if this is a mapping node.
    #[must_use]
    pub fn as_mapping(&self) -> (r: Option<&[(Node<'a>, Node<'a>)]>)
        ensures
            match r {
                Some(s) => self is Mapping && s@ == self->Mapping_0.entries@ && self@.as_mapping()
                    == Some(entry_values(s@)),
                None => self@.as_mapping() is None,
            },
    {
        match self {
            Node::Mapping(m) => {
                proof {
                    lemma_mapping_value(*m);
                }
                Some(m.entries.as_slice())
            },
            _ => None,
        }
    }

    /// Converts this node into a `'static` lifetime by taking ownership of all borrowed data.
    #[must_use]
    pub fn into_owned(self) -> (r: Node<'static>)
        ensures
            r@ == self@,
            all_owned(r),
    {
        owned_node(&self)
    }
}

/// An owned copy of a tag.
fn owned_tag(t: &Option<Tag<'_>>) -> (r: Option<Tag<'static>>)
    ensures
        tag_value(r) == tag_value(*t),
        tag_owned(r),
{
    match t {
        Some(tag) => Some(Tag { value: own(copy_cow(&tag.value)), span: tag.span }),
        None => None,
    }
}

/// An owned copy of a node.
fn owned_node(n: &Node<'_>) -> (r: Node<'static>)
    ensures
        r@ == n@,
        all_owned(r),
    decreases n,
{
    match n {
        Node::Scalar(s) => Node::Scalar(owned_scalar(s)),
        Node::Sequence(s) => {
            let mut items: Vec<Node<'static>> = Vec::new();
            let mut i: usize = 0;
            while i < s.items.len()
                invariant
                    i <= s.items@.len(),
                    n is Sequence,
                    *s == n->Sequence_0,
                    items@.len() == i,
                    forall|j: int| 0 <= j < i ==> (#[trigger] items@[j])@ == s.items@[j]@,
                    forall|j: int| 0 <= j < i ==> all_owned(#[trigger] items@[j]),
                decreases s.items@.len() - i,
            {
                items.push(owned_node(&s.items[i]));
                i += 1;
            }
            let r = Sequence { items, tag: owned_tag(&s.tag), style: s.style, span: s.span };
            proof {
                lemma_sequence_value(*s);
                lemma_sequence_value(r);
                assert(node_values(items@) =~= node_values(s.items@));
            }
            Node::Sequence(r)
        },
        Node::Mapping(m) => {
            let mut entries: Vec<(Node<'static>, Node<'static>)> = Vec::new();
            let mut i: usize = 0;
            while i < m.entries.len()
                invariant
                    i <= m.entries@.len(),
                    n is Mapping,
                    *m == n->Mapping_0,
                    entries@.len() == i,
                    forall|j: int|
                        0 <= j < i ==> (#[trigger] entries@[j]).0@ == m.entries@[j].0@
                            && entries@[j].1@ == m.entries@[j].1@,
                    forall|j: int|
                        0 <= j < i ==> all_owned((#[trigger] entries@[j]).0) && all_owned(
                            entries@[j].1,
                        ),
                decreases m.entries@.len() - i,
            {
                entries.push((owned_node(&m.entries[i].0), owned_node(&m.entries[i].1)));
                i += 1;
            }
            let r = Mapping { entries, tag: owned_tag(&m.tag), style: m.style, span: m.span };
            proof {
                lemma_mapping_value(*m);
                lemma_mapping_value(r);
                assert(entry_values(entries@) =~= entry_values(m.entries@));
            }
            Node::Mapping(r)
        },
    }
}

/// An owned copy of a scalar.
fn owned_scalar(s: &Scalar<'_>) -> (r: Scalar<'static>)
    ensures
        Node::Scalar(r)@ == Node::Scalar(*s)@,
        all_owned(Node::Scalar(r)),
{
    Scalar { value: own(copy_cow(&s.value)), tag: owned_tag(&s.tag), style: s.style, span: s.span }
}

impl<'a> Scalar<'a> {
    /// Converts this scalar into a `'static` lifetime by taking ownership of borrowed data.
    #[must_use]
    pub fn into_owned(self) -> (r: Scalar<'static>)
        ensures
            Node::Scalar(r)@ == Node::Scalar(self)@,
            all_owned(Node::Scalar(r)),
    {
        owned_scalar(&self)
    }
}

impl<'a> Sequence<'a> {
    /// Converts this sequence into a `'static` lifetime by taking ownership of borrowed data.
    #[must_use]
    pub fn into_owned(self) -> (r: Sequence<'static>)
        ensures
            Node::Sequence(r)@ == Node::Sequence(self)@,
            all_owned(Node::Sequence(r)),
    {
        let tag = owned_tag(&self.tag);
        let style = self.style;
        let span = self.span;
        match owned_node(&Node::Sequence(self)) {
            Node::Sequence(s) => s,
            _ => Sequence { items: Vec::new(), tag, style, span },
        }
    }
}

impl<'a> Mapping<'a> {
    /// Converts this mapping into a `'static` lifetime by taking ownership of borrowed data.
    #[must_use]
    pub fn into_owned(self) -> (r: Mapping<'static>)
        ensures
            Node::Mapping(r)@ == Node::Mapping(self)@,
            all_owned(Node::Mapping(r)),
    {
        let tag = owned_tag(&self.tag);
        let style = self.style;
        let span = self.span;
        match owned_node(&Node::Mapping(self)) {
            Node::Mapping(m) => m,
            _ => Mapping { entries: Vec::new(), tag, style, span },
        }
    }
}

/// A copy of a tag.
fn copy_tag<'a>(t: &Option<Tag<'a>>) -> (r: Option<Tag<'a>>)
    ensures
        tag_value(r) == tag_value(*t),
{
    match t {
        Some(tag) => Some(tag.clone()),
        None => None,
    }
}

/// A copy of a scalar.
fn copy_scalar<'a>(s: &Scalar<'a>) -> (r: Scalar<'a>)
    ensures
        Node::Scalar(r)@ == Node::Scalar(*s)@,
{
    Scalar { value: copy_cow(&s.value), tag: copy_tag(&s.tag), style: s.style, span: s.span }
}

/// A copy of a sequence.
fn copy_sequence<'a>(s: &Sequence<'a>) -> (r: Sequence<'a>)
    ensures
        Node::Sequence(r)@ == Node::Sequence(*s)@,
    decreases s,
{
    let mut items: Vec<Node<'a>> = Vec::new();
    let mut i: usize = 0;
    while i < s.items.len()
        invariant
            i <= s.items@.len(),
            items@.len() == i,
            forall|j: int| 0 <= j < i ==> (#[trigger] items@[j])@ == s.items@[j]@,
        decreases s.items@.len() - i,
    {
        items.push(copy_node(&s.items[i]));
        i += 1;
    }
    let r = Sequence { items, tag: copy_tag(&s.tag), style: s.style, span: s.span };
    proof {
        lemma_sequence_value(*s);
        lemma_sequence_value(r);
        assert(node_values(items@) =~= node_values(s.items@));
    }
    r
}

/// A copy of a mapping.
fn copy_mapping<'a>(m: &Mapping<'a>) -> (r: Mapping<'a>)
    ensures
        Node::Mapping(r)@ == Node::Mapping(*m)@,
    decreases m,
{
    let mut entries: Vec<(Node<'a>, Node<'a>)> = Vec::new();
    let mut i: usize = 0;
    while i < m.entries.len()
        invariant
            i <= m.entries@.len(),
            entries@.len() == i,
            forall|j: int|
                0 <= j < i ==> (#[trigger] entries@[j]).0@ == m.entries@[j].0@ && entries@[j].1@
                    == m.entries@[j].1@,
        decreases m.entries@.len() - i,
    {
        entries.push((copy_node(&m.entries[i].0), copy_node(&m.entries[i].1)));
        i += 1;
    }
    let r = Mapping { entries, tag: copy_tag(&m.tag), style: m.style, span: m.span };
    proof {
        lemma_mapping_value(*m);
        lemma_mapping_value(r);
        assert(entry_values(entries@) =~= entry_values(m.entries@));
    }
    r
}

/// A copy of a node; borrowed texts stay borrowed.
pub fn copy_node<'a>(n: &Node<'a>) -> (r: Node<'a>)
    ensures
        r@ == n@,
    decreases n,
{
    match n {
        Node::Scalar(s) => Node::Scalar(copy_scalar(s)),
        Node::Sequence(s) => Node::Sequence(copy_sequence(s)),
        Node::Mapping(m) => Node::Mapping(copy_mapping(m)),
    }
}

impl<'a> Clone for Node<'a> {
    fn clone(&self) -> (r: Self)
        ensures
            r@ == self@,
    {
        copy_node(self)
    }
}

impl<'a> Clone for Scalar<'a> {
    fn clone(&self) -> (r: Self)
        ensures
            Node::Scalar(r)@ == Node::Scalar(*self)@,
    {
        copy_scalar(self)
    }
}

impl<'a> Clone for Sequence<'a> {
    fn clone(&self) -> (r: Self)
        ensures
            Node::Sequence(r)@ == Node::Sequence(*self)@,
    {
        copy_sequence(self)
    }
}

impl<'a> Clone for Mapping<'a> {
    fn clone(&self) -> (r: Self)
        ensures
            Node::Mapping(r)@ == Node::Mapping(*self)@,
    {
        copy_mapping(self)
    }
}

} // verus!
