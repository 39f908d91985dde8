//! Events produced by the YAML parser.
use crate::types::{copy_cow, CollectionStyle, ScalarStyle, Span};
use std::borrow::Cow;
use vstd::prelude::*;

verus! {

/// A resolved tag: the prefix its handle stands for, and its suffix.
pub type TagPair<'a> = (Cow<'a, str>, Cow<'a, str>);

/// An event produced by the parser, with its source span.
#[derive(Debug, PartialEq)]
pub struct Event<'a> {
    /// The kind of event.
    pub kind: EventKind<'a>,
    /// The source span.
    pub span: Span,
}

/// The kind of a parser event.
#[derive(Debug, PartialEq)]
pub enum EventKind<'a> {
    /// Start of the YAML stream.
    StreamStart,
    /// End of the YAML stream.
    StreamEnd,
    /// Start of a YAML document.
    DocumentStart {
        /// Whether the document start was explicit (`---`).
        explicit: bool,
    },
    /// End of a YAML document.
    DocumentEnd {
        /// Whether the document end was explicit (`...`).
        explicit: bool,
    },
    /// Start of a mapping.
    MappingStart {
        /// Optional anchor name.
        anchor: Option<Cow<'a, str>>,
        /// Optional tag.
        tag: Option<(Cow<'a, str>, Cow<'a, str>)>,
        /// Block or flow style.
        style: CollectionStyle,
    },
    /// End of a mapping.
    MappingEnd,
    /// Start of a sequence.
    SequenceStart {
        /// Optional anchor name.
        anchor: Option<Cow<'a, str>>,
        /// Optional tag.
        tag: Option<(Cow<'a, str>, Cow<'a, str>)>,
        /// Block or flow style.
        style: CollectionStyle,
    },
    /// End of a sequence.
    SequenceEnd,
    /// A scalar value.
    Scalar {
        /// The scalar value.
        value: Cow<'a, str>,
        /// The presentation style.
        style: ScalarStyle,
        /// Optional anchor name.
        anchor: Option<Cow<'a, str>>,
        /// Optional tag.
        tag: Option<(Cow<'a, str>, Cow<'a, str>)>,
    },
    /// An alias reference.
    Alias {
        /// The anchor name being referenced.
        name: Cow<'a, str>,
    },
}

/// The value of an anchor.
pub type AnchorView = Option<Seq<char>>;

/// The value of a tag.
pub type TagView = Option<(Seq<char>, Seq<char>)>;

/// The value of an [`EventKind`].
pub enum EventKindView {
    StreamStart,
    StreamEnd,
    DocumentStart { explicit: bool },
    DocumentEnd { explicit: bool },
    MappingStart { anchor: AnchorView, tag: TagView, style: CollectionStyle },
    MappingEnd,
    SequenceStart { anchor: AnchorView, tag: TagView, style: CollectionStyle },
    SequenceEnd,
    Scalar { value: Seq<char>, style: ScalarStyle, anchor: AnchorView, tag: TagView },
    Alias { name: Seq<char> },
}

/// The value of an [`Event`].
pub struct EventView {
    pub kind: EventKindView,
    pub span: Span,
}

/// The value of an optional anchor.
pub open spec fn anchor_view<'a>(a: Option<Cow<'a, str>>) -> AnchorView {
    match a {
        Some(c) => Some(c@),
        None => None,
    }
}

/// The value of an optional tag.
pub open spec fn tag_view<'a>(t: Option<(Cow<'a, str>, Cow<'a, str>)>) -> TagView {
    match t {
        Some(p) => Some((p.0@, p.1@)),
        None => None,
    }
}

impl<'a> View for EventKind<'a> {
    type V = EventKindView;

    open spec fn view(&self) -> EventKindView {
        match self {
            EventKind::StreamStart => EventKindView::StreamStart,
            EventKind::StreamEnd => EventKindView::StreamEnd,
            EventKind::DocumentStart { explicit } => EventKindView::DocumentStart {
                explicit: *explicit,
            },
            EventKind::DocumentEnd { explicit } => EventKindView::DocumentEnd {
                explicit: *explicit,
            },
            EventKind::MappingStart { anchor, tag, style } => EventKindView::MappingStart {
                anchor: anchor_view(*anchor),
                tag: tag_view(*tag),
                style: *style,
            },
            EventKind::MappingEnd => EventKindView::MappingEnd,
            EventKind::SequenceStart { anchor, tag, style } => EventKindView::SequenceStart {
                anchor: anchor_view(*anchor),
                tag: tag_view(*tag),
                style: *style,
            },
            EventKind::SequenceEnd => EventKindView::SequenceEnd,
            EventKind::Scalar { value, style, anchor, tag } => EventKindView::Scalar {
                value: value@,
                style: *style,
                anchor: anchor_view(*anchor),
                tag: tag_view(*tag),
            },
            EventKind::Alias { name } => EventKindView::Alias { name: name@ },
        }
    }
}

impl<'a> View for Event<'a> {
    type V = EventView;

    open spec fn view(&self) -> EventView {
        EventView { kind: self.kind@, span: self.span }
    }
}

impl EventKindView {
    /// The human-readable name of this event kind.
    pub open spec fn name(self) -> Seq<char> {
        match self {
            EventKindView::StreamStart => "stream-start"@,
            EventKindView::StreamEnd => "stream-end"@,
            EventKindView::DocumentStart { .. } => "document-start"@,
            EventKindView::DocumentEnd { .. } => "document-end"@,
            EventKindView::MappingStart { .. } => "mapping-start"@,
            EventKindView::MappingEnd => "mapping-end"@,
            EventKindView::SequenceStart { .. } => "sequence-start"@,
            EventKindView::SequenceEnd => "sequence-end"@,
            EventKindView::Scalar { .. } => "scalar"@,
            EventKindView::Alias { .. } => "alias"@,
        }
    }
}

impl<'a> EventKind<'a> {
    /// Returns a human-readable name for this event kind.
    #[must_use]
    pub fn name(&self) -> (r: &'static str)
        ensures
            r@ == self@.name(),
    {
        match self {
            EventKind::StreamStart => "stream-start",
            EventKind::StreamEnd => "stream-end",
            EventKind::DocumentStart { .. } => "document-start",
            EventKind::DocumentEnd { .. } => "document-end",
            EventKind::MappingStart { .. } => "mapping-start",
            EventKind::MappingEnd => "mapping-end",
            EventKind::SequenceStart { .. } => "sequence-start",
            EventKind::SequenceEnd => "sequence-end",
            EventKind::Scalar { .. } => "scalar",
            EventKind::Alias { .. } => "alias",
        }
    }
}

/// Copies an optional anchor.
fn copy_anchor<'a>(a: &Option<Cow<'a, str>>) -> (r: Option<Cow<'a, str>>)
    ensures
        anchor_view(r) == anchor_view(*a),
{
    match a {
        Some(c) => Some(copy_cow(c)),
        None => None,
    }
}

/// Copies an optional tag.
fn copy_tag<'a>(t: &Option<(Cow<'a, str>, Cow<'a, str>)>) -> (r: Option<
    (Cow<'a, str>, Cow<'a, str>),
>)
    ensures
        tag_view(r) == tag_view(*t),
{
    match t {
        Some(p) => Some((copy_cow(&p.0), copy_cow(&p.1))),
        None => None,
    }
}

impl<'a> Clone for EventKind<'a> {
    fn clone(&self) -> (r: Self)
        ensures
            r@ == self@,
    {
        match self {
            EventKind::StreamStart => EventKind::StreamStart,
            EventKind::StreamEnd => EventKind::StreamEnd,
            EventKind::DocumentStart { explicit } => EventKind::DocumentStart {
                explicit: *explicit,
            },
            EventKind::DocumentEnd { explicit } => EventKind::DocumentEnd { explicit: *explicit },
            EventKind::MappingStart { anchor, tag, style } => EventKind::MappingStart {
                anchor: copy_anchor(anchor),
                tag: copy_tag(tag),
                style: *style,
            },
            EventKind::MappingEnd => EventKind::MappingEnd,
            EventKind::SequenceStart { anchor, tag, style } => EventKind::SequenceStart {
                anchor: copy_anchor(anchor),
                tag: copy_tag(tag),
                style: *style,
            },
            EventKind::SequenceEnd => EventKind::SequenceEnd,
            EventKind::Scalar { value, style, anchor, tag } => EventKind::Scalar {
                value: copy_cow(value),
                style: *style,
                anchor: copy_anchor(anchor),
                tag: copy_tag(tag),
            },
            EventKind::Alias { name } => EventKind::Alias { name: copy_cow(name) },
        }
    }
}

impl<'a> Clone for Event<'a> {
    fn clone(&self) -> (r: Self)
        ensures
            r@ == self@,
    {
        Event { kind: self.kind.clone(), span: self.span }
    }
}

} // verus!
