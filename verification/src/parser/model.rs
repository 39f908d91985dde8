//! What the parser computes: its state as a value, and how that value changes
//! from event to event.
use crate::error::{unexpected, ErrorKindView, ErrorView};
use crate::limits::ResourceLimits;
use crate::parser::event::{AnchorView, EventKindView, EventView, TagView};
use crate::scanner::model::{Next, Scan};
use crate::scanner::token::{TokenKindView, TokenView};
use crate::types::{point, CollectionStyle, Position, ScalarStyle, Span};
use vstd::prelude::*;

verus! {

/// What the parser expects next.
#[derive(Debug, Clone, Copy, PartialEq, Eq, Structural)]
pub enum State {
    /// The start of the stream.
    StreamStart,
    /// Directives, a document or the end of the stream.
    DocumentStart,
    /// The root node of a document.
    DocumentContent,
    /// The end of a document.
    DocumentEnd,
    /// The next entry of a block sequence. `indentless`: it was started by a
    /// `BlockEntry`, and no `BlockEnd` belongs to it.
    BlockSequenceEntry {
        /// Whether this is the first entry.
        first: bool,
        /// Whether the sequence stands at the indentation of its parent mapping.
        indentless: bool,
    },
    /// The next key of a block mapping.
    BlockMappingKey {
        /// Whether this is the first key.
        first: bool,
    },
    /// The value of a block mapping.
    BlockMappingValue,
    /// The next entry of a flow sequence.
    FlowSequenceEntry {
        /// Whether this is the first entry.
        first: bool,
    },
    /// The next key of a flow mapping. `implicit`: a single pair inside a flow
    /// sequence.
    FlowMappingKey {
        /// Whether this is the first key.
        first: bool,
        /// Whether the mapping is a single pair inside a flow sequence.
        implicit: bool,
    },
    /// The value of a flow mapping.
    FlowMappingValue {
        /// Whether the mapping is a single pair inside a flow sequence.
        implicit: bool,
    },
    /// The missing value of a flow mapping key that stands alone.
    FlowMappingEmptyValue,
    /// Nothing.
    End,
}

/// The state of a parser.
#[verifier::ext_equal]
pub struct Parse {
    pub scan: Scan,
    /// The token read ahead.
    pub peeked: Option<TokenView>,
    /// What to return to when the current node is complete.
    pub states: Seq<State>,
    pub state: State,
    /// The number of open collections.
    pub depth: int,
    pub limits: ResourceLimits,
    pub errored: bool,
    /// The tag handles with their prefixes; a later one hides an earlier one.
    pub tags: Seq<(Seq<char>, Seq<char>)>,
    /// Whether the last document ended without `...`.
    pub implicit_end: bool,
}

/// The outcome of a step that only reads tokens.
pub type Read = core::result::Result<Parse, ErrorView>;

/// The outcome of a step that gives an event, or none at the end.
pub type Parsed = core::result::Result<(Parse, Option<EventView>), ErrorView>;

/// The prefix of a handle, if it is declared.
pub open spec fn prefix_of(tags: Seq<(Seq<char>, Seq<char>)>, handle: Seq<char>) -> Option<Seq<char>>
    decreases tags.len(),
{
    if tags.len() == 0 {
        None
    } else if tags.last().0 == handle {
        Some(tags.last().1)
    } else {
        prefix_of(tags.drop_last(), handle)
    }
}

/// The handles every document has.
pub open spec fn default_tags() -> Seq<(Seq<char>, Seq<char>)> {
    seq![("!!"@, "tag:yaml.org,2002:"@), ("!"@, "!"@)]
}

/// The event of an empty plain scalar.
pub open spec fn empty_scalar(anchor: AnchorView, tag: TagView, span: Span) -> EventView {
    EventView {
        kind: EventKindView::Scalar {
            value: ""@,
            style: ScalarStyle::Plain,
            anchor,
            tag,
        },
        span,
    }
}

/// The event that starts a sequence.
pub open spec fn sequence_start(anchor: AnchorView, tag: TagView, style: CollectionStyle, span: Span) -> EventView {
    EventView { kind: EventKindView::SequenceStart { anchor, tag, style }, span }
}

/// The event that starts a mapping.
pub open spec fn mapping_start(anchor: AnchorView, tag: TagView, style: CollectionStyle, span: Span) -> EventView {
    EventView { kind: EventKindView::MappingStart { anchor, tag, style }, span }
}

impl Parse {
    /// The state before anything is parsed.
    pub open spec fn fresh(b: Seq<u8>, limits: ResourceLimits) -> Parse {
        Parse {
            scan: Scan::fresh(b, limits, false),
            peeked: None,
            states: seq![],
            state: State::StreamStart,
            depth: 0,
            limits,
            errored: false,
            tags: seq![],
            implicit_end: false,
        }
    }

    // ─── Tokens ─────────────────────────────────────────────────────

    /// With the next token read ahead, if there is one.
    pub open spec fn filled(self) -> Read {
        if self.peeked is Some {
            Ok(self)
        } else {
            match self.scan.next_token() {
                Next::Token(t, s) => Ok(Parse { scan: s, peeked: Some(t), ..self }),
                Next::End(s) => Ok(Parse { scan: s, ..self }),
                Next::Failed(f) => Err(f.error),
            }
        }
    }

    /// The kind of the token read ahead.
    pub open spec fn kind(self) -> Option<TokenKindView> {
        match self.peeked {
            Some(t) => Some(t.kind),
            None => None,
        }
    }

    /// The span of the token read ahead; the start of the input without one.
    pub open spec fn span(self) -> Span {
        match self.peeked {
            Some(t) => t.span,
            None => point(Position::origin()),
        }
    }

    /// The name of the token read ahead.
    pub open spec fn found(self) -> Seq<char> {
        match self.peeked {
            Some(t) => t.kind.name(),
            None => "end-of-input"@,
        }
    }

    /// With the token read ahead consumed.
    pub open spec fn taken(self) -> Parse {
        Parse { peeked: None, ..self }
    }

    /// An unexpected-token error at the token read ahead.
    pub open spec fn error(self, expected: Seq<char>, found: Seq<char>) -> ErrorView {
        unexpected(expected, found, self.span())
    }

    /// The error of a stream that ends too early.
    pub open spec fn eof() -> ErrorView {
        ErrorView { kind: ErrorKindView::UnexpectedEof, span: None }
    }

    /// How many tokens are left at most.
    pub open spec fn todo(self) -> int {
        4 * self.scan.b.len() + 4 - self.scan.produced + (if self.peeked is Some {
            1int
        } else {
            0
        })
    }

    // ─── States ─────────────────────────────────────────────────────

    pub open spec fn enter(self, state: State) -> Parse {
        Parse { state, ..self }
    }

    pub open spec fn push(self, state: State) -> Parse {
        Parse { states: self.states.push(state), ..self }
    }

    /// Back to the state that the current node continues with.
    pub open spec fn pop(self) -> Parse {
        if self.states.len() == 0 {
            self.enter(State::End)
        } else {
            Parse { state: self.states.last(), states: self.states.drop_last(), ..self }
        }
    }

    /// Inside one more collection, unless that is one too many.
    pub open spec fn open(self, state: State, span: Span) -> Read {
        if self.depth + 1 > self.limits.max_depth {
            Err(
                ErrorView {
                    kind: ErrorKindView::DepthExceeded { limit: self.limits.max_depth },
                    span: Some(span),
                },
            )
        } else {
            Ok(Parse { depth: self.depth + 1, state, ..self })
        }
    }

    /// Out of the innermost collection.
    pub open spec fn close(self) -> Parse {
        Parse { depth: if self.depth > 0 { self.depth - 1 } else { 0 }, ..self }.pop()
    }

    /// Opens a collection with the given event.
    pub open spec fn opened(self, state: State, event: EventView) -> Parsed {
        match self.open(state, event.span) {
            Err(e) => Err(e),
            Ok(p) => Ok((p, Some(event))),
        }
    }

    /// Gives an empty scalar and goes to `state`.
    pub open spec fn empty(self, state: State, span: Span) -> Parsed {
        Ok((self.enter(state), Some(empty_scalar(None, None, span))))
    }

    // ─── Properties ─────────────────────────────────────────────────

    /// The tag that a handle and a suffix stand for. A verbatim tag has an empty
    /// handle.
    pub open spec fn resolve(self, handle: Seq<char>, suffix: Seq<char>, span: Span) -> core::result::Result<
        (Seq<char>, Seq<char>),
        ErrorView,
    > {
        if handle.len() == 0 {
            Ok((""@, suffix))
        } else {
            match prefix_of(self.tags, handle) {
                Some(prefix) => Ok((prefix, suffix)),
                None => Err(
                    unexpected(
                        "declared tag handle"@,
                        "undeclared tag handle '"@ + handle + "'"@,
                        span,
                    ),
                ),
            }
        }
    }

    /// Reads the properties of a node: at most one anchor, and tags, of which the
    /// last counts. Afterwards the token behind them is read ahead. Each property
    /// read leaves fewer tokens.
    pub open spec fn properties(self, anchor: AnchorView, tag: TagView) -> core::result::Result<
        (Parse, AnchorView, TagView),
        ErrorView,
    >
        decreases self.todo(),
    {
        match self.filled() {
            Err(e) => Err(e),
            Ok(p) => {
                let next = p.taken();
                if !(0 <= next.todo() < self.todo()) {
                    Ok((p, anchor, tag))
                } else {
                    match p.kind() {
                        Some(TokenKindView::Anchor(name)) => if anchor is Some {
                            Err(p.error("node content"@, "duplicate anchor"@))
                        } else {
                            next.properties(Some(name), tag)
                        },
                        Some(TokenKindView::Tag { handle, suffix }) => match p.resolve(
                            handle,
                            suffix,
                            p.span(),
                        ) {
                            Err(e) => Err(e),
                            Ok(t) => next.properties(anchor, Some(t)),
                        },
                        _ => Ok((p, anchor, tag)),
                    }
                }
            },
        }
    }

    // ─── Nodes ──────────────────────────────────────────────────────

    /// The node with the given properties whose first token is read ahead.
    pub open spec fn node_with(self, block: bool, indentless: bool, anchor: AnchorView, tag: TagView) -> Parsed {
        let span = self.span();
        match self.kind() {
            Some(TokenKindView::Alias(name)) => if anchor is Some || tag is Some {
                Err(self.error("node content"@, "alias (cannot have anchor or tag)"@))
            } else {
                Ok(
                    (
                        self.taken().pop(),
                        Some(EventView { kind: EventKindView::Alias { name }, span }),
                    ),
                )
            },
            Some(TokenKindView::Scalar { value, style }) => Ok(
                (
                    self.taken().pop(),
                    Some(
                        EventView { kind: EventKindView::Scalar { value, style, anchor, tag }, span },
                    ),
                ),
            ),
            Some(TokenKindView::FlowSequenceStart) => self.taken().opened(
                State::FlowSequenceEntry { first: true },
                sequence_start(anchor, tag, CollectionStyle::Flow, span),
            ),
            Some(TokenKindView::FlowMappingStart) => self.taken().opened(
                State::FlowMappingKey { first: true, implicit: false },
                mapping_start(anchor, tag, CollectionStyle::Flow, span),
            ),
            _ => if block && self.kind() == Some(TokenKindView::BlockSequenceStart) {
                self.taken().opened(
                    State::BlockSequenceEntry { first: true, indentless: false },
                    sequence_start(anchor, tag, CollectionStyle::Block, span),
                )
            } else if block && self.kind() == Some(TokenKindView::BlockMappingStart) {
                self.taken().opened(
                    State::BlockMappingKey { first: true },
                    mapping_start(anchor, tag, CollectionStyle::Block, span),
                )
            } else if indentless && self.kind() == Some(TokenKindView::BlockEntry) {
                self.opened(
                    State::BlockSequenceEntry { first: true, indentless: true },
                    sequence_start(anchor, tag, CollectionStyle::Block, span),
                )
            } else if anchor is Some || tag is Some {
                Ok((self.pop(), Some(empty_scalar(anchor, tag, span))))
            } else {
                Err(self.error("node content"@, self.found()))
            },
        }
    }

    /// The next node, with its properties.
    pub open spec fn node(self, block: bool, indentless: bool) -> Parsed {
        match self.properties(None, None) {
            Err(e) => Err(e),
            Ok((p, anchor, tag)) => p.node_with(block, indentless, anchor, tag),
        }
    }

    /// Whether the token read ahead belongs to the surroundings of an entry of a
    /// block sequence.
    pub open spec fn ends_entry(self) -> bool {
        self.kind() matches Some(k) && (k is BlockEntry || k is BlockEnd || k is Key || k is Value
            || k is DocumentStart || k is DocumentEnd || k is StreamEnd)
    }

    /// The node of a block sequence entry. If only properties stand there, they
    /// belong to an empty scalar.
    pub open spec fn entry_node(self) -> Parsed {
        match self.filled() {
            Err(e) => Err(e),
            Ok(p) => if p.kind() matches Some(k) && (k is Anchor || k is Tag) {
                match p.properties(None, None) {
                    Err(e) => Err(e),
                    Ok((q, anchor, tag)) => if q.ends_entry() {
                        Ok((q.pop(), Some(empty_scalar(anchor, tag, q.span()))))
                    } else {
                        q.node_with(true, true, anchor, tag)
                    },
                }
            } else {
                p.node(true, true)
            },
        }
    }

    // ─── Stream and documents ───────────────────────────────────────

    pub open spec fn stream_start(self) -> Parsed {
        match self.filled() {
            Err(e) => Err(e),
            Ok(p) => if p.peeked is None {
                Err(Parse::eof())
            } else {
                Ok(
                    (
                        p.taken().enter(State::DocumentStart),
                        Some(EventView { kind: EventKindView::StreamStart, span: p.span() }),
                    ),
                )
            },
        }
    }

    /// Reads directives, and skips document ends without a document. The flag
    /// tells whether there was any directive. Afterwards the token behind them is
    /// read ahead.
    pub open spec fn directives(self, has_version: bool, has_any: bool) -> core::result::Result<
        (Parse, bool),
        ErrorView,
    >
        decreases self.todo(),
    {
        match self.filled() {
            Err(e) => Err(e),
            Ok(p) => {
                let next = p.taken();
                if !(0 <= next.todo() < self.todo()) {
                    Ok((p, has_any))
                } else {
                    match p.kind() {
                        Some(TokenKindView::VersionDirective { .. }) => if p.implicit_end {
                            Err(
                                p.error(
                                    "document end '...' before directive"@,
                                    "%YAML directive"@,
                                ),
                            )
                        } else if has_version {
                            Err(p.error("document start '---'"@, "duplicate %YAML directive"@))
                        } else {
                            next.directives(true, true)
                        },
                        Some(TokenKindView::TagDirective { handle, prefix }) => if p.implicit_end {
                            Err(
                                p.error("document end '...' before directive"@, "%TAG directive"@),
                            )
                        } else {
                            Parse { tags: next.tags.push((handle, prefix)), ..next }.directives(
                                has_version,
                                true,
                            )
                        },
                        Some(TokenKindView::DocumentEnd) => next.directives(has_version, has_any),
                        _ => Ok((p, has_any)),
                    }
                }
            },
        }
    }

    pub open spec fn document_start(self) -> Parsed {
        match (Parse { tags: default_tags(), ..self }).directives(false, false) {
            Err(e) => Err(e),
            Ok((p, has_any)) => match p.kind() {
                Some(TokenKindView::DocumentStart) => Ok(
                    (
                        p.taken().enter(State::DocumentContent),
                        Some(
                            EventView {
                                kind: EventKindView::DocumentStart { explicit: true },
                                span: p.span(),
                            },
                        ),
                    ),
                ),
                Some(TokenKindView::StreamEnd) => if has_any {
                    Err(p.error("document start '---' after directive"@, "end of stream"@))
                } else {
                    Ok(
                        (
                            p.taken().enter(State::End),
                            Some(EventView { kind: EventKindView::StreamEnd, span: p.span() }),
                        ),
                    )
                },
                _ => if p.implicit_end {
                    Err(
                        p.error(
                            "document start '---' or document end '...'"@,
                            "content without document marker"@,
                        ),
                    )
                } else {
                    Ok(
                        (
                            p.enter(State::DocumentContent),
                            Some(
                                EventView {
                                    kind: EventKindView::DocumentStart { explicit: false },
                                    span: p.span(),
                                },
                            ),
                        ),
                    )
                },
            },
        }
    }

    pub open spec fn document_content(self) -> Parsed {
        match self.filled() {
            Err(e) => Err(e),
            Ok(p) => if p.kind() matches Some(k) && (k is DocumentEnd || k is DocumentStart
                || k is StreamEnd) {
                p.empty(State::DocumentEnd, p.span())
            } else {
                p.push(State::DocumentEnd).node(true, false)
            },
        }
    }

    pub open spec fn document_end(self) -> Parsed {
        match self.filled() {
            Err(e) => Err(e),
            Ok(p) => {
                let explicit = p.kind() == Some(TokenKindView::DocumentEnd);
                let q = if explicit {
                    p.taken()
                } else {
                    p
                };
                Ok(
                    (
                        Parse { implicit_end: !explicit, ..q }.enter(State::DocumentStart),
                        Some(
                            EventView {
                                kind: EventKindView::DocumentEnd { explicit },
                                span: p.span(),
                            },
                        ),
                    ),
                )
            },
        }
    }

    // ─── Block collections ──────────────────────────────────────────

    pub open spec fn block_sequence_entry(self, indentless: bool) -> Parsed {
        match self.filled() {
            Err(e) => Err(e),
            Ok(p) => if p.kind() == Some(TokenKindView::BlockEntry) {
                match p.taken().filled() {
                    Err(e) => Err(e),
                    Ok(q) => {
                        let next = State::BlockSequenceEntry { first: false, indentless };
                        if q.kind() matches Some(k) && (k is BlockEntry || k is BlockEnd) {
                            q.empty(next, p.span())
                        } else {
                            q.push(next).entry_node()
                        }
                    },
                }
            } else {
                let q = if p.kind() == Some(TokenKindView::BlockEnd) && !indentless {
                    p.taken()
                } else {
                    p
                };
                Ok(
                    (
                        q.close(),
                        Some(EventView { kind: EventKindView::SequenceEnd, span: p.span() }),
                    ),
                )
            },
        }
    }

    /// Whether the token read ahead leaves a key or value of a block mapping
    /// empty.
    pub open spec fn ends_block_pair(self) -> bool {
        self.kind() matches Some(k) && (k is Key || k is Value || k is BlockEnd)
    }

    pub open spec fn block_mapping_key(self) -> Parsed {
        match self.filled() {
            Err(e) => Err(e),
            Ok(p) => match p.kind() {
                Some(TokenKindView::Key) => match p.taken().filled() {
                    Err(e) => Err(e),
                    Ok(q) => if q.ends_block_pair() {
                        q.empty(State::BlockMappingValue, p.span())
                    } else {
                        q.push(State::BlockMappingValue).node(true, true)
                    },
                },
                Some(TokenKindView::Value) => p.empty(State::BlockMappingValue, p.span()),
                Some(_) => Ok(
                    (
                        p.taken().close(),
                        Some(EventView { kind: EventKindView::MappingEnd, span: p.span() }),
                    ),
                ),
                None => Err(Parse::eof()),
            },
        }
    }

    pub open spec fn block_mapping_value(self) -> Parsed {
        let next = State::BlockMappingKey { first: false };
        match self.filled() {
            Err(e) => Err(e),
            Ok(p) => if p.kind() == Some(TokenKindView::Value) {
                match p.taken().filled() {
                    Err(e) => Err(e),
                    Ok(q) => if q.ends_block_pair() {
                        q.empty(next, p.span())
                    } else {
                        q.push(next).node(true, true)
                    },
                }
            } else {
                p.empty(next, p.span())
            },
        }
    }

    // ─── Flow collections ───────────────────────────────────────────

    /// Past the comma between two entries, with the token behind it read ahead.
    /// The closing bracket may stand there instead.
    pub open spec fn separated(self, first: bool, end: TokenKindView, expected: Seq<char>) -> Read {
        match self.filled() {
            Err(e) => Err(e),
            Ok(p) => if first || p.kind() == Some(end) {
                Ok(p)
            } else if p.kind() == Some(TokenKindView::FlowEntry) {
                p.taken().filled()
            } else {
                Err(p.error(expected, p.found()))
            },
        }
    }

    pub open spec fn flow_sequence_entry(self, first: bool) -> Parsed {
        let next = State::FlowSequenceEntry { first: false };
        match self.separated(first, TokenKindView::FlowSequenceEnd, "',' or ']'"@) {
            Err(e) => Err(e),
            Ok(p) => match p.kind() {
                Some(TokenKindView::FlowSequenceEnd) => Ok(
                    (
                        p.taken().close(),
                        Some(EventView { kind: EventKindView::SequenceEnd, span: p.span() }),
                    ),
                ),
                Some(TokenKindView::Key) | Some(TokenKindView::Value) => p.push(next).opened(
                    State::FlowMappingKey { first: true, implicit: true },
                    mapping_start(None, None, CollectionStyle::Flow, p.span()),
                ),
                _ => p.push(next).node(false, false),
            },
        }
    }

    pub open spec fn flow_mapping_key(self, first: bool, implicit: bool) -> Parsed {
        if !first && implicit {
            match self.filled() {
                Err(e) => Err(e),
                Ok(p) => Ok(
                    (
                        p.close(),
                        Some(EventView { kind: EventKindView::MappingEnd, span: p.span() }),
                    ),
                ),
            }
        } else {
            match self.separated(first, TokenKindView::FlowMappingEnd, "',' or '}'"@) {
                Err(e) => Err(e),
                Ok(p) => p.flow_mapping_pair(implicit),
            }
        }
    }

    /// The next pair of a flow mapping whose first token is read ahead, or the
    /// end of the mapping.
    pub open spec fn flow_mapping_pair(self, implicit: bool) -> Parsed {
        let value = State::FlowMappingValue { implicit };
        match self.kind() {
            Some(TokenKindView::FlowMappingEnd) => Ok(
                (
                    self.taken().close(),
                    Some(EventView { kind: EventKindView::MappingEnd, span: self.span() }),
                ),
            ),
            Some(TokenKindView::Key) => match self.taken().filled() {
                Err(e) => Err(e),
                Ok(q) => if q.kind() matches Some(k) && (k is Value || k is FlowEntry
                    || k is FlowMappingEnd) {
                    q.empty(value, self.span())
                } else {
                    q.push(value).node(false, false)
                },
            },
            Some(TokenKindView::Value) => self.empty(value, self.span()),
            _ => self.push(State::FlowMappingEmptyValue).node(false, false),
        }
    }

    pub open spec fn flow_mapping_value(self, implicit: bool) -> Parsed {
        let next = State::FlowMappingKey { first: false, implicit };
        match self.filled() {
            Err(e) => Err(e),
            Ok(p) => if p.kind() == Some(TokenKindView::Value) {
                match p.taken().filled() {
                    Err(e) => Err(e),
                    Ok(q) => if q.kind() matches Some(k) && (k is FlowEntry || k is FlowMappingEnd) {
                        q.empty(next, p.span())
                    } else {
                        q.push(next).node(false, false)
                    },
                }
            } else {
                p.empty(next, p.span())
            },
        }
    }

    pub open spec fn flow_mapping_empty_value(self) -> Parsed {
        match self.filled() {
            Err(e) => Err(e),
            Ok(p) => p.empty(State::FlowMappingKey { first: false, implicit: false }, p.span()),
        }
    }

    // ─── Events ─────────────────────────────────────────────────────

    /// One step of the parser.
    pub open spec fn step(self) -> Parsed {
        match self.state {
            State::StreamStart => self.stream_start(),
            State::DocumentStart => self.document_start(),
            State::DocumentContent => self.document_content(),
            State::DocumentEnd => self.document_end(),
            State::BlockSequenceEntry { first, indentless } => self.block_sequence_entry(indentless),
            State::BlockMappingKey { first } => self.block_mapping_key(),
            State::BlockMappingValue => self.block_mapping_value(),
            State::FlowSequenceEntry { first } => self.flow_sequence_entry(first),
            State::FlowMappingKey { first, implicit } => self.flow_mapping_key(first, implicit),
            State::FlowMappingValue { implicit } => self.flow_mapping_value(implicit),
            State::FlowMappingEmptyValue => self.flow_mapping_empty_value(),
            State::End => Ok((self, None)),
        }
    }

    /// What the parser gives next.
    pub open spec fn next(self) -> NextEvent {
        if self.errored {
            NextEvent::End(self)
        } else {
            match self.step() {
                Err(e) => NextEvent::Failed(e),
                Ok((p, Some(e))) => NextEvent::Event(e, p),
                Ok((p, None)) => NextEvent::End(p),
            }
        }
    }
}

/// What the parser gives, and the state after it.
pub enum NextEvent {
    Event(EventView, Parse),
    End(Parse),
    Failed(ErrorView),
}

} // verus!
