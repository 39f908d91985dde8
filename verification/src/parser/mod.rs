//! YAML parser.
//!
//! Converts a [`Token`] stream into a sequence of [`Event`]s (SAX-style).
//! Implements a state machine with an explicit state stack for bounded stack usage
//! and depth limit enforcement.
//!
//! # Architecture
//!
//! The parser does not recurse — it uses a stack of states, and checks the number
//! of open collections against
//! [`ResourceLimits::max_depth`](crate::limits::ResourceLimits::max_depth) on every
//! collection entry. What it computes is stated in [`model`].
pub mod balance;
pub mod event;
pub mod gaps;
pub mod model;
pub mod progress;
pub mod stream;

use crate::error::{Error, ErrorKind, ParserConfig, Result};
use crate::limits::default_limits;
pub use crate::parser::event::{Event, EventKind};
use crate::parser::event::{anchor_view, tag_view};
use crate::parser::model::{default_tags, prefix_of, NextEvent, Parse, Parsed, Read, State};
use crate::scanner::cursor::MAX_INPUT;
use crate::scanner::token::{Token, TokenKind, TokenKindView};
use crate::scanner::Scanner;
use crate::text::{cow_str, same_text};
use crate::types::{CollectionStyle, Position, ScalarStyle, Span};
use std::borrow::Cow;
use vstd::prelude::*;
use vstd::string::*;

verus! {

/// The YAML parser.
///
/// Converts a token stream into events: call
/// [`next_event`](Parser::next_event) until it returns `None`.
pub struct Parser<'a> {
    scanner: Scanner<'a>,
    /// Buffered token from peeking.
    peeked: Option<Token<'a>>,
    /// State stack (explicit, not recursive).
    states: Vec<State>,
    /// Current state.
    state: State,
    /// Depth tracking for limit enforcement.
    depth: usize,
    /// Configuration.
    config: ParserConfig,
    /// Whether an error has been produced.
    errored: bool,
    /// Tag handle → prefix mappings from `%TAG` directives (per document).
    tag_directives: Vec<(String, String)>,
    /// Whether the last document end was implicit (no `...`).
    /// Directives are forbidden after an implicit document end (YAML 1.2.2 §9.2).
    implicit_doc_end: bool,
}

/// What the token read ahead is, as far as the parser tells tokens apart
/// without consuming them.
#[derive(Clone, Copy, PartialEq, Eq, Structural)]
enum Ahead {
    Nothing,
    StreamEnd,
    DocumentStart,
    DocumentEnd,
    VersionDirective,
    TagDirective,
    BlockSequenceStart,
    BlockMappingStart,
    BlockEntry,
    BlockEnd,
    FlowSequenceStart,
    FlowMappingStart,
    FlowSequenceEnd,
    FlowMappingEnd,
    FlowEntry,
    Key,
    Value,
    Alias,
    Anchor,
    Tag,
    Scalar,
    Other,
}

/// The class of a token.
spec fn ahead_of(k: Option<TokenKindView>) -> Ahead {
    match k {
        None => Ahead::Nothing,
        Some(TokenKindView::StreamEnd) => Ahead::StreamEnd,
        Some(TokenKindView::DocumentStart) => Ahead::DocumentStart,
        Some(TokenKindView::DocumentEnd) => Ahead::DocumentEnd,
        Some(TokenKindView::VersionDirective { .. }) => Ahead::VersionDirective,
        Some(TokenKindView::TagDirective { .. }) => Ahead::TagDirective,
        Some(TokenKindView::BlockSequenceStart) => Ahead::BlockSequenceStart,
        Some(TokenKindView::BlockMappingStart) => Ahead::BlockMappingStart,
        Some(TokenKindView::BlockEntry) => Ahead::BlockEntry,
        Some(TokenKindView::BlockEnd) => Ahead::BlockEnd,
        Some(TokenKindView::FlowSequenceStart) => Ahead::FlowSequenceStart,
        Some(TokenKindView::FlowMappingStart) => Ahead::FlowMappingStart,
        Some(TokenKindView::FlowSequenceEnd) => Ahead::FlowSequenceEnd,
        Some(TokenKindView::FlowMappingEnd) => Ahead::FlowMappingEnd,
        Some(TokenKindView::FlowEntry) => Ahead::FlowEntry,
        Some(TokenKindView::Key) => Ahead::Key,
        Some(TokenKindView::Value) => Ahead::Value,
        Some(TokenKindView::Alias(_)) => Ahead::Alias,
        Some(TokenKindView::Anchor(_)) => Ahead::Anchor,
        Some(TokenKindView::Tag { .. }) => Ahead::Tag,
        Some(TokenKindView::Scalar { .. }) => Ahead::Scalar,
        Some(_) => Ahead::Other,
    }
}

/// The values of the declared tag handles.
spec fn tag_views(s: Seq<(String, String)>) -> Seq<(Seq<char>, Seq<char>)> {
    Seq::new(s.len(), |i: int| (s[i].0@, s[i].1@))
}

impl<'a> View for Parser<'a> {
    type V = Parse;

    closed spec fn view(&self) -> Parse {
        Parse {
            scan: self.scanner@,
            peeked: match self.peeked {
                Some(t) => Some(t@),
                None => None,
            },
            states: self.states@,
            state: self.state,
            depth: self.depth as int,
            limits: self.config.limits,
            errored: self.errored,
            tags: tag_views(self.tag_directives@),
            implicit_end: self.implicit_doc_end,
        }
    }
}

impl<'a> Parser<'a> {
    /// The parser is in a state that parsing can reach.
    pub closed spec fn wf(&self) -> bool {
        &&& self.scanner.wf()
        &&& !self.scanner@.keep_trivia
        &&& self@.scan.produced <= 4 * self@.scan.b.len() + 2
    }

    /// The text that is parsed.
    pub closed spec fn source(&self) -> Seq<char> {
        self.scanner.source()
    }

    /// How reading tokens relates the states before and after it.
    spec fn read_as(before: Parser<'a>, after: Parser<'a>, r: Result<()>, read: Read) -> bool {
        &&& after.source() == before.source()
        &&& match read {
            Ok(p) => r is Ok && after@ == p && after.wf(),
            Err(e) => r matches Err(x) && x@ == e && after.scanner.wf(),
        }
    }

    /// How a step relates the states before and after it.
    spec fn parsed_as(
        before: Parser<'a>,
        after: Parser<'a>,
        r: Result<Option<Event<'a>>>,
        parsed: Parsed,
    ) -> bool {
        &&& after.source() == before.source()
        &&& match parsed {
            Ok((p, Some(e))) => r matches Ok(Some(x)) && x@ == e && after@ == p && after.wf(),
            Ok((p, None)) => r matches Ok(None) && after@ == p && after.wf(),
            Err(e) => r matches Err(x) && x@ == e && after.scanner.wf(),
        }
    }

    /// Creates a new parser for the given input.
    #[must_use]
    pub fn new(input: &'a str) -> (r: Self)
        requires
            input.spec_bytes().len() <= MAX_INPUT,
        ensures
            r.wf(),
            r.source() == input@,
            r@ == Parse::fresh(input.spec_bytes(), default_limits()),
    {
        Self::with_config(input, ParserConfig::default())
    }

    /// Creates a new parser with custom configuration.
    #[must_use]
    pub fn with_config(input: &'a str, config: ParserConfig) -> (r: Self)
        requires
            input.spec_bytes().len() <= MAX_INPUT,
        ensures
            r.wf(),
            r.source() == input@,
            r@ == Parse::fresh(input.spec_bytes(), config.limits),
    {
        let r = Parser {
            scanner: Scanner::with_limits(input, config.limits),
            peeked: None,
            states: Vec::new(),
            state: State::StreamStart,
            depth: 0,
            config,
            errored: false,
            tag_directives: Vec::new(),
            implicit_doc_end: false,
        };
        assert(r@ =~= Parse::fresh(input.spec_bytes(), config.limits));
        r
    }

    /// Returns the next event, or `None` if the stream is exhausted.
    pub fn next_event(&mut self) -> (r: Option<Result<Event<'a>>>)
        requires
            old(self).wf() || old(self)@.errored,
        ensures
            final(self).wf() || final(self)@.errored,
            final(self).source() == old(self).source(),
            match old(self)@.next() {
                NextEvent::Event(e, p) => r matches Some(Ok(x)) && x@ == e && final(self)@ == p,
                NextEvent::End(p) => r is None && final(self)@ == p,
                NextEvent::Failed(e) => r matches Some(Err(x)) && x@ == e && final(self)@.errored,
            },
            old(self)@.stacked() && (r matches Some(Ok(_))) ==> final(self)@.stacked() && 0
                <= final(self)@.rank() < old(self)@.rank() && !final(self)@.errored,
    {
        proof {
            if self@.stacked() {
                crate::parser::progress::lemma_next_event(self@);
            }
        }
        if self.errored {
            return None;
        }
        match self.parse() {
            Ok(Some(event)) => Some(Ok(event)),
            Ok(None) => None,
            Err(e) => {
                self.errored = true;
                Some(Err(e))
            },
        }
    }

    // ─── Token access ───────────────────────────────────────────────

    /// Reads the next token ahead, unless one is.
    fn peek_token(&mut self) -> (r: Result<()>)
        requires
            old(self).wf(),
        ensures
            Self::read_as(*old(self), *final(self), r, old(self)@.filled()),
            r is Ok ==> final(self)@.peeked is Some ==> 0 <= final(self)@.taken().todo() < old(self)@.todo(),
            r is Ok ==> final(self)@.peeked is None ==> final(self)@.todo() == old(self)@.todo(),
    {
        if self.peeked.is_none() {
            match self.scanner.next_token() {
                None => {
                    assert(self@ =~= Parse { scan: self.scanner@, ..old(self)@ });
                },
                Some(Ok(t)) => {
                    self.peeked = Some(t);
                    assert(self@ =~= Parse { scan: self.scanner@, peeked: Some(t@), ..old(self)@ });
                },
                Some(Err(e)) => {
                    return Err(e);
                },
            }
        }
        Ok(())
    }

    /// Consumes the token read ahead.
    fn take_token(&mut self) -> (r: Token<'a>)
        requires
            old(self).wf(),
            old(self)@.peeked is Some,
        ensures
            final(self).wf(),
            final(self).source() == old(self).source(),
            final(self)@ == old(self)@.taken(),
            r@ == old(self)@.peeked->0,
    {
        let t = self.peeked.take();
        assert(self@ =~= old(self)@.taken());
        match t {
            Some(t) => t,
            None => Token { kind: TokenKind::StreamEnd, span: Span::point(Position::start()) },
        }
    }

    /// Consumes the token read ahead, if there is one.
    fn skip_token(&mut self)
        requires
            old(self).wf(),
        ensures
            final(self).wf() || old(self)@.peeked is None,
            final(self).source() == old(self).source(),
            final(self)@ == old(self)@.taken(),
            old(self)@.peeked is Some ==> final(self).wf(),
            old(self)@.peeked is None ==> final(self)@ == old(self)@,
    {
        self.peeked = None;
        assert(self@ =~= old(self)@.taken());
    }

    /// The class of the token read ahead.
    fn ahead(&self) -> (r: Ahead)
        ensures
            r == ahead_of(self@.kind()),
    {
        match &self.peeked {
            None => Ahead::Nothing,
            Some(t) => match &t.kind {
                TokenKind::StreamEnd => Ahead::StreamEnd,
                TokenKind::DocumentStart => Ahead::DocumentStart,
                TokenKind::DocumentEnd => Ahead::DocumentEnd,
                TokenKind::VersionDirective { .. } => Ahead::VersionDirective,
                TokenKind::TagDirective { .. } => Ahead::TagDirective,
                TokenKind::BlockSequenceStart => Ahead::BlockSequenceStart,
                TokenKind::BlockMappingStart => Ahead::BlockMappingStart,
                TokenKind::BlockEntry => Ahead::BlockEntry,
                TokenKind::BlockEnd => Ahead::BlockEnd,
                TokenKind::FlowSequenceStart => Ahead::FlowSequenceStart,
                TokenKind::FlowMappingStart => Ahead::FlowMappingStart,
                TokenKind::FlowSequenceEnd => Ahead::FlowSequenceEnd,
                TokenKind::FlowMappingEnd => Ahead::FlowMappingEnd,
                TokenKind::FlowEntry => Ahead::FlowEntry,
                TokenKind::Key => Ahead::Key,
                TokenKind::Value => Ahead::Value,
                TokenKind::Alias(_) => Ahead::Alias,
                TokenKind::Anchor(_) => Ahead::Anchor,
                TokenKind::Tag { .. } => Ahead::Tag,
                TokenKind::Scalar { .. } => Ahead::Scalar,
                _ => Ahead::Other,
            },
        }
    }

    /// The span of the token read ahead.
    fn peeked_span(&self) -> (r: Span)
        ensures
            r == self@.span(),
    {
        match &self.peeked {
            Some(t) => t.span,
            None => Span::point(Position::start()),
        }
    }

    /// The name of the token read ahead.
    fn peeked_name(&self) -> (r: &'static str)
        ensures
            r@ == self@.found(),
    {
        match &self.peeked {
            Some(t) => t.kind.name(),
            None => "end-of-input",
        }
    }

    /// An unexpected-token error at the token read ahead.
    fn error_at(&self, expected: &str, found: &str) -> (r: Error)
        ensures
            r@ == self@.error(expected@, found@),
    {
        Error::unexpected(expected, found, self.peeked_span())
    }

    // ─── State management ────────────────────────────────────────────

    /// Sets the current state.
    fn set_state(&mut self, state: State)
        ensures
            final(self)@ == old(self)@.enter(state),
            old(self).wf() ==> final(self).wf(),
            final(self).source() == old(self).source(),
    {
        self.state = state;
        assert(self@ =~= old(self)@.enter(state));
    }

    /// Pushes a state to return to.
    fn push_state(&mut self, state: State)
        ensures
            final(self)@ == old(self)@.push(state),
            old(self).wf() ==> final(self).wf(),
            final(self).source() == old(self).source(),
    {
        self.states.push(state);
        assert(self@ =~= old(self)@.push(state));
    }

    /// Pops the previous state from the stack, restoring it as the current state.
    fn pop_state(&mut self)
        ensures
            final(self)@ == old(self)@.pop(),
            old(self).wf() ==> final(self).wf(),
            final(self).source() == old(self).source(),
    {
        match self.states.pop() {
            Some(s) => {
                self.state = s;
            },
            None => {
                self.state = State::End;
            },
        }
        assert(self@ =~= old(self)@.pop());
    }

    /// Enters a new collection, setting the state and checking the depth limit.
    /// The caller's continuation state must already be on the `states` stack.
    fn enter_collection(&mut self, state: State, event: Event<'a>) -> (r: Result<Option<Event<'a>>>)
        requires
            old(self).wf(),
        ensures
            Self::parsed_as(*old(self), *final(self), r, old(self)@.opened(state, event@)),
    {
        if self.depth >= self.config.limits.max_depth {
            return Err(Error::depth_exceeded(&self.config.limits, event.span));
        }
        self.depth = self.depth + 1;
        self.state = state;
        assert(self@ =~= Parse { depth: old(self)@.depth + 1, state, ..old(self)@ });
        Ok(Some(event))
    }

    /// Leaves a collection, decrementing depth and popping the continuation state.
    fn leave_collection(&mut self)
        ensures
            final(self)@ == old(self)@.close(),
            old(self).wf() ==> final(self).wf(),
            final(self).source() == old(self).source(),
    {
        if self.depth > 0 {
            self.depth = self.depth - 1;
        }
        assert(self@ =~= Parse {
            depth: if old(self)@.depth > 0 {
                old(self)@.depth - 1
            } else {
                0
            },
            ..old(self)@
        });
        self.pop_state();
    }

    /// Gives an empty scalar and goes to `state`.
    fn empty_then(&mut self, state: State, span: Span) -> (r: Result<Option<Event<'a>>>)
        requires
            old(self).wf(),
        ensures
            Self::parsed_as(*old(self), *final(self), r, old(self)@.empty(state, span)),
    {
        self.set_state(state);
        Ok(Some(empty_scalar(None, None, span)))
    }

    // ─── Anchor/Tag collection ──────────────────────────────────────

    /// Reads the properties of a node; afterwards the token behind them is read
    /// ahead.
    fn parse_anchor_and_tag(&mut self) -> (r: Result<
        (Option<Cow<'a, str>>, Option<(Cow<'a, str>, Cow<'a, str>)>),
    >)
        requires
            old(self).wf(),
        ensures
            final(self).source() == old(self).source(),
            match old(self)@.properties(None, None) {
                Ok((p, a, t)) => r matches Ok(x) && anchor_view(x.0) == a && tag_view(x.1) == t
                    && final(self)@ == p && final(self).wf(),
                Err(e) => r matches Err(x) && x@ == e && final(self).scanner.wf(),
            },
    {
        let ghost goal = self@.properties(None, None);
        let mut anchor: Option<Cow<'a, str>> = None;
        let mut tag: Option<(Cow<'a, str>, Cow<'a, str>)> = None;
        loop
            invariant
                goal == self@.properties(anchor_view(anchor), tag_view(tag)),
                goal == old(self)@.properties(None, None),
                self.wf(),
                self.source() == old(self).source(),
            decreases self@.todo(),
        {
            match self.peek_token() {
                Err(e) => {
                    return Err(e);
                },
                Ok(()) => {},
            }
            match self.ahead() {
                Ahead::Anchor => {
                    // A node can have at most one anchor (YAML 1.2.2 §6.9.2).
                    if anchor.is_some() {
                        return Err(self.error_at("node content", "duplicate anchor"));
                    }
                    let token = self.take_token();
                    if let TokenKind::Anchor(name) = token.kind {
                        anchor = Some(name);
                    }
                },
                Ahead::Tag => {
                    let ghost p = self@;
                    let token = self.take_token();
                    let span = token.span;
                    if let TokenKind::Tag { handle, suffix } = token.kind {
                        match self.resolve_tag(handle, suffix, span) {
                            Err(e) => {
                                return Err(e);
                            },
                            Ok(t) => {
                                tag = Some(t);
                            },
                        }
                    }
                },
                _ => {
                    return Ok((anchor, tag));
                },
            }
        }
    }

    /// Resolves a tag handle + suffix using the current `%TAG` directives.
    ///
    /// - Verbatim tags (empty handle from `!<uri>`) pass through as-is.
    /// - Known handles (`!`, `!!`, custom `!e!`) are expanded to their declared prefix.
    /// - Unknown handles produce an error (YAML 1.2.2 §6.8.2).
    fn resolve_tag(&self, handle: Cow<'a, str>, suffix: Cow<'a, str>, span: Span) -> (r: Result<
        (Cow<'a, str>, Cow<'a, str>),
    >)
        ensures
            match self@.resolve(handle@, suffix@, span) {
                Ok(t) => r matches Ok(x) && (x.0@, x.1@) == t,
                Err(e) => r matches Err(x) && x@ == e,
            },
    {
        let h = cow_str(&handle);
        if h.is_empty() {
            return Ok((Cow::Borrowed(""), suffix));
        }
        let mut n: usize = self.tag_directives.len();
        let ghost goal = prefix_of(self@.tags, handle@);
        assert(self@.tags.take(n as int) =~= self@.tags);
        while n > 0
            invariant
                n <= self.tag_directives@.len(),
                h@ == handle@,
                goal == prefix_of(self@.tags, handle@),
                goal == prefix_of(self@.tags.take(n as int), handle@),
                handle@.len() > 0,
            decreases n,
        {
            n -= 1;
            let ghost shorter = self@.tags.take(n + 1);
            assert(shorter.last() == self@.tags[n as int]);
            assert(shorter.drop_last() =~= self@.tags.take(n as int));
            if same_text(self.tag_directives[n].0.as_str(), h) {
                return Ok((Cow::Owned(self.tag_directives[n].1.clone()), suffix));
            }
        }
        let mut found = "undeclared tag handle '".to_owned();
        found.append(h);
        found.append("'");
        Err(Error::unexpected("declared tag handle", found.as_str(), span))
    }

    // ─── Main parse dispatch ────────────────────────────────────────

    fn parse(&mut self) -> (r: Result<Option<Event<'a>>>)
        requires
            old(self).wf(),
        ensures
            Self::parsed_as(*old(self), *final(self), r, old(self)@.step()),
    {
        match self.state {
            State::StreamStart => self.parse_stream_start(),
            State::DocumentStart => self.parse_document_start(),
            State::DocumentContent => self.parse_document_content(),
            State::DocumentEnd => self.parse_document_end(),
            State::BlockSequenceEntry { indentless, .. } => self.parse_block_sequence_entry(
                indentless,
            ),
            State::BlockMappingKey { .. } => self.parse_block_mapping_key(),
            State::BlockMappingValue => self.parse_block_mapping_value(),
            State::FlowSequenceEntry { first } => self.parse_flow_sequence_entry(first),
            State::FlowMappingKey { first, implicit } => self.parse_flow_mapping_key(
                first,
                implicit,
            ),
            State::FlowMappingValue { implicit } => self.parse_flow_mapping_value(implicit),
            State::FlowMappingEmptyValue => self.parse_flow_mapping_empty_value(),
            State::End => Ok(None),
        }
    }

    // ─── Stream ─────────────────────────────────────────────────────

    fn parse_stream_start(&mut self) -> (r: Result<Option<Event<'a>>>)
        requires
            old(self).wf(),
        ensures
            Self::parsed_as(*old(self), *final(self), r, old(self)@.stream_start()),
    {
        match self.peek_token() {
            Err(e) => {
                return Err(e);
            },
            Ok(()) => {},
        }
        if self.peeked.is_none() {
            return Err(Error::spanless(ErrorKind::UnexpectedEof));
        }
        let token = self.take_token();
        self.set_state(State::DocumentStart);
        Ok(Some(Event { kind: EventKind::StreamStart, span: token.span }))
    }

    // ─── Document ───────────────────────────────────────────────────

    /// Registers the tag handles that every document has, and no others.
    fn reset_tags(&mut self)
        requires
            old(self).wf(),
        ensures
            final(self).wf(),
            final(self).source() == old(self).source(),
            final(self)@ == (Parse { tags: default_tags(), ..old(self)@ }),
    {
        let mut tags: Vec<(String, String)> = Vec::new();
        tags.push(("!!".to_owned(), "tag:yaml.org,2002:".to_owned()));
        tags.push(("!".to_owned(), "!".to_owned()));
        self.tag_directives = tags;
        assert(self@ =~= Parse { tags: default_tags(), ..old(self)@ });
    }

    /// Reads directives; tells whether there was any.
    ///
    /// Bare document-end markers are skipped: a `...` without a preceding
    /// document is valid YAML.
    fn parse_directives(&mut self) -> (r: Result<bool>)
        requires
            old(self).wf(),
        ensures
            final(self).source() == old(self).source(),
            match old(self)@.directives(false, false) {
                Ok((p, any)) => r == Ok::<bool, Error>(any) && final(self)@ == p
                    && final(self).wf(),
                Err(e) => r matches Err(x) && x@ == e && final(self).scanner.wf(),
            },
    {
        let ghost goal = self@.directives(false, false);
        let mut has_version = false;
        let mut has_any = false;
        loop
            invariant
                goal == self@.directives(has_version, has_any),
                goal == old(self)@.directives(false, false),
                self.wf(),
                self.source() == old(self).source(),
            decreases self@.todo(),
        {
            match self.peek_token() {
                Err(e) => {
                    return Err(e);
                },
                Ok(()) => {},
            }
            match self.ahead() {
                Ahead::VersionDirective => {
                    // Directives require an explicit document-end '...' first
                    // if a previous document was implicitly closed (YAML 1.2.2 §9.2).
                    if self.implicit_doc_end {
                        return Err(
                            self.error_at("document end '...' before directive", "%YAML directive"),
                        );
                    }
                    if has_version {
                        return Err(
                            self.error_at("document start '---'", "duplicate %YAML directive"),
                        );
                    }
                    has_version = true;
                    has_any = true;
                    self.skip_token();
                },
                Ahead::TagDirective => {
                    if self.implicit_doc_end {
                        return Err(
                            self.error_at("document end '...' before directive", "%TAG directive"),
                        );
                    }
                    has_any = true;
                    let token = self.take_token();
                    let ghost next = self@;
                    if let TokenKind::TagDirective { handle, prefix } = token.kind {
                        let h = cow_str(&handle).to_owned();
                        let p = cow_str(&prefix).to_owned();
                        self.tag_directives.push((h, p));
                        assert(self@ =~= Parse {
                            tags: next.tags.push((handle@, prefix@)),
                            ..next
                        });
                    }
                },
                Ahead::DocumentEnd => {
                    self.skip_token();
                },
                _ => {
                    return Ok(has_any);
                },
            }
        }
    }

    fn parse_document_start(&mut self) -> (r: Result<Option<Event<'a>>>)
        requires
            old(self).wf(),
        ensures
            Self::parsed_as(*old(self), *final(self), r, old(self)@.document_start()),
    {
        self.reset_tags();
        let has_any = match self.parse_directives() {
            Err(e) => {
                return Err(e);
            },
            Ok(v) => v,
        };
        let span = self.peeked_span();
        match self.ahead() {
            Ahead::DocumentStart => {
                self.skip_token();
                self.set_state(State::DocumentContent);
                Ok(Some(Event { kind: EventKind::DocumentStart { explicit: true }, span }))
            },
            Ahead::StreamEnd => {
                // Directives must be followed by a document (9MMA, B63P)
                if has_any {
                    return Err(
                        self.error_at("document start '---' after directive", "end of stream"),
                    );
                }
                self.skip_token();
                self.set_state(State::End);
                Ok(Some(Event { kind: EventKind::StreamEnd, span }))
            },
            _ => {
                // Per YAML §9.2, bare documents are only valid as the first
                // document in the stream or after an explicit document-end
                // marker '...'.
                if self.implicit_doc_end {
                    return Err(
                        self.error_at(
                            "document start '---' or document end '...'",
                            "content without document marker",
                        ),
                    );
                }
                self.set_state(State::DocumentContent);
                Ok(Some(Event { kind: EventKind::DocumentStart { explicit: false }, span }))
            },
        }
    }

    fn parse_document_content(&mut self) -> (r: Result<Option<Event<'a>>>)
        requires
            old(self).wf(),
        ensures
            Self::parsed_as(*old(self), *final(self), r, old(self)@.document_content()),
    {
        match self.peek_token() {
            Err(e) => {
                return Err(e);
            },
            Ok(()) => {},
        }
        let a = self.ahead();
        if a == Ahead::DocumentEnd || a == Ahead::DocumentStart || a == Ahead::StreamEnd {
            let span = self.peeked_span();
            return self.empty_then(State::DocumentEnd, span);
        }
        self.push_state(State::DocumentEnd);
        self.parse_node(true, false)
    }

    fn parse_document_end(&mut self) -> (r: Result<Option<Event<'a>>>)
        requires
            old(self).wf(),
        ensures
            Self::parsed_as(*old(self), *final(self), r, old(self)@.document_end()),
    {
        match self.peek_token() {
            Err(e) => {
                return Err(e);
            },
            Ok(()) => {},
        }
        let span = self.peeked_span();
        let explicit = self.ahead() == Ahead::DocumentEnd;
        if explicit {
            self.skip_token();
        }
        let ghost q = self@;
        self.implicit_doc_end = !explicit;
        assert(self@ =~= Parse { implicit_end: !explicit, ..q });
        self.set_state(State::DocumentStart);
        Ok(Some(Event { kind: EventKind::DocumentEnd { explicit }, span }))
    }

    // ─── Node ───────────────────────────────────────────────────────
    //
    // Convention: before calling parse_node, the caller pushes its
    // continuation state onto `self.states`. For a scalar / alias,
    // parse_node pops that continuation immediately. For a collection,
    // the continuation stays on the stack and is popped when the
    // collection ends via `leave_collection`.

    fn parse_node(&mut self, block: bool, indentless: bool) -> (r: Result<Option<Event<'a>>>)
        requires
            old(self).wf(),
        ensures
            Self::parsed_as(*old(self), *final(self), r, old(self)@.node(block, indentless)),
    {
        match self.parse_anchor_and_tag() {
            Err(e) => Err(e),
            Ok((anchor, tag)) => self.parse_node_inner(block, indentless, anchor, tag),
        }
    }

    /// Core node dispatch given already-parsed anchor/tag properties. The first
    /// token of the node is read ahead.
    fn parse_node_inner(
        &mut self,
        block: bool,
        indentless: bool,
        anchor: Option<Cow<'a, str>>,
        tag: Option<(Cow<'a, str>, Cow<'a, str>)>,
    ) -> (r: Result<Option<Event<'a>>>)
        requires
            old(self).wf(),
        ensures
            Self::parsed_as(
                *old(self),
                *final(self),
                r,
                old(self)@.node_with(block, indentless, anchor_view(anchor), tag_view(tag)),
            ),
    {
        let span = self.peeked_span();
        let a = self.ahead();
        if a == Ahead::Alias {
            // Aliases cannot have node properties (anchors or tags)
            if anchor.is_some() || tag.is_some() {
                return Err(self.error_at("node content", "alias (cannot have anchor or tag)"));
            }
            let token = self.take_token();
            self.pop_state();
            if let TokenKind::Alias(name) = token.kind {
                return Ok(Some(Event { kind: EventKind::Alias { name }, span }));
            }
            return Ok(None);
        }
        if a == Ahead::Scalar {
            let token = self.take_token();
            self.pop_state();
            if let TokenKind::Scalar { value, style } = token.kind {
                return Ok(
                    Some(Event { kind: EventKind::Scalar { value, style, anchor, tag }, span }),
                );
            }
            return Ok(None);
        }
        if a == Ahead::FlowSequenceStart {
            self.skip_token();
            let kind = EventKind::SequenceStart { anchor, tag, style: CollectionStyle::Flow };
            return self.enter_collection(
                State::FlowSequenceEntry { first: true },
                Event { kind, span },
            );
        }
        if a == Ahead::FlowMappingStart {
            self.skip_token();
            let kind = EventKind::MappingStart { anchor, tag, style: CollectionStyle::Flow };
            return self.enter_collection(
                State::FlowMappingKey { first: true, implicit: false },
                Event { kind, span },
            );
        }
        if block && a == Ahead::BlockSequenceStart {
            self.skip_token();
            let kind = EventKind::SequenceStart { anchor, tag, style: CollectionStyle::Block };
            return self.enter_collection(
                State::BlockSequenceEntry { first: true, indentless: false },
                Event { kind, span },
            );
        }
        if block && a == Ahead::BlockMappingStart {
            self.skip_token();
            let kind = EventKind::MappingStart { anchor, tag, style: CollectionStyle::Block };
            return self.enter_collection(
                State::BlockMappingKey { first: true },
                Event { kind, span },
            );
        }
        // Indentless block sequence: `-` at the same indent as the parent
        // mapping, without a preceding BlockSequenceStart token.
        if indentless && a == Ahead::BlockEntry {
            let kind = EventKind::SequenceStart { anchor, tag, style: CollectionStyle::Block };
            return self.enter_collection(
                State::BlockSequenceEntry { first: true, indentless: true },
                Event { kind, span },
            );
        }
        if anchor.is_some() || tag.is_some() {
            // Empty scalar with anchor/tag
            self.pop_state();
            return Ok(Some(empty_scalar(anchor, tag, span)));
        }
        Err(self.error_at("node content", self.peeked_name()))
    }

    /// Parse the node of a block sequence entry.
    ///
    /// When we see an anchor/tag followed by a token of the surroundings, the
    /// anchor/tag belongs to an empty scalar — a `BlockEntry` there is the next
    /// entry in the *parent* sequence, not a new indentless sequence for this value.
    fn parse_node_indentless(&mut self) -> (r: Result<Option<Event<'a>>>)
        requires
            old(self).wf(),
        ensures
            Self::parsed_as(*old(self), *final(self), r, old(self)@.entry_node()),
    {
        match self.peek_token() {
            Err(e) => {
                return Err(e);
            },
            Ok(()) => {},
        }
        let a = self.ahead();
        if a == Ahead::Anchor || a == Ahead::Tag {
            match self.parse_anchor_and_tag() {
                Err(e) => {
                    return Err(e);
                },
                Ok((anchor, tag)) => {
                    let b = self.ahead();
                    if b == Ahead::BlockEntry || b == Ahead::BlockEnd || b == Ahead::Key || b
                        == Ahead::Value || b == Ahead::DocumentStart || b == Ahead::DocumentEnd || b
                        == Ahead::StreamEnd {
                        let span = self.peeked_span();
                        self.pop_state();
                        return Ok(Some(empty_scalar(anchor, tag, span)));
                    }
                    return self.parse_node_inner(true, true, anchor, tag);
                },
            }
        }
        self.parse_node(true, true)
    }

    // ─── Block Sequence ─────────────────────────────────────────────

    /// A `BlockEntry` token leads every entry; any other token terminates the
    /// sequence.
    fn parse_block_sequence_entry(&mut self, indentless: bool) -> (r: Result<Option<Event<'a>>>)
        requires
            old(self).wf(),
        ensures
            Self::parsed_as(*old(self), *final(self), r, old(self)@.block_sequence_entry(indentless)),
    {
        match self.peek_token() {
            Err(e) => {
                return Err(e);
            },
            Ok(()) => {},
        }
        let span = self.peeked_span();
        let a = self.ahead();
        if a == Ahead::BlockEntry {
            self.skip_token();
            match self.peek_token() {
                Err(e) => {
                    return Err(e);
                },
                Ok(()) => {},
            }
            let next = State::BlockSequenceEntry { first: false, indentless };
            let b = self.ahead();
            if b == Ahead::BlockEntry || b == Ahead::BlockEnd {
                return self.empty_then(next, span);
            }
            self.push_state(next);
            return self.parse_node_indentless();
        }
        if a == Ahead::BlockEnd && !indentless {
            // Only sequences that started with `BlockSequenceStart` receive one.
            self.skip_token();
        }
        self.leave_collection();
        Ok(Some(Event { kind: EventKind::SequenceEnd, span }))
    }

    // ─── Block Mapping ──────────────────────────────────────────────

    /// Every mapping entry is led by a `Key` or `Value` token. Any other token
    /// (notably `BlockEnd`) closes the mapping; it is consumed.
    fn parse_block_mapping_key(&mut self) -> (r: Result<Option<Event<'a>>>)
        requires
            old(self).wf(),
        ensures
            Self::parsed_as(*old(self), *final(self), r, old(self)@.block_mapping_key()),
    {
        match self.peek_token() {
            Err(e) => {
                return Err(e);
            },
            Ok(()) => {},
        }
        let span = self.peeked_span();
        match self.ahead() {
            Ahead::Key => {
                self.skip_token();
                match self.peek_token() {
                    Err(e) => {
                        return Err(e);
                    },
                    Ok(()) => {},
                }
                let b = self.ahead();
                if b == Ahead::Key || b == Ahead::Value || b == Ahead::BlockEnd {
                    return self.empty_then(State::BlockMappingValue, span);
                }
                self.push_state(State::BlockMappingValue);
                self.parse_node(true, true)
            },
            Ahead::Value => self.empty_then(State::BlockMappingValue, span),
            Ahead::Nothing => Err(Error::spanless(ErrorKind::UnexpectedEof)),
            _ => {
                self.skip_token();
                self.leave_collection();
                Ok(Some(Event { kind: EventKind::MappingEnd, span }))
            },
        }
    }

    fn parse_block_mapping_value(&mut self) -> (r: Result<Option<Event<'a>>>)
        requires
            old(self).wf(),
        ensures
            Self::parsed_as(*old(self), *final(self), r, old(self)@.block_mapping_value()),
    {
        match self.peek_token() {
            Err(e) => {
                return Err(e);
            },
            Ok(()) => {},
        }
        let span = self.peeked_span();
        let next = State::BlockMappingKey { first: false };
        if self.ahead() == Ahead::Value {
            self.skip_token();
            match self.peek_token() {
                Err(e) => {
                    return Err(e);
                },
                Ok(()) => {},
            }
            let b = self.ahead();
            if b == Ahead::Key || b == Ahead::Value || b == Ahead::BlockEnd {
                return self.empty_then(next, span);
            }
            self.push_state(next);
            return self.parse_node(true, true);
        }
        self.empty_then(next, span)
    }

    // ─── Flow collections ───────────────────────────────────────────

    /// Moves past the comma between two entries of a flow collection.
    fn parse_separator(&mut self, first: bool, end: Ahead, expected: &str) -> (r: Result<()>)
        requires
            old(self).wf(),
            end == Ahead::FlowSequenceEnd || end == Ahead::FlowMappingEnd,
        ensures
            Self::read_as(
                *old(self),
                *final(self),
                r,
                old(self)@.separated(
                    first,
                    if end == Ahead::FlowSequenceEnd {
                        TokenKindView::FlowSequenceEnd
                    } else {
                        TokenKindView::FlowMappingEnd
                    },
                    expected@,
                ),
            ),
    {
        match self.peek_token() {
            Err(e) => {
                return Err(e);
            },
            Ok(()) => {},
        }
        let a = self.ahead();
        if first || a == end {
            return Ok(());
        }
        if a == Ahead::FlowEntry {
            self.skip_token();
            return self.peek_token();
        }
        Err(self.error_at(expected, self.peeked_name()))
    }

    fn parse_flow_sequence_entry(&mut self, first: bool) -> (r: Result<Option<Event<'a>>>)
        requires
            old(self).wf(),
        ensures
            Self::parsed_as(*old(self), *final(self), r, old(self)@.flow_sequence_entry(first)),
    {
        match self.parse_separator(first, Ahead::FlowSequenceEnd, "',' or ']'") {
            Err(e) => {
                return Err(e);
            },
            Ok(()) => {},
        }
        let span = self.peeked_span();
        let next = State::FlowSequenceEntry { first: false };
        match self.ahead() {
            Ahead::FlowSequenceEnd => {
                self.skip_token();
                self.leave_collection();
                Ok(Some(Event { kind: EventKind::SequenceEnd, span }))
            },
            Ahead::Key | Ahead::Value => {
                // Implicit mapping inside flow sequence: [a: 1, b: 2] or [: value].
                // The token is left for the mapping.
                self.push_state(next);
                let kind = EventKind::MappingStart {
                    anchor: None,
                    tag: None,
                    style: CollectionStyle::Flow,
                };
                self.enter_collection(
                    State::FlowMappingKey { first: true, implicit: true },
                    Event { kind, span },
                )
            },
            _ => {
                self.push_state(next);
                self.parse_node(false, false)
            },
        }
    }

    fn parse_flow_mapping_key(&mut self, first: bool, implicit: bool) -> (r: Result<
        Option<Event<'a>>,
    >)
        requires
            old(self).wf(),
        ensures
            Self::parsed_as(
                *old(self),
                *final(self),
                r,
                old(self)@.flow_mapping_key(first, implicit),
            ),
    {
        if !first && implicit {
            // Single-pair implicit mapping — auto-close after one entry.
            match self.peek_token() {
                Err(e) => {
                    return Err(e);
                },
                Ok(()) => {},
            }
            let span = self.peeked_span();
            self.leave_collection();
            return Ok(Some(Event { kind: EventKind::MappingEnd, span }));
        }
        match self.parse_separator(first, Ahead::FlowMappingEnd, "',' or '}'") {
            Err(e) => {
                return Err(e);
            },
            Ok(()) => {},
        }
        self.parse_flow_mapping_pair(implicit)
    }

    /// The next pair of a flow mapping, or its end; its first token is read
    /// ahead.
    fn parse_flow_mapping_pair(&mut self, implicit: bool) -> (r: Result<Option<Event<'a>>>)
        requires
            old(self).wf(),
        ensures
            Self::parsed_as(*old(self), *final(self), r, old(self)@.flow_mapping_pair(implicit)),
    {
        let span = self.peeked_span();
        let value = State::FlowMappingValue { implicit };
        match self.ahead() {
            Ahead::FlowMappingEnd => {
                self.skip_token();
                self.leave_collection();
                Ok(Some(Event { kind: EventKind::MappingEnd, span }))
            },
            Ahead::Key => {
                self.skip_token();
                match self.peek_token() {
                    Err(e) => {
                        return Err(e);
                    },
                    Ok(()) => {},
                }
                let b = self.ahead();
                if b == Ahead::Value || b == Ahead::FlowEntry || b == Ahead::FlowMappingEnd {
                    return self.empty_then(value, span);
                }
                self.push_state(value);
                self.parse_node(false, false)
            },
            // Empty key — bare `:` without preceding key: { : bar } or [ : val ]
            Ahead::Value => self.empty_then(value, span),
            _ => {
                // Implicit key
                self.push_state(State::FlowMappingEmptyValue);
                self.parse_node(false, false)
            },
        }
    }

    fn parse_flow_mapping_value(&mut self, implicit: bool) -> (r: Result<Option<Event<'a>>>)
        requires
            old(self).wf(),
        ensures
            Self::parsed_as(*old(self), *final(self), r, old(self)@.flow_mapping_value(implicit)),
    {
        match self.peek_token() {
            Err(e) => {
                return Err(e);
            },
            Ok(()) => {},
        }
        let span = self.peeked_span();
        let next = State::FlowMappingKey { first: false, implicit };
        if self.ahead() == Ahead::Value {
            self.skip_token();
            match self.peek_token() {
                Err(e) => {
                    return Err(e);
                },
                Ok(()) => {},
            }
            let b = self.ahead();
            if b == Ahead::FlowEntry || b == Ahead::FlowMappingEnd {
                return self.empty_then(next, span);
            }
            self.push_state(next);
            return self.parse_node(false, false);
        }
        self.empty_then(next, span)
    }

    fn parse_flow_mapping_empty_value(&mut self) -> (r: Result<Option<Event<'a>>>)
        requires
            old(self).wf(),
        ensures
            Self::parsed_as(*old(self), *final(self), r, old(self)@.flow_mapping_empty_value()),
    {
        match self.peek_token() {
            Err(e) => {
                return Err(e);
            },
            Ok(()) => {},
        }
        let span = self.peeked_span();
        self.empty_then(State::FlowMappingKey { first: false, implicit: false }, span)
    }
}

/// The event of an empty plain scalar.
fn empty_scalar<'a>(
    anchor: Option<Cow<'a, str>>,
    tag: Option<(Cow<'a, str>, Cow<'a, str>)>,
    span: Span,
) -> (r: Event<'a>)
    ensures
        r@ == model::empty_scalar(anchor_view(anchor), tag_view(tag), span),
{
    let kind = EventKind::Scalar {
        value: Cow::Borrowed(""),
        style: ScalarStyle::Plain,
        anchor,
        tag,
    };
    Event { kind, span }
}

} // verus!
