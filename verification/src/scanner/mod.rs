//! YAML scanner (lexer).
//!
//! Converts a byte stream into a sequence of [`Token`]s.
//! Handles UTF-8 BOM detection, character classification, indentation tracking,
//! and all YAML indicators.
//!
//! # Architecture
//!
//! The scanner tracks:
//! - Current position in the input (byte offset, line, column)
//! - Indentation stack for emitting implicit block tokens
//! - Flow collections for context-sensitive scanning inside `[]` and `{}`
//! - Simple key candidates for detecting implicit mapping keys
//!
//! What it computes is stated in [`model`]; the modules beside it hold the
//! scalars, properties and directives.
pub mod advance;
pub mod block;
pub mod chars;
pub mod chomp;
pub mod cursor;
pub mod depth;
pub mod folding;
pub mod frame;
pub mod indicators;
pub mod marks;
pub mod model;
pub mod neutral;
pub mod plain;
pub mod props;
pub mod quoted;
pub mod sequence;
pub mod size;
pub mod stream;
pub mod swar;
pub mod token;

use crate::error::{Error, Result};
use crate::limits::{default_limits, ResourceLimits};
use crate::scanner::block::scan_block_scalar;
use crate::scanner::chars::{
    flow, is_blank_or_break, is_break, AMP, BANG, COLON, COMMA, DASH, DOT, DQUOTE, GT, HASH,
    LBRACE, LBRACKET, PERCENT, PIPE, QUESTION, RBRACE, RBRACKET, SQUOTE, STAR, TAB,
};
use crate::scanner::cursor::{
    is_blank_at, is_blank_or_flow_at, is_marker_at, Cur, Cursor, Until, MAX_INPUT,
};
use crate::scanner::model::{
    lemma_moved_ok, lemma_roll, lemma_dispatch, lemma_skip_in_line, lemma_skip_whitespace,
    lemma_unroll, Front, KeyView, Next, Scan, Step,
};
use crate::scanner::plain::scan_plain;
use crate::scanner::props::{scan_anchor_or_alias, scan_directive, scan_tag};
use crate::scanner::quoted::{
    column_bound, column_text, scan_double_quoted, scan_single_quoted, Quoted,
};
pub use crate::scanner::token::{Token, TokenKind};
use crate::scanner::token::{TokenKindView, TokenView};
use crate::text::{
    at_boundary, lemma_ascii_boundary, lemma_boundary_zero, lemma_text_whole, push_decimal, quoted,
    quoted_string, slice, text,
};
use crate::types::{point, Position, ScalarStyle, Span};
use std::borrow::Cow;
use std::collections::VecDeque;
use vstd::prelude::*;
use vstd::string::*;

verus! {

/// Tracks a potential simple key location.
#[derive(Debug, Clone, Copy)]
struct SimpleKey {
    /// Whether a simple key is possible at this level.
    possible: bool,
    /// The token index where the simple key starts.
    token_index: u64,
    /// The position of the simple key.
    pos: Position,
}

impl View for SimpleKey {
    type V = KeyView;

    closed spec fn view(&self) -> KeyView {
        KeyView { possible: self.possible, index: self.token_index as int, pos: self.pos }
    }
}

/// The YAML scanner.
///
/// Converts input bytes into a stream of [`Token`]s: call
/// [`next_token`](Scanner::next_token), or [`next`](Scanner::next) for the
/// stream with trivia.
pub struct Scanner<'a> {
    input: &'a str,
    bytes: &'a [u8],
    cur: Cursor,
    tokens: VecDeque<Token<'a>>,
    tokens_produced: u64,
    indent: i32,
    indents: Vec<i32>,
    /// Whether each open flow collection is a sequence (true) or mapping (false).
    flow_is_sequence: Vec<bool>,
    /// One possible key for block context and one for each flow collection.
    simple_keys: Vec<SimpleKey>,
    stream_start_produced: bool,
    stream_end_produced: bool,
    allow_simple_key: bool,
    plain_scalar_colon_adjacent: bool,
    after_block_indicator: bool,
    document_start_line: u32,
    tab_after_indicator_line: u32,
    value_property_min_column: i32,
    errored: bool,
    limits: ResourceLimits,
    preserve_trivia: bool,
    trivia: VecDeque<Token<'a>>,
}

/// The values of some tokens.
pub open spec fn token_views<'a>(s: Seq<Token<'a>>) -> Seq<TokenView> {
    Seq::new(s.len(), |i: int| s[i]@)
}

impl<'a> View for Scanner<'a> {
    type V = Scan;

    closed spec fn view(&self) -> Scan {
        Scan {
            b: self.bytes@,
            cur: self.cur@,
            tokens: token_views(self.tokens@),
            produced: self.tokens_produced as int,
            indent: self.indent as int,
            indents: Seq::new(self.indents@.len(), |i: int| self.indents@[i] as int),
            flows: self.flow_is_sequence@,
            keys: Seq::new(self.simple_keys@.len(), |i: int| self.simple_keys@[i]@),
            started: self.stream_start_produced,
            ended: self.stream_end_produced,
            allow: self.allow_simple_key,
            colon_adjacent: self.plain_scalar_colon_adjacent,
            after_indicator: self.after_block_indicator,
            doc_line: self.document_start_line as int,
            tab_line: self.tab_after_indicator_line as int,
            property_min: self.value_property_min_column as int,
            errored: self.errored,
            limits: self.limits,
            keep_trivia: self.preserve_trivia,
            trivia: token_views(self.trivia@),
        }
    }
}

impl<'a> Scanner<'a> {
    /// The bytes are those of the input.
    spec fn text_ok(&self) -> bool {
        self.bytes@ == self.input.spec_bytes()
    }

    /// The scanner is in a state that scanning can reach.
    pub closed spec fn wf(&self) -> bool {
        &&& self.text_ok()
        &&& self.errored || self@.ok()
    }

    /// The text that is scanned.
    pub closed spec fn source(&self) -> Seq<char> {
        self.input@
    }

    /// Both scan the same text.
    spec fn same_text(&self, o: Scanner<'a>) -> bool {
        self.input == o.input && self.bytes == o.bytes
    }

    /// Both have the same flags of the stream.
    spec fn flags_of(&self, o: Scanner<'a>) -> bool {
        &&& self.preserve_trivia == o.preserve_trivia
        &&& self.stream_start_produced == o.stream_start_produced
        &&& self.stream_end_produced == o.stream_end_produced
        &&& self.errored == o.errored
        &&& self.tokens_produced == o.tokens_produced
        &&& self.limits == o.limits
    }

    /// How a step that may fail relates the states before and after it.
    spec fn stepped(before: Scanner<'a>, after: Scanner<'a>, r: Result<bool>, step: Step) -> bool {
        &&& after.same_text(before)
        &&& after.flags_of(before)
        &&& match step {
            Ok(s) => r == Ok::<bool, Error>(true) && after@ == s && after@.ok() && after.cur.offset
                > before.cur.offset,
            Err(f) => r matches Err(e) && e@ == f.error && after@.trivia == f.trivia,
        }
    }

    /// Creates a new scanner for the given input.
    #[must_use]
    pub fn new(input: &'a str) -> (r: Self)
        requires
            input.spec_bytes().len() <= MAX_INPUT,
        ensures
            r.wf(),
            r.source() == input@,
            r@ == Scan::fresh(input.spec_bytes(), default_limits(), false),
    {
        Self::with_limits(input, ResourceLimits::default())
    }

    /// Creates a new scanner with custom resource limits.
    #[must_use]
    pub fn with_limits(input: &'a str, limits: ResourceLimits) -> (r: Self)
        requires
            input.spec_bytes().len() <= MAX_INPUT,
        ensures
            r.wf(),
            r.source() == input@,
            r@ == Scan::fresh(input.spec_bytes(), limits, false),
    {
        Self::with_trivia(input, limits, false)
    }

    /// Creates a scanner that also captures trivia (comments, whitespace, line
    /// breaks) into a side buffer if `preserve_trivia` is set.
    #[must_use]
    pub fn with_trivia(input: &'a str, limits: ResourceLimits, preserve_trivia: bool) -> (r: Self)
        requires
            input.spec_bytes().len() <= MAX_INPUT,
        ensures
            r.wf(),
            r.source() == input@,
            r@ == Scan::fresh(input.spec_bytes(), limits, preserve_trivia),
    {
        let mut simple_keys: Vec<SimpleKey> = Vec::new();
        simple_keys.push(SimpleKey { possible: false, token_index: 0, pos: Position::start() });
        let r = Scanner {
            input,
            bytes: input.as_bytes(),
            cur: Cursor { offset: 0, line: 1, column: 0 },
            tokens: VecDeque::new(),
            tokens_produced: 0,
            indent: -1,
            indents: Vec::new(),
            flow_is_sequence: Vec::new(),
            simple_keys,
            stream_start_produced: false,
            stream_end_produced: false,
            allow_simple_key: true,
            plain_scalar_colon_adjacent: false,
            after_block_indicator: false,
            document_start_line: 0,
            tab_after_indicator_line: 0,
            value_property_min_column: -1,
            errored: false,
            limits,
            preserve_trivia,
            trivia: VecDeque::new(),
        };
        proof {
            lemma_text_whole(input@);
            lemma_boundary_zero(r.bytes@);
            assert(r@ =~= Scan::fresh(input.spec_bytes(), limits, preserve_trivia));
        }
        r
    }

    /// Returns whether trivia preservation is enabled.
    #[must_use]
    pub fn preserve_trivia(&self) -> (r: bool)
        ensures
            r == self@.keep_trivia,
    {
        self.preserve_trivia
    }

    /// Returns the next token, or `None` if the stream is exhausted.
    pub fn next_token(&mut self) -> (r: Option<Result<Token<'a>>>)
        requires
            old(self).wf(),
        ensures
            final(self).wf(),
            final(self).source() == old(self).source(),
            Self::handed_out(*old(self), *final(self), r, old(self)@.next_token()),
            r matches Some(Ok(_)) ==> final(self)@.produced == old(self)@.produced + 1
                && final(self)@.produced <= 4 * final(self)@.b.len() + 2,
            !(r matches Some(Ok(_))) ==> final(self)@.produced == old(self)@.produced,
            final(self)@.b == old(self)@.b,
            final(self)@.keep_trivia == old(self)@.keep_trivia,
            final(self)@.limits == old(self)@.limits,
            !old(self)@.errored && (r matches Some(Ok(_))) ==> 0 <= final(self)@.weight()
                < old(self)@.weight(),
            !old(self)@.errored && !(r matches Some(Err(_))) ==> !final(self)@.errored,
    {
        reveal(Scan::next_token);
        if self.errored {
            return None;
        }
        match self.populate_significant_front() {
            Err(e) => Some(Err(e)),
            Ok(false) => None,
            Ok(true) => Some(Ok(self.pop_token())),
        }
    }

    /// How what is handed out relates the states before and after it.
    pub open spec fn handed_out(
        before: Scanner<'a>,
        after: Scanner<'a>,
        r: Option<Result<Token<'a>>>,
        next: Next,
    ) -> bool {
        match next {
            Next::Token(t, s) => r matches Some(Ok(x)) && x@ == t && after@ == s,
            Next::End(s) => r is None && after@ == s,
            Next::Failed(f) => {
                &&& r matches Some(Err(e))
                &&& e@ == f.error
                &&& after@.errored
                &&& after@.trivia == f.trivia
                &&& after@.keep_trivia == before@.keep_trivia
            },
        }
    }

    /// Returns the next token or, if trivia is preserved, the next piece of trivia.
    ///
    /// Tokens come in source order, and so does trivia; between the two, see
    /// [`next_with_trivia`](Scanner::next_with_trivia).
    pub fn next(&mut self) -> (r: Option<Result<Token<'a>>>)
        requires
            old(self).wf(),
        ensures
            final(self).wf(),
            final(self).source() == old(self).source(),
            Self::handed_out(*old(self), *final(self), r, old(self)@.next()),
            final(self)@.b == old(self)@.b,
            !old(self)@.errored && (r matches Some(Ok(_))) ==> 0 <= final(self)@.weight()
                < old(self)@.weight(),
            !old(self)@.errored && !(r matches Some(Err(_))) ==> !final(self)@.errored,
    {
        reveal(Scan::next);
        if self.preserve_trivia {
            return self.next_with_trivia();
        }
        self.next_token()
    }

    /// Returns the next token or piece of trivia: of the first token and the first piece
    /// of trivia that wait, the trivia unless it starts behind the token. The start of a
    /// block mapping stands at the `:` behind its first key, so trivia between the two
    /// comes before the key.
    ///
    /// After the last significant token, any remaining trivia is flushed before
    /// returning `None`.
    pub fn next_with_trivia(&mut self) -> (r: Option<Result<Token<'a>>>)
        requires
            old(self).wf(),
        ensures
            final(self).wf(),
            final(self).source() == old(self).source(),
            Self::handed_out(*old(self), *final(self), r, old(self)@.next_with_trivia()),
            final(self)@.b == old(self)@.b,
            !old(self)@.errored && (r matches Some(Ok(_))) ==> 0 <= final(self)@.weight()
                < old(self)@.weight(),
            !old(self)@.errored && !(r matches Some(Err(_))) ==> !final(self)@.errored,
    {
        reveal(Scan::next_with_trivia);
        let has_sig = if self.errored {
            false
        } else {
            match self.populate_significant_front() {
                Ok(v) => v,
                Err(e) => {
                    return Some(Err(e));
                },
            }
        };
        if self.trivia.len() > 0 && (!has_sig || self.trivia[0].span.start.offset
            <= self.tokens[0].span.start.offset) {
            return Some(Ok(self.pop_trivia()));
        }
        if has_sig {
            return Some(Ok(self.pop_token()));
        }
        None
    }

    /// The trivia that is scanned but not yet handed out.
    pub fn pending_trivia(&self) -> (r: Vec<Token<'a>>)
        ensures
            token_views(r@) == self@.trivia,
    {
        let mut out: Vec<Token<'a>> = Vec::new();
        let mut i: usize = 0;
        while i < self.trivia.len()
            invariant
                i <= self.trivia@.len(),
                out@.len() == i,
                forall|j: int| 0 <= j < i ==> (#[trigger] out@[j])@ == self.trivia@[j]@,
            decreases self.trivia@.len() - i,
        {
            out.push(self.trivia[i].clone());
            i += 1;
        }
        assert(token_views(out@) =~= self@.trivia);
        out
    }

    /// Removes the first token from the queue.
    fn pop_token(&mut self) -> (r: Token<'a>)
        requires
            old(self).text_ok(),
            old(self)@.ok(),
            old(self)@.tokens.len() > 0,
        ensures
            final(self).same_text(*old(self)),
            r@ == old(self)@.tokens[0],
            final(self)@ == old(self)@.pop(),
            final(self)@.ok(),
            0 <= final(self)@.weight() < old(self)@.weight(),
            final(self)@.errored == old(self)@.errored,
    {
        self.tokens_produced = self.tokens_produced + 1;
        let t = self.tokens.pop_front();
        proof {
            assert(self@ =~= old(self)@.pop());
        }
        match t {
            Some(t) => t,
            None => Token { kind: TokenKind::StreamEnd, span: self.here() },
        }
    }

    /// Removes the first piece of trivia.
    fn pop_trivia(&mut self) -> (r: Token<'a>)
        requires
            old(self)@.trivia.len() > 0,
            old(self).errored || old(self)@.ok(),
        ensures
            final(self).same_text(*old(self)),
            r@ == old(self)@.trivia[0],
            final(self)@ == (Scan { trivia: old(self)@.trivia.drop_first(), ..old(self)@ }),
            old(self)@.ok() ==> final(self)@.ok() && 0 <= final(self)@.weight()
                < old(self)@.weight(),
            final(self)@.errored == old(self)@.errored,
    {
        let t = self.trivia.pop_front();
        proof {
            assert(self@ =~= Scan { trivia: old(self)@.trivia.drop_first(), ..old(self)@ });
        }
        match t {
            Some(t) => t,
            None => Token { kind: TokenKind::StreamEnd, span: Span::point(Position::start()) },
        }
    }

    /// Populate the queue until its front can be handed out (i.e. no pending
    /// simple key blocks it), without popping it.
    ///
    /// Returns:
    /// - `Ok(true)`  — a significant token is now at the front of the queue
    /// - `Ok(false)` — stream is exhausted
    /// - `Err(e)`    — scanner error; the scanner stays failed
    fn populate_significant_front(&mut self) -> (r: Result<bool>)
        requires
            old(self).text_ok(),
            old(self)@.ok(),
            !old(self).errored,
        ensures
            final(self).same_text(*old(self)),
            final(self).tokens_produced == old(self).tokens_produced,
            final(self).limits == old(self).limits,
            final(self).preserve_trivia == old(self).preserve_trivia,
            match old(self)@.front() {
                Front::Ready(s) => r == Ok::<bool, Error>(true) && final(self)@ == s
                    && final(self)@.ok() && s.tokens.len() > 0 && !s.errored && s.weight()
                    <= old(self)@.weight(),
                Front::Exhausted(s) => r == Ok::<bool, Error>(false) && final(self)@ == s
                    && final(self)@.ok() && !s.errored && s.weight() <= old(self)@.weight(),
                Front::Failed(f) => r matches Err(e) && e@ == f.error && final(self).errored
                    && final(self)@.trivia == f.trivia,
            },
    {
        let ghost goal = self@.front();
        loop
            invariant
                goal == self@.front(),
                self.same_text(*old(self)),
                self.text_ok(),
                self@.ok(),
                !self.errored,
                self.tokens_produced == old(self).tokens_produced,
                self.limits == old(self).limits,
                self.preserve_trivia == old(self).preserve_trivia,
                goal == old(self)@.front(),
                self@.weight() <= old(self)@.weight(),
            decreases self@.todo(),
        {
            if self.tokens.len() > 0 && !self.has_pending_simple_key() {
                return Ok(true);
            }
            if self.stream_end_produced && self.tokens.len() == 0 {
                return Ok(false);
            }
            match self.fetch_next_token() {
                Ok(true) => {},
                Ok(false) => {
                    return Ok(self.tokens.len() > 0);
                },
                Err(e) => {
                    self.errored = true;
                    return Err(e);
                },
            }
        }
    }

    /// Returns `true` if any pending simple key refers to the next token
    /// position, meaning we must fetch more input before returning tokens.
    fn has_pending_simple_key(&self) -> (r: bool)
        ensures
            r == self@.pending(),
    {
        let mut i: usize = 0;
        while i < self.simple_keys.len()
            invariant
                i <= self.simple_keys@.len(),
                forall|j: int|
                    0 <= j < i ==> !((#[trigger] self@.keys[j]).possible && self@.keys[j].index
                        == self@.produced),
            decreases self.simple_keys@.len() - i,
        {
            let key = self.simple_keys[i];
            assert(self@.keys[i as int] == key@);
            if key.possible && key.token_index == self.tokens_produced {
                return true;
            }
            i += 1;
        }
        false
    }

    // ─── Position tracking ──────────────────────────────────────────

    fn pos(&self) -> (r: Position)
        requires
            self@.cur.ok(self@.b),
        ensures
            r == self@.pos(),
    {
        self.cur.pos()
    }

    /// The zero-width span at the current position.
    fn here(&self) -> (r: Span)
        requires
            self@.cur.ok(self@.b),
        ensures
            r == point(self@.pos()),
    {
        Span::point(self.cur.pos())
    }

    /// An unexpected-token error at the current position.
    fn error_here(&self, expected: &str, found: &str) -> (r: Error)
        requires
            self@.cur.ok(self@.b),
        ensures
            r@ == self@.fail(expected@, found@).error,
    {
        Error::unexpected(expected, found, self.here())
    }

    /// Moves the cursor.
    fn move_to(&mut self, c: Cursor)
        ensures
            final(self).same_text(*old(self)),
            final(self).cur == c,
            final(self)@ == old(self)@.at(c@),
    {
        self.cur = c;
        assert(self@ =~= old(self)@.at(c@));
    }

    /// Records the text since `start` as trivia. Only active when trivia is
    /// preserved and the run is non-empty. The text is borrowed from the input.
    fn push_trivia(&mut self, start: Cursor, kind: TokenKind<'a>)
        requires
            start.column < u32::MAX,
            old(self)@.cur.ok(old(self)@.b),
        ensures
            final(self).same_text(*old(self)),
            final(self).cur == old(self).cur,
            final(self)@ == old(self)@.push_trivia(start@, kind@),
    {
        if !self.preserve_trivia || self.cur.offset == start.offset {
            return;
        }
        let span = self.cur.span_from(start.pos());
        self.trivia.push_back(Token { kind, span });
        assert(self@ =~= old(self)@.push_trivia(start@, kind@));
    }

    // ─── Check limits ───────────────────────────────────────────────

    fn check_document_size(&self) -> (r: Result<()>)
        requires
            self@.cur.ok(self@.b),
        ensures
            r is Err <==> self@.too_long(),
            r matches Err(e) ==> self@.fetch_here() matches Err(f) && e@ == f.error && f.trivia
                == self@.trivia,
    {
        reveal(Scan::fetch_here);
        if self.cur.offset > self.limits.max_document_size {
            Err(Error::document_size_exceeded(&self.limits, self.here()))
        } else {
            Ok(())
        }
    }

    // ─── Token buffer management ────────────────────────────────────

    fn enqueue(&mut self, kind: TokenKind<'a>, span: Span)
        ensures
            final(self).same_text(*old(self)),
            final(self).cur == old(self).cur,
            final(self)@ == old(self)@.enqueue(kind@, span),
    {
        self.tokens.push_back(Token { kind, span });
        assert(self@ =~= old(self)@.enqueue(kind@, span));
    }

    fn insert_at(&mut self, index: u64, kind: TokenKind<'a>, span: Span)
        ensures
            final(self).same_text(*old(self)),
            final(self).cur == old(self).cur,
            final(self)@ == old(self)@.insert_at(index as int, kind@, span),
    {
        let i: u64 = if index > self.tokens_produced {
            index - self.tokens_produced
        } else {
            0
        };
        if i <= self.tokens.len() as u64 {
            self.tokens.insert(i as usize, Token { kind, span });
        }
        assert(self@ =~= old(self)@.insert_at(index as int, kind@, span));
    }

    /// Enqueues the token of the one byte that stands here.
    fn byte_token(&mut self, kind: TokenKind<'a>)
        requires
            old(self)@.cur.ok(old(self)@.b),
            !old(self)@.at_end(),
            old(self)@.byte() < 0x80,
        ensures
            final(self).same_text(*old(self)),
            final(self).cur.offset == old(self).cur.offset + 1,
            final(self)@.cur.ok(final(self)@.b),
            final(self)@ == old(self)@.byte_token(kind@),
    {
        let start = self.pos();
        let c = self.cur.step(self.bytes);
        self.move_to(c);
        let span = self.cur.span_from(start);
        self.enqueue(kind, span);
    }

    // ─── Main fetch loop ────────────────────────────────────────────

    fn fetch_next_token(&mut self) -> (r: Result<bool>)
        requires
            old(self).text_ok(),
            old(self)@.ok(),
            !old(self).errored,
        ensures
            final(self).same_text(*old(self)),
            final(self).limits == old(self).limits,
            final(self).tokens_produced == old(self).tokens_produced,
            final(self).preserve_trivia == old(self).preserve_trivia,
            match old(self)@.fetch() {
                Ok((s, more)) => {
                    &&& r == Ok::<bool, Error>(more)
                    &&& final(self)@ == s
                    &&& s.ok()
                    &&& !s.errored
                    &&& more ==> 0 <= s.todo() < old(self)@.todo()
                    &&& s.weight() <= old(self)@.weight()
                },
                Err(f) => r matches Err(e) && e@ == f.error && final(self)@.trivia == f.trivia,
            },
    {
        reveal(Scan::fetch);
        if !self.stream_start_produced {
            self.fetch_stream_start();
            return Ok(true);
        }
        match self.skip_to_next_token() {
            Err(e) => {
                return Err(e);
            },
            Ok(()) => {},
        }
        self.fetch_here()
    }

    /// Scans on from behind a gap; tells whether there was anything left to scan.
    fn fetch_here(&mut self) -> (r: Result<bool>)
        requires
            old(self).text_ok(),
            old(self)@.ok(),
            old(self)@.started,
            !old(self).errored,
        ensures
            final(self).same_text(*old(self)),
            final(self).limits == old(self).limits,
            final(self).tokens_produced == old(self).tokens_produced,
            final(self).preserve_trivia == old(self).preserve_trivia,
            match old(self)@.fetch_here() {
                Ok((s, more)) => {
                    &&& r == Ok::<bool, Error>(more)
                    &&& final(self)@ == s
                    &&& s.ok()
                    &&& !s.errored
                    &&& more ==> 0 <= s.todo() < old(self)@.todo()
                    &&& s.weight() <= old(self)@.weight()
                },
                Err(f) => r matches Err(e) && e@ == f.error && final(self)@.trivia == f.trivia,
            },
    {
        reveal(Scan::fetch_here);
        match self.check_document_size() {
            Err(e) => {
                return Err(e);
            },
            Ok(()) => {},
        }
        self.stale_simple_keys();
        let column: i32 = self.cur.column as i32;
        proof {
            lemma_unroll(self@, column as int);
        }
        self.unroll_indent(column);
        if self.cur.offset >= self.bytes.len() {
            if !self.stream_end_produced {
                self.fetch_stream_end();
                return Ok(true);
            }
            return Ok(false);
        }
        match self.check_property() {
            Err(e) => {
                return Err(e);
            },
            Ok(()) => {},
        }
        proof {
            lemma_dispatch(self@);
        }
        self.dispatch()
    }

    /// Checks the indentation of the properties of a block value.
    fn check_property(&mut self) -> (r: Result<()>)
        requires
            old(self)@.ok(),
            !old(self)@.at_end(),
        ensures
            final(self).same_text(*old(self)),
            final(self).cur == old(self).cur,
            final(self).limits == old(self).limits,
            final(self).tokens_produced == old(self).tokens_produced,
            final(self).preserve_trivia == old(self).preserve_trivia,
            match old(self)@.check_property() {
                Ok(s) => r is Ok && final(self)@ == s && final(self)@.ok(),
                Err(f) => r matches Err(e) && e@ == f.error && final(self)@.trivia == f.trivia,
            },
    {
        let x = self.bytes[self.cur.offset];
        let is_property = x == AMP || x == BANG;
        if self.value_property_min_column >= 0 {
            if is_property {
                if self.flow_is_sequence.len() == 0 && (self.cur.column as i32)
                    < self.value_property_min_column {
                    let mut expected = "node property indented past column ".to_owned();
                    push_decimal(&mut expected, (self.value_property_min_column - 1) as u64);
                    let found = column_text(self.cur.column);
                    return Err(self.error_here(expected.as_str(), found.as_str()));
                }
            } else {
                self.value_property_min_column = -1;
                assert(self@ =~= Scan { property_min: -1, ..old(self)@ });
            }
        }
        Ok(())
    }

    /// Scans the token that starts here.
    fn dispatch(&mut self) -> (r: Result<bool>)
        requires
            old(self).text_ok(),
            old(self)@.ok(),
            old(self)@.started,
            !old(self)@.at_end(),
        ensures
            Self::stepped(*old(self), *final(self), r, old(self)@.dispatch()),
    {
        reveal(Scan::dispatch);
        let x = self.bytes[self.cur.offset];
        let next: usize = self.cur.offset + 1;
        let in_block = self.flow_is_sequence.len() == 0;
        if self.cur.column == 0 && is_marker_at(self.bytes, self.cur.offset, DASH) {
            return self.fetch_document_start();
        }
        if self.cur.column == 0 && is_marker_at(self.bytes, self.cur.offset, DOT) {
            return self.fetch_document_end();
        }
        if x == LBRACKET {
            self.fetch_flow_collection_start(true)
        } else if x == LBRACE {
            self.fetch_flow_collection_start(false)
        } else if x == RBRACKET {
            self.fetch_flow_collection_end(TokenKind::FlowSequenceEnd)
        } else if x == RBRACE {
            self.fetch_flow_collection_end(TokenKind::FlowMappingEnd)
        } else if x == COMMA {
            self.fetch_flow_entry()
        } else if x == DASH && is_blank_at(self.bytes, next) && in_block {
            self.fetch_block_entry()
        } else if x == QUESTION && (is_blank_at(self.bytes, next) || (!in_block
            && is_blank_or_flow_at(self.bytes, next))) {
            self.fetch_key()
        } else if x == COLON && (is_blank_at(self.bytes, next) || (!in_block && (
        is_blank_or_flow_at(self.bytes, next) || self.key_is_possible()))) {
            self.fetch_value()
        } else if x == STAR {
            self.fetch_alias()
        } else if x == AMP {
            self.fetch_anchor()
        } else if x == BANG {
            self.fetch_tag()
        } else if x == PIPE && in_block {
            self.fetch_block_scalar(ScalarStyle::Literal)
        } else if x == GT && in_block {
            self.fetch_block_scalar(ScalarStyle::Folded)
        } else if x == SQUOTE {
            self.fetch_single_quoted_scalar()
        } else if x == DQUOTE {
            self.fetch_double_quoted_scalar()
        } else if x == PERCENT && self.cur.column == 0 {
            self.fetch_directive()
        } else {
            self.fetch_plain_scalar()
        }
    }

    /// Whether the innermost simple key is still possible.
    fn key_is_possible(&self) -> (r: bool)
        requires
            self@.ok(),
        ensures
            r == (self@.keys.len() > 0 && self@.keys.last().possible),
    {
        self.simple_keys[self.simple_keys.len() - 1].possible
    }

    // ─── Skip whitespace and comments ───────────────────────────────

    /// Skips spaces and tabs; tells whether a tab stood in the indentation of a
    /// line of flow content.
    fn skip_whitespace(&mut self, line_start: bool) -> (r: Result<bool>)
        requires
            old(self)@.cur.ok(old(self)@.b),
        ensures
            final(self).same_text(*old(self)),
            final(self).limits == old(self).limits,
            final(self).tokens_produced == old(self).tokens_produced,
            final(self).preserve_trivia == old(self).preserve_trivia,
            match old(self)@.skip_whitespace(line_start, false) {
                Ok((s, tab)) => r == Ok::<bool, Error>(tab) && final(self)@ == s && s.cur.ok(s.b),
                Err(f) => r matches Err(e) && e@ == f.error && final(self)@.trivia == f.trivia,
            },
    {
        let ghost goal = self@.skip_whitespace(line_start, false);
        let mut had_tab = false;
        proof {
            lemma_skip_whitespace(self@, line_start, false);
        }
        while self.cur.at_whitespace(self.bytes)
            invariant
                goal == self@.skip_whitespace(line_start, had_tab),
                goal == old(self)@.skip_whitespace(line_start, false),
                goal matches Err(f) ==> f.trivia == self@.trivia,
                self.same_text(*old(self)),
                self.preserve_trivia == old(self).preserve_trivia,
                self.limits == old(self).limits,
                self.tokens_produced == old(self).tokens_produced,
                self@.cur.ok(self@.b),
            decreases self.bytes@.len() - self.cur.offset,
        {
            let ghost before = self@;
            let in_block = self.flow_is_sequence.len() == 0;
            if self.bytes[self.cur.offset] == TAB {
                if line_start && (self.cur.column as i32) <= self.indent {
                    if in_block {
                        return Err(self.error_here("spaces for indentation", "tab character"));
                    }
                    had_tab = true;
                }
                if self.after_block_indicator && in_block {
                    self.tab_after_indicator_line = self.cur.line;
                }
            }
            let c = self.cur.step(self.bytes);
            self.cur = c;
            proof {
                if before.byte() == TAB {
                    assert(self@ =~= Scan {
                        tab_line: if before.after_indicator && before.in_block() {
                            before.cur.line
                        } else {
                            before.tab_line
                        },
                        ..before.step()
                    });
                } else {
                    assert(self@ =~= before.step());
                }
            }
        }
        Ok(had_tab)
    }

    /// Skips what stands in a line before the next token.
    fn skip_in_line(&mut self, line_start: bool) -> (r: Result<()>)
        requires
            old(self).text_ok(),
            old(self)@.cur.ok(old(self)@.b),
        ensures
            final(self).same_text(*old(self)),
            final(self).limits == old(self).limits,
            final(self).tokens_produced == old(self).tokens_produced,
            final(self).preserve_trivia == old(self).preserve_trivia,
            match old(self)@.skip_in_line(line_start) {
                Ok(s) => r is Ok && final(self)@ == s && s.cur.ok(s.b),
                Err(f) => r matches Err(e) && e@ == f.error && final(self)@.trivia == f.trivia,
            },
    {
        reveal(Scan::skip_in_line);
        let start = self.cur;
        proof {
            lemma_skip_whitespace(self@, line_start, false);
        }
        let had_tab = match self.skip_whitespace(line_start) {
            Ok(v) => v,
            Err(e) => {
                return Err(e);
            },
        };
        let ws = Cow::Borrowed(slice(self.input, start.offset, self.cur.offset));
        self.push_trivia(start, TokenKind::Whitespace(ws));
        if let Some(x) = self.cur.peek(self.bytes) {
            if had_tab && !is_break(x) {
                return Err(self.error_here("spaces for indentation", "tab character"));
            }
            if line_start && self.flow_is_sequence.len() > 0 && x != RBRACKET && x != RBRACE && x
                != COMMA && !is_break(x) && (self.cur.column as i32) <= self.indent {
                let found = column_text(self.cur.column);
                return Err(self.error_here("proper indentation in flow content", found.as_str()));
            }
        }
        let ghost s2 = self@;
        self.after_block_indicator = false;
        assert(self@ =~= Scan { after_indicator: false, ..s2 });
        self.skip_comment();
        Ok(())
    }

    /// Skips a comment. YAML requires whitespace or start-of-line before '#' for
    /// it to begin a comment (YAML 1.2.2 §6.6).
    fn skip_comment(&mut self)
        requires
            old(self).text_ok(),
            old(self)@.cur.ok(old(self)@.b),
        ensures
            final(self).same_text(*old(self)),
            final(self).limits == old(self).limits,
            final(self).tokens_produced == old(self).tokens_produced,
            final(self).preserve_trivia == old(self).preserve_trivia,
            final(self)@ == old(self)@.skip_comment(),
            final(self)@.cur.ok(final(self)@.b),
    {
        if self.cur.at(self.bytes, HASH) && (self.cur.offset == 0 || is_blank_or_break(
            self.bytes[self.cur.offset - 1],
        )) {
            let c_start = self.cur;
            let c = self.cur.run(self.bytes, Until::Break);
            self.move_to(c);
            let comment = Cow::Borrowed(slice(self.input, c_start.offset, self.cur.offset));
            self.push_trivia(c_start, TokenKind::Comment(comment));
        }
    }

    /// Skips whitespace, comments and line breaks up to the next token.
    fn skip_to_next_token(&mut self) -> (r: Result<()>)
        requires
            old(self).text_ok(),
            old(self)@.ok(),
            old(self)@.started,
        ensures
            final(self).same_text(*old(self)),
            final(self).limits == old(self).limits,
            final(self).tokens_produced == old(self).tokens_produced,
            final(self).preserve_trivia == old(self).preserve_trivia,
            match old(self)@.skip_gap(false) {
                Ok(s) => {
                    &&& r is Ok
                    &&& final(self)@ == s
                    &&& s.ok()
                    &&& s.cur.offset >= old(self).cur.offset
                    &&& s.started == old(self)@.started
                    &&& s.ended == old(self)@.ended
                    &&& s.errored == old(self)@.errored
                    &&& s.b == old(self)@.b
                    &&& s.weight() <= old(self)@.weight()
                },
                Err(f) => r matches Err(e) && e@ == f.error && final(self)@.trivia == f.trivia,
            },
    {
        let ghost goal = self@.skip_gap(false);
        let mut line_start = false;
        loop
            invariant
                goal == self@.skip_gap(line_start),
                goal == old(self)@.skip_gap(false),
                self.text_ok(),
                self@.ok(),
                self.same_text(*old(self)),
                self.preserve_trivia == old(self).preserve_trivia,
                self.limits == old(self).limits,
                self.tokens_produced == old(self).tokens_produced,
                self@.started,
                self@.started == old(self)@.started,
                self@.ended == old(self)@.ended,
                self@.errored == old(self)@.errored,
                self.cur.offset >= old(self).cur.offset,
                self@.weight() <= old(self)@.weight(),
            decreases self.bytes@.len() - self.cur.offset,
        {
            let ghost s0 = self@;
            proof {
                lemma_skip_in_line(self@, line_start);
            }
            match self.skip_in_line(line_start) {
                Err(e) => {
                    return Err(e);
                },
                Ok(()) => {},
            }
            proof {
                lemma_moved_ok(s0, self@);
            }
            if !self.cur.at_break(self.bytes) {
                return Ok(());
            }
            let ghost s1 = self@;
            let lb_start = self.cur;
            let c = self.cur.skip_line(self.bytes);
            self.move_to(c);
            let text = Cow::Borrowed(slice(self.input, lb_start.offset, self.cur.offset));
            self.push_trivia(lb_start, TokenKind::LineBreak(text));
            if self.flow_is_sequence.len() == 0 {
                self.allow_simple_key = true;
            }
            self.plain_scalar_colon_adjacent = false;
            line_start = true;
            proof {
                assert(self@ =~= s1.skip_break());
                lemma_moved_ok(s1, self@);
            }
        }
    }

    // ─── Indentation ────────────────────────────────────────────────

    /// Opens a block collection at `column` if it is deeper than the current
    /// indent. All callers are in block context (indentation is meaningless
    /// inside flow context).
    fn roll_indent(&mut self, column: i32, kind: TokenKind<'a>, token_index: Option<u64>)
        requires
            old(self)@.cur.ok(old(self)@.b),
        ensures
            final(self).same_text(*old(self)),
            final(self).cur == old(self).cur,
            final(self)@ == old(self)@.roll(
                column as int,
                kind@,
                match token_index {
                    Some(i) => Some(i as int),
                    None => None,
                },
            ),
    {
        if self.indent < column {
            let ghost before = self@;
            self.indents.push(self.indent);
            self.indent = column;
            assert(self@ =~= Scan {
                indents: before.indents.push(before.indent),
                indent: column as int,
                ..before
            });
            let span = self.here();
            match token_index {
                Some(idx) => self.insert_at(idx, kind, span),
                None => self.enqueue(kind, span),
            }
        }
    }

    fn unroll_indent(&mut self, column: i32)
        requires
            old(self)@.cur.ok(old(self)@.b),
            old(self)@.stack_ok(),
            column >= -1,
        ensures
            final(self).same_text(*old(self)),
            final(self).cur == old(self).cur,
            final(self)@ == old(self)@.unroll(column as int),
    {
        if self.flow_is_sequence.len() > 0 {
            return;
        }
        let ghost goal = self@.unroll(column as int);
        while self.indent > column && self.indents.len() > 0
            invariant
                goal == self@.unroll(column as int),
                self@.cur.ok(self@.b),
                self.same_text(*old(self)),
                self.cur == old(self).cur,
                self@.in_block(),
            decreases self.indents@.len(),
        {
            let ghost before = self@;
            let span = self.here();
            self.enqueue(TokenKind::BlockEnd, span);
            let last: usize = self.indents.len() - 1;
            self.indent = self.indents[last];
            let _ = self.indents.pop();
            assert(self@ =~= Scan {
                indent: before.indents.last(),
                indents: before.indents.drop_last(),
                ..before.enqueue(TokenKindView::BlockEnd, point(before.pos()))
            });
        }
    }

    // ─── Simple key tracking ────────────────────────────────────────

    fn save_simple_key(&mut self)
        requires
            old(self)@.ok(),
        ensures
            final(self).same_text(*old(self)),
            final(self).cur == old(self).cur,
            final(self)@ == old(self)@.save_key(),
    {
        if self.allow_simple_key {
            let key = SimpleKey {
                possible: true,
                token_index: self.tokens_produced + self.tokens.len() as u64,
                pos: self.pos(),
            };
            let last: usize = self.simple_keys.len() - 1;
            self.simple_keys.set(last, key);
            assert(self@ =~= old(self)@.save_key());
        }
    }

    fn remove_simple_key(&mut self)
        requires
            old(self)@.keys.len() > 0,
        ensures
            final(self).same_text(*old(self)),
            final(self).cur == old(self).cur,
            final(self)@ == old(self)@.remove_key(),
    {
        let last: usize = self.simple_keys.len() - 1;
        let key = self.simple_keys[last];
        self.simple_keys.set(
            last,
            SimpleKey { possible: false, token_index: key.token_index, pos: key.pos },
        );
        assert(self@ =~= old(self)@.remove_key());
    }

    /// Invalidates simple keys that have crossed a line boundary: those of block
    /// context and of flow sequences. Flow mapping keys may span lines.
    fn stale_simple_keys(&mut self)
        requires
            old(self)@.ok(),
        ensures
            final(self).same_text(*old(self)),
            final(self).cur == old(self).cur,
            final(self)@ == old(self)@.stale_keys(),
            final(self)@.ok(),
    {
        let ghost s0 = self@;
        let line: u32 = self.cur.line;
        let mut i: usize = 0;
        while i < self.simple_keys.len()
            invariant
                s0 == old(self)@,
                s0.ok(),
                line == s0.cur.line,
                self.same_text(*old(self)),
                self.cur == old(self).cur,
                i <= self.simple_keys@.len(),
                self.simple_keys@.len() == s0.keys.len(),
                self@ == (Scan { keys: self@.keys, ..s0 }),
                forall|j: int| 0 <= j < i ==> #[trigger] self@.keys[j] == s0.stale_keys().keys[j],
                forall|j: int|
                    i <= j < self.simple_keys@.len() ==> #[trigger] self@.keys[j] == s0.keys[j],
            decreases self.simple_keys@.len() - i,
        {
            let ghost before = self@;
            let key = self.simple_keys[i];
            assert(key@ == self@.keys[i as int]);
            if (i == 0 || self.flow_is_sequence[i - 1]) && key.possible && key.pos.line != line {
                self.simple_keys.set(
                    i,
                    SimpleKey { possible: false, token_index: key.token_index, pos: key.pos },
                );
            }
            assert(self@.keys =~= before.keys.update(i as int, s0.stale_keys().keys[i as int]));
            assert(self@ =~= Scan { keys: self@.keys, ..s0 });
            i += 1;
        }
        assert(self@ =~= s0.stale_keys());
    }

    // ─── Stream start/end ───────────────────────────────────────────

    fn fetch_stream_start(&mut self)
        requires
            old(self).text_ok(),
            old(self)@.ok(),
            !old(self)@.started,
        ensures
            final(self).same_text(*old(self)),
            final(self).limits == old(self).limits,
            final(self).tokens_produced == old(self).tokens_produced,
            final(self).preserve_trivia == old(self).preserve_trivia,
            final(self)@ == old(self)@.stream_start(),
            final(self)@.ok(),
            final(self).errored == old(self).errored,
            0 <= final(self)@.todo() < old(self)@.todo(),
            final(self)@.weight() <= old(self)@.weight(),
    {
        let ghost s0 = self@;
        self.stream_start_produced = true;
        assert(self@ =~= Scan { started: true, ..s0 });
        let n: usize = self.bytes.len();
        if n >= 3 && self.bytes[0] == 0xef && self.bytes[1] == 0xbb && self.bytes[2] == 0xbf {
            let bom_start = self.cur;
            proof {
                lemma_bom_boundary(self@.b);
            }
            self.move_to(
                Cursor { offset: 3, line: bom_start.line, column: bom_start.column },
            );
            let text = Cow::Borrowed(slice(self.input, bom_start.offset, self.cur.offset));
            self.push_trivia(bom_start, TokenKind::Whitespace(text));
        }
        let c = self.cur;
        self.move_to(Cursor { offset: c.offset, line: c.line, column: 0 });
        let span = self.here();
        self.enqueue(TokenKind::StreamStart, span);
    }

    fn fetch_stream_end(&mut self)
        requires
            old(self).text_ok(),
            old(self)@.ok(),
            !old(self)@.ended,
        ensures
            final(self).same_text(*old(self)),
            final(self).cur == old(self).cur,
            final(self).limits == old(self).limits,
            final(self).tokens_produced == old(self).tokens_produced,
            final(self).preserve_trivia == old(self).preserve_trivia,
            final(self)@ == old(self)@.stream_end(),
            final(self)@.ok(),
            final(self).errored == old(self).errored,
            final(self)@.todo() == old(self)@.todo() - 1,
            final(self)@.weight() <= old(self)@.weight(),
    {
        proof {
            lemma_unroll(self@, -1);
        }
        self.unroll_indent(-1);
        self.remove_simple_key();
        let ghost s1 = self@;
        self.allow_simple_key = false;
        self.stream_end_produced = true;
        assert(self@ =~= Scan { allow: false, ended: true, ..s1 });
        let span = self.here();
        self.enqueue(TokenKind::StreamEnd, span);
    }

    // ─── Document indicators ────────────────────────────────────────

    /// Closes all block collections, as document indicators and directives do.
    fn close_blocks(&mut self)
        requires
            old(self)@.ok(),
        ensures
            final(self).same_text(*old(self)),
            final(self).cur == old(self).cur,
            final(self)@ == (Scan { allow: false, ..old(self)@.unroll(-1).remove_key() }),
            final(self)@.ok(),
            final(self)@.trivia == old(self)@.trivia,
            final(self).flags_of(*old(self)),
    {
        proof {
            lemma_unroll(self@, -1);
        }
        self.unroll_indent(-1);
        self.remove_simple_key();
        let ghost s1 = self@;
        self.allow_simple_key = false;
        assert(self@ =~= Scan { allow: false, ..s1 });
    }

    fn fetch_document_start(&mut self) -> (r: Result<bool>)
        requires
            old(self).text_ok(),
            old(self)@.ok(),
            old(self)@.started,
            old(self)@.cur.offset + 3 <= old(self)@.b.len(),
            old(self)@.b[old(self)@.cur.offset + 2] == DASH,
        ensures
            Self::stepped(*old(self), *final(self), r, old(self)@.document_start()),
    {
        self.close_blocks();
        let ghost s = self@;
        let start = self.pos();
        let line: u32 = self.cur.line;
        proof {
            lemma_ascii_boundary(s.b, s.cur.offset + 2);
        }
        let c = self.cur.to(self.bytes, self.cur.offset + 3);
        self.move_to(c);
        let span = self.cur.span_from(start);
        self.enqueue(TokenKind::DocumentStart, span);
        let ghost t = self@;
        self.document_start_line = line;
        assert(self@ =~= Scan { doc_line: s.cur.line, ..t });
        Ok(true)
    }

    /// After document-end `...`, only whitespace, comments, and line-breaks are
    /// allowed on the same line (YAML 1.2.2 §9.1.2).
    fn fetch_document_end(&mut self) -> (r: Result<bool>)
        requires
            old(self).text_ok(),
            old(self)@.ok(),
            old(self)@.started,
            old(self)@.cur.offset + 3 <= old(self)@.b.len(),
            old(self)@.b[old(self)@.cur.offset + 2] == DOT,
        ensures
            Self::stepped(*old(self), *final(self), r, old(self)@.document_end()),
    {
        self.close_blocks();
        let ghost s = self@;
        let start = self.pos();
        proof {
            lemma_ascii_boundary(s.b, s.cur.offset + 2);
        }
        let mut c = self.cur.to(self.bytes, self.cur.offset + 3).run(
            self.bytes,
            Until::NotWhitespace,
        );
        if c.at(self.bytes, HASH) {
            c = c.run(self.bytes, Until::Break);
        }
        if let Some(x) = c.peek(self.bytes) {
            if !is_break(x) {
                let found = quoted_string(x as char);
                return Err(
                    Error::unexpected(
                        "end of line after document end marker",
                        found.as_str(),
                        c.span_from(start),
                    ),
                );
            }
        }
        self.move_to(c);
        let span = self.cur.span_from(start);
        self.enqueue(TokenKind::DocumentEnd, span);
        Ok(true)
    }

    // ─── Flow collections ───────────────────────────────────────────

    fn fetch_flow_collection_start(&mut self, is_sequence: bool) -> (r: Result<bool>)
        requires
            old(self).text_ok(),
            old(self)@.ok(),
            old(self)@.started,
            !old(self)@.at_end(),
            old(self)@.byte() < 0x80,
        ensures
            Self::stepped(*old(self), *final(self), r, old(self)@.flow_start(is_sequence)),
    {
        self.save_simple_key();
        let ghost s = self@;
        let pos = self.pos();
        self.flow_is_sequence.push(is_sequence);
        self.allow_simple_key = true;
        self.simple_keys.push(SimpleKey { possible: false, token_index: 0, pos });
        assert(self@ =~= Scan {
            flows: s.flows.push(is_sequence),
            allow: true,
            keys: s.keys.push(KeyView { possible: false, index: 0, pos: s.pos() }),
            ..s
        });
        self.byte_token(
            if is_sequence {
                TokenKind::FlowSequenceStart
            } else {
                TokenKind::FlowMappingStart
            },
        );
        Ok(true)
    }

    fn fetch_flow_collection_end(&mut self, kind: TokenKind<'a>) -> (r: Result<bool>)
        requires
            old(self).text_ok(),
            old(self)@.ok(),
            old(self)@.started,
            !old(self)@.at_end(),
            old(self)@.byte() < 0x80,
        ensures
            Self::stepped(*old(self), *final(self), r, old(self)@.flow_end(kind@)),
    {
        self.remove_simple_key();
        let ghost s = self@;
        if self.flow_is_sequence.len() > 0 {
            let _ = self.flow_is_sequence.pop();
            let _ = self.simple_keys.pop();
            assert(self@ =~= Scan { flows: s.flows.drop_last(), keys: s.keys.drop_last(), ..s });
        }
        let ghost t = self@;
        self.allow_simple_key = false;
        assert(self@ =~= Scan { allow: false, ..t });
        self.byte_token(kind);
        Ok(true)
    }

    fn fetch_flow_entry(&mut self) -> (r: Result<bool>)
        requires
            old(self).text_ok(),
            old(self)@.ok(),
            old(self)@.started,
            !old(self)@.at_end(),
            old(self)@.byte() < 0x80,
        ensures
            Self::stepped(*old(self), *final(self), r, old(self)@.flow_entry()),
    {
        self.remove_simple_key();
        let ghost t = self@;
        self.allow_simple_key = true;
        assert(self@ =~= Scan { allow: true, ..t });
        self.byte_token(TokenKind::FlowEntry);
        Ok(true)
    }

    // ─── Block entry ────────────────────────────────────────────────

    fn fetch_block_entry(&mut self) -> (r: Result<bool>)
        requires
            old(self).text_ok(),
            old(self)@.ok(),
            old(self)@.started,
            !old(self)@.at_end(),
            old(self)@.byte() < 0x80,
        ensures
            Self::stepped(*old(self), *final(self), r, old(self)@.block_entry()),
    {
        let in_block = self.flow_is_sequence.len() == 0;
        if in_block {
            if self.tab_after_indicator_line == self.cur.line {
                return Err(
                    self.error_here("spaces for indentation", "tab character before block entry"),
                );
            }
            if self.document_start_line == self.cur.line && self.cur.column > 0 {
                return Err(
                    self.error_here(
                        "block content at column 0",
                        "block entry on document start line",
                    ),
                );
            }
            if !self.allow_simple_key {
                return Err(self.error_here("block content", "block entry '-'"));
            }
            proof {
                lemma_roll(
                    self@,
                    self@.cur.column,
                    TokenKindView::BlockSequenceStart,
                    None,
                );
            }
            self.roll_indent(self.cur.column as i32, TokenKind::BlockSequenceStart, None);
        }
        self.remove_simple_key();
        let ghost s = self@;
        self.allow_simple_key = true;
        assert(self@ =~= Scan { allow: true, ..s });
        self.byte_token(TokenKind::BlockEntry);
        let ghost t = self@;
        self.after_block_indicator = in_block;
        assert(self@ =~= Scan { after_indicator: in_block, ..t });
        Ok(true)
    }

    // ─── Key and Value ──────────────────────────────────────────────

    fn fetch_key(&mut self) -> (r: Result<bool>)
        requires
            old(self).text_ok(),
            old(self)@.ok(),
            old(self)@.started,
            !old(self)@.at_end(),
            old(self)@.byte() < 0x80,
        ensures
            Self::stepped(*old(self), *final(self), r, old(self)@.key_indicator()),
    {
        let in_block = self.flow_is_sequence.len() == 0;
        if in_block {
            if self.tab_after_indicator_line == self.cur.line {
                return Err(
                    self.error_here("spaces for indentation", "tab character before key indicator"),
                );
            }
            if !self.allow_simple_key {
                return Err(self.error_here("block content", "key '?'"));
            }
            proof {
                lemma_roll(self@, self@.cur.column, TokenKindView::BlockMappingStart, None);
            }
            self.roll_indent(self.cur.column as i32, TokenKind::BlockMappingStart, None);
        }
        self.remove_simple_key();
        let ghost s = self@;
        self.allow_simple_key = in_block;
        assert(self@ =~= Scan { allow: in_block, ..s });
        self.byte_token(TokenKind::Key);
        let ghost t = self@;
        self.after_block_indicator = in_block;
        assert(self@ =~= Scan { after_indicator: in_block, ..t });
        Ok(true)
    }

    /// Enqueues the `:` that stands here.
    fn value_token(&mut self)
        requires
            old(self)@.cur.ok(old(self)@.b),
            old(self)@.stack_ok(),
            !old(self)@.at_end(),
            old(self)@.byte() < 0x80,
        ensures
            final(self).same_text(*old(self)),
            final(self).cur.offset == old(self).cur.offset + 1,
            final(self)@.cur.ok(final(self)@.b),
            final(self)@ == old(self)@.value_token(),
    {
        let ghost s = self@;
        let in_block = self.flow_is_sequence.len() == 0;
        self.byte_token(TokenKind::Value);
        let ghost t = self@;
        self.after_block_indicator = in_block;
        if in_block {
            self.value_property_min_column = self.indent + 1;
        }
        assert(self@ =~= s.value_token());
    }

    /// Handles a `:` behind an implicit key.
    fn fetch_value_of_key(&mut self, key: SimpleKey)
        requires
            old(self).text_ok(),
            old(self)@.ok(),
            old(self)@.started,
            !old(self)@.at_end(),
            old(self)@.byte() < 0x80,
            1 <= key.pos.column <= MAX_INPUT + 1,
        ensures
            final(self).same_text(*old(self)),
            final(self)@ == old(self)@.value_of_key(key@),
            final(self).flags_of(*old(self)),
            final(self)@.ok(),
            final(self).cur.offset > old(self).cur.offset,
    {
        reveal(Scan::value_of_key);
        let in_block = self.flow_is_sequence.len() == 0;
        self.insert_at(key.token_index, TokenKind::Key, Span::point(key.pos));
        if in_block {
            proof {
                lemma_roll(
                    self@,
                    key@.column(),
                    TokenKindView::BlockMappingStart,
                    Some(key.token_index as int),
                );
            }
            self.roll_indent(
                (key.pos.column - 1) as i32,
                TokenKind::BlockMappingStart,
                Some(key.token_index),
            );
        }
        self.remove_simple_key();
        let ghost s = self@;
        self.allow_simple_key = false;
        assert(self@ =~= Scan { allow: false, ..s });
        self.value_token();
    }

    fn fetch_value(&mut self) -> (r: Result<bool>)
        requires
            old(self).text_ok(),
            old(self)@.ok(),
            old(self)@.started,
            !old(self)@.at_end(),
            old(self)@.byte() < 0x80,
        ensures
            Self::stepped(*old(self), *final(self), r, old(self)@.value_indicator()),
    {
        let in_block = self.flow_is_sequence.len() == 0;
        if in_block && self.tab_after_indicator_line == self.cur.line {
            return Err(
                self.error_here("spaces for indentation", "tab character before value indicator"),
            );
        }
        let key = self.simple_keys[self.simple_keys.len() - 1];
        assert(key@ == self@.keys.last());
        if key.possible {
            self.fetch_value_of_key(key);
            return Ok(true);
        }
        if in_block {
            if !self.allow_simple_key || self.plain_scalar_colon_adjacent {
                return Err(self.error_here("block content", "value ':'"));
            }
            if self.document_start_line == self.cur.line && self.cur.column > 0 {
                return Err(
                    self.error_here("block content at column 0", "mapping on document start line"),
                );
            }
            proof {
                lemma_roll(self@, self@.cur.column, TokenKindView::BlockMappingStart, None);
            }
            self.roll_indent(self.cur.column as i32, TokenKind::BlockMappingStart, None);
        }
        self.remove_simple_key();
        let ghost s = self@;
        self.allow_simple_key = in_block;
        assert(self@ =~= Scan { allow: in_block, ..s });
        self.value_token();
        Ok(true)
    }

    // ─── Nodes ──────────────────────────────────────────────────────

    /// Saves a possible key here and allows none behind what starts here.
    fn start_node(&mut self)
        requires
            old(self)@.ok(),
        ensures
            final(self).same_text(*old(self)),
            final(self).cur == old(self).cur,
            final(self)@ == old(self)@.node_start(),
            final(self)@.ok(),
            final(self)@.trivia == old(self)@.trivia,
            final(self).preserve_trivia == old(self).preserve_trivia,
    {
        self.save_simple_key();
        let ghost s = self@;
        self.allow_simple_key = false;
        assert(self@ =~= Scan { allow: false, ..s });
    }

    /// Enqueues what was scanned from `start` on.
    fn finish(
        &mut self,
        start: Position,
        scanned: Result<(Cursor, Option<TokenKind<'a>>)>,
        Ghost(l): Ghost<core::result::Result<(Cur, Option<TokenKindView>), crate::error::ErrorView>>,
    ) -> (r: Result<bool>)
        requires
            old(self).text_ok(),
            old(self)@.ok(),
            old(self)@.started,
            l matches Ok((c, k)) ==> scanned matches Ok(p) && p.0@ == c && c.ok(old(self)@.b)
                && c.offset > old(self).cur.offset && match k {
                Some(kind) => p.1 matches Some(t) && t@ == kind,
                None => p.1 is None,
            },
            l matches Err(e) ==> scanned matches Err(x) && x@ == e,
        ensures
            Self::stepped(*old(self), *final(self), r, old(self)@.lexed(start, l)),
    {
        match scanned {
            Err(e) => Err(e),
            Ok((c, kind)) => {
                self.move_to(c);
                if let Some(kind) = kind {
                    let span = self.cur.span_from(start);
                    self.enqueue(kind, span);
                }
                Ok(true)
            },
        }
    }

    fn fetch_anchor(&mut self) -> (r: Result<bool>)
        requires
            old(self).text_ok(),
            old(self)@.ok(),
            old(self)@.started,
            !old(self)@.at_end(),
            old(self)@.byte() < 0x80,
        ensures
            Self::stepped(*old(self), *final(self), r, old(self)@.anchor(true)),
    {
        self.scan_anchor_or_alias(true)
    }

    fn fetch_alias(&mut self) -> (r: Result<bool>)
        requires
            old(self).text_ok(),
            old(self)@.ok(),
            old(self)@.started,
            !old(self)@.at_end(),
            old(self)@.byte() < 0x80,
        ensures
            Self::stepped(*old(self), *final(self), r, old(self)@.anchor(false)),
    {
        self.scan_anchor_or_alias(false)
    }

    fn scan_anchor_or_alias(&mut self, is_anchor: bool) -> (r: Result<bool>)
        requires
            old(self).text_ok(),
            old(self)@.ok(),
            old(self)@.started,
            !old(self)@.at_end(),
            old(self)@.byte() < 0x80,
        ensures
            Self::stepped(*old(self), *final(self), r, old(self)@.anchor(is_anchor)),
    {
        self.start_node();
        let start = self.pos();
        let c = self.cur.step(self.bytes);
        let scanned = scan_anchor_or_alias(self.input, self.bytes, c, is_anchor, start);
        let ghost l = props::anchor_or_alias(self@.b, c@, is_anchor, start);
        self.finish(start, scanned, Ghost(l))
    }

    fn fetch_tag(&mut self) -> (r: Result<bool>)
        requires
            old(self).text_ok(),
            old(self)@.ok(),
            old(self)@.started,
            !old(self)@.at_end(),
            old(self)@.byte() == BANG,
        ensures
            Self::stepped(*old(self), *final(self), r, old(self)@.tag()),
    {
        self.start_node();
        let start = self.pos();
        let c = self.cur.step(self.bytes);
        let scanned = scan_tag(self.input, self.bytes, c, start);
        let ghost l = props::tag(self@.b, c@, c.offset - 1, start);
        self.finish(start, scanned, Ghost(l))
    }

    fn fetch_directive(&mut self) -> (r: Result<bool>)
        requires
            old(self).text_ok(),
            old(self)@.ok(),
            old(self)@.started,
            !old(self)@.at_end(),
            old(self)@.byte() < 0x80,
        ensures
            Self::stepped(*old(self), *final(self), r, old(self)@.directive()),
    {
        self.close_blocks();
        let start = self.pos();
        let c = self.cur.step(self.bytes);
        let scanned = scan_directive(self.input, self.bytes, c, start);
        let ghost l = props::directive(self@.b, c@, start);
        self.finish(start, scanned, Ghost(l))
    }

    // ─── Scalars ────────────────────────────────────────────────────

    /// Enqueues the scalar scanned from `start` on.
    fn finish_scalar(
        &mut self,
        start: Position,
        scanned: Result<(Cursor, Cow<'a, str>)>,
        style: ScalarStyle,
        Ghost(q): Ghost<Quoted>,
    ) -> (r: Result<bool>)
        requires
            old(self).text_ok(),
            old(self)@.ok(),
            old(self)@.started,
            q matches Ok((c, v)) ==> scanned matches Ok(p) && p.0@ == c && p.1@ == v && c.ok(
                old(self)@.b,
            ) && c.offset > old(self).cur.offset,
            q matches Err(e) ==> scanned matches Err(x) && x@ == e,
        ensures
            Self::stepped(*old(self), *final(self), r, old(self)@.scalar(start, q, style)),
    {
        match scanned {
            Err(e) => Err(e),
            Ok((c, value)) => {
                self.move_to(c);
                let span = self.cur.span_from(start);
                self.enqueue(TokenKind::Scalar { value, style }, span);
                Ok(true)
            },
        }
    }

    fn fetch_block_scalar(&mut self, style: ScalarStyle) -> (r: Result<bool>)
        requires
            old(self).text_ok(),
            old(self)@.ok(),
            old(self)@.started,
            !old(self)@.at_end(),
            old(self)@.byte() < 0x80,
        ensures
            Self::stepped(*old(self), *final(self), r, old(self)@.block_scalar(style)),
    {
        self.remove_simple_key();
        let ghost s = self@;
        self.allow_simple_key = true;
        assert(self@ =~= Scan { allow: true, ..s });
        let start = self.pos();
        let c = self.cur.step(self.bytes);
        let scanned = match scan_block_scalar(
            self.input,
            self.bytes,
            c,
            style,
            self.indent,
            start,
        ) {
            Ok((e, v)) => Ok((e, Cow::Owned(v))),
            Err(e) => Err(e),
        };
        let ghost q = block::block_scalar(self@.b, c@, style, self@.indent, start);
        self.finish_scalar(start, scanned, style, Ghost(q))
    }

    fn fetch_single_quoted_scalar(&mut self) -> (r: Result<bool>)
        requires
            old(self).text_ok(),
            old(self)@.ok(),
            old(self)@.started,
            !old(self)@.at_end(),
            old(self)@.byte() < 0x80,
        ensures
            Self::stepped(*old(self), *final(self), r, old(self)@.single_quoted()),
    {
        self.start_node();
        let start = self.pos();
        let c = self.cur.step(self.bytes);
        let scanned = scan_single_quoted(self.input, self.bytes, c, start);
        let ghost q = quoted::single_quoted(self@.b, c@, seq![], start);
        self.finish_scalar(start, scanned, ScalarStyle::SingleQuoted, Ghost(q))
    }

    fn fetch_double_quoted_scalar(&mut self) -> (r: Result<bool>)
        requires
            old(self).text_ok(),
            old(self)@.ok(),
            old(self)@.started,
            !old(self)@.at_end(),
            old(self)@.byte() < 0x80,
        ensures
            Self::stepped(*old(self), *final(self), r, old(self)@.double_quoted()),
    {
        self.start_node();
        let start = self.pos();
        let c = self.cur.step(self.bytes);
        let indent_from: Option<u32> = if self.flow_is_sequence.len() == 0 {
            Some((self.indent + 1) as u32)
        } else {
            None
        };
        let scanned = match scan_double_quoted(self.input, self.bytes, c, indent_from, start) {
            Ok((e, v)) => Ok((e, Cow::Owned(v))),
            Err(e) => Err(e),
        };
        let ghost q = quoted::double_quoted(
            self@.b,
            c@,
            seq![],
            seq![],
            column_bound(indent_from),
            start,
        );
        self.finish_scalar(start, scanned, ScalarStyle::DoubleQuoted, Ghost(q))
    }

    /// Whether the byte that stands here cannot start a plain scalar: c-indicator
    /// chars (-, ?, :) can only if followed by ns-plain-safe (YAML 1.2.2 §7.3.3).
    fn bad_plain_start(&self) -> (r: bool)
        requires
            self@.ok(),
            !self@.at_end(),
        ensures
            r == self@.bad_plain_start(),
    {
        let x = self.bytes[self.cur.offset];
        if x == DASH || x == QUESTION || x == COLON {
            if self.flow_is_sequence.len() == 0 {
                is_blank_at(self.bytes, self.cur.offset + 1)
            } else {
                is_blank_or_flow_at(self.bytes, self.cur.offset + 1)
            }
        } else {
            false
        }
    }

    fn fetch_plain_scalar(&mut self) -> (r: Result<bool>)
        requires
            old(self).text_ok(),
            old(self)@.ok(),
            old(self)@.started,
            !old(self)@.at_end(),
        ensures
            Self::stepped(*old(self), *final(self), r, old(self)@.plain()),
    {
        self.start_node();
        let ghost s = self@;
        let start = self.pos();
        let start_line: u32 = self.cur.line;
        if self.bad_plain_start() {
            let found = quoted_string(self.bytes[self.cur.offset] as char);
            return Err(self.error_here("scalar value", found.as_str()));
        }
        let in_flow = self.flow_is_sequence.len() > 0;
        let p = scan_plain(self.input, self.bytes, self.cur, in_flow, self.indent);
        let c = p.cur;
        if cow_is_empty(&p.value) {
            let found = match c.peek(self.bytes) {
                None => "'EOF'".to_owned(),
                Some(x) => quoted_string(x as char),
            };
            return Err(Error::unexpected("scalar value", found.as_str(), c.span_from(start)));
        }
        let adjacent = p.last_line == c.line && p.last_line != start_line && c.at(self.bytes, COLON)
            && is_blank_at(self.bytes, c.offset + 1);
        self.move_to(c);
        let span = self.cur.span_from(start);
        self.enqueue(TokenKind::Scalar { value: p.value, style: ScalarStyle::Plain }, span);
        let ghost t = self@;
        self.allow_simple_key = true;
        self.plain_scalar_colon_adjacent = adjacent;
        assert(self@ =~= Scan { allow: true, colon_adjacent: adjacent, ..t });
        Ok(true)
    }
}

/// Whether a `Cow` holds the empty text.
fn cow_is_empty(c: &Cow<'_, str>) -> (r: bool)
    ensures
        r == (c@.len() == 0),
{
    crate::text::cow_str(c).is_empty()
}

/// The three bytes of a byte order mark are one character.
proof fn lemma_bom_boundary(b: Seq<u8>)
    requires
        vstd::utf8::valid_utf8(b),
        b.len() >= 3,
        b[0] == 0xef,
    ensures
        at_boundary(b, 3),
        at_boundary(b, 0),
{
    use_first_scalar(b);
}

proof fn use_first_scalar(b: Seq<u8>)
    requires
        vstd::utf8::valid_utf8(b),
        b.len() >= 3,
        b[0] == 0xef,
    ensures
        at_boundary(b, 3),
        at_boundary(b, 0),
{
    let tail = vstd::utf8::pop_first_scalar(b);
    let x = b[0];
    assert(vstd::utf8::valid_utf8(tail));
    if b.len() > 3 {
        assert(tail[0] == b[3]);
        assert(vstd::utf8::valid_first_scalar(tail));
    }
}

} // verus!
