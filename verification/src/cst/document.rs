//! The lossless YAML document: parse -> edit -> serialize with comments preserved.
//!
//! [`Document::parse`] keeps every byte of its input, whatever the input is, as a
//! flat tree of typed leaves. Edits resolve a path to a part of the source, splice
//! new text into the source and parse the result.
use crate::cst::format::reformat_text;
use crate::cst::green::GreenNode;
use crate::cst::path::{is_block_mapping, resolve_path};
use crate::cst::place::{ascii_space, find_lead, find_place, trim_range, trimmed_end};
use crate::cst::red::SyntaxNode;
use crate::cst::tape::{build, collect_tape};
use crate::error::ParserConfig;
use crate::parser::event::{Event, EventKind, EventKindView, EventView};
use crate::parser::stream::{collect_events, Stream};
use crate::scanner::chars::{LF, SPACE, TAB};
use crate::scanner::cursor::MAX_INPUT;
use crate::text::{slice, text};
use crate::types::CollectionStyle;
use std::rc::Rc;
use vstd::prelude::*;
use vstd::string::*;
use vstd::utf8::*;

verus! {

/// A lossless YAML document: a concrete syntax tree that round-trips its source
/// byte-for-byte while exposing structure for edits.
pub struct Document {
    green: Rc<GreenNode>,
    src: String,
}

/// Error returned by [`Document::set`] and [`Document::insert`].
#[derive(Debug, Clone, Copy, PartialEq, Eq, Structural)]
pub enum SetError {
    /// The path did not resolve to an existing value.
    PathNotFound,
    /// The document root is not a block mapping (it is a scalar or sequence),
    /// so a top-level key cannot be inserted.
    NotAMapping,
}

impl SetError {
    /// The message for this error.
    pub open spec fn message(self) -> Seq<char> {
        match self {
            SetError::PathNotFound => "path not found"@,
            SetError::NotAMapping => "root is not a block mapping"@,
        }
    }

    /// The message for this error.
    #[must_use]
    pub fn to_string(&self) -> (r: String)
        ensures
            r@ == self.message(),
    {
        match self {
            SetError::PathNotFound => "path not found".to_owned(),
            SetError::NotAMapping => "root is not a block mapping".to_owned(),
        }
    }
}

/// Classification of the document root, used by [`Document::insert`].
#[derive(Debug, Clone, Copy, PartialEq, Eq, Structural)]
pub enum RootKind {
    /// The root is a block mapping.
    Mapping,
    /// The document is empty (only stream/document framing, no node).
    Empty,
    /// The root is a flow mapping, a scalar, a sequence, an alias, or an error.
    Other,
}

/// What the first event behind the framing says of the root, from the `i`th event
/// on. `failed` tells whether the events end with an error.
pub open spec fn root_of(events: Seq<EventView>, failed: bool, i: int) -> RootKind
    decreases events.len() - i,
{
    if !(0 <= i < events.len()) {
        if failed {
            RootKind::Other
        } else {
            RootKind::Empty
        }
    } else {
        match events[i].kind {
            EventKindView::StreamStart => root_of(events, failed, i + 1),
            EventKindView::DocumentStart { .. } => root_of(events, failed, i + 1),
            EventKindView::MappingStart { style, .. } => if style is Block {
                RootKind::Mapping
            } else {
                RootKind::Other
            },
            EventKindView::StreamEnd => RootKind::Empty,
            EventKindView::DocumentEnd { .. } => RootKind::Empty,
            _ => RootKind::Other,
        }
    }
}

/// Classifies a document root from its parser events. `failed` tells whether the
/// events end with an error.
pub fn classify_root_events(events: &Vec<Event<'_>>, failed: bool) -> (r: RootKind)
    ensures
        r == root_of(crate::parser::stream::event_views(events@), failed, 0),
{
    let ghost views = crate::parser::stream::event_views(events@);
    let mut i: usize = 0;
    while i < events.len()
        invariant
            i <= events@.len(),
            views == crate::parser::stream::event_views(events@),
            root_of(views, failed, i as int) == root_of(views, failed, 0),
        decreases events@.len() - i,
    {
        assert(views[i as int] == events@[i as int]@);
        match &events[i].kind {
            EventKind::StreamStart | EventKind::DocumentStart { .. } => {
                i += 1;
            },
            EventKind::MappingStart { style, .. } => {
                return if *style == CollectionStyle::Block {
                    RootKind::Mapping
                } else {
                    RootKind::Other
                };
            },
            EventKind::StreamEnd | EventKind::DocumentEnd { .. } => {
                return RootKind::Empty;
            },
            _ => {
                return RootKind::Other;
            },
        }
    }
    if failed {
        RootKind::Other
    } else {
        RootKind::Empty
    }
}

/// The events of a source text.
pub open spec fn source_stream(source: Seq<char>) -> Stream {
    crate::parser::stream::stream(
        crate::parser::model::Parse::fresh(encode_utf8(source), crate::limits::default_limits()),
    )
}

/// The root of a source text.
pub open spec fn source_root(source: Seq<char>) -> RootKind {
    root_of(source_stream(source).events, source_stream(source).error is Some, 0)
}

/// Classifies the root node of a source text.
fn root_kind(src: &str) -> (r: RootKind)
    requires
        src.spec_bytes().len() <= MAX_INPUT,
    ensures
        r == source_root(src@),
{
    let (events, error) = collect_events(src, ParserConfig::default());
    classify_root_events(&events, error.is_some())
}

/// The part of a source text that a path denotes, without trailing whitespace. A value
/// that is not written has an empty part.
pub open spec fn value_range(source: Seq<char>, path: Seq<char>) -> Option<(int, int)> {
    let b = encode_utf8(source);
    let events = source_stream(source).events;
    match crate::cst::path::path_node(events, path) {
        Some(i) => {
            let (lo, hi) = crate::cst::place::place_of(
                b,
                crate::cst::tape::source_tokens(source),
                events,
                i,
            );
            if lo <= hi <= b.len() && crate::text::at_boundary(b, lo) && crate::text::at_boundary(
                b,
                hi,
            ) {
                Some((lo, trimmed_end(b, lo, hi)))
            } else {
                None
            }
        },
        None => None,
    }
}

/// What goes in front of a new value at a path: nothing, unless the value is not
/// written yet.
pub open spec fn value_lead(source: Seq<char>, path: Seq<char>) -> Seq<char> {
    let events = source_stream(source).events;
    match crate::cst::path::path_node(events, path) {
        Some(i) => crate::cst::place::lead_of(
            encode_utf8(source),
            crate::cst::tape::source_tokens(source),
            events,
            i,
        ),
        None => ""@,
    }
}

/// The text that replaces the value at a path: the new value, behind what separates it
/// from its surroundings where the old one is not written.
pub open spec fn replacement(source: Seq<char>, path: Seq<char>, value: Seq<char>) -> Seq<char> {
    if value.len() == 0 {
        value
    } else {
        value_lead(source, path) + value
    }
}

/// A source text with a new value at a path, if the path denotes a value.
pub open spec fn with_value(source: Seq<char>, path: Seq<char>, value: Seq<char>) -> Option<
    Seq<char>,
> {
    match value_range(source, path) {
        Some((lo, hi)) => Some(spliced(source, lo, hi, replacement(source, path, value))),
        None => None,
    }
}

/// Whether a path denotes a block mapping.
pub open spec fn denotes_block_mapping(source: Seq<char>, path: Seq<char>) -> bool {
    let events = source_stream(source).events;
    crate::cst::path::path_node(events, path) matches Some(i)
        && crate::cst::path::starts_block_mapping(events[i])
}

/// A source text with a range of it replaced.
pub open spec fn spliced(source: Seq<char>, lo: int, hi: int, value: Seq<char>) -> Seq<char> {
    let b = encode_utf8(source);
    text(b, 0, lo) + value + text(b, hi, b.len() as int)
}

/// A source text with an entry appended on a line of its own.
pub open spec fn appended(source: Seq<char>, key: Seq<char>, value: Seq<char>) -> Seq<char> {
    let lines = if source.len() > 0 && source.last() != '\n' {
        source.push('\n')
    } else {
        source
    };
    lines + key + ": "@ + value + "\n"@
}

/// A source text with an entry at its end, if its root is a block mapping or empty.
pub open spec fn with_top_entry(source: Seq<char>, key: Seq<char>, value: Seq<char>) -> Option<
    Seq<char>,
> {
    if source_root(source) is Other {
        None
    } else {
        Some(appended(source, key, value))
    }
}

/// A source text with an entry in the mapping that a path denotes: an error where it
/// denotes nothing, or something other than a block mapping.
pub open spec fn with_entry(
    source: Seq<char>,
    parent: Seq<char>,
    key: Seq<char>,
    value: Seq<char>,
) -> core::result::Result<Seq<char>, SetError> {
    if parent.len() == 0 {
        match with_top_entry(source, key, value) {
            Some(text) => Ok(text),
            None => Err(SetError::NotAMapping),
        }
    } else {
        match value_range(source, parent) {
            None => Err(SetError::PathNotFound),
            Some((lo, hi)) => if denotes_block_mapping(source, parent) {
                Ok(spliced(source, hi, hi, entry_text(source, lo, key, value)))
            } else {
                Err(SetError::NotAMapping)
            },
        }
    }
}

/// The place behind the last line feed before `at`.
pub open spec fn line_start(b: Seq<u8>, at: int) -> int
    decreases at,
{
    if 0 < at <= b.len() && b[at - 1] != LF {
        line_start(b, at - 1)
    } else {
        at
    }
}

/// The place behind the spaces and tabs that start at `i`.
pub open spec fn blank_end(b: Seq<u8>, i: int) -> int
    decreases b.len() - i,
{
    if 0 <= i < b.len() && (b[i] == SPACE || b[i] == TAB) {
        blank_end(b, i + 1)
    } else {
        i
    }
}

/// The indentation of the line of `at`.
pub open spec fn indentation(source: Seq<char>, at: int) -> Seq<char> {
    let b = encode_utf8(source);
    text(b, line_start(b, at), blank_end(b, line_start(b, at)))
}

/// The text of a new entry for the mapping that stands at `lo..hi`: on a line of its
/// own, indented as the line of `lo` is.
pub open spec fn entry_text(source: Seq<char>, lo: int, key: Seq<char>, value: Seq<char>) -> Seq<
    char,
> {
    "\n"@ + indentation(source, lo) + key + ": "@ + value
}

/// A trimmed range is still a range between characters.
proof fn lemma_trimmed(b: Seq<u8>, lo: int, hi: int)
    requires
        valid_utf8(b),
        0 <= lo <= hi <= b.len(),
        crate::text::at_boundary(b, hi),
    ensures
        lo <= trimmed_end(b, lo, hi) <= hi,
        crate::text::at_boundary(b, trimmed_end(b, lo, hi)),
    decreases hi - lo,
{
    if lo < hi && ascii_space(b[hi - 1]) {
        crate::text::lemma_ascii_boundary(b, hi - 1);
        lemma_trimmed(b, lo, hi - 1);
    }
}

/// A resolved range lies within the source, between characters.
pub proof fn lemma_value_range(source: Seq<char>, path: Seq<char>)
    ensures
        value_range(source, path) matches Some((lo, hi)) ==> {
            &&& 0 <= lo <= hi <= encode_utf8(source).len()
            &&& crate::text::at_boundary(encode_utf8(source), lo)
            &&& crate::text::at_boundary(encode_utf8(source), hi)
        },
{
    crate::text::lemma_text_whole(source);
    let b = encode_utf8(source);
    if let Some(i) = crate::cst::path::path_node(source_stream(source).events, path) {
        let (lo, hi) = crate::cst::place::place_of(
            b,
            crate::cst::tape::source_tokens(source),
            source_stream(source).events,
            i,
        );
        if 0 <= lo <= hi <= b.len() && crate::text::at_boundary(b, lo) && crate::text::at_boundary(
            b,
            hi,
        ) {
            lemma_trimmed(b, lo, hi);
        }
    }
}

/// The indentation of a line lies between characters, before the rest of the line.
proof fn lemma_indentation(b: Seq<u8>, at: int)
    requires
        valid_utf8(b),
        0 <= at <= b.len(),
    ensures
        0 <= line_start(b, at) <= at,
        crate::text::at_boundary(b, line_start(b, at)),
    decreases at,
{
    if 0 < at && b[at - 1] != LF {
        lemma_indentation(b, at - 1);
    } else if 0 < at {
        crate::text::lemma_ascii_boundary(b, at - 1);
    } else {
        crate::text::lemma_boundary_zero(b);
    }
}

proof fn lemma_blank_end(b: Seq<u8>, i: int)
    requires
        valid_utf8(b),
        0 <= i <= b.len(),
        crate::text::at_boundary(b, i),
    ensures
        i <= blank_end(b, i) <= b.len(),
        crate::text::at_boundary(b, blank_end(b, i)),
    decreases b.len() - i,
{
    if i < b.len() && (b[i] == SPACE || b[i] == TAB) {
        crate::text::lemma_ascii_boundary(b, i);
        lemma_blank_end(b, i + 1);
    }
}

/// Where a value stands.
struct Place {
    start: usize,
    end: usize,
    is_block_mapping: bool,
    /// What goes in front of a new value.
    lead: String,
}

impl Document {
    /// The source text.
    pub closed spec fn source(self) -> Seq<char> {
        self.src@
    }

    /// The tree is that of the source text, which is short enough to be scanned.
    pub closed spec fn wf(self) -> bool {
        &&& self.green.wf()
        &&& self.green@ == crate::cst::tape::source_tree(self.src@)
        &&& encode_utf8(self.src@).len() <= MAX_INPUT
    }

    /// Parses YAML source into a lossless CST. Every byte of `input` is preserved,
    /// also where it is malformed.
    #[must_use]
    pub fn parse(input: &str) -> (r: Document)
        requires
            input.spec_bytes().len() <= MAX_INPUT,
        ensures
            r.wf(),
            r.source() == input@,
    {
        let green = build(input);
        Document { green, src: input.to_owned() }
    }

    /// The source text.
    #[must_use]
    pub fn as_str(&self) -> (r: &str)
        requires
            self.wf(),
        ensures
            r@ == self.source(),
            encode_utf8(self.source()).len() <= MAX_INPUT,
    {
        self.src.as_str()
    }

    /// The root syntax node.
    #[must_use]
    pub fn root(&self) -> (r: SyntaxNode)
        requires
            self.wf(),
        ensures
            r.wf(),
            r.start() == 0,
            r.tree() == crate::cst::tape::source_tree(self.source()),
    {
        SyntaxNode::new_root(self.green.clone())
    }

    /// Looks up the value at a dotted/indexed `path` and returns its exact source
    /// text (a slice of the original input), or `None` if the path does not
    /// resolve.
    ///
    /// Path syntax: `.`-separated segments. A segment is either a mapping key
    /// (matched against the key scalar's text) or a non-negative integer index
    /// into a sequence. An empty path returns the whole root node's value text.
    /// Examples: `settings.debug`, `items.1`, `matrix.0.0`.
    ///
    /// Only the **first** document is looked at. Malformed input (any parser error
    /// up to the end of its root node) yields `None`.
    #[must_use]
    pub fn get(&self, path: &str) -> (r: Option<&str>)
        requires
            self.wf(),
        ensures
            match value_range(self.source(), path@) {
                Some((lo, hi)) => r matches Some(s) && s@ == text(
                    encode_utf8(self.source()),
                    lo,
                    hi,
                ),
                None => r is None,
            },
    {
        match self.resolve_span(path) {
            Some(place) => Some(slice(self.src.as_str(), place.start, place.end)),
            None => None,
        }
    }

    /// The source with the value at `path` replaced by `value`, unless `path` does not
    /// resolve to an existing value.
    pub fn edited(&self, path: &str, value: &str) -> (r: Option<String>)
        requires
            self.wf(),
        ensures
            match with_value(self.source(), path@, value@) {
                Some(text) => r matches Some(s) && s@ == text,
                None => r is None,
            },
    {
        let place = match self.resolve_span(path) {
            Some(place) => place,
            None => {
                return None;
            },
        };
        let ghost b = encode_utf8(self.src@);
        proof {
            crate::text::lemma_text_whole(self.src@);
            crate::text::lemma_boundary_zero(b);
        }
        let n: usize = self.src.as_str().as_bytes().len();
        let mut s = slice(self.src.as_str(), 0, place.start).to_owned();
        if !value.is_empty() {
            s.append(place.lead.as_str());
        }
        s.append(value);
        s.append(slice(self.src.as_str(), place.end, n));
        assert(s@ =~= with_value(self.src@, path@, value@)->0);
        Some(s)
    }

    /// Replaces the value at `path` with `value`, preserving all surrounding
    /// comments, indentation, and quoting. A value that is not written is written
    /// behind its indicator, with a space between them.
    ///
    /// # Errors
    ///
    /// Returns [`SetError::PathNotFound`] if `path` does not resolve to an
    /// existing value; in that case the document is left unchanged.
    pub fn set(&mut self, path: &str, value: &str) -> (r: Result<(), SetError>)
        requires
            old(self).wf(),
            with_value(old(self).source(), path@, value@) matches Some(text) ==> encode_utf8(
                text,
            ).len() <= MAX_INPUT,
        ensures
            final(self).wf(),
            match with_value(old(self).source(), path@, value@) {
                Some(text) => {
                    &&& r == Ok::<(), SetError>(())
                    &&& final(self).source() == text
                },
                None => {
                    &&& r == Err::<(), SetError>(SetError::PathNotFound)
                    &&& *final(self) == *old(self)
                },
            },
    {
        match self.edited(path, value) {
            Some(s) => {
                *self = Document::parse(s.as_str());
                Ok(())
            },
            None => Err(SetError::PathNotFound),
        }
    }

    /// The source with a new top-level `key: value` entry, unless the root is neither
    /// a block mapping nor empty.
    pub fn extended(&self, key: &str, value: &str) -> (r: Option<String>)
        requires
            self.wf(),
        ensures
            match with_top_entry(self.source(), key@, value@) {
                Some(text) => r matches Some(s) && s@ == text,
                None => r is None,
            },
    {
        if root_kind(self.src.as_str()) == RootKind::Other {
            return None;
        }
        let n: usize = self.src.as_str().unicode_len();
        let mut s = self.src.clone();
        if n > 0 && self.src.as_str().get_char(n - 1) != '\n' {
            s.push('\n');
        }
        s.append(key);
        s.append(": ");
        s.append(value);
        s.append("\n");
        Some(s)
    }

    /// Inserts a new top-level `key: value` entry into a block-mapping (or empty)
    /// root, preserving existing entries and comments, then reparses.
    ///
    /// The new entry is appended after all existing content. If the source does
    /// not end with a newline, one is added before the new entry.
    ///
    /// # Errors
    ///
    /// Returns [`SetError::NotAMapping`] if the root is a flow mapping, a scalar or a
    /// sequence; in that case the document is left unchanged.
    pub fn insert(&mut self, key: &str, value: &str) -> (r: Result<(), SetError>)
        requires
            old(self).wf(),
            with_top_entry(old(self).source(), key@, value@) matches Some(text) ==> encode_utf8(
                text,
            ).len() <= MAX_INPUT,
        ensures
            final(self).wf(),
            match with_top_entry(old(self).source(), key@, value@) {
                Some(text) => {
                    &&& r == Ok::<(), SetError>(())
                    &&& final(self).source() == text
                },
                None => {
                    &&& r == Err::<(), SetError>(SetError::NotAMapping)
                    &&& *final(self) == *old(self)
                },
            },
    {
        match self.extended(key, value) {
            Some(s) => {
                *self = Document::parse(s.as_str());
                Ok(())
            },
            None => Err(SetError::NotAMapping),
        }
    }

    /// The source with a new `key: value` entry in the block mapping at `parent_path`.
    ///
    /// # Errors
    ///
    /// Those of [`insert_at`](Document::insert_at).
    pub fn extended_at(&self, parent_path: &str, key: &str, value: &str) -> (r: Result<
        String,
        SetError,
    >)
        requires
            self.wf(),
        ensures
            match with_entry(self.source(), parent_path@, key@, value@) {
                Ok(text) => r matches Ok(s) && s@ == text,
                Err(e) => r == Err::<String, SetError>(e),
            },
    {
        if parent_path.is_empty() {
            return match self.extended(key, value) {
                Some(s) => Ok(s),
                None => Err(SetError::NotAMapping),
            };
        }
        let place = match self.resolve_span(parent_path) {
            Some(place) => place,
            None => {
                return Err(SetError::PathNotFound);
            },
        };
        if !place.is_block_mapping {
            return Err(SetError::NotAMapping);
        }
        let lo: usize = place.start;
        let hi: usize = place.end;
        let ghost b = encode_utf8(self.src@);
        proof {
            crate::text::lemma_text_whole(self.src@);
            crate::text::lemma_boundary_zero(b);
        }
        let bytes = self.src.as_str().as_bytes();
        let n: usize = bytes.len();
        let mut start: usize = lo;
        while start > 0 && bytes[start - 1] != LF
            invariant
                start <= lo,
                lo <= n,
                n == bytes@.len(),
                bytes@ == b,
                line_start(b, start as int) == line_start(b, lo as int),
            decreases start,
        {
            start -= 1;
        }
        let mut end: usize = start;
        while end < n && (bytes[end] == SPACE || bytes[end] == TAB)
            invariant
                start <= end <= n,
                n == bytes@.len(),
                bytes@ == b,
                blank_end(b, end as int) == blank_end(b, start as int),
            decreases n - end,
        {
            end += 1;
        }
        proof {
            lemma_indentation(b, lo as int);
            lemma_blank_end(b, start as int);
        }
        let mut s = slice(self.src.as_str(), 0, hi).to_owned();
        s.append("\n");
        s.append(slice(self.src.as_str(), start, end));
        s.append(key);
        s.append(": ");
        s.append(value);
        s.append(slice(self.src.as_str(), hi, n));
        assert(s@ =~= with_entry(self.src@, parent_path@, key@, value@)->Ok_0);
        Ok(s)
    }

    /// Inserts a new `key: value` entry into the block mapping at `parent_path`,
    /// preserving siblings, comments, and indentation, then reparses.
    ///
    /// An empty `parent_path` means top-level [`insert`](Document::insert).
    /// Otherwise the path must resolve to a **block** mapping; flow mappings and
    /// sequences are rejected with [`SetError::NotAMapping`].
    ///
    /// The new entry is appended after all existing entries in the target
    /// mapping. The child indent is inferred from the line that contains the
    /// first entry's key.
    ///
    /// # Errors
    ///
    /// - [`SetError::PathNotFound`] if `parent_path` does not resolve.
    /// - [`SetError::NotAMapping`] if the resolved node is not a block mapping
    ///   (it is a flow mapping, a sequence, or a scalar).
    ///
    /// On an error the document is left unchanged.
    pub fn insert_at(&mut self, parent_path: &str, key: &str, value: &str) -> (r: Result<
        (),
        SetError,
    >)
        requires
            old(self).wf(),
            with_entry(old(self).source(), parent_path@, key@, value@) matches Ok(text)
                ==> encode_utf8(text).len() <= MAX_INPUT,
        ensures
            final(self).wf(),
            match with_entry(old(self).source(), parent_path@, key@, value@) {
                Ok(text) => {
                    &&& r == Ok::<(), SetError>(())
                    &&& final(self).source() == text
                },
                Err(e) => {
                    &&& r == Err::<(), SetError>(e)
                    &&& *final(self) == *old(self)
                },
            },
    {
        match self.extended_at(parent_path, key, value) {
            Ok(s) => {
                *self = Document::parse(s.as_str());
                Ok(())
            },
            Err(e) => Err(e),
        }
    }

    /// Reformats the source: trims trailing whitespace from each line and ensures
    /// exactly one final newline. Comments, indentation and the content of quoted and
    /// block scalars stay, and so does what the documents are: trimming that would change
    /// it is left out. Only where the final line breaks are content, at the end of a block
    /// scalar that keeps them, does the final newline change it. Idempotent.
    #[must_use]
    pub fn reformatted(&self) -> (r: String)
        requires
            self.wf(),
            encode_utf8(self.source()).len() < MAX_INPUT,
        ensures
            r@ == crate::cst::format::reformat(self.source()),
    {
        reformat_text(self.src.as_str())
    }

    /// Resolves a dotted/indexed `path` to where the value stands in the source, without
    /// trailing whitespace.
    fn resolve_span(&self, path: &str) -> (r: Option<Place>)
        requires
            self.wf(),
        ensures
            match value_range(self.source(), path@) {
                Some((lo, hi)) => {
                    &&& r matches Some(place)
                    &&& place.start == lo
                    &&& place.end == hi
                    &&& place.is_block_mapping == denotes_block_mapping(self.source(), path@)
                    &&& place.lead@ == value_lead(self.source(), path@)
                    &&& 0 <= lo <= hi <= encode_utf8(self.source()).len()
                    &&& encode_utf8(self.source()).len() <= MAX_INPUT
                    &&& crate::text::at_boundary(encode_utf8(self.source()), lo)
                    &&& crate::text::at_boundary(encode_utf8(self.source()), hi)
                },
                None => r is None,
            },
    {
        let (events, _error) = collect_events(self.src.as_str(), ParserConfig::default());
        let ghost b = encode_utf8(self.src@);
        proof {
            crate::text::lemma_text_whole(self.src@);
            lemma_value_range(self.src@, path@);
        }
        match resolve_path(&events, path) {
            None => None,
            Some(i) => {
                let ghost views = crate::parser::stream::event_views(events@);
                assert(views[i as int] == events@[i as int]@);
                let tokens = collect_tape(self.src.as_str());
                let bytes = self.src.as_str().as_bytes();
                let (lo, hi) = find_place(bytes, &tokens, &events, i);
                if lo > hi || hi > bytes.len() {
                    return None;
                }
                proof {
                    crate::text::lemma_boundary(b, lo as int);
                    crate::text::lemma_boundary(b, hi as int);
                }
                if !self.src.as_str().is_char_boundary(lo) || !self.src.as_str().is_char_boundary(
                    hi,
                ) {
                    return None;
                }
                // The span of a plain scalar extends past its content: it covers the
                // whitespace before a trailing comment or the line break.
                let end: usize = trim_range(bytes, lo, hi);
                let is_block_mapping = is_block_mapping(&events[i]);
                let lead = find_lead(bytes, &tokens, &events, i);
                Some(Place { start: lo, end, is_block_mapping, lead })
            },
        }
    }

    /// Serializes the document back to source, byte-for-byte.
    #[must_use]
    pub fn to_string(&self) -> (r: String)
        requires
            self.wf(),
        ensures
            r@ == self.source(),
    {
        let mut s = String::new();
        self.green.write_text(&mut s);
        proof {
            crate::cst::tape::law_tree_is_lossless(self.src@);
            assert(s@ =~= self.src@);
        }
        s
    }
}

/// The bytes of a piece of text are the piece of its bytes.
proof fn lemma_text_bytes(b: Seq<u8>, lo: int, hi: int)
    requires
        valid_utf8(b),
        0 <= lo <= hi <= b.len(),
        crate::text::at_boundary(b, lo),
        crate::text::at_boundary(b, hi),
    ensures
        encode_utf8(text(b, lo, hi)) == b.subrange(lo, hi),
        encode_utf8(text(b, lo, hi)).len() == hi - lo,
{
    crate::text::lemma_text_valid(b, lo, hi);
    decode_utf8_encode_utf8(b.subrange(lo, hi));
}

/// Setting a value to the text it has leaves the document as it is.
pub proof fn law_set_of_same_text_changes_nothing(source: Seq<char>, path: Seq<char>)
    ensures
        value_range(source, path) matches Some((lo, hi)) ==> with_value(
            source,
            path,
            text(encode_utf8(source), lo, hi),
        ) == Some(source),
{
    let b = encode_utf8(source);
    lemma_value_range(source, path);
    crate::text::lemma_text_whole(source);
    crate::text::lemma_boundary_zero(b);
    if let Some((lo, hi)) = value_range(source, path) {
        let n = b.len() as int;
        let old = text(b, lo, hi);
        crate::text::lemma_text_join(b, 0, lo, hi);
        crate::text::lemma_text_join(b, 0, hi, n);
        lemma_written_has_no_lead(source, path);
        if lo == hi {
            crate::text::lemma_text_empty(b, lo);
        }
        reveal_strlit("");
        assert(replacement(source, path, old) =~= old);
    }
}

/// Only a value that is not written needs anything in front of a new one.
proof fn lemma_written_has_no_lead(source: Seq<char>, path: Seq<char>)
    ensures
        value_range(source, path) matches Some((lo, hi)) ==> lo == hi || value_lead(source, path)
            == ""@,
{
}

/// An edited value stands where the old one stood: what precedes it and what follows
/// it are untouched. In place of a value that is written, exactly the new one stands;
/// one that is not written may need a separator in front of it.
pub proof fn law_set_touches_only_the_value(source: Seq<char>, path: Seq<char>, value: Seq<char>)
    ensures
        value_range(source, path) matches Some((lo, hi)) ==> {
            let b = encode_utf8(source);
            let after = encode_utf8(with_value(source, path, value)->0);
            let new = encode_utf8(replacement(source, path, value));
            let k = new.len() as int;
            &&& after.subrange(0, lo) == b.subrange(0, lo)
            &&& after.subrange(lo, lo + k) == new
            &&& after.subrange(lo + k, after.len() as int) == b.subrange(hi, b.len() as int)
            &&& lo < hi ==> replacement(source, path, value) == value
        },
{
    let b = encode_utf8(source);
    lemma_value_range(source, path);
    crate::text::lemma_text_whole(source);
    crate::text::lemma_boundary_zero(b);
    if let Some((lo, hi)) = value_range(source, path) {
        let n = b.len() as int;
        let new = replacement(source, path, value);
        let after = encode_utf8(spliced(source, lo, hi, new));
        let k = encode_utf8(new).len() as int;
        lemma_text_bytes(b, 0, lo);
        lemma_text_bytes(b, hi, n);
        crate::cst::green::lemma_encode_concat(text(b, 0, lo), new);
        crate::cst::green::lemma_encode_concat(text(b, 0, lo) + new, text(b, hi, n));
        assert(after.subrange(0, lo) =~= b.subrange(0, lo));
        assert(after.subrange(lo, lo + k) =~= encode_utf8(new));
        assert(after.subrange(lo + k, after.len() as int) =~= b.subrange(hi, n));
        lemma_written_has_no_lead(source, path);
        reveal_strlit("");
        assert(lo < hi ==> new =~= value);
    }
}

/// A value that is not written has no text.
pub proof fn law_missing_value_is_empty(source: Seq<char>, path: Seq<char>)
    requires
        crate::cst::path::path_node(source_stream(source).events, path) matches Some(i)
            && crate::cst::place::is_missing(source_stream(source).events[i]),
    ensures
        value_range(source, path) matches Some((lo, hi)) ==> lo == hi && text(
            encode_utf8(source),
            lo,
            hi,
        ).len() == 0,
{
    if let Some((lo, hi)) = value_range(source, path) {
        crate::text::lemma_text_empty(encode_utf8(source), lo);
    }
}

/// A top-level entry goes into a block mapping or an empty document and into nothing
/// else, and the text before it stays.
pub proof fn law_top_entry_is_appended(source: Seq<char>, key: Seq<char>, value: Seq<char>)
    ensures
        with_top_entry(source, key, value) is Some <==> source_root(source) is Mapping
            || source_root(source) is Empty,
        with_top_entry(source, key, value) matches Some(text) ==> source.is_prefix_of(text)
            && text.len() <= source.len() + key.len() + value.len() + 4,
{
    reveal_strlit(": ");
    reveal_strlit("\n");
    if let Some(text) = with_top_entry(source, key, value) {
        assert(source =~= text.subrange(0, source.len() as int));
    }
}

/// The blanks that start a line.
proof fn lemma_blank_text(b: Seq<u8>, i: int, j: int)
    requires
        valid_utf8(b),
        0 <= i <= j <= b.len(),
        crate::text::at_boundary(b, i),
        forall|k: int| i <= k < j ==> #[trigger] b[k] == SPACE || b[k] == TAB,
    ensures
        crate::text::at_boundary(b, j),
        forall|k: int|
            0 <= k < text(b, i, j).len() ==> #[trigger] text(b, i, j)[k] == ' ' || text(b, i, j)[k]
                == '\t',
    decreases j - i,
{
    if i < j {
        crate::text::lemma_ascii_boundary(b, i);
        crate::text::lemma_text_ascii(b, i);
        lemma_blank_text(b, i + 1, j);
        crate::text::lemma_text_join(b, i, i + 1, j);
        let rest = text(b, i + 1, j);
        assert(text(b, i, j) == seq![b[i] as char] + rest);
        assert forall|k: int| 0 <= k < text(b, i, j).len() implies #[trigger] text(b, i, j)[k]
            == ' ' || text(b, i, j)[k] == '\t' by {
            if k > 0 {
                assert(text(b, i, j)[k] == rest[k - 1]);
            }
        }
    } else {
        crate::text::lemma_text_empty(b, i);
    }
}

proof fn lemma_blank_run(b: Seq<u8>, i: int)
    requires
        0 <= i <= b.len(),
    ensures
        i <= blank_end(b, i) <= b.len(),
        forall|k: int| i <= k < blank_end(b, i) ==> #[trigger] b[k] == SPACE || b[k] == TAB,
    decreases b.len() - i,
{
    if i < b.len() && (b[i] == SPACE || b[i] == TAB) {
        lemma_blank_run(b, i + 1);
    }
}

/// One text is the other with a line for an entry behind its first `k` bytes, indented by
/// spaces and tabs.
pub open spec fn has_line(
    source: Seq<char>,
    new: Seq<char>,
    k: int,
    indent: Seq<char>,
    key: Seq<char>,
    value: Seq<char>,
) -> bool {
    let b = encode_utf8(source);
    let n = b.len() as int;
    &&& 0 <= k <= n
    &&& source == text(b, 0, k) + text(b, k, n)
    &&& (forall|i: int| 0 <= i < indent.len() ==> #[trigger] indent[i] == ' ' || indent[i] == '\t')
    &&& new == text(b, 0, k) + ("\n"@ + indent + key + ": "@ + value) + text(b, k, n)
}

/// An entry goes into the block mapping that a path denotes: nothing is found where the
/// path denotes nothing, and anything else is refused. The new entry stands on a line of
/// its own behind some spaces and tabs, and everything else stays.
pub proof fn law_entry_is_spliced(
    source: Seq<char>,
    parent: Seq<char>,
    key: Seq<char>,
    value: Seq<char>,
)
    requires
        parent.len() > 0,
    ensures
        with_entry(source, parent, key, value) == Err::<Seq<char>, SetError>(
            SetError::PathNotFound,
        ) <==> value_range(source, parent) is None,
        with_entry(source, parent, key, value) == Err::<Seq<char>, SetError>(
            SetError::NotAMapping,
        ) <==> value_range(source, parent) is Some && !denotes_block_mapping(source, parent),
        with_entry(source, parent, key, value) matches Ok(new) ==> exists|k: int, indent: Seq<char>|
            #[trigger]
            has_line(source, new, k, indent, key, value),
{
    if let Some((lo, hi)) = value_range(source, parent) {
        let b = encode_utf8(source);
        let n = b.len() as int;
        lemma_value_range(source, parent);
        crate::text::lemma_text_whole(source);
        crate::text::lemma_boundary_zero(b);
        lemma_indentation(b, lo);
        let start = line_start(b, lo);
        lemma_blank_run(b, start);
        lemma_blank_text(b, start, blank_end(b, start));
        crate::text::lemma_text_join(b, 0, hi, n);
        let indent = indentation(source, lo);
        if denotes_block_mapping(source, parent) {
            let new = with_entry(source, parent, key, value)->Ok_0;
            assert(has_line(source, new, hi, indent, key, value));
        }
    }
}

} // verus!
