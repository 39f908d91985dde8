//! Push-based emitter sink: owns all YAML layout behind an imperative API.
use crate::emitter::scalar::{
    blanks, block_text, double_quoted_text, emit_block_scalar, emit_double_quoted,
    emit_single_quoted, single_quoted_text,
};
use crate::emitter::EmitterConfig;
use crate::types::{CollectionStyle, ScalarStyle};
use vstd::prelude::*;
use vstd::string::*;

verus! {

/// Deferred separator state for a frame. After `before_value` writes the
/// map's `':'`, the separator that follows the colon depends on the child's
/// shape, which is only known on the NEXT sink call: a scalar or empty
/// collection wants `' '`; a non-empty block collection wants `'\n'` plus an
/// indented child. We record `MapValue` and resolve it in the next call.
///
/// `SeqElem` is the analogous marker for block sequences: after `before_elem`
/// writes the `- ` marker, a non-empty block child becomes the inline first child
/// of the `- ` (its first entry/element shares the marker line).
#[derive(Clone, Copy, PartialEq, Eq, Structural)]
pub enum Pending {
    /// Nothing is deferred.
    Nothing,
    /// What follows the `:` of a block mapping is still open.
    MapValue,
    /// What follows the `- ` of a block sequence is still open.
    SeqElem,
}

/// An open collection. Its level is its index in the stack.
#[derive(Clone, Copy, PartialEq, Eq, Structural)]
pub struct Frame {
    /// Block or flow.
    pub style: CollectionStyle,
    /// Whether it has an entry.
    pub filled: bool,
    /// Whether its first entry shares the line of a `- `.
    pub suppress_first_indent: bool,
    /// What is still open about the current entry.
    pub pending: Pending,
    /// Whether the next scalar is a key.
    pub expect_key: bool,
    /// Whether it was opened with unknown length and has no entry yet.
    pub open_deferred: bool,
}

/// The state of an emitter.
#[verifier::ext_equal]
pub struct Sink {
    /// All the text written.
    pub text: Seq<char>,
    /// Whether the last character that this emitter wrote is a line feed.
    pub newline: bool,
    pub stack: Seq<Frame>,
    /// The tag of the next node.
    pub tag: Option<Seq<char>>,
    /// Spaces per level.
    pub indent: nat,
}

/// A tag as it is written: shorthand tags (starting with `!`) verbatim, anything
/// else in `!<...>`.
pub open spec fn tag_text(tag: Seq<char>) -> Seq<char> {
    if tag.len() > 0 && tag[0] == '!' {
        tag
    } else {
        seq!['!', '<'] + tag + seq!['>']
    }
}

/// A new frame.
pub open spec fn fresh_frame(style: CollectionStyle, suppress: bool, deferred: bool) -> Frame {
    Frame {
        style,
        filled: false,
        suppress_first_indent: suppress,
        pending: Pending::Nothing,
        expect_key: false,
        open_deferred: deferred,
    }
}

impl Sink {
    /// With more text written.
    pub open spec fn put(self, s: Seq<char>) -> Sink {
        Sink {
            text: self.text + s,
            newline: if s.len() > 0 { s.last() == '\n' } else { self.newline },
            ..self
        }
    }

    /// The text that indents a line at a level.
    pub open spec fn pad(self, level: nat) -> Seq<char> {
        blanks(level * self.indent)
    }

    /// The level of the innermost collection.
    pub open spec fn level(self) -> nat {
        if self.stack.len() == 0 {
            0
        } else {
            (self.stack.len() - 1) as nat
        }
    }

    pub open spec fn with_frame(self, i: int, f: Frame) -> Sink {
        Sink { stack: self.stack.update(i, f), ..self }
    }

    /// With the innermost collection changed.
    pub open spec fn with_top(self, f: Frame) -> Sink {
        self.with_frame(self.stack.len() - 1, f)
    }

    /// With the pending tag written before a scalar.
    pub open spec fn scalar_tag(self) -> Sink {
        match self.tag {
            Some(t) => Sink { tag: None, ..self }.put(tag_text(t) + seq![' ']),
            None => self,
        }
    }

    /// With the pending tag written before a collection at a level: on a line of
    /// its own, followed by the indentation unless the collection shares the line
    /// of a `- `.
    pub open spec fn collection_tag(self, level: nat, inline: bool) -> Sink {
        match self.tag {
            Some(t) => {
                let s = Sink { tag: None, ..self }.put(tag_text(t) + seq!['\n']);
                if inline {
                    s
                } else {
                    s.put(self.pad(level))
                }
            },
            None => self,
        }
    }

    /// The text of a scalar in a collection at a level.
    pub open spec fn scalar_text(self, value: Seq<char>, style: ScalarStyle, level: nat) -> Seq<char> {
        match style {
            ScalarStyle::Plain => value,
            ScalarStyle::SingleQuoted => single_quoted_text(value),
            ScalarStyle::DoubleQuoted => double_quoted_text(value),
            ScalarStyle::Literal => block_text(value, '|', self.pad(level + 1)),
            ScalarStyle::Folded => block_text(value, '>', self.pad(level + 1)),
        }
    }

    /// With the pending tag and the scalar written.
    pub open spec fn bare_scalar(self, value: Seq<char>, style: ScalarStyle) -> Sink {
        self.scalar_tag().put(self.scalar_text(value, style, self.level()))
    }

    /// With a scalar written where it stands: at the top level, as a key, as a
    /// value, as an element or in a flow collection.
    pub open spec fn scalar(self, value: Seq<char>, style: ScalarStyle) -> Sink {
        if self.stack.len() == 0 {
            let s = self.bare_scalar(value, style);
            if s.newline {
                s
            } else {
                s.put(seq!['\n'])
            }
        } else {
            let f = self.stack.last();
            if f.style is Flow {
                self.bare_scalar(value, style)
            } else if f.expect_key {
                self.with_top(Frame { expect_key: false, ..f }).bare_scalar(value, style)
            } else if f.pending is MapValue {
                self.with_top(Frame { pending: Pending::Nothing, ..f }).put(seq![' ']).bare_scalar(
                    value,
                    style,
                ).put(seq!['\n'])
            } else {
                self.bare_scalar(value, style).put(seq!['\n'])
            }
        }
    }

    /// Resolves what the frame at `parent` left open, now that it gets a
    /// collection. The flag tells whether the first entry of that collection
    /// shares the line of a `- `: it does if the collection is a non-empty block
    /// collection. Behind a `:` a flow collection or an empty one stays in the line.
    pub open spec fn attach(self, parent: int, style: CollectionStyle, empty: bool) -> (Sink, bool) {
        if parent < 0 {
            (self, false)
        } else {
            let f = self.stack[parent];
            let s = self.with_frame(parent, Frame { pending: Pending::Nothing, ..f });
            match f.pending {
                Pending::Nothing => (self, false),
                Pending::SeqElem => (s, style is Block && !empty),
                Pending::MapValue => (
                    s.put(
                        if style is Flow || empty {
                            seq![' ']
                        } else {
                            seq!['\n']
                        },
                    ),
                    false,
                ),
            }
        }
    }

    /// With a collection opened. `len` may be unknown; then everything about the
    /// surroundings is left open.
    pub open spec fn begin(self, style: CollectionStyle, len: Option<usize>, bracket: char) -> Sink {
        match len {
            None => Sink { stack: self.stack.push(fresh_frame(style, false, true)), ..self },
            Some(n) => {
                let (s, suppress) = self.attach(self.stack.len() - 1, style, n == 0);
                let t = s.collection_tag(s.stack.len(), suppress);
                let u = Sink { stack: t.stack.push(fresh_frame(style, suppress, false)), ..t };
                if style is Flow {
                    u.put(seq![bracket])
                } else {
                    u
                }
            },
        }
    }

    /// With what `begin` left open about a collection of unknown length resolved.
    pub open spec fn settle(self, empty: bool, bracket: char) -> Sink {
        let f = self.stack.last();
        if f.open_deferred {
            let (s, suppress) = self.attach(self.stack.len() - 2, f.style, empty);
            let t = s.collection_tag((s.stack.len() - 1) as nat, suppress);
            let u = t.with_top(
                Frame { open_deferred: false, suppress_first_indent: suppress, ..t.stack.last() },
            );
            if f.style is Flow {
                u.put(seq![bracket])
            } else {
                u
            }
        } else {
            self
        }
    }

    /// With the separator before an entry of a flow collection.
    pub open spec fn comma(self, first: bool) -> Sink {
        if first {
            self
        } else {
            self.put(seq![',', ' '])
        }
    }

    /// At the start of an element.
    pub open spec fn before_elem(self) -> Sink {
        let s = self.settle(false, '[');
        let f = s.stack.last();
        let t = s.with_top(Frame { filled: true, ..f });
        if f.style is Flow {
            t.comma(!f.filled)
        } else {
            let u = if f.suppress_first_indent {
                t.with_top(Frame { suppress_first_indent: false, ..t.stack.last() })
            } else {
                t.put(t.pad(t.level()))
            };
            let v = u.put(seq!['-', ' ']);
            v.with_top(Frame { pending: Pending::SeqElem, ..v.stack.last() })
        }
    }

    /// At the start of a key.
    pub open spec fn before_key(self) -> Sink {
        let s = self.settle(false, '{');
        let f = s.stack.last();
        let t = s.with_top(Frame { filled: true, expect_key: true, ..f });
        if f.style is Flow {
            t.comma(!f.filled)
        } else if f.suppress_first_indent {
            t.with_top(Frame { suppress_first_indent: false, ..t.stack.last() })
        } else {
            t.put(t.pad(t.level()))
        }
    }

    /// Behind the separator of a key and its value.
    pub open spec fn before_value(self) -> Sink {
        if self.stack.len() == 0 {
            self.put(seq![':'])
        } else {
            let f = self.stack.last();
            if f.style is Flow {
                self.with_top(Frame { expect_key: false, pending: Pending::Nothing, ..f }).put(
                    seq![':', ' '],
                )
            } else {
                self.with_top(Frame { expect_key: false, pending: Pending::MapValue, ..f }).put(
                    seq![':'],
                )
            }
        }
    }

    /// With the line ended, unless the surrounding collection is a flow
    /// collection.
    pub open spec fn finish_line(self) -> Sink {
        if self.stack.len() > 0 && self.stack.last().style is Flow {
            self
        } else {
            self.put(seq!['\n'])
        }
    }

    /// With the innermost collection closed. An empty block collection is written
    /// as a pair of brackets.
    pub open spec fn end(self, open: char, close: char) -> Sink {
        let s = self.settle(true, open);
        let f = s.stack.last();
        let t = Sink { stack: s.stack.drop_last(), ..s };
        if f.style is Flow {
            t.put(seq![close]).finish_line()
        } else if !f.filled {
            t.put(seq![open, close]).finish_line()
        } else {
            t
        }
    }
}

/// A collection opened without its length gets the same text as one opened with
/// it, once its first element is there, and once it is closed without one.
pub proof fn law_unknown_length_sequence(s: Sink, style: CollectionStyle, n: usize)
    requires
        n > 0,
    ensures
        s.begin(style, None, '[').before_elem() == s.begin(style, Some(n), '[').before_elem(),
        s.begin(style, None, '[').end('[', ']') == s.begin(style, Some(0), '[').end('[', ']'),
{
    lemma_settled(s, style, false, '[');
    lemma_settled(s, style, true, '[');
}

/// As for sequences, for mappings.
pub proof fn law_unknown_length_mapping(s: Sink, style: CollectionStyle, n: usize)
    requires
        n > 0,
    ensures
        s.begin(style, None, '{').before_key() == s.begin(style, Some(n), '{').before_key(),
        s.begin(style, None, '{').end('{', '}') == s.begin(style, Some(0), '{').end('{', '}'),
{
    lemma_settled(s, style, false, '{');
    lemma_settled(s, style, true, '{');
}

/// Settling a collection of unknown length gives what opening it with its length
/// gives.
proof fn lemma_settled(s: Sink, style: CollectionStyle, empty: bool, bracket: char)
    ensures
        s.begin(style, None, bracket).settle(empty, bracket) == s.begin(
            style,
            Some(
                if empty {
                    0
                } else {
                    1
                },
            ),
            bracket,
        ),
{
    let n: usize = if empty {
        0
    } else {
        1
    };
    let d = s.begin(style, None, bracket);
    let parent = s.stack.len() - 1;
    let (a, x) = s.attach(parent, style, empty);
    let (b, y) = d.attach(parent, style, empty);
    assert(x == y);
    assert(b =~= Sink { stack: a.stack.push(fresh_frame(style, false, true)), ..a });
    let ta = a.collection_tag(a.stack.len(), x);
    let tb = b.collection_tag((b.stack.len() - 1) as nat, x);
    assert(tb =~= Sink { stack: ta.stack.push(fresh_frame(style, false, true)), ..ta });
    assert(tb.stack.update(tb.stack.len() - 1, fresh_frame(style, x, false)) =~= ta.stack.push(
        fresh_frame(style, x, false),
    ));
    assert(d.settle(empty, bracket) =~= s.begin(style, Some(n), bracket));
}

/// Opening a collection depends on its length only through emptiness.
pub proof fn law_length_only_tells_emptiness(s: Sink, style: CollectionStyle, m: usize, n: usize, bracket: char)
    requires
        (m == 0) == (n == 0),
    ensures
        s.begin(style, Some(m), bracket) == s.begin(style, Some(n), bracket),
{
}

/// Push-based YAML emitter sink: owns all YAML layout (indentation,
/// block/flow rendering, the deferred-separator state machine, empty-collection
/// `[]`/`{}`, punctuation) behind an imperative API over an explicit `Frame`
/// stack — no recursion, no `Node`.
///
/// It **trusts the caller's `ScalarStyle`** — the sink never re-quotes.
pub struct Emitter<'c> {
    out: String,
    newline: bool,
    cfg: &'c EmitterConfig,
    stack: Vec<Frame>,
    /// A node property (tag) recorded by `tag()` and consumed by the next
    /// `scalar`/`begin_seq`/`begin_map`.
    pending_tag: Option<String>,
}

impl<'c> View for Emitter<'c> {
    type V = Sink;

    closed spec fn view(&self) -> Sink {
        Sink {
            text: self.out@,
            newline: self.newline,
            stack: self.stack@,
            tag: match self.pending_tag {
                Some(t) => Some(t@),
                None => None,
            },
            indent: self.cfg.indent as nat,
        }
    }
}

impl<'c> Emitter<'c> {
    /// Creates a new push emitter that appends to `writer` with the given config.
    pub fn new(writer: String, cfg: &'c EmitterConfig) -> (r: Self)
        ensures
            r@ == (Sink {
                text: writer@,
                newline: false,
                stack: seq![],
                tag: None,
                indent: cfg.indent as nat,
            }),
    {
        let r = Emitter { out: writer, newline: false, cfg, stack: Vec::new(), pending_tag: None };
        assert(r@.stack =~= Seq::<Frame>::empty());
        r
    }

    /// Writes one character.
    fn put_char(&mut self, c: char)
        ensures
            final(self)@ == old(self)@.put(seq![c]),
            final(self).stack == old(self).stack,
    {
        self.out.push(c);
        self.newline = c == '\n';
        assert(self@ =~= old(self)@.put(seq![c]));
    }

    /// Writes a text.
    fn put_str(&mut self, s: &str)
        ensures
            final(self)@ == old(self)@.put(s@),
            final(self).stack == old(self).stack,
    {
        assert(old(self)@.put(s@.take(0)) =~= old(self)@);
        for c in it: s.chars()
            invariant
                it.seq() == s@,
                self@ == old(self)@.put(s@.take(it.index())),
                self.stack == old(self).stack,
        {
            let ghost i = it.index();
            assert(s@.take(i + 1).last() == c);
            self.put_char(c);
            assert(self@ =~= old(self)@.put(s@.take(i + 1)));
        }
        assert(s@.take(s@.len() as int) =~= s@);
    }

    /// Writes some characters.
    fn put_chars(&mut self, v: &Vec<char>)
        ensures
            final(self)@ == old(self)@.put(v@),
            final(self).stack == old(self).stack,
    {
        assert(old(self)@.put(v@.take(0)) =~= old(self)@);
        let mut i: usize = 0;
        while i < v.len()
            invariant
                i <= v@.len(),
                self@ == old(self)@.put(v@.take(i as int)),
                self.stack == old(self).stack,
            decreases v@.len() - i,
        {
            assert(v@.take(i + 1).last() == v@[i as int]);
            self.put_char(v[i]);
            i += 1;
            assert(self@ =~= old(self)@.put(v@.take(i as int)));
        }
        assert(v@.take(v@.len() as int) =~= v@);
    }

    /// The text that indents a line at a level.
    fn pad(&self, level: usize) -> (r: Vec<char>)
        ensures
            r@ == self@.pad(level as nat),
    {
        let n: usize = self.cfg.indent as usize;
        let mut v: Vec<char> = Vec::new();
        let mut i: usize = 0;
        assert(v@ =~= blanks(0 * n as nat));
        while i < level
            invariant
                i <= level,
                n == self.cfg.indent,
                v@ == blanks((i * n) as nat),
            decreases level - i,
        {
            let ghost before = v@;
            let mut j: usize = 0;
            while j < n
                invariant
                    j <= n,
                    v@ == before + blanks(j as nat),
                decreases n - j,
            {
                v.push(' ');
                j += 1;
                assert(v@ =~= before + blanks(j as nat));
            }
            assert((i + 1) * n == i * n + n) by (nonlinear_arith);
            assert(v@ =~= blanks(((i + 1) * n) as nat));
            i += 1;
        }
        v
    }

    /// Writes the indentation of a line at a level.
    fn write_indent(&mut self, level: usize)
        ensures
            final(self)@ == old(self)@.put(old(self)@.pad(level as nat)),
            final(self).stack == old(self).stack,
    {
        let v = self.pad(level);
        self.put_chars(&v);
    }

    /// Replaces a frame.
    fn set_frame(&mut self, i: usize, f: Frame)
        requires
            i < old(self)@.stack.len(),
        ensures
            final(self)@ == old(self)@.with_frame(i as int, f),
    {
        self.stack.set(i, f);
        assert(self@ =~= old(self)@.with_frame(i as int, f));
    }

    /// Record a node tag to be emitted before the next node value. The raw tag
    /// text (e.g. `!!str` or a full URI) is stored.
    pub fn tag(&mut self, value: &str)
        ensures
            final(self)@ == (Sink { tag: Some(value@), ..old(self)@ }),
    {
        self.pending_tag = Some(value.to_owned());
        assert(self@ =~= Sink { tag: Some(value@), ..old(self)@ });
    }

    /// Removes the pending tag and gives it as it is written.
    fn take_tag(&mut self) -> (r: Option<String>)
        ensures
            final(self)@ == (Sink { tag: None, ..old(self)@ }),
            final(self).stack == old(self).stack,
            match old(self)@.tag {
                Some(t) => r matches Some(s) && s@ == tag_text(t),
                None => r is None,
            },
    {
        let t = self.pending_tag.take();
        assert(self@ =~= Sink { tag: None, ..old(self)@ });
        match t {
            None => None,
            Some(t) => {
                let n: usize = t.as_str().unicode_len();
                if n > 0 && t.as_str().get_char(0) == '!' {
                    Some(t)
                } else {
                    let mut s = String::new();
                    s.push('!');
                    s.push('<');
                    s.append(t.as_str());
                    s.push('>');
                    assert(s@ =~= tag_text(t@));
                    Some(s)
                }
            },
        }
    }

    /// Write the pending scalar tag (`tag ' '`) if any.
    fn write_pending_scalar_tag(&mut self)
        ensures
            final(self)@ == old(self)@.scalar_tag(),
            final(self).stack == old(self).stack,
    {
        if let Some(tag) = self.take_tag() {
            let ghost s = self@;
            self.put_str(tag.as_str());
            self.put_char(' ');
            assert(self@ =~= s.put(tag@ + seq![' ']));
        }
    }

    /// Write the pending collection tag (`tag '\n'` then the node's own indent
    /// when not the inline first child of a `- `).
    fn write_pending_collection_tag(&mut self, level: usize, inline: bool)
        ensures
            final(self)@ == old(self)@.collection_tag(level as nat, inline),
            final(self).stack == old(self).stack,
    {
        if let Some(tag) = self.take_tag() {
            let ghost s = self@;
            self.put_str(tag.as_str());
            self.put_char('\n');
            assert(self@ =~= s.put(tag@ + seq!['\n']));
            if !inline {
                self.write_indent(level);
            }
        }
    }

    /// Writes the text of a scalar.
    fn emit_scalar_text(&mut self, value: &str, style: ScalarStyle)
        ensures
            final(self)@ == old(self)@.put(
                old(self)@.scalar_text(value@, style, old(self)@.level()),
            ),
            final(self).stack == old(self).stack,
    {
        match style {
            ScalarStyle::Plain => {
                self.put_str(value);
            },
            ScalarStyle::SingleQuoted => {
                let v = emit_single_quoted(value);
                self.put_chars(&v);
            },
            ScalarStyle::DoubleQuoted => {
                let v = emit_double_quoted(value);
                self.put_chars(&v);
            },
            ScalarStyle::Literal => {
                let pad = self.block_pad();
                let v = emit_block_scalar(value, '|', &pad);
                self.put_chars(&v);
            },
            ScalarStyle::Folded => {
                let pad = self.block_pad();
                let v = emit_block_scalar(value, '>', &pad);
                self.put_chars(&v);
            },
        }
    }

    /// The text that indents the lines of a block scalar.
    fn block_pad(&self) -> (r: Vec<char>)
        ensures
            r@ == self@.pad(self@.level() + 1),
    {
        if self.stack.len() == 0 {
            self.pad(1)
        } else {
            self.pad(self.stack.len())
        }
    }

    /// Writes the pending tag and a scalar.
    fn bare_scalar(&mut self, value: &str, style: ScalarStyle)
        ensures
            final(self)@ == old(self)@.bare_scalar(value@, style),
            final(self).stack == old(self).stack,
    {
        self.write_pending_scalar_tag();
        self.emit_scalar_text(value, style);
    }

    /// Emit a scalar node in the current context (top level, map key, map
    /// value, sequence element, or flow item). Trusts the caller's `style`.
    pub fn scalar(&mut self, value: &str, style: ScalarStyle)
        ensures
            final(self)@ == old(self)@.scalar(value@, style),
    {
        let n: usize = self.stack.len();
        if n == 0 {
            self.bare_scalar(value, style);
            // Block scalars emit their own terminating newline.
            if !self.newline {
                self.put_char('\n');
            }
            return;
        }
        let f = self.stack[n - 1];
        if f.style == CollectionStyle::Flow {
            // The `", "`/`": "` punctuation is written by `before_elem`/
            // `before_key`/`before_value`.
            self.bare_scalar(value, style);
        } else if f.expect_key {
            self.set_frame(n - 1, Frame { expect_key: false, ..f });
            self.bare_scalar(value, style);
        } else if f.pending == Pending::MapValue {
            self.set_frame(n - 1, Frame { pending: Pending::Nothing, ..f });
            self.put_char(' ');
            self.bare_scalar(value, style);
            self.put_char('\n');
        } else {
            self.bare_scalar(value, style);
            self.put_char('\n');
        }
    }

    /// Resolves what the frame with index `parent - 1` left open, now that it
    /// gets a collection; tells whether the first entry of that collection shares
    /// the line of a `- `.
    fn attach(&mut self, parent: usize, style: CollectionStyle, empty: bool) -> (r: bool)
        requires
            parent <= old(self)@.stack.len(),
        ensures
            (final(self)@, r) == old(self)@.attach(parent - 1, style, empty),
            final(self)@.stack.len() == old(self)@.stack.len(),
    {
        if parent == 0 {
            return false;
        }
        let f = self.stack[parent - 1];
        match f.pending {
            Pending::Nothing => false,
            Pending::SeqElem => {
                self.set_frame(parent - 1, Frame { pending: Pending::Nothing, ..f });
                style == CollectionStyle::Block && !empty
            },
            Pending::MapValue => {
                self.set_frame(parent - 1, Frame { pending: Pending::Nothing, ..f });
                if style == CollectionStyle::Flow || empty {
                    self.put_char(' ');
                } else {
                    self.put_char('\n');
                }
                false
            },
        }
    }

    /// Opens a collection.
    fn begin(&mut self, style: CollectionStyle, len: Option<usize>, bracket: char)
        ensures
            final(self)@ == old(self)@.begin(style, len, bracket),
    {
        match len {
            None => {
                self.push_frame(style, false, true);
            },
            Some(n) => {
                let depth: usize = self.stack.len();
                let suppress = self.attach(depth, style, n == 0);
                self.write_pending_collection_tag(depth, suppress);
                self.push_frame(style, suppress, false);
                if style == CollectionStyle::Flow {
                    self.put_char(bracket);
                }
            },
        }
    }

    /// Pushes a new frame.
    fn push_frame(&mut self, style: CollectionStyle, suppress: bool, deferred: bool)
        ensures
            final(self)@ == (Sink {
                stack: old(self)@.stack.push(fresh_frame(style, suppress, deferred)),
                ..old(self)@
            }),
    {
        self.stack.push(
            Frame {
                style,
                filled: false,
                suppress_first_indent: suppress,
                pending: Pending::Nothing,
                expect_key: false,
                open_deferred: deferred,
            },
        );
        assert(self@ =~= Sink {
            stack: old(self)@.stack.push(fresh_frame(style, suppress, deferred)),
            ..old(self)@
        });
    }

    /// Resolves what `begin` left open about a collection of unknown length, now
    /// that it is known whether it is empty.
    fn settle(&mut self, empty: bool, bracket: char)
        requires
            old(self)@.stack.len() > 0,
        ensures
            final(self)@ == old(self)@.settle(empty, bracket),
            final(self)@.stack.len() == old(self)@.stack.len(),
    {
        let n: usize = self.stack.len();
        let f = self.stack[n - 1];
        if f.open_deferred {
            let suppress = self.attach(n - 1, f.style, empty);
            self.write_pending_collection_tag(n - 1, suppress);
            let g = self.stack[n - 1];
            self.set_frame(
                n - 1,
                Frame { open_deferred: false, suppress_first_indent: suppress, ..g },
            );
            if f.style == CollectionStyle::Flow {
                self.put_char(bracket);
            }
        }
    }

    /// Open a sequence in the given style. `len` may be `None` (unknown length,
    /// e.g. from a streaming serializer), in which case parent-layout
    /// resolution is deferred until the first element or `end_seq`.
    pub fn begin_seq(&mut self, style: CollectionStyle, len: Option<usize>)
        ensures
            final(self)@ == old(self)@.begin(style, len, '['),
    {
        self.begin(style, len, '[');
    }

    /// Begin a sequence element. Block: indent at the sequence's own level +
    /// "- ". Flow: a `", "` separator before every item after the first.
    pub fn before_elem(&mut self)
        requires
            old(self)@.stack.len() > 0,
        ensures
            final(self)@ == old(self)@.before_elem(),
    {
        self.settle(false, '[');
        let n: usize = self.stack.len();
        let f = self.stack[n - 1];
        self.set_frame(n - 1, Frame { filled: true, ..f });
        if f.style == CollectionStyle::Flow {
            if f.filled {
                self.put_comma();
            }
            return;
        }
        if f.suppress_first_indent {
            let g = self.stack[n - 1];
            self.set_frame(n - 1, Frame { suppress_first_indent: false, ..g });
        } else {
            self.write_indent(n - 1);
        }
        let ghost u = self@;
        self.put_char('-');
        self.put_char(' ');
        assert(self@ =~= u.put(seq!['-', ' ']));
        let g = self.stack[n - 1];
        self.set_frame(n - 1, Frame { pending: Pending::SeqElem, ..g });
    }

    /// Writes the separator between the entries of a flow collection.
    fn put_comma(&mut self)
        ensures
            final(self)@ == old(self)@.put(seq![',', ' ']),
            final(self).stack == old(self).stack,
    {
        self.put_char(',');
        self.put_char(' ');
        assert(self@ =~= old(self)@.put(seq![',', ' ']));
    }

    /// Closes the innermost collection.
    fn end(&mut self, open: char, close: char)
        requires
            old(self)@.stack.len() > 0,
        ensures
            final(self)@ == old(self)@.end(open, close),
    {
        self.settle(true, open);
        let ghost s = self@;
        let n: usize = self.stack.len();
        let f = self.stack[n - 1];
        let _ = self.stack.pop();
        assert(self@ =~= Sink { stack: s.stack.drop_last(), ..s });
        let ghost t = self@;
        if f.style == CollectionStyle::Flow {
            self.put_char(close);
            self.finish_line();
        } else if !f.filled {
            self.put_char(open);
            self.put_char(close);
            assert(self@ =~= t.put(seq![open, close]));
            self.finish_line();
        }
    }

    /// Close the current sequence. An empty block sequence renders as `[]`.
    pub fn end_seq(&mut self)
        requires
            old(self)@.stack.len() > 0,
        ensures
            final(self)@ == old(self)@.end('[', ']'),
    {
        self.end('[', ']');
    }

    /// Open a mapping in the given style. `len` may be `None` (unknown length),
    /// in which case parent-layout resolution is deferred until the first entry
    /// or `end_map`.
    pub fn begin_map(&mut self, style: CollectionStyle, len: Option<usize>)
        ensures
            final(self)@ == old(self)@.begin(style, len, '{'),
    {
        self.begin(style, len, '{');
    }

    /// Begin a mapping entry: lay out indentation (block) or a separator (flow),
    /// then the caller emits the key via [`scalar`](Self::scalar) or a nested
    /// collection.
    pub fn before_key(&mut self)
        requires
            old(self)@.stack.len() > 0,
        ensures
            final(self)@ == old(self)@.before_key(),
    {
        self.settle(false, '{');
        let n: usize = self.stack.len();
        let f = self.stack[n - 1];
        self.set_frame(n - 1, Frame { filled: true, expect_key: true, ..f });
        if f.style == CollectionStyle::Flow {
            if f.filled {
                self.put_comma();
            }
        } else if f.suppress_first_indent {
            let g = self.stack[n - 1];
            self.set_frame(n - 1, Frame { suppress_first_indent: false, ..g });
        } else {
            self.write_indent(n - 1);
        }
    }

    /// Write the mapping `:` separator and arm the deferred value separator;
    /// the caller then emits the value via [`scalar`](Self::scalar) or a nested
    /// collection.
    pub fn before_value(&mut self)
        ensures
            final(self)@ == old(self)@.before_value(),
    {
        let n: usize = self.stack.len();
        if n == 0 {
            self.put_char(':');
            return;
        }
        let f = self.stack[n - 1];
        if f.style == CollectionStyle::Flow {
            self.set_frame(n - 1, Frame { expect_key: false, pending: Pending::Nothing, ..f });
            let ghost s = self@;
            self.put_char(':');
            self.put_char(' ');
            assert(self@ =~= s.put(seq![':', ' ']));
        } else {
            self.set_frame(n - 1, Frame { expect_key: false, pending: Pending::MapValue, ..f });
            self.put_char(':');
        }
    }

    /// Close the current mapping. An empty block mapping renders as `{}`.
    pub fn end_map(&mut self)
        requires
            old(self)@.stack.len() > 0,
        ensures
            final(self)@ == old(self)@.end('{', '}'),
    {
        self.end('{', '}');
    }

    /// Ends the line of a just-closed collection, unless the surrounding
    /// collection is a flow collection.
    fn finish_line(&mut self)
        ensures
            final(self)@ == old(self)@.finish_line(),
    {
        let n: usize = self.stack.len();
        if n > 0 && self.stack[n - 1].style == CollectionStyle::Flow {
            return;
        }
        self.put_char('\n');
    }

    /// Finish emitting, consuming the sink; gives the text written.
    pub fn finish(self) -> (r: String)
        ensures
            r@ == self@.text,
    {
        self.out
    }
}

} // verus!
