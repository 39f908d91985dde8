//! What the scanner computes: its state as a value, and how that value changes
//! from token to token.
use crate::error::{unexpected, ErrorKindView, ErrorView};
use crate::limits::ResourceLimits;
use crate::scanner::block::block_scalar;
use crate::scanner::chars::{
    blank, flow, line_break, AMP, BANG, COLON, COMMA, DASH, DOT, DQUOTE, GT, HASH, LBRACE, LBRACKET,
    PERCENT, PIPE, QUESTION, RBRACE, RBRACKET, SPACE, SQUOTE, STAR, TAB,
};
use crate::scanner::cursor::{
    blank_at, blank_or_flow_at, lemma_run, marker_at, Cur, Until, MAX_INPUT,
};
use crate::scanner::plain::plain_scalar;
use crate::scanner::props::{anchor_or_alias, directive, tag, Lexed};
use crate::scanner::quoted::{double_quoted, single_quoted, Quoted};
use crate::scanner::token::{TokenKindView, TokenView};
use crate::text::{decimal, quoted, text};
use crate::types::{point, Position, ScalarStyle, Span};
use vstd::prelude::*;

verus! {

/// A place where an implicit key may start.
pub struct KeyView {
    /// Whether a key is still possible there.
    pub possible: bool,
    /// The index that the first token of the key has in the token stream.
    pub index: int,
    pub pos: Position,
}

impl KeyView {
    /// The column of the key, from 0.
    pub open spec fn column(self) -> int {
        self.pos.column - 1
    }

    /// No longer a key.
    pub open spec fn dropped(self) -> KeyView {
        KeyView { possible: false, ..self }
    }
}

/// The state of a scanner.
#[verifier::ext_equal]
pub struct Scan {
    /// The bytes of the input.
    pub b: Seq<u8>,
    pub cur: Cur,
    /// The tokens that are scanned but not yet handed out.
    pub tokens: Seq<TokenView>,
    /// The number of tokens handed out.
    pub produced: int,
    /// The column of the innermost block collection, or -1.
    pub indent: int,
    /// The columns of the block collections around it.
    pub indents: Seq<int>,
    /// The open flow collections, outermost first: whether each is a sequence.
    pub flows: Seq<bool>,
    /// The possible keys: one for block context, one for each flow collection.
    pub keys: Seq<KeyView>,
    pub started: bool,
    pub ended: bool,
    /// Whether an implicit key may start here.
    pub allow: bool,
    /// Whether a `:` here directly follows a plain scalar of several lines.
    pub colon_adjacent: bool,
    /// Whether a block indicator directly precedes.
    pub after_indicator: bool,
    /// The line of the last `---`, or 0.
    pub doc_line: int,
    /// The line on which a tab followed a block indicator, or 0.
    pub tab_line: int,
    /// The least column for the properties of a block value, or -1.
    pub property_min: int,
    pub errored: bool,
    pub limits: ResourceLimits,
    pub keep_trivia: bool,
    pub trivia: Seq<TokenView>,
}

/// A failed scan: the error, and the trivia found before it.
pub struct Fail {
    pub error: ErrorView,
    pub trivia: Seq<TokenView>,
}

/// The outcome of one step.
pub type Step = core::result::Result<Scan, Fail>;

/// A text of spaces for indentation is missing.
pub open spec fn tab_error(s: Scan, found: Seq<char>) -> Step {
    Err(s.fail("spaces for indentation"@, found))
}

impl Scan {
    /// The state before anything is scanned.
    pub open spec fn fresh(b: Seq<u8>, limits: ResourceLimits, keep_trivia: bool) -> Scan {
        Scan {
            b,
            cur: Cur { offset: 0, line: 1, column: 0 },
            tokens: seq![],
            produced: 0,
            indent: -1,
            indents: seq![],
            flows: seq![],
            keys: seq![KeyView { possible: false, index: 0, pos: Position::origin() }],
            started: false,
            ended: false,
            allow: true,
            colon_adjacent: false,
            after_indicator: false,
            doc_line: 0,
            tab_line: 0,
            property_min: -1,
            errored: false,
            limits,
            keep_trivia,
            trivia: seq![],
        }
    }

    pub open spec fn pos(self) -> Position {
        self.cur.pos()
    }

    /// Whether the scanner is outside all flow collections.
    pub open spec fn in_block(self) -> bool {
        self.flows.len() == 0
    }

    pub open spec fn at_end(self) -> bool {
        self.cur.offset >= self.b.len()
    }

    /// The byte that stands here.
    pub open spec fn byte(self) -> u8 {
        self.b[self.cur.offset]
    }

    /// An unexpected-token failure at this place.
    pub open spec fn fail(self, expected: Seq<char>, found: Seq<char>) -> Fail {
        Fail { error: unexpected(expected, found, point(self.pos())), trivia: self.trivia }
    }

    pub open spec fn at(self, c: Cur) -> Scan {
        Scan { cur: c, ..self }
    }

    /// Moved past one byte.
    pub open spec fn step(self) -> Scan {
        self.at(self.cur.to(self.cur.offset + 1))
    }

    /// With one more token.
    pub open spec fn enqueue(self, kind: TokenKindView, span: Span) -> Scan {
        Scan { tokens: self.tokens.push(TokenView { kind, span }), ..self }
    }

    /// With a token inserted at an index of the token stream, if that part of the
    /// stream is still here.
    pub open spec fn insert_at(self, index: int, kind: TokenKindView, span: Span) -> Scan {
        let i = if index > self.produced {
            index - self.produced
        } else {
            0
        };
        if i <= self.tokens.len() {
            Scan { tokens: self.tokens.insert(i, TokenView { kind, span }), ..self }
        } else {
            self
        }
    }

    /// With the text since `start` recorded as trivia, if trivia is kept and the
    /// text is not empty.
    pub open spec fn push_trivia(self, start: Cur, kind: TokenKindView) -> Scan {
        if !self.keep_trivia || self.cur.offset == start.offset {
            self
        } else {
            Scan {
                trivia: self.trivia.push(
                    TokenView { kind, span: self.cur.span_from(start.pos()) },
                ),
                ..self
            }
        }
    }

    /// Without the innermost possible key.
    pub open spec fn remove_key(self) -> Scan {
        if self.keys.len() == 0 {
            self
        } else {
            Scan { keys: self.keys.update(self.keys.len() - 1, self.keys.last().dropped()), ..self }
        }
    }

    /// With a possible key here, if one is allowed.
    pub open spec fn save_key(self) -> Scan {
        if self.allow && self.keys.len() > 0 {
            Scan {
                keys: self.keys.update(
                    self.keys.len() - 1,
                    KeyView {
                        possible: true,
                        index: self.produced + self.tokens.len(),
                        pos: self.pos(),
                    },
                ),
                ..self
            }
        } else {
            self
        }
    }

    /// Keys of block context and of flow sequences end with their line.
    pub open spec fn stale_keys(self) -> Scan {
        Scan {
            keys: Seq::new(
                self.keys.len(),
                |i: int|
                    if (i == 0 || (i - 1 < self.flows.len() && self.flows[i - 1]))
                        && self.keys[i].possible && self.keys[i].pos.line != self.cur.line {
                        self.keys[i].dropped()
                    } else {
                        self.keys[i]
                    },
            ),
            ..self
        }
    }

    /// Whether the next token may still be preceded by a key.
    pub open spec fn pending(self) -> bool {
        exists|i: int|
            0 <= i < self.keys.len() && (#[trigger] self.keys[i]).possible && self.keys[i].index
                == self.produced
    }

    /// Opens a block collection at `column` if that is deeper than the current
    /// one; its start token goes to `index`, or to the end.
    pub open spec fn roll(self, column: int, kind: TokenKindView, index: Option<int>) -> Scan {
        if self.indent < column {
            let s = Scan { indents: self.indents.push(self.indent), indent: column, ..self };
            match index {
                Some(i) => s.insert_at(i, kind, point(self.pos())),
                None => s.enqueue(kind, point(self.pos())),
            }
        } else {
            self
        }
    }

    /// Closes the block collections deeper than `column`.
    pub open spec fn unroll(self, column: int) -> Scan
        decreases self.indents.len(),
    {
        if !self.in_block() || self.indent <= column || self.indents.len() == 0 {
            self
        } else {
            Scan {
                indent: self.indents.last(),
                indents: self.indents.drop_last(),
                ..self.enqueue(TokenKindView::BlockEnd, point(self.pos()))
            }.unroll(column)
        }
    }

    // ─── Between tokens ─────────────────────────────────────────────

    /// Skips spaces and tabs. The flag tells whether a tab stood in the
    /// indentation of a line of flow content.
    pub open spec fn skip_whitespace(self, line_start: bool, had_tab: bool) -> core::result::Result<
        (Scan, bool),
        Fail,
    >
        decreases self.b.len() - self.cur.offset,
    {
        if self.cur.sees(self.b, SPACE) {
            self.step().skip_whitespace(line_start, had_tab)
        } else if self.cur.sees(self.b, TAB) {
            let indentation = line_start && self.cur.column <= self.indent;
            if indentation && self.in_block() {
                Err(self.fail("spaces for indentation"@, "tab character"@))
            } else {
                Scan {
                    tab_line: if self.after_indicator && self.in_block() {
                        self.cur.line
                    } else {
                        self.tab_line
                    },
                    ..self.step()
                }.skip_whitespace(line_start, had_tab || indentation)
            }
        } else {
            Ok((self, had_tab))
        }
    }

    /// The whitespace from `start` to here as trivia.
    pub open spec fn keep_whitespace(self, start: Cur) -> Scan {
        self.push_trivia(
            start,
            TokenKindView::Whitespace(text(self.b, start.offset, self.cur.offset)),
        )
    }

    /// Whether content here is wrongly indented for flow context.
    pub open spec fn bad_flow_indent(self, line_start: bool) -> bool {
        line_start && !self.in_block() && !self.at_end() && self.byte() != RBRACKET && self.byte()
            != RBRACE && self.byte() != COMMA && !line_break(self.byte()) && self.cur.column
            <= self.indent
    }

    /// Skips a comment, if one starts here: `#` at the start of the input or
    /// behind a blank.
    pub open spec fn skip_comment(self) -> Scan {
        if self.cur.sees(self.b, HASH) && (self.cur.offset == 0 || blank(
            self.b[self.cur.offset - 1],
        )) {
            let s = self.at(self.cur.run(self.b, Until::Break));
            s.push_trivia(
                self.cur,
                TokenKindView::Comment(text(self.b, self.cur.offset, s.cur.offset)),
            )
        } else {
            self
        }
    }

    /// Skips the line break that stands here.
    pub open spec fn skip_break(self) -> Scan {
        let s = self.at(self.cur.newline(self.b));
        Scan {
            allow: if self.in_block() {
                true
            } else {
                self.allow
            },
            colon_adjacent: false,
            ..s.push_trivia(
                self.cur,
                TokenKindView::LineBreak(text(self.b, self.cur.offset, s.cur.offset)),
            )
        }
    }

    /// What stands on the rest of a line before the next token, up to the line
    /// break or the token.
    #[verifier::opaque]
    pub open spec fn skip_in_line(self, line_start: bool) -> Step {
        match self.skip_whitespace(line_start, false) {
            Err(f) => Err(f),
            Ok((s1, had_tab)) => {
                let s2 = s1.keep_whitespace(self.cur);
                if had_tab && !s2.at_end() && !line_break(s2.byte()) {
                    Err(s2.fail("spaces for indentation"@, "tab character"@))
                } else if s2.bad_flow_indent(line_start) {
                    Err(
                        s2.fail(
                            "proper indentation in flow content"@,
                            "column "@ + decimal(s2.cur.column as nat),
                        ),
                    )
                } else {
                    Ok(Scan { after_indicator: false, ..s2 }.skip_comment())
                }
            },
        }
    }

    /// Skips whitespace, comments and line breaks up to the next token.
    pub open spec fn skip_gap(self, line_start: bool) -> Step
        decreases self.b.len() - self.cur.offset,
    {
        match self.skip_in_line(line_start) {
            Err(f) => Err(f),
            Ok(s) => {
                proof {
                    lemma_skip_in_line(self, line_start);
                }
                if s.cur.sees_break(s.b) {
                    s.skip_break().skip_gap(true)
                } else {
                    Ok(s)
                }
            },
        }
    }

    // ─── Tokens ─────────────────────────────────────────────────────

    /// Whether the input starts with a UTF-8 byte order mark.
    pub open spec fn has_bom(self) -> bool {
        self.b.len() >= 3 && self.b[0] == 0xef && self.b[1] == 0xbb && self.b[2] == 0xbf
    }

    pub open spec fn stream_start(self) -> Scan {
        let s = Scan { started: true, ..self };
        let t = if self.has_bom() {
            let m = s.at(Cur { offset: self.cur.offset + 3, ..self.cur });
            m.push_trivia(
                self.cur,
                TokenKindView::Whitespace(text(self.b, self.cur.offset, m.cur.offset)),
            )
        } else {
            s
        };
        let u = t.at(Cur { column: 0, ..t.cur });
        u.enqueue(TokenKindView::StreamStart, point(u.pos()))
    }

    pub open spec fn stream_end(self) -> Scan {
        let s = self.unroll(-1).remove_key();
        Scan { allow: false, ended: true, ..s }.enqueue(TokenKindView::StreamEnd, point(s.pos()))
    }

    /// With the token from `start` to here.
    pub open spec fn token_from(self, start: Position, kind: TokenKindView) -> Scan {
        self.enqueue(kind, self.cur.span_from(start))
    }

    /// With a token of the one byte that stands here.
    pub open spec fn byte_token(self, kind: TokenKindView) -> Scan {
        self.step().token_from(self.pos(), kind)
    }

    pub open spec fn document_start(self) -> Step {
        let s = Scan { allow: false, ..self.unroll(-1).remove_key() };
        let t = s.at(s.cur.to(s.cur.offset + 3)).token_from(s.pos(), TokenKindView::DocumentStart);
        Ok(Scan { doc_line: s.cur.line, ..t })
    }

    /// `...`, which only whitespace and a comment may follow in its line.
    pub open spec fn document_end(self) -> Step {
        let s = Scan { allow: false, ..self.unroll(-1).remove_key() };
        let c1 = s.cur.to(s.cur.offset + 3).run(s.b, Until::NotWhitespace);
        let c2 = if c1.sees(s.b, HASH) {
            c1.run(s.b, Until::Break)
        } else {
            c1
        };
        if c2.offset < s.b.len() && !line_break(s.b[c2.offset]) {
            Err(
                Fail {
                    error: unexpected(
                        "end of line after document end marker"@,
                        quoted(s.b[c2.offset] as char),
                        c2.span_from(s.pos()),
                    ),
                    trivia: s.trivia,
                },
            )
        } else {
            Ok(s.at(c2).token_from(s.pos(), TokenKindView::DocumentEnd))
        }
    }

    pub open spec fn flow_start(self, is_sequence: bool) -> Step {
        let s = self.save_key();
        let t = Scan {
            flows: s.flows.push(is_sequence),
            allow: true,
            keys: s.keys.push(KeyView { possible: false, index: 0, pos: s.pos() }),
            ..s
        };
        Ok(
            t.byte_token(
                if is_sequence {
                    TokenKindView::FlowSequenceStart
                } else {
                    TokenKindView::FlowMappingStart
                },
            ),
        )
    }

    pub open spec fn flow_end(self, kind: TokenKindView) -> Step {
        let s = self.remove_key();
        let t = if s.flows.len() > 0 {
            Scan { flows: s.flows.drop_last(), keys: s.keys.drop_last(), ..s }
        } else {
            s
        };
        Ok(Scan { allow: false, ..t }.byte_token(kind))
    }

    pub open spec fn flow_entry(self) -> Step {
        Ok(Scan { allow: true, ..self.remove_key() }.byte_token(TokenKindView::FlowEntry))
    }

    pub open spec fn block_entry(self) -> Step {
        if self.in_block() && self.tab_line == self.cur.line {
            tab_error(self, "tab character before block entry"@)
        } else if self.in_block() && self.doc_line == self.cur.line && self.cur.column > 0 {
            Err(self.fail("block content at column 0"@, "block entry on document start line"@))
        } else if self.in_block() && !self.allow {
            Err(self.fail("block content"@, "block entry '-'"@))
        } else {
            let s = if self.in_block() {
                self.roll(self.cur.column, TokenKindView::BlockSequenceStart, None)
            } else {
                self
            };
            let t = Scan { allow: true, ..s.remove_key() }.byte_token(TokenKindView::BlockEntry);
            Ok(Scan { after_indicator: self.in_block(), ..t })
        }
    }

    pub open spec fn key_indicator(self) -> Step {
        if self.in_block() && self.tab_line == self.cur.line {
            tab_error(self, "tab character before key indicator"@)
        } else if self.in_block() && !self.allow {
            Err(self.fail("block content"@, "key '?'"@))
        } else {
            let s = if self.in_block() {
                self.roll(self.cur.column, TokenKindView::BlockMappingStart, None)
            } else {
                self
            };
            let t = Scan { allow: self.in_block(), ..s.remove_key() }.byte_token(TokenKindView::Key);
            Ok(Scan { after_indicator: self.in_block(), ..t })
        }
    }

    /// The `:` that stands here, with the flags that follow it.
    pub open spec fn value_token(self) -> Scan {
        let t = self.byte_token(TokenKindView::Value);
        Scan {
            after_indicator: self.in_block(),
            property_min: if self.in_block() {
                self.indent + 1
            } else {
                self.property_min
            },
            ..t
        }
    }

    /// A `:` behind an implicit key: the key token goes before the key.
    #[verifier::opaque]
    pub open spec fn value_of_key(self, key: KeyView) -> Scan {
        let s = self.insert_at(key.index, TokenKindView::Key, point(key.pos));
        let t = if self.in_block() {
            s.roll(key.column(), TokenKindView::BlockMappingStart, Some(key.index))
        } else {
            s
        };
        Scan { allow: false, ..t.remove_key() }.value_token()
    }

    pub open spec fn value_indicator(self) -> Step {
        if self.in_block() && self.tab_line == self.cur.line {
            tab_error(self, "tab character before value indicator"@)
        } else if self.keys.len() > 0 && self.keys.last().possible {
            Ok(self.value_of_key(self.keys.last()))
        } else if self.in_block() && (!self.allow || self.colon_adjacent) {
            Err(self.fail("block content"@, "value ':'"@))
        } else if self.in_block() && self.doc_line == self.cur.line && self.cur.column > 0 {
            Err(self.fail("block content at column 0"@, "mapping on document start line"@))
        } else {
            let s = if self.in_block() {
                self.roll(self.cur.column, TokenKindView::BlockMappingStart, None)
            } else {
                self
            };
            Ok(Scan { allow: self.in_block(), ..s.remove_key() }.value_token())
        }
    }

    /// With what was scanned from `start` on.
    pub open spec fn lexed(self, start: Position, l: Lexed) -> Step {
        match l {
            Err(error) => Err(Fail { error, trivia: self.trivia }),
            Ok((c, Some(kind))) => Ok(self.at(c).token_from(start, kind)),
            Ok((c, None)) => Ok(self.at(c)),
        }
    }

    /// With the scalar scanned from `start` on.
    pub open spec fn scalar(self, start: Position, q: Quoted, style: ScalarStyle) -> Step {
        match q {
            Err(error) => Err(Fail { error, trivia: self.trivia }),
            Ok((c, value)) => Ok(
                self.at(c).token_from(start, TokenKindView::Scalar { value, style }),
            ),
        }
    }

    /// Whatever starts here may be a key, and none may start behind it.
    pub open spec fn node_start(self) -> Scan {
        Scan { allow: false, ..self.save_key() }
    }

    pub open spec fn anchor(self, is_anchor: bool) -> Step {
        let s = self.node_start();
        s.lexed(s.pos(), anchor_or_alias(s.b, s.step().cur, is_anchor, s.pos()))
    }

    pub open spec fn tag(self) -> Step {
        let s = self.node_start();
        s.lexed(s.pos(), tag(s.b, s.step().cur, s.cur.offset, s.pos()))
    }

    pub open spec fn block_scalar(self, style: ScalarStyle) -> Step {
        let s = Scan { allow: true, ..self.remove_key() };
        s.scalar(s.pos(), block_scalar(s.b, s.step().cur, style, s.indent, s.pos()), style)
    }

    pub open spec fn single_quoted(self) -> Step {
        let s = self.node_start();
        s.scalar(
            s.pos(),
            single_quoted(s.b, s.step().cur, seq![], s.pos()),
            ScalarStyle::SingleQuoted,
        )
    }

    pub open spec fn double_quoted(self) -> Step {
        let s = self.node_start();
        let indent_from = if s.in_block() {
            Some(s.indent + 1)
        } else {
            None
        };
        s.scalar(
            s.pos(),
            double_quoted(s.b, s.step().cur, seq![], seq![], indent_from, s.pos()),
            ScalarStyle::DoubleQuoted,
        )
    }

    /// Whether the byte that stands here cannot start a plain scalar: one of
    /// `-`, `?`, `:` that nothing plain follows.
    pub open spec fn bad_plain_start(self) -> bool {
        let next = self.cur.offset + 1;
        !self.at_end() && (self.byte() == DASH || self.byte() == QUESTION || self.byte() == COLON)
            && (next >= self.b.len() || blank(self.b[next]) || (!self.in_block() && flow(
            self.b[next],
        )))
    }

    /// What stands here, in quotes.
    pub open spec fn found_here(self) -> Seq<char> {
        if self.at_end() {
            "'EOF'"@
        } else {
            quoted(self.byte() as char)
        }
    }

    pub open spec fn plain(self) -> Step {
        let s = self.node_start();
        if s.bad_plain_start() {
            Err(
                Fail {
                    error: unexpected(
                        "scalar value"@,
                        quoted(s.byte() as char),
                        point(s.pos()),
                    ),
                    trivia: s.trivia,
                },
            )
        } else {
            let p = plain_scalar(s.b, s.cur, !s.in_block(), s.indent);
            let t = s.at(p.cur);
            if p.content.len() == 0 {
                Err(
                    Fail {
                        error: unexpected(
                            "scalar value"@,
                            t.found_here(),
                            p.cur.span_from(s.pos()),
                        ),
                        trivia: s.trivia,
                    },
                )
            } else {
                Ok(
                    Scan {
                        allow: true,
                        colon_adjacent: p.last_line == p.cur.line && p.last_line != s.cur.line
                            && p.cur.sees(s.b, COLON) && blank_at(s.b, p.cur.offset + 1),
                        ..t.token_from(
                            s.pos(),
                            TokenKindView::Scalar { value: p.content, style: ScalarStyle::Plain },
                        )
                    },
                )
            }
        }
    }

    pub open spec fn directive(self) -> Step {
        let s = Scan { allow: false, ..self.unroll(-1).remove_key() };
        s.lexed(s.pos(), directive(s.b, s.step().cur, s.pos()))
    }

    /// Scans the token that starts here.
    #[verifier::opaque]
    pub open spec fn dispatch(self) -> Step {
        let x = self.byte();
        let next = self.cur.offset + 1;
        if self.cur.column == 0 && marker_at(self.b, self.cur.offset, DASH) {
            self.document_start()
        } else if self.cur.column == 0 && marker_at(self.b, self.cur.offset, DOT) {
            self.document_end()
        } else if x == LBRACKET {
            self.flow_start(true)
        } else if x == LBRACE {
            self.flow_start(false)
        } else if x == RBRACKET {
            self.flow_end(TokenKindView::FlowSequenceEnd)
        } else if x == RBRACE {
            self.flow_end(TokenKindView::FlowMappingEnd)
        } else if x == COMMA {
            self.flow_entry()
        } else if x == DASH && blank_at(self.b, next) && self.in_block() {
            self.block_entry()
        } else if x == QUESTION && (blank_at(self.b, next) || (!self.in_block() && blank_or_flow_at(
            self.b,
            next,
        ))) {
            self.key_indicator()
        } else if x == COLON && (blank_at(self.b, next) || (!self.in_block() && (blank_or_flow_at(
            self.b,
            next,
        ) || (self.keys.len() > 0 && self.keys.last().possible)))) {
            self.value_indicator()
        } else if x == STAR {
            self.anchor(false)
        } else if x == AMP {
            self.anchor(true)
        } else if x == BANG {
            self.tag()
        } else if x == PIPE && self.in_block() {
            self.block_scalar(ScalarStyle::Literal)
        } else if x == GT && self.in_block() {
            self.block_scalar(ScalarStyle::Folded)
        } else if x == SQUOTE {
            self.single_quoted()
        } else if x == DQUOTE {
            self.double_quoted()
        } else if x == PERCENT && self.cur.column == 0 {
            self.directive()
        } else {
            self.plain()
        }
    }

    /// Checks the indentation of the properties of a block value.
    pub open spec fn check_property(self) -> Step {
        let is_property = self.byte() == AMP || self.byte() == BANG;
        if self.property_min >= 0 && is_property && self.in_block() && self.cur.column
            < self.property_min {
            Err(
                self.fail(
                    "node property indented past column "@ + decimal((self.property_min - 1) as nat),
                    "column "@ + decimal(self.cur.column as nat),
                ),
            )
        } else if self.property_min >= 0 && !is_property {
            Ok(Scan { property_min: -1, ..self })
        } else {
            Ok(self)
        }
    }

    /// The document is longer than allowed.
    pub open spec fn too_long(self) -> bool {
        self.cur.offset > self.limits.max_document_size
    }

    /// Scans on from behind a gap. The flag tells whether there was anything left
    /// to scan.
    #[verifier::opaque]
    pub open spec fn fetch_here(self) -> core::result::Result<(Scan, bool), Fail> {
        if self.too_long() {
            Err(
                Fail {
                    error: ErrorView {
                        kind: ErrorKindView::DocumentSizeExceeded {
                            limit: self.limits.max_document_size,
                        },
                        span: Some(point(self.pos())),
                    },
                    trivia: self.trivia,
                },
            )
        } else {
            let s = self.stale_keys().unroll(self.cur.column);
            if s.at_end() {
                if s.ended {
                    Ok((s, false))
                } else {
                    Ok((s.stream_end(), true))
                }
            } else {
                match s.check_property() {
                    Err(f) => Err(f),
                    Ok(t) => match t.dispatch() {
                        Err(f) => Err(f),
                        Ok(u) => Ok((u, true)),
                    },
                }
            }
        }
    }

    /// Scans the next piece of input into the token queue. The flag tells whether
    /// there was anything left to scan.
    #[verifier::opaque]
    pub open spec fn fetch(self) -> core::result::Result<(Scan, bool), Fail> {
        if !self.started {
            Ok((self.stream_start(), true))
        } else {
            match self.skip_gap(false) {
                Err(f) => Err(f),
                Ok(s) => s.fetch_here(),
            }
        }
    }

    /// How much there is left to scan.
    pub open spec fn todo(self) -> int {
        self.b.len() - self.cur.offset + (if self.started {
            0int
        } else {
            1
        }) + (if self.ended {
            0int
        } else {
            1
        })
    }

    /// How much there is left to hand out, at most. Every byte gives at most five
    /// tokens, open collections and pieces of trivia.
    pub open spec fn weight(self) -> int {
        6 * (self.b.len() - self.cur.offset) + self.tokens.len() + self.indents.len()
            + self.trivia.len() + (if self.started {
            0int
        } else {
            3
        }) + (if self.ended {
            0int
        } else {
            2
        })
    }

    /// Scans until the first token of the queue can be handed out. Each piece
    /// scanned leaves less to scan.
    pub open spec fn front(self) -> Front
        decreases self.todo(),
    {
        if self.tokens.len() > 0 && !self.pending() {
            Front::Ready(self)
        } else if self.ended && self.tokens.len() == 0 {
            Front::Exhausted(self)
        } else {
            match self.fetch() {
                Err(f) => Front::Failed(f),
                Ok((s, true)) => if 0 <= s.todo() < self.todo() {
                    s.front()
                } else {
                    Front::Exhausted(s)
                },
                Ok((s, false)) => if s.tokens.len() > 0 {
                    Front::Ready(s)
                } else {
                    Front::Exhausted(s)
                },
            }
        }
    }

    /// Without its first token.
    pub open spec fn pop(self) -> Scan {
        Scan { tokens: self.tokens.drop_first(), produced: self.produced + 1, ..self }
    }

    /// The next token, leaving trivia aside.
    #[verifier::opaque]
    pub open spec fn next_token(self) -> Next {
        if self.errored {
            Next::End(self)
        } else {
            match self.front() {
                Front::Ready(s) => Next::Token(s.tokens[0], s.pop()),
                Front::Exhausted(s) => Next::End(s),
                Front::Failed(f) => Next::Failed(f),
            }
        }
    }

    /// Hands out the first piece of trivia.
    pub open spec fn pop_trivia(self) -> Next {
        Next::Token(self.trivia[0], Scan { trivia: self.trivia.drop_first(), ..self })
    }

    /// The next token or piece of trivia: of the two queues' first ones, the trivia
    /// unless it starts behind the token.
    #[verifier::opaque]
    pub open spec fn next_with_trivia(self) -> Next {
        if self.errored {
            if self.trivia.len() > 0 {
                self.pop_trivia()
            } else {
                Next::End(self)
            }
        } else {
            match self.front() {
                Front::Failed(f) => Next::Failed(f),
                Front::Ready(s) => if s.trivia.len() > 0 && s.trivia[0].span.start.offset
                    <= s.tokens[0].span.start.offset {
                    s.pop_trivia()
                } else {
                    Next::Token(s.tokens[0], s.pop())
                },
                Front::Exhausted(s) => if s.trivia.len() > 0 {
                    s.pop_trivia()
                } else {
                    Next::End(s)
                },
            }
        }
    }

    /// What a scanner hands out next.
    #[verifier::opaque]
    pub open spec fn next(self) -> Next {
        if self.keep_trivia {
            self.next_with_trivia()
        } else {
            self.next_token()
        }
    }

    // ─── Validity ───────────────────────────────────────────────────

    /// The columns of the open block collections increase from -1.
    pub open spec fn stack_ok(self) -> bool {
        &&& -1 <= self.indent <= MAX_INPUT
        &&& self.indents.len() == 0 ==> self.indent == -1
        &&& self.indents.len() > 0 ==> self.indents[0] == -1 && self.indents.last() < self.indent
        &&& forall|i: int, j: int|
            0 <= i < j < self.indents.len() ==> self.indents[i] < self.indents[j]
    }

    /// What holds of every state that has not failed.
    pub open spec fn ok(self) -> bool {
        &&& self.cur.ok(self.b)
        &&& self.keys.len() == self.flows.len() + 1
        &&& self.stack_ok()
        &&& 0 <= self.produced
        &&& self.produced + self.tokens.len() + self.indents.len() <= 4 * self.cur.offset + (
        if self.started {
            1int
        } else {
            0
        }) + (if self.ended {
            1int
        } else {
            0
        })
        &&& -1 <= self.property_min <= MAX_INPUT + 1
        &&& !self.started ==> self.cur.offset == 0
        &&& forall|i: int|
            0 <= i < self.keys.len() ==> 1 <= (#[trigger] self.keys[i]).pos.column <= MAX_INPUT
                + 1 && 0 <= self.keys[i].index
    }
}

/// Skipping whitespace only moves on, and only notes tabs.
pub proof fn lemma_skip_whitespace(s: Scan, line_start: bool, had_tab: bool)
    ensures
        s.skip_whitespace(line_start, had_tab) matches Ok((t, _)) ==> t == (Scan {
            cur: t.cur,
            tab_line: t.tab_line,
            ..s
        }) && t.cur.offset >= s.cur.offset && t.cur == s.cur.to(t.cur.offset) && (s.cur.offset
            <= s.b.len() ==> t.cur.offset <= s.b.len()),
        s.skip_whitespace(line_start, had_tab) matches Err(f) ==> f.trivia == s.trivia,
    decreases s.b.len() - s.cur.offset,
{
    if s.cur.sees(s.b, SPACE) {
        lemma_skip_whitespace(s.step(), line_start, had_tab);
    } else if s.cur.sees(s.b, TAB) {
        let indentation = line_start && s.cur.column <= s.indent;
        if !(indentation && s.in_block()) {
            let t = Scan {
                tab_line: if s.after_indicator && s.in_block() {
                    s.cur.line
                } else {
                    s.tab_line
                },
                ..s.step()
            };
            lemma_skip_whitespace(t, line_start, had_tab || indentation);
        }
    }
}

/// Skipping in a line only moves on and records trivia.
pub proof fn lemma_skip_in_line(s: Scan, line_start: bool)
    ensures
        s.skip_in_line(line_start) matches Ok(t) ==> t == (Scan {
            cur: t.cur,
            tab_line: t.tab_line,
            after_indicator: false,
            trivia: t.trivia,
            ..s
        }) && t.cur.offset >= s.cur.offset && (s.cur.offset <= s.b.len() ==> t.cur.offset
            <= s.b.len()) && t.trivia.len() - s.trivia.len() <= t.cur.offset - s.cur.offset,
{
    reveal(Scan::skip_in_line);
    lemma_skip_whitespace(s, line_start, false);
    if let Ok((s1, _)) = s.skip_whitespace(line_start, false) {
        lemma_run(s.b, s1.cur.offset, Until::Break);
    }
}

/// Moving on keeps a state in order.
pub proof fn lemma_moved_ok(s: Scan, t: Scan)
    requires
        s.ok(),
        s.started,
        t.cur.ok(t.b),
        t.cur.offset >= s.cur.offset,
        t == (Scan {
            cur: t.cur,
            tab_line: t.tab_line,
            after_indicator: t.after_indicator,
            allow: t.allow,
            colon_adjacent: t.colon_adjacent,
            trivia: t.trivia,
            ..s
        }),
    ensures
        t.ok(),
{
}

/// Closing block collections touches only them and the queue.
pub proof fn lemma_unroll(s: Scan, column: int)
    requires
        s.stack_ok(),
        column >= -1,
    ensures
        ({
            let t = s.unroll(column);
            &&& t == (Scan { tokens: t.tokens, indent: t.indent, indents: t.indents, ..s })
            &&& t.stack_ok()
            &&& t.tokens.len() + t.indents.len() == s.tokens.len() + s.indents.len()
            &&& t.indent <= s.indent
            &&& s.in_block() ==> t.indent <= column
        }),
    decreases s.indents.len(),
{
    if !(!s.in_block() || s.indent <= column || s.indents.len() == 0) {
        let t = Scan {
            indent: s.indents.last(),
            indents: s.indents.drop_last(),
            ..s.enqueue(TokenKindView::BlockEnd, point(s.pos()))
        };
        assert(t.stack_ok()) by {
            if t.indents.len() > 0 {
                assert(t.indents[0] == s.indents[0]);
                assert(t.indents.last() == s.indents[s.indents.len() - 2]);
            } else {
                assert(s.indents.last() == s.indents[0]);
            }
            assert forall|i: int, j: int| 0 <= i < j < t.indents.len() implies t.indents[i]
                < t.indents[j] by {
                assert(s.indents[i] < s.indents[j]);
            }
        }
        lemma_unroll(t, column);
    }
}

/// Opening a block collection touches only the open ones and the queue.
pub proof fn lemma_roll(s: Scan, column: int, kind: TokenKindView, index: Option<int>)
    requires
        s.stack_ok(),
        column <= MAX_INPUT,
    ensures
        ({
            let t = s.roll(column, kind, index);
            &&& t == (Scan { tokens: t.tokens, indent: t.indent, indents: t.indents, ..s })
            &&& t.stack_ok()
            &&& t.tokens.len() + t.indents.len() <= s.tokens.len() + s.indents.len() + 2
        }),
{
    if s.indent < column {
        let t = s.indents.push(s.indent);
        assert forall|i: int, j: int| 0 <= i < j < t.len() implies t[i] < t[j] by {
            if j == s.indents.len() {
                if i < s.indents.len() - 1 {
                    assert(s.indents[i] < s.indents[s.indents.len() - 1]);
                }
            }
        }
    }
}

/// A step adds at most four to the queue and the open collections, and no trivia.
pub open spec fn grown(s: Scan, step: Step) -> bool {
    step matches Ok(t) ==> {
        &&& t.tokens.len() + t.indents.len() <= s.tokens.len() + s.indents.len() + 4
        &&& t.trivia == s.trivia
        &&& t.b == s.b
        &&& t.started == s.started
        &&& t.ended == s.ended
        &&& t.produced == s.produced
    }
}

proof fn lemma_grown_document(s: Scan)
    ensures
        grown(s, s.document_start()),
        grown(s, s.document_end()),
        grown(s, s.directive()),
{
    crate::scanner::advance::lemma_unroll_frame(s, -1);
}

proof fn lemma_grown_flow(s: Scan, is_sequence: bool, kind: TokenKindView)
    ensures
        grown(s, s.flow_start(is_sequence)),
        grown(s, s.flow_end(kind)),
        grown(s, s.flow_entry()),
{
}

proof fn lemma_grown_entry(s: Scan)
    ensures
        grown(s, s.block_entry()),
        grown(s, s.key_indicator()),
{
}

proof fn lemma_grown_value(s: Scan)
    ensures
        grown(s, s.value_indicator()),
{
    reveal(Scan::value_of_key);
}

proof fn lemma_grown_node(s: Scan, is_anchor: bool, style: ScalarStyle)
    ensures
        grown(s, s.anchor(is_anchor)),
        grown(s, s.tag()),
        grown(s, s.block_scalar(style)),
        grown(s, s.single_quoted()),
        grown(s, s.double_quoted()),
        grown(s, s.plain()),
{
}

/// The token that starts here is a small step.
pub proof fn lemma_dispatch(s: Scan)
    ensures
        grown(s, s.dispatch()),
{
    reveal(Scan::dispatch);
    lemma_grown_document(s);
    lemma_grown_flow(s, true, TokenKindView::FlowSequenceEnd);
    lemma_grown_flow(s, false, TokenKindView::FlowMappingEnd);
    lemma_grown_entry(s);
    lemma_grown_value(s);
    lemma_grown_node(s, true, ScalarStyle::Literal);
    lemma_grown_node(s, false, ScalarStyle::Folded);
}

/// Whether a token can be handed out, and the state in which it can.
pub enum Front {
    Ready(Scan),
    Exhausted(Scan),
    Failed(Fail),
}

/// What is handed out, and the state after it.
pub enum Next {
    Token(TokenView, Scan),
    End(Scan),
    Failed(Fail),
}

} // verus!
