//! The forms in which single nodes are written: tags, scalars and document markers.
use crate::cst::green::lemma_encode_concat;
use crate::emitter::scalar::{
    block_text, double_quoted_text, padded_lines, single_quoted_text,
};
use crate::emitter::sink::{tag_text, Sink};
use crate::emitter::{document_text, EmitterConfig};
use crate::node::{NodeView, TagValue};
use crate::scanner::cursor::Cur;
use crate::scanner::marks::{lacks, name};
use crate::scanner::props::tag;
use crate::scanner::token::TokenKindView;
use crate::types::{Position, ScalarStyle, Span};
use vstd::prelude::*;
use vstd::utf8::{decode_utf8, encode_utf8};

verus! {

/// A document of one scalar is the scalar in its style and a line feed, behind its tag and
/// a space where it has one: a tag that starts with `!` as it is, another between `!<` and
/// `>`. With explicit markers it stands between a line `---` and a line `...`.
pub proof fn law_scalar_document(
    value: Seq<char>,
    style: ScalarStyle,
    tag: Option<TagValue>,
    span: Span,
    config: EmitterConfig,
    base: Seq<char>,
)
    requires
        style is Plain || style is SingleQuoted || style is DoubleQuoted,
        style is Plain ==> value.len() > 0 && value.last() != '\n',
    ensures
        ({
            let n = NodeView::Scalar { value, tag, style, span };
            let mark = match tag {
                None => seq![],
                Some(t) => (if t.value.len() > 0 && t.value[0] == '!' {
                    t.value
                } else {
                    seq!['!', '<'] + t.value + seq!['>']
                }) + seq![' '],
            };
            let body = match style {
                ScalarStyle::Plain => value,
                ScalarStyle::SingleQuoted => single_quoted_text(value),
                _ => double_quoted_text(value),
            };
            document_text(n, config, base) == if config.explicit_document {
                base + seq!['-', '-', '-', '\n'] + mark + body + seq!['\n'] + seq![
                    '.',
                    '.',
                    '.',
                    '\n',
                ]
            } else {
                base + mark + body + seq!['\n']
            }
        }),
{
    reveal_strlit("---\n");
    reveal_strlit("...\n");
    assert("---\n"@ =~= seq!['-', '-', '-', '\n']);
    assert("...\n"@ =~= seq!['.', '.', '.', '\n']);
    let n = NodeView::Scalar { value, tag, style, span };
    let mark = match tag {
        None => seq![],
        Some(t) => (if t.value.len() > 0 && t.value[0] == '!' {
            t.value
        } else {
            seq!['!', '<'] + t.value + seq!['>']
        }) + seq![' '],
    };
    let body = match style {
        ScalarStyle::Plain => value,
        ScalarStyle::SingleQuoted => single_quoted_text(value),
        _ => double_quoted_text(value),
    };
    assert(body.len() > 0 && body.last() != '\n');
    let head = if config.explicit_document {
        base + "---\n"@
    } else {
        base
    };
    assert(head + mark + body + seq!['\n'] =~= (head + mark) + body + seq!['\n']);
    if tag is None {
        assert(head + mark =~= head);
    }
}

/// A block scalar starts with its indicator and the sign for its last line breaks: `-`
/// where the text ends with none, nothing where it ends with one, `+` where it ends with
/// more. A text of a single line is written in double quotes instead.
pub proof fn law_block_scalar_header(v: Seq<char>, indicator: char, pad: Seq<char>)
    ensures
        ({
            let t = block_text(v, indicator, pad);
            if !v.contains('\n') {
                t[0] == '"' && t.last() == '"' && t.len() >= 2
            } else {
                &&& t.len() > 2
                &&& t[0] == indicator
                &&& t.last() == '\n'
                &&& if v.last() != '\n' {
                    t[1] == '-' && t[2] == '\n'
                } else if v.len() >= 2 && v[v.len() - 2] == '\n' {
                    t[1] == '+' && t[2] == '\n'
                } else {
                    t[1] == '\n'
                }
            }
        }),
{
    if v.contains('\n') {
        assert(v.len() > 0);
    }
}

proof fn lemma_last_line(head: Seq<char>, w: Seq<char>, pad: Seq<char>)
    requires
        head.len() == 0 || head.last() == '\n',
        w.len() > 0,
        !w.contains('\n'),
    ensures
        padded_lines(head + w, pad) == padded_lines(head, pad) + pad + w,
    decreases w.len(),
{
    let v = head + w;
    assert(w.contains(w.last()));
    assert(v.last() == w.last());
    if w.len() == 1 {
        assert(v.drop_last() =~= head);
        if head.len() > 0 {
            assert(v[v.len() - 2] == head.last());
        }
        assert(padded_lines(v, pad) =~= padded_lines(head, pad) + pad + w);
    } else {
        let u = w.drop_last();
        assert(v.drop_last() =~= head + u);
        assert(v[v.len() - 2] == u.last());
        assert(w.contains(w[w.len() - 2]));
        assert forall|c: char| u.contains(c) implies w.contains(c) by {
            let i = choose|i: int| 0 <= i < u.len() && u[i] == c;
            assert(w[i] == c);
        }
        lemma_last_line(head, u, pad);
        assert(padded_lines(v, pad) =~= padded_lines(head, pad) + pad + w);
    }
}

/// The lines of a block scalar follow its first line. Each line with text in it stands
/// behind as many spaces as one level more than the collection around it has; an empty
/// line stays empty.
pub proof fn law_block_scalar_lines(
    s: Sink,
    level: nat,
    style: ScalarStyle,
    head: Seq<char>,
    line: Seq<char>,
)
    requires
        style is Literal || style is Folded,
        head.len() > 0,
        head.last() == '\n',
        line.len() > 0,
        !line.contains('\n'),
    ensures
        ({
            let pad = Seq::new((level + 1) * s.indent, |i: int| ' ');
            let v = head + line;
            let t = s.scalar_text(v, style, level);
            &&& t == seq![
                if style is Literal {
                    '|'
                } else {
                    '>'
                },
                '-',
                '\n',
            ] + padded_lines(v, pad) + seq!['\n']
            &&& padded_lines(v, pad) == padded_lines(head, pad) + pad + line
            &&& padded_lines(head, pad) == padded_lines(head.drop_last(), pad) + seq!['\n']
            &&& padded_lines(line, pad) == pad + line
            &&& padded_lines(seq![], pad).len() == 0
        }),
{
    let pad = Seq::new((level + 1) * s.indent, |i: int| ' ');
    assert(s.pad(level + 1) =~= pad);
    let v = head + line;
    assert(v[head.len() - 1] == '\n');
    assert(v.contains('\n'));
    assert(line.contains(line.last()));
    assert(v.last() == line.last());
    lemma_last_line(head, line, pad);
    lemma_last_line(seq![], line, pad);
    assert(Seq::<char>::empty() + line =~= line);
    assert(padded_lines(seq![], pad) + pad + line =~= pad + line);
    assert(s.scalar_text(v, style, level) =~= seq![
        if style is Literal {
            '|'
        } else {
            '>'
        },
        '-',
        '\n',
    ] + padded_lines(v, pad) + seq!['\n']);
}

proof fn lemma_ascii_text(s: Seq<char>, b: Seq<u8>)
    requires
        s.len() == b.len(),
        forall|i: int| 0 <= i < s.len() ==> '\0' <= #[trigger] s[i] <= '\u{7f}' && s[i] as u8 == b[i],
    ensures
        encode_utf8(s) == b,
{
    assert(vstd::utf8::is_ascii_chars(s));
    vstd::utf8::is_ascii_chars_encode_utf8(s);
    assert(encode_utf8(s) =~= b);
}

/// A tag that is written is read back: the scanner gives it without a handle where it was
/// written between `!<` and `>`.
pub proof fn law_written_tag_is_read(
    value: Seq<char>,
    pre: Seq<u8>,
    rest: Seq<u8>,
    c: Cur,
    start: Position,
)
    requires
        value.len() > 0,
        value[0] != '!',
        name(encode_utf8(value)),
        lacks(encode_utf8(value), 0x3e),
        c.offset == pre.len() + 1,
    ensures
        ({
            let b = pre + encode_utf8(tag_text(value)) + seq![0x20] + rest;
            tag(b, c, c.offset - 1, start) matches Ok((d, Some(TokenKindView::Tag {
                handle,
                suffix,
            }))) && handle.len() == 0 && suffix == value && d.offset == pre.len() + encode_utf8(
                tag_text(value),
            ).len()
        }),
{
    let id = encode_utf8(value);
    lemma_ascii_text(seq!['!', '<'], seq![0x21u8, 0x3cu8]);
    lemma_ascii_text(seq!['>'], seq![0x3eu8]);
    lemma_encode_concat(seq!['!', '<'], value);
    lemma_encode_concat(seq!['!', '<'] + value, seq!['>']);
    let bytes = seq![0x21u8, 0x3cu8] + id + seq![0x3eu8];
    assert(encode_utf8(tag_text(value)) =~= bytes);
    vstd::utf8::encode_utf8_decode_utf8(value);
    assert(decode_utf8(id) == value);
    let front = pre.push(0x21u8);
    crate::scanner::marks::lemma_verbatim_tag(front, id, rest, c, start);
    assert(front + seq![0x3cu8] + id + seq![0x3eu8, 0x20u8] + rest =~= pre + bytes + seq![0x20u8]
        + rest);
}

} // verus!
