//! What an edit leaves around the new text: lines of their own, no whitespace taken along,
//! and separators where a value was not written before.
use crate::cst::document::{
    blank_end, denotes_block_mapping, lemma_value_range, line_start, replacement, source_stream,
    value_range, with_entry, with_top_entry, SetError,
};
use crate::cst::kind::SyntaxKind;
use crate::cst::path::{node_range, path_node, starts_block_mapping};
use crate::cst::place::{
    ascii_space, in_flow, is_missing, key_before, properties_start, token_in_front, trimmed_end,
};
use crate::cst::tape::{leaf_kind_of, source_tokens};
use crate::scanner::token::{TokenKindView, TokenView};
use crate::text::text;
use vstd::prelude::*;
use vstd::utf8::encode_utf8;

verus! {

/// A new top-level entry stands on a line of its own at the end of the text: behind the
/// text as it was, with a line feed added only where its last line had none.
pub proof fn law_top_entry_has_its_own_line(
    source: Seq<char>,
    key: Seq<char>,
    value: Seq<char>,
)
    ensures
        with_top_entry(source, key, value) matches Some(new) ==> {
            let line = key + seq![':', ' '] + value + seq!['\n'];
            let k = new.len() - line.len();
            &&& k >= 0
            &&& new.subrange(k, new.len() as int) == line
            &&& k == 0 || new[k - 1] == '\n'
            &&& new.subrange(0, k) == if source.len() == 0 || source.last() == '\n' {
                source
            } else {
                source.push('\n')
            }
        },
{
    reveal_strlit(": ");
    reveal_strlit("\n");
    if let Some(new) = with_top_entry(source, key, value) {
        let line = key + seq![':', ' '] + value + seq!['\n'];
        let head = if source.len() == 0 || source.last() == '\n' {
            source
        } else {
            source.push('\n')
        };
        assert(": "@ =~= seq![':', ' ']);
        assert("\n"@ =~= seq!['\n']);
        assert(new =~= head + line);
        let k = new.len() - line.len();
        assert(new.subrange(k, new.len() as int) =~= line);
        assert(new.subrange(0, k) =~= head);
        if k > 0 {
            assert(new[k - 1] == head.last());
        }
    }
}

proof fn lemma_trimmed_end(b: Seq<u8>, lo: int, hi: int)
    requires
        0 <= lo <= hi <= b.len(),
    ensures
        lo <= trimmed_end(b, lo, hi) <= hi,
        trimmed_end(b, lo, hi) > lo ==> !ascii_space(b[trimmed_end(b, lo, hi) - 1]),
        forall|i: int| trimmed_end(b, lo, hi) <= i < hi ==> ascii_space(#[trigger] b[i]),
    decreases hi - lo,
{
    if lo < hi && ascii_space(b[hi - 1]) {
        lemma_trimmed_end(b, lo, hi - 1);
    }
}

/// The part of the text that a path denotes ends with no space, tab or line break, and
/// only those are left out of what the node covers; unless it is a block mapping, it
/// starts where the node does.
pub proof fn law_value_is_trimmed(source: Seq<char>, path: Seq<char>)
    requires
        path_node(source_stream(source).events, path) matches Some(i) && !is_missing(
            source_stream(source).events[i],
        ),
    ensures
        value_range(source, path) matches Some((lo, hi)) ==> {
            let b = encode_utf8(source);
            let events = source_stream(source).events;
            let i = path_node(events, path)->0;
            let (start, end) = node_range(events, i);
            &&& hi <= end
            &&& !starts_block_mapping(events[i]) ==> lo == start
            &&& lo < hi ==> b[hi - 1] != 0x20 && b[hi - 1] != 0x09 && b[hi - 1] != 0x0a && b[hi - 1]
                != 0x0d
            &&& forall|k: int|
                hi <= k < end ==> {
                    let x = #[trigger] b[k];
                    x == 0x20 || x == 0x09 || x == 0x0a || x == 0x0c || x == 0x0d
                }
        },
{
    let b = encode_utf8(source);
    let events = source_stream(source).events;
    let i = path_node(events, path)->0;
    lemma_value_range(source, path);
    if let Some((lo, hi)) = value_range(source, path) {
        let (_, end) = crate::cst::place::place_of(b, source_tokens(source), events, i);
        lemma_trimmed_end(b, lo, end);
    }
}

/// A value that was not written yet gets a space in front of it behind its indicator or
/// its properties, and a colon and a space behind a key without one; the colon of a
/// key behind a `?` goes on a line of its own, in the column of the `?`.
pub proof fn law_new_value_is_separated(source: Seq<char>, path: Seq<char>, value: Seq<char>)
    requires
        value.len() > 0,
        path_node(source_stream(source).events, path) matches Some(i) && is_missing(
            source_stream(source).events[i],
        ),
    ensures
        ({
            let b = encode_utf8(source);
            let tokens = source_tokens(source);
            let events = source_stream(source).events;
            let e = events[path_node(events, path)->0];
            let new = replacement(source, path, value);
            token_in_front(b, tokens, e) matches Some(t) ==> {
                let key = key_before(tokens, tokens.len(), t.span.start.offset as int);
                if !(t.kind is Scalar) {
                    new == seq![' '] + value
                } else if in_flow(b, e) || key is None {
                    new == seq![':', ' '] + value
                } else {
                    let column = if key->0.span.start.column > 0 {
                        key->0.span.start.column - 1
                    } else {
                        0
                    };
                    new.len() == column + 3 + value.len() && new[0] == '\n' && (forall|j: int|
                        1 <= j <= column ==> #[trigger] new[j] == ' ') && new.subrange(
                        column + 1,
                        new.len() as int,
                    ) == seq![':', ' '] + value
                }
            }
        }),
{
    reveal_strlit(" ");
    reveal_strlit(": ");
    reveal_strlit("\n");
    assert(" "@ =~= seq![' ']);
    assert(": "@ =~= seq![':', ' ']);
    assert("\n"@ =~= seq!['\n']);
    let b = encode_utf8(source);
    let tokens = source_tokens(source);
    let events = source_stream(source).events;
    let e = events[path_node(events, path)->0];
    let new = replacement(source, path, value);
    if let Some(t) = token_in_front(b, tokens, e) {
        if t.kind is Scalar && !in_flow(b, e) {
            if let Some(key) = key_before(tokens, tokens.len(), t.span.start.offset as int) {
                let column: nat = if key.span.start.column > 0 {
                    (key.span.start.column - 1) as nat
                } else {
                    0
                };
                let pad = crate::emitter::scalar::blanks(column);
                assert(pad.len() == column);
                assert(new =~= seq!['\n'] + pad + (seq![':', ' '] + value));
                assert(new.subrange(column as int + 1, new.len() as int) =~= seq![':', ' '] + value);
            }
        }
    }
}

proof fn lemma_line_start(b: Seq<u8>, at: int)
    requires
        0 <= at <= b.len(),
    ensures
        0 <= line_start(b, at) <= at,
        line_start(b, at) > 0 ==> b[line_start(b, at) - 1] == 0x0a,
        forall|i: int| line_start(b, at) <= i < at ==> #[trigger] b[i] != 0x0a,
    decreases at,
{
    if 0 < at && b[at - 1] != 0x0a {
        lemma_line_start(b, at - 1);
    }
}

proof fn lemma_blank_end(b: Seq<u8>, i: int)
    requires
        0 <= i <= b.len(),
    ensures
        i <= blank_end(b, i) <= b.len(),
        blank_end(b, i) < b.len() ==> b[blank_end(b, i)] != 0x20 && b[blank_end(b, i)] != 0x09,
        forall|k: int| i <= k < blank_end(b, i) ==> #[trigger] b[k] == 0x20 || b[k] == 0x09,
    decreases b.len() - i,
{
    if i < b.len() && (b[i] == 0x20 || b[i] == 0x09) {
        lemma_blank_end(b, i + 1);
    }
}

/// A new entry of a block mapping stands behind the mapping, on a line of its own that
/// starts with the same spaces and tabs as the line on which the mapping starts.
pub proof fn law_entry_is_indented_alike(
    source: Seq<char>,
    parent: Seq<char>,
    lo: int,
    hi: int,
    from: int,
    to: int,
    key: Seq<char>,
    value: Seq<char>,
)
    requires
        parent.len() > 0,
        value_range(source, parent) == Some((lo, hi)),
        denotes_block_mapping(source, parent),
        ({
            let b = encode_utf8(source);
            &&& 0 <= from <= lo <= b.len()
            &&& from <= to <= b.len()
            &&& from == 0 || b[from - 1] == 0x0a
            &&& forall|i: int| from <= i < lo ==> #[trigger] b[i] != 0x0a
            &&& forall|i: int| from <= i < to ==> #[trigger] b[i] == 0x20 || b[i] == 0x09
            &&& to == b.len() || (b[to] != 0x20 && b[to] != 0x09)
        }),
    ensures
        ({
            let b = encode_utf8(source);
            with_entry(source, parent, key, value) == Ok::<Seq<char>, SetError>(
                text(b, 0, hi) + (seq!['\n'] + text(b, from, to) + key + seq![':', ' '] + value)
                    + text(b, hi, b.len() as int),
            )
        }),
{
    let b = encode_utf8(source);
    reveal_strlit(": ");
    reveal_strlit("\n");
    assert(": "@ =~= seq![':', ' ']);
    assert("\n"@ =~= seq!['\n']);
    lemma_line_start(b, lo);
    let ls = line_start(b, lo);
    assert(ls == from) by {
        if ls < from {
            assert(b[from - 1] == 0x0a);
        }
        if from < ls {
            assert(b[ls - 1] == 0x0a);
        }
    }
    lemma_blank_end(b, from);
    let be = blank_end(b, from);
    assert(be == to) by {
        if be < to {
            assert(b[be] == 0x20 || b[be] == 0x09);
        }
        if to < be {
            assert(b[to] == 0x20 || b[to] == 0x09);
        }
    }
}

/// The anchors and tags in front of the first key of a block mapping belong to its part of
/// the text, with whitespace between them; anything else in front of the key does not.
pub proof fn law_properties_of_the_first_key(
    before: Seq<TokenView>,
    property: TokenView,
    blank: TokenView,
    start: int,
)
    requires
        property.kind is Anchor || property.kind is Tag,
        property.span.start.offset < property.span.end.offset,
        property.span.start.offset < start,
        blank.kind is Whitespace,
        before.len() > 0,
        !(before.last().kind is Anchor || before.last().kind is Tag
            || before.last().kind is Whitespace),
        before.last().span.start.offset < before.last().span.end.offset,
        before.last().span.start.offset < property.span.start.offset,
    ensures
        ({
            let tokens = before.push(property).push(blank);
            properties_start(tokens, tokens.len(), start) == property.span.start.offset
        }),
        properties_start(before, before.len(), start) == start,
{
    let tokens = before.push(property).push(blank);
    let n = before.len() as int;
    assert(tokens[n + 1] == blank);
    assert(tokens[n] == property);
    assert(tokens[n - 1] == before.last());
    reveal_with_fuel(properties_start, 4);
}

/// Comments, whitespace, line breaks, scalars and properties make leaves of their own
/// kinds, and what is left is punctuation.
pub proof fn law_leaf_kinds(kind: TokenKindView)
    ensures
        leaf_kind_of(kind) == SyntaxKind::Comment <==> kind is Comment,
        leaf_kind_of(kind) == SyntaxKind::Whitespace <==> kind is Whitespace,
        leaf_kind_of(kind) == SyntaxKind::Newline <==> kind is LineBreak,
        leaf_kind_of(kind) == SyntaxKind::ScalarToken <==> kind is Scalar,
        leaf_kind_of(kind) == SyntaxKind::Property <==> kind is Anchor || kind is Alias
            || kind is Tag,
        leaf_kind_of(kind) == SyntaxKind::Punct <==> !(kind is Comment || kind is Whitespace
            || kind is LineBreak || kind is Scalar || kind is Anchor || kind is Alias
            || kind is Tag),
{
}

} // verus!
