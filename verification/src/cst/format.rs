//! Reformatting: trailing whitespace is trimmed, and the text ends with exactly one
//! line feed. Comments, indentation, and the content of quoted and block scalars
//! stay as they are. Where trimming would change what the documents are, it is left out.
use crate::composer::{compose_all, documents};
use crate::cst::green::Leaf;
use crate::cst::kind::SyntaxKind;
use crate::cst::red::{SyntaxElement, SyntaxNode};
use crate::error::ErrorView;
use crate::node::{all_alike, alike, lemma_alike_on, lemma_alike_self, same_node, NodeView};
use crate::scanner::cursor::MAX_INPUT;
use crate::text::{push_text, same_text, string_of};
use vstd::prelude::*;
use vstd::string::*;
use vstd::utf8::*;

verus! {

/// A space or a tab.
pub open spec fn horizontal(c: char) -> bool {
    c == ' ' || c == '\t'
}

/// A character that ends a line.
pub open spec fn breaks(c: char) -> bool {
    c == '\n' || c == '\r'
}

/// Whether nothing but spaces and tabs stands before the end of the line. `eot`
/// tells whether the end of the text ends a line.
pub open spec fn ends_line(s: Seq<char>, eot: bool) -> bool
    decreases s.len(),
{
    if s.len() == 0 {
        eot
    } else if horizontal(s[0]) {
        ends_line(s.drop_first(), eot)
    } else {
        s[0] == '\n' || (s[0] == '\r' && s.len() > 1 && s[1] == '\n')
    }
}

/// A text without the spaces and tabs at the ends of its lines.
pub open spec fn stripped(s: Seq<char>, eot: bool) -> Seq<char>
    decreases s.len(),
{
    if s.len() == 0 {
        seq![]
    } else if horizontal(s[0]) && ends_line(s, eot) {
        stripped(s.drop_first(), eot)
    } else {
        seq![s[0]] + stripped(s.drop_first(), eot)
    }
}

/// A text without the spaces and tabs at its end.
pub open spec fn end_stripped(s: Seq<char>) -> Seq<char>
    decreases s.len(),
{
    if s.len() > 0 && horizontal(s.last()) {
        end_stripped(s.drop_last())
    } else {
        s
    }
}

/// A text without the line breaks at its end.
pub open spec fn without_breaks(s: Seq<char>) -> Seq<char>
    decreases s.len(),
{
    if s.len() > 0 && breaks(s.last()) {
        without_breaks(s.drop_last())
    } else {
        s
    }
}

/// The text of a scalar of several lines, without spaces and tabs at the ends of
/// its lines.
pub open spec fn lines_stripped(s: Seq<char>) -> Seq<char> {
    if s.contains('\n') {
        stripped(s, true)
    } else {
        s
    }
}

/// Whether a scalar is quoted or a block scalar, by its first character.
pub open spec fn keeps_whitespace(s: Seq<char>) -> bool {
    s.len() > 0 && (s[0] == '|' || s[0] == '>' || s[0] == '"' || s[0] == '\'')
}

/// What a leaf is reformatted to. `at_end`: it ends a line, or the text.
pub open spec fn leaf_out(leaf: Leaf, at_end: bool) -> Seq<char> {
    match leaf.kind {
        SyntaxKind::Whitespace => if at_end {
            seq![]
        } else {
            leaf.text
        },
        SyntaxKind::Comment => end_stripped(leaf.text),
        SyntaxKind::ScalarToken => if keeps_whitespace(leaf.text) {
            leaf.text
        } else if at_end {
            end_stripped(lines_stripped(leaf.text))
        } else {
            stripped(leaf.text, false)
        },
        SyntaxKind::Punct => if at_end {
            end_stripped(leaf.text)
        } else {
            leaf.text
        },
        SyntaxKind::Error => if at_end && leaf.text.len() > 0 && leaf.text[0] == '%' {
            end_stripped(leaf.text)
        } else {
            leaf.text
        },
        _ => leaf.text,
    }
}

/// Whether a line, or the text, ends behind the `i`th leaf.
pub open spec fn at_end(leaves: Seq<Leaf>, i: int) -> bool {
    i + 1 >= leaves.len() || leaves[i + 1].kind is Newline
}

/// What the first `k` leaves are reformatted to.
pub open spec fn leaves_out(leaves: Seq<Leaf>, k: int) -> Seq<char>
    decreases k,
{
    if 0 < k <= leaves.len() {
        leaves_out(leaves, k - 1) + leaf_out(leaves[k - 1], at_end(leaves, k - 1))
    } else {
        seq![]
    }
}

/// A text with exactly one line feed at its end, unless it is empty.
pub open spec fn one_newline(s: Seq<char>) -> Seq<char> {
    if without_breaks(s).len() == 0 {
        seq![]
    } else {
        without_breaks(s).push('\n')
    }
}

/// A source text with each of its leaves reformatted once.
pub open spec fn pass(source: Seq<char>) -> Seq<char> {
    let leaves = crate::cst::tape::source_leaves(source);
    one_newline(leaves_out(leaves, leaves.len() as int))
}

/// A source text reformatted until nothing changes any more.
pub open spec fn settled(source: Seq<char>) -> Seq<char>
    decreases source.len(),
{
    let next = pass(source);
    if next.len() < source.len() {
        settled(next)
    } else {
        next
    }
}

/// Whether the documents of one text are those of the other, wherever they stand. A
/// text without valid documents means nothing.
pub open spec fn same_meaning(source: Seq<char>, other: Seq<char>) -> bool {
    documents(source) matches Ok(nodes) ==> (documents(other) matches Ok(found) && all_alike(
        nodes,
        found,
    ))
}

/// The reformatted source text: with one final line feed, and with its lines trimmed
/// unless that would change what it means.
pub open spec fn reformat(source: Seq<char>) -> Seq<char> {
    let ended = one_newline(source);
    if same_meaning(ended, settled(ended)) {
        settled(ended)
    } else {
        ended
    }
}

/// Empty, or ended by a line feed that follows no other line break.
pub open spec fn tidy(s: Seq<char>) -> bool {
    s.len() == 0 || (s.len() >= 2 && s.last() == '\n' && !breaks(s[s.len() - 2]))
}

/// `y` is no longer than `x`, in characters and in bytes, and `x` itself if it has as many
/// characters.
pub open spec fn within(y: Seq<char>, x: Seq<char>) -> bool {
    &&& y.len() <= x.len()
    &&& y.len() == x.len() ==> y == x
    &&& crate::cst::green::byte_len(y) <= crate::cst::green::byte_len(x)
}

/// A line feed at the end stays there, unless everything goes.
pub open spec fn keeps_end(y: Seq<char>, x: Seq<char>) -> bool {
    x.len() > 0 && x.last() == '\n' ==> y.len() == 0 || y.last() == '\n'
}

proof fn lemma_within_concat(a: Seq<char>, b: Seq<char>, c: Seq<char>, d: Seq<char>)
    requires
        within(a, b),
        within(c, d),
    ensures
        within(a + c, b + d),
{
    crate::cst::green::lemma_encode_concat(a, c);
    crate::cst::green::lemma_encode_concat(b, d);
}

pub proof fn lemma_stripped(s: Seq<char>, eot: bool)
    ensures
        within(stripped(s, eot), s),
        keeps_end(stripped(s, eot), s),
        s.len() > 0 && s.last() == '\n' ==> stripped(s, eot).len() > 0,
    decreases s.len(),
{
    if s.len() > 0 {
        let rest = s.drop_first();
        lemma_stripped(rest, eot);
        assert(s =~= seq![s[0]] + rest);
        if s.len() > 1 {
            assert(rest.last() == s.last());
        }
        let none = Seq::<char>::empty();
        if horizontal(s[0]) && ends_line(s, eot) {
            assert(none + stripped(rest, eot) =~= stripped(rest, eot));
            lemma_within_concat(none, seq![s[0]], stripped(rest, eot), rest);
        } else {
            lemma_within_concat(seq![s[0]], seq![s[0]], stripped(rest, eot), rest);
        }
    } else {
        assert(stripped(s, eot) =~= s);
    }
}

pub proof fn lemma_end_stripped(s: Seq<char>)
    ensures
        within(end_stripped(s), s),
        keeps_end(end_stripped(s), s),
    decreases s.len(),
{
    if s.len() > 0 && horizontal(s.last()) {
        lemma_end_stripped(s.drop_last());
        let none = Seq::<char>::empty();
        assert(s =~= s.drop_last() + seq![s.last()]);
        assert(end_stripped(s) =~= end_stripped(s.drop_last()) + none);
        lemma_within_concat(end_stripped(s.drop_last()), s.drop_last(), none, seq![s.last()]);
    }
}

pub proof fn lemma_leaf_out(leaf: Leaf, at_end: bool)
    ensures
        within(leaf_out(leaf, at_end), leaf.text),
        keeps_end(leaf_out(leaf, at_end), leaf.text),
{
    lemma_stripped(leaf.text, true);
    lemma_stripped(leaf.text, false);
    lemma_end_stripped(leaf.text);
    lemma_end_stripped(lines_stripped(leaf.text));
}

pub proof fn lemma_leaves_out(leaves: Seq<Leaf>, k: int)
    requires
        0 <= k <= leaves.len(),
    ensures
        within(
            leaves_out(leaves, k),
            crate::cst::green::leaves_text(leaves.subrange(0, k)),
        ),
    decreases k,
{
    if k > 0 {
        lemma_leaves_out(leaves, k - 1);
        let leaf = leaves[k - 1];
        lemma_leaf_out(leaf, at_end(leaves, k - 1));
        assert(leaves.subrange(0, k).drop_last() =~= leaves.subrange(0, k - 1));
        lemma_within_concat(
            leaves_out(leaves, k - 1),
            crate::cst::green::leaves_text(leaves.subrange(0, k - 1)),
            leaf_out(leaf, at_end(leaves, k - 1)),
            leaf.text,
        );
    } else {
        assert(leaves.subrange(0, 0) =~= Seq::<Leaf>::empty());
    }
}

proof fn lemma_without_breaks(s: Seq<char>)
    ensures
        without_breaks(s).len() <= s.len(),
        without_breaks(s) == s.subrange(0, without_breaks(s).len() as int),
        without_breaks(s).len() > 0 ==> !breaks(without_breaks(s).last()),
        crate::cst::green::byte_len(without_breaks(s)) <= crate::cst::green::byte_len(s),
        s.len() > 0 && breaks(s.last()) ==> crate::cst::green::byte_len(without_breaks(s)) + 1
            <= crate::cst::green::byte_len(s),
    decreases s.len(),
{
    if s.len() > 0 && breaks(s.last()) {
        lemma_without_breaks(s.drop_last());
        assert(s =~= s.drop_last() + seq![s.last()]);
        crate::cst::green::lemma_encode_concat(s.drop_last(), seq![s.last()]);
        lemma_one_byte(s.last());
        assert(without_breaks(s) =~= s.subrange(0, without_breaks(s).len() as int));
    } else {
        assert(s.subrange(0, s.len() as int) =~= s);
    }
}

/// A character has at least one byte, a line break exactly one.
proof fn lemma_one_byte(c: char)
    ensures
        crate::cst::green::byte_len(seq![c]) >= 1,
        breaks(c) ==> crate::cst::green::byte_len(seq![c]) == 1,
{
    reveal_with_fuel(encode_utf8, 2);
    assert(seq![c].drop_first() =~= Seq::<char>::empty());
}

/// One line feed at the end makes a text tidy.
pub proof fn lemma_one_newline(s: Seq<char>)
    ensures
        tidy(one_newline(s)),
        one_newline(s).len() <= s.len() + 1,
        crate::cst::green::byte_len(one_newline(s)) <= crate::cst::green::byte_len(s) + 1,
        s.len() > 0 && breaks(s.last()) ==> one_newline(s).len() <= s.len()
            && crate::cst::green::byte_len(one_newline(s)) <= crate::cst::green::byte_len(s),
{
    lemma_without_breaks(s);
    let t = without_breaks(s);
    assert(t.push('\n') =~= t + seq!['\n']);
    crate::cst::green::lemma_encode_concat(t, seq!['\n']);
    lemma_one_byte('\n');
}

/// A tidy text is its own tidied text.
proof fn lemma_tidy(s: Seq<char>)
    requires
        tidy(s),
    ensures
        one_newline(s) == s,
        s.len() > 0 ==> one_newline(s.drop_last()) == s,
{
    if s.len() > 0 {
        let t = s.drop_last();
        assert(t.last() == s[s.len() - 2]);
        assert(without_breaks(t) == t);
        assert(without_breaks(s) == without_breaks(t));
        assert(t.push('\n') =~= s);
    }
}

/// The leaves of a text are not empty.
pub proof fn lemma_leaf_nonempty(
    b: Seq<u8>,
    tokens: Seq<crate::scanner::token::TokenView>,
    i: int,
    covered: int,
    j: int,
)
    requires
        valid_utf8(b),
        0 <= i,
        0 <= covered <= b.len(),
        crate::text::at_boundary(b, covered),
        0 <= j < crate::cst::tape::leaves_from(b, tokens, i, covered).len(),
    ensures
        crate::cst::tape::leaves_from(b, tokens, i, covered)[j].text.len() > 0,
    decreases tokens.len() - i,
{
    crate::text::lemma_boundary_zero(b);
    if i >= tokens.len() {
        crate::text::lemma_text_nonempty(b, covered, b.len() as int);
    } else if crate::cst::tape::bears_bytes(b, covered, tokens[i]) {
        let lo = tokens[i].span.start.offset as int;
        let hi = tokens[i].span.end.offset as int;
        let gap = crate::cst::tape::gap(b, covered, lo);
        if covered < lo {
            crate::text::lemma_text_nonempty(b, covered, lo);
        }
        crate::text::lemma_text_nonempty(b, lo, hi);
        if j > gap.len() {
            lemma_leaf_nonempty(b, tokens, i + 1, hi, j - gap.len() - 1);
        }
    } else {
        lemma_leaf_nonempty(b, tokens, i + 1, covered, j);
    }
}

/// Reformatting makes a text tidy, and adds at most the final line feed.
pub proof fn lemma_pass(source: Seq<char>)
    ensures
        tidy(pass(source)),
        pass(source).len() <= source.len() + 1,
        crate::cst::green::byte_len(pass(source)) <= crate::cst::green::byte_len(source) + 1,
{
    let leaves = crate::cst::tape::source_leaves(source);
    crate::cst::tape::law_leaves_are_lossless(source);
    lemma_leaves_out(leaves, leaves.len() as int);
    assert(leaves.subrange(0, leaves.len() as int) =~= leaves);
    lemma_one_newline(leaves_out(leaves, leaves.len() as int));
}

/// Reformatting a tidy text makes it shorter, or leaves it alone.
pub proof fn lemma_pass_tidy(source: Seq<char>)
    requires
        tidy(source),
    ensures
        tidy(pass(source)),
        pass(source).len() < source.len() || pass(source) == source,
        crate::cst::green::byte_len(pass(source)) <= crate::cst::green::byte_len(source),
{
    lemma_pass(source);
    let leaves = crate::cst::tape::source_leaves(source);
    let n = leaves.len() as int;
    let b = encode_utf8(source);
    crate::cst::tape::law_leaves_are_lossless(source);
    assert(leaves.subrange(0, n) =~= leaves);
    crate::text::lemma_text_whole(source);
    crate::text::lemma_boundary_zero(b);
    if n == 0 {
        assert(source =~= Seq::<char>::empty());
        assert(leaves_out(leaves, n) =~= Seq::<char>::empty());
        assert(pass(source) =~= source);
    } else {
        let last = leaves[n - 1];
        let x = last.text;
        let y = leaf_out(last, at_end(leaves, n - 1));
        let head = crate::cst::green::leaves_text(leaves.subrange(0, n - 1));
        let out = leaves_out(leaves, n - 1);
        lemma_leaf_nonempty(b, crate::cst::tape::source_tokens(source), 0, 0, n - 1);
        lemma_leaf_out(last, at_end(leaves, n - 1));
        lemma_leaves_out(leaves, n - 1);
        assert(leaves.drop_last() =~= leaves.subrange(0, n - 1));
        assert(source == head + x);
        assert(x.last() == source.last());
        lemma_within_concat(out, head, y, x);
        lemma_one_newline(out + y);
        lemma_tidy(source);
        crate::cst::green::lemma_encode_concat(head, x);
        if y.len() == 0 {
            assert(out + y =~= out);
            assert(x =~= x.drop_last() + seq![x.last()]);
            crate::cst::green::lemma_encode_concat(x.drop_last(), seq![x.last()]);
            lemma_one_byte(x.last());
            if x.len() == 1 && out == head {
                assert(out =~= source.drop_last());
            }
        } else {
            assert((out + y).last() == '\n');
        }
    }
}

/// Repeating makes no difference any more in the end.
pub proof fn lemma_settled(source: Seq<char>)
    requires
        tidy(source),
    ensures
        tidy(settled(source)),
        pass(settled(source)) == settled(source),
        settled(settled(source)) == settled(source),
    decreases source.len(),
{
    lemma_pass_tidy(source);
    if pass(source).len() < source.len() {
        lemma_settled(pass(source));
    }
}

/// A reformatted text is its own reformatted text.
proof fn lemma_reformat(source: Seq<char>)
    ensures
        tidy(reformat(source)),
        reformat(reformat(source)) == reformat(source),
{
    let ended = one_newline(source);
    lemma_one_newline(source);
    lemma_settled(ended);
    lemma_tidy(ended);
    lemma_tidy(settled(ended));
}

/// Reformatting is idempotent.
pub proof fn law_reformat_idempotent(source: Seq<char>)
    ensures
        reformat(reformat(source)) == reformat(source),
{
    lemma_reformat(source);
}

/// A reformatted text is empty, or ends with exactly one line break, a line feed.
pub proof fn law_reformat_ends_with_one_newline(source: Seq<char>)
    ensures
        reformat(source).len() == 0 || {
            &&& reformat(source).last() == '\n'
            &&& reformat(source).len() >= 2
            &&& reformat(source)[reformat(source).len() - 2] != '\n'
            &&& reformat(source)[reformat(source).len() - 2] != '\r'
        },
{
    lemma_reformat(source);
}

/// Reformatting keeps the meaning of a text wherever one final line feed in place of its
/// final line breaks does: the reformatted text has the same documents, but for where
/// they stand.
pub proof fn law_reformat_keeps_meaning(source: Seq<char>)
    requires
        same_meaning(source, one_newline(source)),
    ensures
        same_meaning(source, reformat(source)),
{
    let ended = one_newline(source);
    if let Ok(nodes) = documents(source) {
        let found = documents(ended)->Ok_0;
        let last = documents(reformat(source))->Ok_0;
        assert forall|k: int| 0 <= k < nodes.len() implies alike(#[trigger] nodes[k], last[k]) by {
            if same_meaning(ended, settled(ended)) {
                assert(alike(found[k], last[k]));
                lemma_alike_on(nodes[k], found[k], last[k]);
            }
        }
    }
}

/// Reformatting keeps the meaning of every text that ends with exactly one line feed.
pub proof fn law_reformat_keeps_meaning_of_tidy_text(source: Seq<char>)
    requires
        tidy(source),
    ensures
        same_meaning(source, reformat(source)),
{
    lemma_tidy(source);
    if let Ok(nodes) = documents(source) {
        assert forall|k: int| 0 <= k < nodes.len() implies alike(#[trigger] nodes[k], nodes[k]) by {
            lemma_alike_self(nodes[k]);
        }
    }
    law_reformat_keeps_meaning(source);
}

/// Returns `true` if `text` is a block scalar token (literal `|` or folded `>`), or
/// a quoted scalar. Such scalars embed their full body (including trailing spaces
/// that may be significant) as a single token; reformatting leaves them untouched.
pub fn preserves_trailing_ws(text: &str) -> (r: bool)
    ensures
        r == keeps_whitespace(text@),
{
    if text.is_empty() {
        return false;
    }
    let c = text.get_char(0);
    c == '|' || c == '>' || c == '"' || c == '\''
}

/// Strips trailing horizontal whitespace (spaces and tabs) from `text`.
pub fn strip_trailing_horizontal_ws(text: &str) -> (r: String)
    ensures
        r@ == end_stripped(text@),
{
    let mut chars: Vec<char> = Vec::new();
    push_text(&mut chars, text);
    assert(chars@ =~= text@);
    while chars.len() > 0 && (chars[chars.len() - 1] == ' ' || chars[chars.len() - 1] == '\t')
        invariant
            end_stripped(chars@) == end_stripped(text@),
        decreases chars@.len(),
    {
        let _ = chars.pop();
    }
    string_of(&chars)
}

/// Strips the spaces and tabs at the ends of the lines of `text`. `eot` tells
/// whether the end of the text ends a line.
fn strip_lines(text: &str, eot: bool) -> (r: String)
    ensures
        r@ == stripped(text@, eot),
{
    let mut chars: Vec<char> = Vec::new();
    push_text(&mut chars, text);
    assert(chars@ =~= text@);
    let n: usize = chars.len();
    let mut kept: Vec<char> = Vec::new();
    let mut i: usize = n;
    let mut line_ends = eot;
    let ghost s = chars@;
    assert(s.subrange(n as int, n as int) =~= Seq::<char>::empty());
    assert(kept@.reverse() =~= Seq::<char>::empty());
    while i > 0
        invariant
            i <= n,
            n == s.len(),
            s == chars@,
            line_ends == ends_line(s.subrange(i as int, n as int), eot),
            kept@.reverse() == stripped(s.subrange(i as int, n as int), eot),
        decreases i,
    {
        i -= 1;
        let c = chars[i];
        let ghost rest = s.subrange(i as int, n as int);
        assert(rest.drop_first() =~= s.subrange(i + 1, n as int));
        assert(rest[0] == c);
        let ghost before = kept@;
        if c == ' ' || c == '\t' {
            if !line_ends {
                kept.push(c);
                assert(kept@.reverse() =~= seq![c] + before.reverse());
            }
        } else {
            line_ends = c == '\n' || (c == '\r' && i + 1 < n && chars[i + 1] == '\n');
            kept.push(c);
            assert(kept@.reverse() =~= seq![c] + before.reverse());
        }
    }
    assert(s.subrange(0, n as int) =~= s);
    let mut out = String::new();
    let mut k: usize = kept.len();
    assert(out@ =~= Seq::<char>::empty());
    while k > 0
        invariant
            k <= kept@.len(),
            out@ == kept@.reverse().subrange(0, kept@.len() - k),
        decreases k,
    {
        k -= 1;
        out.push(kept[k]);
        assert(out@ =~= kept@.reverse().subrange(0, kept@.len() - k));
    }
    assert(out@ =~= kept@.reverse());
    out
}

/// Strips trailing horizontal whitespace (spaces and tabs) before any embedded line
/// ending (`\n` or `\r\n`) of `text`, and, if there is one, at the end of what
/// follows the last. A text of one line is left alone.
pub fn strip_trailing_ws_before_newline(text: &str) -> (r: String)
    ensures
        r@ == lines_stripped(text@),
{
    let mut has_newline = false;
    for c in it: text.chars()
        invariant
            it.seq() == text@,
            has_newline == exists|j: int| 0 <= j < it.index() && text@[j] == '\n',
    {
        if c == '\n' {
            has_newline = true;
            assert(text@[it.index()] == '\n');
        }
    }
    if has_newline {
        strip_lines(text, true)
    } else {
        text.to_owned()
    }
}

/// The leaves of some kinds and texts.
pub open spec fn pairs_of(s: Seq<(SyntaxKind, String)>) -> Seq<Leaf> {
    Seq::new(s.len(), |i: int| Leaf { kind: s[i].0, text: s[i].1@ })
}

/// Collects all leaf tokens from `node` (depth-first) into `out` as `(kind, text)`
/// pairs.
pub fn collect_tokens(node: &SyntaxNode, out: &mut Vec<(SyntaxKind, String)>)
    requires
        node.wf(),
    ensures
        pairs_of(final(out)@) == pairs_of(old(out)@) + crate::cst::green::tree_leaves(node.tree()),
    decreases node.tree(),
{
    let ghost trees = node.spec_children();
    let ghost start = pairs_of(out@);
    let elements = node.children_with_tokens();
    let mut i: usize = 0;
    proof {
        node.lemma_tree();
        assert(start + crate::cst::green::trees_leaves(trees, 0) =~= start);
    }
    while i < elements.len()
        invariant
            i <= elements@.len(),
            elements@.len() == trees.len(),
            trees == node.spec_children(),
            node.tree() is Node,
            start == pairs_of(old(out)@),
            forall|k: int| #![trigger elements@[k]]
                0 <= k < elements@.len() ==> elements@[k].wf() && elements@[k].tree() == trees[k],
            pairs_of(out@) == start + crate::cst::green::trees_leaves(trees, i as nat),
        decreases elements@.len() - i,
    {
        let ghost before = out@;
        assert(elements@[i as int].tree() == trees[i as int]);
        match &elements[i] {
            SyntaxElement::Node(n) => {
                assert(decreases_to!(node.tree() => n.tree()));
                collect_tokens(n, out);
            },
            SyntaxElement::Token(t, _) => {
                out.push((t.kind(), t.text().to_owned()));
                assert(pairs_of(out@) =~= pairs_of(before) + seq![t@]);
                assert(crate::cst::green::tree_leaves(trees[i as int]) == seq![t@]);
            },
        }
        assert(crate::cst::green::trees_leaves(trees, (i + 1) as nat)
            == crate::cst::green::trees_leaves(trees, i as nat) + crate::cst::green::tree_leaves(
            trees[i as int],
        ));
        i += 1;
        assert(pairs_of(out@) =~= start + crate::cst::green::trees_leaves(trees, i as nat));
    }
}

/// Reformats every leaf of a tree once.
fn reformat_once(root: &SyntaxNode, Ghost(source): Ghost<Seq<char>>) -> (r: String)
    requires
        root.wf(),
        root.tree() == crate::cst::tape::source_tree(source),
    ensures
        r@ == pass(source),
{
    let mut tokens: Vec<(SyntaxKind, String)> = Vec::new();
    let ghost leaves = crate::cst::tape::source_leaves(source);
    assert(pairs_of(tokens@) =~= Seq::<Leaf>::empty());
    collect_tokens(root, &mut tokens);
    proof {
        crate::cst::tape::law_tree_is_lossless(source);
        assert(pairs_of(tokens@) =~= leaves);
    }
    let n: usize = tokens.len();
    let mut out: Vec<char> = Vec::new();
    let mut i: usize = 0;
    while i < n
        invariant
            i <= n,
            n == tokens@.len(),
            leaves == pairs_of(tokens@),
            out@ == leaves_out(leaves, i as int),
        decreases n - i,
    {
        let kind = tokens[i].0;
        let text = tokens[i].1.as_str();
        let trailing = i + 1 == n || tokens[i + 1].0 == SyntaxKind::Newline;
        assert(leaves[i as int] == (Leaf { kind, text: text@ }));
        assert(trailing == at_end(leaves, i as int));
        match kind {
            // Structural whitespace: dropped at the end of a line or of the text.
            SyntaxKind::Whitespace => {
                if !trailing {
                    push_text(&mut out, text);
                } else {
                    assert(out@ + Seq::<char>::empty() =~= out@);
                }
            },
            // The whitespace behind a comment is part of its text.
            SyntaxKind::Comment => {
                let stripped = strip_trailing_horizontal_ws(text);
                push_text(&mut out, stripped.as_str());
            },
            // So is the whitespace behind a plain scalar, up to and past the line
            // break. Where something else follows in the line, the whitespace before
            // it is its separation or its indentation.
            SyntaxKind::ScalarToken => {
                if preserves_trailing_ws(text) {
                    push_text(&mut out, text);
                } else if trailing {
                    let lines = strip_trailing_ws_before_newline(text);
                    let stripped = strip_trailing_horizontal_ws(lines.as_str());
                    push_text(&mut out, stripped.as_str());
                } else {
                    let lines = strip_lines(text, false);
                    push_text(&mut out, lines.as_str());
                }
            },
            // The whitespace behind a document end or a directive is part of its text.
            SyntaxKind::Punct => {
                if trailing {
                    let stripped = strip_trailing_horizontal_ws(text);
                    push_text(&mut out, stripped.as_str());
                } else {
                    push_text(&mut out, text);
                }
            },
            // So it is behind a reserved directive.
            SyntaxKind::Error => {
                if trailing && !text.is_empty() && text.get_char(0) == '%' {
                    let stripped = strip_trailing_horizontal_ws(text);
                    push_text(&mut out, stripped.as_str());
                } else {
                    push_text(&mut out, text);
                }
            },
            _ => {
                push_text(&mut out, text);
            },
        }
        i += 1;
    }
    end_chars(&mut out);
    string_of(&out)
}

/// Whether the documents of one text are those of the other.
fn means_the_same(source: &str, other: &str) -> (r: bool)
    requires
        source.spec_bytes().len() <= MAX_INPUT,
        other.spec_bytes().len() <= MAX_INPUT,
    ensures
        r == same_meaning(source@, other@),
{
    let nodes = match compose_all(source) {
        Ok(nodes) => nodes,
        Err(_) => {
            return true;
        },
    };
    let found = match compose_all(other) {
        Ok(found) => found,
        Err(_) => {
            return false;
        },
    };
    let n: usize = nodes.len();
    if n != found.len() {
        return false;
    }
    let ghost a = crate::node::node_values(nodes@);
    let ghost b = crate::node::node_values(found@);
    let mut i: usize = 0;
    while i < n
        invariant
            i <= n,
            n == nodes@.len(),
            n == found@.len(),
            a == crate::node::node_values(nodes@),
            b == crate::node::node_values(found@),
            documents(source@) == Ok::<Seq<NodeView>, ErrorView>(a),
            documents(other@) == Ok::<Seq<NodeView>, ErrorView>(b),
            forall|k: int| 0 <= k < i ==> alike(#[trigger] a[k], b[k]),
        decreases n - i,
    {
        assert(a[i as int] == nodes@[i as int]@);
        assert(b[i as int] == found@[i as int]@);
        if !same_node(&nodes[i], &found[i]) {
            return false;
        }
        i += 1;
    }
    true
}

/// Ends a text with exactly one line feed, unless it is empty.
fn end_once(text: &str) -> (r: String)
    ensures
        r@ == one_newline(text@),
{
    let mut out: Vec<char> = Vec::new();
    push_text(&mut out, text);
    assert(out@ =~= text@);
    end_chars(&mut out);
    string_of(&out)
}

/// Ends some characters with exactly one line feed, unless there are none.
fn end_chars(out: &mut Vec<char>)
    ensures
        final(out)@ == one_newline(old(out)@),
{
    let ghost whole = out@;
    while out.len() > 0 && (out[out.len() - 1] == '\n' || out[out.len() - 1] == '\r')
        invariant
            without_breaks(out@) == without_breaks(whole),
        decreases out@.len(),
    {
        let _ = out.pop();
    }
    if out.len() > 0 {
        out.push('\n');
    } else {
        assert(out@ =~= Seq::<char>::empty());
    }
}

/// Reformats a text: it ends with one line feed, and its lines are trimmed until nothing
/// changes any more, unless that would change what it means.
pub(crate) fn reformat_text(source: &str) -> (r: String)
    requires
        source.spec_bytes().len() < MAX_INPUT,
    ensures
        r@ == reformat(source@),
{
    let ended = end_once(source);
    proof {
        lemma_one_newline(source@);
    }
    let mut text = ended.clone();
    loop
        invariant
            settled(text@) == settled(ended@),
            tidy(text@),
            ended@ == one_newline(source@),
            crate::cst::green::byte_len(ended@) <= MAX_INPUT,
            crate::cst::green::byte_len(text@) <= MAX_INPUT,
        ensures
            text@ == settled(ended@),
            ended@ == one_newline(source@),
            crate::cst::green::byte_len(ended@) <= MAX_INPUT,
            crate::cst::green::byte_len(text@) <= MAX_INPUT,
        decreases text@.len(),
    {
        let green = crate::cst::tape::build(text.as_str());
        let next = reformat_once(&SyntaxNode::new_root(green), Ghost(text@));
        proof {
            lemma_pass_tidy(text@);
        }
        if same_text(next.as_str(), text.as_str()) {
            break;
        }
        text = next;
    }
    if means_the_same(ended.as_str(), text.as_str()) {
        text
    } else {
        ended
    }
}

} // verus!
