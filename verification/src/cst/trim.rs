//! Trimming: no blanks are left at the ends of the lines of a reformatted text, but inside
//! quoted and block scalars.
use crate::cst::format::{
    at_end, end_stripped, leaf_out, leaves_out, lemma_end_stripped, lemma_leaf_nonempty,
    lemma_leaf_out, lemma_leaves_out, lemma_one_newline, lemma_settled, lines_stripped, one_newline,
    pass, reformat, same_meaning, settled, stripped, tidy,
};
use crate::cst::green::{leaves_text, Leaf};
use crate::cst::tape::source_leaves;
use vstd::prelude::*;
use vstd::utf8::encode_utf8;

verus! {

/// Leaves whose texts together keep their length keep each their text.
proof fn lemma_leaves_same(leaves: Seq<Leaf>, k: int, j: int)
    requires
        0 <= j < k <= leaves.len(),
        leaves_out(leaves, k).len() == leaves_text(leaves.subrange(0, k)).len(),
    ensures
        leaf_out(leaves[j], at_end(leaves, j)) == leaves[j].text,
    decreases k,
{
    let leaf = leaves[k - 1];
    lemma_leaves_out(leaves, k - 1);
    lemma_leaf_out(leaf, at_end(leaves, k - 1));
    assert(leaves.subrange(0, k).drop_last() =~= leaves.subrange(0, k - 1));
    if j < k - 1 {
        lemma_leaves_same(leaves, k - 1, j);
    }
}

/// In a text that reformatting leaves alone, it leaves each leaf alone, but perhaps the
/// last one.
proof fn lemma_settled_leaf(t: Seq<char>, j: int)
    requires
        tidy(t),
        pass(t) == t,
        0 <= j < source_leaves(t).len() - 1,
    ensures
        leaf_out(source_leaves(t)[j], at_end(source_leaves(t), j)) == source_leaves(t)[j].text,
{
    let leaves = source_leaves(t);
    let n = leaves.len() as int;
    let b = encode_utf8(t);
    crate::cst::tape::law_leaves_are_lossless(t);
    crate::text::lemma_text_whole(t);
    crate::text::lemma_boundary_zero(b);
    assert(leaves.subrange(0, n) =~= leaves);
    let last = leaves[n - 1];
    let x = last.text;
    let y = leaf_out(last, at_end(leaves, n - 1));
    let out = leaves_out(leaves, n - 1);
    let head = leaves_text(leaves.subrange(0, n - 1));
    lemma_leaf_nonempty(b, crate::cst::tape::source_tokens(t), 0, 0, n - 1);
    lemma_leaf_out(last, at_end(leaves, n - 1));
    lemma_leaves_out(leaves, n - 1);
    assert(leaves.drop_last() =~= leaves.subrange(0, n - 1));
    assert(t == head + x);
    assert(x.last() == t.last());
    lemma_one_newline(out + y);
    if y.len() == 0 {
        assert(out + y =~= out);
    } else {
        assert((out + y).last() == '\n');
    }
    assert(out.len() == head.len());
    lemma_leaves_same(leaves, n - 1, j);
}

/// A text that loses nothing has nothing to lose at the ends of its lines.
proof fn lemma_stripped_same(s: Seq<char>, eot: bool, i: int)
    requires
        stripped(s, eot) == s,
        0 <= i < s.len() - 1,
        s[i + 1] == '\n',
    ensures
        s[i] != ' ',
        s[i] != '\t',
    decreases s.len(),
{
    let rest = s.drop_first();
    crate::cst::format::lemma_stripped(rest, eot);
    if crate::cst::format::horizontal(s[0]) && crate::cst::format::ends_line(s, eot) {
        assert(stripped(s, eot).len() <= rest.len());
    } else {
        assert(stripped(s, eot).drop_first() =~= stripped(rest, eot));
        if i > 0 {
            assert(rest[i - 1] == s[i] && rest[i] == s[i + 1]);
            lemma_stripped_same(rest, eot, i - 1);
        } else {
            assert(rest[0] == '\n');
            assert(crate::cst::format::ends_line(rest, eot));
        }
    }
}

/// A reformatted text has no blanks at the ends of its lines: no comment ends with one, no
/// whitespace stands in front of a line break, and no plain scalar has any in front of a
/// line feed. The last leaf of the text is left out: behind it nothing follows but the final
/// line feed. Where trimming would change what a text means it is not trimmed.
pub proof fn law_lines_are_trimmed(source: Seq<char>, j: int)
    requires
        same_meaning(one_newline(source), settled(one_newline(source))),
        0 <= j < source_leaves(reformat(source)).len() - 1,
    ensures
        ({
            let leaves = source_leaves(reformat(source));
            let leaf = leaves[j];
            &&& leaf.kind is Comment ==> leaf.text.len() == 0 || (leaf.text.last() != ' '
                && leaf.text.last() != '\t')
            &&& leaf.kind is Whitespace ==> !(leaves[j + 1].kind is Newline)
            &&& leaf.kind is ScalarToken && leaf.text[0] != '|' && leaf.text[0] != '>'
                && leaf.text[0] != '"' && leaf.text[0] != '\'' ==> forall|i: int|
                0 <= i < leaf.text.len() - 1 && leaf.text[i + 1] == '\n' ==> #[trigger] leaf.text[i]
                    != ' ' && leaf.text[i] != '\t'
        }),
{
    let ended = one_newline(source);
    let t = settled(ended);
    lemma_one_newline(source);
    lemma_settled(ended);
    assert(reformat(source) == t);
    let leaves = source_leaves(t);
    let leaf = leaves[j];
    lemma_settled_leaf(t, j);
    let b = encode_utf8(t);
    crate::text::lemma_text_whole(t);
    crate::text::lemma_boundary_zero(b);
    lemma_leaf_nonempty(b, crate::cst::tape::source_tokens(t), 0, 0, j);
    if leaf.kind is Comment {
        lemma_stripped_end(leaf.text);
    }
    if leaf.kind is ScalarToken && leaf.text[0] != '|' && leaf.text[0] != '>' && leaf.text[0] != '"'
        && leaf.text[0] != '\'' {
        let s = leaf.text;
        if at_end(leaves, j) {
            lemma_end_stripped(lines_stripped(s));
            crate::cst::format::lemma_stripped(s, true);
            assert(lines_stripped(s) == s);
            assert forall|i: int| 0 <= i < s.len() - 1 && s[i + 1] == '\n' implies #[trigger] s[i]
                != ' ' && s[i] != '\t' by {
                assert(s.contains(s[i + 1]));
                lemma_stripped_same(s, true, i);
            }
        } else {
            assert forall|i: int| 0 <= i < s.len() - 1 && s[i + 1] == '\n' implies #[trigger] s[i]
                != ' ' && s[i] != '\t' by {
                lemma_stripped_same(s, false, i);
            }
        }
    }
}

proof fn lemma_stripped_end(s: Seq<char>)
    requires
        end_stripped(s) == s,
    ensures
        s.len() == 0 || (s.last() != ' ' && s.last() != '\t'),
{
    if s.len() > 0 && crate::cst::format::horizontal(s.last()) {
        lemma_end_stripped(s.drop_last());
        assert(end_stripped(s).len() <= s.len() - 1);
    }
}

} // verus!
