//! The leaves of a document: the tokens and trivia of the source, in order, with
//! whatever they leave uncovered in between.
use crate::cst::builder::GreenNodeBuilder;
use crate::cst::green::{GreenNode, Leaf, Tree};
use crate::cst::kind::SyntaxKind;
use crate::limits::ResourceLimits;
use crate::scanner::cursor::MAX_INPUT;
use crate::scanner::model::Scan;
use crate::scanner::stream::tape;
use crate::scanner::token::{Token, TokenKind, TokenKindView, TokenView};
use crate::scanner::Scanner;
use crate::text::slice;
use std::rc::Rc;
use vstd::prelude::*;
use vstd::string::*;
use vstd::utf8::*;

verus! {

/// The place for `t` among the first `k` tokens of `s`: behind all that start no
/// later, where `s` is in order.
pub open spec fn place(s: Seq<TokenView>, t: TokenView, k: nat) -> nat
    decreases k,
{
    if 0 < k <= s.len() && s[k - 1].span.start.offset > t.span.start.offset {
        place(s, t, (k - 1) as nat)
    } else {
        k
    }
}

/// Some tokens in the order in which they start; those that start together keep
/// their order.
pub open spec fn by_start(s: Seq<TokenView>) -> Seq<TokenView>
    decreases s.len(),
{
    if s.len() == 0 {
        seq![]
    } else {
        let sorted = by_start(s.drop_last());
        sorted.insert(place(sorted, s.last(), sorted.len()) as int, s.last())
    }
}

/// The tokens and trivia of a source text, in the order in which they start.
pub open spec fn source_tokens(source: Seq<char>) -> Seq<TokenView> {
    by_start(
        tape(Scan::fresh(encode_utf8(source), crate::limits::default_limits(), true)),
    )
}

/// The kind of leaf that a token makes.
pub open spec fn leaf_kind_of(kind: TokenKindView) -> SyntaxKind {
    match kind {
        TokenKindView::Comment(_) => SyntaxKind::Comment,
        TokenKindView::Whitespace(_) => SyntaxKind::Whitespace,
        TokenKindView::LineBreak(_) => SyntaxKind::Newline,
        TokenKindView::Scalar { .. } => SyntaxKind::ScalarToken,
        TokenKindView::Anchor(_) => SyntaxKind::Property,
        TokenKindView::Alias(_) => SyntaxKind::Property,
        TokenKindView::Tag { .. } => SyntaxKind::Property,
        _ => SyntaxKind::Punct,
    }
}

/// The token has bytes, all of them behind the first `covered` ones.
pub open spec fn bears_bytes(b: Seq<u8>, covered: int, t: TokenView) -> bool {
    &&& covered <= t.span.start.offset < t.span.end.offset <= b.len()
    &&& crate::text::at_boundary(b, t.span.start.offset as int)
    &&& crate::text::at_boundary(b, t.span.end.offset as int)
}

/// The leaf for bytes that no token covers, if there are any.
pub open spec fn gap(b: Seq<u8>, lo: int, hi: int) -> Seq<Leaf> {
    if lo < hi {
        seq![Leaf { kind: SyntaxKind::Error, text: crate::text::text(b, lo, hi) }]
    } else {
        seq![]
    }
}

/// The leaves from `covered` on, given the tokens from the `i`th on.
pub open spec fn leaves_from(b: Seq<u8>, tokens: Seq<TokenView>, i: int, covered: int) -> Seq<Leaf>
    decreases tokens.len() - i,
{
    if !(0 <= i < tokens.len()) {
        gap(b, covered, b.len() as int)
    } else if bears_bytes(b, covered, tokens[i]) {
        let lo = tokens[i].span.start.offset as int;
        let hi = tokens[i].span.end.offset as int;
        gap(b, covered, lo) + seq![
            Leaf { kind: leaf_kind_of(tokens[i].kind), text: crate::text::text(b, lo, hi) },
        ] + leaves_from(b, tokens, i + 1, hi)
    } else {
        leaves_from(b, tokens, i + 1, covered)
    }
}

/// The leaves of a source text: its byte-bearing tokens and trivia, in order; what
/// they leave uncovered is kept as `Error` leaves.
pub open spec fn source_leaves(source: Seq<char>) -> Seq<Leaf> {
    leaves_from(encode_utf8(source), source_tokens(source), 0, 0)
}

/// Some leaves as trees.
pub open spec fn leaf_trees(leaves: Seq<Leaf>) -> Seq<Tree> {
    Seq::new(leaves.len(), |i: int| Tree::Token(leaves[i]))
}

/// The syntax tree of a source text.
pub open spec fn source_tree(source: Seq<char>) -> Tree {
    Tree::Node(SyntaxKind::Root, leaf_trees(source_leaves(source)))
}

proof fn lemma_gap(b: Seq<u8>, lo: int, hi: int)
    requires
        0 <= lo <= hi <= b.len(),
    ensures
        crate::cst::green::leaves_text(gap(b, lo, hi)) == crate::text::text(b, lo, hi),
{
    if lo < hi {
        crate::cst::green::lemma_one_leaf(gap(b, lo, hi)[0]);
    } else {
        crate::text::lemma_text_empty(b, lo);
    }
}

proof fn lemma_leaves_text(b: Seq<u8>, tokens: Seq<TokenView>, i: int, covered: int)
    requires
        valid_utf8(b),
        0 <= i,
        0 <= covered <= b.len(),
        crate::text::at_boundary(b, covered),
    ensures
        crate::cst::green::leaves_text(leaves_from(b, tokens, i, covered)) == crate::text::text(
            b,
            covered,
            b.len() as int,
        ),
    decreases tokens.len() - i,
{
    if i >= tokens.len() {
        lemma_gap(b, covered, b.len() as int);
    } else if bears_bytes(b, covered, tokens[i]) {
        let lo = tokens[i].span.start.offset as int;
        let hi = tokens[i].span.end.offset as int;
        let n = b.len() as int;
        let leaf = Leaf { kind: leaf_kind_of(tokens[i].kind), text: crate::text::text(b, lo, hi) };
        let rest = leaves_from(b, tokens, i + 1, hi);
        lemma_leaves_text(b, tokens, i + 1, hi);
        lemma_gap(b, covered, lo);
        crate::cst::green::lemma_one_leaf(leaf);
        crate::cst::green::lemma_leaves_concat(gap(b, covered, lo), seq![leaf]);
        crate::cst::green::lemma_leaves_concat(gap(b, covered, lo) + seq![leaf], rest);
        crate::text::lemma_boundary_zero(b);
        crate::text::lemma_text_join(b, covered, lo, hi);
        crate::text::lemma_text_join(b, covered, hi, n);
    } else {
        lemma_leaves_text(b, tokens, i + 1, covered);
    }
}

/// The leaves of a source text hold every character of it, in order, whatever the
/// text is.
pub proof fn law_leaves_are_lossless(source: Seq<char>)
    ensures
        crate::cst::green::leaves_text(source_leaves(source)) == source,
{
    let b = encode_utf8(source);
    crate::text::lemma_text_whole(source);
    crate::text::lemma_boundary_zero(b);
    lemma_leaves_text(b, source_tokens(source), 0, 0);
}

/// The leaves of a flat tree are the leaves it was made of.
pub proof fn lemma_flat_leaves(leaves: Seq<Leaf>, k: nat)
    requires
        k <= leaves.len(),
    ensures
        crate::cst::green::trees_leaves(leaf_trees(leaves), k) == leaves.subrange(0, k as int),
    decreases k,
{
    if k > 0 {
        lemma_flat_leaves(leaves, (k - 1) as nat);
        assert(crate::cst::green::tree_leaves(leaf_trees(leaves)[k - 1]) == seq![leaves[k - 1]]);
        assert(leaves.subrange(0, k as int) =~= leaves.subrange(0, k - 1) + seq![leaves[k - 1]]);
    } else {
        assert(leaves.subrange(0, 0) =~= Seq::<Leaf>::empty());
    }
}

/// The tree of a source text has that text, whatever the text is.
pub proof fn law_tree_is_lossless(source: Seq<char>)
    ensures
        crate::cst::green::tree_leaves(source_tree(source)) == source_leaves(source),
        crate::cst::green::tree_text(source_tree(source)) == source,
{
    let leaves = source_leaves(source);
    lemma_flat_leaves(leaves, leaves.len());
    assert(leaves.subrange(0, leaves.len() as int) =~= leaves);
    law_leaves_are_lossless(source);
}

proof fn lemma_place(s: Seq<TokenView>, t: TokenView, k: nat)
    requires
        k <= s.len(),
        forall|i: int, j: int|
            0 <= i <= j < s.len() ==> s[i].span.start.offset <= s[j].span.start.offset,
    ensures
        place(s, t, k) <= k,
        forall|i: int|
            0 <= i < place(s, t, k) ==> (#[trigger] s[i]).span.start.offset <= t.span.start.offset,
        forall|i: int|
            place(s, t, k) <= i < k ==> t.span.start.offset < (#[trigger] s[i]).span.start.offset,
    decreases k,
{
    if 0 < k && s[k - 1].span.start.offset > t.span.start.offset {
        lemma_place(s, t, (k - 1) as nat);
    } else if 0 < k {
        assert forall|i: int| 0 <= i < k implies (#[trigger] s[i]).span.start.offset
            <= t.span.start.offset by {
            assert(s[i].span.start.offset <= s[k - 1].span.start.offset);
        }
    }
}

/// Sorting by start orders the tokens and keeps each of them.
pub proof fn law_by_start(s: Seq<TokenView>)
    ensures
        by_start(s).to_multiset() == s.to_multiset(),
        by_start(s).len() == s.len(),
        forall|i: int, j: int|
            0 <= i <= j < s.len() ==> by_start(s)[i].span.start.offset
                <= by_start(s)[j].span.start.offset,
    decreases s.len(),
{
    if s.len() > 0 {
        let sorted = by_start(s.drop_last());
        law_by_start(s.drop_last());
        lemma_place(sorted, s.last(), sorted.len());
        let at = place(sorted, s.last(), sorted.len()) as int;
        let (lo, hi) = (sorted.subrange(0, at), sorted.subrange(at, sorted.len() as int));
        assert(sorted =~= lo + hi);
        assert(by_start(s) =~= lo.push(s.last()) + hi);
        vstd::seq_lib::lemma_multiset_commutative(lo, hi);
        vstd::seq_lib::lemma_multiset_commutative(lo.push(s.last()), hi);
        lo.to_multiset_ensures();
        assert(s =~= s.drop_last().push(s.last()));
        s.drop_last().to_multiset_ensures();
        assert(by_start(s).to_multiset() =~= s.to_multiset());
    } else {
        assert(by_start(s) =~= s);
    }
}

/// Maps a scanner tape token to its CST leaf kind.
fn leaf_kind(kind: &TokenKind<'_>) -> (r: SyntaxKind)
    ensures
        r == leaf_kind_of(kind@),
{
    match kind {
        TokenKind::Comment(_) => SyntaxKind::Comment,
        TokenKind::Whitespace(_) => SyntaxKind::Whitespace,
        TokenKind::LineBreak(_) => SyntaxKind::Newline,
        TokenKind::Scalar { .. } => SyntaxKind::ScalarToken,
        TokenKind::Anchor(_) => SyntaxKind::Property,
        TokenKind::Alias(_) => SyntaxKind::Property,
        TokenKind::Tag { .. } => SyntaxKind::Property,
        _ => SyntaxKind::Punct,
    }
}

/// Inserts a token behind those that start no later.
///
/// The scanner hands tokens out nearly in order (only an implicit key follows what
/// stands behind it), so the search from the end is short.
fn insert_by_start<'a>(sorted: &mut Vec<Token<'a>>, token: Token<'a>)
    ensures
        crate::scanner::token_views(final(sorted)@) == crate::scanner::token_views(
            old(sorted)@,
        ).insert(
            place(
                crate::scanner::token_views(old(sorted)@),
                token@,
                old(sorted)@.len(),
            ) as int,
            token@,
        ),
{
    let ghost views = crate::scanner::token_views(sorted@);
    let n: usize = sorted.len();
    let mut at: usize = n;
    while at > 0 && sorted[at - 1].span.start.offset > token.span.start.offset
        invariant
            at <= n,
            n == sorted@.len(),
            sorted@ == old(sorted)@,
            views == crate::scanner::token_views(sorted@),
            place(views, token@, at as nat) == place(views, token@, n as nat),
        decreases at,
    {
        at -= 1;
    }
    let ghost t = token@;
    sorted.insert(at, token);
    assert(crate::scanner::token_views(sorted@) =~= views.insert(at as int, t));
}

/// Collects the full trivia tape, in source order, up to the end of the input or
/// the first scanner error.
pub fn collect_tape<'a>(input: &'a str) -> (r: Vec<Token<'a>>)
    requires
        input.spec_bytes().len() <= MAX_INPUT,
    ensures
        crate::scanner::token_views(r@) == source_tokens(input@),
{
    let mut scanner = Scanner::with_trivia(input, ResourceLimits::default(), true);
    let mut out: Vec<Token<'a>> = Vec::new();
    let ghost goal = tape(scanner@);
    let ghost mut handed: Seq<TokenView> = seq![];
    assert(handed + goal =~= goal);
    assert(crate::scanner::token_views(out@) =~= by_start(handed));
    loop
        invariant
            scanner.wf(),
            !scanner@.errored,
            goal == tape(
                Scan::fresh(input.spec_bytes(), crate::limits::default_limits(), true),
            ),
            handed + tape(scanner@) == goal,
            crate::scanner::token_views(out@) == by_start(handed),
        decreases scanner@.weight(),
    {
        match scanner.next() {
            Some(Ok(token)) => {
                proof {
                    let after = handed.push(token@);
                    assert(after.drop_last() =~= handed);
                    assert(after + tape(scanner@) =~= goal);
                    handed = after;
                }
                insert_by_start(&mut out, token);
            },
            Some(Err(_)) => {
                assert(handed =~= goal);
                return out;
            },
            None => {
                assert(handed =~= goal);
                return out;
            },
        }
    }
}

/// The tokens of an open flat root, with one more leaf.
proof fn lemma_push_leaf(done: Seq<Leaf>, leaf: Leaf)
    ensures
        leaf_trees(done + seq![leaf]) == leaf_trees(done).push(Tree::Token(leaf)),
{
    assert(leaf_trees(done + seq![leaf]) =~= leaf_trees(done).push(Tree::Token(leaf)));
}

/// Adds the leaf for uncovered bytes, if there are any.
fn push_gap(b: &mut GreenNodeBuilder, input: &str, lo: usize, hi: usize, Ghost(done): Ghost<Seq<Leaf>>)
    requires
        old(b).wf(),
        old(b).open_nodes() == seq![(SyntaxKind::Root, leaf_trees(done))],
        lo <= hi <= input.spec_bytes().len(),
        crate::text::at_boundary(input.spec_bytes(), lo as int),
        crate::text::at_boundary(input.spec_bytes(), hi as int),
    ensures
        final(b).wf(),
        final(b).open_nodes() == seq![
            (SyntaxKind::Root, leaf_trees(done + gap(input.spec_bytes(), lo as int, hi as int))),
        ],
{
    if lo < hi {
        let text = slice(input, lo, hi);
        b.token(SyntaxKind::Error, text);
        proof {
            lemma_push_leaf(done, gap(input.spec_bytes(), lo as int, hi as int)[0]);
            assert(gap(input.spec_bytes(), lo as int, hi as int) =~= seq![
                gap(input.spec_bytes(), lo as int, hi as int)[0],
            ]);
            assert(b.open_nodes() =~= seq![
                (
                    SyntaxKind::Root,
                    leaf_trees(done + gap(input.spec_bytes(), lo as int, hi as int)),
                ),
            ]);
        }
    } else {
        assert(done + gap(input.spec_bytes(), lo as int, hi as int) =~= done);
    }
}

/// Whether the token has bytes, all of them behind the first `covered` ones.
fn token_bears_bytes(input: &str, covered: usize, token: &Token<'_>) -> (r: bool)
    ensures
        r == bears_bytes(input.spec_bytes(), covered as int, token@),
{
    let lo: usize = token.span.start.offset;
    let hi: usize = token.span.end.offset;
    proof {
        crate::text::lemma_text_whole(input@);
    }
    if covered <= lo && lo < hi && hi <= input.as_bytes().len() {
        proof {
            crate::text::lemma_boundary(input.spec_bytes(), lo as int);
            crate::text::lemma_boundary(input.spec_bytes(), hi as int);
        }
        input.is_char_boundary(lo) && input.is_char_boundary(hi)
    } else {
        false
    }
}

/// Builds the green tree for `input`: the tape, flat under a single `Root` node.
///
/// Every byte of the input is kept. What the tape leaves uncovered (a reserved
/// directive, and all that follows a scanner error) becomes an `Error` leaf.
pub fn build(input: &str) -> (r: Rc<GreenNode>)
    requires
        input.spec_bytes().len() <= MAX_INPUT,
    ensures
        r.wf(),
        r@ == source_tree(input@),
{
    let tokens = collect_tape(input);
    let ghost views = source_tokens(input@);
    let ghost bytes = input.spec_bytes();
    let mut b = GreenNodeBuilder::new();
    b.start_node(SyntaxKind::Root);
    let mut covered: usize = 0;
    let mut i: usize = 0;
    let ghost goal = source_leaves(input@);
    let ghost mut done: Seq<Leaf> = seq![];
    proof {
        crate::text::lemma_text_whole(input@);
        crate::text::lemma_boundary_zero(bytes);
        assert(leaf_trees(done) =~= Seq::<Tree>::empty());
        assert(b.open_nodes() =~= seq![(SyntaxKind::Root, leaf_trees(done))]);
        assert(done + goal =~= goal);
    }
    while i < tokens.len()
        invariant
            i <= tokens@.len(),
            views == crate::scanner::token_views(tokens@),
            bytes == input.spec_bytes(),
            valid_utf8(bytes),
            covered <= bytes.len(),
            crate::text::at_boundary(bytes, covered as int),
            b.wf(),
            b.open_nodes() == seq![(SyntaxKind::Root, leaf_trees(done))],
            done + leaves_from(bytes, views, i as int, covered as int) == goal,
        decreases tokens@.len() - i,
    {
        if token_bears_bytes(input, covered, &tokens[i]) {
            let lo: usize = tokens[i].span.start.offset;
            let hi: usize = tokens[i].span.end.offset;
            push_gap(&mut b, input, covered, lo, Ghost(done));
            let kind = leaf_kind(&tokens[i].kind);
            let text = slice(input, lo, hi);
            b.token(kind, text);
            proof {
                let filled = done + gap(bytes, covered as int, lo as int);
                let leaf = Leaf { kind, text: text@ };
                lemma_push_leaf(filled, leaf);
                let after = filled + seq![leaf];
                assert(b.open_nodes() =~= seq![(SyntaxKind::Root, leaf_trees(after))]);
                assert(views[i as int] == tokens@[i as int]@);
                assert(after + leaves_from(bytes, views, i + 1, hi as int) =~= goal);
                done = after;
            }
            covered = hi;
        }
        i += 1;
    }
    let n: usize = input.as_bytes().len();
    proof {
        crate::text::lemma_boundary_zero(bytes);
    }
    push_gap(&mut b, input, covered, n, Ghost(done));
    proof {
        assert(b.open_nodes()[0] == (SyntaxKind::Root, leaf_trees(goal)));
        law_tree_is_lossless(input@);
        assert(crate::cst::green::trees_text(leaf_trees(goal), leaf_trees(goal).len()) == input@);
    }
    b.finish_node();
    b.finish()
}

} // verus!
