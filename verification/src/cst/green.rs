//! Immutable, structurally-shared green tree.
use crate::cst::kind::SyntaxKind;
use std::rc::Rc;
use vstd::prelude::*;
use vstd::string::*;
use vstd::utf8::*;

verus! {

/// A leaf token holding its exact source text.
#[derive(Debug, PartialEq, Eq)]
pub struct GreenToken {
    kind: SyntaxKind,
    text: String,
}

/// The value of a leaf.
pub struct Leaf {
    pub kind: SyntaxKind,
    pub text: Seq<char>,
}

impl View for GreenToken {
    type V = Leaf;

    closed spec fn view(&self) -> Leaf {
        Leaf { kind: self.kind, text: self.text@ }
    }
}

/// The number of bytes of a text.
pub open spec fn byte_len(s: Seq<char>) -> nat {
    encode_utf8(s).len()
}

/// The bytes of two texts in a row are the bytes of the one, then of the other.
pub proof fn lemma_encode_concat(a: Seq<char>, b: Seq<char>)
    ensures
        encode_utf8(a + b) == encode_utf8(a) + encode_utf8(b),
    decreases a.len(),
{
    if a.len() == 0 {
        assert(a + b =~= b);
        assert(encode_utf8(a) + encode_utf8(b) =~= encode_utf8(b));
    } else {
        assert((a + b).drop_first() =~= a.drop_first() + b);
        assert((a + b)[0] == a[0]);
        lemma_encode_concat(a.drop_first(), b);
        assert(encode_utf8(a + b) =~= encode_utf8(a) + encode_utf8(b));
    }
}

impl GreenToken {
    /// The token kind.
    #[must_use]
    pub fn kind(&self) -> (r: SyntaxKind)
        ensures
            r == self@.kind,
    {
        self.kind
    }

    /// The token's exact source text.
    #[must_use]
    pub fn text(&self) -> (r: &str)
        ensures
            r@ == self@.text,
    {
        self.text.as_str()
    }

    /// Byte length of the token text.
    #[must_use]
    pub fn text_len(&self) -> (r: usize)
        ensures
            r == byte_len(self@.text),
    {
        self.text.as_str().as_bytes().len()
    }
}

/// A child of a green node: a subtree or a token.
#[derive(Debug)]
pub enum GreenChild {
    /// A subtree.
    Node(Rc<GreenNode>),
    /// A leaf token.
    Token(Rc<GreenToken>),
}

/// An interior green node (immutable, `Rc`-shared).
#[derive(Debug)]
pub struct GreenNode {
    kind: SyntaxKind,
    children: Vec<GreenChild>,
    text_len: usize,
}

/// The value of a tree: a leaf, or a node with the trees under it.
pub enum Tree {
    Token(Leaf),
    Node(SyntaxKind, Seq<Tree>),
}

/// The tree of a node.
pub closed spec fn node_tree(n: GreenNode) -> Tree
    decreases n,
{
    Tree::Node(
        n.kind,
        Seq::new(
            n.children@.len(),
            |i: int|
                if 0 <= i < n.children@.len() {
                    child_tree(n.children@[i])
                } else {
                    arbitrary()
                },
        ),
    )
}

/// The tree of a child.
pub open spec fn child_tree(c: GreenChild) -> Tree
    decreases c,
{
    match c {
        GreenChild::Node(n) => node_tree(*n),
        GreenChild::Token(t) => Tree::Token(t@),
    }
}

/// The trees of some children.
pub open spec fn child_trees(s: Seq<GreenChild>) -> Seq<Tree> {
    Seq::new(s.len(), |i: int| child_tree(s[i]))
}

/// The leaves of a tree, in order.
pub open spec fn tree_leaves(t: Tree) -> Seq<Leaf>
    decreases t,
{
    match t {
        Tree::Token(l) => seq![l],
        Tree::Node(_, trees) => trees_leaves(trees, trees.len()),
    }
}

/// The leaves of the first `k` trees, in order.
pub open spec fn trees_leaves(s: Seq<Tree>, k: nat) -> Seq<Leaf>
    decreases s, k,
{
    if 0 < k <= s.len() {
        trees_leaves(s, (k - 1) as nat) + tree_leaves(s[k - 1])
    } else {
        seq![]
    }
}

/// The source text of a tree.
pub open spec fn tree_text(t: Tree) -> Seq<char> {
    leaves_text(tree_leaves(t))
}

/// The source text of the first `k` trees.
pub open spec fn trees_text(s: Seq<Tree>, k: nat) -> Seq<char> {
    leaves_text(trees_leaves(s, k))
}

/// The texts of some leaves in a row.
pub open spec fn leaves_text(s: Seq<Leaf>) -> Seq<char>
    decreases s.len(),
{
    if s.len() == 0 {
        seq![]
    } else {
        leaves_text(s.drop_last()) + s.last().text
    }
}

/// The text of leaves in a row is the text of the first ones, then of the rest.
pub proof fn lemma_leaves_concat(a: Seq<Leaf>, b: Seq<Leaf>)
    ensures
        leaves_text(a + b) == leaves_text(a) + leaves_text(b),
    decreases b.len(),
{
    if b.len() == 0 {
        assert(a + b =~= a);
        assert(leaves_text(a) + leaves_text(b) =~= leaves_text(a));
    } else {
        assert((a + b).drop_last() =~= a + b.drop_last());
        lemma_leaves_concat(a, b.drop_last());
        assert(leaves_text(a + b) =~= leaves_text(a) + leaves_text(b));
    }
}

/// The text of one leaf.
pub proof fn lemma_one_leaf(l: Leaf)
    ensures
        leaves_text(seq![l]) == l.text,
{
    assert(seq![l].drop_last() =~= Seq::<Leaf>::empty());
    reveal_with_fuel(leaves_text, 2);
    assert(leaves_text(seq![l]) =~= l.text);
}

/// One more tree adds its text.
pub proof fn lemma_next_tree(s: Seq<Tree>, k: nat)
    requires
        k < s.len(),
    ensures
        trees_text(s, k + 1) == trees_text(s, k) + tree_text(s[k as int]),
        byte_len(trees_text(s, k + 1)) == byte_len(trees_text(s, k)) + byte_len(
            tree_text(s[k as int]),
        ),
{
    lemma_leaves_concat(trees_leaves(s, k), tree_leaves(s[k as int]));
    lemma_encode_concat(trees_text(s, k), tree_text(s[k as int]));
}

/// The first trees have no more bytes than all of them.
pub proof fn lemma_prefix_len(s: Seq<Tree>, k: nat)
    requires
        k <= s.len(),
    ensures
        byte_len(trees_text(s, k)) <= byte_len(trees_text(s, s.len())),
    decreases s.len() - k,
{
    if k < s.len() {
        lemma_prefix_len(s, k + 1);
        lemma_next_tree(s, k);
    }
}

impl View for GreenNode {
    type V = Tree;

    open spec fn view(&self) -> Tree {
        node_tree(*self)
    }
}

impl View for GreenChild {
    type V = Tree;

    open spec fn view(&self) -> Tree {
        child_tree(*self)
    }
}

impl GreenNode {
    /// The kind of this node.
    pub open spec fn spec_kind(self) -> SyntaxKind {
        self@->Node_0
    }

    /// The trees under this node.
    pub open spec fn spec_children(self) -> Seq<Tree> {
        self@->Node_1
    }

    /// The source text of this node.
    pub open spec fn source(self) -> Seq<char> {
        tree_text(self@)
    }

    /// The cached lengths are those of the texts, here and below.
    pub closed spec fn wf(self) -> bool
        decreases self,
    {
        &&& self.text_len == byte_len(self.source())
        &&& forall|i: int|
            #![trigger self.children@[i]]
            0 <= i < self.children@.len() ==> (self.children@[i] matches GreenChild::Node(n)
                ==> n.wf())
    }

    /// A node is no leaf, and the length of a valid node's text fits the machine.
    pub proof fn lemma_node(&self)
        ensures
            self@ is Node,
            self@ == Tree::Node(self.spec_kind(), self.spec_children()),
            self.source() == trees_text(self.spec_children(), self.spec_children().len()),
            self.wf() ==> byte_len(self.source()) <= usize::MAX,
    {
    }

    /// Builds a node, caching its total text length. Returns an `Rc` for sharing.
    #[must_use]
    pub fn new(kind: SyntaxKind, children: Vec<GreenChild>) -> (r: Rc<Self>)
        requires
            forall|i: int| 0 <= i < children@.len() ==> (#[trigger] children@[i]).wf(),
            byte_len(trees_text(child_trees(children@), children@.len())) <= usize::MAX,
        ensures
            r.wf(),
            r@ == Tree::Node(kind, child_trees(children@)),
    {
        let n: usize = children.len();
        let mut text_len: usize = 0;
        let mut i: usize = 0;
        let ghost trees = child_trees(children@);
        while i < n
            invariant
                i <= n,
                n == children@.len(),
                trees == child_trees(children@),
                forall|i: int| 0 <= i < children@.len() ==> (#[trigger] children@[i]).wf(),
                byte_len(trees_text(trees, children@.len())) <= usize::MAX,
                text_len == byte_len(trees_text(trees, i as nat)),
            decreases n - i,
        {
            proof {
                lemma_prefix_len(trees, (i + 1) as nat);
                lemma_next_tree(trees, i as nat);
            }
            text_len = text_len + children[i].text_len();
            i += 1;
        }
        let r = Rc::new(GreenNode { kind, children, text_len });
        assert(r.spec_children() =~= trees);
        r
    }

    /// The node kind.
    #[must_use]
    pub fn kind(&self) -> (r: SyntaxKind)
        ensures
            r == self.spec_kind(),
    {
        self.kind
    }

    /// Total byte length of the node's text.
    #[must_use]
    pub fn text_len(&self) -> (r: usize)
        requires
            self.wf(),
        ensures
            r == byte_len(self.source()),
    {
        self.text_len
    }

    /// The node's children.
    #[must_use]
    pub fn children(&self) -> (r: &[GreenChild])
        ensures
            child_trees(r@) == self.spec_children(),
            self.wf() ==> forall|i: int| 0 <= i < r@.len() ==> (#[trigger] r@[i]).wf(),
    {
        assert(child_trees(self.children@) =~= self.spec_children());
        self.children.as_slice()
    }

    /// Appends the node's full source text to `out`.
    pub fn write_text(&self, out: &mut String)
        ensures
            final(out)@ == old(out)@ + self.source(),
        decreases self,
    {
        let n: usize = self.children.len();
        let mut i: usize = 0;
        let ghost trees = self.spec_children();
        assert(trees =~= child_trees(self.children@));
        assert(out@ + trees_text(trees, 0) =~= out@);
        while i < n
            invariant
                i <= n,
                n == self.children@.len(),
                trees == child_trees(self.children@),
                out@ == old(out)@ + trees_text(trees, i as nat),
            decreases n - i,
        {
            proof {
                lemma_next_tree(trees, i as nat);
            }
            match &self.children[i] {
                GreenChild::Node(c) => {
                    c.write_text(out);
                },
                GreenChild::Token(t) => {
                    proof {
                        lemma_one_leaf(t@);
                    }
                    out.append(t.text());
                },
            }
            i += 1;
            assert(out@ =~= old(out)@ + trees_text(trees, i as nat));
        }
    }
}

impl GreenChild {
    /// The cached lengths of a subtree are those of the texts.
    pub open spec fn wf(self) -> bool {
        self matches GreenChild::Node(n) ==> n.wf()
    }

    /// The source text of this child.
    pub open spec fn source(self) -> Seq<char> {
        tree_text(self@)
    }

    /// Builds a token child from kind + text.
    #[must_use]
    pub fn token(kind: SyntaxKind, text: &str) -> (r: Self)
        ensures
            r is Token,
            r.wf(),
            r@ == Tree::Token(Leaf { kind, text: text@ }),
    {
        GreenChild::Token(Rc::new(GreenToken { kind, text: text.to_owned() }))
    }

    /// Byte length of this child's text.
    #[must_use]
    pub fn text_len(&self) -> (r: usize)
        requires
            self.wf(),
        ensures
            r == byte_len(self.source()),
    {
        match self {
            GreenChild::Node(n) => n.text_len(),
            GreenChild::Token(t) => {
                proof {
                    lemma_one_leaf(t@);
                }
                t.text_len()
            },
        }
    }

    /// Appends this child's source text to `out`.
    pub fn write_text(&self, out: &mut String)
        ensures
            final(out)@ == old(out)@ + self.source(),
    {
        match self {
            GreenChild::Node(n) => n.write_text(out),
            GreenChild::Token(t) => {
                proof {
                    lemma_one_leaf(t@);
                }
                out.append(t.text());
            },
        }
    }
}

impl Clone for GreenChild {
    fn clone(&self) -> (r: Self)
        ensures
            r == *self,
    {
        match self {
            GreenChild::Node(n) => GreenChild::Node(n.clone()),
            GreenChild::Token(t) => GreenChild::Token(t.clone()),
        }
    }
}

} // verus!
