//! Red tree: a cursor over the green tree providing absolute byte offsets.
//!
//! No parent pointers are stored (keeps the tree acyclic and `unsafe`-free);
//! navigation is downward, with offsets computed on traversal.
use crate::cst::green::{GreenChild, GreenNode, GreenToken, Tree};
use crate::cst::kind::SyntaxKind;
use std::rc::Rc;
use vstd::prelude::*;

verus! {

/// A node cursor: a green node plus its absolute start offset.
#[derive(Debug)]
pub struct SyntaxNode {
    green: Rc<GreenNode>,
    offset: usize,
}

/// A child element: a subtree node or a leaf token, each with its offset.
#[derive(Debug)]
pub enum SyntaxElement {
    /// A subtree.
    Node(SyntaxNode),
    /// A token: its green token + absolute start offset.
    Token(Rc<GreenToken>, usize),
}

/// The absolute offset of the `k`th child of a node that starts at `offset`.
pub open spec fn child_offset(offset: int, children: Seq<Tree>, k: nat) -> int {
    offset + crate::cst::green::byte_len(crate::cst::green::trees_text(children, k))
}

/// The positions of the subtrees among the first `k` children.
pub open spec fn node_positions(children: Seq<Tree>, k: nat) -> Seq<int>
    decreases k,
{
    if 0 < k <= children.len() {
        let rest = node_positions(children, (k - 1) as nat);
        if children[k - 1] is Node {
            rest.push(k - 1)
        } else {
            rest
        }
    } else {
        seq![]
    }
}

/// The positions of subtrees are positions, and subtrees stand there.
proof fn lemma_node_positions(children: Seq<Tree>, k: nat)
    requires
        k <= children.len(),
    ensures
        forall|i: int| #![trigger node_positions(children, k)[i]]
            0 <= i < node_positions(children, k).len() ==> 0 <= node_positions(children, k)[i] < k
                && children[node_positions(children, k)[i]] is Node,
    decreases k,
{
    if k > 0 {
        lemma_node_positions(children, (k - 1) as nat);
    }
}

impl SyntaxElement {
    /// The subtree or the leaf.
    pub open spec fn tree(self) -> Tree {
        match self {
            SyntaxElement::Node(n) => n.tree(),
            SyntaxElement::Token(t, _) => Tree::Token(t@),
        }
    }

    /// The absolute offset at which the element starts.
    pub open spec fn start(self) -> int {
        match self {
            SyntaxElement::Node(n) => n.start(),
            SyntaxElement::Token(_, off) => off as int,
        }
    }

    /// The element ends within the machine's range.
    pub open spec fn wf(self) -> bool {
        match self {
            SyntaxElement::Node(n) => n.wf(),
            SyntaxElement::Token(t, off) => off + crate::cst::green::byte_len(t@.text)
                <= usize::MAX,
        }
    }

    /// `(start, end)` absolute byte offsets.
    #[must_use]
    pub fn text_range(&self) -> (r: (usize, usize))
        requires
            self.wf(),
        ensures
            r.0 == self.start(),
            r.1 == self.start() + crate::cst::green::byte_len(
                crate::cst::green::tree_text(self.tree()),
            ),
    {
        match self {
            SyntaxElement::Node(n) => n.text_range(),
            SyntaxElement::Token(t, off) => {
                proof {
                    crate::cst::green::lemma_one_leaf(t@);
                }
                (*off, *off + t.text_len())
            },
        }
    }

    /// The element's kind.
    #[must_use]
    pub fn kind(&self) -> (r: SyntaxKind)
        ensures
            r == (match self.tree() {
                Tree::Node(kind, _) => kind,
                Tree::Token(leaf) => leaf.kind,
            }),
    {
        match self {
            SyntaxElement::Node(n) => {
                proof {
                    n.lemma_tree();
                }
                n.kind()
            },
            SyntaxElement::Token(t, _) => t.kind(),
        }
    }

    /// The element's source text.
    #[must_use]
    pub fn text(&self) -> (r: String)
        ensures
            r@ == crate::cst::green::tree_text(self.tree()),
    {
        match self {
            SyntaxElement::Node(n) => n.text(),
            SyntaxElement::Token(t, _) => {
                proof {
                    crate::cst::green::lemma_one_leaf(t@);
                }
                t.text().to_owned()
            },
        }
    }

    /// If this element is a node, returns it.
    #[must_use]
    pub fn as_node(&self) -> (r: Option<&SyntaxNode>)
        ensures
            r == (match *self {
                SyntaxElement::Node(n) => Some(&n),
                SyntaxElement::Token(_, _) => None,
            }),
    {
        match self {
            SyntaxElement::Node(n) => Some(n),
            SyntaxElement::Token(_, _) => None,
        }
    }
}

impl SyntaxNode {
    /// The tree under the cursor.
    pub closed spec fn tree(self) -> Tree {
        self.green@
    }

    /// The trees under this node.
    pub open spec fn spec_children(self) -> Seq<Tree> {
        self.tree()->Node_1
    }

    /// The absolute offset at which the node starts.
    pub closed spec fn start(self) -> int {
        self.offset as int
    }

    /// The green node is valid and ends within the machine's range.
    pub closed spec fn wf(self) -> bool {
        &&& self.green.wf()
        &&& self.start() + crate::cst::green::byte_len(crate::cst::green::tree_text(self.tree()))
            <= usize::MAX
    }

    /// What is under a cursor is a node, with the text of the trees below it.
    pub proof fn lemma_tree(&self)
        ensures
            self.tree() is Node,
            0 <= self.start(),
            crate::cst::green::tree_text(self.tree()) == crate::cst::green::trees_text(
                self.spec_children(),
                self.spec_children().len(),
            ),
    {
        self.green.lemma_node();
    }

    /// Wraps a green root at offset 0.
    #[must_use]
    pub fn new_root(green: Rc<GreenNode>) -> (r: Self)
        ensures
            r.tree() == green@,
            r.start() == 0,
            green.wf() ==> r.wf(),
    {
        proof {
            green.lemma_node();
        }
        SyntaxNode { green, offset: 0 }
    }

    /// The node kind.
    #[must_use]
    pub fn kind(&self) -> (r: SyntaxKind)
        ensures
            r == self.tree()->Node_0,
    {
        self.green.kind()
    }

    /// `(start, end)` absolute byte offsets.
    #[must_use]
    pub fn text_range(&self) -> (r: (usize, usize))
        requires
            self.wf(),
        ensures
            r.0 == self.start(),
            r.1 == self.start() + crate::cst::green::byte_len(
                crate::cst::green::tree_text(self.tree()),
            ),
    {
        (self.offset, self.offset + self.green.text_len())
    }

    /// This node's full source text.
    #[must_use]
    pub fn text(&self) -> (r: String)
        ensures
            r@ == crate::cst::green::tree_text(self.tree()),
    {
        let mut s = String::new();
        self.green.write_text(&mut s);
        assert(s@ =~= crate::cst::green::tree_text(self.tree()));
        s
    }

    /// The children (nodes and tokens) with computed absolute offsets.
    #[must_use]
    pub fn children_with_tokens(&self) -> (r: Vec<SyntaxElement>)
        requires
            self.wf(),
        ensures
            r@.len() == self.spec_children().len(),
            forall|i: int| #![trigger r@[i]]
                0 <= i < r@.len() ==> {
                    &&& r@[i].wf()
                    &&& r@[i].tree() == self.spec_children()[i]
                    &&& r@[i].start() == child_offset(self.start(), self.spec_children(), i as nat)
                },
    {
        let children = self.green.children();
        let ghost trees = self.spec_children();
        let mut out: Vec<SyntaxElement> = Vec::new();
        let mut cur: usize = self.offset;
        let mut i: usize = 0;
        while i < children.len()
            invariant
                i <= children@.len(),
                self.wf(),
                trees == self.spec_children(),
                trees == crate::cst::green::child_trees(children@),
                forall|i: int| 0 <= i < children@.len() ==> (#[trigger] children@[i]).wf(),
                out@.len() == i,
                cur == child_offset(self.start(), trees, i as nat),
                forall|k: int| #![trigger out@[k]]
                    0 <= k < i ==> {
                        &&& out@[k].wf()
                        &&& out@[k].tree() == trees[k]
                        &&& out@[k].start() == child_offset(self.start(), trees, k as nat)
                    },
            decreases children@.len() - i,
        {
            proof {
                self.lemma_tree();
                crate::cst::green::lemma_prefix_len(trees, (i + 1) as nat);
                crate::cst::green::lemma_next_tree(trees, i as nat);
                if let GreenChild::Token(t) = children@[i as int] {
                    crate::cst::green::lemma_one_leaf(t@);
                }
            }
            let start: usize = cur;
            cur = cur + children[i].text_len();
            match &children[i] {
                GreenChild::Node(n) => {
                    out.push(SyntaxElement::Node(SyntaxNode { green: n.clone(), offset: start }));
                },
                GreenChild::Token(t) => {
                    out.push(SyntaxElement::Token(t.clone(), start));
                },
            }
            i += 1;
        }
        out
    }

    /// Only the child nodes (skipping tokens).
    #[must_use]
    pub fn child_nodes(&self) -> (r: Vec<SyntaxNode>)
        requires
            self.wf(),
        ensures
            ({
                let at = node_positions(self.spec_children(), self.spec_children().len());
                &&& r@.len() == at.len()
                &&& forall|i: int| #![trigger r@[i]]
                    0 <= i < r@.len() ==> {
                        &&& r@[i].wf()
                        &&& r@[i].tree() == self.spec_children()[at[i]]
                        &&& r@[i].start() == child_offset(
                            self.start(),
                            self.spec_children(),
                            at[i] as nat,
                        )
                    }
            }),
    {
        let ghost trees = self.spec_children();
        let elements = self.children_with_tokens();
        let mut out: Vec<SyntaxNode> = Vec::new();
        let mut i: usize = 0;
        while i < elements.len()
            invariant
                i <= elements@.len(),
                elements@.len() == trees.len(),
                forall|k: int| #![trigger elements@[k]]
                    0 <= k < elements@.len() ==> {
                        &&& elements@[k].wf()
                        &&& elements@[k].tree() == trees[k]
                        &&& elements@[k].start() == child_offset(self.start(), trees, k as nat)
                    },
                out@.len() == node_positions(trees, i as nat).len(),
                forall|k: int| #![trigger out@[k]]
                    0 <= k < out@.len() ==> {
                        &&& out@[k].wf()
                        &&& out@[k].tree() == trees[node_positions(trees, i as nat)[k]]
                        &&& out@[k].start() == child_offset(
                            self.start(),
                            trees,
                            node_positions(trees, i as nat)[k] as nat,
                        )
                    },
            decreases elements@.len() - i,
        {
            let ghost e = elements@[i as int];
            if let SyntaxElement::Node(n) = &elements[i] {
                proof {
                    n.lemma_tree();
                }
                out.push(n.clone());
            }
            i += 1;
        }
        out
    }
}

impl Clone for SyntaxNode {
    fn clone(&self) -> (r: Self)
        ensures
            r == *self,
    {
        SyntaxNode { green: self.green.clone(), offset: self.offset }
    }
}

impl Clone for SyntaxElement {
    fn clone(&self) -> (r: Self)
        ensures
            r == *self,
    {
        match self {
            SyntaxElement::Node(n) => SyntaxElement::Node(n.clone()),
            SyntaxElement::Token(t, off) => SyntaxElement::Token(t.clone(), *off),
        }
    }
}

/// The children of a node tile it: the first starts where the node starts, each one
/// starts where the one before it ends, and the last ends where the node ends.
pub proof fn law_children_tile(node: SyntaxNode, k: nat)
    requires
        k < node.spec_children().len(),
    ensures
        child_offset(node.start(), node.spec_children(), 0) == node.start(),
        child_offset(node.start(), node.spec_children(), k + 1) == child_offset(
            node.start(),
            node.spec_children(),
            k,
        ) + crate::cst::green::byte_len(
            crate::cst::green::tree_text(node.spec_children()[k as int]),
        ),
        child_offset(node.start(), node.spec_children(), node.spec_children().len())
            == node.start() + crate::cst::green::byte_len(
            crate::cst::green::tree_text(node.tree()),
        ),
{
    node.lemma_tree();
    crate::cst::green::lemma_next_tree(node.spec_children(), k);
}

} // verus!
