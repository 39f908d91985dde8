//! Builds a green tree via `start_node`/`token`/`finish_node`.
use crate::cst::green::{GreenChild, GreenNode, Leaf, Tree};
use crate::cst::kind::SyntaxKind;
use std::rc::Rc;
use vstd::prelude::*;

verus! {

/// A node under construction: its kind and the children it has so far.
type Open = (SyntaxKind, Vec<GreenChild>);

/// Incrementally builds a [`GreenNode`] tree.
pub struct GreenNodeBuilder {
    stack: Vec<Open>,
    root: Option<Rc<GreenNode>>,
}

/// The text length of some trees fits the machine.
pub open spec fn fits(trees: Seq<Tree>) -> bool {
    crate::cst::green::byte_len(crate::cst::green::trees_text(trees, trees.len())) <= usize::MAX
}

/// Some open nodes, with one more tree under the innermost.
pub open spec fn with_child(opened: Seq<(SyntaxKind, Seq<Tree>)>, t: Tree) -> Seq<
    (SyntaxKind, Seq<Tree>),
> {
    opened.drop_last().push((opened.last().0, opened.last().1.push(t)))
}

impl GreenNodeBuilder {
    /// The open nodes, outermost first: each one's kind and the trees it has so far.
    pub closed spec fn open_nodes(self) -> Seq<(SyntaxKind, Seq<Tree>)> {
        Seq::new(
            self.stack@.len(),
            |i: int| (self.stack@[i].0, crate::cst::green::child_trees(self.stack@[i].1@)),
        )
    }

    /// The last node that was closed with no other open.
    pub closed spec fn done(self) -> Option<Tree> {
        match self.root {
            Some(n) => Some(n@),
            None => None,
        }
    }

    /// Every subtree held is valid.
    pub closed spec fn wf(self) -> bool {
        &&& forall|i: int, j: int|
            #![trigger self.stack@[i].1@[j]]
            0 <= i < self.stack@.len() && 0 <= j < self.stack@[i].1@.len()
                ==> self.stack@[i].1@[j].wf()
        &&& self.root matches Some(n) ==> n.wf()
    }

    /// Creates an empty builder.
    #[must_use]
    pub fn new() -> (r: Self)
        ensures
            r.wf(),
            r.open_nodes() == Seq::<(SyntaxKind, Seq<Tree>)>::empty(),
            r.done() is None,
    {
        let r = GreenNodeBuilder { stack: Vec::new(), root: None };
        assert(r.open_nodes() =~= Seq::<(SyntaxKind, Seq<Tree>)>::empty());
        r
    }

    /// Opens a new node; subsequent tokens/nodes attach to it until `finish_node`.
    pub fn start_node(&mut self, kind: SyntaxKind)
        requires
            old(self).wf(),
        ensures
            final(self).wf(),
            final(self).open_nodes() == old(self).open_nodes().push((kind, Seq::<Tree>::empty())),
            final(self).done() == old(self).done(),
    {
        self.stack.push((kind, Vec::new()));
        proof {
            let opened = old(self).open_nodes().push((kind, Seq::<Tree>::empty()));
            assert(self.open_nodes().last().1 =~= opened.last().1);
            assert(self.open_nodes() =~= opened);
        }
    }

    /// Appends a child to the innermost open node.
    fn attach(&mut self, child: GreenChild)
        requires
            old(self).wf(),
            old(self).open_nodes().len() > 0,
            child.wf(),
        ensures
            final(self).wf(),
            final(self).open_nodes() == with_child(old(self).open_nodes(), child@),
            final(self).done() == old(self).done(),
    {
        match self.stack.pop() {
            Some(mut top) => {
                let ghost before = top.1@;
                let ghost opened = old(self).open_nodes();
                assert(opened.last() == (top.0, crate::cst::green::child_trees(before)));
                proof {
                    let last = old(self).stack@.len() - 1;
                    assert forall|j: int| 0 <= j < before.len() implies (
                    #[trigger] before[j]).wf() by {
                        assert(old(self).stack@[last].1@[j].wf());
                    }
                }
                top.1.push(child);
                assert(crate::cst::green::child_trees(top.1@)
                    =~= crate::cst::green::child_trees(before).push(child@));
                self.stack.push(top);
                assert(self.open_nodes() =~= with_child(opened, child@));
                proof {
                    assert forall|i: int, j: int|
                        #![trigger self.stack@[i].1@[j]]
                        0 <= i < self.stack@.len() && 0 <= j
                            < self.stack@[i].1@.len() implies self.stack@[i].1@[j].wf() by {
                        if i < self.stack@.len() - 1 {
                            assert(old(self).stack@[i].1@[j].wf());
                        }
                    }
                }
            },
            None => {},
        }
    }

    /// Adds a leaf token to the currently open node.
    pub fn token(&mut self, kind: SyntaxKind, text: &str)
        requires
            old(self).wf(),
            old(self).open_nodes().len() > 0,
        ensures
            final(self).wf(),
            final(self).done() == old(self).done(),
            final(self).open_nodes() == with_child(
                old(self).open_nodes(),
                Tree::Token(Leaf { kind, text: text@ }),
            ),
    {
        self.attach(GreenChild::token(kind, text));
    }

    /// Closes the current node, attaching it to its parent, or recording it as the root.
    pub fn finish_node(&mut self)
        requires
            old(self).wf(),
            old(self).open_nodes().len() > 0,
            fits(old(self).open_nodes().last().1),
        ensures
            final(self).wf(),
            ({
                let opened = old(self).open_nodes();
                let node = Tree::Node(opened.last().0, opened.last().1);
                if opened.len() == 1 {
                    &&& final(self).open_nodes() == opened.drop_last()
                    &&& final(self).done() == Some(node)
                } else {
                    &&& final(self).open_nodes() == with_child(opened.drop_last(), node)
                    &&& final(self).done() == old(self).done()
                }
            }),
    {
        match self.stack.pop() {
            Some((kind, children)) => {
                let ghost opened = old(self).open_nodes();
                proof {
                    assert(opened.last() == (kind, crate::cst::green::child_trees(children@)));
                    assert(self.open_nodes() =~= opened.drop_last());
                    let last = old(self).stack@.len() - 1;
                    assert forall|j: int| 0 <= j < children@.len() implies (
                    #[trigger] children@[j]).wf() by {
                        assert(old(self).stack@[last].1@[j].wf());
                    }
                    assert forall|i: int, j: int|
                        #![trigger self.stack@[i].1@[j]]
                        0 <= i < self.stack@.len() && 0 <= j
                            < self.stack@[i].1@.len() implies self.stack@[i].1@[j].wf() by {
                        assert(old(self).stack@[i].1@[j].wf());
                    }
                }
                let node = GreenNode::new(kind, children);
                if self.stack.len() == 0 {
                    self.root = Some(node);
                    assert(self.open_nodes() =~= opened.drop_last());
                } else {
                    self.attach(GreenChild::Node(node));
                }
            },
            None => {},
        }
    }

    /// Finishes building and returns the root node; every node has been closed.
    #[must_use]
    pub fn finish(self) -> (r: Rc<GreenNode>)
        requires
            self.wf(),
            self.open_nodes().len() == 0,
            self.done() is Some,
        ensures
            Some(r@) == self.done(),
            r.wf(),
    {
        self.root.unwrap()
    }
}

impl Default for GreenNodeBuilder {
    fn default() -> (r: Self)
        ensures
            r.wf(),
            r.open_nodes() == Seq::<(SyntaxKind, Seq<Tree>)>::empty(),
            r.done() is None,
    {
        GreenNodeBuilder::new()
    }
}

} // verus!
