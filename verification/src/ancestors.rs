//! An iterator over a node and its chain of ancestors.

use vstd::prelude::*;
use crate::model::{ancestor_chain, slot_wf};
use crate::node::Node;
use crate::tree::Tree;

verus! {

/// Yields the starting node itself and then each `parent` in turn, ending
/// at a root; its length is the starting node's depth plus one.
pub struct Ancestors<'a, T> {
    pub(crate) tree: &'a Tree<T>,
    pub(crate) cur: Option<usize>,
}

impl<'a, T> Clone for Ancestors<'a, T> {
    fn clone(&self) -> (r: Self)
        ensures
            r == *self,
    {
        Ancestors { tree: self.tree, cur: self.cur }
    }
}

impl<'a, T> Copy for Ancestors<'a, T> {}

impl<'a, T> Ancestors<'a, T> {
    /// The tree being walked.
    pub closed spec fn host(self) -> Tree<T> {
        *self.tree
    }

    /// The cursor: the next slot to yield, if any.
    pub closed spec fn cursor(self) -> Option<usize> {
        self.cur
    }

    /// The indices still to be yielded, in order.
    pub open spec fn remaining(self) -> Seq<int> {
        match self.cursor() {
            Some(c) => ancestor_chain(self.host().arena(), c as int),
            None => Seq::empty(),
        }
    }

    /// Validity: the tree is well formed and the cursor in bounds.
    pub open spec fn wf(self) -> bool {
        &&& self.host().wf()
        &&& (self.cursor() matches Some(c) ==> (c as int) < self.host().arena().len())
    }

    /// Start at `node` itself.
    pub(crate) fn new(node: &Node<'a, T>) -> (r: Self)
        requires
            node.wf(),
        ensures
            r.wf(),
            r.host() == node.host(),
            r.remaining() == ancestor_chain(node.host().arena(), node.idx()),
    {
        proof {
            crate::node::lemma_node_parts(*node);
        }
        Ancestors { tree: node.tree, cur: Some(node.index) }
    }

    /// Yield the current node and move the cursor to its parent.
    pub fn next(&mut self) -> (r: Option<Node<'a, T>>)
        requires
            old(self).wf(),
        ensures
            final(self).wf(),
            final(self).host() == old(self).host(),
            old(self).remaining().len() == 0 ==> r is None
                && final(self).remaining() == old(self).remaining(),
            old(self).remaining().len() > 0 ==> (match r {
                Some(m) => m.host() == old(self).host() && m.wf()
                    && m.idx() == old(self).remaining()[0]
                    && final(self).remaining() == old(self).remaining().drop_first(),
                None => false,
            }),
    {
        match self.cur {
            None => None,
            Some(c) => {
                proof {
                    crate::tree::lemma_tree_parts(self.tree);
                    let s = self.tree.links@;
                    assert(slot_wf(s, c as int));
                    match s[c as int].parent {
                        Some(p) => {
                            assert(ancestor_chain(s, c as int)
                                == seq![c as int] + ancestor_chain(s, p as int));
                            assert((seq![c as int] + ancestor_chain(s, p as int)).drop_first()
                                =~= ancestor_chain(s, p as int));
                        },
                        None => {
                            assert(ancestor_chain(s, c as int) == seq![c as int]);
                            assert(seq![c as int].drop_first() =~= Seq::<int>::empty());
                        },
                    }
                }
                let node = Node::new(self.tree, c);
                self.cur = self.tree.links[c].parent;
                Some(node)
            },
        }
    }
}

} // verus!
