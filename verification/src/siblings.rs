//! An iterator over a node and the siblings after it.

use vstd::prelude::*;
use crate::links::Kind;
use crate::model::{chain_from, in_bounds, interior_of, slot_wf};
use crate::node::Node;
use crate::skip_tokens::SkipTokens;
use crate::tree::Tree;

verus! {

/// Follows `next` from a starting slot, running to the end of whatever
/// chain it started on.  An explicitly empty instance composes with absent
/// lookups.
pub struct Siblings<'a, T> {
    pub(crate) tree: &'a Tree<T>,
    pub(crate) cur: Option<usize>,
}

impl<'a, T> Clone for Siblings<'a, T> {
    fn clone(&self) -> (r: Self)
        ensures
            r == *self,
    {
        Siblings { tree: self.tree, cur: self.cur }
    }
}

impl<'a, T> Copy for Siblings<'a, T> {}

impl<'a, T> Siblings<'a, T> {
    /// The tree being walked.
    pub closed spec fn host(self) -> Tree<T> {
        *self.tree
    }

    /// The cursor: the next slot to yield, if any.
    pub closed spec fn cursor(self) -> Option<usize> {
        self.cur
    }

    /// The indices still to be yielded, in order.
    pub open spec fn remaining(self) -> Seq<int> {
        match self.cursor() {
            Some(c) => chain_from(self.host().arena(), c as int),
            None => Seq::empty(),
        }
    }

    /// Validity: the tree is well formed and the cursor in bounds.
    pub open spec fn wf(self) -> bool {
        &&& self.host().wf()
        &&& (self.cursor() matches Some(c) ==> (c as int) < self.host().arena().len())
    }

    /// Start at `node` itself.
    pub(crate) fn new(node: &Node<'a, T>) -> (r: Self)
        requires
            node.wf(),
        ensures
            r.wf(),
            r.host() == node.host(),
            r.remaining() == chain_from(node.host().arena(), node.idx()),
    {
        proof {
            crate::node::lemma_node_parts(*node);
        }
        Siblings { tree: node.tree, cur: Some(node.index) }
    }

    /// An iterator over `tree` that yields nothing: the explicit empty
    /// instance for composing with absent lookups.
    pub fn empty(tree: &'a Tree<T>) -> (r: Self)
        requires
            tree.wf(),
        ensures
            r.wf(),
            r.host() == *tree,
            r.remaining() == Seq::<int>::empty(),
    {
        Siblings { tree, cur: None }
    }

    /// Yield the current node and move the cursor to its next sibling.
    pub fn next(&mut self) -> (r: Option<Node<'a, T>>)
        requires
            old(self).wf(),
        ensures
            final(self).wf(),
            final(self).host() == old(self).host(),
            old(self).remaining().len() == 0 ==> r is None
                && final(self).remaining() == old(self).remaining(),
            old(self).remaining().len() > 0 ==> (match r {
                Some(m) => m.host() == old(self).host() && m.wf()
                    && m.idx() == old(self).remaining()[0]
                    && final(self).remaining() == old(self).remaining().drop_first(),
                None => false,
            }),
    {
        match self.cur {
            None => None,
            Some(c) => {
                proof {
                    crate::tree::lemma_tree_parts(self.tree);
                    let s = self.tree.links@;
                    assert(slot_wf(s, c as int));
                    match s[c as int].next {
                        Some(j) => {
                            assert(slot_wf(s, j as int));
                            assert(chain_from(s, c as int)
                                == seq![c as int] + chain_from(s, j as int));
                            assert((seq![c as int] + chain_from(s, j as int)).drop_first()
                                =~= chain_from(s, j as int));
                        },
                        None => {
                            assert(chain_from(s, c as int) == seq![c as int]);
                            assert(seq![c as int].drop_first() =~= Seq::<int>::empty());
                        },
                    }
                }
                let node = Node::new(self.tree, c);
                self.cur = self.tree.links[c].next;
                Some(node)
            },
        }
    }

    /// Adapt the remainder of this iterator so that it yields interior
    /// nodes only.
    pub fn skip_tokens(self) -> (r: SkipTokens<'a, T>)
        requires
            self.wf(),
        ensures
            r.wf(),
            r.host() == self.host(),
            r.remaining() == interior_of(self.host().arena(), self.remaining()),
    {
        SkipTokens::new(self)
    }

    /// Advance past tokens: yield the next interior node, if any remains,
    /// consuming everything up to and including it.
    pub fn next_node(&mut self) -> (r: Option<Node<'a, T>>)
        requires
            old(self).wf(),
        ensures
            final(self).wf(),
            final(self).host() == old(self).host(),
            ({
                let f = interior_of(old(self).host().arena(), old(self).remaining());
                &&& (f.len() == 0 ==> r is None
                    && final(self).remaining() == Seq::<int>::empty())
                &&& (f.len() > 0 ==> (match r {
                    Some(m) => m.host() == old(self).host() && m.wf() && m.idx() == f[0]
                        && interior_of(final(self).host().arena(), final(self).remaining())
                            == f.drop_first(),
                    None => false,
                }))
            }),
    {
        loop
            invariant
                self.wf(),
                self.host() == old(self).host(),
                interior_of(self.host().arena(), self.remaining())
                    == interior_of(old(self).host().arena(), old(self).remaining()),
            decreases self.remaining().len(),
        {
            let ghost pre = *self;
            let n = self.next();
            proof {
                let s = self.host().arena();
                if pre.remaining().len() > 0 {
                    assert(pre.remaining()[0] == pre.remaining().first());
                    assert(interior_of(s, pre.remaining()).len() >= 0);
                }
            }
            match n {
                None => {
                    return None;
                },
                Some(m) => {
                    proof {
                        let s = self.host().arena();
                        let rem = pre.remaining();
                        assert(rem.len() > 0);
                        assert(in_bounds(s, rem[0]));
                        if s[rem[0]].kind == Kind::Node {
                            assert(interior_of(s, rem)
                                == seq![rem[0]] + interior_of(s, rem.drop_first()));
                            assert((seq![rem[0]] + interior_of(s, rem.drop_first()))
                                .drop_first() =~= interior_of(s, rem.drop_first()));
                        } else {
                            assert(interior_of(s, rem) == interior_of(s, rem.drop_first()));
                        }
                    }
                    if matches!(m.kind(), Kind::Node) {
                        return Some(m);
                    }
                },
            }
        }
    }
}

} // verus!
