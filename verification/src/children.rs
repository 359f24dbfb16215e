//! An iterator over the direct children of one node.

use vstd::prelude::*;
use crate::model::{chain_from, in_bounds, slot_wf};
use crate::facts::lemma_chain_last;
use crate::node::Node;
use crate::tree::Tree;

verus! {

/// Like [`crate::Siblings`], but bounded by the parent's `first`/`last`
/// pair, so it cannot run past the parent's own children into unrelated
/// structure.
pub struct Children<'a, T> {
    pub(crate) tree: &'a Tree<T>,
    pub(crate) cur: Option<usize>,
    pub(crate) until: Option<usize>,
}

impl<'a, T> Clone for Children<'a, T> {
    fn clone(&self) -> (r: Self)
        ensures
            r == *self,
    {
        Children { tree: self.tree, cur: self.cur, until: self.until }
    }
}

impl<'a, T> Copy for Children<'a, T> {}

impl<'a, T> Children<'a, T> {
    /// The tree being walked.
    pub closed spec fn host(self) -> Tree<T> {
        *self.tree
    }

    /// The cursor: the next slot to yield, if any.
    pub closed spec fn cursor(self) -> Option<usize> {
        self.cur
    }

    /// The bound: the last slot that will be yielded.
    pub closed spec fn bound(self) -> Option<usize> {
        self.until
    }

    /// The indices still to be yielded, in order.
    pub open spec fn remaining(self) -> Seq<int> {
        match self.cursor() {
            Some(c) => chain_from(self.host().arena(), c as int),
            None => Seq::empty(),
        }
    }

    /// Validity: the cursor's chain ends exactly at the bound.
    pub open spec fn wf(self) -> bool {
        &&& self.host().wf()
        &&& (self.cursor() matches Some(c) ==> (c as int) < self.host().arena().len()
                && (self.bound() matches Some(u) && self.remaining().len() > 0
                    && self.remaining().last() == u as int))
    }

    /// The children of `node`, in order; empty when it has none.
    pub(crate) fn new(node: &Node<'a, T>) -> (r: Self)
        requires
            node.wf(),
        ensures
            r.wf(),
            r.host() == node.host(),
            r.remaining() == crate::model::children_chain(node.host().arena(), node.idx()),
    {
        proof {
            crate::node::lemma_node_parts(*node);
            crate::tree::lemma_tree_parts(node.tree);
            let s = node.tree.links@;
            assert(slot_wf(s, node.index as int));
            match s[node.index as int].first {
                Some(f) => {
                    assert(slot_wf(s, f as int));
                    lemma_chain_last(s, node.index as int, f as int);
                },
                None => {},
            }
        }
        let first = self_first(node);
        let until = self_last(node);
        Children { tree: node.tree, cur: first, until }
    }

    /// Yield the current node and advance, stopping after the bound.
    pub fn next(&mut self) -> (r: Option<Node<'a, T>>)
        requires
            old(self).wf(),
        ensures
            final(self).wf(),
            final(self).host() == old(self).host(),
            old(self).remaining().len() == 0 ==> r is None
                && final(self).remaining() == old(self).remaining(),
            old(self).remaining().len() > 0 ==> (match r {
                Some(m) => m.host() == old(self).host() && m.wf()
                    && m.idx() == old(self).remaining()[0]
                    && final(self).remaining() == old(self).remaining().drop_first(),
                None => false,
            }),
    {
        match (self.cur, self.until) {
            (Some(c), Some(u)) => {
                proof {
                    crate::tree::lemma_tree_parts(self.tree);
                    let s = self.tree.links@;
                    assert(slot_wf(s, c as int));
                    match s[c as int].next {
                        Some(j) => {
                            assert(slot_wf(s, j as int));
                            assert(chain_from(s, c as int)
                                == seq![c as int] + chain_from(s, j as int));
                            assert((seq![c as int] + chain_from(s, j as int)).drop_first()
                                =~= chain_from(s, j as int));
                            if c == u {
                                assert(chain_from(s, c as int).last()
                                    == chain_from(s, j as int).last());
                                assert(chain_from(s, j as int).len() > 0);
                                assert(chain_from(s, j as int)[0] == j as int);
                            } else {
                                assert(chain_from(s, j as int).last()
                                    == chain_from(s, c as int).last());
                            }
                        },
                        None => {
                            assert(chain_from(s, c as int) == seq![c as int]);
                            assert(seq![c as int].drop_first() =~= Seq::<int>::empty());
                            assert(chain_from(s, c as int).last() == c as int);
                        },
                    }
                }
                let node = Node::new(self.tree, c);
                if c == u {
                    self.cur = None;
                    proof {
                        // the bound is the chain's last element, so the
                        // chain held exactly this one slot
                        let s = self.tree.links@;
                        assert(c as int == chain_from(s, c as int).last());
                        match s[c as int].next {
                            Some(j) => {
                                assert(chain_from(s, j as int).last() == c as int);
                                assert(chain_from(s, j as int)[0] == j as int);
                                lemma_chain_le(s, j as int);
                                assert(false);
                            },
                            None => {},
                        }
                    }
                } else {
                    self.cur = self.tree.links[c].next;
                }
                Some(node)
            },
            _ => None,
        }
    }
}

/// Read `first` of a node as a plain optional index.
fn self_first<'a, T>(node: &Node<'a, T>) -> (r: Option<usize>)
    requires
        node.wf(),
    ensures
        r == node.rec().first,
{
    proof {
        crate::tree::lemma_tree_parts(node.tree);
        crate::node::lemma_node_parts(*node);
    }
    node.tree.links[node.index].first
}

/// Read `last` of a node as a plain optional index.
fn self_last<'a, T>(node: &Node<'a, T>) -> (r: Option<usize>)
    requires
        node.wf(),
    ensures
        r == node.rec().last,
{
    proof {
        crate::tree::lemma_tree_parts(node.tree);
        crate::node::lemma_node_parts(*node);
    }
    node.tree.links[node.index].last
}

/// Every element of a chain is at least its head.
proof fn lemma_chain_le(s: Seq<crate::links::Links>, c: int)
    requires
        in_bounds(s, c),
    ensures
        forall|k: int| 0 <= k < chain_from(s, c).len() ==> c <= #[trigger] chain_from(s, c)[k],
    decreases s.len() - c,
{
    match s[c].next {
        Some(j) => {
            if c < j as int && (j as int) < s.len() {
                lemma_chain_le(s, j as int);
                assert forall|k: int| 0 <= k < chain_from(s, c).len()
                    implies c <= chain_from(s, c)[k] by {
                    if k > 0 {
                        assert(chain_from(s, c)[k] == chain_from(s, j as int)[k - 1]);
                    }
                }
            }
        },
        None => {},
    }
}

} // verus!
