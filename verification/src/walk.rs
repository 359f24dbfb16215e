//! Pre-order depth-first traversal of a subtree or of the whole forest.
//!
//! Because the arena stores slots in document order, a pre-order walk
//! visits consecutive arena indices: the traversal state is one cursor and
//! the walk's scope boundary, and the step rule — first child, else next
//! sibling, else ascend — always lands on the next index or ends the walk.

use vstd::prelude::*;
use crate::model::{depth, in_bounds, is_anc_or_self, range_seq, scope, slot_wf};
use crate::facts::{
    lemma_anc_depth, lemma_anc_scope, lemma_depth_le_index, lemma_desc_in_range,
    lemma_scope_bounds,
};
use crate::node::Node;
use crate::tree::Tree;

verus! {

/// A pre-order walk below a starting node (or over the whole forest),
/// tracking the depth of the cursor as it goes.
pub struct Walk<'a, T> {
    pub(crate) tree: &'a Tree<T>,
    pub(crate) cur: Option<usize>,
    pub(crate) boundary: Option<usize>,
    pub(crate) depth: usize,
}

impl<'a, T> Clone for Walk<'a, T> {
    fn clone(&self) -> (r: Self)
        ensures
            r == *self,
    {
        Walk { tree: self.tree, cur: self.cur, boundary: self.boundary, depth: self.depth }
    }
}

impl<'a, T> Copy for Walk<'a, T> {}

impl<'a, T> Walk<'a, T> {
    /// The tree being walked.
    pub closed spec fn host(self) -> Tree<T> {
        *self.tree
    }

    /// The cursor: the next slot to visit, if any.
    pub closed spec fn cursor(self) -> Option<usize> {
        self.cur
    }

    /// The node whose subtree bounds the walk; the whole forest when
    /// absent.
    pub closed spec fn bound(self) -> Option<usize> {
        self.boundary
    }

    /// The index just past the walk's scope.
    pub open spec fn walk_end(self) -> int {
        match self.bound() {
            Some(b) => scope(self.host().arena(), b as int),
            None => self.host().arena().len() as int,
        }
    }

    /// The depth the walk reports as zero: just below the boundary node,
    /// or the root level.
    pub open spec fn base(self) -> nat {
        match self.bound() {
            Some(b) => depth(self.host().arena(), b as int) + 1,
            None => 0,
        }
    }

    /// The indices still to be visited, in document order.
    pub open spec fn remaining(self) -> Seq<int> {
        match self.cursor() {
            Some(c) => range_seq(c as int, self.walk_end()),
            None => Seq::empty(),
        }
    }

    /// Validity: the cursor lies strictly inside the boundary's subtree
    /// and the tracked depth is the cursor's depth above the base.
    pub open spec fn wf(self) -> bool {
        &&& self.host().wf()
        &&& (self.bound() matches Some(b) ==> (b as int) < self.host().arena().len())
        &&& (self.cursor() matches Some(c) ==> (c as int) < self.host().arena().len()
                && (self.bound() matches Some(b)
                        ==> is_anc_or_self(self.host().arena(), b as int, c as int)
                            && b != c)
                && self.depth_field() + self.base() == depth(self.host().arena(), c as int))
    }

    /// The tracked depth counter.
    pub closed spec fn depth_field(self) -> nat {
        self.depth as nat
    }

    /// Walk the whole forest of `tree` in document order.
    pub(crate) fn of_tree(tree: &'a Tree<T>) -> (r: Self)
        requires
            tree.wf(),
        ensures
            r.wf(),
            r.host() == *tree,
            r.bound() is None,
            r.remaining() == range_seq(0, tree.arena().len() as int),
    {
        proof {
            crate::tree::lemma_tree_parts(tree);
            let s = tree.links@;
            if s.len() > 0 {
                assert(slot_wf(s, 0));
                assert(s[0].parent is None);
            } else {
                assert(range_seq(0, 0) =~= Seq::<int>::empty());
            }
        }
        let first = tree.root_first;
        proof {
            let s = tree.links@;
            match first {
                Some(f) => {
                    assert(f as int == 0) by {
                        assert(in_bounds(s, f as int));
                        assert(slot_wf(s, f as int));
                        if f as int > 0 {
                            assert(s[0].parent is None && s[0].prev is None);
                            assert(tree.root_first == Some(0usize));
                        }
                    }
                    assert(depth(s, 0) == 0);
                },
                None => {
                    assert(s.len() == 0);
                },
            }
        }
        Walk { tree, cur: first, boundary: None, depth: 0 }
    }

    /// Walk the subtree below `node`, starting at its first child.
    pub(crate) fn of_node(node: &Node<'a, T>) -> (r: Self)
        requires
            node.wf(),
        ensures
            r.wf(),
            r.host() == node.host(),
            r.bound() == Some(node.index),
            r.remaining() == range_seq(
                node.idx() + 1,
                scope(node.host().arena(), node.idx()),
            ),
    {
        proof {
            crate::node::lemma_node_parts(*node);
            crate::tree::lemma_tree_parts(node.tree);
            let s = node.tree.links@;
            let i = node.index as int;
            assert(slot_wf(s, i));
            match s[i].first {
                Some(f) => {
                    assert(f as int == i + 1);
                    assert(is_anc_or_self(s, i, i));
                    assert(is_anc_or_self(s, i, f as int));
                    assert(depth(s, f as int) == depth(s, i) + 1);
                },
                None => {
                    assert(scope(s, i) == i + 1);
                    assert(range_seq(i + 1, i + 1) =~= Seq::<int>::empty());
                },
            }
        }
        let first = walk_first(node);
        Walk { tree: node.tree, cur: first, boundary: Some(node.index), depth: 0 }
    }

    /// Pair the walk with the depth of each visited node.
    pub fn with_depths(self) -> (r: WithDepths<'a, T>)
        requires
            self.wf(),
        ensures
            r.wf(),
            r.walk() == self,
    {
        WithDepths { inner: self }
    }

    /// Visit the cursor and step: first child, else next sibling, else
    /// ascend until a next sibling is found or the scope is exhausted.
    pub fn next(&mut self) -> (r: Option<Node<'a, T>>)
        requires
            old(self).wf(),
        ensures
            final(self).wf(),
            final(self).host() == old(self).host(),
            final(self).bound() == old(self).bound(),
            old(self).remaining().len() == 0 ==> r is None
                && final(self).remaining() == old(self).remaining(),
            old(self).remaining().len() > 0 ==> (match r {
                Some(m) => m.host() == old(self).host() && m.wf()
                    && m.idx() == old(self).remaining()[0]
                    && depth(old(self).host().arena(), m.idx())
                        == old(self).depth_field() + old(self).base()
                    && final(self).remaining() == old(self).remaining().drop_first(),
                None => false,
            }),
    {
        match self.next_with_depth() {
            Some((_, n)) => Some(n),
            None => None,
        }
    }

    /// Like [`Walk::next`], also reporting the visited node's depth
    /// relative to the walk's base.
    pub fn next_with_depth(&mut self) -> (r: Option<(usize, Node<'a, T>)>)
        requires
            old(self).wf(),
        ensures
            final(self).wf(),
            final(self).host() == old(self).host(),
            final(self).bound() == old(self).bound(),
            old(self).remaining().len() == 0 ==> r is None
                && final(self).remaining() == old(self).remaining(),
            old(self).remaining().len() > 0 ==> (match r {
                Some((d, m)) => m.host() == old(self).host() && m.wf()
                    && m.idx() == old(self).remaining()[0]
                    && d == old(self).depth_field()
                    && d + old(self).base() == depth(old(self).host().arena(), m.idx())
                    && final(self).remaining() == old(self).remaining().drop_first(),
                None => false,
            }),
    {
        let c = match self.cur {
            None => {
                return None;
            },
            Some(c) => c,
        };
        proof {
            crate::tree::lemma_tree_parts(self.tree);
            let s = self.tree.links@;
            assert(slot_wf(s, c as int));
            lemma_scope_bounds(s, c as int);
            match self.boundary {
                Some(b) => {
                    lemma_desc_in_range(s, b as int, c as int);
                },
                None => {},
            }
            assert(self.remaining()[0] == c as int);
            assert(range_seq(c as int, self.walk_end()).drop_first()
                =~= range_seq(c as int + 1, self.walk_end()));
        }
        let node = Node::new(self.tree, c);
        let d = self.depth;
        let ghost pre = *self;
        match self.tree.links[c].first {
            Some(f) => {
                proof {
                    let s = self.tree.links@;
                    assert(f as int == c as int + 1);
                    assert(depth(s, f as int) == depth(s, c as int) + 1);
                    lemma_depth_le_index(s, c as int);
                    assert(self.depth as int + 1 <= f as int);
                    match self.boundary {
                        Some(b) => {
                            assert(is_anc_or_self(s, b as int, f as int));
                            lemma_desc_in_range(s, b as int, f as int);
                            assert(f != b) by {
                                lemma_anc_scope(s, b as int, c as int);
                            }
                        },
                        None => {},
                    }
                }
                self.cur = Some(f);
                self.depth = self.depth + 1;
            },
            None => {
                proof {
                    let s = self.tree.links@;
                    assert(scope(s, c as int) == c as int + 1);
                }
                let mut a = c;
                loop
                    invariant
                        self.host() == pre.host(),
                        self.bound() == pre.bound(),
                        self.host().wf(),
                        (a as int) < self.host().arena().len(),
                        is_anc_or_self(self.host().arena(), a as int, c as int),
                        scope(self.host().arena(), a as int) == c as int + 1,
                        (self.bound() matches Some(b)
                            ==> is_anc_or_self(self.host().arena(), b as int, a as int)
                                && b != a),
                        self.depth_field() + self.base()
                            == depth(self.host().arena(), a as int),
                        self.walk_end() == pre.walk_end(),
                    ensures
                        self.host() == pre.host(),
                        self.bound() == pre.bound(),
                        self.host().wf(),
                        self.walk_end() == pre.walk_end(),
                        (self.cursor() matches Some(nc) ==> nc as int == c as int + 1
                            && (c as int + 1) < self.walk_end()
                            && self.depth_field() + self.base()
                                == depth(self.host().arena(), nc as int)
                            && (self.bound() matches Some(b)
                                ==> is_anc_or_self(self.host().arena(), b as int, nc as int)
                                    && b != nc)),
                        (self.cursor() is None ==> c as int + 1 >= self.walk_end()),
                    decreases a,
                {
                    proof {
                        crate::tree::lemma_tree_parts(self.tree);
                        let s = self.tree.links@;
                        assert(slot_wf(s, a as int));
                    }
                    match self.tree.links[a].next {
                        Some(j) => {
                            proof {
                                let s = self.tree.links@;
                                assert(scope(s, a as int) == j as int);
                                assert(j as int == c as int + 1);
                                assert(depth(s, j as int) == depth(s, a as int)) by {
                                    assert(s[j as int].parent == s[a as int].parent);
                                    assert(slot_wf(s, j as int));
                                }
                                match self.boundary {
                                    Some(b) => {
                                        assert(is_anc_or_self(s, b as int, j as int)) by {
                                            assert(s[j as int].parent == s[a as int].parent);
                                            let p = s[a as int].parent.unwrap();
                                            assert(is_anc_or_self(s, b as int, p as int));
                                        }
                                        assert(j != b) by {
                                            lemma_anc_scope(s, b as int, a as int);
                                            lemma_scope_bounds(s, b as int);
                                        }
                                        lemma_desc_in_range(s, b as int, j as int);
                                    },
                                    None => {},
                                }
                            }
                            self.cur = Some(j);
                            break;
                        },
                        None => {
                            let pnt = self.tree.links[a].parent;
                            let at_bound: bool = match (pnt, self.boundary) {
                                (None, _) => true,
                                (Some(p), Some(b)) => p == b,
                                (Some(_), None) => false,
                            };
                            if at_bound {
                                proof {
                                    let s = self.tree.links@;
                                    match self.boundary {
                                        Some(b) => {
                                            assert(s[a as int].parent == Some(b));
                                            assert(scope(s, a as int) == scope(s, b as int));
                                        },
                                        None => {
                                            assert(s[a as int].parent is None);
                                            assert(scope(s, a as int) == s.len());
                                        },
                                    }
                                }
                                self.cur = None;
                                break;
                            } else {
                                let p = match pnt {
                                    Some(p) => p,
                                    None => a,
                                };
                                proof {
                                    let s = self.tree.links@;
                                    assert(pnt is Some);
                                    assert(depth(s, a as int) == depth(s, p as int) + 1);
                                    assert(scope(s, a as int) == scope(s, p as int));
                                    assert(is_anc_or_self(s, p as int, p as int));
                                    assert(is_anc_or_self(s, p as int, a as int));
                                    crate::facts::lemma_anc_trans(s, p as int, a as int, c as int);
                                    match self.boundary {
                                        Some(b) => {
                                            assert(is_anc_or_self(s, b as int, p as int));
                                            lemma_anc_depth(s, b as int, p as int);
                                        },
                                        None => {},
                                    }
                                    assert(self.depth >= 1);
                                }
                                self.depth = self.depth - 1;
                                a = p;
                            }
                        },
                    }
                }
            },
        }
        proof {
            let s = self.tree.links@;
            assert(range_seq(c as int, pre.walk_end()).drop_first()
                =~= range_seq(c as int + 1, pre.walk_end()));
        }
        Some((d, node))
    }
}

/// Read the first child of a node as a plain optional index.
fn walk_first<'a, T>(node: &Node<'a, T>) -> (r: Option<usize>)
    requires
        node.wf(),
    ensures
        r == node.rec().first,
{
    proof {
        crate::tree::lemma_tree_parts(node.tree);
        crate::node::lemma_node_parts(*node);
    }
    node.tree.links[node.index].first
}

/// A pre-order walk that also yields each node's depth, so that a consumer
/// can indent without re-deriving it.
pub struct WithDepths<'a, T> {
    pub(crate) inner: Walk<'a, T>,
}

impl<'a, T> Clone for WithDepths<'a, T> {
    fn clone(&self) -> (r: Self)
        ensures
            r == *self,
    {
        WithDepths { inner: self.inner }
    }
}

impl<'a, T> Copy for WithDepths<'a, T> {}

impl<'a, T> WithDepths<'a, T> {
    /// The wrapped walk.
    pub closed spec fn walk(self) -> Walk<'a, T> {
        self.inner
    }

    /// Validity of the wrapped walk.
    pub open spec fn wf(self) -> bool {
        self.walk().wf()
    }

    /// Yield the next node together with its depth relative to the walk's
    /// base.
    pub fn next(&mut self) -> (r: Option<(usize, Node<'a, T>)>)
        requires
            old(self).wf(),
        ensures
            final(self).wf(),
            final(self).walk().host() == old(self).walk().host(),
            final(self).walk().bound() == old(self).walk().bound(),
            old(self).walk().remaining().len() == 0 ==> r is None
                && final(self).walk().remaining() == old(self).walk().remaining(),
            old(self).walk().remaining().len() > 0 ==> (match r {
                Some((d, m)) => m.host() == old(self).walk().host() && m.wf()
                    && m.idx() == old(self).walk().remaining()[0]
                    && d + old(self).walk().base()
                        == depth(old(self).walk().host().arena(), m.idx())
                    && final(self).walk().remaining()
                        == old(self).walk().remaining().drop_first(),
                None => false,
            }),
    {
        self.inner.next_with_depth()
    }
}

} // verus!
