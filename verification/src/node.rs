//! A lightweight borrowed view of one slot, exposing constant-time
//! navigation.

use vstd::prelude::*;
use crate::builder::Id;
use crate::links::{Kind, Links};
use crate::model::{in_bounds, is_anc_or_self, link_target, scope, slot_wf};
use crate::facts::{lemma_anc_scope, lemma_scope_bounds};
use crate::span::Span;
use crate::tree::{lemma_tree_parts, Tree};

verus! {

/// The abstract state of a node is exactly its fields; stated here, where
/// the closed accessors are defined, for the rest of the crate to use.
pub(crate) proof fn lemma_node_parts<'a, T>(n: Node<'a, T>)
    ensures
        n.host() == *n.tree,
        n.idx() == n.index as int,
{
}

/// A non-owning pair of a tree and a slot index.  All navigation is O(1),
/// infallible, and never allocates: absence of a neighbour is an empty
/// result, never an error.
pub struct Node<'a, T> {
    pub(crate) tree: &'a Tree<T>,
    pub(crate) index: usize,
}

impl<'a, T> Clone for Node<'a, T> {
    fn clone(&self) -> (r: Self)
        ensures
            r == *self,
    {
        Node { tree: self.tree, index: self.index }
    }
}

impl<'a, T> Copy for Node<'a, T> {}

impl<'a, T> Node<'a, T> {
    /// The tree this node belongs to.
    pub closed spec fn host(self) -> Tree<T> {
        *self.tree
    }

    /// The arena index of the slot this node stands for.
    pub closed spec fn idx(self) -> int {
        self.index as int
    }

    /// The slot record this node stands for.
    pub open spec fn rec(self) -> Links {
        self.host().arena()[self.idx()]
    }

    /// Validity: the tree is well formed and the index is in bounds.
    pub open spec fn wf(self) -> bool {
        &&& self.host().wf()
        &&& 0 <= self.idx() < self.host().arena().len()
    }

    /// Wrap an index of `tree`'s arena.
    pub(crate) fn new(tree: &'a Tree<T>, index: usize) -> (r: Self)
        ensures
            r.host() == *tree,
            r.idx() == index,
    {
        Node { tree, index }
    }

    /// An iterator over this node and its ancestors, innermost first.
    pub fn ancestors(&self) -> (r: crate::ancestors::Ancestors<'a, T>)
        requires
            self.wf(),
        ensures
            r.wf(),
            r.host() == self.host(),
            r.remaining() == crate::model::ancestor_chain(self.host().arena(), self.idx()),
    {
        crate::ancestors::Ancestors::new(self)
    }

    /// An iterator over this node and the siblings after it.
    pub fn siblings(&self) -> (r: crate::siblings::Siblings<'a, T>)
        requires
            self.wf(),
        ensures
            r.wf(),
            r.host() == self.host(),
            r.remaining() == crate::model::chain_from(self.host().arena(), self.idx()),
    {
        crate::siblings::Siblings::new(self)
    }

    /// An iterator over this node's direct children.
    pub fn children(&self) -> (r: crate::children::Children<'a, T>)
        requires
            self.wf(),
        ensures
            r.wf(),
            r.host() == self.host(),
            r.remaining() == crate::model::children_chain(self.host().arena(), self.idx()),
    {
        crate::children::Children::new(self)
    }

    /// A pre-order walk of the subtree below this node.
    pub fn walk(&self) -> (r: crate::walk::Walk<'a, T>)
        requires
            self.wf(),
        ensures
            r.wf(),
            r.host() == self.host(),
            r.remaining() == crate::model::range_seq(
                self.idx() + 1,
                crate::model::scope(self.host().arena(), self.idx()),
            ),
    {
        crate::walk::Walk::of_node(self)
    }

    /// A depth-first event walk of the subtree below this node.
    pub fn walk_events(&self) -> (r: crate::walk_events::WalkEvents<'a, T>)
        requires
            self.wf(),
        ensures
            r.wf(),
            r.host() == self.host(),
            r.cursor() == self.rec().first,
            !r.is_exiting(),
    {
        crate::walk_events::WalkEvents::of_node(self)
    }

    /// The stable identity of this node: its slot index.
    pub fn id(&self) -> (r: Id)
        ensures
            r.index() == self.idx(),
    {
        Id::of(self.index)
    }

    /// The caller payload stored in this slot.
    pub fn value(&self) -> (r: &'a T)
        requires
            self.wf(),
        ensures
            *r == self.host().vals()[self.idx()],
    {
        proof {
            lemma_tree_parts(self.tree);
        }
        &self.tree.data[self.index]
    }

    /// Whether this slot is an interior node or a token.
    pub fn kind(&self) -> (r: Kind)
        requires
            self.wf(),
        ensures
            r == self.rec().kind,
    {
        proof {
            lemma_tree_parts(self.tree);
        }
        self.tree.links[self.index].kind
    }

    /// The span covered by this slot.
    pub fn span(&self) -> (r: Span)
        requires
            self.wf(),
        ensures
            r == self.rec().span,
    {
        proof {
            lemma_tree_parts(self.tree);
        }
        self.tree.links[self.index].span
    }

    /// The span as a pair of offsets, `start..end`.
    pub fn range(&self) -> (r: core::ops::Range<usize>)
        requires
            self.wf(),
        ensures
            r.start == self.rec().span.start,
            r.end == self.rec().span.end,
    {
        proof {
            lemma_tree_parts(self.tree);
        }
        self.tree.links[self.index].span.start..self.tree.links[self.index].span.end
    }

    /// Whether the node has no children at all.
    pub fn is_empty(&self) -> (r: bool)
        requires
            self.wf(),
        ensures
            r == (self.rec().first is None),
    {
        proof {
            lemma_tree_parts(self.tree);
        }
        self.tree.links[self.index].first.is_none()
    }

    /// Turn an optional link of this slot into an optional node.
    fn node_at(&self, id: Option<usize>) -> (r: Option<Node<'a, T>>)
        requires
            self.wf(),
            id matches Some(x) ==> (x as int) < self.host().arena().len(),
        ensures
            match r {
                Some(m) => m.host() == self.host() && m.wf() && link_target(id, m.idx()),
                None => id is None,
            },
    {
        match id {
            Some(x) => Some(Node { tree: self.tree, index: x }),
            None => None,
        }
    }

    /// The enclosing interior node, absent exactly for roots.
    pub fn parent(&self) -> (r: Option<Node<'a, T>>)
        requires
            self.wf(),
        ensures
            match r {
                Some(m) => m.host() == self.host() && m.wf()
                    && link_target(self.rec().parent, m.idx()),
                None => self.rec().parent is None,
            },
    {
        proof {
            lemma_tree_parts(self.tree);
            assert(slot_wf(self.host().arena(), self.idx()));
        }
        self.node_at(self.tree.links[self.index].parent)
    }

    /// The sibling immediately before this node.
    pub fn prev(&self) -> (r: Option<Node<'a, T>>)
        requires
            self.wf(),
        ensures
            match r {
                Some(m) => m.host() == self.host() && m.wf()
                    && link_target(self.rec().prev, m.idx()),
                None => self.rec().prev is None,
            },
    {
        proof {
            lemma_tree_parts(self.tree);
            assert(slot_wf(self.host().arena(), self.idx()));
        }
        self.node_at(self.tree.links[self.index].prev)
    }

    /// The sibling immediately after this node.
    pub fn next(&self) -> (r: Option<Node<'a, T>>)
        requires
            self.wf(),
        ensures
            match r {
                Some(m) => m.host() == self.host() && m.wf()
                    && link_target(self.rec().next, m.idx()),
                None => self.rec().next is None,
            },
    {
        proof {
            lemma_tree_parts(self.tree);
            assert(slot_wf(self.host().arena(), self.idx()));
        }
        self.node_at(self.tree.links[self.index].next)
    }

    /// The first child, absent for tokens and childless nodes.
    pub fn first(&self) -> (r: Option<Node<'a, T>>)
        requires
            self.wf(),
        ensures
            match r {
                Some(m) => m.host() == self.host() && m.wf()
                    && link_target(self.rec().first, m.idx()),
                None => self.rec().first is None,
            },
    {
        proof {
            lemma_tree_parts(self.tree);
            assert(slot_wf(self.host().arena(), self.idx()));
        }
        self.node_at(self.tree.links[self.index].first)
    }

    /// The last child, absent for tokens and childless nodes.
    pub fn last(&self) -> (r: Option<Node<'a, T>>)
        requires
            self.wf(),
        ensures
            match r {
                Some(m) => m.host() == self.host() && m.wf()
                    && link_target(self.rec().last, m.idx()),
                None => self.rec().last is None,
            },
    {
        proof {
            lemma_tree_parts(self.tree);
            assert(slot_wf(self.host().arena(), self.idx()));
        }
        self.node_at(self.tree.links[self.index].last)
    }
}

} // verus!

verus! {

impl<'a, T> Node<'a, T> {
    /// The node of this node's tree standing at slot `j`.
    pub closed spec fn peer(self, j: int) -> Node<'a, T> {
        Node { tree: self.tree, index: j as usize }
    }

    /// What `peer` denotes: the same tree, at index `j`.
    pub proof fn lemma_peer(self, j: int)
        requires
            self.wf(),
            0 <= j < self.host().arena().len(),
        ensures
            self.peer(j).host() == self.host(),
            self.peer(j).idx() == j,
            self.peer(j).wf(),
    {
    }

    /// The probe the adjacency search makes at ancestor level `a` came
    /// back empty: `a` has no previous sibling, or the predicate returned
    /// `false` on it.
    pub open spec fn probe_rejected<P: Fn(Node<'a, T>) -> bool>(self, pred: P, a: int) -> bool {
        match self.host().arena()[a].prev {
            Some(q) => pred.ensures((self.peer(q as int),), false),
            None => true,
        }
    }

    /// Slot `m` is reached from slot `c` by following `last` children,
    /// the predicate returning `true` at every step taken.
    pub open spec fn last_descent<P: Fn(Node<'a, T>) -> bool>(self, pred: P, c: int, m: int) -> bool
        decreases self.host().arena().len() - c,
    {
        let s = self.host().arena();
        if c == m {
            true
        } else if !in_bounds(s, c) {
            false
        } else {
            match s[c].last {
                Some(x) => c < x as int && (x as int) < s.len()
                    && pred.ensures((self.peer(x as int),), true)
                    && self.last_descent(pred, x as int, m),
                None => false,
            }
        }
    }

    /// Find the node immediately preceding this one in document order that
    /// satisfies `pred`: climb the ancestors probing one previous sibling
    /// per level, then descend along `last` children while they still
    /// satisfy it.
    ///
    /// The contract pins the whole search relative to what the predicate
    /// returned.  A `None` means the probe was rejected at every ancestor
    /// level: each ancestor-or-self either has no previous sibling or the
    /// predicate returned `false` on it.  A `Some(m)` names the innermost
    /// level `a` whose previous sibling matched — every level below it was
    /// rejected — and states that `m` is reached from that sibling by a
    /// `last`-descent on which the predicate held, ending where the next
    /// `last` child is absent or rejected; `m`'s whole subtree stands
    /// before this node.  With a predicate whose own `ensures` fixes its
    /// result, these clauses determine the returned node uniquely.
    pub fn find_preceding<P: Fn(Node<'a, T>) -> bool>(&self, pred: P) -> (r: Option<Node<'a, T>>)
        requires
            self.wf(),
            forall|m: Node<'a, T>| m.wf() && m.host() == self.host()
                ==> #[trigger] pred.requires((m,)),
        ensures
            r is None ==> forall|a: int| is_anc_or_self(self.host().arena(), a, self.idx())
                ==> #[trigger] self.probe_rejected(pred, a),
            (match r {
                Some(m) => {
                    let s = self.host().arena();
                    &&& m.wf() && m.host() == self.host()
                    &&& m.idx() < self.idx()
                    &&& scope(s, m.idx()) <= self.idx()
                    &&& pred.ensures((m,), true)
                    &&& (s[m.idx()].last matches Some(x)
                            ==> pred.ensures((self.peer(x as int),), false))
                    &&& exists|a: int| {
                        &&& #[trigger] is_anc_or_self(s, a, self.idx())
                        &&& (s[a].prev matches Some(q)
                                && pred.ensures((self.peer(q as int),), true)
                                && self.last_descent(pred, q as int, m.idx()))
                        &&& (forall|a2: int| is_anc_or_self(s, a2, self.idx()) && a2 > a
                                ==> #[trigger] self.probe_rejected(pred, a2))
                    }
                },
                None => true,
            }),
    {
        proof {
            lemma_tree_parts(self.tree);
            let s = self.tree.links@;
            assert forall|a: int| is_anc_or_self(s, a, self.idx()) && a > self.idx()
                implies self.probe_rejected(pred, a) by {
                lemma_anc_scope(s, a, self.idx());
            }
        }
        let mut n = self.index;
        let mut cand: usize;
        // Phase A: ascend, probing the previous sibling of each level.
        loop
            invariant
                self.wf(),
                (n as int) < self.host().arena().len(),
                is_anc_or_self(self.host().arena(), n as int, self.idx()),
                forall|m: Node<'a, T>| m.wf() && m.host() == self.host()
                    ==> #[trigger] pred.requires((m,)),
                forall|a: int| is_anc_or_self(self.host().arena(), a, self.idx())
                    && a > n as int ==> #[trigger] self.probe_rejected(pred, a),
            ensures
                (cand as int) < self.host().arena().len(),
                (n as int) < self.host().arena().len(),
                is_anc_or_self(self.host().arena(), n as int, self.idx()),
                self.host().arena()[n as int].prev == Some(cand),
                scope(self.host().arena(), cand as int) <= self.idx(),
                pred.ensures((self.peer(cand as int),), true),
                forall|a: int| is_anc_or_self(self.host().arena(), a, self.idx())
                    && a > n as int ==> #[trigger] self.probe_rejected(pred, a),
            decreases n,
        {
            proof {
                lemma_tree_parts(self.tree);
                let s = self.tree.links@;
                assert(slot_wf(s, n as int));
                lemma_anc_scope(s, n as int, self.idx());
            }
            let prev = self.tree.links[n].prev;
            match prev {
                Some(q) => {
                    proof {
                        let s = self.tree.links@;
                        assert(slot_wf(s, q as int));
                        assert(s[q as int].next == Some(n));
                        assert(scope(s, q as int) == n as int);
                    }
                    let qn = Node::new(self.tree, q);
                    if pred(qn) {
                        cand = q;
                        proof {
                            assert(qn == self.peer(q as int));
                        }
                        break;
                    }
                    proof {
                        assert(qn == self.peer(q as int));
                        assert(self.probe_rejected(pred, n as int));
                    }
                },
                None => {
                    proof {
                        assert(self.probe_rejected(pred, n as int));
                    }
                },
            }
            match self.tree.links[n].parent {
                Some(pp) => {
                    proof {
                        let s = self.tree.links@;
                        assert(is_anc_or_self(s, pp as int, pp as int));
                        assert(is_anc_or_self(s, pp as int, n as int));
                        crate::facts::lemma_anc_trans(s, pp as int, n as int, self.idx());
                        // Rejections now cover every ancestor above the
                        // parent: the chain holds no level strictly between
                        // a node and its parent.
                        assert forall|a: int| is_anc_or_self(s, a, self.idx())
                            && a > pp as int implies self.probe_rejected(pred, a) by {
                            if a > n as int {
                            } else if a == n as int {
                            } else {
                                crate::facts::lemma_anc_comparable(s, a, n as int, self.idx());
                                if is_anc_or_self(s, a, n as int) {
                                    assert(a != n as int);
                                    assert(is_anc_or_self(s, a, pp as int));
                                    lemma_anc_scope(s, a, pp as int);
                                    assert(false);
                                } else {
                                    lemma_anc_scope(s, n as int, a);
                                    assert(false);
                                }
                            }
                        }
                    }
                    n = pp;
                },
                None => {
                    proof {
                        let s = self.tree.links@;
                        // The chain's root was reached: every ancestor is
                        // at or above the current level, and all of them
                        // were probed and rejected.
                        assert forall|a: int| is_anc_or_self(s, a, self.idx())
                            implies self.probe_rejected(pred, a) by {
                            if a == n as int {
                            } else if a > n as int {
                            } else {
                                crate::facts::lemma_anc_comparable(s, a, n as int, self.idx());
                                if is_anc_or_self(s, a, n as int) {
                                    assert(a == n as int);
                                } else {
                                    lemma_anc_scope(s, n as int, a);
                                    assert(false);
                                }
                            }
                        }
                    }
                    return None;
                },
            }
        }
        // Phase B: descend along `last` children while they match.
        let mut c = cand;
        let ghost astar: int = n as int;
        loop
            invariant
                self.wf(),
                (c as int) < self.host().arena().len(),
                scope(self.host().arena(), c as int) <= self.idx(),
                pred.ensures((self.peer(c as int),), true),
                forall|m: Node<'a, T>| m.wf() && m.host() == self.host()
                    ==> #[trigger] pred.requires((m,)),
                is_anc_or_self(self.host().arena(), astar, self.idx()),
                self.host().arena()[astar].prev == Some(cand),
                pred.ensures((self.peer(cand as int),), true),
                self.last_descent(pred, cand as int, c as int),
                forall|a2: int| is_anc_or_self(self.host().arena(), a2, self.idx())
                    && a2 > astar ==> #[trigger] self.probe_rejected(pred, a2),
            decreases self.host().arena().len() - c,
        {
            proof {
                lemma_tree_parts(self.tree);
                let s = self.tree.links@;
                assert(slot_wf(s, c as int));
                lemma_scope_bounds(s, c as int);
            }
            let lst = self.tree.links[c].last;
            match lst {
                None => {
                    let m = Node::new(self.tree, c);
                    proof {
                        assert(m == self.peer(c as int));
                        assert((c as int) < self.idx());
                    }
                    return Some(m);
                },
                Some(x) => {
                    proof {
                        let s = self.tree.links@;
                        assert(slot_wf(s, x as int));
                        assert((x as int) < scope(s, c as int));
                        crate::facts::lemma_scope_child(s, x as int);
                    }
                    let xn = Node::new(self.tree, x);
                    if pred(xn) {
                        proof {
                            assert(xn == self.peer(x as int));
                            lemma_last_descent_extend(
                                *self,
                                pred,
                                cand as int,
                                c as int,
                                x as int,
                            );
                        }
                        c = x;
                    } else {
                        let m = Node::new(self.tree, c);
                        proof {
                            assert(xn == self.peer(x as int));
                            assert(m == self.peer(c as int));
                            assert((c as int) < self.idx());
                        }
                        return Some(m);
                    }
                },
            }
        }
    }
}

/// Extending a matching `last`-descent by one more matching step keeps it
/// a matching descent.
proof fn lemma_last_descent_extend<'a, T, P: Fn(Node<'a, T>) -> bool>(
    node: Node<'a, T>,
    pred: P,
    a: int,
    b: int,
    x: int,
)
    requires
        node.last_descent(pred, a, b),
        in_bounds(node.host().arena(), b),
        link_target(node.host().arena()[b].last, x),
        b < x < node.host().arena().len(),
        pred.ensures((node.peer(x),), true),
    ensures
        node.last_descent(pred, a, x),
    decreases node.host().arena().len() - a,
{
    let s = node.host().arena();
    if a == b {
        assert(node.last_descent(pred, x, x));
    } else {
        let y = s[a].last.unwrap() as int;
        lemma_last_descent_extend(node, pred, y, b, x);
    }
}

} // verus!
