//! A depth-first enumerator that reports entering and leaving subtrees.

use vstd::prelude::*;
use crate::links::Kind;
use crate::model::{is_anc_or_self, slot_wf};
use crate::facts::lemma_anc_scope;
use crate::node::Node;
use crate::tree::Tree;

verus! {

/// What a [`WalkEvents`] step reports about a node.
#[derive(Clone, Copy, Debug, PartialEq, Eq, Structural, Hash)]
pub enum Event {
    /// The node is visited for the first time.
    Enter,
    /// The walk ascends out of the node's subtree, after its children.
    Exit,
}

/// An alternative depth-first enumerator yielding `(event, node)` pairs;
/// depth bookkeeping is left to the consumer.  A node with children is
/// reported twice, entering and exiting; other nodes only once.
pub struct WalkEvents<'a, T> {
    pub(crate) tree: &'a Tree<T>,
    pub(crate) cur: Option<usize>,
    pub(crate) exiting: bool,
    pub(crate) boundary: Option<usize>,
}

impl<'a, T> Clone for WalkEvents<'a, T> {
    fn clone(&self) -> (r: Self)
        ensures
            r == *self,
    {
        WalkEvents {
            tree: self.tree,
            cur: self.cur,
            exiting: self.exiting,
            boundary: self.boundary,
        }
    }
}

impl<'a, T> Copy for WalkEvents<'a, T> {}

impl<'a, T> WalkEvents<'a, T> {
    /// The tree being walked.
    pub closed spec fn host(self) -> Tree<T> {
        *self.tree
    }

    /// The cursor: the next slot an event will be reported for.
    pub closed spec fn cursor(self) -> Option<usize> {
        self.cur
    }

    /// Whether the next event leaves the cursor's subtree rather than
    /// entering it.
    pub closed spec fn is_exiting(self) -> bool {
        self.exiting
    }

    /// The node whose subtree bounds the walk; the whole forest when
    /// absent.
    pub closed spec fn bound(self) -> Option<usize> {
        self.boundary
    }

    /// Validity: the cursor stays strictly inside the boundary's subtree.
    pub open spec fn wf(self) -> bool {
        &&& self.host().wf()
        &&& (self.bound() matches Some(b) ==> (b as int) < self.host().arena().len())
        &&& (self.cursor() matches Some(c) ==> (c as int) < self.host().arena().len()
                && (self.bound() matches Some(b)
                        ==> is_anc_or_self(self.host().arena(), b as int, c as int)
                            && b != c))
    }

    /// Walk the whole forest of `tree`.
    pub(crate) fn of_tree(tree: &'a Tree<T>) -> (r: Self)
        requires
            tree.wf(),
        ensures
            r.wf(),
            r.host() == *tree,
            r.bound() is None,
            r.cursor() == tree.rf(),
            !r.is_exiting(),
    {
        proof {
            crate::tree::lemma_tree_parts(tree);
        }
        WalkEvents { tree, cur: tree.root_first, exiting: false, boundary: None }
    }

    /// Walk the subtree below `node`, starting at its first child.
    pub(crate) fn of_node(node: &Node<'a, T>) -> (r: Self)
        requires
            node.wf(),
        ensures
            r.wf(),
            r.host() == node.host(),
            r.bound() == Some(node.index),
            r.cursor() == node.rec().first,
            !r.is_exiting(),
    {
        proof {
            crate::node::lemma_node_parts(*node);
            crate::tree::lemma_tree_parts(node.tree);
            let s = node.tree.links@;
            let i = node.index as int;
            assert(slot_wf(s, i));
            match s[i].first {
                Some(f) => {
                    assert(is_anc_or_self(s, i, i));
                    assert(is_anc_or_self(s, i, f as int));
                },
                None => {},
            }
        }
        let first = events_first(node);
        WalkEvents { tree: node.tree, cur: first, exiting: false, boundary: Some(node.index) }
    }

    /// Report one event and take one step of the machine: entering a node
    /// descends into its first child when it has one; otherwise, and when
    /// exiting, the walk moves to the next sibling or ascends one level,
    /// reporting an exit for the parent it ascends into.
    pub fn next(&mut self) -> (r: Option<(Event, Node<'a, T>)>)
        requires
            old(self).wf(),
        ensures
            final(self).wf(),
            final(self).host() == old(self).host(),
            final(self).bound() == old(self).bound(),
            old(self).cursor() is None ==> r is None && *final(self) == *old(self),
            old(self).cursor() matches Some(c) ==> ({
                let s = old(self).host().arena();
                let l = s[c as int];
                &&& (match r {
                    Some((ev, m)) => m.host() == old(self).host() && m.wf()
                        && m.idx() == c as int
                        && ev == (if old(self).is_exiting() { Event::Exit } else { Event::Enter }),
                    None => false,
                })
                &&& (!old(self).is_exiting() && l.first is Some
                        ==> final(self).cursor() == l.first && !final(self).is_exiting())
                &&& ((old(self).is_exiting() || l.first is None) ==> {
                    &&& (l.next is Some ==> final(self).cursor() == l.next
                            && !final(self).is_exiting())
                    &&& (l.next is None ==> (match l.parent {
                        Some(p) => (if Some(p) == old(self).bound() {
                            final(self).cursor() is None
                        } else {
                            final(self).cursor() == Some(p) && final(self).is_exiting()
                        }),
                        None => final(self).cursor() is None,
                    }))
                })
            }),
    {
        let c = match self.cur {
            None => {
                return None;
            },
            Some(c) => c,
        };
        proof {
            crate::tree::lemma_tree_parts(self.tree);
            let s = self.tree.links@;
            assert(slot_wf(s, c as int));
        }
        let node = Node::new(self.tree, c);
        let ev = if self.exiting { Event::Exit } else { Event::Enter };
        let l = self.tree.links[c];
        let descend: Option<usize> = if self.exiting { None } else { l.first };
        match descend {
            Some(f) => {
                proof {
                    let s = self.tree.links@;
                    match self.boundary {
                        Some(b) => {
                            assert(is_anc_or_self(s, b as int, f as int));
                            assert(f != b) by {
                                lemma_anc_scope(s, b as int, c as int);
                            }
                        },
                        None => {},
                    }
                }
                self.cur = Some(f);
                self.exiting = false;
            },
            None => {
                match l.next {
                    Some(j) => {
                        proof {
                            let s = self.tree.links@;
                            match self.boundary {
                                Some(b) => {
                                    assert(is_anc_or_self(s, b as int, j as int)) by {
                                        assert(s[j as int].parent == s[c as int].parent);
                                        if c as int != b as int {
                                            let p = s[c as int].parent.unwrap();
                                            assert(is_anc_or_self(s, b as int, p as int));
                                        }
                                    }
                                    assert(j != b) by {
                                        lemma_anc_scope(s, b as int, c as int);
                                    }
                                },
                                None => {},
                            }
                        }
                        self.cur = Some(j);
                        self.exiting = false;
                    },
                    None => {
                        let stop: bool = match (l.parent, self.boundary) {
                            (None, _) => true,
                            (Some(p), Some(b)) => p == b,
                            (Some(_), None) => false,
                        };
                        if stop {
                            self.cur = None;
                        } else {
                            let p = match l.parent {
                                Some(p) => p,
                                None => c,
                            };
                            proof {
                                let s = self.tree.links@;
                                assert(l.parent is Some);
                                match self.boundary {
                                    Some(b) => {
                                        assert(is_anc_or_self(s, b as int, p as int));
                                    },
                                    None => {},
                                }
                            }
                            self.cur = Some(p);
                            self.exiting = true;
                        }
                    },
                }
            },
        }
        Some((ev, node))
    }
}

/// Read the first child of a node as a plain optional index.
fn events_first<'a, T>(node: &Node<'a, T>) -> (r: Option<usize>)
    requires
        node.wf(),
    ensures
        r == node.rec().first,
{
    proof {
        crate::tree::lemma_tree_parts(node.tree);
        crate::node::lemma_node_parts(*node);
    }
    node.tree.links[node.index].first
}

} // verus!
