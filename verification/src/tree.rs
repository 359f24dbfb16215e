//! The frozen, immutable result of a successful build.

use vstd::prelude::*;
use crate::links::Links;
use crate::model::{link_wf, root_wf, span_wf};

verus! {

/// The abstract state of a tree is exactly its fields; stated here, where
/// the closed accessors are defined, for the rest of the crate to use.
pub(crate) proof fn lemma_tree_parts<T>(t: &Tree<T>)
    ensures
        t.arena() == t.links@,
        t.vals() == t.data@,
        t.rf() == t.root_first,
        t.rl() == t.root_last,
{
}

/// An immutable forest: the arena of slots, the parallel vector of
/// payloads, and the head and tail of the root-level sibling chain.
///
/// A `Tree` is produced only by [`crate::TreeBuilder::build`]; afterwards it
/// is never mutated, so nodes and iterators borrowed from it stay valid for
/// its whole lifetime.
pub struct Tree<T> {
    pub(crate) data: Vec<T>,
    pub(crate) links: Vec<Links>,
    pub(crate) root_first: Option<usize>,
    pub(crate) root_last: Option<usize>,
}

impl<T> Tree<T> {
    /// The arena: every slot's kind, span and links, in document order.
    pub closed spec fn arena(self) -> Seq<Links> {
        self.links@
    }

    /// The payloads, in document order, parallel to the arena.
    pub closed spec fn vals(self) -> Seq<T> {
        self.data@
    }

    /// The first root of the forest.
    pub closed spec fn rf(self) -> Option<usize> {
        self.root_first
    }

    /// The last root of the forest.
    pub closed spec fn rl(self) -> Option<usize> {
        self.root_last
    }

    /// Validity of the whole structure: links are well formed, the root
    /// chain bookkeeping is right, and every interior span covers exactly
    /// its children.
    pub open spec fn wf(self) -> bool {
        &&& self.arena().len() <= usize::MAX
        &&& self.vals().len() == self.arena().len()
        &&& link_wf(self.arena())
        &&& root_wf(self.arena(), self.rf(), self.rl())
        &&& span_wf(self.arena())
    }

    /// The first root of the forest, if the tree is not empty.
    pub fn first(&self) -> (r: Option<crate::node::Node<'_, T>>)
        requires
            self.wf(),
        ensures
            match r {
                Some(m) => m.host() == *self && m.wf()
                    && crate::model::link_target(self.rf(), m.idx()),
                None => self.rf() is None && self.arena().len() == 0,
            },
    {
        match self.root_first {
            Some(f) => Some(crate::node::Node::new(self, f)),
            None => None,
        }
    }

    /// The last root of the forest, if the tree is not empty.
    pub fn last(&self) -> (r: Option<crate::node::Node<'_, T>>)
        requires
            self.wf(),
        ensures
            match r {
                Some(m) => m.host() == *self && m.wf()
                    && crate::model::link_target(self.rl(), m.idx()),
                None => self.rl() is None && self.arena().len() == 0,
            },
    {
        match self.root_last {
            Some(x) => Some(crate::node::Node::new(self, x)),
            None => None,
        }
    }

    /// A pre-order walk over the whole forest, in document order.
    pub fn walk(&self) -> (r: crate::walk::Walk<'_, T>)
        requires
            self.wf(),
        ensures
            r.wf(),
            r.host() == *self,
            r.bound() is None,
            r.remaining() == crate::model::range_seq(0, self.arena().len() as int),
    {
        crate::walk::Walk::of_tree(self)
    }

    /// A depth-first event walk over the whole forest.
    pub fn walk_events(&self) -> (r: crate::walk_events::WalkEvents<'_, T>)
        requires
            self.wf(),
        ensures
            r.wf(),
            r.host() == *self,
            r.cursor() == self.rf(),
            !r.is_exiting(),
    {
        crate::walk_events::WalkEvents::of_tree(self)
    }

    /// The number of slots in the arena.
    pub fn len(&self) -> (r: usize)
        ensures
            r == self.arena().len(),
    {
        self.links.len()
    }

    /// Whether the forest holds no slots at all.
    pub fn is_empty(&self) -> (r: bool)
        ensures
            r == (self.arena().len() == 0),
    {
        self.links.len() == 0
    }
}

} // verus!

verus! {

impl<T> Tree<T> {
    /// The most specific (deepest) node whose span contains `range`,
    /// descending from the roots by span containment into the first child
    /// in document order that contains it; nothing when no root does.
    pub fn node_with_range(&self, range: core::ops::Range<usize>) -> (r: Option<crate::node::Node<'_, T>>)
        requires
            self.wf(),
        ensures
            match r {
                Some(m) => m.host() == *self && m.wf()
                    && Some(m.idx()) == crate::model::locate_in_forest(
                        self.arena(), self.rf(), range.start as int, range.end as int),
                None => crate::model::locate_in_forest(
                    self.arena(), self.rf(), range.start as int, range.end as int) is None,
            },
    {
        proof {
            lemma_tree_parts(self);
        }
        let start = range.start;
        let end = range.end;
        let mut best: Option<usize> = None;
        let mut cur: Option<usize> = self.root_first;
        let ghost s = self.links@;
        loop
            invariant
                self.wf(),
                s == self.links@,
                (cur matches Some(c) ==> (c as int) < s.len()),
                (best matches Some(b) ==> (b as int) < s.len()),
                crate::model::locate_in_forest(s, self.rf(), start as int, end as int)
                    == (match cur {
                        Some(c) => crate::model::locate(
                            s, c as int,
                            match best { Some(b) => Some(b as int), None => None },
                            start as int, end as int),
                        None => match best { Some(b) => Some(b as int), None => None },
                    }),
            ensures
                cur is None,
            decreases (match cur { Some(c) => s.len() - c, None => 0int }),
        {
            match cur {
                None => {
                    break;
                },
                Some(c) => {
                    proof {
                        lemma_tree_parts(self);
                        assert(crate::model::slot_wf(s, c as int));
                    }
                    let l = self.links[c];
                    if l.span.start <= start && end <= l.span.end {
                        best = Some(c);
                        cur = l.first;
                    } else {
                        cur = l.next;
                    }
                },
            }
        }
        proof {
            lemma_tree_parts(self);
        }
        match best {
            Some(b) => Some(crate::node::Node::new(self, b)),
            None => None,
        }
    }
}

} // verus!
