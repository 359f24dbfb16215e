//! A filter adapter that drops tokens and passes interior nodes through.

use vstd::prelude::*;
use crate::links::Kind;
use crate::model::interior_of;
use crate::node::Node;
use crate::siblings::Siblings;
use crate::tree::Tree;

verus! {

/// Wraps a sibling iterator and yields only its interior-node elements.
pub struct SkipTokens<'a, T> {
    pub(crate) inner: Siblings<'a, T>,
}

impl<'a, T> Clone for SkipTokens<'a, T> {
    fn clone(&self) -> (r: Self)
        ensures
            r == *self,
    {
        SkipTokens { inner: self.inner }
    }
}

impl<'a, T> Copy for SkipTokens<'a, T> {}

impl<'a, T> SkipTokens<'a, T> {
    /// The tree being walked.
    pub open spec fn host(self) -> Tree<T> {
        self.inner_iter().host()
    }

    /// The wrapped iterator.
    pub closed spec fn inner_iter(self) -> Siblings<'a, T> {
        self.inner
    }

    /// The interior-node indices still to be yielded, in order.
    pub open spec fn remaining(self) -> Seq<int> {
        interior_of(self.host().arena(), self.inner_iter().remaining())
    }

    /// Validity of the wrapped iterator.
    pub open spec fn wf(self) -> bool {
        self.inner_iter().wf()
    }

    /// Wrap the remainder of `inner`.
    pub(crate) fn new(inner: Siblings<'a, T>) -> (r: Self)
        requires
            inner.wf(),
        ensures
            r.wf(),
            r.host() == inner.host(),
            r.remaining() == interior_of(inner.host().arena(), inner.remaining()),
    {
        SkipTokens { inner }
    }

    /// Yield the next interior node, skipping tokens.
    pub fn next(&mut self) -> (r: Option<Node<'a, T>>)
        requires
            old(self).wf(),
        ensures
            final(self).wf(),
            final(self).host() == old(self).host(),
            old(self).remaining().len() == 0 ==> r is None,
            old(self).remaining().len() > 0 ==> (match r {
                Some(m) => m.host() == old(self).host() && m.wf()
                    && m.idx() == old(self).remaining()[0]
                    && final(self).remaining() == old(self).remaining().drop_first(),
                None => false,
            }),
    {
        self.inner.next_node()
    }
}

} // verus!
