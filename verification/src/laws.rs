//! The library-wide guarantees, stated once over the model and proved for
//! every well-formed tree.

use vstd::prelude::*;
use crate::links::Kind;
use crate::model::{
    ancestor_chain, chain_from, children_chain, depth, in_bounds, is_child, link_wf, opt_chain,
    root_wf, slot_wf, span_ok,
};
use crate::facts::{
    cons_contains, lemma_ancestor_chain_len, lemma_chain_follows_next, lemma_chain_head,
    lemma_children_chain_exact, lemma_desc_in_range, lemma_range_desc,
};
use crate::model::scope;
use crate::tree::Tree;

verus! {

/// Every interior node with children covers exactly its children: its
/// span runs from the least child start to the greatest child end, and an
/// interior node without children is zero-width.
pub proof fn law_interior_span_cover<T>(t: Tree<T>, p: int)
    requires
        t.wf(),
        in_bounds(t.arena(), p),
        t.arena()[p].kind == Kind::Node,
    ensures
        t.arena()[p].first is None ==> t.arena()[p].span.start == t.arena()[p].span.end,
        t.arena()[p].first is Some ==> {
            &&& (forall|c: int| #[trigger] is_child(t.arena(), p, c)
                    ==> t.arena()[p].span.start <= t.arena()[c].span.start
                        && t.arena()[c].span.end <= t.arena()[p].span.end)
            &&& (exists|c: int| #[trigger] is_child(t.arena(), p, c)
                    && t.arena()[c].span.start == t.arena()[p].span.start)
            &&& (exists|c: int| #[trigger] is_child(t.arena(), p, c)
                    && t.arena()[c].span.end == t.arena()[p].span.end)
        },
{
    reveal(crate::model::span_ok);
    assert(span_ok(t.arena(), p));
}

/// A node's `parent` is absent exactly when the node lies on the root
/// chain reachable from the tree's root list.
pub proof fn law_parent_iff_root<T>(t: Tree<T>, i: int)
    requires
        t.wf(),
        in_bounds(t.arena(), i),
    ensures
        t.arena()[i].parent is None <==> opt_chain(t.arena(), t.rf()).contains(i),
{
    let s = t.arena();
    match t.rf() {
        Some(f) => {
            if s[i].parent is None {
                lemma_root_in_chain(t, i);
            }
            if opt_chain(s, t.rf()).contains(i) {
                lemma_root_chain_elems(t, f as int);
            }
        },
        None => {
            assert(s.len() == 0);
        },
    }
}

/// Every element of the root chain is parentless.
proof fn lemma_root_chain_elems<T>(t: Tree<T>, c: int)
    requires
        t.wf(),
        in_bounds(t.arena(), c),
        t.arena()[c].parent is None,
    ensures
        forall|x: int| chain_from(t.arena(), c).contains(x)
            ==> in_bounds(t.arena(), x) && t.arena()[x].parent is None,
    decreases t.arena().len() - c,
{
    let s = t.arena();
    assert(slot_wf(s, c));
    match s[c].next {
        Some(j) => {
            assert(slot_wf(s, j as int));
            lemma_root_chain_elems(t, j as int);
            assert forall|x: int| chain_from(s, c).contains(x)
                implies in_bounds(s, x) && s[x].parent is None by {
                cons_contains(c, chain_from(s, j as int), x);
            }
        },
        None => {
            assert forall|x: int| chain_from(s, c).contains(x)
                implies in_bounds(s, x) && s[x].parent is None by {
                cons_contains(c, Seq::empty(), x);
                assert(chain_from(s, c) == seq![c]);
            }
        },
    }
}

/// Every parentless slot appears on the chain from the first root.
proof fn lemma_root_in_chain<T>(t: Tree<T>, i: int)
    requires
        t.wf(),
        in_bounds(t.arena(), i),
        t.arena()[i].parent is None,
    ensures
        t.rf() is Some,
        opt_chain(t.arena(), t.rf()).contains(i),
    decreases i,
{
    let s = t.arena();
    assert(slot_wf(s, i));
    match s[i].prev {
        Some(b) => {
            assert(slot_wf(s, b as int));
            assert(s[b as int].next == Some(i as usize));
            assert(s[b as int].parent is None);
            lemma_root_in_chain(t, b as int);
            let f = t.rf().unwrap() as int;
            lemma_chain_follows_next(s, f, b as int);
        },
        None => {
            assert(t.rf() == Some(i as usize));
            lemma_chain_head(s, i);
        },
    }
}

/// An ancestor walk starting at any node yields the node's depth plus one
/// entries; the walk starts at the node itself and ends at a slot whose
/// `parent` is absent.
pub proof fn law_ancestors_count<T>(t: Tree<T>, i: int)
    requires
        t.wf(),
        in_bounds(t.arena(), i),
    ensures
        ancestor_chain(t.arena(), i).len() == depth(t.arena(), i) + 1,
        ancestor_chain(t.arena(), i)[0] == i,
        t.arena()[ancestor_chain(t.arena(), i).last()].parent is None,
{
    lemma_ancestor_chain_len(t.arena(), i);
}

/// Walking the siblings of `p`'s first child to exhaustion visits exactly
/// the children of `p`, in order: the sibling chain from the first child
/// is the very child chain, and it holds an index exactly when that index
/// is a child of `p`.
pub proof fn law_siblings_of_first_are_children<T>(t: Tree<T>, p: int)
    requires
        t.wf(),
        in_bounds(t.arena(), p),
        t.arena()[p].first is Some,
    ensures
        chain_from(t.arena(), t.arena()[p].first.unwrap() as int) == children_chain(t.arena(), p),
        forall|c: int| children_chain(t.arena(), p).contains(c) <==> is_child(t.arena(), p, c),
{
    lemma_children_chain_exact(t.arena(), p);
}

/// The arena stores slots in document order, so subtrees are contiguous:
/// an index lies in the interval `q .. scope(q)` exactly when `q` is an
/// ancestor of it (or the index itself).
pub proof fn law_subtree_contiguous<T>(t: Tree<T>, q: int, d: int)
    requires
        t.wf(),
        in_bounds(t.arena(), q),
        in_bounds(t.arena(), d),
    ensures
        q <= d < scope(t.arena(), q) <==> crate::model::is_anc_or_self(t.arena(), q, d),
{
    if q <= d < scope(t.arena(), q) {
        lemma_range_desc(t.arena(), q, d);
    }
    if crate::model::is_anc_or_self(t.arena(), q, d) {
        lemma_desc_in_range(t.arena(), q, d);
    }
}

/// Navigation is pure: two node values denoting the same slot of the same
/// tree read the same record and the same payload, so repeated calls to
/// any navigation method give results equal in data, kind and span.
pub proof fn law_navigation_deterministic<'a, T>(m1: crate::node::Node<'a, T>, m2: crate::node::Node<'a, T>)
    requires
        m1.wf(),
        m2.wf(),
        m1.host() == m2.host(),
        m1.idx() == m2.idx(),
    ensures
        m1.rec() == m2.rec(),
        m1.host().vals()[m1.idx()] == m2.host().vals()[m2.idx()],
{
}

} // verus!
