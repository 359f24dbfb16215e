//! Consequences of link well-formedness: bounds on `scope`, the
//! correspondence between index intervals and subtrees, and the
//! correspondence between sibling chains and child sets.

use vstd::prelude::*;
use crate::links::Links;
use crate::model::{
    ancestor_chain, chain_from, children_chain, depth, in_bounds, is_anc_or_self, is_child,
    link_wf, scope, slot_wf,
};

verus! {

/// Prepending one element to a sequence adds exactly that element to its
/// contents.
pub proof fn cons_contains(i: int, r: Seq<int>, x: int)
    ensures
        (seq![i] + r).contains(x) <==> (x == i || r.contains(x)),
{
    if x == i {
        assert((seq![i] + r)[0] == x);
    }
    if r.contains(x) {
        let k = choose|k: int| 0 <= k < r.len() && r[k] == x;
        assert((seq![i] + r)[k + 1] == x);
    }
    if (seq![i] + r).contains(x) {
        let k = choose|k: int| 0 <= k < (seq![i] + r).len() && (seq![i] + r)[k] == x;
        if k == 0 {
        } else {
            assert(r[k - 1] == x);
        }
    }
}

/// In a well-formed arena the subtree of `i` extends past `i` and never
/// past the end of the arena.
pub proof fn lemma_scope_bounds(s: Seq<Links>, i: int)
    requires
        link_wf(s),
        in_bounds(s, i),
    ensures
        i < scope(s, i) <= s.len(),
    decreases i,
{
    assert(slot_wf(s, i));
    match s[i].next {
        Some(_) => {},
        None => match s[i].parent {
            Some(p) => {
                assert(slot_wf(s, p as int));
                lemma_scope_bounds(s, p as int);
            },
            None => {},
        },
    }
}

/// A child's subtree is contained in its parent's.
pub proof fn lemma_scope_child(s: Seq<Links>, c: int)
    requires
        link_wf(s),
        in_bounds(s, c),
        s[c].parent is Some,
    ensures
        scope(s, c) <= scope(s, s[c].parent.unwrap() as int),
{
    let p = s[c].parent.unwrap() as int;
    assert(slot_wf(s, c));
    assert(slot_wf(s, p));
    match s[c].next {
        Some(j) => {
            assert(slot_wf(s, j as int));
        },
        None => {},
    }
}

/// Being an ancestor is transitive.
pub proof fn lemma_anc_trans(s: Seq<Links>, a: int, m: int, d: int)
    requires
        is_anc_or_self(s, m, d),
        is_anc_or_self(s, a, m),
    ensures
        is_anc_or_self(s, a, d),
    decreases d,
{
    if d == m {
    } else {
        let p = s[d].parent.unwrap() as int;
        lemma_anc_trans(s, a, m, p);
    }
}

/// An ancestor stands no later in the arena than its descendant, and the
/// descendant's subtree nests inside the ancestor's.
pub proof fn lemma_anc_scope(s: Seq<Links>, a: int, d: int)
    requires
        link_wf(s),
        in_bounds(s, d),
        is_anc_or_self(s, a, d),
    ensures
        a <= d,
        scope(s, d) <= scope(s, a),
        in_bounds(s, a),
    decreases d,
{
    if d == a {
    } else {
        let p = s[d].parent.unwrap() as int;
        assert(slot_wf(s, d));
        lemma_scope_child(s, d);
        lemma_anc_scope(s, a, p);
    }
}

/// Any index inside the subtree interval of `q` is in fact a descendant
/// of `q`: the arena's document order makes subtrees contiguous.
pub proof fn lemma_range_desc(s: Seq<Links>, q: int, d: int)
    requires
        link_wf(s),
        in_bounds(s, q),
        q <= d < scope(s, q),
    ensures
        is_anc_or_self(s, q, d),
    decreases d - q, 0int,
{
    if d == q {
    } else {
        assert(slot_wf(s, q));
        if s[q].first is None {
            assert(scope(s, q) == q + 1);
        } else {
            let f = q + 1;
            assert(slot_wf(s, f));
            lemma_range_desc_chain(s, q, f, d);
        }
    }
}

/// Helper for [`lemma_range_desc`]: walk the child chain of `q` to find
/// the child whose subtree interval holds `d`.
proof fn lemma_range_desc_chain(s: Seq<Links>, q: int, c: int, d: int)
    requires
        link_wf(s),
        in_bounds(s, q),
        is_child(s, q, c),
        c <= d < scope(s, q),
    ensures
        is_anc_or_self(s, q, d),
    decreases d - c, 1int,
{
    assert(slot_wf(s, c));
    lemma_scope_bounds(s, c);
    assert(is_anc_or_self(s, q, q));
    if d < scope(s, c) {
        if c == d {
            assert(is_anc_or_self(s, q, d));
        } else {
            lemma_range_desc(s, c, d);
            assert(is_anc_or_self(s, q, c));
            lemma_anc_trans(s, q, c, d);
        }
    } else {
        match s[c].next {
            Some(j) => {
                assert(slot_wf(s, j as int));
                assert(scope(s, c) == j as int);
                lemma_range_desc_chain(s, q, j as int, d);
            },
            None => {
                lemma_scope_child(s, c);
                assert(scope(s, c) == scope(s, q));
            },
        }
    }
}

/// A proper descendant lies strictly inside its ancestor's subtree
/// interval.
pub proof fn lemma_desc_in_range(s: Seq<Links>, a: int, d: int)
    requires
        link_wf(s),
        in_bounds(s, d),
        is_anc_or_self(s, a, d),
    ensures
        a <= d < scope(s, a),
    decreases d,
{
    lemma_anc_scope(s, a, d);
    lemma_scope_bounds(s, d);
}

/// Every element of the sibling chain starting at a child of `p` is a
/// child of `p`, and the chain ends at `p`'s last child.
pub proof fn lemma_chain_elems_are_children(s: Seq<Links>, p: int, c: int)
    requires
        link_wf(s),
        in_bounds(s, p),
        is_child(s, p, c),
    ensures
        forall|x: int| chain_from(s, c).contains(x) ==> is_child(s, p, x),
    decreases s.len() - c,
{
    assert(slot_wf(s, c));
    match s[c].next {
        Some(j) => {
            assert(slot_wf(s, j as int));
            lemma_chain_elems_are_children(s, p, j as int);
            assert forall|x: int| chain_from(s, c).contains(x) implies is_child(s, p, x) by {
                cons_contains(c, chain_from(s, j as int), x);
            }
        },
        None => {
            assert forall|x: int| chain_from(s, c).contains(x) implies is_child(s, p, x) by {
                cons_contains(c, Seq::empty(), x);
                assert(chain_from(s, c) == seq![c]);
            }
        },
    }
}

/// If a chain passes through `b` and `b` has a `next`, the chain also
/// passes through that `next`.
pub proof fn lemma_chain_follows_next(s: Seq<Links>, start: int, b: int)
    requires
        link_wf(s),
        in_bounds(s, start),
        chain_from(s, start).contains(b),
        s[b].next is Some,
    ensures
        chain_from(s, start).contains(s[b].next.unwrap() as int),
    decreases s.len() - start,
{
    assert(slot_wf(s, start));
    let c = s[b].next.unwrap() as int;
    match s[start].next {
        Some(j) => {
            cons_contains(start, chain_from(s, j as int), b);
            if b == start {
                assert(chain_from(s, j as int).contains(c)) by {
                    assert(c == j as int);
                    assert(chain_from(s, j as int)[0] == c);
                }
            } else {
                assert(slot_wf(s, j as int));
                lemma_chain_follows_next(s, j as int, b);
            }
            cons_contains(start, chain_from(s, j as int), c);
        },
        None => {
            cons_contains(start, Seq::empty(), b);
            assert(chain_from(s, start) == seq![start] + Seq::empty());
            assert(b == start);
        },
    }
}

/// A chain contains its own head.
pub proof fn lemma_chain_head(s: Seq<Links>, start: int)
    requires
        in_bounds(s, start),
    ensures
        chain_from(s, start).contains(start),
{
    assert(chain_from(s, start)[0] == start);
}

/// Every child of `p` appears on the chain that starts at `p`'s first
/// child.
pub proof fn lemma_child_in_chain(s: Seq<Links>, p: int, c: int)
    requires
        link_wf(s),
        in_bounds(s, p),
        is_child(s, p, c),
        s[p].first is Some,
    ensures
        chain_from(s, s[p].first.unwrap() as int).contains(c),
    decreases c,
{
    let f = s[p].first.unwrap() as int;
    assert(slot_wf(s, c));
    assert(slot_wf(s, p));
    match s[c].prev {
        Some(b) => {
            assert(slot_wf(s, b as int));
            lemma_child_in_chain(s, p, b as int);
            lemma_chain_follows_next(s, f, b as int);
        },
        None => {
            assert(s[p].first == Some(c as usize));
            lemma_chain_head(s, c);
        },
    }
}

/// The chain starting at `p`'s first child visits exactly the children
/// of `p`.
pub proof fn lemma_children_chain_exact(s: Seq<Links>, p: int)
    requires
        link_wf(s),
        in_bounds(s, p),
    ensures
        forall|c: int| children_chain(s, p).contains(c) <==> is_child(s, p, c),
{
    assert(slot_wf(s, p));
    match s[p].first {
        Some(f) => {
            assert(slot_wf(s, f as int));
            lemma_chain_elems_are_children(s, p, f as int);
            assert forall|c: int| is_child(s, p, c) implies children_chain(s, p).contains(c) by {
                lemma_child_in_chain(s, p, c);
            }
        },
        None => {
            assert forall|c: int| !is_child(s, p, c) by {
                if is_child(s, p, c) {
                    assert(slot_wf(s, c));
                }
            }
        },
    }
}

/// The length of an ancestor chain is the node's depth plus one, and its
/// last element is a root.
pub proof fn lemma_ancestor_chain_len(s: Seq<Links>, i: int)
    requires
        link_wf(s),
        in_bounds(s, i),
    ensures
        ancestor_chain(s, i).len() == depth(s, i) + 1,
        ancestor_chain(s, i)[0] == i,
        s[ancestor_chain(s, i).last()].parent is None,
        in_bounds(s, ancestor_chain(s, i).last()),
    decreases i,
{
    assert(slot_wf(s, i));
    match s[i].parent {
        Some(p) => {
            lemma_ancestor_chain_len(s, p as int);
            assert(ancestor_chain(s, i).last() == ancestor_chain(s, p as int).last());
        },
        None => {},
    }
}

} // verus!

// The lemmas below relate `scope` across arenas that differ in a controlled
// way: appending one slot (wiring at most one `next` pointer), or changing
// fields that `scope` never reads.

use crate::model::root_wf;

verus! {

/// `s1` extends `s0` by one slot, rewiring exactly the `next` of `q` (the
/// previous sibling of the new slot, when there is one).
pub open spec fn append_shape(s0: Seq<Links>, s1: Seq<Links>, q: Option<usize>) -> bool {
    let n = s0.len() as int;
    &&& n < usize::MAX
    &&& s1.len() == n + 1
    &&& (forall|j: int| 0 <= j < n ==> (#[trigger] s1[j]).parent == s0[j].parent)
    &&& (match q {
            Some(qq) => 0 <= (qq as int) < n && s0[qq as int].next is None
                && s1[qq as int].next == Some(n as usize)
                && (forall|j: int| 0 <= j < n && j != qq as int
                        ==> (#[trigger] s1[j]).next == s0[j].next),
            None => forall|j: int| 0 <= j < n ==> (#[trigger] s1[j]).next == s0[j].next,
        })
    &&& s1[n].next is None
}

/// Appending a slot never shrinks any subtree interval, and any interval
/// that already ended before the append point is unchanged.
pub proof fn lemma_append_scope(s0: Seq<Links>, s1: Seq<Links>, q: Option<usize>, i: int)
    requires
        link_wf(s0),
        append_shape(s0, s1, q),
        (q matches Some(qq) ==> scope(s0, qq as int) == s0.len()),
        0 <= i < s0.len(),
    ensures
        scope(s1, i) >= scope(s0, i),
        scope(s0, i) < s0.len() ==> scope(s1, i) == scope(s0, i),
    decreases i,
{
    let n = s0.len() as int;
    assert(slot_wf(s0, i));
    lemma_scope_bounds(s0, i);
    match s0[i].next {
        Some(_) => {
            assert(s1[i].next == s0[i].next);
        },
        None => {
            if q == Some(i as usize) {
                assert(scope(s1, i) == n);
            } else {
                assert(s1[i].next is None);
                match s0[i].parent {
                    Some(p) => {
                        lemma_append_scope(s0, s1, q, p as int);
                    },
                    None => {},
                }
            }
        },
    }
}

/// Following the fringe: a slot whose subtree interval reaches the append
/// point, and which descends from `q`, keeps its interval ending exactly at
/// the appended slot.
pub proof fn lemma_append_scope_via_q(s0: Seq<Links>, s1: Seq<Links>, q: usize, d: int)
    requires
        link_wf(s0),
        append_shape(s0, s1, Some(q)),
        in_bounds(s0, d),
        is_anc_or_self(s0, q as int, d),
        scope(s0, d) == s0.len(),
    ensures
        scope(s1, d) == s0.len(),
    decreases d,
{
    let n = s0.len() as int;
    assert(slot_wf(s0, d));
    match s0[d].next {
        Some(j) => {
            assert(scope(s0, d) == j as int);
            assert(false);
        },
        None => {
            if d == q as int {
            } else {
                let p = s0[d].parent.unwrap() as int;
                assert(s1[d].next is None);
                lemma_append_scope_via_q(s0, s1, q, p);
            }
        },
    }
}

/// `scope` depends only on `next` and `parent` fields.
pub proof fn lemma_scope_same(s0: Seq<Links>, s1: Seq<Links>, i: int)
    requires
        s1.len() == s0.len(),
        forall|j: int| 0 <= j < s0.len()
            ==> (#[trigger] s1[j]).next == s0[j].next && s1[j].parent == s0[j].parent,
    ensures
        scope(s1, i) == scope(s0, i),
    decreases i,
{
    if in_bounds(s0, i) {
        match s0[i].next {
            Some(_) => {},
            None => match s0[i].parent {
                Some(p) => {
                    if 0 <= (p as int) < i {
                        lemma_scope_same(s0, s1, p as int);
                    }
                },
                None => {},
            },
        }
    }
}

/// Ancestry depends only on `parent` fields, and survives extending the
/// arena.
pub proof fn lemma_anc_same(s0: Seq<Links>, s1: Seq<Links>, a: int, d: int)
    requires
        s1.len() >= s0.len(),
        forall|j: int| 0 <= j < s0.len() ==> (#[trigger] s1[j]).parent == s0[j].parent,
        0 <= d < s0.len() || d == a,
        is_anc_or_self(s0, a, d),
    ensures
        is_anc_or_self(s1, a, d),
    decreases d,
{
    if d == a {
    } else {
        let p = s0[d].parent.unwrap() as int;
        lemma_anc_same(s0, s1, a, p);
    }
}

} // verus!

verus! {

/// Dropping the head of a chain suffix advances the suffix by one.
pub proof fn lemma_cons_skip(a: Seq<int>, i: int, r: Seq<int>, k: int)
    requires
        0 <= k < a.len(),
        a.skip(k) == seq![i] + r,
    ensures
        a.skip(k + 1) =~= r,
{
    assert(a.skip(k).len() == 1 + r.len());
    assert forall|m: int| 0 <= m < a.len() - (k + 1) implies a.skip(k + 1)[m] == r[m] by {
        assert(a.skip(k + 1)[m] == a[k + 1 + m]);
        assert(a.skip(k)[m + 1] == a[k + 1 + m]);
        assert((seq![i] + r)[m + 1] == r[m]);
    }
}

} // verus!

verus! {

/// The sibling chain starting at any child of `p` ends at `p`'s last
/// child.
pub proof fn lemma_chain_last(s: Seq<Links>, p: int, c: int)
    requires
        link_wf(s),
        in_bounds(s, p),
        is_child(s, p, c),
        s[p].last is Some,
    ensures
        chain_from(s, c).len() > 0,
        chain_from(s, c).last() == s[p].last.unwrap() as int,
    decreases s.len() - c,
{
    assert(slot_wf(s, c));
    match s[c].next {
        Some(j) => {
            assert(slot_wf(s, j as int));
            lemma_chain_last(s, p, j as int);
            assert((seq![c] + chain_from(s, j as int)).last()
                == chain_from(s, j as int).last());
        },
        None => {
            assert(s[p].last == Some(c as usize));
            assert(chain_from(s, c) == seq![c]);
        },
    }
}

} // verus!

verus! {

/// Depth can never exceed the arena index: parents come first.
pub proof fn lemma_depth_le_index(s: Seq<Links>, i: int)
    requires
        in_bounds(s, i),
    ensures
        depth(s, i) <= i,
    decreases i,
{
    match s[i].parent {
        Some(p) => {
            if 0 <= (p as int) < i {
                lemma_depth_le_index(s, p as int);
            }
        },
        None => {},
    }
}

/// A proper descendant is strictly deeper than its ancestor.
pub proof fn lemma_anc_depth(s: Seq<Links>, a: int, d: int)
    requires
        link_wf(s),
        in_bounds(s, d),
        is_anc_or_self(s, a, d),
    ensures
        depth(s, d) >= depth(s, a),
        d != a ==> depth(s, d) > depth(s, a),
    decreases d,
{
    if d == a {
    } else {
        let p = s[d].parent.unwrap() as int;
        assert(slot_wf(s, d));
        lemma_anc_depth(s, a, p);
    }
}

} // verus!

verus! {

/// Two ancestors of the same node are comparable: one is an ancestor of
/// the other.
pub proof fn lemma_anc_comparable(s: Seq<Links>, a: int, b: int, d: int)
    requires
        is_anc_or_self(s, a, d),
        is_anc_or_self(s, b, d),
    ensures
        is_anc_or_self(s, a, b) || is_anc_or_self(s, b, a),
    decreases d,
{
    if d == a {
    } else if d == b {
    } else {
        let p = s[d].parent.unwrap() as int;
        lemma_anc_comparable(s, a, b, p);
    }
}

} // verus!
