//! The mathematical model of the arena: well-formedness of the link
//! structure, and the spec-level navigation that every contract speaks of.
//!
//! A central fact of the storage model is that slots are appended in
//! document order: a parent is always allocated before its children, a
//! sibling before its later siblings.  Well-formedness records this through
//! index ordering (`parent < slot < next`), which also serves as the
//! termination measure of every recursive definition below.

use vstd::prelude::*;
use crate::links::{Kind, Links};

verus! {

/// `i` is a valid arena index for `s`.
pub open spec fn in_bounds(s: Seq<Links>, i: int) -> bool {
    0 <= i < s.len()
}

/// Slot `c` is a direct child of slot `p`.
pub open spec fn is_child(s: Seq<Links>, p: int, c: int) -> bool {
    in_bounds(s, c) && (s[c].parent matches Some(pp) && pp as int == p)
}

/// The index just past the subtree of `i`: the `next` of the nearest
/// ancestor-or-self that has one, or the arena length if none has.
/// Because the arena is laid out in document order, the subtree of `i`
/// occupies exactly the indices `i..scope(s, i)` in a well-formed arena.
pub open spec fn scope(s: Seq<Links>, i: int) -> int
    decreases i,
{
    if !in_bounds(s, i) {
        i + 1
    } else {
        match s[i].next {
            Some(j) => j as int,
            None => match s[i].parent {
                Some(p) => if 0 <= (p as int) < i {
                    scope(s, p as int)
                } else {
                    i + 1
                },
                None => s.len() as int,
            },
        }
    }
}

/// `a` is reached from `d` by following `parent` zero or more times.
pub open spec fn is_anc_or_self(s: Seq<Links>, a: int, d: int) -> bool
    decreases d,
{
    d == a || (in_bounds(s, d) && match s[d].parent {
        Some(p) => 0 <= (p as int) < d && is_anc_or_self(s, a, p as int),
        None => false,
    })
}

/// The number of `parent` steps from `i` to its root.
pub open spec fn depth(s: Seq<Links>, i: int) -> nat
    decreases i,
{
    if in_bounds(s, i) {
        match s[i].parent {
            Some(p) => if 0 <= (p as int) < i {
                1 + depth(s, p as int)
            } else {
                0
            },
            None => 0,
        }
    } else {
        0
    }
}

/// The indices visited by following `parent` from `i`, starting at `i`
/// itself.
pub open spec fn ancestor_chain(s: Seq<Links>, i: int) -> Seq<int>
    decreases i,
{
    if in_bounds(s, i) {
        match s[i].parent {
            Some(p) => if 0 <= (p as int) < i {
                seq![i] + ancestor_chain(s, p as int)
            } else {
                seq![i]
            },
            None => seq![i],
        }
    } else {
        Seq::empty()
    }
}

/// The indices visited by following `next` from `i`, starting at `i`
/// itself.
pub open spec fn chain_from(s: Seq<Links>, i: int) -> Seq<int>
    decreases s.len() - i,
{
    if !in_bounds(s, i) {
        Seq::empty()
    } else {
        match s[i].next {
            Some(j) => if i < j as int && (j as int) < s.len() {
                seq![i] + chain_from(s, j as int)
            } else {
                seq![i]
            },
            None => seq![i],
        }
    }
}

/// The sibling chain starting at an optional slot.
pub open spec fn opt_chain(s: Seq<Links>, o: Option<usize>) -> Seq<int> {
    match o {
        Some(c) => chain_from(s, c as int),
        None => Seq::empty(),
    }
}

/// The direct children of `p`, in order.
pub open spec fn children_chain(s: Seq<Links>, p: int) -> Seq<int> {
    if in_bounds(s, p) {
        opt_chain(s, s[p].first)
    } else {
        Seq::empty()
    }
}

/// The local well-formedness conditions of one slot.
pub open spec fn slot_wf(s: Seq<Links>, i: int) -> bool {
    let l = s[i];
    &&& (l.parent matches Some(p) ==> 0 <= (p as int) < i && s[p as int].kind == Kind::Node)
    &&& (l.prev matches Some(q) ==> 0 <= (q as int) < i)
    &&& (l.next matches Some(j) ==> i < (j as int) < s.len())
    &&& (l.first matches Some(f) ==> (f as int) == i + 1 && (f as int) < s.len())
    &&& (l.last matches Some(x) ==> i < (x as int) < s.len())
    &&& (l.kind == Kind::Token ==> l.first is None && l.last is None)
    &&& (l.first is Some <==> l.last is Some)
    &&& (l.next matches Some(j) ==> s[j as int].prev == Some(i as usize)
            && s[j as int].parent == l.parent)
    &&& (l.prev matches Some(q) ==> s[q as int].next == Some(i as usize)
            && s[q as int].parent == l.parent)
    &&& (l.first matches Some(f) ==> s[f as int].parent == Some(i as usize)
            && s[f as int].prev is None)
    &&& (l.last matches Some(x) ==> s[x as int].parent == Some(i as usize)
            && s[x as int].next is None)
    &&& (match l.parent {
            Some(p) => (match s[p as int].first {
                Some(f) => (f as int) <= i,
                None => false,
            }) && (match s[p as int].last {
                Some(x) => i <= (x as int),
                None => false,
            }),
            None => true,
        })
    &&& (match l.parent {
            Some(p) => (l.prev is None ==> s[p as int].first == Some(i as usize))
                && (l.next is None ==> s[p as int].last == Some(i as usize)),
            None => true,
        })
    &&& (l.last matches Some(x) ==> (x as int) < scope(s, i))
    &&& (l.first is None ==> scope(s, i) == i + 1)
}

/// Every slot is locally well formed.
pub open spec fn link_wf(s: Seq<Links>) -> bool {
    forall|i: int| in_bounds(s, i) ==> #[trigger] slot_wf(s, i)
}

/// The root chain bookkeeping: `rf` and `rl` are the head and tail of the
/// sibling chain of parentless slots.
pub open spec fn root_wf(s: Seq<Links>, rf: Option<usize>, rl: Option<usize>) -> bool {
    &&& (rf matches Some(f) ==> in_bounds(s, f as int) && s[f as int].parent is None
            && s[f as int].prev is None)
    &&& (rl matches Some(x) ==> in_bounds(s, x as int) && s[x as int].parent is None
            && s[x as int].next is None)
    &&& (rf is None <==> s.len() == 0)
    &&& (rl is None <==> s.len() == 0)
    &&& (forall|i: int| in_bounds(s, i) && (#[trigger] s[i]).parent is None && s[i].prev is None
            ==> rf == Some(i as usize))
    &&& (forall|i: int| in_bounds(s, i) && (#[trigger] s[i]).parent is None && s[i].next is None
            ==> rl == Some(i as usize))
}

/// The span discipline of one slot: a leaf keeps whatever the caller gave
/// it; a childless interior node is zero-width; an interior node with
/// children covers exactly the least start and greatest end among them.
#[verifier::opaque]
pub open spec fn span_ok(s: Seq<Links>, i: int) -> bool {
    s[i].kind == Kind::Node ==> {
        if s[i].first is None {
            s[i].span.start == s[i].span.end
        } else {
            &&& (forall|c: int| #[trigger] is_child(s, i, c)
                    ==> s[i].span.start <= s[c].span.start && s[c].span.end <= s[i].span.end)
            &&& (exists|c: int| #[trigger] is_child(s, i, c) && s[c].span.start == s[i].span.start)
            &&& (exists|c: int| #[trigger] is_child(s, i, c) && s[c].span.end == s[i].span.end)
        }
    }
}

/// Every slot obeys the span discipline.
pub open spec fn span_wf(s: Seq<Links>) -> bool {
    forall|i: int| in_bounds(s, i) ==> #[trigger] span_ok(s, i)
}

} // verus!

verus! {

/// The optional link `o` refers exactly to index `i`.
pub open spec fn link_target(o: Option<usize>, i: int) -> bool {
    o matches Some(x) && x as int == i
}

} // verus!

verus! {

/// The subsequence of `xs` holding only interior-node indices of `s`.
pub open spec fn interior_of(s: Seq<Links>, xs: Seq<int>) -> Seq<int>
    decreases xs.len(),
{
    if xs.len() == 0 {
        Seq::empty()
    } else if in_bounds(s, xs[0]) && s[xs[0]].kind == Kind::Node {
        seq![xs[0]] + interior_of(s, xs.drop_first())
    } else {
        interior_of(s, xs.drop_first())
    }
}

} // verus!

verus! {

/// The increasing run of indices from `lo` up to but not including `hi`.
pub open spec fn range_seq(lo: int, hi: int) -> Seq<int> {
    Seq::new(if hi >= lo { (hi - lo) as nat } else { 0 }, |k: int| lo + k)
}

} // verus!

verus! {

/// The node `node_with_range` returns: scanning the sibling chain at `c`,
/// remembering `best`, and descending into the first node whose span
/// contains `start..end`.
pub open spec fn locate(s: Seq<Links>, c: int, best: Option<int>, start: int, end: int) -> Option<int>
    decreases s.len() - c,
{
    if !in_bounds(s, c) {
        best
    } else if s[c].span.start <= start && end <= s[c].span.end {
        match s[c].first {
            Some(f) => if c < f as int && (f as int) < s.len() {
                locate(s, f as int, Some(c), start, end)
            } else {
                Some(c)
            },
            None => Some(c),
        }
    } else {
        match s[c].next {
            Some(j) => if c < j as int && (j as int) < s.len() {
                locate(s, j as int, best, start, end)
            } else {
                best
            },
            None => best,
        }
    }
}

/// The entry point of the lookup: start at the first root with no match
/// yet in hand.
pub open spec fn locate_in_forest(s: Seq<Links>, rf: Option<usize>, start: int, end: int) -> Option<int> {
    match rf {
        Some(f) => locate(s, f as int, None, start, end),
        None => None,
    }
}

} // verus!
