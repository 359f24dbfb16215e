//! The construction protocol: a stack of open frames over an append-only
//! arena, enforcing balanced nesting.

use vstd::prelude::*;
use crate::links::{Kind, Links};
use crate::span::Span;
use crate::tree::Tree;
use crate::model::{
    in_bounds, is_anc_or_self, is_child, link_wf, root_wf, scope, slot_wf, span_ok,
    children_chain, chain_from,
};
use crate::facts::{
    append_shape, lemma_anc_same, lemma_anc_trans, lemma_append_scope, lemma_append_scope_via_q,
    lemma_anc_scope, lemma_chain_elems_are_children, lemma_children_chain_exact, lemma_cons_skip,
    lemma_desc_in_range,
    lemma_scope_bounds, lemma_scope_same,
};

verus! {

/// The only failure of the construction protocol: a `close_node` without an
/// open frame, or a `build` with one still open.
#[derive(Clone, Copy, Debug, PartialEq, Eq, Structural, Hash)]
pub enum TreeError {
    /// Open and close calls did not nest.
    Unbalanced,
}

/// A stable reference to a slot, valid against the tree that produced it.
#[derive(Clone, Copy, Debug, PartialEq, Eq, Structural, Hash)]
pub struct Id {
    pub(crate) idx: usize,
}

impl Id {
    /// The arena index this identifier stands for.
    pub closed spec fn index(self) -> int {
        self.idx as int
    }

    /// Wrap a slot index.
    pub(crate) fn of(idx: usize) -> (r: Id)
        ensures
            r.index() == idx,
    {
        Id { idx }
    }

    /// The identifier as a plain index.
    pub fn get(&self) -> (r: usize)
        ensures
            r as int == self.index(),
    {
        self.idx
    }
}

/// Builds a [`Tree`] from a stream of `open_node` / `token` / `close_node`
/// calls.  Slots are appended to the arena in document order and wired into
/// their sibling chain immediately; closing a frame only finalizes its span
/// and pops the stack.
pub struct TreeBuilder<T> {
    pub(crate) data: Vec<T>,
    pub(crate) links: Vec<Links>,
    pub(crate) stack: Vec<usize>,
    pub(crate) root_first: Option<usize>,
    pub(crate) root_last: Option<usize>,
    pub(crate) cursor: usize,
}

/// `l` with its `next` link replaced.
pub open spec fn with_next(l: Links, nx: Option<usize>) -> Links {
    Links { next: nx, ..l }
}

/// `l` with its child links replaced.
pub open spec fn with_children(l: Links, f: Option<usize>, x: Option<usize>) -> Links {
    Links { first: f, last: x, ..l }
}

/// `l` with its span replaced.
pub open spec fn with_span(l: Links, sp: Span) -> Links {
    Links { span: sp, ..l }
}

/// The frames form a strictly nested chain of open interior slots: each is
/// the parent of the one above it, none has a following sibling yet.
pub open spec fn stack_chain(s: Seq<Links>, st: Seq<usize>) -> bool {
    &&& (forall|k: int| 0 <= k < st.len() ==> in_bounds(s, (#[trigger] st[k]) as int)
            && s[st[k] as int].kind == Kind::Node
            && s[st[k] as int].next is None)
    &&& (forall|k: int| 1 <= k < st.len()
            ==> s[(#[trigger] st[k]) as int].parent == Some(st[k - 1]) && st[k - 1] < st[k])
    &&& (st.len() > 0 ==> s[st[0] as int].parent is None)
}

/// An open frame's subtree interval always reaches the end of the arena:
/// nothing past it has been appended yet.
proof fn lemma_stack_scope(s: Seq<Links>, st: Seq<usize>, k: int)
    requires
        stack_chain(s, st),
        0 <= k < st.len(),
    ensures
        scope(s, st[k] as int) == s.len(),
    decreases k,
{
    if k == 0 {
    } else {
        lemma_stack_scope(s, st, k - 1);
    }
}

impl<T> TreeBuilder<T> {
    /// The arena built so far.
    pub closed spec fn arena(self) -> Seq<Links> {
        self.links@
    }

    /// The payloads appended so far.
    pub closed spec fn vals(self) -> Seq<T> {
        self.data@
    }

    /// The indices of the currently open frames, outermost first.
    pub closed spec fn frames(self) -> Seq<usize> {
        self.stack@
    }

    /// The first root appended so far.
    pub closed spec fn rf(self) -> Option<usize> {
        self.root_first
    }

    /// The last root appended so far.
    pub closed spec fn rl(self) -> Option<usize> {
        self.root_last
    }

    /// The write cursor: the end offset of the most recently appended
    /// token, where an interior node closed without children gets its
    /// zero-width span.
    pub closed spec fn cur(self) -> int {
        self.cursor as int
    }

    /// The frame new slots are appended into: the innermost open frame, or
    /// the root level when none is open.
    pub open spec fn cur_parent(self) -> Option<usize> {
        if self.frames().len() == 0 {
            None
        } else {
            Some(self.frames().last())
        }
    }

    /// The slot a new slot becomes the next sibling of: the last child of
    /// the innermost open frame, or the last root.
    pub open spec fn cur_prev(self) -> Option<usize> {
        match self.cur_parent() {
            Some(p) => self.arena()[p as int].last,
            None => self.rl(),
        }
    }

    /// Validity of the builder state: the arena is well formed throughout
    /// construction, every slot that is not an open frame already obeys the
    /// span discipline, and the stack bookkeeping is consistent.
    pub open spec fn wf(self) -> bool {
        let s = self.arena();
        let st = self.frames();
        &&& self.vals().len() == s.len()
        &&& link_wf(s)
        &&& root_wf(s, self.rf(), self.rl())
        &&& (forall|i: int| in_bounds(s, i) && !st.contains(i as usize)
                ==> #[trigger] span_ok(s, i))
        &&& stack_chain(s, st)
        &&& (forall|k: int| 0 <= k < st.len() - 1
                ==> s[(#[trigger] st[k]) as int].last == Some(st[k + 1]))
        &&& (st.len() > 0 ==> self.rl() == Some(st[0]))
        &&& (forall|k1: int, k2: int| 0 <= k1 <= k2 < st.len()
                ==> is_anc_or_self(s, (#[trigger] st[k1]) as int, (#[trigger] st[k2]) as int))
        &&& (st.len() > 0 ==> is_anc_or_self(s, st.last() as int, s.len() - 1))
        &&& (self.cur_prev() matches Some(x) ==> is_anc_or_self(s, x as int, s.len() - 1))
    }

    /// How one appended slot relates `pre` to `post`: the new record is
    /// wired after `pre.cur_prev()` under `pre.cur_parent()`, and nothing
    /// else changes except that sibling's `next`, that parent's child
    /// links, and the root bookkeeping.
    pub open spec fn appended(pre: Self, post: Self, value: T, kind: Kind, span: Span) -> bool {
        let n = pre.arena().len() as int;
        let s0 = pre.arena();
        let s1 = post.arena();
        &&& post.vals() == pre.vals().push(value)
        &&& s1.len() == n + 1
        &&& s1[n] == (Links {
            kind,
            span,
            parent: pre.cur_parent(),
            prev: pre.cur_prev(),
            next: None,
            first: None,
            last: None,
        })
        &&& (forall|i: int| 0 <= i < n && Some(i as usize) != pre.cur_prev()
                && Some(i as usize) != pre.cur_parent() ==> s1[i] == s0[i])
        &&& (pre.cur_prev() matches Some(q)
                ==> s1[q as int] == with_next(s0[q as int], Some(n as usize)))
        &&& (pre.cur_parent() matches Some(p)
                ==> s1[p as int] == with_children(
                    s0[p as int],
                    if s0[p as int].first is Some { s0[p as int].first } else { Some(n as usize) },
                    Some(n as usize),
                ))
        &&& post.rf() == (if pre.cur_parent() is None && pre.rf() is None {
                Some(n as usize)
            } else {
                pre.rf()
            })
        &&& post.rl() == (if pre.cur_parent() is None { Some(n as usize) } else { pre.rl() })
    }

    /// Create an empty builder: no slots, no open frames, cursor at zero.
    pub fn new() -> (r: Self)
        ensures
            r.wf(),
            r.arena().len() == 0,
            r.vals().len() == 0,
            r.frames().len() == 0,
            r.rf() is None,
            r.rl() is None,
            r.cur() == 0,
    {
        TreeBuilder {
            data: Vec::new(),
            links: Vec::new(),
            stack: Vec::new(),
            root_first: None,
            root_last: None,
            cursor: 0,
        }
    }

    /// Append one slot at the current level and wire it in.
    #[verifier::rlimit(100)]
    #[verifier::spinoff_prover]
    fn append_slot(&mut self, value: T, kind: Kind, span: Span) -> (n: usize)
        requires
            old(self).wf(),
            old(self).arena().len() < usize::MAX,
            kind == Kind::Node ==> span.start == span.end,
        ensures
            final(self).wf(),
            n as int == old(self).arena().len(),
            Self::appended(*old(self), *final(self), value, kind, span),
            final(self).frames() == old(self).frames(),
            final(self).cur() == old(self).cur(),
    {
        let n = self.links.len();
        let parent: Option<usize> = if self.stack.len() == 0 {
            None
        } else {
            Some(self.stack[self.stack.len() - 1])
        };
        proof {
            let st = self.stack@;
            if st.len() > 0 {
                assert(st[st.len() - 1] == st.last());
                assert(in_bounds(self.links@, st.last() as int));
            }
        }
        let prev: Option<usize> = match parent {
            Some(p) => self.links[p].last,
            None => self.root_last,
        };
        proof {
            let s0 = self.links@;
            if prev is Some {
                let q = prev.unwrap() as int;
                assert(is_anc_or_self(s0, q, s0.len() - 1));
                lemma_desc_in_range(s0, q, s0.len() - 1);
            }
        }
        let rec = Links { kind, span, parent, prev, next: None, first: None, last: None };
        proof {
            assert(parent == old(self).cur_parent());
            assert(prev == old(self).cur_prev());
        }
        self.links.push(rec);
        self.data.push(value);
        if let Some(q) = prev {
            proof {
                assert(in_bounds(old(self).arena(), q as int)) by {
                    let s0 = old(self).arena();
                    assert(is_anc_or_self(s0, q as int, s0.len() - 1));
                    lemma_desc_in_range(s0, q as int, s0.len() - 1);
                }
            }
            self.links[q].next = Some(n);
            proof {
                assert(self.links@[q as int] == with_next(old(self).arena()[q as int], Some(n)));
            }
        }
        let ghost s_mid = self.links@;
        match parent {
            Some(p) => {
                proof {
                    assert(Some(p) != prev) by {
                        let s0 = old(self).arena();
                        assert(slot_wf(s0, p as int));
                    }
                    assert(s_mid[p as int].first == old(self).arena()[p as int].first);
                    assert(s_mid[p as int].last == old(self).arena()[p as int].last);
                }
                if self.links[p].first.is_none() {
                    self.links[p].first = Some(n);
                }
                self.links[p].last = Some(n);
                proof {
                    assert(self.links@[p as int] == with_children(
                        old(self).arena()[p as int],
                        if old(self).arena()[p as int].first is Some {
                            old(self).arena()[p as int].first
                        } else {
                            Some(n)
                        },
                        Some(n),
                    ));
                }
            },
            None => {
                if self.root_first.is_none() {
                    self.root_first = Some(n);
                }
                self.root_last = Some(n);
            },
        }
        proof {
            assert(self.links@.len() == n as int + 1);
            assert(self.links@[n as int] == rec);
            assert(Self::appended(*old(self), *self, value, kind, span));
            lemma_append_wf(*old(self), *self, value, kind, span);
        }
        n
    }

    /// Open a new interior node at the current level: it is wired in at
    /// once, becomes the innermost frame, and is returned as a stable
    /// identifier.  Always succeeds.
    pub fn open_node(&mut self, value: T) -> (r: Id)
        requires
            old(self).wf(),
            old(self).arena().len() < usize::MAX,
        ensures
            final(self).wf(),
            r.index() == old(self).arena().len(),
            Self::appended(
                *old(self),
                *final(self),
                value,
                Kind::Node,
                Span { start: old(self).cur() as usize, end: old(self).cur() as usize },
            ),
            final(self).frames() == old(self).frames().push((old(self).arena().len()) as usize),
            final(self).cur() == old(self).cur(),
    {
        let at = self.cursor;
        let n = self.append_slot(value, Kind::Node, Span { start: at, end: at });
        let ghost mid = *self;
        self.stack.push(n);
        proof {
            lemma_open_push_wf(*old(self), mid, *self, value, at, n);
        }
        Id { idx: n }
    }

    /// Append a leaf token with a caller-supplied span at the current
    /// level; the cursor moves to the end of that span.  Never fails, also
    /// at the root level.
    pub fn token(&mut self, value: T, span: Span)
        requires
            old(self).wf(),
            old(self).arena().len() < usize::MAX,
        ensures
            final(self).wf(),
            Self::appended(*old(self), *final(self), value, Kind::Token, span),
            final(self).frames() == old(self).frames(),
            final(self).cur() == span.end,
    {
        self.append_slot(value, Kind::Token, span);
        self.cursor = span.end;
    }

    /// Close the innermost open frame.  Its span becomes the cover of its
    /// direct children — least start to greatest end — or a zero-width
    /// span at the cursor if it has none.  Fails with
    /// [`TreeError::Unbalanced`], changing nothing, when no frame is open.
    #[verifier::rlimit(100)]
    #[verifier::spinoff_prover]
    pub fn close_node(&mut self) -> (r: Result<(), TreeError>)
        requires
            old(self).wf(),
        ensures
            final(self).wf(),
            old(self).frames().len() == 0 ==> r == Err::<(), TreeError>(TreeError::Unbalanced)
                && *final(self) == *old(self),
            old(self).frames().len() > 0 ==> {
                let p = old(self).frames().last() as int;
                let s0 = old(self).arena();
                let s1 = final(self).arena();
                &&& r == Ok::<(), TreeError>(())
                &&& final(self).frames() == old(self).frames().drop_last()
                &&& final(self).vals() == old(self).vals()
                &&& s1.len() == s0.len()
                &&& (forall|i: int| 0 <= i < s0.len() && i != p ==> s1[i] == s0[i])
                &&& s1[p] == with_span(s0[p], s1[p].span)
                &&& (s0[p].first is None ==> s1[p].span
                        == (Span { start: old(self).cur() as usize, end: old(self).cur() as usize }))
                &&& (s0[p].first is Some ==> {
                    &&& (forall|c: int| #[trigger] is_child(s1, p, c)
                            ==> s1[p].span.start <= s1[c].span.start
                                && s1[c].span.end <= s1[p].span.end)
                    &&& (exists|c: int| #[trigger] is_child(s1, p, c)
                            && s1[c].span.start == s1[p].span.start)
                    &&& (exists|c: int| #[trigger] is_child(s1, p, c)
                            && s1[c].span.end == s1[p].span.end)
                })
                &&& final(self).rf() == old(self).rf()
                &&& final(self).rl() == old(self).rl()
                &&& final(self).cur() == old(self).cur()
            },
    {
        if self.stack.len() == 0 {
            return Err(TreeError::Unbalanced);
        }
        let total = self.links.len();
        proof {
            assert(old(self).arena().len() == total as int);
        }
        let p = self.stack[self.stack.len() - 1];
        proof {
            let st = self.stack@;
            assert(st[st.len() - 1] == st.last());
            assert(in_bounds(self.links@, p as int));
            assert(slot_wf(self.links@, p as int));
        }
        let sp: Span;
        match self.links[p].first {
            None => {
                sp = Span { start: self.cursor, end: self.cursor };
            },
            Some(f) => {
                proof {
                    let s = self.links@;
                    assert(slot_wf(s, f as int));
                    assert(chain_from(s, f as int) == children_chain(s, p as int));
                }
                let ghost ch = children_chain(self.links@, p as int);
                let mut min_start = self.links[f].span.start;
                let mut max_end = self.links[f].span.end;
                let mut cur: Option<usize> = self.links[f].next;
                let ghost mut k: int = 1;
                proof {
                    let s = self.links@;
                    assert(ch[0] == f as int);
                    assert(ch.skip(0) =~= ch);
                    if s[f as int].next is Some {
                        let j = s[f as int].next.unwrap();
                        assert(slot_wf(s, j as int));
                        assert(ch == seq![f as int] + chain_from(s, j as int));
                        lemma_cons_skip(ch, f as int, chain_from(s, j as int), 0);
                    } else {
                        assert(ch =~= seq![f as int]);
                    }
                }
                loop
                    invariant
                        self.wf(),
                        *self == *old(self),
                        in_bounds(self.links@, p as int),
                        ch == children_chain(self.links@, p as int),
                        1 <= k <= ch.len(),
                        (cur matches Some(c) ==> k < ch.len()
                            && chain_from(self.links@, c as int) =~= ch.skip(k)
                            && in_bounds(self.links@, c as int)),
                        (cur is None ==> k == ch.len()),
                        forall|k2: int| 0 <= k2 < k
                            ==> min_start <= self.links@[#[trigger] ch[k2]].span.start
                                && self.links@[ch[k2]].span.end <= max_end,
                        exists|k2: int| 0 <= k2 < k
                            && min_start == self.links@[#[trigger] ch[k2]].span.start,
                        exists|k2: int| 0 <= k2 < k
                            && max_end == self.links@[#[trigger] ch[k2]].span.end,
                    ensures
                        cur is None,
                        k == ch.len(),
                        *self == *old(self),
                        forall|k2: int| 0 <= k2 < ch.len()
                            ==> min_start <= self.links@[#[trigger] ch[k2]].span.start
                                && self.links@[ch[k2]].span.end <= max_end,
                        exists|k2: int| 0 <= k2 < ch.len()
                            && min_start == self.links@[#[trigger] ch[k2]].span.start,
                        exists|k2: int| 0 <= k2 < ch.len()
                            && max_end == self.links@[#[trigger] ch[k2]].span.end,
                    decreases ch.len() - k,
                {
                    match cur {
                        None => {
                            break;
                        },
                        Some(c) => {
                            proof {
                                let s = self.links@;
                                assert(ch.skip(k)[0] == ch[k]);
                                assert(chain_from(s, c as int)[0] == c as int);
                                assert(ch[k] == c as int);
                                assert(slot_wf(s, c as int));
                                if s[c as int].next is Some {
                                    let j = s[c as int].next.unwrap();
                                    assert(slot_wf(s, j as int));
                                    assert(chain_from(s, c as int)
                                        == seq![c as int] + chain_from(s, j as int));
                                    lemma_cons_skip(ch, c as int, chain_from(s, j as int), k);
                                } else {
                                    assert(chain_from(s, c as int) =~= seq![c as int]);
                                    assert(ch.len() == k + 1);
                                }
                            }
                            let csp = self.links[c].span;
                            if csp.start < min_start {
                                min_start = csp.start;
                            }
                            if csp.end > max_end {
                                max_end = csp.end;
                            }
                            cur = self.links[c].next;
                            proof {
                                k = k + 1;
                            }
                        },
                    }
                }
                sp = Span { start: min_start, end: max_end };
                proof {
                    let s = self.links@;
                    lemma_children_chain_exact(s, p as int);
                    assert forall|c: int| is_child(s, p as int, c)
                        implies sp.start <= s[c].span.start && s[c].span.end <= sp.end by {
                        assert(ch.contains(c));
                        let k2 = choose|k2: int| 0 <= k2 < ch.len() && ch[k2] == c;
                        assert(min_start <= s[ch[k2]].span.start);
                    }
                    let ka = choose|k2: int| 0 <= k2 < ch.len()
                        && min_start == s[#[trigger] ch[k2]].span.start;
                    assert(ch.contains(ch[ka]));
                    assert(is_child(s, p as int, ch[ka]) && s[ch[ka]].span.start == sp.start);
                    let kb = choose|k2: int| 0 <= k2 < ch.len()
                        && max_end == s[#[trigger] ch[k2]].span.end;
                    assert(ch.contains(ch[kb]));
                    assert(is_child(s, p as int, ch[kb]) && s[ch[kb]].span.end == sp.end);
                }
            },
        }
        self.links[p].span = sp;
        self.stack.pop();
        proof {
            lemma_close_wf(*old(self), *self, p, sp);
            let s0 = old(self).arena();
            let s1 = self.links@;
            assert(s1[p as int].span == sp);
            if s0[p as int].first is Some {
                assert forall|c: int| is_child(s1, p as int, c)
                    implies s1[p as int].span.start <= s1[c].span.start
                        && s1[c].span.end <= s1[p as int].span.end by {
                    assert(s1[c].parent == s0[c].parent);
                    assert(is_child(s0, p as int, c));
                    assert(slot_wf(s0, c));
                    assert(c != p as int);
                    assert(s1[c].span == s0[c].span);
                }
                let ca = choose|c: int| #[trigger] is_child(s0, p as int, c)
                    && s0[c].span.start == sp.start;
                assert(slot_wf(s0, ca));
                assert(ca != p as int);
                assert(is_child(s1, p as int, ca) && s1[ca].span == s0[ca].span);
                let cb = choose|c: int| #[trigger] is_child(s0, p as int, c)
                    && s0[c].span.end == sp.end;
                assert(slot_wf(s0, cb));
                assert(cb != p as int);
                assert(is_child(s1, p as int, cb) && s1[cb].span == s0[cb].span);
            }
        }
        Ok(())
    }

    /// Freeze the arena into an immutable [`Tree`].  Succeeds exactly when
    /// no frame is still open; fails with [`TreeError::Unbalanced`]
    /// otherwise, and never hands out a partial tree.
    pub fn build(self) -> (r: Result<Tree<T>, TreeError>)
        requires
            self.wf(),
        ensures
            r is Ok <==> self.frames().len() == 0,
            r matches Ok(t) ==> t.wf() && t.arena() == self.arena() && t.vals() == self.vals()
                && t.rf() == self.rf() && t.rl() == self.rl(),
            self.frames().len() > 0 ==> r == Err::<Tree<T>, TreeError>(TreeError::Unbalanced),
    {
        if self.stack.len() != 0 {
            return Err(TreeError::Unbalanced);
        }
        let total = self.links.len();
        proof {
            assert(self.arena().len() == total as int);
        }
        let t = Tree {
            data: self.data,
            links: self.links,
            root_first: self.root_first,
            root_last: self.root_last,
        };
        proof {
            crate::tree::lemma_tree_parts(&t);
            assert forall|i: int| in_bounds(t.arena(), i) implies span_ok(t.arena(), i) by {
                assert(self.frames().len() == 0);
                assert(!self.frames().contains(i as usize));
                assert(span_ok(self.arena(), i));
            }
        }
        Ok(t)
    }
}

/// Shared groundwork for the append proofs: the shape of the change, the
/// facts about the previous sibling, and the fringe scopes.
#[verifier::rlimit(100)]
#[verifier::spinoff_prover]
proof fn lemma_append_basics<T>(pre: TreeBuilder<T>, post: TreeBuilder<T>, value: T, kind: Kind, span: Span)
    requires
        pre.wf(),
        pre.arena().len() < usize::MAX,
        kind == Kind::Node ==> span.start == span.end,
        TreeBuilder::appended(pre, post, value, kind, span),
        post.frames() == pre.frames(),
    ensures
        append_shape(pre.arena(), post.arena(), pre.cur_prev()),
        pre.cur_prev() matches Some(q) ==> in_bounds(pre.arena(), q as int)
            && scope(pre.arena(), q as int) == pre.arena().len()
            && pre.arena()[q as int].next is None
            && (pre.cur_parent() matches Some(p) ==> pre.arena()[q as int].parent == Some(p)
                && q != p)
            && (pre.cur_parent() is None ==> pre.arena()[q as int].parent is None),
{
    let s0 = pre.arena();
    let s1 = post.arena();
    let n = s0.len() as int;
    let st = pre.frames();
    let qo = pre.cur_prev();
    let po = pre.cur_parent();

    if st.len() > 0 {
        assert(in_bounds(s0, st.last() as int));
        assert(slot_wf(s0, st.last() as int));
    }
    if qo is Some {
        let q = qo.unwrap() as int;
        assert(is_anc_or_self(s0, q, n - 1));
        lemma_desc_in_range(s0, q, n - 1);
        assert(slot_wf(s0, q));
        lemma_scope_bounds(s0, q);
        assert(scope(s0, q) == n);
        match po {
            Some(p) => {
                assert(s0[p as int].last == Some(q as usize));
                assert(s0[q].parent == Some(p));
            },
            None => {
                assert(s0[q].parent is None);
            },
        }
    }
    assert forall|j: int| 0 <= j < n implies (#[trigger] s1[j]).parent == s0[j].parent by {
        if Some(j as usize) == qo {
            assert(s1[j] == with_next(s0[j], Some(n as usize)));
        } else if Some(j as usize) == po {
        } else {
            assert(s1[j] == s0[j]);
        }
    }
    assert forall|j: int| 0 <= j < n && Some(j as usize) != qo
        implies (#[trigger] s1[j]).next == s0[j].next by {
        if Some(j as usize) == po {
        } else {
            assert(s1[j] == s0[j]);
        }
    }
    assert(append_shape(s0, s1, qo)) by {
        if qo is Some {
            let q = qo.unwrap() as int;
            assert(s0[q].next is None);
        }
    }
}

/// The rebuilt stack facts and the fringe scope of the appended slot.
#[verifier::rlimit(100)]
#[verifier::spinoff_prover]
proof fn lemma_append_stack<T>(pre: TreeBuilder<T>, post: TreeBuilder<T>, value: T, kind: Kind, span: Span)
    requires
        pre.wf(),
        pre.arena().len() < usize::MAX,
        kind == Kind::Node ==> span.start == span.end,
        TreeBuilder::appended(pre, post, value, kind, span),
        post.frames() == pre.frames(),
    ensures
        stack_chain(post.arena(), pre.frames()),
        scope(post.arena(), pre.arena().len() as int) == pre.arena().len() + 1,
{
    let s0 = pre.arena();
    let s1 = post.arena();
    let n = s0.len() as int;
    let st = pre.frames();
    let qo = pre.cur_prev();
    let po = pre.cur_parent();
    lemma_append_basics(pre, post, value, kind, span);
    assert forall|k: int| 0 <= k < st.len() implies Some(st[k]) != qo by {
        if qo == Some(st[k]) {
            let q = st[k] as int;
            assert(in_bounds(s0, q));
            assert(slot_wf(s0, q));
            let top = st.last();
            assert(is_anc_or_self(s0, q, top as int));
            lemma_anc_scope(s0, q, top as int);
            assert(q <= top as int);
            assert(s0[q].parent == Some(top));
            if k == 0 {
                assert(s0[st[0] as int].parent is None);
            } else {
                assert(s0[q].parent == Some(st[k - 1]));
                assert(st[k - 1] < st[k]);
                assert(st[k - 1] == top);
            }
            assert(false);
        }
    }
    assert(stack_chain(s1, st)) by {
        assert forall|k: int| 0 <= k < st.len() implies in_bounds(s1, (st[k]) as int)
            && s1[st[k] as int].kind == Kind::Node && s1[st[k] as int].next is None by {
            assert(in_bounds(s0, st[k] as int));
            assert(Some(st[k]) != qo);
            if po == Some(st[k]) {
                assert(s1[st[k] as int] == with_children(
                    s0[st[k] as int],
                    if s0[st[k] as int].first is Some { s0[st[k] as int].first } else { Some(n as usize) },
                    Some(n as usize),
                ));
            } else {
                assert(s1[st[k] as int] == s0[st[k] as int]);
            }
        }
    }
    assert(scope(s1, n) == n + 1) by {
        match po {
            Some(p) => {
                assert(s1[n].next is None);
                assert(s1[n].parent == Some(p));
                assert(st.len() > 0 && st.last() == p);
                lemma_stack_scope(s1, st, st.len() - 1int);
            },
            None => {},
        }
    }
}

/// Local well-formedness of one slot after the append.
#[verifier::rlimit(60)]
proof fn lemma_append_slot_wf<T>(pre: TreeBuilder<T>, post: TreeBuilder<T>, value: T, kind: Kind, span: Span, i: int)
    requires
        pre.wf(),
        pre.arena().len() < usize::MAX,
        kind == Kind::Node ==> span.start == span.end,
        TreeBuilder::appended(pre, post, value, kind, span),
        post.frames() == pre.frames(),
        in_bounds(post.arena(), i),
    ensures
        slot_wf(post.arena(), i),
{
    let s0 = pre.arena();
    let s1 = post.arena();
    let n = s0.len() as int;
    let st = pre.frames();
    let qo = pre.cur_prev();
    let po = pre.cur_parent();
    lemma_append_basics(pre, post, value, kind, span);
    lemma_append_stack(pre, post, value, kind, span);
    if st.len() > 0 {
        assert(in_bounds(s0, st.last() as int));
        assert(slot_wf(s0, st.last() as int));
    }
    if i < n {
        assert(slot_wf(s0, i));
    }
    if i == n {
        if po is Some {
            let p = po.unwrap() as int;
            assert(in_bounds(s0, p));
            assert(slot_wf(s0, p));
            if s0[p].first is None {
                assert(scope(s0, p) == p + 1);
                lemma_stack_scope(s0, st, st.len() - 1int);
                assert(p == n - 1);
            }
        }
        if qo is Some {
            let q = qo.unwrap() as int;
            assert(slot_wf(s0, q));
        }
        assert(slot_wf(s1, n));
    } else if qo == Some(i as usize) {
        let q = i;
        assert(s1[q] == with_next(s0[q], Some(n as usize)));
        if s0[q].first is None {
            assert(scope(s0, q) == q + 1);
            assert(q == n - 1);
        }
        match s0[q].prev {
            Some(b) => {
                assert(Some(b) != qo);
                if po is Some {
                    assert(b != po.unwrap());
                }
            },
            None => {},
        }
        match s0[q].first {
            Some(f) => {
                assert(s0[f as int].parent == Some(q as usize));
                if po is Some {
                    assert(f != po.unwrap());
                }
                assert(s1[f as int] == s0[f as int]);
            },
            None => {},
        }
        match s0[q].last {
            Some(x) => {
                assert(s0[x as int].parent == Some(q as usize));
                if po is Some {
                    assert(x != po.unwrap());
                }
                assert(s1[x as int] == s0[x as int]);
                assert(scope(s1, q) == n);
            },
            None => {},
        }
        match s0[q].parent {
            Some(pq) => {
                assert(po == Some(pq));
            },
            None => {},
        }
        assert(slot_wf(s1, q));
    } else if po == Some(i as usize) {
        let p = i;
        assert(s1[p] == with_children(
            s0[p],
            if s0[p].first is Some { s0[p].first } else { Some(n as usize) },
            Some(n as usize),
        ));
        if s0[p].first is None {
            assert(scope(s0, p) == p + 1);
            lemma_stack_scope(s0, st, st.len() - 1int);
            assert(p == n - 1);
            assert(qo is None);
        } else {
            let f = s0[p].first.unwrap() as int;
            assert(s0[f].parent == Some(p as usize));
            assert(f != n);
            if qo is Some {
                assert(f != qo.unwrap() as int || s1[f].parent == s0[f].parent);
            }
            assert(s1[f].parent == s0[f].parent);
            assert(s1[f].prev == s0[f].prev);
        }
        assert(scope(s1, p) == n + 1) by {
            assert(st.len() > 0 && st.last() == p as usize);
            lemma_stack_scope(s1, st, st.len() - 1int);
        }
        match s0[p].prev {
            Some(b) => {
                assert(Some(b) != qo);
            },
            None => {},
        }
        match s0[p].parent {
            Some(pp) => {
                // p's parent is the frame below it, untouched by the append:
                // q is a child of p, not p's parent.
                assert(st.len() > 0 && st.last() == p as usize);
                if st.len() > 1 {
                    assert(st[st.len() - 2] < st[st.len() - 1]);
                }
                assert(Some(pp) != qo);
                assert(s1[pp as int].first == s0[pp as int].first);
                assert(s1[pp as int].last == s0[pp as int].last);
            },
            None => {},
        }
        assert(slot_wf(s1, p));
    } else {
        // Untouched slots.
        assert(s1[i] == s0[i]);
        lemma_append_scope(s0, s1, qo, i);
        if s0[i].first is None {
            assert(scope(s0, i) == i + 1);
            if i + 1 < n {
                assert(scope(s1, i) == i + 1);
            } else {
                assert(i == n - 1);
                match qo {
                    Some(q) => {
                        assert(is_anc_or_self(s0, q as int, i));
                        lemma_append_scope_via_q(s0, s1, q, i);
                    },
                    None => {
                        // With no previous sibling the only childless slot
                        // at the fringe would be the top frame, excluded
                        // here, or the arena is empty.
                        if po is Some {
                            let p = po.unwrap() as int;
                            assert(s0[p].first is None);
                            assert(scope(s0, p) == p + 1);
                            lemma_stack_scope(s0, st, st.len() - 1int);
                            assert(p == n - 1);
                            assert(false);
                        } else {
                            assert(pre.rl() is None);
                            assert(s0.len() == 0);
                            assert(false);
                        }
                    },
                }
            }
        }
        match s0[i].last {
            Some(x) => {
                assert((x as int) < scope(s0, i));
            },
            None => {},
        }
        // Clauses about neighbours that changed: q gained a next, p new
        // child links.
        match s0[i].prev {
            Some(b) => {
                if Some(b) == qo {
                    // impossible: q had no next in s0
                    assert(s0[b as int].next == Some(i as usize));
                    assert(false);
                }
            },
            None => {},
        }
        match s0[i].next {
            Some(j) => {
                assert(Some(j) != qo || s0[j as int].prev == Some(i as usize));
                if po is Some && j == po.unwrap() {
                    assert(s1[j as int].prev == s0[j as int].prev);
                    assert(s1[j as int].parent == s0[j as int].parent);
                }
            },
            None => {},
        }
        match s0[i].parent {
            Some(p) => {
                if Some(p) == po {
                    assert(s1[p as int].first == s0[p as int].first);
                    assert(s1[p as int].last == Some(n as usize));
                }
            },
            None => {},
        }
        match s0[i].first {
            Some(f) => {
                if po is Some && f == po.unwrap() {
                    assert(s1[f as int].parent == s0[f as int].parent);
                    assert(s1[f as int].prev == s0[f as int].prev);
                }
            },
            None => {},
        }
        match s0[i].last {
            Some(x) => {
                if po is Some && x == po.unwrap() {
                    assert(s1[x as int].parent == s0[x as int].parent);
                    assert(s1[x as int].next == s0[x as int].next);
                }
            },
            None => {},
        }
        assert(slot_wf(s1, i));
    }
}

/// Root-chain bookkeeping after the append.
#[verifier::rlimit(60)]
proof fn lemma_append_root_wf<T>(pre: TreeBuilder<T>, post: TreeBuilder<T>, value: T, kind: Kind, span: Span)
    requires
        pre.wf(),
        pre.arena().len() < usize::MAX,
        kind == Kind::Node ==> span.start == span.end,
        TreeBuilder::appended(pre, post, value, kind, span),
        post.frames() == pre.frames(),
    ensures
        root_wf(post.arena(), post.rf(), post.rl()),
{
    let s0 = pre.arena();
    let s1 = post.arena();
    let n = s0.len() as int;
    let st = pre.frames();
    let qo = pre.cur_prev();
    let po = pre.cur_parent();
    lemma_append_basics(pre, post, value, kind, span);
    if st.len() > 0 {
        assert(in_bounds(s0, st.last() as int));
        assert(slot_wf(s0, st.last() as int));
    }
    if po is Some {
        assert(post.rf() == pre.rf() && post.rl() == pre.rl());
        match pre.rf() {
            Some(f) => {
                assert(s0[f as int].parent is None);
                assert(Some(f) != qo || s0[f as int].parent == po);
                assert(s1[f as int].parent is None && s1[f as int].prev is None);
            },
            None => {},
        }
        match pre.rl() {
            Some(x) => {
                assert(Some(x) != qo || s0[x as int].parent == po);
                if Some(x) == po {
                    assert(s1[x as int].next == s0[x as int].next);
                }
            },
            None => {},
        }
        assert forall|i: int| in_bounds(s1, i) && (#[trigger] s1[i]).parent is None
            && s1[i].prev is None implies post.rf() == Some(i as usize) by {
            assert(i != n);
            assert(s1[i].parent == s0[i].parent);
        }
        assert forall|i: int| in_bounds(s1, i) && (#[trigger] s1[i]).parent is None
            && s1[i].next is None implies post.rl() == Some(i as usize) by {
            assert(i != n);
            if qo == Some(i as usize) {
                assert(s0[i].parent == po);
                assert(false);
            }
        }
    } else {
        match qo {
            Some(q) => {
                assert(pre.rl() == Some(q));
                assert(s0.len() > 0);
            },
            None => {
                assert(pre.rl() is None);
                assert(s0.len() == 0);
            },
        }
        assert forall|i: int| in_bounds(s1, i) && (#[trigger] s1[i]).parent is None
            && s1[i].prev is None implies post.rf() == Some(i as usize) by {
            if i < n {
                assert(s1[i].parent == s0[i].parent);
                assert(s1[i].prev == s0[i].prev);
                assert(pre.rf() == Some(i as usize));
            } else {
                assert(s1[n].prev == qo);
                assert(qo is None);
                assert(pre.rf() is None);
            }
        }
        assert forall|i: int| in_bounds(s1, i) && (#[trigger] s1[i]).parent is None
            && s1[i].next is None implies post.rl() == Some(i as usize) by {
            if i < n {
                if qo == Some(i as usize) {
                    assert(s1[i].next == Some(n as usize));
                    assert(false);
                } else {
                    assert(s1[i].next == s0[i].next);
                    assert(pre.rl() == Some(i as usize));
                    assert(false);
                }
            }
        }
    }
}

/// The span discipline of one closed slot survives the append.
#[verifier::rlimit(60)]
proof fn lemma_append_span_ok<T>(pre: TreeBuilder<T>, post: TreeBuilder<T>, value: T, kind: Kind, span: Span, i: int)
    requires
        pre.wf(),
        pre.arena().len() < usize::MAX,
        kind == Kind::Node ==> span.start == span.end,
        TreeBuilder::appended(pre, post, value, kind, span),
        post.frames() == pre.frames(),
        in_bounds(post.arena(), i),
        !pre.frames().contains(i as usize),
    ensures
        span_ok(post.arena(), i),
{
    let s0 = pre.arena();
    let s1 = post.arena();
    let n = s0.len() as int;
    let st = pre.frames();
    let qo = pre.cur_prev();
    let po = pre.cur_parent();
    reveal(crate::model::span_ok);
    lemma_append_basics(pre, post, value, kind, span);
    if i == n {
        assert(s1[n].first is None);
    } else {
        assert(span_ok(s0, i));
        assert(slot_wf(s0, i));
        if po is Some {
            assert(in_bounds(s0, st.last() as int));
            assert(slot_wf(s0, st.last() as int));
            assert(st.contains(st.last()));
            assert(i != po.unwrap() as int);
        }
        assert(s1[i].span == s0[i].span);
        assert(s1[i].kind == s0[i].kind);
        assert(s1[i].first == s0[i].first);
        if s1[i].kind == Kind::Node && s1[i].first is Some {
            assert forall|c: int| is_child(s1, i, c)
                implies s1[i].span.start <= s1[c].span.start
                    && s1[c].span.end <= s1[i].span.end by {
                assert(c != n);
                assert(s1[c].parent == s0[c].parent);
                assert(is_child(s0, i, c));
                assert(s1[c].span == s0[c].span);
            }
            let c1 = choose|c: int| #[trigger] is_child(s0, i, c)
                && s0[c].span.start == s0[i].span.start;
            assert(s1[c1].parent == s0[c1].parent && s1[c1].span == s0[c1].span);
            assert(is_child(s1, i, c1));
            let c2 = choose|c: int| #[trigger] is_child(s0, i, c)
                && s0[c].span.end == s0[i].span.end;
            assert(s1[c2].parent == s0[c2].parent && s1[c2].span == s0[c2].span);
            assert(is_child(s1, i, c2));
        }
    }
}

/// The append of one slot preserves the builder invariant.
#[verifier::rlimit(60)]
proof fn lemma_append_wf<T>(pre: TreeBuilder<T>, post: TreeBuilder<T>, value: T, kind: Kind, span: Span)
    requires
        pre.wf(),
        pre.arena().len() < usize::MAX,
        kind == Kind::Node ==> span.start == span.end,
        TreeBuilder::appended(pre, post, value, kind, span),
        post.frames() == pre.frames(),
    ensures
        post.wf(),
{
    let s0 = pre.arena();
    let s1 = post.arena();
    let n = s0.len() as int;
    let st = pre.frames();
    let qo = pre.cur_prev();
    let po = pre.cur_parent();
    lemma_append_basics(pre, post, value, kind, span);
    lemma_append_stack(pre, post, value, kind, span);
    if st.len() > 0 {
        assert(in_bounds(s0, st.last() as int));
        assert(slot_wf(s0, st.last() as int));
    }

    assert forall|i: int| in_bounds(s1, i) implies slot_wf(s1, i) by {
        lemma_append_slot_wf(pre, post, value, kind, span, i);
    }
    lemma_append_root_wf(pre, post, value, kind, span);
    assert forall|i: int| in_bounds(s1, i) && !st.contains(i as usize)
        implies span_ok(s1, i) by {
        lemma_append_span_ok(pre, post, value, kind, span, i);
    }

    // Frame bookkeeping.
    assert forall|k: int| 0 <= k < st.len() - 1
        implies s1[(st[k]) as int].last == Some(st[k + 1]) by {
        assert(in_bounds(s0, st[k] as int));
        assert(Some(st[k]) != qo);
        if po is Some {
            assert(st[k] != st.last() || k == st.len() - 1);
        }
    }
    assert forall|k1: int, k2: int| 0 <= k1 <= k2 < st.len()
        implies is_anc_or_self(s1, (st[k1]) as int, (st[k2]) as int) by {
        assert(is_anc_or_self(s0, st[k1] as int, st[k2] as int));
        assert(in_bounds(s0, st[k2] as int));
        lemma_anc_same(s0, s1, st[k1] as int, st[k2] as int);
    }
    if st.len() > 0 {
        assert(is_anc_or_self(s1, st.last() as int, n)) by {
            assert(s1[n].parent == Some(st.last()));
            assert(is_anc_or_self(s1, st.last() as int, st.last() as int));
        }
    }
    assert(post.cur_prev() matches Some(x) ==> is_anc_or_self(s1, x as int, s1.len() - 1)) by {
        if st.len() > 0 {
            assert(s1[st.last() as int].last == Some(n as usize));
            assert(post.cur_prev() == Some(n as usize));
        } else {
            assert(post.rl() == Some(n as usize));
        }
        assert(is_anc_or_self(s1, n, n));
    }
}


/// Opening a node is an append followed by a push of the new frame; the
/// two steps together preserve the builder invariant.
#[verifier::rlimit(60)]
#[verifier::spinoff_prover]
proof fn lemma_open_push_wf<T>(
    pre: TreeBuilder<T>,
    mid: TreeBuilder<T>,
    post: TreeBuilder<T>,
    value: T,
    at: usize,
    n: usize,
)
    requires
        pre.wf(),
        pre.arena().len() < usize::MAX,
        n as int == pre.arena().len(),
        mid.wf(),
        TreeBuilder::appended(pre, mid, value, Kind::Node, Span { start: at, end: at }),
        mid.frames() == pre.frames(),
        post.arena() == mid.arena(),
        post.vals() == mid.vals(),
        post.rf() == mid.rf(),
        post.rl() == mid.rl(),
        post.frames() == mid.frames().push(n),
    ensures
        post.wf(),
{
    let s1 = mid.arena();
    let st = pre.frames();
    assert(s1[n as int].kind == Kind::Node);
    assert(s1[n as int].next is None);
    assert(s1[n as int].first is None);
    assert(s1[n as int].parent == pre.cur_parent());
    assert(mid.cur_parent() == pre.cur_parent());
    if st.len() > 0 {
        assert(in_bounds(pre.arena(), st.last() as int));
        assert(s1[st.last() as int] == with_children(
            pre.arena()[st.last() as int],
            if pre.arena()[st.last() as int].first is Some {
                pre.arena()[st.last() as int].first
            } else {
                Some(n)
            },
            Some(n),
        ));
        assert(s1[mid.frames().last() as int].last == Some(n));
    } else {
        assert(mid.rl() == Some(n));
    }
    lemma_open_wf(mid, post, n);
}

/// Pushing the freshly appended interior slot as the new innermost frame
/// preserves the builder invariant.
proof fn lemma_open_wf<T>(pre: TreeBuilder<T>, post: TreeBuilder<T>, n: usize)
    requires
        pre.wf(),
        post.vals() == pre.vals(),
        post.arena() == pre.arena(),
        post.rf() == pre.rf(),
        post.rl() == pre.rl(),
        post.frames() == pre.frames().push(n),
        n as int == pre.arena().len() - 1,
        pre.arena()[n as int].kind == Kind::Node,
        pre.arena()[n as int].next is None,
        pre.arena()[n as int].first is None,
        pre.arena()[n as int].parent == pre.cur_parent(),
        pre.frames().len() > 0 ==> pre.arena()[pre.frames().last() as int].last == Some(n),
        pre.frames().len() == 0 ==> pre.rl() == Some(n),
    ensures
        post.wf(),
{
    let s = pre.arena();
    let st0 = pre.frames();
    let st1 = post.frames();
    assert(st1.last() == n);
    assert(forall|k: int| 0 <= k < st0.len() ==> st1[k] == st0[k]);
    assert forall|i: int| in_bounds(s, i) && !st1.contains(i as usize)
        implies span_ok(s, i) by {
        if st0.contains(i as usize) {
            let k = choose|k: int| 0 <= k < st0.len() && st0[k] == i as usize;
            assert(st1[k] == i as usize);
            assert(false);
        }
    }
    assert(stack_chain(s, st1)) by {
        if st0.len() > 0 {
            assert(in_bounds(s, st0.last() as int));
            assert forall|k: int| 1 <= k < st1.len()
                implies s[(st1[k]) as int].parent == Some(st1[k - 1])
                    && st1[k - 1] < st1[k] by {
                if k < st0.len() {
                    assert(st1[k] == st0[k] && st1[k - 1] == st0[k - 1]);
                } else {
                    assert(st1[k] == n && st1[k - 1] == st0.last());
                    assert(s[n as int].parent == Some(st0.last()));
                }
            }
        }
    }
    assert forall|k: int| 0 <= k < st1.len() - 1
        implies s[(st1[k]) as int].last == Some(st1[k + 1]) by {
        if k < st0.len() - 1 {
            assert(st1[k] == st0[k] && st1[k + 1] == st0[k + 1]);
        } else {
            assert(k == st0.len() - 1);
            assert(st1[k] == st0.last() && st1[k + 1] == n);
        }
    }
    assert forall|k1: int, k2: int| 0 <= k1 <= k2 < st1.len()
        implies is_anc_or_self(s, (st1[k1]) as int, (st1[k2]) as int) by {
        if k2 < st0.len() {
            assert(st1[k1] == st0[k1] && st1[k2] == st0[k2]);
        } else {
            assert(st1[k2] == n);
            assert(is_anc_or_self(s, n as int, n as int));
            if k1 < st0.len() {
                assert(st1[k1] == st0[k1]);
                assert(s[n as int].parent == Some(st0.last()));
                assert(is_anc_or_self(s, st0[k1] as int, st0.last() as int));
            }
        }
    }
    assert(is_anc_or_self(s, st1.last() as int, s.len() - 1));
    assert(post.cur_prev() == s[n as int].last);
    assert(s[n as int].last is None) by {
        assert(slot_wf(s, n as int));
    }
}

/// The exact change a `close_node` makes: only the popped frame's span is
/// replaced, by the cover of its children or a zero-width placeholder.
pub open spec fn close_shape<T>(pre: TreeBuilder<T>, post: TreeBuilder<T>, p: usize, sp: Span) -> bool {
    &&& pre.arena().len() <= usize::MAX
    &&& pre.frames().len() > 0
    &&& p == pre.frames().last()
    &&& post.vals() == pre.vals()
    &&& post.frames() == pre.frames().drop_last()
    &&& post.rf() == pre.rf()
    &&& post.rl() == pre.rl()
    &&& post.arena().len() == pre.arena().len()
    &&& (forall|i: int| 0 <= i < pre.arena().len() && i != p as int
            ==> (#[trigger] post.arena()[i]) == pre.arena()[i])
    &&& post.arena()[p as int] == with_span(pre.arena()[p as int], sp)
    &&& (pre.arena()[p as int].first is None ==> sp.start == sp.end)
    &&& (pre.arena()[p as int].first is Some ==> {
        &&& (forall|c: int| #[trigger] is_child(pre.arena(), p as int, c)
                ==> sp.start <= pre.arena()[c].span.start
                    && pre.arena()[c].span.end <= sp.end)
        &&& (exists|c: int| #[trigger] is_child(pre.arena(), p as int, c)
                && pre.arena()[c].span.start == sp.start)
        &&& (exists|c: int| #[trigger] is_child(pre.arena(), p as int, c)
                && pre.arena()[c].span.end == sp.end)
    })
}

/// After a close, no slot changes parent and only the popped frame's span
/// changes; a slot off the shortened stack keeps its very children.
#[verifier::rlimit(60)]
#[verifier::spinoff_prover]
proof fn lemma_close_children_same<T>(pre: TreeBuilder<T>, post: TreeBuilder<T>, p: usize, sp: Span, i: int)
    requires
        pre.wf(),
        close_shape(pre, post, p, sp),
        in_bounds(post.arena(), i),
        !post.frames().contains(i as usize),
    ensures
        forall|c: int| is_child(post.arena(), i, c) <==> is_child(pre.arena(), i, c),
        forall|c: int| #[trigger] is_child(post.arena(), i, c)
            ==> post.arena()[c].span == pre.arena()[c].span && c != p as int,
{
    let s0 = pre.arena();
    let s1 = post.arena();
    let st0 = pre.frames();
    let st1 = post.frames();
    assert(in_bounds(s0, p as int));
    assert(slot_wf(s0, p as int));
    assert(forall|k: int| 0 <= k < st1.len() ==> st1[k] == st0[k]);
    assert forall|c: int| is_child(s1, i, c) implies is_child(s0, i, c)
        && s1[c].span == s0[c].span && c != p as int by {
        assert(s1[c].parent == s0[c].parent);
        // If c were the popped frame, i would be the frame below it, which
        // stays on the stack -- but i is off the stack.
        if c == p as int {
            if st0.len() > 1 {
                assert(s0[p as int].parent == Some(st0[st0.len() - 2]));
                assert(st1[st0.len() - 2] == st0[st0.len() - 2]);
                assert(st1.contains(st0[st0.len() - 2]));
                assert(i != st0[st0.len() - 2] as int);
                assert(false);
            } else {
                assert(s0[p as int].parent is None);
                assert(false);
            }
        }
    }
    assert forall|c: int| is_child(s0, i, c) implies is_child(s1, i, c) by {
        assert(s1[c].parent == s0[c].parent);
    }
}

/// One slot's span discipline after a close.
#[verifier::rlimit(100)]
#[verifier::spinoff_prover]
proof fn lemma_close_span_ok<T>(pre: TreeBuilder<T>, post: TreeBuilder<T>, p: usize, sp: Span, i: int)
    requires
        pre.wf(),
        close_shape(pre, post, p, sp),
        in_bounds(post.arena(), i),
        !post.frames().contains(i as usize),
    ensures
        span_ok(post.arena(), i),
{
    let s0 = pre.arena();
    let s1 = post.arena();
    let st0 = pre.frames();
    let st1 = post.frames();
    reveal(crate::model::span_ok);
    assert(in_bounds(s0, p as int));
    assert(slot_wf(s0, p as int));
    assert(forall|k: int| 0 <= k < st1.len() ==> st1[k] == st0[k]);
    lemma_close_children_same(pre, post, p, sp, i);
    if i == p as int {
        if s0[p as int].first is Some {
            assert(s1[p as int].span == sp);
            let c1 = choose|c: int| #[trigger] is_child(s0, p as int, c)
                && s0[c].span.start == sp.start;
            assert(is_child(s1, p as int, c1) && s1[c1].span == s0[c1].span);
            let c2 = choose|c: int| #[trigger] is_child(s0, p as int, c)
                && s0[c].span.end == sp.end;
            assert(is_child(s1, p as int, c2) && s1[c2].span == s0[c2].span);
        }
    } else {
        if st0.contains(i as usize) {
            let k = choose|k: int| 0 <= k < st0.len() && st0[k] == i as usize;
            assert(st0[st0.len() - 1] == st0.last());
            if k == st0.len() - 1 {
                assert(st0[k] == p);
                assert(i as usize == p);
                assert(0 <= i < s1.len());
                assert(i == p as int);
            }
            assert(k < st0.len() - 1);
            assert(st1[k] == st0[k]);
            assert(st1.contains(i as usize));
            assert(false);
        }
        assert(span_ok(s0, i));
        assert(s1[i].span == s0[i].span && s1[i].kind == s0[i].kind
            && s1[i].first == s0[i].first);
        if s1[i].kind == Kind::Node && s1[i].first is Some {
            let c1 = choose|c: int| #[trigger] is_child(s0, i, c)
                && s0[c].span.start == s0[i].span.start;
            let c2 = choose|c: int| #[trigger] is_child(s0, i, c)
                && s0[c].span.end == s0[i].span.end;
            assert(is_child(s1, i, c1) && s1[c1].span == s0[c1].span);
            assert(is_child(s1, i, c2) && s1[c2].span == s0[c2].span);
        }
    }
}

/// Popping a closed frame and finalizing its span preserves the builder
/// invariant.
#[verifier::rlimit(60)]
#[verifier::spinoff_prover]
proof fn lemma_close_wf<T>(pre: TreeBuilder<T>, post: TreeBuilder<T>, p: usize, sp: Span)
    requires
        pre.wf(),
        close_shape(pre, post, p, sp),
    ensures
        post.wf(),
{
    let s0 = pre.arena();
    let s1 = post.arena();
    let st0 = pre.frames();
    let st1 = post.frames();
    assert(in_bounds(s0, p as int));
    assert(slot_wf(s0, p as int));

    // Links are untouched, so scope and ancestry carry over index by index.
    assert(forall|j: int| 0 <= j < s0.len()
        ==> (#[trigger] s1[j]).next == s0[j].next && s1[j].parent == s0[j].parent
            && s1[j].prev == s0[j].prev && s1[j].first == s0[j].first
            && s1[j].last == s0[j].last && s1[j].kind == s0[j].kind);
    assert forall|i: int| in_bounds(s1, i) implies slot_wf(s1, i) by {
        assert(slot_wf(s0, i));
        lemma_scope_same(s0, s1, i);
        match s0[i].last {
            Some(x) => {
                assert((x as int) < scope(s0, i));
            },
            None => {},
        }
        if s0[i].first is None {
            assert(scope(s0, i) == i + 1);
        }
    }
    assert(root_wf(s1, post.rf(), post.rl()));

    // The popped frame now obeys the span discipline; everything else kept
    // its span, children and kind.
    assert forall|i: int| in_bounds(s1, i) && !st1.contains(i as usize)
        implies span_ok(s1, i) by {
        lemma_close_span_ok(pre, post, p, sp, i);
    }

    // Stack bookkeeping for the shortened stack.
    assert(forall|k: int| 0 <= k < st1.len() ==> st1[k] == st0[k]);
    assert(stack_chain(s1, st1));
    assert forall|k: int| 0 <= k < st1.len() - 1
        implies s1[(st1[k]) as int].last == Some(st1[k + 1]) by {
        assert(st1[k] == st0[k] && st1[k + 1] == st0[k + 1]);
    }
    if st1.len() > 0 {
        assert(post.rl() == Some(st1[0])) by {
            assert(st1[0] == st0[0]);
        }
    }
    assert forall|k1: int, k2: int| 0 <= k1 <= k2 < st1.len()
        implies is_anc_or_self(s1, (st1[k1]) as int, (st1[k2]) as int) by {
        assert(is_anc_or_self(s0, st0[k1] as int, st0[k2] as int));
        lemma_anc_same(s0, s1, st0[k1] as int, st0[k2] as int);
    }
    // The new top frame, and the new current level's last slot, still reach
    // the fringe.
    let last0 = s0.len() - 1;
    assert(is_anc_or_self(s0, p as int, last0));
    if st1.len() > 0 {
        let newtop = st1.last() as int;
        assert(newtop == st0[st0.len() - 2] as int);
        assert(is_anc_or_self(s0, newtop, p as int));
        lemma_anc_trans(s0, newtop, p as int, last0);
        lemma_anc_same(s0, s1, newtop, last0);
        assert(s1[newtop].last == Some(p)) by {
            assert(s0[st0[st0.len() - 2] as int].last == Some(st0[st0.len() - 1]));
            assert(st0[st0.len() - 1] == p);
        }
        assert(post.cur_prev() == Some(p));
        lemma_anc_same(s0, s1, p as int, last0);
    } else {
        assert(post.cur_prev() == post.rl());
        assert(pre.rl() == Some(st0[0]));
        assert(st0[0] == p);
        lemma_anc_same(s0, s1, p as int, last0);
    }
}

} // verus!
