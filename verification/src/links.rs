//! The slot record: kind, span and the five nullable sibling/child links.

use vstd::prelude::*;
use crate::span::Span;

verus! {

/// Whether a slot is an interior node or a leaf token.
#[derive(Clone, Copy, Debug, PartialEq, Eq, Structural, Hash)]
pub enum Kind {
    /// An interior node; its span is derived from its children when it is
    /// closed.
    Node,
    /// A leaf token carrying a caller-supplied, immutable span.
    Token,
}

/// One arena record.  Every link is a plain index into the same arena; the
/// payload of the slot lives in a parallel vector owned by the same tree, so
/// that records stay `Copy` and can be rewired in place.
#[derive(Clone, Copy, Debug)]
pub struct Links {
    /// Interior node or leaf token.
    pub kind: Kind,
    /// The covered source range.
    pub span: Span,
    /// The enclosing interior node, absent for roots.
    pub parent: Option<usize>,
    /// The sibling immediately before this slot.
    pub prev: Option<usize>,
    /// The sibling immediately after this slot.
    pub next: Option<usize>,
    /// The first child, absent for tokens and childless nodes.
    pub first: Option<usize>,
    /// The last child, absent for tokens and childless nodes.
    pub last: Option<usize>,
}

} // verus!
