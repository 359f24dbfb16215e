//! The span representation used by every slot of the arena.

use vstd::prelude::*;

verus! {

/// A contiguous range of source offsets, `start..end`.
#[derive(Clone, Copy, Debug, PartialEq, Eq, Structural, Hash)]
pub struct Span {
    pub start: usize,
    pub end: usize,
}

impl Span {
    /// Create a span from its bounds.
    pub fn new(start: usize, end: usize) -> (r: Span)
        ensures
            r == (Span { start, end }),
    {
        Span { start, end }
    }

    /// An empty span positioned at offset `at`.
    pub fn point(at: usize) -> (r: Span)
        ensures
            r == (Span { start: at, end: at }),
    {
        Span { start: at, end: at }
    }

    /// Whether the span covers no offsets at all.
    pub fn is_empty(&self) -> (r: bool)
        ensures
            r == (self.start == self.end),
    {
        self.start == self.end
    }

    /// Whether `other` lies entirely within this span.
    pub fn contains(&self, other: &Span) -> (r: bool)
        ensures
            r == (self.start <= other.start && other.end <= self.end),
    {
        self.start <= other.start && other.end <= self.end
    }
}

} // verus!
