use vstd::prelude::*;

verus! {

/// A region of a source text, counted in characters: `start` is the first
/// character that belongs to the region, `end` the first one that does not.
#[derive(Clone, Copy, Debug, PartialEq, Eq, Hash, Structural)]
pub struct Span {
    pub start: usize,
    pub end: usize,
}

impl Span {
    pub open spec fn spec_new(start: usize, end: usize) -> Span {
        Span { start, end }
    }

    /// Create the span covering `start..end`.
    pub fn new(start: usize, end: usize) -> (span: Span)
        ensures
            span == Span::spec_new(start, end),
    {
        Span { start, end }
    }

    /// The smallest span covering both `self` and `other`.
    pub open spec fn spec_join(self, other: Span) -> Span {
        Span {
            start: if self.start <= other.start { self.start } else { other.start },
            end: if self.end >= other.end { self.end } else { other.end },
        }
    }

    /// The smallest span covering both `self` and `other`.
    pub fn join(self, other: Span) -> (span: Span)
        ensures
            span == self.spec_join(other),
    {
        let start = if self.start <= other.start { self.start } else { other.start };
        let end = if self.end >= other.end { self.end } else { other.end };
        Span { start, end }
    }
}

} // verus!
