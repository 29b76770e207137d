//! Half-open byte ranges into a source text.
use vstd::prelude::*;
use std::ops::Range;

verus! {

/// A half-open byte range `start..end`.
#[derive(Clone, Copy, Debug, PartialEq, Eq, Structural)]
pub struct Span {
    /// Inclusive start byte offset.
    pub start: usize,
    /// Exclusive end byte offset.
    pub end: usize,
}

impl Span {
    /// A span that covers `start..end`.
    pub fn new(start: usize, end: usize) -> (span: Span)
        ensures
            span == (Span { start, end }),
    {
        Span { start, end }
    }

    /// The length of this span in bytes.
    pub fn len(&self) -> (n: usize)
        requires
            self.start <= self.end,
        ensures
            n == self.end - self.start,
    {
        self.end - self.start
    }

    /// Whether this span has no length.
    pub fn is_empty(&self) -> (r: bool)
        ensures
            r == (self.start == self.end),
    {
        self.start == self.end
    }
}

impl From<Range<usize>> for Span {
    fn from(range: Range<usize>) -> (span: Span) {
        Span { start: range.start, end: range.end }
    }
}

impl vstd::std_specs::convert::FromSpecImpl<Range<usize>> for Span {
    open spec fn obeys_from_spec() -> bool {
        true
    }

    open spec fn from_spec(range: Range<usize>) -> Span {
        Span { start: range.start, end: range.end }
    }
}

impl From<Span> for Range<usize> {
    fn from(span: Span) -> (range: Range<usize>) {
        Range { start: span.start, end: span.end }
    }
}

impl vstd::std_specs::convert::FromSpecImpl<Span> for Range<usize> {
    open spec fn obeys_from_spec() -> bool {
        true
    }

    open spec fn from_spec(span: Span) -> Range<usize> {
        Range { start: span.start, end: span.end }
    }
}

/// A range becomes a span and comes back the same.
pub proof fn law_range_round_trip(range: Range<usize>)
    ensures
        <Range<usize> as vstd::std_specs::convert::FromSpec<Span>>::from_spec(
            <Span as vstd::std_specs::convert::FromSpec<Range<usize>>>::from_spec(range),
        ) == range,
{
}

} // verus!
