//! Ranges over positions of the entire input, as opposed to positions within a part.
use std::ops::Range;
use vstd::prelude::*;

verus! {

/// A range whose [`GlobalRange::start`] and [`GlobalRange::end`] denote *global*
/// positions, across the entire input.
#[derive(Debug, Clone, Copy, PartialEq, Eq, PartialOrd, Ord, Hash)]
pub struct GlobalRange<T = usize> {
    /// Like [`std::ops::Range::start`].
    pub start: T,
    /// Like [`std::ops::Range::end`].
    pub end: T,
}

impl GlobalRange {
    /// Like [`std::ops::Range::is_empty`]: whether no position lies in the range.
    pub fn is_empty(&self) -> (b: bool)
        ensures
            b == !(self.start < self.end),
    {
        !(self.start < self.end)
    }

    /// Like [`std::ops::Range::contains`]: whether `item` lies in the range.
    pub fn contains(&self, item: usize) -> (b: bool)
        ensures
            b == (self.start <= item < self.end),
    {
        self.start <= item && item < self.end
    }

    /// A new [`Range`], shifted towards zero by `by`: a [`GlobalRange`] of `5..8`
    /// shifted by `2` becomes `3..6`.
    pub fn shift(self, by: usize) -> (r: Range<usize>)
        requires
            by <= self.start,
            by <= self.end,
        ensures
            r.start == self.start - by,
            r.end == self.end - by,
    {
        Range { start: self.start - by, end: self.end - by }
    }

    /// The same range as a [`Range`].
    pub fn to_range(self) -> (r: Range<usize>)
        ensures
            r.start == self.start,
            r.end == self.end,
    {
        Range { start: self.start, end: self.end }
    }

    /// The same range as a [`GlobalRange`].
    pub fn from_range(range: Range<usize>) -> (r: Self)
        ensures
            r.start == range.start,
            r.end == range.end,
    {
        GlobalRange { start: range.start, end: range.end }
    }
}

/// Shifting a range and shifting it back gives the same bounds.
pub proof fn lemma_shift_back(start: usize, end: usize, by: usize)
    requires
        by <= start,
        by <= end,
    ensures
        (start - by) + by == start,
        (end - by) + by == end,
        ((end - by) - (start - by)) == end - start,
{
}

} // verus!
