//! Half-open ranges of byte offsets.

use vstd::prelude::*;

verus! {

/// The bytes from `start` up to, and not with, `end`. An interval whose end does
/// not lie behind its start is empty.
#[derive(Clone, Copy, Debug, PartialEq, Eq, Structural)]
pub struct Interval {
    pub start: usize,
    pub end: usize,
}

impl Interval {
    /// The interval from `start` to `end`.
    pub fn new(start: usize, end: usize) -> (iv: Interval)
        ensures
            iv == (Interval { start, end }),
    {
        Interval { start, end }
    }

    /// Both ends.
    pub fn start_end(&self) -> (ends: (usize, usize))
        ensures
            ends == (self.start, self.end),
    {
        (self.start, self.end)
    }

    /// Whether the interval holds no byte.
    pub fn is_empty(&self) -> (empty: bool)
        ensures
            empty == (self.end <= self.start),
    {
        self.end <= self.start
    }

    /// The part of `self` that lies before `other`.
    pub fn prefix(&self, other: Interval) -> (iv: Interval)
        ensures
            iv.start == self.start,
            iv.end == if self.end <= other.start {
                self.end
            } else {
                other.start
            },
    {
        Interval::new(
            self.start,
            if self.end <= other.start {
                self.end
            } else {
                other.start
            },
        )
    }

    /// The part of `self` that lies behind `other`.
    pub fn suffix(&self, other: Interval) -> (iv: Interval)
        ensures
            iv.start == if self.start >= other.end {
                self.start
            } else {
                other.end
            },
            iv.end == self.end,
    {
        Interval::new(
            if self.start >= other.end {
                self.start
            } else {
                other.end
            },
            self.end,
        )
    }
}

} // verus!
