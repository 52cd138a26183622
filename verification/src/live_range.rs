//! Live ranges: the instruction intervals during which a value is alive.

use vstd::prelude::*;

verus! {

/// A live range: the instruction interval `[start, end)` during which a value is alive.
#[derive(Debug, Clone, Copy, PartialEq, Eq, Structural)]
pub struct LiveRange {
    pub start: u32,
    pub end: u32,
}

impl LiveRange {
    /// The range runs forwards: it does not end before it starts.
    pub open spec fn valid(self) -> bool {
        self.start <= self.end
    }

    /// The value is alive at instruction `point`.
    pub open spec fn covers(self, point: u32) -> bool {
        self.start <= point < self.end
    }

    /// Each range starts before the other one ends.
    pub open spec fn meets(self, other: LiveRange) -> bool {
        self.start < other.end && other.start < self.end
    }

    /// The range `[start, end)`.
    pub fn new(start: u32, end: u32) -> (range: Self)
        requires
            start <= end,
        ensures
            range.start == start,
            range.end == end,
            range.valid(),
    {
        Self { start, end }
    }

    /// Whether each range starts before the other one ends.
    pub fn overlaps(&self, other: &LiveRange) -> (result: bool)
        ensures
            result == self.meets(*other),
            result <==> self.start < other.end && other.start < self.end,
    {
        self.start < other.end && other.start < self.end
    }

    /// Number of instructions in the range.
    pub fn len(&self) -> (length: u32)
        requires
            self.valid(),
        ensures
            length == self.end - self.start,
    {
        self.end - self.start
    }

    /// Whether the range holds no instruction.
    pub fn is_empty(&self) -> (result: bool)
        ensures
            result == (self.start == self.end),
    {
        self.start == self.end
    }
}

/// A value is alive from the start of its range up to, but not at, the end of it.
pub proof fn lemma_alive_from_start_up_to_end(range: LiveRange, point: u32)
    ensures
        range.covers(point) <==> range.start <= point && point < range.end,
        range.valid() <==> !(range.end < range.start),
{
}

/// Two ranges stay clear of each other exactly when one of them has ended where the other starts.
pub proof fn lemma_apart_iff_one_ends_first(a: LiveRange, b: LiveRange)
    ensures
        !a.meets(b) <==> a.end <= b.start || b.end <= a.start,
{
}

/// Overlapping is symmetric.
pub proof fn lemma_meets_symmetric(a: LiveRange, b: LiveRange)
    ensures
        a.meets(b) == b.meets(a),
{
}

/// Two values are alive at a common instruction exactly when their ranges overlap and neither
/// range is empty. (An empty range strictly inside another one overlaps it without sharing an
/// instruction with it.)
pub proof fn lemma_meets_iff_common_instruction(a: LiveRange, b: LiveRange)
    requires
        a.valid(),
        b.valid(),
    ensures
        (exists|point: u32| a.covers(point) && b.covers(point)) <==> (a.meets(b) && a.start != a.end
            && b.start != b.end),
{
    if a.meets(b) && a.start != a.end && b.start != b.end {
        let point: u32 = if a.start < b.start { b.start } else { a.start };
        assert(a.covers(point) && b.covers(point));
    }
}

} // verus!
