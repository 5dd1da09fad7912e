use vstd::prelude::*;

verus! {

/// The half-open interval `[self.0, self.1)` of base-text token positions.
#[derive(Clone, Copy, Debug)]
pub struct Range(pub usize, pub usize);

/// The larger of two integers.
pub open spec fn max_nat(a: nat, b: nat) -> nat {
    if a >= b { a } else { b }
}

/// The smaller of two integers.
pub open spec fn min_nat(a: nat, b: nat) -> nat {
    if a <= b { a } else { b }
}

impl Range {
    /// `other` lies entirely within `self`.
    pub open spec fn spec_contains(self, other: Range) -> bool {
        self.0 <= other.0 && other.1 <= self.1
    }

    /// The overlap of the two intervals, when it is non-empty.
    pub open spec fn spec_intersect(self, other: Range) -> Option<Range> {
        let left = max_nat(self.0 as nat, other.0 as nat);
        let right = min_nat(self.1 as nat, other.1 as nat);
        if left < right {
            Some(Range(left as usize, right as usize))
        } else {
            None
        }
    }

    /// The interval strictly between two ranges that neither contain nor
    /// touch each other.
    pub open spec fn spec_get_between(self, other: Range) -> Option<Range> {
        if self.spec_contains(other) || other.spec_contains(self) {
            None
        } else if self.1 < other.0 {
            Some(Range(self.1, other.0))
        } else if self.0 > other.1 {
            Some(Range(other.1, self.0))
        } else {
            None
        }
    }

    /// Both ends moved by `offset` lands inside the range of `usize`.
    pub open spec fn can_shift(self, offset: int) -> bool {
        0 <= self.0 + offset <= usize::MAX && 0 <= self.1 + offset <= usize::MAX
    }

    /// Both ends moved by `offset`.
    pub open spec fn spec_transform(self, offset: int) -> Range
        recommends
            self.can_shift(offset),
    {
        Range((self.0 + offset) as usize, (self.1 + offset) as usize)
    }

    pub fn intersect(self, other: Range) -> (r: Option<Range>)
        ensures
            r == self.spec_intersect(other),
    {
        let left = if self.0 >= other.0 { self.0 } else { other.0 };
        let right = if self.1 <= other.1 { self.1 } else { other.1 };
        if left < right {
            Some(Range(left, right))
        } else {
            None
        }
    }

    pub fn contains(self, other: Range) -> (r: bool)
        ensures
            r == self.spec_contains(other),
    {
        self.0 <= other.0 && other.1 <= self.1
    }

    pub fn get_between(self, other: Range) -> (r: Option<Range>)
        ensures
            r == self.spec_get_between(other),
    {
        if self.contains(other) || other.contains(self) {
            None
        } else if self.1 < other.0 {
            Some(Range(self.1, other.0))
        } else if self.0 > other.1 {
            Some(Range(other.1, self.0))
        } else {
            None
        }
    }

    pub fn transform(self, offset: isize) -> (r: Range)
        requires
            self.can_shift(offset as int),
        ensures
            r == self.spec_transform(offset as int),
    {
        if offset >= 0 {
            let d = offset as usize;
            Range(self.0 + d, self.1 + d)
        } else {
            let d = ((-(offset + 1)) as usize) + 1;
            Range(self.0 - d, self.1 - d)
        }
    }
}

} // verus!
