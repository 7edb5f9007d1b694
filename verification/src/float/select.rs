//! Choosing among numbers: the larger, the smaller, the one within bounds.

use super::repr::F32;
use vstd::prelude::*;

verus! {

impl F32 {
    /// The larger number; a number rather than NaN.
    pub open spec fn larger(self, other: F32) -> F32 {
        if self.nan() || self.lt(other) {
            other
        } else {
            self
        }
    }

    /// The smaller number; a number rather than NaN.
    pub open spec fn smaller(self, other: F32) -> F32 {
        if self.nan() || other.lt(self) {
            other
        } else {
            self
        }
    }

    /// `self`, moved to the nearer bound where it lies outside; NaN stays.
    pub open spec fn clamped(self, low: F32, high: F32) -> F32 {
        if self.lt(low) {
            low
        } else if high.lt(self) {
            high
        } else {
            self
        }
    }

    /// `self` without its sign.
    pub open spec fn unsigned(self) -> F32 {
        F32::signed(false, self.mag())
    }

    /// A number from `low` to `high`.
    pub open spec fn within(self, low: F32, high: F32) -> bool {
        low.le(self) && self.le(high)
    }

    /// The larger of two numbers.
    pub fn max(self, other: F32) -> (r: F32)
        ensures
            r == self.larger(other),
    {
        if self.is_nan() || self.less(other) {
            other
        } else {
            self
        }
    }

    /// The smaller of two numbers.
    pub fn min(self, other: F32) -> (r: F32)
        ensures
            r == self.smaller(other),
    {
        if self.is_nan() || other.less(self) {
            other
        } else {
            self
        }
    }

    /// Limits a number to the range from `low` to `high`.
    pub fn clamp(self, low: F32, high: F32) -> (r: F32)
        requires
            low.le(high),
        ensures
            r == self.clamped(low, high),
            !self.nan() ==> r.within(low, high),
            self.nan() ==> r.nan(),
            self.within(low, high) ==> r == self,
    {
        if self.less(low) {
            low
        } else if high.less(self) {
            high
        } else {
            self
        }
    }

    /// The absolute value.
    pub fn abs(self) -> (r: F32)
        ensures
            r == self.unsigned(),
    {
        let (_, m) = self.split();
        F32 { bits: m }
    }
}

} // verus!
