//! The extremes of a run of rectangles along one axis, from which the two
//! seeds of a split are picked.

use crate::geometry2d::{lemma_truncated_quotient_bound, truncated_quotient, Coordinate};
use vstd::prelude::*;

verus! {

/// Running extremes along one axis.
///
/// `min_low` is the lowest low side seen and `max_high` the highest high side:
/// between them lies the whole extent. `max_low` is the highest low side seen
/// and `low_idx` the index of the entry that has it; `min_high` is the lowest
/// high side seen and `high_idx` the index of the entry that has it. These two
/// entries are the seeds of a split. Of entries that are level, the first
/// counts.
pub struct DimExtremes<T: Coordinate> {
    pub min_low: T,
    pub max_low: T,
    pub min_high: T,
    pub max_high: T,
    pub low_idx: usize,
    pub high_idx: usize,
}

impl<T: Coordinate> DimExtremes<T> {
    /// The extremes of one interval.
    pub open spec fn spec_new(low: T, high: T, idx: usize) -> Self {
        DimExtremes {
            min_low: low,
            max_low: low,
            min_high: high,
            max_high: high,
            low_idx: idx,
            high_idx: idx,
        }
    }

    /// The extremes after one more interval: the lower of the two low sides
    /// and of the two high sides, the higher of the two low sides and of the
    /// two high sides. `low_idx` becomes `idx` where the low side is higher
    /// than `max_low` was, and `high_idx` where the high side is lower than
    /// `min_high` was.
    pub open spec fn spec_update(self, low: T, high: T, idx: usize) -> Self {
        DimExtremes {
            min_low: if low.value() < self.min_low.value() {
                low
            } else {
                self.min_low
            },
            max_high: if high.value() > self.max_high.value() {
                high
            } else {
                self.max_high
            },
            max_low: if low.value() > self.max_low.value() {
                low
            } else {
                self.max_low
            },
            low_idx: if low.value() > self.max_low.value() {
                idx
            } else {
                self.low_idx
            },
            min_high: if high.value() < self.min_high.value() {
                high
            } else {
                self.min_high
            },
            high_idx: if high.value() < self.min_high.value() {
                idx
            } else {
                self.high_idx
            },
        }
    }

    /// All four extremes lie within the coordinate type's limit.
    pub open spec fn within_limit(self) -> bool {
        &&& -T::limit() <= self.min_low.value() <= T::limit()
        &&& -T::limit() <= self.max_low.value() <= T::limit()
        &&& -T::limit() <= self.min_high.value() <= T::limit()
        &&& -T::limit() <= self.max_high.value() <= T::limit()
    }

    /// The widest extent: from the lowest low side to the highest high side.
    pub open spec fn spec_far(self) -> int {
        self.max_high.value() - self.min_low.value()
    }

    /// The gap between the two seeds: from the highest low side to the lowest
    /// high side. It is what all intervals have in common where it is
    /// positive, and what lies between the seeds where it is negative.
    pub open spec fn spec_near(self) -> int {
        self.min_high.value() - self.max_low.value()
    }

    /// The extremes of one interval.
    pub fn new(low: T, high: T, idx: usize) -> (extremes: Self)
        ensures
            extremes == Self::spec_new(low, high, idx),
    {
        Self {
            min_low: low,
            max_low: low,
            min_high: high,
            max_high: high,
            low_idx: idx,
            high_idx: idx,
        }
    }

    /// Takes one more interval in: see `spec_update`.
    pub fn update(&mut self, low: T, high: T, idx: usize)
        ensures
            *final(self) == old(self).spec_update(low, high, idx),
    {
        if low.less_than(self.min_low) {
            self.min_low = low;
        }
        if self.max_high.less_than(high) {
            self.max_high = high;
        }
        if self.max_low.less_than(low) {
            self.max_low = low;
            self.low_idx = idx;
        }
        if high.less_than(self.min_high) {
            self.min_high = high;
            self.high_idx = idx;
        }
    }

    /// The extent of the run divided by the gap between its seeds.
    pub fn normalized(&self) -> (ratio: Ratio<T>)
        requires
            self.within_limit(),
        ensures
            ratio.describes(self.spec_far(), self.spec_near()),
    {
        proof {
            T::limit_is_positive();
            let l = T::limit();
            assert(2 * l <= 8 * (l * l)) by (nonlinear_arith)
                requires
                    l >= 1,
            ;
            T::limit_is_safe(self.spec_far());
            T::limit_is_safe(self.spec_near());
        }
        let dist_near = self.min_high.minus(self.max_low);
        let dist_far = self.max_high.minus(self.min_low);
        proof {
            if self.spec_near() != 0 {
                lemma_truncated_quotient_bound(self.spec_far(), self.spec_near());
                T::limit_is_safe(truncated_quotient(self.spec_far(), self.spec_near()));
            }
        }
        Ratio::of(dist_far, dist_near)
    }
}

/// A quotient of two coordinates whose divisor may be zero.
///
/// A quotient by zero is infinite, with the sign of the dividend; zero by zero
/// is undefined and compares with nothing.
pub enum Ratio<T: Coordinate> {
    Undefined,
    NegativeInfinity,
    Finite(T),
    PositiveInfinity,
}

/// Whether the quotient `far_a / near_a` is greater than the quotient
/// `far_b / near_b`: quotients are rounded toward zero, a quotient by zero is
/// infinite with the sign of its dividend, and zero by zero is greater than
/// nothing and nothing is greater than it.
pub open spec fn ratio_exceeds(far_a: int, near_a: int, far_b: int, near_b: int) -> bool {
    if (near_a == 0 && far_a == 0) || (near_b == 0 && far_b == 0) {
        false
    } else if near_a == 0 && near_b == 0 {
        far_a > 0 && far_b < 0
    } else if near_a == 0 {
        far_a > 0
    } else if near_b == 0 {
        far_b < 0
    } else {
        truncated_quotient(far_a, near_a) > truncated_quotient(far_b, near_b)
    }
}

impl<T: Coordinate> Ratio<T> {
    /// This is the quotient of `far` by `near`.
    pub open spec fn describes(self, far: int, near: int) -> bool {
        match self {
            Ratio::Undefined => near == 0 && far == 0,
            Ratio::NegativeInfinity => near == 0 && far < 0,
            Ratio::PositiveInfinity => near == 0 && far > 0,
            Ratio::Finite(q) => near != 0 && q.value() == truncated_quotient(far, near),
        }
    }

    /// `self > other`
    pub open spec fn spec_exceeds(self, other: Self) -> bool {
        match (self, other) {
            (Ratio::Undefined, _) => false,
            (_, Ratio::Undefined) => false,
            (Ratio::NegativeInfinity, _) => false,
            (_, Ratio::PositiveInfinity) => false,
            (_, Ratio::NegativeInfinity) => true,
            (Ratio::PositiveInfinity, _) => true,
            (Ratio::Finite(a), Ratio::Finite(b)) => a.value() > b.value(),
        }
    }

    /// The quotient of `far` by `near`.
    pub fn of(far: T, near: T) -> (ratio: Self)
        requires
            near.value() != 0 ==> T::holds(truncated_quotient(far.value(), near.value())),
        ensures
            ratio.describes(far.value(), near.value()),
    {
        let zero = T::zero();
        if near.equals(zero) {
            if zero.less_than(far) {
                Ratio::PositiveInfinity
            } else if far.less_than(zero) {
                Ratio::NegativeInfinity
            } else {
                Ratio::Undefined
            }
        } else {
            Ratio::Finite(far.quotient(near))
        }
    }

    /// `self > other`
    pub fn exceeds(&self, other: &Self) -> (b: bool)
        ensures
            b == self.spec_exceeds(*other),
    {
        match (self, other) {
            (Ratio::Undefined, _) => false,
            (_, Ratio::Undefined) => false,
            (Ratio::NegativeInfinity, _) => false,
            (_, Ratio::PositiveInfinity) => false,
            (_, Ratio::NegativeInfinity) => true,
            (Ratio::PositiveInfinity, _) => true,
            (Ratio::Finite(a), Ratio::Finite(b)) => b.less_than(*a),
        }
    }
}

/// Comparing two quotients is comparing what they are quotients of.
pub proof fn lemma_exceeds<T: Coordinate>(
    a: Ratio<T>,
    b: Ratio<T>,
    far_a: int,
    near_a: int,
    far_b: int,
    near_b: int,
)
    requires
        a.describes(far_a, near_a),
        b.describes(far_b, near_b),
    ensures
        a.spec_exceeds(b) == ratio_exceeds(far_a, near_a, far_b, near_b),
{
}

} // verus!
