//! Open ranges of an ordered scalar.
use vstd::prelude::*;

verus! {

/// An open range `(min, max)`, never empty: a value of it has `min < max`.
#[derive(Copy, Clone)]
pub struct Interval<T: Copy + Clone + PartialOrd> {
    min: T,
    max: T,
}

impl<T: Copy + PartialOrd> Interval<T> {
    /// The lower end.
    pub closed spec fn low(self) -> T {
        self.min
    }

    /// The upper end.
    pub closed spec fn high(self) -> T {
        self.max
    }

    /// The range `(lo, hi)` as `new` makes it.
    pub open spec fn spanning(lo: T, hi: T) -> Option<(T, T)> {
        if super::lt(lo, hi) {
            Some((lo, hi))
        } else {
            None
        }
    }

    /// `(min, max)`, or `None` unless `min < max`.
    pub fn new(min: T, max: T) -> (r: Option<Self>)
        ensures
            r matches Some(i) ==> i.low() == min && i.high() == max,
            super::ordered::<T>() ==> (r is Some <==> super::lt(min, max)),
    {
        if min < max {
            Some(Interval { min, max })
        } else {
            None
        }
    }

    /// The common part of two open ranges; `None` when it is empty.
    pub fn overlap_with(&self, other: &Interval<T>) -> (r: Option<Self>)
        ensures
            r matches Some(i) ==> (i.low() == self.low() || i.low() == other.low()) && (i.high()
                == self.high() || i.high() == other.high()),
            super::ordered::<T>() ==> match Self::spanning(
                super::max_of(self.low(), other.low()),
                super::min_of(self.high(), other.high()),
            ) {
                Some((lo, hi)) => r matches Some(i) && i.low() == lo && i.high() == hi,
                None => r is None,
            },
    {
        let min = if self.min > other.min {
            self.min
        } else {
            other.min
        };
        let max = if self.max < other.max {
            self.max
        } else {
            other.max
        };
        Interval::new(min, max)
    }

    /// The lower end.
    pub fn min(&self) -> (r: T)
        ensures
            r == self.low(),
    {
        self.min
    }

    /// The upper end.
    pub fn max(&self) -> (r: T)
        ensures
            r == self.high(),
    {
        self.max
    }
}

} // verus!
