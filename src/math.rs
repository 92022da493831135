//! Ranges of an ordered scalar, used for the windows in which hits count.
use vstd::prelude::*;
use vstd::std_specs::cmp::PartialOrdSpec;

pub mod interval;

verus! {

/// `a <= b` in the order that `T`'s comparisons follow.
pub open spec fn le<T: PartialOrd>(a: T, b: T) -> bool {
    a.partial_cmp_spec(&b) matches Some(
        core::cmp::Ordering::Less
        | core::cmp::Ordering::Equal,
    )
}

/// `a < b` in the order that `T`'s comparisons follow.
pub open spec fn lt<T: PartialOrd>(a: T, b: T) -> bool {
    a.partial_cmp_spec(&b) == Some(core::cmp::Ordering::Less)
}

/// `a > b` in the order that `T`'s comparisons follow.
pub open spec fn gt<T: PartialOrd>(a: T, b: T) -> bool {
    a.partial_cmp_spec(&b) == Some(core::cmp::Ordering::Greater)
}

/// The larger of two values, `a` on a tie.
pub open spec fn max_of<T: PartialOrd>(a: T, b: T) -> T {
    if gt(a, b) {
        a
    } else {
        b
    }
}

/// The smaller of two values, `b` on a tie.
pub open spec fn min_of<T: PartialOrd>(a: T, b: T) -> T {
    if lt(a, b) {
        a
    } else {
        b
    }
}

/// Verus knows what the comparisons of `T` compute: true of the integer
/// types, not of the floats, whose comparisons it leaves opaque.
pub open spec fn ordered<T: PartialOrd>() -> bool {
    T::obeys_partial_cmp_spec()
}

/// The order of `T` is total: any two values compare, a value equals only
/// what compares equal to it, `a < b` exactly when `b > a`, and `<=` is
/// transitive.
pub open spec fn total_order<T: PartialOrd>() -> bool {
    &&& ordered::<T>()
    &&& forall|a: T, b: T| #[trigger] a.partial_cmp_spec(&b) is Some
    &&& forall|a: T, b: T|
        #[trigger] a.partial_cmp_spec(&b) == Some(core::cmp::Ordering::Equal) <==> a == b
    &&& forall|a: T, b: T|
        #[trigger] a.partial_cmp_spec(&b) == Some(core::cmp::Ordering::Less) <==> b.partial_cmp_spec(
            &a,
        ) == Some(core::cmp::Ordering::Greater)
    &&& forall|a: T, b: T, c: T| #[trigger] le(a, b) && #[trigger] le(b, c) ==> le(a, c)
}

/// The order of the integers is total.
pub proof fn lemma_integer_order_total()
    ensures
        total_order::<i32>(),
        total_order::<i64>(),
{
}

/// A closed range `[min, max]`; a value of it always has `min <= max`.
#[derive(Copy, Clone)]
pub struct Interval<T: Copy + Clone> {
    pub min: T,
    pub max: T,
}

impl<T: Copy + PartialOrd> Interval<T> {
    /// The range is well formed: its ends are in order.
    pub open spec fn wf(self) -> bool {
        ordered::<T>() ==> le(self.min, self.max)
    }

    /// `[min, max]`, or `None` when `min > max` (or the ends do not compare).
    pub fn new(min: T, max: T) -> (r: Option<Self>)
        ensures
            r matches Some(i) ==> i.min == min && i.max == max && i.wf(),
            ordered::<T>() ==> (r is Some <==> le(min, max)),
    {
        if min <= max {
            Some(Interval { min, max })
        } else {
            None
        }
    }

    /// The range `[lo, hi]` as `new` makes it.
    pub open spec fn spanning(lo: T, hi: T) -> Option<Self> {
        if le(lo, hi) {
            Some(Interval { min: lo, max: hi })
        } else {
            None
        }
    }

    /// The common part of two ranges.
    pub open spec fn overlap(self, other: Self) -> Option<Self> {
        Self::spanning(max_of(self.min, other.min), min_of(self.max, other.max))
    }

    /// The same range with its upper end moved to `max`; `None` below `min`.
    pub fn with_max(&self, max: T) -> (r: Option<Self>)
        ensures
            r matches Some(i) ==> i.min == self.min && i.max == max && i.wf(),
            ordered::<T>() ==> r == Self::spanning(self.min, max),
    {
        Interval::new(self.min, max)
    }

    /// The same range with its lower end moved to `min`; `None` above `max`.
    pub fn with_min(&self, min: T) -> (r: Option<Self>)
        ensures
            r matches Some(i) ==> i.min == min && i.max == self.max && i.wf(),
            ordered::<T>() ==> r == Self::spanning(min, self.max),
    {
        Interval::new(min, self.max)
    }

    /// The common part of two ranges, `None` when the larger lower end lies
    /// past the smaller upper end.
    pub fn overlap_with(&self, other: &Self) -> (r: Option<Self>)
        ensures
            r matches Some(i) ==> (i.min == self.min || i.min == other.min) && (i.max == self.max
                || i.max == other.max) && i.wf(),
            ordered::<T>() ==> r == self.overlap(*other),
    {
        let min = if self.min > other.min {
            self.min
        } else {
            other.min
        };
        let max = if self.max < other.max {
            self.max
        } else {
            other.max
        };
        Interval::new(min, max)
    }
}

/// A range can be made exactly when its ends are in order.
pub proof fn lemma_new_valid_iff_ordered<T: Copy + PartialOrd>(min: T, max: T)
    requires
        ordered::<T>(),
    ensures
        Interval::<T>::spanning(min, max) is Some <==> le(min, max),
        Interval::<T>::spanning(min, max) matches Some(i) ==> i.min == min && i.max == max,
{
}

/// Under a total order the larger and the smaller of two values do not
/// depend on the order in which they are given.
pub proof fn lemma_extremes_symmetric<T: PartialOrd>(x: T, y: T)
    requires
        total_order::<T>(),
    ensures
        max_of(x, y) == max_of(y, x),
        min_of(x, y) == min_of(y, x),
{
    assert(x.partial_cmp_spec(&y) is Some);
    assert(y.partial_cmp_spec(&x) is Some);
    match x.partial_cmp_spec(&y) {
        Some(core::cmp::Ordering::Equal) => {
            assert(x == y);
        },
        _ => {},
    }
}

/// Under a total order the smaller of two values lies at or below both, and
/// the larger at or above both.
pub proof fn lemma_extremes_bound<T: PartialOrd>(x: T, y: T)
    requires
        total_order::<T>(),
    ensures
        le(min_of(x, y), x),
        le(min_of(x, y), y),
        le(x, max_of(x, y)),
        le(y, max_of(x, y)),
{
    assert(x.partial_cmp_spec(&y) is Some);
    assert(y.partial_cmp_spec(&x) is Some);
    assert(x.partial_cmp_spec(&x) is Some);
    assert(y.partial_cmp_spec(&y) is Some);
    match x.partial_cmp_spec(&y) {
        Some(core::cmp::Ordering::Equal) => {
            assert(x == y);
        },
        _ => {},
    }
}

/// Overlapping is symmetric: `a.overlap_with(b)` and `b.overlap_with(a)` give
/// the same range, or are both empty.
pub proof fn lemma_overlap_commutative<T: Copy + PartialOrd>(a: Interval<T>, b: Interval<T>)
    requires
        total_order::<T>(),
    ensures
        a.overlap(b) == b.overlap(a),
{
    lemma_extremes_symmetric(a.min, b.min);
    lemma_extremes_symmetric(a.max, b.max);
}

} // verus!
