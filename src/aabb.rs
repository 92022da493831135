//! Axis-aligned bounding boxes.
use vstd::prelude::*;
use vstd::std_specs::cmp::PartialOrdSpec;
use crate::math::Interval;

verus! {

/// A box `[min[0], max[0]] x [min[1], max[1]] x [min[2], max[2]]`.
#[derive(Copy, Clone)]
pub struct AABB<T: Copy> {
    pub min: [T; 3],
    pub max: [T; 3],
}

/// The box that `surrounding_box` makes of `a` and `b`: on each axis the
/// smaller of the two lower ends and the larger of the two upper ends.
pub open spec fn surrounding<T: Copy + PartialOrd>(a: AABB<T>, b: AABB<T>) -> AABB<T> {
    AABB {
        min: [
            crate::math::min_of(a.min[0], b.min[0]),
            crate::math::min_of(a.min[1], b.min[1]),
            crate::math::min_of(a.min[2], b.min[2]),
        ],
        max: [
            crate::math::max_of(a.max[0], b.max[0]),
            crate::math::max_of(a.max[1], b.max[1]),
            crate::math::max_of(a.max[2], b.max[2]),
        ],
    }
}

/// The smaller of `u` and `v`, `v` on a tie.
fn ffmin<T: Copy + PartialOrd>(u: T, v: T) -> (r: T)
    ensures
        r == u || r == v,
        crate::math::ordered::<T>() ==> r == crate::math::min_of(u, v),
{
    if u < v {
        u
    } else {
        v
    }
}

/// The larger of `u` and `v`, `v` on a tie.
fn ffmax<T: Copy + PartialOrd>(u: T, v: T) -> (r: T)
    ensures
        r == u || r == v,
        crate::math::ordered::<T>() ==> r == crate::math::max_of(u, v),
{
    if u > v {
        u
    } else {
        v
    }
}

/// The smallest box holding both `a` and `b`.
pub fn surrounding_box<T: Copy + PartialOrd>(a: &AABB<T>, b: &AABB<T>) -> (r: AABB<T>)
    ensures
        forall|k: int|
            0 <= k < 3 ==> (#[trigger] r.min[k] == a.min[k] || r.min[k] == b.min[k]) && (
            r.max[k] == a.max[k] || r.max[k] == b.max[k]),
        crate::math::ordered::<T>() ==> r == surrounding(*a, *b),
{
    let min = [ffmin(a.min[0], b.min[0]), ffmin(a.min[1], b.min[1]), ffmin(a.min[2], b.min[2])];
    let max = [ffmax(a.max[0], b.max[0]), ffmax(a.max[1], b.max[1]), ffmax(a.max[2], b.max[2])];
    let r = AABB { min, max };
    proof {
        if crate::math::ordered::<T>() {
            assert(r.min =~= surrounding(*a, *b).min);
            assert(r.max =~= surrounding(*a, *b).max);
        }
    }
    r
}

/// The least and the greatest coordinate along axis `k` of the points.
fn extent_along<T: Copy + PartialOrd>(points: &Vec<[T; 3]>, k: usize) -> (r: (T, T))
    requires
        points@.len() > 0,
        k < 3,
    ensures
        exists|i: int| 0 <= i < points@.len() && r.0 == #[trigger] points@[i][k as int],
        exists|i: int| 0 <= i < points@.len() && r.1 == #[trigger] points@[i][k as int],
        crate::math::total_order::<T>() ==> forall|i: int|
            0 <= i < points@.len() ==> crate::math::le(r.0, #[trigger] points@[i][k as int])
                && crate::math::le(points@[i][k as int], r.1),
{
    let ghost total = crate::math::total_order::<T>();
    let mut lo = points[0][k];
    let mut hi = points[0][k];
    proof {
        if total {
            assert(lo.partial_cmp_spec(&lo) is Some);
        }
    }
    let mut j: usize = 1;
    while j < points.len()
        invariant
            1 <= j <= points@.len(),
            k < 3,
            total == crate::math::total_order::<T>(),
            exists|i: int| 0 <= i < j && lo == #[trigger] points@[i][k as int],
            exists|i: int| 0 <= i < j && hi == #[trigger] points@[i][k as int],
            total ==> forall|i: int|
                0 <= i < j ==> crate::math::le(lo, #[trigger] points@[i][k as int])
                    && crate::math::le(points@[i][k as int], hi),
        decreases points@.len() - j,
    {
        let p = points[j][k];
        let ghost (lo0, hi0) = (lo, hi);
        lo = ffmin(p, lo);
        hi = ffmax(p, hi);
        proof {
            if total {
                crate::math::lemma_extremes_bound(p, lo0);
                crate::math::lemma_extremes_bound(p, hi0);
                assert forall|i: int| 0 <= i < j + 1 implies crate::math::le(
                    lo,
                    #[trigger] points@[i][k as int],
                ) && crate::math::le(points@[i][k as int], hi) by {
                    if i < j {
                        assert(crate::math::le(lo, lo0) && crate::math::le(lo0, points@[i][k as int]));
                        assert(crate::math::le(hi0, hi) && crate::math::le(points@[i][k as int], hi0));
                    }
                }
            }
        }
        j = j + 1;
    }
    (lo, hi)
}

/// The smallest box holding all of `points`: on each axis the least and
/// the greatest of their coordinates. `None` for no points.
pub fn enclosing_box<T: Copy + PartialOrd>(points: &Vec<[T; 3]>) -> (r: Option<AABB<T>>)
    ensures
        r is Some <==> points@.len() > 0,
        r matches Some(b) ==> forall|k: int|
            0 <= k < 3 ==> exists|i: int| 0 <= i < points@.len() && #[trigger] b.min[k] == points@[i][k],
        r matches Some(b) ==> forall|k: int|
            0 <= k < 3 ==> exists|i: int| 0 <= i < points@.len() && #[trigger] b.max[k] == points@[i][k],
        crate::math::total_order::<T>() ==> (r matches Some(b) ==> forall|i: int, k: int|
            0 <= i < points@.len() && 0 <= k < 3 ==> crate::math::le(
                b.min[k],
                #[trigger] points@[i][k],
            ) && crate::math::le(points@[i][k], b.max[k])),
{
    if points.len() == 0 {
        return None;
    }
    let (x0, x1) = extent_along(points, 0);
    let (y0, y1) = extent_along(points, 1);
    let (z0, z1) = extent_along(points, 2);
    let b = AABB { min: [x0, y0, z0], max: [x1, y1, z1] };
    assert forall|k: int|
        0 <= k < 3 implies exists|i: int| 0 <= i < points@.len() && #[trigger] b.min[k] == points@[i][k] by {
        if k == 0 {
        } else if k == 1 {
        } else {
        }
    }
    assert forall|k: int|
        0 <= k < 3 implies exists|i: int| 0 <= i < points@.len() && #[trigger] b.max[k] == points@[i][k] by {
        if k == 0 {
        } else if k == 1 {
        } else {
        }
    }
    Some(b)
}

/// What is left of the window `w` after cutting it down to the slabs of
/// the first `n` axes; `None` once a slab or the remaining window is empty.
pub open spec fn window_through_slabs<T: Copy + PartialOrd>(
    w: Interval<T>,
    slabs: [(T, T); 3],
    n: int,
) -> Option<Interval<T>>
    decreases n,
{
    if n <= 0 {
        Some(w)
    } else {
        match window_through_slabs(w, slabs, n - 1) {
            None => None,
            Some(c) => match Interval::<T>::spanning(slabs[n - 1].0, slabs[n - 1].1) {
                None => None,
                Some(slab) => c.overlap(slab),
            },
        }
    }
}

/// The decision of the slab method. `slabs[d]` holds the distances along
/// the ray at which it enters and leaves the slab between the box's two
/// planes across axis `d`. The ray meets the box within `hit_interval`
/// exactly when every slab is a range and all of them share a point with
/// the window; an empty slab (a ray parallel to the planes and outside
/// them gives two equal infinite distances) or an empty overlap is a miss.
pub fn slabs_overlap<T: Copy + PartialOrd>(hit_interval: &Interval<T>, slabs: &[(T, T); 3]) -> (r: bool)
    ensures
        crate::math::ordered::<T>() ==> (r <==> window_through_slabs(*hit_interval, *slabs, 3) is Some),
{
    let mut common_interval = *hit_interval;
    let mut d: usize = 0;
    while d < 3
        invariant
            d <= 3,
            crate::math::ordered::<T>() ==> window_through_slabs(*hit_interval, *slabs, d as int)
                == Some(common_interval),
        decreases 3 - d,
    {
        let (t0, t1) = slabs[d];
        match Interval::new(t0, t1) {
            None => {
                proof {
                    if crate::math::ordered::<T>() {
                        lemma_window_stays_empty(*hit_interval, *slabs, d as int + 1, 3);
                    }
                }
                return false;
            },
            Some(slab) => match common_interval.overlap_with(&slab) {
                None => {
                    proof {
                        if crate::math::ordered::<T>() {
                            lemma_window_stays_empty(*hit_interval, *slabs, d as int + 1, 3);
                        }
                    }
                    return false;
                },
                Some(interval) => {
                    common_interval = interval;
                },
            },
        }
        d = d + 1;
    }
    true
}

/// Once the window is empty, further slabs keep it empty.
proof fn lemma_window_stays_empty<T: Copy + PartialOrd>(
    w: Interval<T>,
    slabs: [(T, T); 3],
    m: int,
    n: int,
)
    requires
        0 <= m <= n,
        window_through_slabs(w, slabs, m) is None,
    ensures
        window_through_slabs(w, slabs, n) is None,
    decreases n - m,
{
    if m < n {
        lemma_window_stays_empty(w, slabs, m, n - 1);
    }
}

/// What is left of the window after any number of slabs lies inside it.
proof fn lemma_window_shrinks<T: Copy + PartialOrd>(w: Interval<T>, slabs: [(T, T); 3], n: int)
    requires
        crate::math::total_order::<T>(),
    ensures
        window_through_slabs(w, slabs, n) matches Some(c) ==> crate::math::le(w.min, c.min)
            && crate::math::le(c.max, w.max),
    decreases n,
{
    if n <= 0 {
        assert(w.min.partial_cmp_spec(&w.min) is Some);
        assert(w.max.partial_cmp_spec(&w.max) is Some);
    } else {
        lemma_window_shrinks(w, slabs, n - 1);
        if let Some(c) = window_through_slabs(w, slabs, n - 1) {
            let (s0, s1) = slabs[n - 1];
            crate::math::lemma_extremes_bound(c.min, s0);
            crate::math::lemma_extremes_bound(c.max, s1);
        }
    }
}

/// A slab that lies wholly beyond the window, or wholly before it, makes
/// the ray miss the box. So it goes for a ray that starts outside the box
/// and points away from it (on some axis both crossings lie behind the
/// window's start), and for a ray that runs parallel to two of the box's
/// planes outside them (both crossings are the same infinity).
pub proof fn lemma_slab_outside_window_misses<T: Copy + PartialOrd>(
    w: Interval<T>,
    slabs: [(T, T); 3],
    d: int,
)
    requires
        crate::math::total_order::<T>(),
        0 <= d < 3,
        crate::math::lt(w.max, slabs[d].0) || crate::math::lt(slabs[d].1, w.min),
    ensures
        window_through_slabs(w, slabs, 3) is None,
{
    let (s0, s1) = slabs[d];
    lemma_window_shrinks(w, slabs, d);
    if let Some(c) = window_through_slabs(w, slabs, d) {
        if let Some(slab) = Interval::<T>::spanning(s0, s1) {
            let lo = crate::math::max_of(c.min, s0);
            let hi = crate::math::min_of(c.max, s1);
            crate::math::lemma_extremes_bound(c.min, s0);
            crate::math::lemma_extremes_bound(c.max, s1);
            assert(w.max.partial_cmp_spec(&s0) is Some);
            assert(s1.partial_cmp_spec(&w.min) is Some);
            if crate::math::le(lo, hi) {
                if crate::math::lt(w.max, s0) {
                    assert(crate::math::le(s0, hi));
                    assert(crate::math::le(s0, w.max));
                } else {
                    assert(crate::math::le(c.min, s1));
                    assert(crate::math::le(w.min, s1));
                }
            }
        }
    }
    lemma_window_stays_empty(w, slabs, d + 1, 3);
}

/// The surrounding box of `a` and `b` holds both: on every axis its lower
/// end is at or below theirs and its upper end at or above theirs.
pub proof fn lemma_surrounding_box_dominates<T: Copy + PartialOrd>(a: AABB<T>, b: AABB<T>)
    requires
        crate::math::total_order::<T>(),
    ensures
        forall|k: int|
            0 <= k < 3 ==> {
                &&& crate::math::le(#[trigger] surrounding(a, b).min[k], a.min[k])
                &&& crate::math::le(surrounding(a, b).min[k], b.min[k])
                &&& crate::math::le(a.max[k], surrounding(a, b).max[k])
                &&& crate::math::le(b.max[k], surrounding(a, b).max[k])
            },
{
    assert forall|k: int| 0 <= k < 3 implies {
        &&& crate::math::le(#[trigger] surrounding(a, b).min[k], a.min[k])
        &&& crate::math::le(surrounding(a, b).min[k], b.min[k])
        &&& crate::math::le(a.max[k], surrounding(a, b).max[k])
        &&& crate::math::le(b.max[k], surrounding(a, b).max[k])
    } by {
        crate::math::lemma_extremes_bound(a.min[k], b.min[k]);
        crate::math::lemma_extremes_bound(a.max[k], b.max[k]);
    }
}

} // verus!
