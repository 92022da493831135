//! The bounding-volume hierarchy: a binary tree over the objects of a scene
//! whose every inner node caches a box holding its whole subtree, so that a
//! ray that misses the box skips the subtree.
use vstd::prelude::*;
use vstd::std_specs::cmp::PartialOrdSpec;
use crate::aabb::{surrounding_box, AABB};
use crate::hittable::Hittable;
use crate::math::Interval;
use crate::random::gen_range;

verus! {

broadcast use vstd::seq_lib::group_to_multiset_ensures, vstd::seq_lib::lemma_multiset_commutative,
    vstd::multiset::group_multiset_axioms;

/// One side of a node: an object of the scene with the box it reported,
/// or a further node.
pub enum Child<H: Hittable> {
    Leaf(H, AABB<H::Scalar>),
    Node(Box<Node<H>>),
}

/// An inner node of the hierarchy: exactly two children, and a box that
/// holds both of them, computed once when the node is built.
pub struct Node<H: Hittable> {
    pub left: Child<H>,
    pub right: Child<H>,
    pub bounding_box: AABB<H::Scalar>,
}

/// The objects of a sequence of (object, box) pairs.
pub open spec fn firsts<H, B>(s: Seq<(H, B)>) -> Seq<H> {
    s.map_values(|p: (H, B)| p.0)
}

/// The objects under a child, left to right.
pub open spec fn child_leaves<H: Hittable>(c: Child<H>) -> Seq<H>
    decreases c,
{
    match c {
        Child::Leaf(h, _) => seq![h],
        Child::Node(n) => node_leaves(*n),
    }
}

/// The objects under a node, left to right.
pub open spec fn node_leaves<H: Hittable>(n: Node<H>) -> Seq<H>
    decreases n,
{
    child_leaves(n.left) + child_leaves(n.right)
}

/// The hit that the traversal keeps of the two children's hits: the one
/// that is strictly nearer by `H::closer`, else the right one; a missing
/// hit gives way to the other.
pub open spec fn kept<H: Hittable>(l: Option<H::Hit>, r: Option<H::Hit>, res: Option<H::Hit>) -> bool {
    match (l, r) {
        (Some(a), Some(b)) => exists|c: bool|
            #[trigger] H::closer_outcome(a, b, c) && res == if c {
                Some(a)
            } else {
                Some(b)
            },
        (Some(a), None) => res == Some(a),
        (None, Some(b)) => res == Some(b),
        (None, None) => res is None,
    }
}

/// The (object, box) pairs at the leaves under a child, left to right.
pub open spec fn child_leaf_pairs<H: Hittable>(c: Child<H>) -> Seq<(H, AABB<H::Scalar>)>
    decreases c,
{
    match c {
        Child::Leaf(h, b) => seq![(h, b)],
        Child::Node(n) => node_leaf_pairs(*n),
    }
}

/// The (object, box) pairs at the leaves under a node, left to right.
pub open spec fn node_leaf_pairs<H: Hittable>(n: Node<H>) -> Seq<(H, AABB<H::Scalar>)>
    decreases n,
{
    child_leaf_pairs(n.left) + child_leaf_pairs(n.right)
}

/// Every pair of `l` lies at or below every pair of `r` by `axis_key`.
pub open spec fn split_ordered<H, S: Copy + PartialOrd>(
    l: Seq<(H, AABB<S>)>,
    r: Seq<(H, AABB<S>)>,
    axis: int,
) -> bool {
    forall|i: int, j: int|
        0 <= i < l.len() && 0 <= j < r.len() ==> crate::math::le(
            #[trigger] axis_key(l[i], axis),
            #[trigger] axis_key(r[j], axis),
        )
}

/// The top split of `n`, built over `count` objects, is ordered along
/// `axis`: for more than three objects the left child's pairs lie at or
/// below the right child's, otherwise the right child's lie at or below the
/// left child's (the last, largest item goes left).
pub open spec fn split_sorted<H: Hittable>(n: Node<H>, count: nat, axis: int) -> bool {
    &&& 0 <= axis < 3
    &&& crate::math::total_order::<H::Scalar>() ==> if count > 3 {
        split_ordered(child_leaf_pairs(n.left), child_leaf_pairs(n.right), axis)
    } else {
        split_ordered(child_leaf_pairs(n.right), child_leaf_pairs(n.left), axis)
    }
}

/// Each leaf's box under a node is one that its object reported over `t`.
pub open spec fn leaves_bounded<H: Hittable>(n: Node<H>, t: Interval<H::Scalar>) -> bool {
    forall|i: int|
        0 <= i < node_leaf_pairs(n).len() ==> (#[trigger] node_leaf_pairs(n)[i]).0.bounds_outcome(
            t,
            Some(node_leaf_pairs(n)[i].1),
        )
}

/// The box of a child: the one its object reported, or the node's own.
pub open spec fn child_box<H: Hittable>(c: Child<H>) -> AABB<H::Scalar> {
    match c {
        Child::Leaf(_, b) => b,
        Child::Node(n) => n.bounding_box,
    }
}

/// Under a child, every node's box is the surrounding box of its two
/// children's boxes.
pub open spec fn child_boxes_nested<H: Hittable>(c: Child<H>) -> bool
    decreases c,
{
    match c {
        Child::Leaf(..) => true,
        Child::Node(n) => node_boxes_nested(*n),
    }
}

/// At a node and below it, every node's box is the surrounding box of its
/// two children's boxes (for scalars whose comparisons Verus knows).
pub open spec fn node_boxes_nested<H: Hittable>(n: Node<H>) -> bool
    decreases n,
{
    &&& crate::math::ordered::<H::Scalar>() ==> n.bounding_box == crate::aabb::surrounding(
        child_box(n.left),
        child_box(n.right),
    )
    &&& child_boxes_nested(n.left)
    &&& child_boxes_nested(n.right)
}

/// `r` is a possible outcome of a hit query on a child.
pub open spec fn child_outcome<H: Hittable>(c: Child<H>, q: H::Query, r: Option<H::Hit>) -> bool
    decreases c,
{
    match c {
        Child::Leaf(h, _) => h.hit_outcome(q, r),
        Child::Node(n) => node_outcome(*n, q, r),
    }
}

/// `r` is a possible outcome of a hit query on a node: no hit when the ray
/// misses the node's box, else the kept one of the two children's hits.
pub open spec fn node_outcome<H: Hittable>(n: Node<H>, q: H::Query, r: Option<H::Hit>) -> bool
    decreases n,
{
    ||| H::box_outcome(n.bounding_box, q, false) && r is None
    ||| H::box_outcome(n.bounding_box, q, true) && exists|l: Option<H::Hit>, rr: Option<H::Hit>|
        child_outcome(n.left, q, l) && child_outcome(n.right, q, rr) && #[trigger] kept::<H>(
            l,
            rr,
            r,
        )
}

/// The hit query on a child.
fn child_hit<H: Hittable>(c: &Child<H>, q: &H::Query) -> (r: Option<H::Hit>)
    ensures
        child_outcome(*c, *q, r),
    decreases c,
{
    match c {
        Child::Leaf(h, _) => h.hit(q),
        Child::Node(n) => n.hit_node(q),
    }
}

/// The key by which items are ordered along `axis`: the lower end of the
/// item's box on that axis.
pub open spec fn axis_key<H, S: Copy>(item: (H, AABB<S>), axis: int) -> S {
    item.1.min[axis]
}

/// `s` is ordered by `axis_key` along `axis`.
pub open spec fn sorted_along<H, S: Copy + PartialOrd>(s: Seq<(H, AABB<S>)>, axis: int) -> bool {
    forall|i: int, j: int|
        0 <= i < j < s.len() ==> crate::math::le(
            #[trigger] axis_key(s[i], axis),
            #[trigger] axis_key(s[j], axis),
        )
}

/// Orders `items` by the lower end of their boxes along `axis`, ascending;
/// the pairs themselves are kept.
fn sort_by_axis<H: Hittable>(items: Vec<(H, AABB<H::Scalar>)>, axis: usize) -> (r: Vec<
    (H, AABB<H::Scalar>),
>)
    requires
        axis < 3,
    ensures
        r@.len() == items@.len(),
        firsts(r@).to_multiset() == firsts(items@).to_multiset(),
        forall|k: int| 0 <= k < r@.len() ==> items@.contains(#[trigger] r@[k]),
        crate::math::total_order::<H::Scalar>() ==> sorted_along(r@, axis as int),
{
    let ghost orig = items@;
    let mut items = items;
    let ghost all = firsts(items@).to_multiset();
    let ghost len = items@.len();
    let ghost total = crate::math::total_order::<H::Scalar>();
    let mut out: Vec<(H, AABB<H::Scalar>)> = Vec::new();
    while items.len() > 0
        invariant
            firsts(out@).to_multiset().add(firsts(items@).to_multiset()) == all,
            out@.len() + items@.len() == len,
            axis < 3,
            total == crate::math::total_order::<H::Scalar>(),
            total ==> sorted_along(out@, axis as int),
            orig.len() == len,
            items@ == orig.subrange(0, items@.len() as int),
            forall|k: int| 0 <= k < out@.len() ==> orig.contains(#[trigger] out@[k]),
        decreases items.len(),
    {
        let ghost before = items@;
        let x = items.pop().unwrap();
        assert(before =~= items@.push(x));
        assert(firsts(before) =~= firsts(items@).push(x.0));
        assert(before[items@.len() as int] == x);
        assert(before == orig.subrange(0, before.len() as int));
        assert(before[items@.len() as int] == orig.subrange(0, before.len() as int)[items@.len() as int]);
        assert(orig[items@.len() as int] == x);
        let mut p: usize = 0;
        while p < out.len() && out[p].1.min[axis] < x.1.min[axis]
            invariant
                p <= out@.len(),
                axis < 3,
                total == crate::math::total_order::<H::Scalar>(),
                total ==> forall|k: int|
                    0 <= k < p ==> crate::math::lt(
                        #[trigger] axis_key(out@[k], axis as int),
                        axis_key(x, axis as int),
                    ),
            decreases out@.len() - p,
        {
            p = p + 1;
        }
        let ghost prev = out@;
        proof {
            if total {
                lemma_insert_keeps_sorted(prev, x, p as int, axis as int);
            }
        }
        out.insert(p, x);
        assert(firsts(out@) =~= firsts(prev).insert(p as int, x.0));
        assert forall|k: int| 0 <= k < out@.len() implies orig.contains(#[trigger] out@[k]) by {
            if k < p {
                assert(out@[k] == prev[k]);
            } else if k > p {
                assert(out@[k] == prev[k - 1]);
            }
        }
    }
    assert(firsts(items@) =~= Seq::<H>::empty());
    out
}

/// Inserting an item after the entries whose keys lie below its own, and
/// before one whose key does not, keeps a sorted sequence sorted.
proof fn lemma_insert_keeps_sorted<H, S: Copy + PartialOrd>(
    s: Seq<(H, AABB<S>)>,
    x: (H, AABB<S>),
    p: int,
    axis: int,
)
    requires
        crate::math::total_order::<S>(),
        sorted_along(s, axis),
        0 <= p <= s.len(),
        forall|k: int| 0 <= k < p ==> crate::math::lt(#[trigger] axis_key(s[k], axis), axis_key(x, axis)),
        p < s.len() ==> !crate::math::lt(axis_key(s[p], axis), axis_key(x, axis)),
    ensures
        sorted_along(s.insert(p, x), axis),
{
    let t = s.insert(p, x);
    let kx = axis_key(x, axis);
    if p < s.len() {
        let kp = axis_key(s[p], axis);
        assert(kp.partial_cmp_spec(&kx) is Some);
        assert(kx.partial_cmp_spec(&kp) is Some);
        assert(crate::math::le(kx, kp));
    }
    assert forall|i: int, j: int| 0 <= i < j < t.len() implies crate::math::le(
        #[trigger] axis_key(t[i], axis),
        #[trigger] axis_key(t[j], axis),
    ) by {
        if i < p && j < p {
            assert(t[i] == s[i] && t[j] == s[j]);
        } else if i < p && j == p {
            assert(t[i] == s[i] && t[j] == x);
            let ki = axis_key(s[i], axis);
            assert(ki.partial_cmp_spec(&kx) is Some);
        } else if i < p {
            assert(t[i] == s[i] && t[j] == s[j - 1]);
        } else if i == p {
            assert(t[i] == x && t[j] == s[j - 1]);
            if j - 1 > p {
                assert(crate::math::le(axis_key(s[p], axis), axis_key(s[j - 1], axis)));
            }
        } else {
            assert(t[i] == s[i - 1] && t[j] == s[j - 1]);
        }
    }
}

/// Pairs drawn from the front part of a sorted sequence lie at or below
/// pairs drawn from its back part.
proof fn lemma_split_from_sorted<H, S: Copy + PartialOrd>(
    sorted: Seq<(H, AABB<S>)>,
    m: int,
    l: Seq<(H, AABB<S>)>,
    r: Seq<(H, AABB<S>)>,
    axis: int,
)
    requires
        sorted_along(sorted, axis),
        0 <= m <= sorted.len(),
        forall|p: (H, AABB<S>)| #[trigger] l.contains(p) ==> sorted.subrange(0, m).contains(p),
        forall|p: (H, AABB<S>)| #[trigger] r.contains(p) ==> sorted.subrange(m, sorted.len() as int).contains(
            p,
        ),
    ensures
        split_ordered(l, r, axis),
{
    assert forall|i: int, j: int| 0 <= i < l.len() && 0 <= j < r.len() implies crate::math::le(
        #[trigger] axis_key(l[i], axis),
        #[trigger] axis_key(r[j], axis),
    ) by {
        assert(l.contains(l[i]));
        assert(r.contains(r[j]));
        let a = choose|a: int| 0 <= a < m && sorted.subrange(0, m)[a] == l[i];
        let b = choose|b: int| 0 <= b < sorted.len() - m && sorted.subrange(m, sorted.len() as int)[b] == r[j];
        assert(sorted[a] == l[i]);
        assert(sorted[m + b] == r[j]);
    }
}

impl<H: Hittable> Node<H> {
    /// Builds the hierarchy over `hittables`, whose boxes are taken over
    /// `time_interval`. At least two objects are needed, and each must have
    /// a box: anything else is a fatal error of the caller.
    ///
    /// A random axis is drawn and the objects are ordered by the lower ends
    /// of their boxes along it; two objects become the two children, of
    /// three the last becomes the left child and the other two a node on the
    /// right, and more are split at the middle into two nodes, recursively.
    pub fn new(hittables: Vec<H>, time_interval: &Interval<H::Scalar>) -> (r: Node<H>)
        requires
            hittables@.len() >= 2,
            forall|i: int, b: Option<AABB<H::Scalar>>|
                0 <= i < hittables@.len() && #[trigger] hittables@[i].bounds_outcome(
                    *time_interval,
                    b,
                ) ==> b is Some,
        ensures
            r.leaves().to_multiset() == hittables@.to_multiset(),
            node_boxes_nested(r),
            leaves_bounded(r, *time_interval),
            hittables@.len() == 2 ==> r.left is Leaf && r.right is Leaf,
            hittables@.len() == 3 ==> r.left is Leaf && r.right is Node,
            hittables@.len() > 3 ==> r.left is Node && r.right is Node && child_leaves(r.left).len()
                == hittables@.len() / 2,
            exists|axis: int| #[trigger] split_sorted(r, hittables@.len(), axis),
    {
        let ghost orig = hittables@;
        let mut rest = hittables;
        let mut pairs: Vec<(H, AABB<H::Scalar>)> = Vec::new();
        while rest.len() > 0
            invariant
                rest@ == orig.subrange(0, rest@.len() as int),
                firsts(pairs@).to_multiset().add(rest@.to_multiset()) == orig.to_multiset(),
                pairs@.len() + rest@.len() == orig.len(),
                orig.len() >= 2,
                orig == hittables@,
                forall|i: int, b: Option<AABB<H::Scalar>>|
                    0 <= i < orig.len() && #[trigger] orig[i].bounds_outcome(*time_interval, b)
                        ==> b is Some,
                forall|k: int|
                    0 <= k < pairs@.len() ==> (#[trigger] pairs@[k]).0.bounds_outcome(
                        *time_interval,
                        Some(pairs@[k].1),
                    ),
            decreases rest.len(),
        {
            let ghost before = rest@;
            let h = rest.pop().unwrap();
            assert(before =~= rest@.push(h));
            assert(h == orig[rest@.len() as int]);
            let b = h.bounding_box(time_interval).unwrap();
            let ghost prev = pairs@;
            pairs.push((h, b));
            assert(firsts(pairs@) =~= firsts(prev).push(h));
            assert(forall|k: int| 0 <= k < prev.len() ==> pairs@[k] == prev[k]);
        }
        assert(rest@ =~= Seq::<H>::empty());
        let ghost all_pairs = pairs@;
        let r = Node::build(pairs);
        proof {
            assert(all_pairs.len() == hittables@.len());
            let ax = choose|ax: int| #[trigger] split_sorted(r, all_pairs.len(), ax);
            assert(split_sorted(r, hittables@.len(), ax));
        }
        assert forall|i: int| 0 <= i < node_leaf_pairs(r).len() implies (#[trigger] node_leaf_pairs(
            r,
        )[i]).0.bounds_outcome(*time_interval, Some(node_leaf_pairs(r)[i].1)) by {
            assert(node_leaf_pairs(r).contains(node_leaf_pairs(r)[i]));
            let k = choose|k: int| 0 <= k < all_pairs.len() && all_pairs[k] == node_leaf_pairs(r)[i];
        }
        r
    }

    /// Builds the hierarchy over `items`, each paired with its box. A random
    /// axis is drawn and the items are ordered by their boxes along it; two
    /// items become the two children, of three the last becomes the left
    /// child and the other two a node on the right, and more are split at
    /// the middle into two nodes. The node's box surrounds its children's.
    fn build(items: Vec<(H, AABB<H::Scalar>)>) -> (r: Node<H>)
        requires
            items@.len() >= 2,
        ensures
            r.leaves().to_multiset() == firsts(items@).to_multiset(),
            node_boxes_nested(r),
            items@.len() == 2 ==> r.left is Leaf && r.right is Leaf,
            items@.len() == 3 ==> r.left is Leaf && r.right is Node,
            items@.len() > 3 ==> r.left is Node && r.right is Node && child_leaves(r.left).len()
                == items@.len() / 2,
            forall|p: (H, AABB<H::Scalar>)| #[trigger] node_leaf_pairs(r).contains(p) ==> items@.contains(p),
            exists|axis: int| #[trigger] split_sorted(r, items@.len(), axis),
        decreases items@.len(),
    {
        let ghost input = items@;
        let axis = gen_range(0, 3);
        let mut items = sort_by_axis(items, axis);
        let ghost sorted = items@;
        let n = items.len();
        if n == 2 {
            let (a, box_a) = items.pop().unwrap();
            let (b, box_b) = items.pop().unwrap();
            assert(sorted =~= seq![(b, box_b), (a, box_a)]);
            assert(firsts(sorted) =~= seq![b, a]);
            let bounding_box = surrounding_box(&box_a, &box_b);
            let r = Node { left: Child::Leaf(a, box_a), right: Child::Leaf(b, box_b), bounding_box };
            assert(r.leaves() =~= seq![a, b]);
            assert(seq![a, b].to_multiset() =~= seq![b, a].to_multiset()) by {
                assert(seq![a, b] =~= seq![a].push(b));
                assert(seq![b, a] =~= seq![b].push(a));
                assert(seq![a] =~= Seq::<H>::empty().push(a));
                assert(seq![b] =~= Seq::<H>::empty().push(b));
            }
            proof {
                assert(node_leaf_pairs(r) =~= seq![(a, box_a), (b, box_b)]);
                assert(sorted[1] == (a, box_a) && sorted[0] == (b, box_b));
                assert forall|p: (H, AABB<H::Scalar>)| #[trigger] node_leaf_pairs(r).contains(p) implies input.contains(p) by {
                    let k = choose|k: int| 0 <= k < 2 && node_leaf_pairs(r)[k] == p;
                    assert(sorted.contains(p)) by {
                        assert(sorted[1 - k] == p);
                    }
                    let j = choose|j: int| 0 <= j < 2 && sorted[j] == p;
                    assert(input.contains(sorted[j]));
                }
                if crate::math::total_order::<H::Scalar>() {
                    assert(child_leaf_pairs(r.left) =~= seq![(a, box_a)]);
                    assert(child_leaf_pairs(r.right) =~= seq![(b, box_b)]);
                    assert(crate::math::le(axis_key(sorted[0], axis as int), axis_key(sorted[1], axis as int)));
                    assert(split_ordered(child_leaf_pairs(r.right), child_leaf_pairs(r.left), axis as int));
                }
                assert(split_sorted(r, input.len(), axis as int));
            }
            r
        } else if n == 3 {
            let (a, box_a) = items.pop().unwrap();
            assert(sorted =~= items@.push((a, box_a)));
            assert(firsts(sorted) =~= firsts(items@).push(a));
            let sub = Node::build(items);
            let bounding_box = surrounding_box(&box_a, &sub.bounding_box);
            let r = Node {
                left: Child::Leaf(a, box_a),
                right: Child::Node(Box::new(sub)),
                bounding_box,
            };
            assert(r.leaves() =~= seq![a] + sub.leaves());
            assert(seq![a] =~= Seq::<H>::empty().push(a));
            proof {
                let sub_items = sorted.subrange(0, 2);
                assert(sub_items =~= sorted.drop_last());
                assert(sorted[2] == (a, box_a));
                assert(child_leaf_pairs(r.left) =~= seq![(a, box_a)]);
                assert(node_leaf_pairs(r) =~= seq![(a, box_a)] + node_leaf_pairs(sub));
                assert forall|p: (H, AABB<H::Scalar>)| #[trigger] node_leaf_pairs(r).contains(p) implies input.contains(p) by {
                    let k = choose|k: int| 0 <= k < node_leaf_pairs(r).len() && node_leaf_pairs(r)[k] == p;
                    if k == 0 {
                        assert(sorted[2] == p);
                        assert(input.contains(sorted[2]));
                    } else {
                        assert(node_leaf_pairs(sub)[k - 1] == p);
                        assert(node_leaf_pairs(sub).contains(p));
                        let j = choose|j: int| 0 <= j < 2 && sub_items[j] == p;
                        assert(sorted[j] == p);
                        assert(input.contains(sorted[j]));
                    }
                }
                if crate::math::total_order::<H::Scalar>() {
                    assert forall|q: (H, AABB<H::Scalar>)| #[trigger] child_leaf_pairs(r.left).contains(q) implies sorted.subrange(2, 3).contains(q) by {
                        assert(sorted.subrange(2, 3)[0] == sorted[2]);
                    }
                    assert forall|q: (H, AABB<H::Scalar>)| #[trigger] child_leaf_pairs(r.right).contains(q) implies sorted.subrange(0, 2).contains(q) by {
                        assert(node_leaf_pairs(sub).contains(q));
                    }
                    lemma_split_from_sorted(sorted, 2, child_leaf_pairs(r.right), child_leaf_pairs(r.left), axis as int);
                }
                assert(split_sorted(r, input.len(), axis as int));
            }
            r
        } else {
            let right_items = items.split_off(n / 2);
            assert(sorted =~= items@ + right_items@);
            assert(firsts(sorted) =~= firsts(items@) + firsts(right_items@));
            let ghost left_items = items@;
            let ghost right_items_view = right_items@;
            assert(right_items_view =~= sorted.subrange((n / 2) as int, n as int));
            let left = Node::build(items);
            let right = Node::build(right_items);
            let bounding_box = surrounding_box(&left.bounding_box, &right.bounding_box);
            let r = Node {
                left: Child::Node(Box::new(left)),
                right: Child::Node(Box::new(right)),
                bounding_box,
            };
            assert(r.leaves() =~= left.leaves() + right.leaves());
            assert(left.leaves().len() == left.leaves().to_multiset().len());
            assert(firsts(left_items).len() == firsts(left_items).to_multiset().len());
            proof {
                let m = (n / 2) as int;
                assert(left_items =~= sorted.subrange(0, m));
                assert(node_leaf_pairs(r) =~= node_leaf_pairs(left) + node_leaf_pairs(right));
                assert forall|p: (H, AABB<H::Scalar>)| #[trigger] node_leaf_pairs(r).contains(p) implies input.contains(p) by {
                    let k = choose|k: int| 0 <= k < node_leaf_pairs(r).len() && node_leaf_pairs(r)[k] == p;
                    if k < node_leaf_pairs(left).len() {
                        assert(node_leaf_pairs(left)[k] == p);
                        assert(node_leaf_pairs(left).contains(p));
                        let j = choose|j: int| 0 <= j < m && sorted.subrange(0, m)[j] == p;
                        assert(sorted[j] == p);
                        assert(input.contains(sorted[j]));
                    } else {
                        assert(node_leaf_pairs(right)[k - node_leaf_pairs(left).len()] == p);
                        assert(node_leaf_pairs(right).contains(p));
                        let j = choose|j: int| 0 <= j < n - m && right_items_view[j] == p;
                        assert(sorted[m + j] == p);
                        assert(input.contains(sorted[m + j]));
                    }
                }
                if crate::math::total_order::<H::Scalar>() {
                    assert forall|q: (H, AABB<H::Scalar>)| #[trigger] child_leaf_pairs(r.left).contains(q) implies sorted.subrange(0, m).contains(q) by {
                        assert(node_leaf_pairs(left).contains(q));
                    }
                    assert forall|q: (H, AABB<H::Scalar>)| #[trigger] child_leaf_pairs(r.right).contains(q) implies sorted.subrange(m, n as int).contains(q) by {
                        assert(node_leaf_pairs(right).contains(q));
                    }
                    lemma_split_from_sorted(sorted, m, child_leaf_pairs(r.left), child_leaf_pairs(r.right), axis as int);
                }
                assert(split_sorted(r, input.len(), axis as int));
            }
            r
        }
    }

    /// The objects under this node, left to right.
    pub open spec fn leaves(self) -> Seq<H> {
        node_leaves(self)
    }

    /// The nearest hit under this node: none when the ray misses the box;
    /// otherwise both children are queried over the same window and the
    /// nearer of their hits is kept.
    fn hit_node(&self, q: &H::Query) -> (r: Option<H::Hit>)
        ensures
            node_outcome(*self, *q, r),
        decreases self,
    {
        if !H::box_hit(&self.bounding_box, q) {
            return None;
        }
        let left_hit = child_hit(&self.left, q);
        let right_hit = child_hit(&self.right, q);
        let ghost (gl, gr) = (left_hit, right_hit);
        let r = match (left_hit, right_hit) {
            (Some(left), Some(right)) => {
                let c = H::closer(&left, &right);
                if c {
                    Some(left)
                } else {
                    Some(right)
                }
            },
            (Some(x), None) => Some(x),
            (None, Some(x)) => Some(x),
            (None, None) => None,
        };
        assert(kept::<H>(gl, gr, r));
        r
    }
}

impl<H: Hittable> Hittable for Node<H> {
    type Query = H::Query;
    type Hit = H::Hit;
    type Scalar = H::Scalar;

    open spec fn hit_outcome(&self, q: H::Query, r: Option<H::Hit>) -> bool {
        node_outcome(*self, q, r)
    }

    open spec fn bounds_outcome(&self, t: Interval<H::Scalar>, r: Option<AABB<H::Scalar>>) -> bool {
        r == Some(self.bounding_box)
    }

    open spec fn box_outcome(b: AABB<H::Scalar>, q: H::Query, r: bool) -> bool {
        H::box_outcome(b, q, r)
    }

    open spec fn closer_outcome(a: H::Hit, b: H::Hit, r: bool) -> bool {
        H::closer_outcome(a, b, r)
    }

    fn hit(&self, q: &H::Query) -> (r: Option<H::Hit>) {
        self.hit_node(q)
    }

    fn bounding_box(&self, time_interval: &Interval<H::Scalar>) -> (r: Option<AABB<H::Scalar>>) {
        Some(self.bounding_box)
    }

    fn box_hit(b: &AABB<H::Scalar>, q: &H::Query) -> (r: bool) {
        H::box_hit(b, q)
    }

    fn closer(a: &H::Hit, b: &H::Hit) -> (r: bool) {
        H::closer(a, b)
    }
}

/// Some entry of `rs` is a hit.
pub open spec fn any_hit<T>(rs: Seq<Option<T>>) -> bool {
    exists|i: int| 0 <= i < rs.len() && (#[trigger] rs[i]) is Some
}

/// The distance of a possible hit, by `key`.
pub open spec fn key_of<T>(r: Option<T>, key: spec_fn(T) -> int) -> Option<int> {
    match r {
        Some(x) => Some(key(x)),
        None => None,
    }
}

/// The nearer of two possible distances.
pub open spec fn nearer(a: Option<int>, b: Option<int>) -> Option<int> {
    match (a, b) {
        (Some(x), Some(y)) => Some(if x <= y {
            x
        } else {
            y
        }),
        (Some(x), None) => Some(x),
        (None, y) => y,
    }
}

/// What a linear scan over the outcomes `rs` finds: the least distance
/// among the hits, by `key`, or `None` when nothing is hit.
pub open spec fn nearest<T>(rs: Seq<Option<T>>, key: spec_fn(T) -> int) -> Option<int>
    decreases rs.len(),
{
    if rs.len() == 0 {
        None
    } else {
        nearer(nearest(rs.drop_last(), key), key_of(rs.last(), key))
    }
}

/// Under a child, every node's box lets through each ray that hits one of
/// the objects under it, where `out` gives each object's hit.
pub open spec fn child_boxes_sound<H: Hittable>(
    c: Child<H>,
    q: H::Query,
    out: spec_fn(H) -> Option<H::Hit>,
) -> bool
    decreases c,
{
    match c {
        Child::Leaf(..) => true,
        Child::Node(n) => node_boxes_sound(*n, q, out),
    }
}

/// Under a node, every node's box lets through each ray that hits one of
/// the objects under it, where `out` gives each object's hit.
pub open spec fn node_boxes_sound<H: Hittable>(
    n: Node<H>,
    q: H::Query,
    out: spec_fn(H) -> Option<H::Hit>,
) -> bool
    decreases n,
{
    &&& any_hit(node_leaves(n).map_values(out)) ==> !H::box_outcome(n.bounding_box, q, false)
    &&& child_boxes_sound(n.left, q, out)
    &&& child_boxes_sound(n.right, q, out)
}

/// Scanning two runs of outcomes one after the other finds the nearer of
/// what each scan finds.
proof fn lemma_nearest_concat<T>(a: Seq<Option<T>>, b: Seq<Option<T>>, key: spec_fn(T) -> int)
    ensures
        nearest(a + b, key) == nearer(nearest(a, key), nearest(b, key)),
    decreases b.len(),
{
    if b.len() == 0 {
        assert(a + b =~= a);
        match nearest(a, key) {
            Some(_) => {},
            None => {},
        }
    } else {
        assert((a + b).drop_last() =~= a + b.drop_last());
        lemma_nearest_concat(a, b.drop_last(), key);
    }
}

/// A scan over outcomes none of which is a hit finds nothing.
proof fn lemma_nearest_of_misses<T>(rs: Seq<Option<T>>, key: spec_fn(T) -> int)
    requires
        !any_hit(rs),
    ensures
        nearest(rs, key) is None,
    decreases rs.len(),
{
    if rs.len() > 0 {
        assert(rs.last() is None) by {
            assert(!(rs[rs.len() - 1] is Some));
        }
        assert forall|i: int| 0 <= i < rs.drop_last().len() implies !(
        #[trigger] rs.drop_last()[i] is Some) by {
            assert(rs.drop_last()[i] == rs[i]);
            assert(!(rs[i] is Some));
        }
        lemma_nearest_of_misses(rs.drop_last(), key);
    }
}

/// The traversal below a child finds what a linear scan of its objects finds.
proof fn lemma_child_nearest<H: Hittable>(
    c: Child<H>,
    q: H::Query,
    out: spec_fn(H) -> Option<H::Hit>,
    key: spec_fn(H::Hit) -> int,
    r: Option<H::Hit>,
)
    requires
        forall|h: H, x: Option<H::Hit>|
            child_leaves(c).contains(h) && #[trigger] h.hit_outcome(q, x) ==> x == out(h),
        forall|a: H::Hit, b: H::Hit, k: bool|
            #[trigger] H::closer_outcome(a, b, k) ==> k == (key(a) < key(b)),
        child_boxes_sound(c, q, out),
        child_outcome(c, q, r),
    ensures
        key_of(r, key) == nearest(child_leaves(c).map_values(out), key),
    decreases c,
{
    match c {
        Child::Leaf(h, _) => {
            assert(child_leaves(c).contains(h)) by {
                assert(child_leaves(c)[0] == h);
            }
            let rs = child_leaves(c).map_values(out);
            assert(rs.drop_last() =~= Seq::<Option<H::Hit>>::empty());
            assert(rs.last() == out(h));
            assert(h.hit_outcome(q, r));
            assert(r == out(h));
            assert(nearest(rs.drop_last(), key) is None);
        },
        Child::Node(n) => {
            lemma_node_nearest(*n, q, out, key, r);
        },
    }
}

/// The traversal below a node finds what a linear scan of its objects finds.
proof fn lemma_node_nearest<H: Hittable>(
    n: Node<H>,
    q: H::Query,
    out: spec_fn(H) -> Option<H::Hit>,
    key: spec_fn(H::Hit) -> int,
    r: Option<H::Hit>,
)
    requires
        forall|h: H, x: Option<H::Hit>|
            node_leaves(n).contains(h) && #[trigger] h.hit_outcome(q, x) ==> x == out(h),
        forall|a: H::Hit, b: H::Hit, k: bool|
            #[trigger] H::closer_outcome(a, b, k) ==> k == (key(a) < key(b)),
        node_boxes_sound(n, q, out),
        node_outcome(n, q, r),
    ensures
        key_of(r, key) == nearest(node_leaves(n).map_values(out), key),
    decreases n,
{
    let ll = child_leaves(n.left);
    let rl = child_leaves(n.right);
    assert(node_leaves(n) == ll + rl);
    assert((ll + rl).map_values(out) =~= ll.map_values(out) + rl.map_values(out));
    lemma_nearest_concat(ll.map_values(out), rl.map_values(out), key);
    if H::box_outcome(n.bounding_box, q, false) && r is None {
        lemma_nearest_of_misses(node_leaves(n).map_values(out), key);
    } else {
        let (l, rr) = choose|l: Option<H::Hit>, rr: Option<H::Hit>|
            child_outcome(n.left, q, l) && child_outcome(n.right, q, rr) && #[trigger] kept::<H>(
                l,
                rr,
                r,
            );
        assert forall|h: H, x: Option<H::Hit>|
            ll.contains(h) && #[trigger] h.hit_outcome(q, x) implies x == out(h) by {
            let i = choose|i: int| 0 <= i < ll.len() && ll[i] == h;
            assert((ll + rl)[i] == h);
        }
        assert forall|h: H, x: Option<H::Hit>|
            rl.contains(h) && #[trigger] h.hit_outcome(q, x) implies x == out(h) by {
            let i = choose|i: int| 0 <= i < rl.len() && rl[i] == h;
            assert((ll + rl)[ll.len() + i] == h);
        }
        lemma_child_nearest(n.left, q, out, key, l);
        lemma_child_nearest(n.right, q, out, key, rr);
        match (l, rr) {
            (Some(a), Some(b)) => {
                let c = choose|c: bool|
                    #[trigger] H::closer_outcome(a, b, c) && r == if c {
                        Some(a)
                    } else {
                        Some(b)
                    };
                assert(c == (key(a) < key(b)));
            },
            _ => {},
        }
    }
}

/// The hierarchy finds the nearest hit, as a scan over all its objects
/// would. Where each object's hit is fixed by the query (`out`), `closer`
/// compares distances (`key`), and no box turns away a ray that hits an
/// object inside it, every outcome of `hit` is a hit exactly when some
/// object is hit, and lies at the least distance among the objects' hits.
pub proof fn lemma_hit_matches_linear_scan<H: Hittable>(
    n: Node<H>,
    q: H::Query,
    out: spec_fn(H) -> Option<H::Hit>,
    key: spec_fn(H::Hit) -> int,
    r: Option<H::Hit>,
)
    requires
        forall|h: H, x: Option<H::Hit>|
            n.leaves().contains(h) && #[trigger] h.hit_outcome(q, x) ==> x == out(h),
        forall|a: H::Hit, b: H::Hit, k: bool|
            #[trigger] H::closer_outcome(a, b, k) ==> k == (key(a) < key(b)),
        node_boxes_sound(n, q, out),
        n.hit_outcome(q, r),
    ensures
        key_of(r, key) == nearest(n.leaves().map_values(out), key),
{
    lemma_node_nearest(n, q, out, key, r);
}

/// Box `b` lies within box `c`.
pub open spec fn contained<S: Copy + PartialOrd>(b: AABB<S>, c: AABB<S>) -> bool {
    forall|k: int|
        0 <= k < 3 ==> crate::math::le(#[trigger] c.min[k], b.min[k]) && crate::math::le(
            b.max[k],
            c.max[k],
        )
}

/// The box test is monotone for `q`: a box that lets the ray through lets
/// it through every box around it too.
pub open spec fn box_test_monotone<H: Hittable>(q: H::Query) -> bool {
    forall|b: AABB<H::Scalar>, c: AABB<H::Scalar>|
        #[trigger] contained(b, c) && !H::box_outcome(b, q, false) ==> !H::box_outcome(c, q, false)
}

/// Under a child, each object's own box lets through each ray that hits
/// the object, where `out` gives each object's hit.
pub open spec fn child_leaf_boxes_sound<H: Hittable>(
    c: Child<H>,
    q: H::Query,
    out: spec_fn(H) -> Option<H::Hit>,
) -> bool
    decreases c,
{
    match c {
        Child::Leaf(h, b) => out(h) is Some ==> !H::box_outcome(b, q, false),
        Child::Node(n) => node_leaf_boxes_sound(*n, q, out),
    }
}

/// Under a node, each object's own box lets through each ray that hits the
/// object, where `out` gives each object's hit.
pub open spec fn node_leaf_boxes_sound<H: Hittable>(
    n: Node<H>,
    q: H::Query,
    out: spec_fn(H) -> Option<H::Hit>,
) -> bool
    decreases n,
{
    child_leaf_boxes_sound(n.left, q, out) && child_leaf_boxes_sound(n.right, q, out)
}

/// A hit among a run of outcomes joined from two runs is a hit in one of
/// them.
proof fn lemma_any_hit_concat<T>(a: Seq<Option<T>>, b: Seq<Option<T>>)
    requires
        any_hit(a + b),
    ensures
        any_hit(a) || any_hit(b),
{
    let i = choose|i: int| 0 <= i < (a + b).len() && (#[trigger] (a + b)[i]) is Some;
    if i < a.len() {
        assert(a[i] is Some);
    } else {
        assert(b[i - a.len()] is Some);
    }
}

/// The box of a child lies within the box of its node.
proof fn lemma_child_box_within<H: Hittable>(n: Node<H>)
    requires
        crate::math::total_order::<H::Scalar>(),
        n.bounding_box == crate::aabb::surrounding(child_box(n.left), child_box(n.right)),
    ensures
        contained(child_box(n.left), n.bounding_box),
        contained(child_box(n.right), n.bounding_box),
{
    crate::aabb::lemma_surrounding_box_dominates(child_box(n.left), child_box(n.right));
}

/// From the objects' own boxes to every box under a child.
proof fn lemma_child_boxes_sound<H: Hittable>(
    c: Child<H>,
    q: H::Query,
    out: spec_fn(H) -> Option<H::Hit>,
)
    requires
        crate::math::total_order::<H::Scalar>(),
        box_test_monotone::<H>(q),
        child_boxes_nested(c),
        child_leaf_boxes_sound(c, q, out),
    ensures
        child_boxes_sound(c, q, out),
        any_hit(child_leaves(c).map_values(out)) ==> !H::box_outcome(child_box(c), q, false),
    decreases c,
{
    match c {
        Child::Leaf(h, b) => {
            if any_hit(child_leaves(c).map_values(out)) {
                let i = choose|i: int|
                    0 <= i < child_leaves(c).map_values(out).len() && (#[trigger] child_leaves(
                        c,
                    ).map_values(out)[i]) is Some;
                assert(child_leaves(c)[0] == h);
            }
        },
        Child::Node(n) => {
            lemma_node_boxes_sound(*n, q, out);
        },
    }
}

/// From the objects' own boxes to every box under a node.
proof fn lemma_node_boxes_sound<H: Hittable>(
    n: Node<H>,
    q: H::Query,
    out: spec_fn(H) -> Option<H::Hit>,
)
    requires
        crate::math::total_order::<H::Scalar>(),
        box_test_monotone::<H>(q),
        node_boxes_nested(n),
        node_leaf_boxes_sound(n, q, out),
    ensures
        node_boxes_sound(n, q, out),
        any_hit(node_leaves(n).map_values(out)) ==> !H::box_outcome(n.bounding_box, q, false),
    decreases n,
{
    lemma_child_boxes_sound(n.left, q, out);
    lemma_child_boxes_sound(n.right, q, out);
    let ll = child_leaves(n.left);
    let rl = child_leaves(n.right);
    assert((ll + rl).map_values(out) =~= ll.map_values(out) + rl.map_values(out));
    if any_hit(node_leaves(n).map_values(out)) {
        lemma_any_hit_concat(ll.map_values(out), rl.map_values(out));
        lemma_child_box_within(n);
        if any_hit(ll.map_values(out)) {
            assert(contained(child_box(n.left), n.bounding_box));
        } else {
            assert(contained(child_box(n.right), n.bounding_box));
        }
    }
}

/// The hierarchy finds the nearest hit, as a scan over all its objects
/// would, when each object's own box holds its hits. Where each object's
/// hit is fixed by the query (`out`), `closer` compares distances (`key`),
/// every leaf's box lets through a ray that hits its object, the box test
/// lets a ray through every box around one it lets through, and the
/// hierarchy's boxes nest as `Node::new` builds them, every outcome of
/// `hit` is a hit exactly when some object is hit, and lies at the least
/// distance among the objects' hits.
pub proof fn lemma_hierarchy_finds_nearest<H: Hittable>(
    n: Node<H>,
    q: H::Query,
    out: spec_fn(H) -> Option<H::Hit>,
    key: spec_fn(H::Hit) -> int,
    r: Option<H::Hit>,
)
    requires
        crate::math::total_order::<H::Scalar>(),
        forall|h: H, x: Option<H::Hit>|
            n.leaves().contains(h) && #[trigger] h.hit_outcome(q, x) ==> x == out(h),
        forall|a: H::Hit, b: H::Hit, k: bool|
            #[trigger] H::closer_outcome(a, b, k) ==> k == (key(a) < key(b)),
        node_boxes_nested(n),
        node_leaf_boxes_sound(n, q, out),
        box_test_monotone::<H>(q),
        n.hit_outcome(q, r),
    ensures
        key_of(r, key) == nearest(n.leaves().map_values(out), key),
{
    lemma_node_boxes_sound(n, q, out);
    lemma_node_nearest(n, q, out, key, r);
}

/// Every box lies within itself.
proof fn lemma_contained_refl<S: Copy + PartialOrd>(b: AABB<S>)
    requires
        crate::math::total_order::<S>(),
    ensures
        contained(b, b),
{
    assert forall|k: int| 0 <= k < 3 implies crate::math::le(#[trigger] b.min[k], b.min[k])
        && crate::math::le(b.max[k], b.max[k]) by {
        assert(b.min[k].partial_cmp_spec(&b.min[k]) is Some);
        assert(b.max[k].partial_cmp_spec(&b.max[k]) is Some);
    }
}

/// A box within a box within a third lies within the third.
proof fn lemma_contained_trans<S: Copy + PartialOrd>(a: AABB<S>, b: AABB<S>, c: AABB<S>)
    requires
        crate::math::total_order::<S>(),
        contained(a, b),
        contained(b, c),
    ensures
        contained(a, c),
{
    assert forall|k: int| 0 <= k < 3 implies crate::math::le(#[trigger] c.min[k], a.min[k])
        && crate::math::le(a.max[k], c.max[k]) by {
        assert(crate::math::le(c.min[k], b.min[k]) && crate::math::le(b.min[k], a.min[k]));
        assert(crate::math::le(a.max[k], b.max[k]) && crate::math::le(b.max[k], c.max[k]));
    }
}

/// Under a child whose boxes nest, every leaf's box lies within the
/// child's box.
proof fn lemma_child_leaf_boxes_within<H: Hittable>(c: Child<H>)
    requires
        crate::math::total_order::<H::Scalar>(),
        child_boxes_nested(c),
    ensures
        forall|i: int|
            0 <= i < child_leaf_pairs(c).len() ==> contained(
                (#[trigger] child_leaf_pairs(c)[i]).1,
                child_box(c),
            ),
    decreases c,
{
    match c {
        Child::Leaf(h, b) => {
            lemma_contained_refl(b);
            assert(child_leaf_pairs(c) =~= seq![(h, b)]);
            assert(child_leaf_pairs(c)[0].1 == b);
        },
        Child::Node(n) => {
            lemma_leaf_boxes_within(*n);
            assert(child_leaf_pairs(c) == node_leaf_pairs(*n));
            assert(child_box(c) == n.bounding_box);
        },
    }
}

/// In a hierarchy as `Node::new` builds it, every object's box lies within
/// the node's box: the node's box is the union of its objects' boxes.
pub proof fn lemma_leaf_boxes_within<H: Hittable>(n: Node<H>)
    requires
        crate::math::total_order::<H::Scalar>(),
        node_boxes_nested(n),
    ensures
        forall|i: int|
            0 <= i < node_leaf_pairs(n).len() ==> contained(
                (#[trigger] node_leaf_pairs(n)[i]).1,
                n.bounding_box,
            ),
    decreases n,
{
    lemma_child_leaf_boxes_within(n.left);
    lemma_child_leaf_boxes_within(n.right);
    lemma_child_box_within(n);
    let lp = child_leaf_pairs(n.left);
    let rp = child_leaf_pairs(n.right);
    assert forall|i: int| 0 <= i < node_leaf_pairs(n).len() implies contained(
        (#[trigger] node_leaf_pairs(n)[i]).1,
        n.bounding_box,
    ) by {
        if i < lp.len() {
            assert(node_leaf_pairs(n)[i] == lp[i]);
            lemma_contained_trans(lp[i].1, child_box(n.left), n.bounding_box);
        } else {
            assert(node_leaf_pairs(n)[i] == rp[i - lp.len()]);
            lemma_contained_trans(rp[i - lp.len()].1, child_box(n.right), n.bounding_box);
        }
    }
}

} // verus!
