//! The 2-D spatial index: kiddo's fixed-point k-d tree over integer
//! coordinates, queried for nearest neighbours under squared Euclidean
//! distance.
//!
//! Coordinates are whole numbers (1e-7 degree units) held in 128-bit
//! fixed-point values with no fractional bits, so every squared distance the
//! tree computes for coordinates within `COORD_LIMIT` is exact.

use fixed::types::extra::U0;
use fixed::FixedI128;
use kiddo::fixed::distance::SquaredEuclidean;
use kiddo::fixed::kdtree::KdTree;
use vstd::prelude::*;

verus! {

/// Largest magnitude of a coordinate: 180 degrees in 1e-7 degree units.
pub const COORD_LIMIT: i64 = 1_800_000_000;

/// Items in a bucket of the tree.
pub const BUCKET_SIZE: usize = 32;

/// Fewer points than this (half a bucket, plus one) may share one
/// coordinate value on an axis. A bucket split then always cuts between
/// points of the splitting value's own rank, so every point of a leaf lies
/// on its side of the split.
pub const SHARE_LIMIT: usize = 17;

/// Items the tree's 32-bit node indices can reach.
pub const INDEX_CAPACITY: usize = 0x7fff_fffe;

pub type Coord = FixedI128<U0>;

pub type PointTree = KdTree<Coord, u64, 2, 32, u32>;

/// kiddo's fixed-point `KdTree`, held opaquely; what it holds is
/// `tree_points`.
#[verifier::external_type_specification]
#[verifier::external_body]
#[verifier::reject_recursive_types(A)]
#[verifier::reject_recursive_types(T)]
#[verifier::reject_recursive_types(IDX)]
pub struct ExKdTree<A: Copy + Default, T: Copy + Default, const K: usize, const B: usize, IDX>(
    KdTree<A, T, K, B, IDX>,
);

/// The `fixed` crate's 128-bit fixed-point number, the tree's coordinate
/// type, held opaquely.
#[verifier::external_type_specification]
#[verifier::external_body]
#[verifier::reject_recursive_types(Frac)]
pub struct ExFixedI128<Frac>(FixedI128<Frac>);

/// The type-level zero (no fractional bits) of the coordinate type.
#[verifier::external_type_specification]
#[verifier::external_body]
pub struct ExU0(U0);

/// The points held by a tree, by item: item `i` lies at the `i`-th point.
pub uninterp spec fn tree_points(t: PointTree) -> Seq<(int, int)>;

pub open spec fn within_limit(v: int) -> bool {
    -COORD_LIMIT <= v <= COORD_LIMIT
}

/// Squared Euclidean distance between two points.
pub open spec fn sq_dist(p: (int, int), q: (int, int)) -> int {
    (p.0 - q.0) * (p.0 - q.0) + (p.1 - q.1) * (p.1 - q.1)
}

/// How many points of `s` have first coordinate `v`.
pub open spec fn count_x(s: Seq<(int, int)>, v: int) -> nat
    decreases s.len(),
{
    if s.len() == 0 {
        0
    } else {
        count_x(s.drop_last(), v) + if s.last().0 == v {
            1nat
        } else {
            0nat
        }
    }
}

/// How many points of `s` have second coordinate `v`.
pub open spec fn count_y(s: Seq<(int, int)>, v: int) -> nat
    decreases s.len(),
{
    if s.len() == 0 {
        0
    } else {
        count_y(s.drop_last(), v) + if s.last().1 == v {
            1nat
        } else {
            0nat
        }
    }
}

pub open spec fn min_len(a: int, b: int) -> int {
    if a <= b {
        a
    } else {
        b
    }
}

/// Whether at most half a bucket's worth of points share any one
/// coordinate value on either axis.
pub open spec fn uncrowded(s: Seq<(int, int)>) -> bool {
    &&& forall|v: int| #[trigger] count_x(s, v) < SHARE_LIMIT
    &&& forall|v: int| #[trigger] count_y(s, v) < SHARE_LIMIT
}

/// An empty tree.
///
/// Relies on kiddo's `KdTree::new`, which starts a tree with no items.
#[verifier::external_body]
pub fn tree_new() -> (r: PointTree)
    ensures
        tree_points(r) == Seq::<(int, int)>::empty(),
{
    KdTree::new()
}

/// Adds `item` at point (`x`, `y`).
///
/// Relies on kiddo's `KdTree::add`, which stores the point with its item.
/// It panics only when it splits a full bucket whose points all share the
/// coordinate on the splitting axis, which needs a bucket's worth of points
/// with one coordinate value; the tree's 32-bit node indices bound its size.
/// With at most 16 points per coordinate value, a split never takes the
/// fallback that searches upward for a new pivot: at least 17 points would
/// have to share the bucket's lowest value on the splitting axis.
#[verifier::external_body]
pub fn tree_add(tree: &mut PointTree, x: i64, y: i64, item: u64)
    requires
        item == tree_points(*old(tree)).len(),
        tree_points(*old(tree)).len() < INDEX_CAPACITY,
        uncrowded(tree_points(*old(tree))),
    ensures
        tree_points(*final(tree)) == tree_points(*old(tree)).push((x as int, y as int)),
{
    tree.add(&[Coord::from_num(x), Coord::from_num(y)], item)
}

/// Items of the points nearest to (`x`, `y`), nearest first.
///
/// Relies on kiddo's `KdTree::nearest_n` with `SquaredEuclidean`: it keeps
/// the nearest items in a heap filled up to the heap's allocated capacity,
/// which is at least `qty`, and returns them sorted by ascending distance.
/// Every item returned is at least as near as every item left out: its
/// pruning is exact because, with the points uncrowded when each bucket
/// was split, every leaf lies on its own side of each split. With an empty
/// heap (`qty` of 0) it panics, and the heap's allocation bounds `qty`.
/// Coordinates within `COORD_LIMIT` keep every distance it computes exact.
#[verifier::external_body]
pub fn tree_nearest(tree: &PointTree, x: i64, y: i64, qty: usize) -> (r: Vec<u64>)
    requires
        1 <= qty <= tree_points(*tree).len(),
        uncrowded(tree_points(*tree)),
        within_limit(x as int),
        within_limit(y as int),
        forall|i: int|
            0 <= i < tree_points(*tree).len() ==> within_limit(
                #[trigger] tree_points(*tree)[i].0,
            ) && within_limit(tree_points(*tree)[i].1),
    ensures
        min_len(qty as int, tree_points(*tree).len() as int) <= r.len() <= tree_points(
            *tree,
        ).len(),
        forall|i: int| 0 <= i < r.len() ==> #[trigger] r[i] < tree_points(*tree).len(),
        forall|i: int, j: int| 0 <= i < j < r.len() ==> r[i] != r[j],
        forall|i: int, j: int|
            0 <= i < j < r.len() ==> sq_dist(tree_points(*tree)[r[i] as int], (x as int, y as int))
                <= sq_dist(tree_points(*tree)[r[j] as int], (x as int, y as int)),
        forall|i: int, m: int|
            #![trigger r[i], tree_points(*tree)[m]]
            0 <= i < r.len() && 0 <= m < tree_points(*tree).len() && !r@.contains(m as u64)
                ==> sq_dist(tree_points(*tree)[r[i] as int], (x as int, y as int)) <= sq_dist(
                tree_points(*tree)[m],
                (x as int, y as int),
            ),
{
    tree.nearest_n::<SquaredEuclidean>(&[Coord::from_num(x), Coord::from_num(y)], qty)
        .into_iter()
        .map(|n| n.item)
        .collect()
}

} // verus!
