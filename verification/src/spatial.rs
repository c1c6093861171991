//! Spatial lookup of nodes by position, through a kiddo k-d tree.
//!
//! The tree holds every position with both coordinates halved (rounded down), which keeps all
//! coordinate differences the tree computes within `i32`. A query on the halved positions returns
//! a superset of the nodes within a given Chebyshev distance; callers then test each candidate
//! exactly.
use crate::node::Position;
use crate::propagation_models::{axis_gap, chebyshev_distance};
use fixed::types::extra::U0;
use fixed::FixedI32;
use kiddo::{Chebyshev, ImmutableKdTree};
use vstd::prelude::*;

verus! {

/// A k-d tree over halved node positions; item `i` is the point at index `i` of the slice the
/// tree was built from.
#[verifier::external_body]
pub struct SpatialIndex {
    tree: ImmutableKdTree<FixedI32<U0>, 2>,
}

/// The points stored in a spatial index, in item order.
pub uninterp spec fn index_points(index: SpatialIndex) -> Seq<(i32, i32)>;

/// Largest per-axis distance between two points of the index.
pub open spec fn index_distance(a: (i32, i32), b: (i32, i32)) -> int {
    if axis_gap(a.0, b.0) >= axis_gap(a.1, b.1) {
        axis_gap(a.0, b.0)
    } else {
        axis_gap(a.1, b.1)
    }
}

/// A coordinate halved, rounded towards negative infinity.
pub open spec fn halved(x: i32) -> i32 {
    (x as int / 2) as i32
}

/// A position with both coordinates halved.
pub open spec fn halved_position(p: Position) -> (i32, i32) {
    (halved(p[0]), halved(p[1]))
}

/// Half of a distance, rounded up: no pair of coordinates within `r` of each other has halves
/// further apart than this.
pub open spec fn half_radius(r: int) -> int {
    (r + 1) / 2
}

/// Points within Chebyshev distance `r` of each other have halved positions within
/// `half_radius(r)` of each other.
pub proof fn lemma_halving_keeps_close_points_close(a: Position, b: Position, r: int)
    requires
        chebyshev_distance(a, b) <= r,
    ensures
        index_distance(halved_position(a), halved_position(b)) <= half_radius(r),
{
    assert(axis_gap(halved(a[0]), halved(b[0])) <= half_radius(r));
    assert(axis_gap(halved(a[1]), halved(b[1])) <= half_radius(r));
}

/// Halves a coordinate, rounding towards negative infinity.
pub fn halve_coordinate(x: i32) -> (r: i32)
    ensures
        r == halved(x),
{
    let lifted: i64 = x as i64 + 0x8000_0000i64;
    (lifted / 2 - 0x4000_0000i64) as i32
}

/// Halves both coordinates of a position.
pub fn halve_position(p: &Position) -> (r: [i32; 2])
    ensures
        (r[0], r[1]) == halved_position(*p),
{
    [halve_coordinate(p[0]), halve_coordinate(p[1])]
}

/// Builds a k-d tree (`kiddo::ImmutableKdTree::new_from_slice`) over `points`, item `i` being
/// `points[i]`. Kiddo refuses only a tree whose item indices do not fit in `u32`, which the
/// `requires` rules out; the contract claims that the tree holds exactly the given points.
#[verifier::external_body]
pub(crate) fn build_spatial_index(points: &Vec<[i32; 2]>) -> (index: SpatialIndex)
    requires
        points.len() <= 0x1_0000_0000,
    ensures
        index_points(index).len() == points.len(),
        forall|i: int|
            0 <= i < points.len() ==> #[trigger] index_points(index)[i] == (points[i][0], points[i][1]),
{
    let converted: Vec<[FixedI32<U0>; 2]> = points.iter().map(
        |p| [FixedI32::<U0>::from_bits(p[0]), FixedI32::<U0>::from_bits(p[1])],
    ).collect();
    SpatialIndex { tree: ImmutableKdTree::new_from_slice(converted.as_slice()).expect("item indices fit in u32") }
}

/// Queries the tree (`KdTree::query(..).within::<Chebyshev<_>>(radius).unsorted().execute()`)
/// for every item whose point lies within Chebyshev distance `radius` (boundary included) of
/// `centre`, in no particular order. The contract claims that each such item comes back exactly
/// once, as its index, and no other item does. The points and the centre are halved positions,
/// so every coordinate difference kiddo computes fits in `i32`.
#[verifier::external_body]
pub(crate) fn query_within_box(index: &SpatialIndex, centre: &[i32; 2], radius: i32) -> (r: Vec<usize>)
    requires
        radius >= 0,
        -0x4000_0000 <= centre[0] < 0x4000_0000,
        -0x4000_0000 <= centre[1] < 0x4000_0000,
        forall|i: int|
            0 <= i < index_points(*index).len() ==> -0x4000_0000 <= #[trigger] index_points(
                *index,
            )[i].0 < 0x4000_0000 && -0x4000_0000 <= index_points(*index)[i].1 < 0x4000_0000,
    ensures
        r@.no_duplicates(),
        forall|i: int|
            #![trigger r@.contains(i as usize)]
            0 <= i < index_points(*index).len() ==> (r@.contains(i as usize) <==> index_distance(
                index_points(*index)[i],
                (centre[0], centre[1]),
            ) <= radius),
        forall|j: int| 0 <= j < r.len() ==> #[trigger] r[j] < index_points(*index).len(),
{
    let query = [FixedI32::<U0>::from_bits(centre[0]), FixedI32::<U0>::from_bits(centre[1])];
    index.tree.query(&query).within::<Chebyshev<FixedI32<U0>>>(FixedI32::<U0>::from_bits(radius))
        .unsorted().execute().into_iter().map(|found| found.item as usize).collect()
}

} // verus!
