use vstd::prelude::*;
use crate::svo_trait::{SVONode, NodeBoundary};
use crate::geometry::{spec_mid_point, spec_child_min, spec_child_max, compute_mid_point, compute_child_bounds};

verus! {

/// The most entities that one leaf holds.
pub const LEAF_CAPACITY: usize = 5;

/// Whether a set of `count` entities stays in one leaf.
pub fn fits_in_leaf(count: usize) -> (r: bool)
    ensures
        r == (count <= LEAF_CAPACITY),
{
    count <= LEAF_CAPACITY
}

/// The box `b` widened to take in `point`, axis by axis.
pub open spec fn widen<T: SVONode>(b: [[T::Coord; 3]; 2], point: [T::Coord; 3]) -> [[T::Coord; 3]; 2] {
    [
        [
            if T::spec_lt(point[0], b[0][0]) { point[0] } else { b[0][0] },
            if T::spec_lt(point[1], b[0][1]) { point[1] } else { b[0][1] },
            if T::spec_lt(point[2], b[0][2]) { point[2] } else { b[0][2] },
        ],
        [
            if T::spec_lt(b[1][0], point[0]) { point[0] } else { b[1][0] },
            if T::spec_lt(b[1][1], point[1]) { point[1] } else { b[1][1] },
            if T::spec_lt(b[1][2], point[2]) { point[2] } else { b[1][2] },
        ],
    ]
}

/// The box `init` widened to take in every point, in order.
pub open spec fn fold_bounds<T: SVONode>(points: Seq<[T::Coord; 3]>, init: [[T::Coord; 3]; 2]) -> [[T::Coord; 3]; 2]
    decreases points.len(),
{
    if points.len() == 0 {
        init
    } else {
        widen::<T>(fold_bounds::<T>(points.drop_last(), init), points.last())
    }
}

/// The box that `init` grows to when widened by each point in turn: with `init` the empty
/// box (`+inf` below, `-inf` above), the bounding box of the points.
pub fn points_bounds<T: SVONode>(points: &Vec<[T::Coord; 3]>, init: [[T::Coord; 3]; 2]) -> (r: [[T::Coord; 3]; 2])
    ensures
        r == fold_bounds::<T>(points@, init),
{
    let mut min_corner = init[0];
    let mut max_corner = init[1];
    proof {
        assert(init =~= [min_corner, max_corner]);
        assert(points@.take(0) =~= Seq::<[T::Coord; 3]>::empty());
    }
    for k in 0..points.len()
        invariant
            [min_corner, max_corner] == fold_bounds::<T>(points@.take(k as int), init),
    {
        let point = points[k];
        proof {
            let f = fold_bounds::<T>(points@.take(k as int), init);
            assert([min_corner, max_corner][0] == f[0]);
            assert([min_corner, max_corner][1] == f[1]);
        }
        if T::coord_lt(max_corner[0], point[0]) {
            max_corner[0] = point[0];
        }
        if T::coord_lt(max_corner[1], point[1]) {
            max_corner[1] = point[1];
        }
        if T::coord_lt(max_corner[2], point[2]) {
            max_corner[2] = point[2];
        }
        if T::coord_lt(point[0], min_corner[0]) {
            min_corner[0] = point[0];
        }
        if T::coord_lt(point[1], min_corner[1]) {
            min_corner[1] = point[1];
        }
        if T::coord_lt(point[2], min_corner[2]) {
            min_corner[2] = point[2];
        }
        proof {
            assert(points@.take(k + 1).drop_last() =~= points@.take(k as int));
            assert(points@.take(k + 1).last() == point);
            let w = widen::<T>(fold_bounds::<T>(points@.take(k as int), init), point);
            assert(fold_bounds::<T>(points@.take(k + 1), init) == w);
            assert(min_corner =~= w[0]);
            assert(max_corner =~= w[1]);
            assert([min_corner, max_corner] =~= w);
        }
    }
    proof {
        assert(points@.take(points.len() as int) =~= points@);
    }
    [min_corner, max_corner]
}

/// The octant of `point` relative to `mid`: 4 if it lies above `mid` on the first axis, plus 2
/// on the second, plus 1 on the third.
pub open spec fn spec_point_octant<T: SVONode>(point: [T::Coord; 3], mid: [T::Coord; 3]) -> usize {
    ((if T::spec_lt(mid[0], point[0]) { 4int } else { 0int }) + (if T::spec_lt(mid[1], point[1]) {
        2int
    } else {
        0int
    }) + (if T::spec_lt(mid[2], point[2]) { 1int } else { 0int })) as usize
}

/// The octant of `point` relative to `mid`.
pub fn point_octant<T: SVONode>(point: [T::Coord; 3], mid: [T::Coord; 3]) -> (r: usize)
    ensures
        r == spec_point_octant::<T>(point, mid),
        r < 8,
{
    let mut index: usize = 0;
    if T::coord_lt(mid[0], point[0]) {
        index += 4;
    }
    if T::coord_lt(mid[1], point[1]) {
        index += 2;
    }
    if T::coord_lt(mid[2], point[2]) {
        index += 1;
    }
    index
}

/// The points of `points` in octant `o` of the split at `mid`, in their order.
pub open spec fn octant_points<T: SVONode>(points: Seq<[T::Coord; 3]>, mid: [T::Coord; 3], o: int) -> Seq<[T::Coord; 3]> {
    points.filter(|p: [T::Coord; 3]| spec_point_octant::<T>(p, mid) as int == o)
}

/// The points split among the eight octants of `bounds`, each share in the points' order.
pub fn distribute_points<T: SVONode>(points: &Vec<[T::Coord; 3]>, bounds: [[T::Coord; 3]; 2]) -> (r: Vec<Vec<[T::Coord; 3]>>)
    ensures
        r.len() == 8,
        forall|o: int| 0 <= o < 8 ==> #[trigger] r[o]@ == octant_points::<T>(points@, spec_mid_point::<T>(bounds[0], bounds[1]), o),
{
    let mid = compute_mid_point::<T>(bounds[0], bounds[1]);
    let mut child_list: Vec<Vec<[T::Coord; 3]>> = Vec::new();
    for o in 0..8
        invariant
            child_list.len() == o,
            forall|j: int| 0 <= j < o ==> #[trigger] child_list[j]@ == Seq::<[T::Coord; 3]>::empty(),
    {
        child_list.push(Vec::new());
    }
    proof {
        reveal(Seq::filter);
        assert forall|o: int| 0 <= o < 8 implies #[trigger] child_list[o]@ == octant_points::<T>(points@.take(0), mid, o) by {
            assert(points@.take(0) =~= Seq::<[T::Coord; 3]>::empty());
        }
    }
    for k in 0..points.len()
        invariant
            child_list.len() == 8,
            mid == spec_mid_point::<T>(bounds[0], bounds[1]),
            forall|o: int| 0 <= o < 8 ==> #[trigger] child_list[o]@ == octant_points::<T>(points@.take(k as int), mid, o),
    {
        let point = points[k];
        let index = point_octant::<T>(point, mid);
        let ghost before = child_list@;
        child_list[index].push(point);
        proof {
            reveal(Seq::filter);
            assert(points@.take(k + 1).drop_last() =~= points@.take(k as int));
            assert(points@.take(k + 1).last() == point);
            assert forall|o: int| 0 <= o < 8 implies #[trigger] child_list[o]@ == octant_points::<T>(points@.take(k + 1), mid, o) by {
                if o != index as int {
                    assert(child_list[o] == before[o]);
                }
            }
        }
    }
    proof {
        assert(points@.take(points.len() as int) =~= points@);
    }
    child_list
}

/// Where `entity_position` puts a point: its octant of `bounds` and that octant's corners.
pub fn point_position<T: SVONode>(point: [T::Coord; 3], bounds: [[T::Coord; 3]; 2]) -> (r: NodeBoundary<T::Coord>)
    ensures
        r.index == spec_point_octant::<T>(point, spec_mid_point::<T>(bounds[0], bounds[1])),
        r.min == spec_child_min(r.index, bounds[0], spec_mid_point::<T>(bounds[0], bounds[1])),
        r.max == spec_child_max(r.index, spec_mid_point::<T>(bounds[0], bounds[1]), bounds[1]),
{
    let mid = compute_mid_point::<T>(bounds[0], bounds[1]);
    let index = point_octant::<T>(point, mid);
    proof {
        assert(upper_bits::<T>(index, point, mid)) by {
            lemma_octant_bits::<T>(point, mid);
        }
    }
    let (min, max) = compute_child_bounds(index, bounds[0], mid, bounds[1]);
    NodeBoundary { index, min, max }
}

/// Which corner a point's octant takes on each axis is whether the point lies above the
/// midpoint on it.
pub open spec fn upper_bits<T: SVONode>(index: usize, point: [T::Coord; 3], mid: [T::Coord; 3]) -> bool {
    &&& crate::geometry::upper_half(index, 0) == T::spec_lt(mid[0], point[0])
    &&& crate::geometry::upper_half(index, 1) == T::spec_lt(mid[1], point[1])
    &&& crate::geometry::upper_half(index, 2) == T::spec_lt(mid[2], point[2])
}

proof fn lemma_octant_bits<T: SVONode>(point: [T::Coord; 3], mid: [T::Coord; 3])
    ensures
        upper_bits::<T>(spec_point_octant::<T>(point, mid), point, mid),
{
}

/// Whether `point` lies outside `bounds` on some axis.
pub open spec fn outside<T: SVONode>(point: [T::Coord; 3], bounds: [[T::Coord; 3]; 2]) -> bool {
    ||| T::spec_lt(point[0], bounds[0][0]) || T::spec_lt(bounds[1][0], point[0])
    ||| T::spec_lt(point[1], bounds[0][1]) || T::spec_lt(bounds[1][1], point[1])
    ||| T::spec_lt(point[2], bounds[0][2]) || T::spec_lt(bounds[1][2], point[2])
}

/// The box that `if_cross` reports for a last point `point`: `bounds` widened for it on the
/// third axis only.
pub open spec fn cross_box<T: SVONode>(point: [T::Coord; 3], bounds: [[T::Coord; 3]; 2]) -> [[T::Coord; 3]; 2] {
    [
        [bounds[0][0], bounds[0][1], if T::spec_lt(point[2], bounds[0][2]) { point[2] } else { bounds[0][2] }],
        [bounds[1][0], bounds[1][1], if T::spec_lt(bounds[1][2], point[2]) { point[2] } else { bounds[1][2] }],
    ]
}

/// The test of `if_cross` over the points of an entity: whether some point lies outside
/// `bounds`, and the box as the last axis of the last point leaves it (each axis starts again
/// from `bounds`, so only the third axis of the last point is widened).
pub fn cross_bounds<T: SVONode>(points: &Vec<[T::Coord; 3]>, bounds: [[T::Coord; 3]; 2]) -> (r: (bool, [[T::Coord; 3]; 2]))
    requires
        points.len() > 0,
    ensures
        r.0 == exists|i: int| 0 <= i < points.len() && #[trigger] outside::<T>(points[i], bounds),
        r.1 == cross_box::<T>(points@.last(), bounds),
{
    let mut if_change = false;
    let mut min = bounds[0];
    let mut max = bounds[1];
    for k in 0..points.len()
        invariant
            points.len() > 0,
            if_change == exists|i: int| 0 <= i < k && #[trigger] outside::<T>(points[i], bounds),
            k > 0 ==> [min, max] == cross_box::<T>(points@[k - 1], bounds),
    {
        let point = points[k];
        let ghost was = if_change;
        for i in 0..3
            invariant
                0 <= k < points.len(),
                point == points@[k as int],
                if_change == (was || exists|a: int| 0 <= a < i && (T::spec_lt(point[a], bounds[0][a]) || T::spec_lt(bounds[1][a], point[a]))),
                i > 0 ==> ({
                    let a = i - 1;
                    &&& forall|c: int| 0 <= c < 3 && c != a ==> min[c] == bounds[0][c] && max[c] == bounds[1][c]
                    &&& min[a] == (if T::spec_lt(point[a], bounds[0][a]) { point[a] } else { bounds[0][a] })
                    &&& max[a] == (if T::spec_lt(bounds[1][a], point[a]) { point[a] } else { bounds[1][a] })
                }),
        {
            let mut bound = bounds;
            if T::coord_lt(point[i], bounds[0][i]) {
                bound[0][i] = point[i];
                if_change = true;
            }
            if T::coord_lt(bounds[1][i], point[i]) {
                bound[1][i] = point[i];
                if_change = true;
            }
            min = bound[0];
            max = bound[1];
        }
        proof {
            assert(outside::<T>(point, bounds) == exists|a: int| 0 <= a < 3 && (T::spec_lt(point[a], bounds[0][a]) || T::spec_lt(bounds[1][a], point[a])));
            let cb = cross_box::<T>(points@[k as int], bounds);
            assert(min =~= cb[0]);
            assert(max =~= cb[1]);
            assert([min, max] =~= cb);
            if outside::<T>(point, bounds) {
                assert(outside::<T>(points[k as int], bounds));
            }
        }
    }
    (if_change, [min, max])
}

/// The eight shares of a split hold the points between them exactly once each: their sizes
/// add up to the number of points.
pub proof fn law_distribute_partitions<T: SVONode>(points: Seq<[T::Coord; 3]>, mid: [T::Coord; 3])
    ensures
        octant_points::<T>(points, mid, 0).len() + octant_points::<T>(points, mid, 1).len()
            + octant_points::<T>(points, mid, 2).len() + octant_points::<T>(points, mid, 3).len()
            + octant_points::<T>(points, mid, 4).len() + octant_points::<T>(points, mid, 5).len()
            + octant_points::<T>(points, mid, 6).len() + octant_points::<T>(points, mid, 7).len()
            == points.len(),
    decreases points.len(),
{
    reveal(Seq::filter);
    if points.len() > 0 {
        law_distribute_partitions::<T>(points.drop_last(), mid);
        assert(spec_point_octant::<T>(points.last(), mid) < 8);
    }
}

/// A point's position, as `entity_position` reports it, is the octant whose share the split
/// puts it in.
pub proof fn law_position_matches_share<T: SVONode>(points: Seq<[T::Coord; 3]>, k: int, mid: [T::Coord; 3])
    requires
        0 <= k < points.len(),
    ensures
        octant_points::<T>(points, mid, spec_point_octant::<T>(points[k], mid) as int).contains(points[k]),
{
    let o = spec_point_octant::<T>(points[k], mid) as int;
    points.lemma_filter_contains(|p: [T::Coord; 3]| spec_point_octant::<T>(p, mid) as int == o, k);
}

} // verus!
