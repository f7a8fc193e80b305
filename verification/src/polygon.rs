use vstd::prelude::*;
use crate::svo_trait::{SVONode, NodeBoundary};
use crate::geometry::{
    spec_mid_point, spec_child_min, spec_child_max, spec_line_intersect, compute_mid_point,
    compute_child_bounds, line_intersect, law_line_intersect_reversible,
};

verus! {

/// Whether the segment `segment` meets octant `i` of `bounds`, by the test of
/// `line_intersect`.
pub open spec fn octant_hit<T: SVONode>(segment: [[T::Coord; 3]; 2], bounds: [[T::Coord; 3]; 2], i: usize) -> bool {
    let mid = spec_mid_point::<T>(bounds[0], bounds[1]);
    spec_line_intersect::<T>(segment, spec_child_min(i, bounds[0], mid), spec_child_max(i, mid, bounds[1]))
}

/// Octant `i` of `bounds` with its corners.
pub open spec fn octant_boundary<T: SVONode>(bounds: [[T::Coord; 3]; 2], i: usize) -> NodeBoundary<T::Coord> {
    let mid = spec_mid_point::<T>(bounds[0], bounds[1]);
    NodeBoundary { index: i, min: spec_child_min(i, bounds[0], mid), max: spec_child_max(i, mid, bounds[1]) }
}

/// The octants among the first `n` that `segment` meets, in octant order.
pub open spec fn hit_boundaries<T: SVONode>(segment: [[T::Coord; 3]; 2], bounds: [[T::Coord; 3]; 2], n: int) -> Seq<NodeBoundary<T::Coord>>
    decreases n,
{
    if n <= 0 {
        Seq::empty()
    } else {
        let prev = hit_boundaries::<T>(segment, bounds, n - 1);
        if octant_hit::<T>(segment, bounds, (n - 1) as usize) {
            prev.push(octant_boundary::<T>(bounds, (n - 1) as usize))
        } else {
            prev
        }
    }
}

/// For each of the eight octants of `bounds`, whether the edge `edge` meets it, tried in both
/// directions as `entities_distribute` of a polygon does.
pub fn segment_octants<T: SVONode>(edge: [[T::Coord; 3]; 2], bounds: [[T::Coord; 3]; 2]) -> (r: Vec<bool>)
    ensures
        r.len() == 8,
        forall|i: int| 0 <= i < 8 ==> #[trigger] r[i] == (octant_hit::<T>(edge, bounds, i as usize)
            || octant_hit::<T>([edge[1], edge[0]], bounds, i as usize)),
{
    let mid = compute_mid_point::<T>(bounds[0], bounds[1]);
    let frames = [[edge[0], edge[1]], [edge[1], edge[0]]];
    proof {
        assert(frames[0] =~= edge);
    }
    let mut hits: Vec<bool> = Vec::new();
    for i in 0..8
        invariant
            hits.len() == i,
            mid == spec_mid_point::<T>(bounds[0], bounds[1]),
            frames[0] == edge,
            frames[1] == [edge[1], edge[0]],
            forall|j: int| 0 <= j < i ==> #[trigger] hits[j] == (octant_hit::<T>(edge, bounds, j as usize)
                || octant_hit::<T>([edge[1], edge[0]], bounds, j as usize)),
    {
        let (min, max) = compute_child_bounds(i, bounds[0], mid, bounds[1]);
        let mut hit = false;
        for f in 0..2
            invariant
                hit == exists|g: int| 0 <= g < f && spec_line_intersect::<T>(#[trigger] frames[g], min, max),
        {
            if line_intersect::<T>(frames[f], min, max) {
                hit = true;
            }
        }
        proof {
            assert(hit == (spec_line_intersect::<T>(frames[0], min, max) || spec_line_intersect::<T>(frames[1], min, max)));
        }
        hits.push(hit);
    }
    hits
}

/// The octants of `bounds` that the edge `edge` meets, in octant order, each with its corners:
/// what `entity_position` of a polygon reports. The reverse edge is tried too, as the polygon
/// does, and adds nothing, since the segment test does not depend on the direction.
pub fn segment_position<T: SVONode>(edge: [[T::Coord; 3]; 2], bounds: [[T::Coord; 3]; 2]) -> (r: Vec<NodeBoundary<T::Coord>>)
    ensures
        r@ == hit_boundaries::<T>(edge, bounds, 8),
{
    let mid = compute_mid_point::<T>(bounds[0], bounds[1]);
    let mut node: Vec<NodeBoundary<T::Coord>> = Vec::new();
    let mut seen = [false, false, false, false, false, false, false, false];
    let frames = [[edge[0], edge[1]], [edge[1], edge[0]]];
    proof {
        assert(frames[0] =~= edge);
        assert(node@ =~= hit_boundaries::<T>(edge, bounds, 0));
    }
    for i in 0..8
        invariant
            mid == spec_mid_point::<T>(bounds[0], bounds[1]),
            frames[0] == edge,
            node@ == hit_boundaries::<T>(edge, bounds, i as int),
            forall|j: int| 0 <= j < 8 ==> #[trigger] seen[j] == (j < i && octant_hit::<T>(edge, bounds, j as usize)),
    {
        let (min, max) = compute_child_bounds(i, bounds[0], mid, bounds[1]);
        if line_intersect::<T>(frames[0], min, max) {
            if !seen[i] {
                seen[i] = true;
                node.push(NodeBoundary { index: i, min, max });
            }
        }
    }
    for i in 0..8
        invariant
            mid == spec_mid_point::<T>(bounds[0], bounds[1]),
            frames[1] == [edge[1], edge[0]],
            node@ == hit_boundaries::<T>(edge, bounds, 8),
            forall|j: int| 0 <= j < 8 ==> #[trigger] seen[j] == octant_hit::<T>(edge, bounds, j as usize),
    {
        let (min, max) = compute_child_bounds(i, bounds[0], mid, bounds[1]);
        proof {
            law_line_intersect_reversible::<T>(edge[0], edge[1], min, max);
            assert(edge =~= [edge[0], edge[1]]);
        }
        if line_intersect::<T>(frames[1], min, max) {
            if !seen[i] {
                seen[i] = true;
                node.push(NodeBoundary { index: i, min, max });
            }
        }
    }
    node
}

} // verus!
