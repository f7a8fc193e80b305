use vstd::prelude::*;
use crate::svo_trait::SVONode;

verus! {

/// The midpoint of a box, axis by axis.
pub open spec fn spec_mid_point<T: SVONode>(min: [T::Coord; 3], max: [T::Coord; 3]) -> [T::Coord; 3] {
    [T::spec_mid(min[0], max[0]), T::spec_mid(min[1], max[1]), T::spec_mid(min[2], max[2])]
}

/// Whether octant `index` takes the upper half of its parent along `axis`: bit 2 of the index
/// stands for axis 0, bit 1 for axis 1 and bit 0 for axis 2.
pub open spec fn upper_half(index: usize, axis: int) -> bool {
    if axis == 0 {
        (index / 4) % 2 == 1
    } else if axis == 1 {
        (index / 2) % 2 == 1
    } else {
        index % 2 == 1
    }
}

/// The lower corner of octant `index` of the box `min`..`max` split at `mid`.
pub open spec fn spec_child_min<C>(index: usize, min: [C; 3], mid: [C; 3]) -> [C; 3] {
    [
        if upper_half(index, 0) { mid[0] } else { min[0] },
        if upper_half(index, 1) { mid[1] } else { min[1] },
        if upper_half(index, 2) { mid[2] } else { min[2] },
    ]
}

/// The upper corner of octant `index` of the box `min`..`max` split at `mid`.
pub open spec fn spec_child_max<C>(index: usize, mid: [C; 3], max: [C; 3]) -> [C; 3] {
    [
        if upper_half(index, 0) { max[0] } else { mid[0] },
        if upper_half(index, 1) { max[1] } else { mid[1] },
        if upper_half(index, 2) { max[2] } else { mid[2] },
    ]
}

/// Whether the box `min`..`max` and the box `bound` overlap (touching counts).
pub open spec fn spec_intersect<T: SVONode>(
    min: [T::Coord; 3],
    max: [T::Coord; 3],
    bound: [[T::Coord; 3]; 2],
) -> bool {
    !(T::spec_lt(max[0], bound[0][0]) || T::spec_lt(bound[1][0], min[0]) || T::spec_lt(
        max[1],
        bound[0][1],
    ) || T::spec_lt(bound[1][1], min[1]) || T::spec_lt(max[2], bound[0][2]) || T::spec_lt(
        bound[1][2],
        min[2],
    ))
}

/// Whether `point` lies in the closed box `min`..`max`.
pub open spec fn spec_in_boundary<T: SVONode>(
    point: [T::Coord; 3],
    min: [T::Coord; 3],
    max: [T::Coord; 3],
) -> bool {
    &&& T::spec_le(point[0], max[0]) && T::spec_le(min[0], point[0])
    &&& T::spec_le(point[1], max[1]) && T::spec_le(min[1], point[1])
    &&& T::spec_le(point[2], max[2]) && T::spec_le(min[2], point[2])
}

/// Whether the interval between the two ends of `line` meets the interval `bound`: false
/// exactly when both ends lie above it or both lie below it.
pub open spec fn spec_intervals_intersect<T: SVONode>(
    line: [T::Coord; 2],
    bound: [T::Coord; 2],
) -> bool {
    !((T::spec_lt(bound[1], line[0]) && T::spec_lt(bound[1], line[1])) || (T::spec_lt(
        line[0],
        bound[0],
    ) && T::spec_lt(line[1], bound[0])))
}

/// The segment test of `line_intersect`: an end lies in the box, or the segment's extent
/// meets the box on every axis.
pub open spec fn spec_line_intersect<T: SVONode>(
    line: [[T::Coord; 3]; 2],
    min: [T::Coord; 3],
    max: [T::Coord; 3],
) -> bool {
    ||| spec_in_boundary::<T>(line[0], min, max)
    ||| spec_in_boundary::<T>(line[1], min, max)
    ||| {
        &&& spec_axis_meets::<T>(line, min, max, 0)
        &&& spec_axis_meets::<T>(line, min, max, 1)
        &&& spec_axis_meets::<T>(line, min, max, 2)
    }
}

/// Whether the extent of `line` along `axis` meets the box's extent along it.
pub open spec fn spec_axis_meets<T: SVONode>(
    line: [[T::Coord; 3]; 2],
    min: [T::Coord; 3],
    max: [T::Coord; 3],
    axis: int,
) -> bool {
    spec_intervals_intersect::<T>([line[0][axis], line[1][axis]], [min[axis], max[axis]])
}

/// Whether the box `corners` (lower, upper) and the box `bound` overlap.
pub fn if_intersect<T: SVONode>(
    corners: ([T::Coord; 3], [T::Coord; 3]),
    bound: [[T::Coord; 3]; 2],
) -> (r: bool)
    ensures
        r == spec_intersect::<T>(corners.0, corners.1, bound),
{
    let (min_corner, max_corner) = corners;
    if T::coord_lt(max_corner[0], bound[0][0]) || T::coord_lt(bound[1][0], min_corner[0])
        || T::coord_lt(max_corner[1], bound[0][1]) || T::coord_lt(bound[1][1], min_corner[1])
        || T::coord_lt(max_corner[2], bound[0][2]) || T::coord_lt(bound[1][2], min_corner[2]) {
        false
    } else {
        true
    }
}

/// The midpoint of the box `min`..`max`.
pub fn compute_mid_point<T: SVONode>(min: [T::Coord; 3], max: [T::Coord; 3]) -> (r: [T::Coord; 3])
    ensures
        r == spec_mid_point::<T>(min, max),
{
    let r = [T::coord_mid(min[0], max[0]), T::coord_mid(min[1], max[1]), T::coord_mid(min[2], max[2])];
    assert(r =~= spec_mid_point::<T>(min, max));
    r
}

/// The corners of octant `index` of the box `min_corner`..`max_corner` split at `mid`.
pub fn compute_child_bounds<C: Copy>(
    index: usize,
    min_corner: [C; 3],
    mid: [C; 3],
    max_corner: [C; 3],
) -> (r: ([C; 3], [C; 3]))
    ensures
        r.0 == spec_child_min(index, min_corner, mid),
        r.1 == spec_child_max(index, mid, max_corner),
{
    let mut child_min = [min_corner[0], min_corner[1], min_corner[2]];
    let mut child_max = [mid[0], mid[1], mid[2]];
    let binary_array: [usize; 3] = [(index >> 2) & 1, (index >> 1) & 1, index & 1];
    proof {
        assert(((index >> 2) & 1 == 1) == ((index / 4) % 2 == 1)) by (bit_vector);
        assert(((index >> 1) & 1 == 1) == ((index / 2) % 2 == 1)) by (bit_vector);
        assert((index & 1 == 1) == (index % 2 == 1)) by (bit_vector);
    }
    if binary_array[0] == 1 {
        child_min[0] = mid[0];
        child_max[0] = max_corner[0];
    }
    if binary_array[1] == 1 {
        child_min[1] = mid[1];
        child_max[1] = max_corner[1];
    }
    if binary_array[2] == 1 {
        child_min[2] = mid[2];
        child_max[2] = max_corner[2];
    }
    assert(child_min =~= spec_child_min(index, min_corner, mid));
    assert(child_max =~= spec_child_max(index, mid, max_corner));
    (child_min, child_max)
}

/// Whether `point` lies in the closed box `min`..`max`.
fn in_boundary<T: SVONode>(point: [T::Coord; 3], min: [T::Coord; 3], max: [T::Coord; 3]) -> (r: bool)
    ensures
        r == spec_in_boundary::<T>(point, min, max),
{
    for i in 0..3
        invariant
            forall|k: int| 0 <= k < i ==> #[trigger] T::spec_le(point[k], max[k]) && T::spec_le(min[k], point[k]),
    {
        if !(T::coord_le(point[i], max[i]) && T::coord_le(min[i], point[i])) {
            return false;
        }
    }
    assert(T::spec_le(point[0], max[0]) && T::spec_le(min[0], point[0]));
    assert(T::spec_le(point[1], max[1]) && T::spec_le(min[1], point[1]));
    assert(T::spec_le(point[2], max[2]) && T::spec_le(min[2], point[2]));
    true
}

/// Whether the interval between the two ends of `line` meets the interval `bound`.
fn intervals_intersect<T: SVONode>(line: [T::Coord; 2], bound: [T::Coord; 2]) -> (r: bool)
    ensures
        r == spec_intervals_intersect::<T>(line, bound),
{
    if (T::coord_lt(bound[1], line[0]) && T::coord_lt(bound[1], line[1])) || (T::coord_lt(line[0], bound[0])
        && T::coord_lt(line[1], bound[0])) {
        return false;
    } else {
        true
    }
}

/// Whether the segment `line` meets the box `min`..`max` by the test of
/// [`spec_line_intersect`].
pub fn line_intersect<T: SVONode>(line: [[T::Coord; 3]; 2], min: [T::Coord; 3], max: [T::Coord; 3]) -> (r: bool)
    ensures
        r == spec_line_intersect::<T>(line, min, max),
{
    let line_start = line[0];
    let line_end = line[1];
    if in_boundary::<T>(line_start, min, max) || in_boundary::<T>(line_end, min, max) {
        true
    } else {
        for i in 0..3
            invariant
                line_start == line[0],
                line_end == line[1],
                !spec_in_boundary::<T>(line[0], min, max),
                !spec_in_boundary::<T>(line[1], min, max),
                forall|k: int| 0 <= k < i ==> #[trigger] spec_axis_meets::<T>(line, min, max, k),
        {
            let seg = [line_start[i], line_end[i]];
            let ext = [min[i], max[i]];
            assert(seg =~= [line[0][i as int], line[1][i as int]]);
            assert(ext =~= [min[i as int], max[i as int]]);
            if !intervals_intersect::<T>(seg, ext) {
                assert(!spec_axis_meets::<T>(line, min, max, i as int));
                return false;
            }
            assert(spec_axis_meets::<T>(line, min, max, i as int));
        }
        assert(spec_axis_meets::<T>(line, min, max, 0));
        assert(spec_axis_meets::<T>(line, min, max, 1));
        assert(spec_axis_meets::<T>(line, min, max, 2));
        true
    }
}


/// Whether two boxes overlap does not depend on which of them is the query: `if_intersect`
/// is symmetric.
pub proof fn law_intersect_symmetric<T: SVONode>(a_min: [T::Coord; 3], a_max: [T::Coord; 3], b_min: [T::Coord; 3], b_max: [T::Coord; 3])
    ensures
        spec_intersect::<T>(a_min, a_max, [b_min, b_max]) == spec_intersect::<T>(b_min, b_max, [a_min, a_max]),
{
}

/// The segment test does not depend on the direction of the segment: `line_intersect` gives
/// the same answer for the segment and its reverse.
pub proof fn law_line_intersect_reversible<T: SVONode>(a: [T::Coord; 3], b: [T::Coord; 3], min: [T::Coord; 3], max: [T::Coord; 3])
    ensures
        spec_line_intersect::<T>([a, b], min, max) == spec_line_intersect::<T>([b, a], min, max),
{
    assert(spec_axis_meets::<T>([a, b], min, max, 0) == spec_axis_meets::<T>([b, a], min, max, 0));
    assert(spec_axis_meets::<T>([a, b], min, max, 1) == spec_axis_meets::<T>([b, a], min, max, 1));
    assert(spec_axis_meets::<T>([a, b], min, max, 2) == spec_axis_meets::<T>([b, a], min, max, 2));
}

/// The eight octants of a box are distinct: two different octant numbers below 8 take
/// different halves on some axis.
pub proof fn law_octants_distinct(i: usize, j: usize)
    requires
        i < 8,
        j < 8,
        i != j,
    ensures
        exists|axis: int| 0 <= axis < 3 && upper_half(i, axis) != upper_half(j, axis),
{
    if upper_half(i, 0) != upper_half(j, 0) {
        assert(upper_half(i, 0) != upper_half(j, 0));
    } else if upper_half(i, 1) != upper_half(j, 1) {
        assert(upper_half(i, 1) != upper_half(j, 1));
    } else {
        assert(upper_half(i, 2) != upper_half(j, 2));
    }
}

/// Octant numbers repeat every eight: only the three lowest bits of the number choose the
/// halves.
pub proof fn law_octant_bits(i: usize, axis: int)
    requires
        0 <= axis < 3,
    ensures
        upper_half(i, axis) == upper_half(i % 8, axis),
{
    assert((i / 4) % 2 == ((i % 8) / 4) % 2) by (nonlinear_arith);
    assert((i / 2) % 2 == ((i % 8) / 2) % 2) by (nonlinear_arith);
    assert(i % 2 == (i % 8) % 2) by (nonlinear_arith);
}

/// Whether `p` lies in the closed box `min`..`max`, compared axis by axis.
pub open spec fn point_in_box<T: SVONode>(p: [T::Coord; 3], min: [T::Coord; 3], max: [T::Coord; 3]) -> bool {
    forall|k: int| 0 <= k < 3 ==> T::spec_le(min[k], #[trigger] p[k]) && T::spec_le(p[k], max[k])
}

/// Whether both ends of `line` lie strictly below the box, or both strictly above it, along
/// `axis`.
pub open spec fn separated_on<T: SVONode>(line: [[T::Coord; 3]; 2], min: [T::Coord; 3], max: [T::Coord; 3], axis: int) -> bool {
    ||| T::spec_lt(line[0][axis], min[axis]) && T::spec_lt(line[1][axis], min[axis])
    ||| T::spec_lt(max[axis], line[0][axis]) && T::spec_lt(max[axis], line[1][axis])
}

/// The segment test of `line_intersect`: a segment with an end in the box meets it; one with
/// neither end in the box meets it exactly when no axis, of the three, has both ends below
/// the box or both above it.
pub proof fn law_line_intersect_separating_axis<T: SVONode>(line: [[T::Coord; 3]; 2], min: [T::Coord; 3], max: [T::Coord; 3])
    ensures
        point_in_box::<T>(line[0], min, max) || point_in_box::<T>(line[1], min, max) ==> spec_line_intersect::<T>(line, min, max),
        !point_in_box::<T>(line[0], min, max) && !point_in_box::<T>(line[1], min, max) ==> (spec_line_intersect::<T>(line, min, max)
            <==> forall|axis: int| 0 <= axis < 3 ==> !#[trigger] separated_on::<T>(line, min, max, axis)),
{
    let s = line[0];
    let e = line[1];
    assert(point_in_box::<T>(s, min, max) == spec_in_boundary::<T>(s, min, max)) by {
        if spec_in_boundary::<T>(s, min, max) {
            assert forall|k: int| 0 <= k < 3 implies T::spec_le(min[k], #[trigger] s[k]) && T::spec_le(s[k], max[k]) by {
                if k == 0 {} else if k == 1 {} else {}
            }
        }
        if point_in_box::<T>(s, min, max) {
            assert(T::spec_le(min[0], s[0]));
            assert(T::spec_le(min[1], s[1]));
            assert(T::spec_le(min[2], s[2]));
        }
    }
    assert(point_in_box::<T>(e, min, max) == spec_in_boundary::<T>(e, min, max)) by {
        if spec_in_boundary::<T>(e, min, max) {
            assert forall|k: int| 0 <= k < 3 implies T::spec_le(min[k], #[trigger] e[k]) && T::spec_le(e[k], max[k]) by {
                if k == 0 {} else if k == 1 {} else {}
            }
        }
        if point_in_box::<T>(e, min, max) {
            assert(T::spec_le(min[0], e[0]));
            assert(T::spec_le(min[1], e[1]));
            assert(T::spec_le(min[2], e[2]));
        }
    }
    assert(spec_axis_meets::<T>(line, min, max, 0) == !separated_on::<T>(line, min, max, 0));
    assert(spec_axis_meets::<T>(line, min, max, 1) == !separated_on::<T>(line, min, max, 1));
    assert(spec_axis_meets::<T>(line, min, max, 2) == !separated_on::<T>(line, min, max, 2));
}

} // verus!
