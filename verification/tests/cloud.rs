use svo::geometry::{compute_child_bounds, compute_mid_point, if_intersect, line_intersect};
use svo::points::{
    cross_bounds, distribute_points, fits_in_leaf, point_octant, point_position, points_bounds,
};
use svo::polygon::{segment_octants, segment_position};
use svo::svo::{DeleteOutcome, InsertOutcome, SVO};
use svo::svo_trait::{NodeBoundary, SVONode};

/// A point cloud with `f64` coordinates, as the tests build trees over it.
#[derive(Clone, Debug, PartialEq)]
struct Cloud(Vec<[f64; 3]>);

impl SVONode for Cloud {
    type Row = [f64; 3];
    type Coord = f64;

    fn spec_bounds(&self) -> [[f64; 3]; 2] {
        self.bounde_get()
    }
    fn spec_distribute(&self, bounds: [[f64; 3]; 2]) -> Vec<Self> {
        self.entities_distribute(bounds)
    }
    fn spec_position(&self, bounds: [[f64; 3]; 2]) -> Vec<NodeBoundary<f64>> {
        self.entity_position(bounds)
    }
    fn spec_if_leaf(&self) -> bool {
        self.if_leaf()
    }
    fn spec_is_empty(&self) -> bool {
        self.is_empty()
    }
    fn spec_contain(&self, element: &Self) -> bool {
        self.contain(element)
    }
    fn spec_cross(&self, bounds: [[f64; 3]; 2]) -> (bool, [[f64; 3]; 2]) {
        self.if_cross(bounds)
    }
    fn spec_push(&self, element: Self) -> Self {
        let mut s = self.clone();
        s.push(element);
        s
    }
    fn spec_len(&self) -> usize {
        self.len()
    }
    fn spec_retain(&self, element: &Self) -> Self {
        let mut s = self.clone();
        s.retain(element);
        s
    }
    fn spec_lt(a: f64, b: f64) -> bool {
        Self::coord_lt(a, b)
    }
    fn spec_le(a: f64, b: f64) -> bool {
        Self::coord_le(a, b)
    }
    fn spec_mid(a: f64, b: f64) -> f64 {
        Self::coord_mid(a, b)
    }
    fn lemma_clone_faithful(_a: &Self, _b: &Self) {}

    fn bounde_get(&self) -> [[f64; 3]; 2] {
        points_bounds::<Cloud>(&self.0, [[f64::INFINITY; 3], [f64::NEG_INFINITY; 3]])
    }
    fn entities_distribute(&self, bounds: [[f64; 3]; 2]) -> Vec<Self> {
        distribute_points::<Cloud>(&self.0, bounds).into_iter().map(Cloud).collect()
    }
    fn entity_position(&self, bounds: [[f64; 3]; 2]) -> Vec<NodeBoundary<f64>> {
        vec![point_position::<Cloud>(self.0[0], bounds)]
    }
    fn if_leaf(&self) -> bool {
        fits_in_leaf(self.0.len())
    }
    fn is_empty(&self) -> bool {
        self.0.is_empty()
    }
    fn contain(&self, element: &Self) -> bool {
        self.0.contains(&element.0[0])
    }
    fn if_cross(&self, bounds: [[f64; 3]; 2]) -> (bool, [[f64; 3]; 2]) {
        cross_bounds::<Cloud>(&vec![self.0[0]], bounds)
    }
    fn push(&mut self, element: Self) {
        self.0.push(element.0[0]);
    }
    fn len(&self) -> usize {
        self.0.len()
    }
    fn row(&self) -> [f64; 3] {
        self.0[0]
    }
    fn retain(&mut self, element: &Self) {
        let x = element.0[0];
        self.0.retain(|p| *p != x);
    }
    fn coord_lt(a: f64, b: f64) -> bool {
        a < b
    }
    fn coord_le(a: f64, b: f64) -> bool {
        a <= b
    }
    fn coord_mid(a: f64, b: f64) -> f64 {
        (a + b) / 2.0
    }
}

fn one(p: [f64; 3]) -> Cloud {
    Cloud(vec![p])
}

/// Six corners of the cube 0..10, one per octant 0, 7, 1, 4, 2, 6.
fn corners() -> Cloud {
    Cloud(vec![
        [0.0, 0.0, 0.0],
        [10.0, 10.0, 10.0],
        [0.0, 0.0, 10.0],
        [10.0, 0.0, 0.0],
        [0.0, 10.0, 0.0],
        [10.0, 10.0, 0.0],
    ])
}

fn leaf_paths(root: &SVO<Cloud>) -> Vec<Vec<u8>> {
    root.leaf_node_index.clone().unwrap()
}

fn count_leaves(node: &SVO<Cloud>) -> usize {
    if node.is_leaf {
        1
    } else {
        node.children.iter().take(8).flatten().map(|c| count_leaves(c)).sum()
    }
}

fn lod_counts_leaves(node: &SVO<Cloud>) -> bool {
    node.lod_info == Some(count_leaves(node) as i32)
        && (node.is_leaf || node.children.iter().flatten().all(|c| lod_counts_leaves(c)))
}

#[test]
fn new_root_over_corners() {
    let root = SVO::new_root(corners());
    assert_eq!(root.bound, Some([[0.0; 3], [10.0; 3]]));
    assert!(!root.is_leaf);
    assert_eq!(root.index, vec![0]);
    assert_eq!(leaf_paths(&root), vec![vec![0], vec![1], vec![2], vec![4], vec![6], vec![7]]);
    assert_eq!(root.lod_info, Some(6));
    assert_eq!(root.depth, Some(1));
    assert!(root.children[3].is_none());
    assert!(root.children[5].is_none());
    let c7 = root.children[7].as_ref().unwrap();
    assert!(c7.is_leaf);
    assert_eq!(c7.index, vec![0, 7]);
    assert_eq!(c7.entities, one([10.0, 10.0, 10.0]));
    assert_eq!(c7.lod_info, Some(1));
    assert!(c7.bound.is_none());
}

#[test]
fn new_root_single_point_is_leaf() {
    let root = SVO::new_root(one([1.0, 2.0, 3.0]));
    assert!(root.is_leaf);
    assert_eq!(root.bound, Some([[1.0, 2.0, 3.0], [1.0, 2.0, 3.0]]));
    assert_eq!(leaf_paths(&root), vec![Vec::<u8>::new()]);
    assert_eq!(root.lod_info, Some(1));
    assert_eq!(root.depth, Some(0));
}

#[test]
fn new_root_lod_counts_leaves() {
    let mut pts = Vec::new();
    for i in 0..20 {
        let f = i as f64;
        pts.push([(f * 37.0) % 100.0, (f * 53.0) % 100.0, (f * 71.0) % 100.0]);
    }
    let root = SVO::new_root(Cloud(pts));
    let paths = leaf_paths(&root);
    assert_eq!(root.lod_info, Some(paths.len() as i32));
    assert!(lod_counts_leaves(&root));
    let longest = paths.iter().map(|p| p.len()).max().unwrap() as u32;
    assert_eq!(root.depth, Some(longest));
}

#[test]
fn point_test() {
    let mut pts = Vec::new();
    for i in 0..20 {
        let f = i as f64;
        pts.push([(f * 13.0) % 100.0, (f * 29.0) % 100.0, (f * 47.0) % 100.0]);
    }
    let mut point_root = SVO::new_root(Cloud(pts));
    assert!(point_root.leaf_node_index.is_some());
    let outcome = point_root.insert_entity(one([5.0; 3]));
    assert_eq!(outcome, InsertOutcome::Inserted);
    assert_eq!(point_root.lod_info, Some(leaf_paths(&point_root).len() as i32));
}

#[test]
fn search_bound_selects_lower_octants() {
    let root = SVO::new_root(corners());
    let hits = root.search_bound([[0.0; 3], [4.0; 3]]).unwrap();
    // the walk keeps the lower half on the third axis, so octant 1 is selected too
    assert_eq!(hits, vec![vec![0], vec![1]]);
}

#[test]
fn search_bound_misses_root() {
    let root = SVO::new_root(corners());
    assert_eq!(root.search_bound([[20.0; 3], [30.0; 3]]), None);
}

#[test]
fn search_bound_whole_box_selects_by_walk() {
    let root = SVO::new_root(corners());
    let hits = root.search_bound([[0.0; 3], [10.0; 3]]).unwrap();
    assert_eq!(hits, leaf_paths(&root));
}

#[test]
fn insert_existing_entity_changes_nothing() {
    let mut root = SVO::new_root(corners());
    let before = leaf_paths(&root);
    assert_eq!(root.insert_entity(one([10.0, 0.0, 0.0])), InsertOutcome::AlreadyExists);
    assert_eq!(leaf_paths(&root), before);
    assert_eq!(root.entities, corners());
    assert_eq!(root.lod_info, Some(6));
}

#[test]
fn insert_into_existing_leaf() {
    let mut root = SVO::new_root(corners());
    assert_eq!(root.insert_entity(one([1.0, 1.0, 1.0])), InsertOutcome::Inserted);
    assert_eq!(root.entities.0.len(), 7);
    let c0 = root.children[0].as_ref().unwrap();
    assert_eq!(c0.entities, Cloud(vec![[0.0; 3], [1.0, 1.0, 1.0]]));
    assert_eq!(c0.lod_info, Some(1));
    assert_eq!(leaf_paths(&root).len(), 6);
    assert_eq!(root.lod_info, Some(6));
}

#[test]
fn insert_creates_missing_child() {
    let mut root = SVO::new_root(corners());
    assert_eq!(root.insert_entity(one([10.0, 0.0, 10.0])), InsertOutcome::Inserted);
    let c5 = root.children[5].as_ref().unwrap();
    // a child created by an insertion drops the root's leading 0 from its path
    assert_eq!(c5.index, vec![5]);
    assert!(c5.is_leaf);
    assert_eq!(leaf_paths(&root).last().unwrap(), &Vec::<u8>::new());
    assert_eq!(leaf_paths(&root).len(), 7);
    assert_eq!(root.lod_info, Some(7));
    assert_eq!(root.depth, Some(0));
    assert!(lod_counts_leaves(&root));
}

#[test]
fn insert_outside_rebuilds() {
    let mut root = SVO::new_root(corners());
    root.insert_entity(one([1.0, 1.0, 1.0]));
    root.insert_entity(one([10.0, 0.0, 10.0]));
    assert_eq!(root.insert_entity(one([20.0, 20.0, 20.0])), InsertOutcome::Rebuilt);
    // only the third axis of the box is widened
    assert_eq!(root.bound, Some([[0.0; 3], [10.0, 10.0, 20.0]]));
    assert_eq!(leaf_paths(&root), vec![vec![0], vec![2], vec![4], vec![6], vec![7]]);
    assert_eq!(root.lod_info, Some(5));
    assert_eq!(root.depth, Some(1));
    assert!(root.children[5].is_none());
    assert_eq!(root.children[0].as_ref().unwrap().entities.0.len(), 3);
    // the root keeps its former entities
    assert_eq!(root.entities.0.len(), 8);
    assert!(lod_counts_leaves(&root));
}

#[test]
fn delete_missing_entity() {
    let mut root = SVO::new_root(corners());
    assert_eq!(root.point_delete(one([3.0, 3.0, 3.0])), DeleteOutcome::Missing);
    assert_eq!(root.entities, corners());
    assert_eq!(leaf_paths(&root).len(), 6);
}

#[test]
fn delete_last_entity_empties_root() {
    let mut root = SVO::new_root(one([1.0, 2.0, 3.0]));
    assert_eq!(root.point_delete(one([1.0, 2.0, 3.0])), DeleteOutcome::Emptied);
    assert!(root.entities.0.is_empty());
    assert_eq!(root.lod_info, Some(1));
}

#[test]
fn delete_single_entity_child() {
    let mut root = SVO::new_root(corners());
    assert_eq!(root.point_delete(one([0.0, 10.0, 0.0])), DeleteOutcome::Deleted);
    assert!(root.children[2].is_none());
    assert_eq!(root.entities.0.len(), 5);
    // the paths are compared with the child's own path [0, 2], so [0] is dropped
    assert_eq!(leaf_paths(&root), vec![vec![1], vec![2], vec![4], vec![6], vec![7]]);
    // the walk stops at the removed child without recounting
    assert_eq!(root.lod_info, Some(6));
}

#[test]
fn delete_descends_into_shared_child() {
    let mut root = SVO::new_root(corners());
    root.insert_entity(one([9.0, 1.0, 1.0]));
    assert_eq!(root.point_delete(one([10.0, 0.0, 0.0])), DeleteOutcome::Deleted);
    let c4 = root.children[4].as_ref().unwrap();
    // only a child holding one entity is removed; this one keeps both
    assert_eq!(c4.entities.0.len(), 2);
    assert_eq!(root.lod_info, Some(6));
    assert_eq!(leaf_paths(&root).len(), 6);
}

#[test]
fn mid_point_of_box() {
    assert_eq!(compute_mid_point::<Cloud>([0.0; 3], [10.0, 20.0, 30.0]), [5.0, 10.0, 15.0]);
}

#[test]
fn child_bounds_follow_index_bits() {
    let (min, max) = compute_child_bounds(5, [0.0; 3], [5.0; 3], [10.0; 3]);
    assert_eq!(min, [5.0, 0.0, 5.0]);
    assert_eq!(max, [10.0, 5.0, 10.0]);
    let (min, max) = compute_child_bounds(2, [0.0; 3], [5.0; 3], [10.0; 3]);
    assert_eq!(min, [0.0, 5.0, 0.0]);
    assert_eq!(max, [5.0, 10.0, 5.0]);
    // only the three lowest bits count
    assert_eq!(compute_child_bounds(13, [0.0; 3], [5.0; 3], [10.0; 3]), compute_child_bounds(5, [0.0; 3], [5.0; 3], [10.0; 3]));
}

#[test]
fn intersect_touching_and_apart() {
    assert!(if_intersect::<Cloud>(([0.0; 3], [5.0; 3]), [[5.0; 3], [9.0; 3]]));
    assert!(!if_intersect::<Cloud>(([0.0; 3], [5.0; 3]), [[6.0, 0.0, 0.0], [9.0; 3]]));
    assert!(!if_intersect::<Cloud>(([0.0; 3], [5.0; 3]), [[0.0, 0.0, -9.0], [9.0, 9.0, -1.0]]));
}

#[test]
fn intersect_is_symmetric() {
    let a = ([0.0, 2.0, 4.0], [3.0, 5.0, 7.0]);
    let b = ([1.0, 6.0, 0.0], [2.0, 8.0, 9.0]);
    assert_eq!(if_intersect::<Cloud>(a, [b.0, b.1]), if_intersect::<Cloud>(b, [a.0, a.1]));
    let c = ([1.0, 4.0, 0.0], [2.0, 8.0, 9.0]);
    assert_eq!(if_intersect::<Cloud>(a, [c.0, c.1]), if_intersect::<Cloud>(c, [a.0, a.1]));
    assert!(if_intersect::<Cloud>(a, [c.0, c.1]));
}

#[test]
fn line_through_box_without_ends_inside() {
    assert!(line_intersect::<Cloud>([[-1.0, 5.0, 5.0], [11.0, 5.0, 5.0]], [0.0; 3], [10.0; 3]));
    assert!(line_intersect::<Cloud>([[11.0, 5.0, 5.0], [-1.0, 5.0, 5.0]], [0.0; 3], [10.0; 3]));
}

#[test]
fn line_beside_box() {
    assert!(!line_intersect::<Cloud>([[-5.0, -5.0, -5.0], [-1.0, 20.0, -1.0]], [0.0; 3], [10.0; 3]));
}

#[test]
fn line_with_end_inside() {
    assert!(line_intersect::<Cloud>([[2.0, 2.0, 2.0], [50.0, 60.0, 70.0]], [0.0; 3], [10.0; 3]));
}

#[test]
fn leaf_capacity() {
    assert!(fits_in_leaf(5));
    assert!(fits_in_leaf(0));
    assert!(!fits_in_leaf(6));
}

#[test]
fn bounds_of_points() {
    let pts = vec![[1.0, 5.0, 3.0], [4.0, 2.0, 6.0]];
    assert_eq!(
        points_bounds::<Cloud>(&pts, [[f64::INFINITY; 3], [f64::NEG_INFINITY; 3]]),
        [[1.0, 2.0, 3.0], [4.0, 5.0, 6.0]]
    );
    assert_eq!(points_bounds::<Cloud>(&Vec::new(), [[0.0; 3], [1.0; 3]]), [[0.0; 3], [1.0; 3]]);
}

#[test]
fn octant_of_point() {
    assert_eq!(point_octant::<Cloud>([6.0, 1.0, 9.0], [5.0; 3]), 5);
    assert_eq!(point_octant::<Cloud>([5.0, 5.0, 5.0], [5.0; 3]), 0);
    assert_eq!(point_octant::<Cloud>([6.0, 6.0, 6.0], [5.0; 3]), 7);
}

#[test]
fn distribute_keeps_order_and_partitions() {
    let pts = vec![[1.0, 1.0, 1.0], [9.0, 9.0, 9.0], [2.0, 2.0, 2.0], [9.0, 1.0, 1.0]];
    let shares = distribute_points::<Cloud>(&pts, [[0.0; 3], [10.0; 3]]);
    assert_eq!(shares.len(), 8);
    assert_eq!(shares[0], vec![[1.0, 1.0, 1.0], [2.0, 2.0, 2.0]]);
    assert_eq!(shares[4], vec![[9.0, 1.0, 1.0]]);
    assert_eq!(shares[7], vec![[9.0, 9.0, 9.0]]);
    assert_eq!(shares.iter().map(|s| s.len()).sum::<usize>(), pts.len());
}

#[test]
fn position_of_point() {
    let nb = point_position::<Cloud>([9.0, 1.0, 1.0], [[0.0; 3], [10.0; 3]]);
    assert_eq!(nb.index, 4);
    assert_eq!(nb.min, [5.0, 0.0, 0.0]);
    assert_eq!(nb.max, [10.0, 5.0, 5.0]);
    let shares = distribute_points::<Cloud>(&vec![[9.0, 1.0, 1.0]], [[0.0; 3], [10.0; 3]]);
    assert_eq!(shares[nb.index], vec![[9.0, 1.0, 1.0]]);
}

#[test]
fn cross_widens_third_axis_only() {
    let b = [[0.0; 3], [10.0; 3]];
    assert_eq!(cross_bounds::<Cloud>(&vec![[5.0; 3]], b), (false, b));
    assert_eq!(cross_bounds::<Cloud>(&vec![[20.0, 0.0, 0.0]], b), (true, b));
    assert_eq!(cross_bounds::<Cloud>(&vec![[0.0, 0.0, 20.0]], b), (true, [[0.0; 3], [10.0, 10.0, 20.0]]));
    assert_eq!(
        cross_bounds::<Cloud>(&vec![[0.0, 0.0, -3.0], [5.0, 5.0, 5.0]], b),
        (true, b)
    );
}

#[test]
fn segment_hits_octants() {
    let edge = [[1.0, 1.0, 1.0], [9.0, 1.0, 1.0]];
    let b = [[0.0; 3], [10.0; 3]];
    assert_eq!(segment_octants::<Cloud>(edge, b), vec![true, false, false, false, true, false, false, false]);
    let pos = segment_position::<Cloud>(edge, b);
    assert_eq!(pos.len(), 2);
    assert_eq!((pos[0].index, pos[0].min, pos[0].max), (0, [0.0; 3], [5.0; 3]));
    assert_eq!((pos[1].index, pos[1].min, pos[1].max), (4, [5.0, 0.0, 0.0], [10.0, 5.0, 5.0]));
}

#[test]
fn segment_position_ignores_direction() {
    let b = [[0.0; 3], [10.0; 3]];
    let fwd = segment_position::<Cloud>([[1.0, 9.0, 2.0], [8.0, 1.0, 7.0]], b);
    let back = segment_position::<Cloud>([[8.0, 1.0, 7.0], [1.0, 9.0, 2.0]], b);
    let f: Vec<usize> = fwd.iter().map(|n| n.index).collect();
    let g: Vec<usize> = back.iter().map(|n| n.index).collect();
    assert_eq!(f, g);
}

#[test]
fn octant_boxes_are_distinct() {
    let mut boxes = Vec::new();
    for i in 0..8 {
        boxes.push(compute_child_bounds(i, [0.0; 3], [5.0; 3], [10.0; 3]));
    }
    for i in 0..8 {
        for j in 0..8 {
            assert_eq!(i == j, boxes[i] == boxes[j]);
        }
    }
}

#[test]
fn leaf_root_rebuilt_keeps_leaf_mark() {
    let five = Cloud(vec![
        [0.0, 0.0, 0.0],
        [10.0, 10.0, 10.0],
        [0.0, 0.0, 10.0],
        [10.0, 0.0, 0.0],
        [0.0, 10.0, 0.0],
    ]);
    let mut root = SVO::new_root(five);
    assert!(root.is_leaf);
    assert_eq!(root.insert_entity(one([0.0, 0.0, 20.0])), InsertOutcome::Rebuilt);
    assert!(root.is_leaf);
    assert_eq!(root.lod_info, Some(1));
    assert_eq!(leaf_paths(&root), vec![vec![0], vec![1], vec![2], vec![4], vec![6]]);
}
