use vstd::prelude::*;
use crate::svo_trait::{SVONode, NodeBoundary, duplicate};
use crate::geometry::{
    spec_mid_point, spec_child_min, spec_child_max, spec_intersect, upper_half, compute_mid_point,
    compute_child_bounds, if_intersect,
};

verus! {

broadcast use vstd::std_specs::vec::group_vec_axioms, vstd::seq::group_seq_axioms;

/// A node of a sparse voxel octree, and the root of the subtree below it.
pub struct SVO<T: SVONode> {
    pub is_leaf: bool,
    pub index: Vec<u8>,
    pub entities: T,
    pub children: Vec<Option<Box<SVO<T>>>>,
    pub bound: Option<[[T::Coord; 3]; 2]>,
    pub leaf_node_index: Option<Vec<Vec<u8>>>,
    pub depth: Option<u32>,
    pub lod_info: Option<i32>,
}

/// The mathematical value of an [`SVO`] node: the same fields, with sequences for vectors.
#[verifier::ext_equal]
pub struct NodeModel<T: SVONode> {
    pub is_leaf: bool,
    pub index: Seq<u8>,
    pub entities: T,
    pub children: Seq<Option<NodeModel<T>>>,
    pub bound: Option<[[T::Coord; 3]; 2]>,
    pub leaf_node_index: Option<Seq<Seq<u8>>>,
    pub depth: Option<u32>,
    pub lod_info: Option<i32>,
}

pub open spec fn opt_model<T: SVONode>(c: Option<Box<SVO<T>>>) -> Option<NodeModel<T>>
    decreases c, 0int,
{
    match c {
        Some(b) => Some(b.model()),
        None => None,
    }
}

pub open spec fn children_models<T: SVONode>(cs: Seq<Option<Box<SVO<T>>>>, k: int) -> Seq<Option<NodeModel<T>>>
    decreases cs, k,
{
    if k <= 0 || k > cs.len() {
        Seq::empty()
    } else {
        children_models(cs, k - 1).push(opt_model(cs[k - 1]))
    }
}

/// A list of leaf paths as sequences.
pub open spec fn paths_of(list: Vec<Vec<u8>>) -> Seq<Seq<u8>> {
    list@.map_values(|p: Vec<u8>| p@)
}

pub open spec fn paths_view(list: Option<Vec<Vec<u8>>>) -> Option<Seq<Seq<u8>>> {
    match list {
        Some(v) => Some(paths_of(v)),
        None => None,
    }
}

impl<T: SVONode> SVO<T> {
    pub open spec fn model(self) -> NodeModel<T>
        decreases self, 0int,
    {
        proof { assert(decreases_to!(self => self.children)); }
        NodeModel {
            is_leaf: self.is_leaf,
            index: self.index@,
            entities: self.entities,
            children: children_models(self.children@, self.children@.len() as int),
            bound: self.bound,
            leaf_node_index: paths_view(self.leaf_node_index),
            depth: self.depth,
            lod_info: self.lod_info,
        }
    }
}

pub open spec fn with_lod<T: SVONode>(m: NodeModel<T>, l: i32) -> NodeModel<T> {
    NodeModel { lod_info: Some(l), ..m }
}

/// The corners of octant `i` of the box `min`..`max`, split at its midpoint.
pub open spec fn octant_corners<T: SVONode>(
    i: usize,
    min: [T::Coord; 3],
    max: [T::Coord; 3],
) -> ([T::Coord; 3], [T::Coord; 3]) {
    let mid = spec_mid_point::<T>(min, max);
    (spec_child_min(i, min, mid), spec_child_max(i, mid, max))
}

/// A node as `build_svo` finds it when it creates a child: not a leaf, eight empty child
/// slots, and no root data.
pub open spec fn fresh_model<T: SVONode>(index: Seq<u8>, entities: T) -> NodeModel<T> {
    NodeModel {
        is_leaf: false,
        index,
        entities,
        children: Seq::new(8, |i: int| None),
        bound: None,
        leaf_node_index: None,
        depth: None,
        lod_info: None,
    }
}

/// The sum of the level-of-detail values of the first `k` child slots, skipping empty
/// slots; `None` where a child has no value or a partial sum leaves `i32`.
pub open spec fn lod_sum<T: SVONode>(cs: Seq<Option<NodeModel<T>>>, k: int) -> Option<i32>
    decreases k,
{
    if k <= 0 {
        Some(0i32)
    } else {
        match lod_sum(cs, k - 1) {
            None => None,
            Some(s) => match cs[k - 1] {
                None => Some(s),
                Some(c) => match c.lod_info {
                    None => None,
                    Some(l) => if i32::MIN <= s + l <= i32::MAX {
                        Some((s + l) as i32)
                    } else {
                        None
                    },
                },
            },
        }
    }
}

/// What `set_lod_info` makes of a node: a leaf counts 1, an inner node the sum of its first
/// eight children; `None` where that would panic.
pub open spec fn spec_set_lod<T: SVONode>(m: NodeModel<T>) -> Option<NodeModel<T>> {
    if m.is_leaf {
        Some(with_lod(m, 1i32))
    } else if m.children.len() < 8 {
        None
    } else {
        match lod_sum(m.children, 8) {
            Some(l) => Some(with_lod(m, l)),
            None => None,
        }
    }
}

/// The larger of a depth and the length of a leaf path, as `build_svo` keeps it.
pub open spec fn deeper(depth: u32, path: Seq<u8>) -> u32 {
    if depth >= (path.len() as u32) {
        depth
    } else {
        path.len() as u32
    }
}

/// `build_svo` on node `m` with the entity set `cloud` in the box `min`..`max`, starting
/// from the depth `depth`: the new node, the leaf paths it appends, and the new depth.
/// `None` where the build would panic or needs more than `fuel` levels.
pub open spec fn build_step<T: SVONode>(
    fuel: nat,
    m: NodeModel<T>,
    min: [T::Coord; 3],
    max: [T::Coord; 3],
    cloud: T,
    depth: u32,
) -> Option<(NodeModel<T>, Seq<Seq<u8>>, u32)>
    decreases fuel, 9int,
{
    if cloud.spec_if_leaf() {
        if m.index.len() == 0 {
            None
        } else {
            let p = m.index.drop_first();
            Some((NodeModel { is_leaf: true, entities: cloud, lod_info: Some(1i32), ..m }, seq![p], deeper(depth, p)))
        }
    } else {
        let dist = cloud.spec_distribute([min, max])@;
        if dist.len() < 8 {
            None
        } else {
            match build_children(fuel, m.index, min, max, dist, 0, m.children, Seq::empty(), depth) {
                None => None,
                Some((cs, paths, d)) => match spec_set_lod(NodeModel { children: cs, ..m }) {
                    None => None,
                    Some(m2) => Some((m2, paths, d)),
                },
            }
        }
    }
}

/// The loop of `build_svo` over octants `i..8`: the child slots, the leaf paths appended so
/// far and the depth, carried from octant to octant.
pub open spec fn build_children<T: SVONode>(
    fuel: nat,
    index: Seq<u8>,
    min: [T::Coord; 3],
    max: [T::Coord; 3],
    dist: Seq<T>,
    i: int,
    cs: Seq<Option<NodeModel<T>>>,
    paths: Seq<Seq<u8>>,
    depth: u32,
) -> Option<(Seq<Option<NodeModel<T>>>, Seq<Seq<u8>>, u32)>
    decreases fuel, 8 - i,
{
    if i < 0 || i >= 8 {
        Some((cs, paths, depth))
    } else if i >= cs.len() || i >= dist.len() {
        None
    } else if dist[i].spec_is_empty() {
        build_children(fuel, index, min, max, dist, i + 1, cs.update(i, None), paths, depth)
    } else if fuel == 0 {
        None
    } else {
        let (cmin, cmax) = octant_corners::<T>(i as usize, min, max);
        match build_step((fuel - 1) as nat, fresh_model(index.push(i as u8), dist[i]), cmin, cmax, dist[i], depth) {
            None => None,
            Some((c, p, d)) => build_children(fuel, index, min, max, dist, i + 1, cs.update(i, Some(c)), paths + p, d),
        }
    }
}

proof fn lemma_children_models<T: SVONode>(cs: Seq<Option<Box<SVO<T>>>>, k: int)
    requires
        0 <= k <= cs.len(),
    ensures
        children_models(cs, k).len() == k,
        forall|j: int| 0 <= j < k ==> #[trigger] children_models(cs, k)[j] == opt_model(cs[j]),
    decreases k,
{
    if k > 0 {
        lemma_children_models(cs, k - 1);
    }
}

impl<T: SVONode> SVO<T> {
    /// The children of the node, as models, slot by slot.
    proof fn lemma_model_children(&self)
        ensures
            self.model().children.len() == self.children.len(),
            forall|j: int| 0 <= j < self.children.len() ==> #[trigger] self.model().children[j] == opt_model(self.children@[j]),
    {
        lemma_children_models(self.children@, self.children@.len() as int);
    }

    /// A node that is not a leaf yet, with eight empty child slots and no root data.
    fn new_node(index: Vec<u8>, entities: T) -> (r: Self)
        ensures
            r.model() == fresh_model(index@, entities),
    {
        let mut children: Vec<Option<Box<SVO<T>>>> = Vec::new();
        for i in 0..8
            invariant
                children.len() == i,
                forall|j: int| 0 <= j < i ==> #[trigger] children@[j] is None,
        {
            children.push(None);
        }
        let r = SVO {
            is_leaf: false,
            index,
            entities,
            children,
            bound: None,
            leaf_node_index: None,
            depth: None,
            lod_info: None,
        };
        proof {
            r.lemma_model_children();
            assert(r.model().children =~= Seq::new(8, |i: int| None::<NodeModel<T>>));
            assert(r.model() =~= fresh_model(index@, entities));
        }
        r
    }

    /// Recomputes the node's level-of-detail value: 1 for a leaf, else the sum of its
    /// children's values.
    fn set_lod_info(&mut self)
        requires
            spec_set_lod(old(self).model()) is Some,
        ensures
            Some(final(self).model()) == spec_set_lod(old(self).model()),
    {
        proof { self.lemma_model_children(); }
        if self.is_leaf {
            self.lod_info = Some(1);
            proof { self.lemma_model_children(); assert(self.model() =~= with_lod(old(self).model(), 1i32)); }
            return;
        }
        let ghost cs = self.model().children;
        proof { lemma_lod_sum_prefix(cs, 8); }
        let mut lod: i32 = 0;
        for i in 0..8
            invariant
                cs == self.model().children,
                self.children.len() == cs.len(),
                cs.len() >= 8,
                forall|j: int| 0 <= j < self.children.len() ==> #[trigger] cs[j] == opt_model(self.children@[j]),
                forall|k: int| 0 <= k <= 8 ==> #[trigger] lod_sum(cs, k) is Some,
                lod_sum(cs, i as int) == Some(lod),
        {
            if let Some(child) = &self.children[i] {
                assert(cs[i as int] == Some(child.model()));
                assert(lod_sum(cs, i + 1) is Some);
                lod += child.lod_info.unwrap();
            }
        }
        self.lod_info = Some(lod);
        proof { self.lemma_model_children(); assert(self.model() =~= with_lod(old(self).model(), lod)); }
    }
}

impl<T: SVONode> SVO<T> {
    /// `build_svo` with an explicit bound on the number of levels it descends.
    fn build_in(
        &mut self,
        min_corner: [T::Coord; 3],
        max_corner: [T::Coord; 3],
        entity_clouds: T,
        leaf_node_index: &mut Vec<Vec<u8>>,
        depth: &mut u32,
        Ghost(fuel): Ghost<nat>,
    )
        requires
            build_step(fuel, old(self).model(), min_corner, max_corner, entity_clouds, *old(depth)) is Some,
        ensures
            ({
                let (m, p, d) = build_step(fuel, old(self).model(), min_corner, max_corner, entity_clouds, *old(depth))->0;
                &&& final(self).model() == m
                &&& paths_of(*final(leaf_node_index)) == paths_of(*old(leaf_node_index)) + p
                &&& *final(depth) == d
            }),
        decreases fuel,
    {
        let ghost m0 = self.model();
        proof { self.lemma_model_children(); }
        let mut index = self.index.clone();
        if entity_clouds.if_leaf() {
            self.is_leaf = true;
            self.entities = entity_clouds;
            self.lod_info = Some(1);
            index.remove(0);
            let len = index.len() as u32;
            if len > *depth {
                *depth = len;
            }
            leaf_node_index.push(index);
            proof {
                self.lemma_model_children();
                assert(paths_of(*leaf_node_index) =~= paths_of(*old(leaf_node_index)).push(index@));
            }
            self.set_lod_info();
            proof {
                assert(self.model() =~= NodeModel { is_leaf: true, entities: entity_clouds, lod_info: Some(1i32), ..m0 });
            }
            return;
        }
        let mid = compute_mid_point::<T>(min_corner, max_corner);
        let child_list = entity_clouds.entities_distribute([min_corner, max_corner]);
        let ghost dist = child_list@;
        let ghost result = build_children(fuel, m0.index, min_corner, max_corner, dist, 0, m0.children, Seq::empty(), *old(depth));
        let ghost mut paths: Seq<Seq<u8>> = Seq::empty();
        for i in 0..8
            invariant
                self.is_leaf == old(self).is_leaf,
                self.index == old(self).index,
                self.entities == old(self).entities,
                self.bound == old(self).bound,
                self.leaf_node_index == old(self).leaf_node_index,
                self.depth == old(self).depth,
                self.lod_info == old(self).lod_info,
                m0 == old(self).model(),
                index@ == m0.index,
                child_list@ == dist,
                dist.len() >= 8,
                !entity_clouds.spec_if_leaf(),
                dist == entity_clouds.spec_distribute([min_corner, max_corner])@,
                mid == spec_mid_point::<T>(min_corner, max_corner),
                result is Some,
                build_children(fuel, m0.index, min_corner, max_corner, dist, i as int, self.model().children, paths, *depth) == result,
                paths_of(*leaf_node_index) == paths_of(*old(leaf_node_index)) + paths,
        {
            proof { self.lemma_model_children(); }
            let (child_min, child_max) = compute_child_bounds(i, min_corner, mid, max_corner);
            let ghost cs = self.model().children;
            if child_list[i].is_empty() {
                self.children[i] = None;
                proof {
                    self.lemma_model_children();
                    assert(self.model().children =~= cs.update(i as int, None));
                }
            } else {
                let mut child_index = index.clone();
                child_index.push(i as u8);
                proof {
                    assert(child_index@ == m0.index.push(i as u8));
                }
                let mut child = SVO::new_node(child_index, duplicate(&child_list[i]));
                let cloud = duplicate(&child_list[i]);
                assert(child.model() == fresh_model(m0.index.push(i as u8), dist[i as int]));
                assert(cloud == dist[i as int]);
                let ghost pre_list = paths_of(*leaf_node_index);
                let ghost pre_depth = *depth;
                child.build_in(child_min, child_max, cloud, leaf_node_index, depth, Ghost((fuel - 1) as nat));
                self.children[i] = Some(Box::new(child));
                proof {
                    self.lemma_model_children();
                    assert(self.model().children =~= cs.update(i as int, Some(child.model())));
                    let (c, p, d) = build_step((fuel - 1) as nat, fresh_model(m0.index.push(i as u8), dist[i as int]), child_min, child_max, dist[i as int], pre_depth)->0;
                    assert(paths_of(*leaf_node_index) =~= paths_of(*old(leaf_node_index)) + (paths + p));
                    paths = paths + p;
                }
            }
        }
        proof {
            self.lemma_model_children();
            assert(self.model() =~= NodeModel { children: result.unwrap().0, ..m0 });
        }
        self.set_lod_info();
    }
}

/// The number of levels that `build_svo` descends on these arguments, where it ends.
pub open spec fn build_fuel<T: SVONode>(
    m: NodeModel<T>,
    min: [T::Coord; 3],
    max: [T::Coord; 3],
    cloud: T,
    depth: u32,
) -> nat {
    choose|f: nat| build_step(f, m, min, max, cloud, depth) is Some
}

/// What `build_svo` makes of node `m`, the leaf paths it appends and the new depth; `None`
/// where it panics or does not end.
pub open spec fn spec_build_svo<T: SVONode>(
    m: NodeModel<T>,
    min: [T::Coord; 3],
    max: [T::Coord; 3],
    cloud: T,
    depth: u32,
) -> Option<(NodeModel<T>, Seq<Seq<u8>>, u32)> {
    build_step(build_fuel(m, min, max, cloud, depth), m, min, max, cloud, depth)
}

/// The root that `new_root` starts from: path `[0]`, the given entities and their box.
pub open spec fn root_start<T: SVONode>(entities: T) -> NodeModel<T> {
    NodeModel { bound: Some(entities.spec_bounds()), ..fresh_model(seq![0u8], entities) }
}

/// The tree that `new_root` builds over `entities`; `None` where it panics or does not end.
pub open spec fn spec_new_root<T: SVONode>(entities: T) -> Option<NodeModel<T>> {
    let b = entities.spec_bounds();
    match spec_build_svo(root_start(entities), b[0], b[1], entities, 0u32) {
        None => None,
        Some((m, p, d)) => spec_set_lod(NodeModel { leaf_node_index: Some(p), depth: Some(d), ..m }),
    }
}

impl<T: SVONode> SVO<T> {
    /// Builds the tree over `entities` inside their bounding box, and records its leaf paths,
    /// its depth and its level-of-detail values.
    pub fn new_root(entities: T) -> (r: Box<Self>)
        requires
            spec_new_root(entities) is Some,
        ensures
            Some(r.model()) == spec_new_root(entities),
    {
        let bounds = entities.bounde_get();
        let mut index: Vec<u8> = Vec::new();
        index.push(0);
        let mut root = SVO::new_node(index, duplicate(&entities));
        root.bound = Some(bounds);
        proof {
            root.lemma_model_children();
            assert(root.model() =~= root_start(entities));
        }
        let mut leaf_node_index: Vec<Vec<u8>> = Vec::new();
        let mut depth: u32 = 0;
        proof {
            assert(paths_of(leaf_node_index) =~= Seq::<Seq<u8>>::empty());
        }
        root.build_svo(bounds[0], bounds[1], entities, &mut leaf_node_index, &mut depth);
        let ghost built = root.model();
        root.leaf_node_index = Some(leaf_node_index);
        root.depth = Some(depth);
        proof {
            root.lemma_model_children();
            assert(root.model() =~= NodeModel { leaf_node_index: Some(paths_of(leaf_node_index)), depth: Some(depth), ..built });
        }
        root.set_lod_info();
        Box::new(root)
    }

    /// Builds the subtree of this node over `entity_clouds` in the box
    /// `min_corner`..`max_corner`: a set that fits in a leaf makes the node a leaf holding it;
    /// otherwise the set is split among the eight octants and a child is built for each
    /// non-empty share. The paths of the new leaves (without their first element) are appended
    /// to `leaf_node_index`, and `depth` grows to the longest of them.
    pub fn build_svo(
        &mut self,
        min_corner: [T::Coord; 3],
        max_corner: [T::Coord; 3],
        entity_clouds: T,
        leaf_node_index: &mut Vec<Vec<u8>>,
        depth: &mut u32,
    )
        requires
            spec_build_svo(old(self).model(), min_corner, max_corner, entity_clouds, *old(depth)) is Some,
        ensures
            ({
                let (m, p, d) = spec_build_svo(old(self).model(), min_corner, max_corner, entity_clouds, *old(depth))->0;
                &&& final(self).model() == m
                &&& paths_of(*final(leaf_node_index)) == paths_of(*old(leaf_node_index)) + p
                &&& *final(depth) == d
            }),
    {
        let ghost fuel = build_fuel(self.model(), min_corner, max_corner, entity_clouds, *depth);
        self.build_in(min_corner, max_corner, entity_clouds, leaf_node_index, depth, Ghost(fuel));
    }
}

/// The box in which `search` looks for the child in octant `i` of `min`..`max`: split at the
/// midpoint on the first two axes as the octant says, and the lower half on the third.
pub open spec fn search_corners<T: SVONode>(
    i: usize,
    min: [T::Coord; 3],
    max: [T::Coord; 3],
) -> ([T::Coord; 3], [T::Coord; 3]) {
    let mid = spec_mid_point::<T>(min, max);
    (
        [
            if upper_half(i, 0) { mid[0] } else { min[0] },
            if upper_half(i, 1) { mid[1] } else { min[1] },
            min[2],
        ],
        [
            if upper_half(i, 0) { max[0] } else { mid[0] },
            if upper_half(i, 1) { max[1] } else { mid[1] },
            mid[2],
        ],
    )
}

/// Whether the search along leaf path `path` from node `m`, whose box is `min`..`max`, selects
/// a leaf: each node on the way must meet `bounds`, and the walk ends at the first leaf.
/// `None` where the walk would panic (an inner node reached with the path used up, or an
/// octant number beyond the child slots).
pub open spec fn search_step<T: SVONode>(
    m: NodeModel<T>,
    path: Seq<u8>,
    bounds: [[T::Coord; 3]; 2],
    min: [T::Coord; 3],
    max: [T::Coord; 3],
) -> Option<bool>
    decreases m,
{
    if !spec_intersect::<T>(min, max, bounds) {
        Some(false)
    } else if m.is_leaf {
        Some(true)
    } else if path.len() == 0 {
        None
    } else {
        let i = path[0] as usize;
        if i >= m.children.len() {
            None
        } else {
            match m.children[i as int] {
                None => Some(false),
                Some(c) => {
                    let (cmin, cmax) = search_corners::<T>(i, min, max);
                    search_step(c, path.drop_first(), bounds, cmin, cmax)
                },
            }
        }
    }
}

/// The paths of `paths` that the search selects, in their order; `None` where a search panics.
pub open spec fn search_paths<T: SVONode>(
    m: NodeModel<T>,
    paths: Seq<Seq<u8>>,
    bounds: [[T::Coord; 3]; 2],
    min: [T::Coord; 3],
    max: [T::Coord; 3],
) -> Option<Seq<Seq<u8>>>
    decreases paths.len(),
{
    if paths.len() == 0 {
        Some(Seq::empty())
    } else {
        match search_paths(m, paths.drop_last(), bounds, min, max) {
            None => None,
            Some(s) => match search_step(m, paths.last(), bounds, min, max) {
                None => None,
                Some(hit) => Some(if hit { s.push(paths.last()) } else { s }),
            },
        }
    }
}

/// What `search_bound` reports for the query box `bounds`: `Some(None)` when the query misses
/// the root's box, else `Some(Some(paths))` with the recorded leaf paths whose search selects
/// a leaf; `None` where it panics.
pub open spec fn spec_search_bound<T: SVONode>(
    m: NodeModel<T>,
    bounds: [[T::Coord; 3]; 2],
) -> Option<Option<Seq<Seq<u8>>>> {
    match m.bound {
        None => None,
        Some(b) => if !spec_intersect::<T>(b[0], b[1], bounds) {
            Some(None)
        } else {
            let paths = match m.leaf_node_index {
                Some(p) => p,
                None => Seq::empty(),
            };
            match search_paths(m, paths, bounds, b[0], b[1]) {
                None => None,
                Some(s) => Some(Some(s)),
            }
        },
    }
}

/// A copy of a path.
fn copy_path(p: &Vec<u8>) -> (r: Vec<u8>)
    ensures
        r@ == p@,
{
    let mut r: Vec<u8> = Vec::new();
    for k in 0..p.len()
        invariant
            r@ == p@.take(k as int),
    {
        r.push(p[k]);
        assert(r@ =~= p@.take(k + 1));
    }
    assert(p@.take(p.len() as int) =~= p@);
    r
}

impl<T: SVONode> SVO<T> {
    /// Follows `leaf_index` down from this node, whose box is `min_corner`..`max_corner`, and
    /// tells whether it reaches a leaf with every node on the way meeting `bounds`.
    fn search(
        &self,
        leaf_index: &Vec<u8>,
        bounds: [[T::Coord; 3]; 2],
        min_corner: [T::Coord; 3],
        max_corner: [T::Coord; 3],
    ) -> (r: bool)
        requires
            search_step(self.model(), leaf_index@, bounds, min_corner, max_corner) is Some,
        ensures
            Some(r) == search_step(self.model(), leaf_index@, bounds, min_corner, max_corner),
        decreases self,
    {
        if !if_intersect::<T>((min_corner, max_corner), bounds) {
            return false;
        }
        let mut index = copy_path(leaf_index);
        if self.is_leaf {
            return true;
        }
        proof { self.lemma_model_children(); }
        let inde = index[0] as usize;
        index.remove(0);
        let mid = compute_mid_point::<T>(min_corner, max_corner);
        let mut min = min_corner;
        let mut max = mid;
        proof {
            assert(((inde >> 2) & 1 == 1) == ((inde / 4) % 2 == 1)) by (bit_vector);
            assert(((inde >> 1) & 1 == 1) == ((inde / 2) % 2 == 1)) by (bit_vector);
        }
        if (inde >> 2) & 1 == 1 {
            min[0] = mid[0];
            max[0] = max_corner[0];
        }
        if (inde >> 1) & 1 == 1 {
            min[1] = mid[1];
            max[1] = max_corner[1];
        }
        proof {
            let (cmin, cmax) = search_corners::<T>(inde, min_corner, max_corner);
            assert(min =~= cmin);
            assert(max =~= cmax);
        }
        if let Some(child) = &self.children[inde] {
            child.search(&index, bounds, min, max)
        } else {
            false
        }
    }

    /// The recorded leaf paths that a search for the query box `bounds` selects, in their
    /// recorded order; `None` when the query misses the root's box.
    pub fn search_bound(&self, bounds: [[T::Coord; 3]; 2]) -> (r: Option<Vec<Vec<u8>>>)
        requires
            spec_search_bound(self.model(), bounds) is Some,
        ensures
            match spec_search_bound(self.model(), bounds)->0 {
                None => r is None,
                Some(s) => r matches Some(v) && paths_of(v) == s,
            },
    {
        let ghost m = self.model();
        let root_bound = self.bound.unwrap();
        let min_corner = root_bound[0];
        let max_corner = root_bound[1];
        assert(root_bound =~= [min_corner, max_corner]);
        if !if_intersect::<T>((min_corner, max_corner), bounds) {
            return None;
        }
        let mut selected: Vec<Vec<u8>> = Vec::new();
        if let Some(leaf_node_index) = &self.leaf_node_index {
            let ghost paths = paths_of(*leaf_node_index);
            for k in 0..leaf_node_index.len()
                invariant
                    m == self.model(),
                    paths == paths_of(*leaf_node_index),
                    m.leaf_node_index == Some(paths),
                    m.bound == Some([min_corner, max_corner]),
                    search_paths(m, paths, bounds, min_corner, max_corner) is Some,
                    search_paths(m, paths.take(k as int), bounds, min_corner, max_corner) == Some(paths_of(selected)),
            {
                proof {
                    lemma_search_paths_prefix(m, paths, bounds, min_corner, max_corner, k + 1);
                    assert(paths.take(k + 1).drop_last() =~= paths.take(k as int));
                }
                let hit = self.search(&leaf_node_index[k], bounds, min_corner, max_corner);
                if hit {
                    selected.push(copy_path(&leaf_node_index[k]));
                    proof {
                        assert(paths_of(selected) =~= paths_of(selected).drop_last().push(paths[k as int]));
                    }
                }
            }
            proof {
                assert(paths.take(leaf_node_index.len() as int) =~= paths);
            }
        } else {
            proof {
                assert(paths_of(selected) =~= Seq::<Seq<u8>>::empty());
            }
        }
        Some(selected)
    }
}

/// `insert` of entity `e` into node `m`, whose box is `bounds`, appending new leaf paths to
/// `list`: the new node and list; `None` where it panics or needs more than `fuel` levels.
pub open spec fn insert_step<T: SVONode>(
    fuel: nat,
    m: NodeModel<T>,
    e: T,
    bounds: [[T::Coord; 3]; 2],
    list: Seq<Seq<u8>>,
) -> Option<(NodeModel<T>, Seq<Seq<u8>>)>
    decreases fuel, 0int,
{
    let m1 = NodeModel { entities: m.entities.spec_push(e), ..m };
    if m1.is_leaf {
        match spec_set_lod(m1) {
            None => None,
            Some(m2) => Some((m2, list)),
        }
    } else if fuel == 0 {
        None
    } else {
        match insert_loop((fuel - 1) as nat, m1, e, e.spec_position(bounds)@, 0, list) {
            None => None,
            Some((m2, l2)) => match spec_set_lod(m2) {
                None => None,
                Some(m3) => Some((m3, l2)),
            },
        }
    }
}

/// The loop of `insert` over the octants `b[k..]` that the entity falls into: an existing
/// child takes the entity by `insert`, a missing one is created and built from the entity
/// alone, which also sets the node's depth to the new subtree's.
pub open spec fn insert_loop<T: SVONode>(
    fuel: nat,
    m: NodeModel<T>,
    e: T,
    b: Seq<NodeBoundary<T::Coord>>,
    k: int,
    list: Seq<Seq<u8>>,
) -> Option<(NodeModel<T>, Seq<Seq<u8>>)>
    decreases fuel, b.len() - k + 1,
{
    if k < 0 || k >= b.len() {
        Some((m, list))
    } else {
        let nb = b[k];
        if nb.index >= m.children.len() {
            None
        } else {
            match m.children[nb.index as int] {
                Some(c) => match insert_step(fuel, c, e, [nb.min, nb.max], list) {
                    None => None,
                    Some((c2, l2)) => insert_loop(
                        fuel,
                        NodeModel { children: m.children.update(nb.index as int, Some(c2)), ..m },
                        e,
                        b,
                        k + 1,
                        l2,
                    ),
                },
                None => {
                    let idx = m.index.push(nb.index as u8).drop_first();
                    match build_step(fuel, fresh_model(idx, e), nb.min, nb.max, e, 0u32) {
                        None => None,
                        Some((c, p, d)) => insert_loop(
                            fuel,
                            NodeModel {
                                children: m.children.update(nb.index as int, Some(c)),
                                depth: Some(d),
                                ..m
                            },
                            e,
                            b,
                            k + 1,
                            list + p,
                        ),
                    }
                },
            }
        }
    }
}

impl<T: SVONode> SVO<T> {
    /// Adds `entity` to this node, whose box is `bounds`, and below it along the octants that
    /// the entity falls into: into existing children recursively, and as new subtrees where a
    /// child is missing, whose leaf paths go to `leaf_node_index`.
    fn insert(
        &mut self,
        entity: T,
        bounds: [[T::Coord; 3]; 2],
        leaf_node_index: &mut Vec<Vec<u8>>,
        Ghost(fuel): Ghost<nat>,
    )
        requires
            insert_step(fuel, old(self).model(), entity, bounds, paths_of(*old(leaf_node_index))) is Some,
        ensures
            ({
                let (m, l) = insert_step(fuel, old(self).model(), entity, bounds, paths_of(*old(leaf_node_index)))->0;
                final(self).model() == m && paths_of(*final(leaf_node_index)) == l
            }),
        decreases fuel,
    {
        self.entities.push(duplicate(&entity));
        proof {
            self.lemma_model_children();
            assert(self.model() =~= NodeModel { entities: old(self).model().entities.spec_push(entity), ..old(self).model() });
        }
        if self.is_leaf {
            self.set_lod_info();
            return;
        }
        let boundary = entity.entity_position(bounds);
        let ghost b = boundary@;
        let ghost m1 = self.model();
        let ghost result = insert_loop((fuel - 1) as nat, m1, entity, b, 0, paths_of(*old(leaf_node_index)));
        for k in 0..boundary.len()
            invariant
                fuel > 0,
                b == boundary@,
                b == entity.spec_position(bounds)@,
                !self.is_leaf,
                self.index == old(self).index,
                self.bound == old(self).bound,
                self.leaf_node_index == old(self).leaf_node_index,
                self.lod_info == old(self).lod_info,
                self.model().index == m1.index,
                self.model().entities == m1.entities,
                result is Some,
                insert_loop((fuel - 1) as nat, self.model(), entity, b, k as int, paths_of(*leaf_node_index)) == result,
        {
            proof { self.lemma_model_children(); }
            let j = boundary[k].index;
            let child_min = boundary[k].min;
            let child_max = boundary[k].max;
            let ghost mk = self.model();
            let ghost lk = paths_of(*leaf_node_index);
            let present = self.children[j].is_some();
            if present {
                proof {
                    assert([boundary[k as int].min, boundary[k as int].max] =~= [child_min, child_max]);
                }
                match &mut self.children[j] {
                    Some(child) => {
                        child.insert(duplicate(&entity), [child_min, child_max], leaf_node_index, Ghost((fuel - 1) as nat));
                    },
                    None => {},
                }
                proof {
                    self.lemma_model_children();
                    let (c2, l2) = insert_step((fuel - 1) as nat, mk.children[j as int]->0, entity, [child_min, child_max], lk)->0;
                    assert(self.model().children =~= mk.children.update(j as int, Some(c2)));
                    assert(self.model() =~= NodeModel { children: mk.children.update(j as int, Some(c2)), ..mk });
                }
            } else {
                let mut inde = copy_path(&self.index);
                inde.push(j as u8);
                inde.remove(0);
                let mut new_child = SVO::new_node(inde, duplicate(&entity));
                let mut depth: u32 = 0;
                new_child.build_in(child_min, child_max, duplicate(&entity), leaf_node_index, &mut depth, Ghost((fuel - 1) as nat));
                self.children[j] = Some(Box::new(new_child));
                self.depth = Some(depth);
                proof {
                    self.lemma_model_children();
                    assert(self.model().children =~= mk.children.update(j as int, Some(new_child.model())));
                    assert(self.model() =~= NodeModel { children: mk.children.update(j as int, Some(new_child.model())), depth: Some(depth), ..mk });
                }
            }
        }
        self.set_lod_info();
    }
}

/// How `insert_entity` ends.
#[derive(Clone, Copy, Debug, PartialEq, Eq)]
pub enum InsertOutcome {
    /// The entity was already stored at the root; nothing changed.
    AlreadyExists,
    /// The entity lies outside the root's box: the box was widened and the tree rebuilt.
    Rebuilt,
    /// The entity was added along the existing tree.
    Inserted,
}

/// `z` is a value that `Default::default` gives for the coordinate type.
pub open spec fn default_coord<T: SVONode>(z: T::Coord) -> bool {
    call_ensures(<T::Coord as core::default::Default>::default, (), z)
}

/// The number of levels that `insert` descends on these arguments, where it ends.
pub open spec fn insert_fuel<T: SVONode>(
    m: NodeModel<T>,
    e: T,
    bounds: [[T::Coord; 3]; 2],
    list: Seq<Seq<u8>>,
) -> nat {
    choose|f: nat| insert_step(f, m, e, bounds, list) is Some
}

/// What `insert_entity` makes of the root `m` for entity `e`, where `z` is the coordinate
/// that stands in for the corners of a root without a box; `None` where it panics or does
/// not end.
pub open spec fn spec_insert_entity<T: SVONode>(
    m: NodeModel<T>,
    e: T,
    z: T::Coord,
) -> Option<(NodeModel<T>, InsertOutcome)> {
    if m.entities.spec_contain(&e) {
        Some((m, InsertOutcome::AlreadyExists))
    } else {
        let (change, bb) = match m.bound {
            Some(b) => e.spec_cross(b),
            None => (false, [[z, z, z], [z, z, z]]),
        };
        let list = match m.leaf_node_index {
            Some(l) => l,
            None => Seq::empty(),
        };
        if change {
            match spec_build_svo(NodeModel { bound: Some(bb), ..m }, bb[0], bb[1], m.entities.spec_push(e), 0u32) {
                None => None,
                Some((m2, p, d)) => Some((NodeModel { leaf_node_index: Some(p), depth: Some(d), ..m2 }, InsertOutcome::Rebuilt)),
            }
        } else {
            let f = insert_fuel(m, e, bb, list);
            match insert_step(f, m, e, bb, list) {
                None => None,
                Some((m2, l2)) => Some((NodeModel { leaf_node_index: Some(l2), ..m2 }, InsertOutcome::Inserted)),
            }
        }
    }
}

impl<T: SVONode> SVO<T> {
    /// Adds `entity` to the tree rooted here. An entity already at the root is left out. One
    /// outside the root's box widens the box and rebuilds the tree over the root's entities
    /// and the new one; otherwise it is inserted along the existing tree.
    pub fn insert_entity(&mut self, entity: T) -> (r: InsertOutcome)
        requires
            forall|z: T::Coord| default_coord::<T>(z) ==> spec_insert_entity(old(self).model(), entity, z) is Some,
        ensures
            exists|z: T::Coord| default_coord::<T>(z) && spec_insert_entity(old(self).model(), entity, z) == Some((final(self).model(), r)),
    {
        let ghost m = self.model();
        let zero = T::Coord::default();
        proof {
            assert(default_coord::<T>(zero));
        }
        if self.entities.contain(&entity) {
            return InsertOutcome::AlreadyExists;
        }
        let mut if_change = false;
        let mut min = [zero, zero, zero];
        let mut max = [zero, zero, zero];
        if let Some(bound) = self.bound {
            let (change, corners) = entity.if_cross(bound);
            if_change = change;
            min = corners[0];
            max = corners[1];
            proof { assert(corners =~= [min, max]); }
        }
        proof {
            assert(spec_insert_entity(m, entity, zero) is Some);
        }
        let mut use_node_index: Vec<Vec<u8>> = Vec::new();
        if let Some(leaf_node_index) = &self.leaf_node_index {
            use_node_index = copy_paths(leaf_node_index);
        }
        proof {
            assert(paths_of(use_node_index) =~= match m.leaf_node_index { Some(l) => l, None => Seq::<Seq<u8>>::empty() });
        }
        if if_change {
            let mut new_elist = duplicate(&self.entities);
            new_elist.push(entity);
            self.bound = Some([min, max]);
            let mut leaf_node_index: Vec<Vec<u8>> = Vec::new();
            let mut depth: u32 = 0;
            proof {
                self.lemma_model_children();
                assert(self.model() =~= NodeModel { bound: Some([min, max]), ..m });
                assert(paths_of(leaf_node_index) =~= Seq::<Seq<u8>>::empty());
            }
            self.build_svo(min, max, new_elist, &mut leaf_node_index, &mut depth);
            let ghost built = self.model();
            self.leaf_node_index = Some(leaf_node_index);
            self.depth = Some(depth);
            proof {
                self.lemma_model_children();
                assert(self.model() =~= NodeModel { leaf_node_index: Some(paths_of(leaf_node_index)), depth: Some(depth), ..built });
            }
            InsertOutcome::Rebuilt
        } else {
            let ghost fuel = insert_fuel(m, entity, [min, max], paths_of(use_node_index));
            self.insert(entity, [min, max], &mut use_node_index, Ghost(fuel));
            let ghost inserted = self.model();
            self.leaf_node_index = Some(use_node_index);
            proof {
                self.lemma_model_children();
                assert(self.model() =~= NodeModel { leaf_node_index: Some(paths_of(use_node_index)), ..inserted });
            }
            InsertOutcome::Inserted
        }
    }
}

/// Whether two paths agree on their common length: the test by which `delete` drops the
/// recorded leaf paths of a removed child.
pub open spec fn paths_agree(a: Seq<u8>, b: Seq<u8>) -> bool {
    forall|j: int| 0 <= j < a.len() && j < b.len() ==> a[j] == b[j]
}

/// The recorded leaf paths that `delete` keeps when it removes the child whose path is
/// `child_index`.
pub open spec fn kept_paths(list: Seq<Seq<u8>>, child_index: Seq<u8>) -> Seq<Seq<u8>> {
    list.filter(|p: Seq<u8>| !paths_agree(p, child_index))
}

/// `delete` of entity `e` below node `m`, whose box is `bounds`: the new node and leaf list;
/// `None` where it panics or needs more than `fuel` levels.
pub open spec fn delete_step<T: SVONode>(
    fuel: nat,
    m: NodeModel<T>,
    e: T,
    bounds: [[T::Coord; 3]; 2],
    list: Seq<Seq<u8>>,
) -> Option<(NodeModel<T>, Seq<Seq<u8>>)>
    decreases fuel, 0int,
{
    if m.is_leaf {
        match spec_set_lod(m) {
            None => None,
            Some(m2) => Some((m2, list)),
        }
    } else if fuel == 0 {
        None
    } else {
        match delete_loop((fuel - 1) as nat, m, e, e.spec_position(bounds)@, 0, list) {
            None => None,
            Some((m2, l2, stopped)) => if stopped {
                Some((m2, l2))
            } else {
                match spec_set_lod(m2) {
                    None => None,
                    Some(m3) => Some((m3, l2)),
                }
            },
        }
    }
}

/// The loop of `delete` over the octants `b[k..]` that the entity falls into: a child that
/// holds a single entity is removed with its recorded paths, and the loop stops there
/// (`true`); any other child is descended into.
pub open spec fn delete_loop<T: SVONode>(
    fuel: nat,
    m: NodeModel<T>,
    e: T,
    b: Seq<NodeBoundary<T::Coord>>,
    k: int,
    list: Seq<Seq<u8>>,
) -> Option<(NodeModel<T>, Seq<Seq<u8>>, bool)>
    decreases fuel, b.len() - k + 1,
{
    if k < 0 || k >= b.len() {
        Some((m, list, false))
    } else {
        let nb = b[k];
        if nb.index >= m.children.len() {
            None
        } else {
            match m.children[nb.index as int] {
                None => None,
                Some(c) => if c.entities.spec_len() == 1 {
                    Some((
                        NodeModel { children: m.children.update(nb.index as int, None), ..m },
                        kept_paths(list, c.index),
                        true,
                    ))
                } else {
                    match delete_step(fuel, c, e, [nb.min, nb.max], list) {
                        None => None,
                        Some((c2, l2)) => delete_loop(
                            fuel,
                            NodeModel { children: m.children.update(nb.index as int, Some(c2)), ..m },
                            e,
                            b,
                            k + 1,
                            l2,
                        ),
                    }
                },
            }
        }
    }
}

/// Whether `a` and `b` agree on their common length.
fn agree(a: &Vec<u8>, b: &Vec<u8>) -> (r: bool)
    ensures
        r == paths_agree(a@, b@),
{
    let n = if a.len() < b.len() { a.len() } else { b.len() };
    for j in 0..n
        invariant
            n <= a.len(),
            n <= b.len(),
            n == a.len() || n == b.len(),
            forall|i: int| 0 <= i < j ==> a@[i] == b@[i],
    {
        if a[j] != b[j] {
            return false;
        }
    }
    true
}

/// Drops from `list` the paths that agree with `child_index` on their common length.
fn retain_paths(list: &mut Vec<Vec<u8>>, child_index: &Vec<u8>)
    ensures
        paths_of(*final(list)) == kept_paths(paths_of(*old(list)), child_index@),
{
    let ghost all = paths_of(*list);
    let ghost pred = |p: Seq<u8>| !paths_agree(p, child_index@);
    let mut kept: Vec<Vec<u8>> = Vec::new();
    for k in 0..list.len()
        invariant
            all == paths_of(*list),
            pred == (|p: Seq<u8>| !paths_agree(p, child_index@)),
            paths_of(kept) == all.take(k as int).filter(pred),
    {
        proof {
            reveal(Seq::filter);
            assert(all.take(k + 1).drop_last() =~= all.take(k as int));
            assert(all.take(k + 1).last() == list@[k as int]@);
        }
        if !agree(&list[k], child_index) {
            let p = copy_path(&list[k]);
            let ghost before = paths_of(kept);
            kept.push(p);
            proof {
                assert(paths_of(kept) =~= before.push(list@[k as int]@));
            }
        }
    }
    proof {
        assert(all.take(list.len() as int) =~= all);
    }
    *list = kept;
}

impl<T: SVONode> SVO<T> {
    /// Removes `entity` below this node, whose box is `bounds`: along the octants the entity
    /// falls into, the first child that holds a single entity is removed together with the
    /// recorded leaf paths that agree with its path, and the walk stops there.
    fn delete(
        &mut self,
        entity: &T,
        bounds: [[T::Coord; 3]; 2],
        leaf_node_index: &mut Vec<Vec<u8>>,
        Ghost(fuel): Ghost<nat>,
    )
        requires
            delete_step(fuel, old(self).model(), *entity, bounds, paths_of(*old(leaf_node_index))) is Some,
        ensures
            ({
                let (m, l) = delete_step(fuel, old(self).model(), *entity, bounds, paths_of(*old(leaf_node_index)))->0;
                final(self).model() == m && paths_of(*final(leaf_node_index)) == l
            }),
        decreases fuel,
    {
        if self.is_leaf {
            self.set_lod_info();
            return;
        }
        let boundary = entity.entity_position(bounds);
        let ghost b = boundary@;
        let ghost m0 = self.model();
        let ghost result = delete_loop((fuel - 1) as nat, m0, *entity, b, 0, paths_of(*old(leaf_node_index)));
        for k in 0..boundary.len()
            invariant
                fuel > 0,
                b == boundary@,
                b == entity.spec_position(bounds)@,
                !self.is_leaf,
                self.index == old(self).index,
                self.entities == old(self).entities,
                self.bound == old(self).bound,
                self.leaf_node_index == old(self).leaf_node_index,
                self.depth == old(self).depth,
                self.lod_info == old(self).lod_info,
                result is Some,
                result == delete_loop((fuel - 1) as nat, m0, *entity, b, 0, paths_of(*old(leaf_node_index))),
                m0 == old(self).model(),
                !old(self).is_leaf,
                delete_loop((fuel - 1) as nat, self.model(), *entity, b, k as int, paths_of(*leaf_node_index)) == result,
        {
            proof { self.lemma_model_children(); }
            let j = boundary[k].index;
            let child_min = boundary[k].min;
            let child_max = boundary[k].max;
            let ghost mk = self.model();
            let ghost lk = paths_of(*leaf_node_index);
            let single = self.children[j].as_ref().unwrap().entities.len() == 1;
            if single {
                let child_index = copy_path(&self.children[j].as_ref().unwrap().index);
                self.children[j] = None;
                retain_paths(leaf_node_index, &child_index);
                proof {
                    self.lemma_model_children();
                    assert(self.model().children =~= mk.children.update(j as int, None));
                    assert(self.model() =~= NodeModel { children: mk.children.update(j as int, None), ..mk });
                    let c = mk.children[j as int]->0;
                    assert(c.index == child_index@);
                    assert(c.entities.spec_len() == 1);
                    assert(result == Some((self.model(), paths_of(*leaf_node_index), true)));
                }
                return;
            }
            proof {
                assert([boundary[k as int].min, boundary[k as int].max] =~= [child_min, child_max]);
            }
            match &mut self.children[j] {
                Some(child) => {
                    child.delete(entity, [child_min, child_max], leaf_node_index, Ghost((fuel - 1) as nat));
                },
                None => {},
            }
            proof {
                self.lemma_model_children();
                let (c2, l2) = delete_step((fuel - 1) as nat, mk.children[j as int]->0, *entity, [child_min, child_max], lk)->0;
                assert(self.model().children =~= mk.children.update(j as int, Some(c2)));
                assert(self.model() =~= NodeModel { children: mk.children.update(j as int, Some(c2)), ..mk });
            }
        }
        self.set_lod_info();
    }
}

/// How `point_delete` ends.
#[derive(Clone, Copy, Debug, PartialEq, Eq)]
pub enum DeleteOutcome {
    /// The entity was not stored at the root; the root's entities were filtered all the same.
    Missing,
    /// The root held nothing but the entity; it now holds nothing.
    Emptied,
    /// The entity was removed from the root and the tree below it.
    Deleted,
}

/// The number of levels that `delete` descends on these arguments, where it ends.
pub open spec fn delete_fuel<T: SVONode>(
    m: NodeModel<T>,
    e: T,
    bounds: [[T::Coord; 3]; 2],
    list: Seq<Seq<u8>>,
) -> nat {
    choose|f: nat| delete_step(f, m, e, bounds, list) is Some
}

/// What `point_delete` makes of the root `m` for entity `e`; `None` where it panics or does
/// not end.
pub open spec fn spec_point_delete<T: SVONode>(m: NodeModel<T>, e: T) -> Option<(NodeModel<T>, DeleteOutcome)> {
    let m1 = NodeModel { entities: m.entities.spec_retain(&e), ..m };
    if m.entities.spec_len() == m1.entities.spec_len() {
        Some((m1, DeleteOutcome::Missing))
    } else if m1.entities.spec_len() == 0 {
        Some((m1, DeleteOutcome::Emptied))
    } else {
        match (m1.bound, m1.leaf_node_index) {
            (Some(b), Some(l)) => match delete_step(delete_fuel(m1, e, b, l), m1, e, b, l) {
                None => None,
                Some((m2, l2)) => Some((NodeModel { leaf_node_index: Some(l2), ..m2 }, DeleteOutcome::Deleted)),
            },
            _ => None,
        }
    }
}

impl<T: SVONode> SVO<T> {
    /// Removes `entity` from the tree rooted here: from the root's entities, then below the
    /// root along the octants it falls into (see `delete`).
    pub fn point_delete(&mut self, entity: T) -> (r: DeleteOutcome)
        requires
            spec_point_delete(old(self).model(), entity) is Some,
        ensures
            spec_point_delete(old(self).model(), entity) == Some((final(self).model(), r)),
    {
        let ghost m = self.model();
        let length = self.entities.len();
        self.entities.retain(&entity);
        proof {
            self.lemma_model_children();
            assert(self.model() =~= NodeModel { entities: m.entities.spec_retain(&entity), ..m });
        }
        if length == self.entities.len() {
            return DeleteOutcome::Missing;
        }
        if self.entities.len() == 0 {
            return DeleteOutcome::Emptied;
        }
        let bounds = self.bound.unwrap();
        let mut leaf_node_index = copy_paths(self.leaf_node_index.as_ref().unwrap());
        let ghost m1 = self.model();
        let ghost fuel = delete_fuel(m1, entity, bounds, paths_of(leaf_node_index));
        self.delete(&entity, bounds, &mut leaf_node_index, Ghost(fuel));
        let ghost deleted = self.model();
        self.leaf_node_index = Some(leaf_node_index);
        proof {
            self.lemma_model_children();
            assert(self.model() =~= NodeModel { leaf_node_index: Some(paths_of(leaf_node_index)), ..deleted });
        }
        DeleteOutcome::Deleted
    }
}

/// The leaf paths (without their first element) of the leaves in child slots `i..n`, slot by
/// slot, depth first.
pub open spec fn range_leaves<T: SVONode>(cs: Seq<Option<NodeModel<T>>>, i: int, n: int) -> Seq<Seq<u8>>
    decreases cs, n - i,
{
    if i >= n || i < 0 || n > cs.len() {
        Seq::empty()
    } else {
        slot_leaves(cs, i) + range_leaves(cs, i + 1, n)
    }
}

/// The leaf paths below child slot `i`.
pub open spec fn slot_leaves<T: SVONode>(cs: Seq<Option<NodeModel<T>>>, i: int) -> Seq<Seq<u8>>
    decreases cs, 0int,
{
    if 0 <= i < cs.len() {
        match cs[i] {
            Some(c) => c.leaves(),
            None => Seq::empty(),
        }
    } else {
        Seq::empty()
    }
}

/// Whether the nodes in child slots `i..n` are consistent.
pub open spec fn range_consistent<T: SVONode>(cs: Seq<Option<NodeModel<T>>>, i: int, n: int) -> bool
    decreases cs, n - i,
{
    if i >= n || i < 0 || n > cs.len() {
        true
    } else {
        slot_consistent(cs, i) && range_consistent(cs, i + 1, n)
    }
}

/// Whether the node in child slot `i`, if any, is consistent.
pub open spec fn slot_consistent<T: SVONode>(cs: Seq<Option<NodeModel<T>>>, i: int) -> bool
    decreases cs, 0int,
{
    if 0 <= i < cs.len() {
        match cs[i] {
            Some(c) => c.lod_consistent(),
            None => true,
        }
    } else {
        true
    }
}

impl<T: SVONode> NodeModel<T> {
    /// The paths (without their first element) of the leaves below this node, depth first,
    /// through the first eight child slots; a leaf stands for itself.
    pub open spec fn leaves(self) -> Seq<Seq<u8>>
        decreases self, 1int,
    {
        if self.is_leaf {
            seq![self.index.drop_first()]
        } else {
            range_leaves(self.children, 0, 8)
        }
    }

    /// Whether the level-of-detail value of this node, and of every node below it through
    /// inner nodes, is the number of leaves below it, with eight child slots at each inner
    /// node.
    pub open spec fn lod_consistent(self) -> bool
        decreases self, 1int,
    {
        &&& self.leaves().len() <= i32::MAX
        &&& self.lod_info == Some(self.leaves().len() as i32)
        &&& !self.is_leaf ==> self.children.len() == 8 && range_consistent(self.children, 0, 8)
    }
}

/// The depth that `build_svo` reaches from `depth` after recording `paths`, one by one.
pub open spec fn fold_deeper(depth: u32, paths: Seq<Seq<u8>>) -> u32
    decreases paths.len(),
{
    if paths.len() == 0 {
        depth
    } else {
        deeper(fold_deeper(depth, paths.drop_last()), paths.last())
    }
}

/// A copy of a list of paths.
fn copy_paths(list: &Vec<Vec<u8>>) -> (r: Vec<Vec<u8>>)
    ensures
        paths_of(r) == paths_of(*list),
{
    let mut r: Vec<Vec<u8>> = Vec::new();
    for k in 0..list.len()
        invariant
            paths_of(r) == paths_of(*list).take(k as int),
    {
        let p = copy_path(&list[k]);
        let ghost before = paths_of(r);
        r.push(p);
        assert(paths_of(r) =~= before.push(list@[k as int]@));
        assert(paths_of(r) =~= paths_of(*list).take(k + 1));
    }
    assert(paths_of(*list).take(list.len() as int) =~= paths_of(*list));
    r
}

/// A search over a list that does not panic does not panic on any prefix of it.
proof fn lemma_search_paths_prefix<T: SVONode>(
    m: NodeModel<T>,
    paths: Seq<Seq<u8>>,
    bounds: [[T::Coord; 3]; 2],
    min: [T::Coord; 3],
    max: [T::Coord; 3],
    k: int,
)
    requires
        search_paths(m, paths, bounds, min, max) is Some,
        0 <= k <= paths.len(),
    ensures
        search_paths(m, paths.take(k), bounds, min, max) is Some,
    decreases paths.len(),
{
    if k < paths.len() {
        assert(paths.drop_last().take(k) =~= paths.take(k));
        lemma_search_paths_prefix(m, paths.drop_last(), bounds, min, max, k);
    } else {
        assert(paths.take(k) =~= paths);
    }
}

/// Every prefix sum of a defined sum is defined.
proof fn lemma_lod_sum_prefix<T: SVONode>(cs: Seq<Option<NodeModel<T>>>, k: int)
    requires
        lod_sum(cs, k) is Some,
    ensures
        forall|j: int| 0 <= j <= k ==> #[trigger] lod_sum(cs, j) is Some,
    decreases k,
{
    if k > 0 {
        lemma_lod_sum_prefix(cs, k - 1);
    }
}

} // verus!
