use vstd::prelude::*;
use crate::svo_trait::SVONode;
use crate::geometry::{spec_mid_point, spec_child_min, spec_child_max};
use crate::svo::{
    NodeModel, build_step, build_children, build_fuel, spec_build_svo, spec_new_root, root_start,
    fresh_model, spec_set_lod, search_step, insert_step, insert_loop, insert_fuel, spec_insert_entity,
    InsertOutcome, delete_step, delete_loop, delete_fuel, spec_point_delete, DeleteOutcome,
};
use crate::svo_trait::NodeBoundary;

verus! {

/// The lower corner of octant `i` of the box `min`..`max`, split at its midpoint on every axis.
pub open spec fn octant_min<T: SVONode>(i: int, min: [T::Coord; 3], max: [T::Coord; 3]) -> [T::Coord; 3] {
    spec_child_min(i as usize, min, spec_mid_point::<T>(min, max))
}

/// The upper corner of octant `i` of the box `min`..`max`, split at its midpoint on every axis.
pub open spec fn octant_max<T: SVONode>(i: int, min: [T::Coord; 3], max: [T::Coord; 3]) -> [T::Coord; 3] {
    spec_child_max(i as usize, spec_mid_point::<T>(min, max), max)
}

/// Whether the subtree `m` is an octree over its entity set in the box `min`..`max`: a leaf
/// holds a set small enough for a leaf; an inner node holds a set too large for one, and in
/// each of its eight slots the child holds exactly the share of the set in that octant (no
/// child where the share is empty), built in turn over the octant's box, split on all three
/// axes.
pub open spec fn built_over<T: SVONode>(m: NodeModel<T>, min: [T::Coord; 3], max: [T::Coord; 3]) -> bool
    decreases m, 1int,
{
    if m.is_leaf {
        m.entities.spec_if_leaf()
    } else {
        let dist = m.entities.spec_distribute([min, max])@;
        &&& !m.entities.spec_if_leaf()
        &&& dist.len() >= 8
        &&& m.children.len() >= 8
        &&& slots_built_over(m.children, dist, min, max, 0)
    }
}

/// Whether child slots `i..8` hold the shares `dist` of the octants of `min`..`max`.
pub open spec fn slots_built_over<T: SVONode>(
    cs: Seq<Option<NodeModel<T>>>,
    dist: Seq<T>,
    min: [T::Coord; 3],
    max: [T::Coord; 3],
    i: int,
) -> bool
    decreases cs, 8 - i,
{
    if i < 0 || i >= 8 {
        true
    } else {
        slot_built_over(cs, dist, min, max, i) && slots_built_over(cs, dist, min, max, i + 1)
    }
}

/// Whether child slot `i` holds the share `dist[i]` of octant `i` of `min`..`max`, built over
/// that octant's box.
pub open spec fn slot_built_over<T: SVONode>(
    cs: Seq<Option<NodeModel<T>>>,
    dist: Seq<T>,
    min: [T::Coord; 3],
    max: [T::Coord; 3],
    i: int,
) -> bool
    decreases cs, 0int,
{
    if 0 <= i < cs.len() && i < dist.len() {
        if dist[i].spec_is_empty() {
            cs[i] is None
        } else {
            match cs[i] {
                None => false,
                Some(c) => c.entities == dist[i] && built_over(c, octant_min::<T>(i, min, max), octant_max::<T>(i, min, max)),
            }
        }
    } else {
        false
    }
}

/// Slots that each hold their share make a range that does.
proof fn lemma_slots_from_each<T: SVONode>(
    cs: Seq<Option<NodeModel<T>>>,
    dist: Seq<T>,
    min: [T::Coord; 3],
    max: [T::Coord; 3],
    i: int,
)
    requires
        0 <= i <= 8,
        forall|j: int| i <= j < 8 ==> #[trigger] slot_built_over(cs, dist, min, max, j),
    ensures
        slots_built_over(cs, dist, min, max, i),
    decreases 8 - i,
{
    if i < 8 {
        assert(slot_built_over(cs, dist, min, max, i));
        lemma_slots_from_each(cs, dist, min, max, i + 1);
    }
}

/// The shape of a node depends only on whether it is a leaf, its set and its children.
proof fn lemma_built_over_same_shape<T: SVONode>(a: NodeModel<T>, b: NodeModel<T>, min: [T::Coord; 3], max: [T::Coord; 3])
    requires
        built_over(a, min, max),
        a.is_leaf == b.is_leaf,
        a.entities == b.entities,
        a.children == b.children,
    ensures
        built_over(b, min, max),
{
}

/// A build over `cloud` from a node that is not a leaf yet (or from any node, when the set
/// fits in a leaf) makes an octree over `cloud` in the box `min`..`max`.
proof fn lemma_build_step_shape<T: SVONode>(
    fuel: nat,
    m: NodeModel<T>,
    min: [T::Coord; 3],
    max: [T::Coord; 3],
    cloud: T,
    d: u32,
)
    requires
        build_step(fuel, m, min, max, cloud, d) is Some,
        !m.is_leaf || cloud.spec_if_leaf(),
        m.entities == cloud || cloud.spec_if_leaf(),
    ensures
        (build_step(fuel, m, min, max, cloud, d)->0).0.entities == cloud,
        built_over((build_step(fuel, m, min, max, cloud, d)->0).0, min, max),
    decreases fuel, 9int,
{
    if !cloud.spec_if_leaf() {
        let dist = cloud.spec_distribute([min, max])@;
        lemma_build_children_shape(fuel, m.index, min, max, dist, 0, m.children, Seq::empty(), d);
        let (cs, paths, dd) = build_children(fuel, m.index, min, max, dist, 0, m.children, Seq::empty(), d)->0;
        lemma_slots_from_each(cs, dist, min, max, 0);
        let m2 = (build_step(fuel, m, min, max, cloud, d)->0).0;
        assert(m2.children == cs);
        assert(m2.entities == cloud);
        assert(!m2.is_leaf);
    }
}

/// The loop of a build over octants `i..8` puts in each of those slots the octant's share,
/// built over the octant's box, and leaves the other slots alone.
proof fn lemma_build_children_shape<T: SVONode>(
    fuel: nat,
    index: Seq<u8>,
    min: [T::Coord; 3],
    max: [T::Coord; 3],
    dist: Seq<T>,
    i: int,
    cs: Seq<Option<NodeModel<T>>>,
    paths: Seq<Seq<u8>>,
    d: u32,
)
    requires
        build_children(fuel, index, min, max, dist, i, cs, paths, d) is Some,
        0 <= i <= 8,
    ensures
        i < 8 ==> cs.len() >= 8 && dist.len() >= 8,
        ({
            let cs2 = (build_children(fuel, index, min, max, dist, i, cs, paths, d)->0).0;
            &&& cs2.len() == cs.len()
            &&& forall|j: int| 0 <= j < i ==> cs2[j] == cs[j]
            &&& forall|j: int| i <= j < 8 ==> #[trigger] slot_built_over(cs2, dist, min, max, j)
        }),
    decreases fuel, 8 - i,
{
    let cs2 = (build_children(fuel, index, min, max, dist, i, cs, paths, d)->0).0;
    if i < 8 {
        if dist[i].spec_is_empty() {
            let cs1 = cs.update(i, None);
            lemma_build_children_shape(fuel, index, min, max, dist, i + 1, cs1, paths, d);
            assert(cs2[i] == cs1[i]);
            assert(slot_built_over(cs2, dist, min, max, i));
        } else {
            let (cmin, cmax) = crate::svo::octant_corners::<T>(i as usize, min, max);
            let fm = fresh_model(index.push(i as u8), dist[i]);
            lemma_build_step_shape((fuel - 1) as nat, fm, cmin, cmax, dist[i], d);
            let (c, p, dd) = build_step((fuel - 1) as nat, fm, cmin, cmax, dist[i], d)->0;
            let cs1 = cs.update(i, Some(c));
            lemma_build_children_shape(fuel, index, min, max, dist, i + 1, cs1, paths + p, dd);
            assert(cs2[i] == Some(c));
            assert(cmin == octant_min::<T>(i, min, max));
            assert(cmax == octant_max::<T>(i, min, max));
            assert(slot_built_over(cs2, dist, min, max, i));
        }
    }
}

/// `build_svo` of an entity set from a node that is not a leaf yet, or of a set that fits in a
/// leaf, makes an octree over the set in the given box: each child that it creates in slot `i`
/// holds exactly the set's share of octant `i` and is built over that octant's box, split at
/// the midpoint on all three axes.
pub proof fn law_build_svo_builds_octants<T: SVONode>(
    m: NodeModel<T>,
    min: [T::Coord; 3],
    max: [T::Coord; 3],
    cloud: T,
    depth: u32,
)
    requires
        spec_build_svo(m, min, max, cloud, depth) is Some,
        !m.is_leaf || cloud.spec_if_leaf(),
        m.entities == cloud || cloud.spec_if_leaf(),
    ensures
        (spec_build_svo(m, min, max, cloud, depth)->0).0.entities == cloud,
        built_over((spec_build_svo(m, min, max, cloud, depth)->0).0, min, max),
{
    lemma_build_step_shape(build_fuel(m, min, max, cloud, depth), m, min, max, cloud, depth);
}

/// A tree that `new_root` builds is an octree over the entities in their bounding box: the
/// root holds all of them, and every inner node splits its set among the octants of its box,
/// each child holding its octant's share and built over its octant's box.
pub proof fn law_new_root_builds_octants<T: SVONode>(entities: T)
    requires
        spec_new_root(entities) is Some,
    ensures
        spec_new_root(entities)->0.entities == entities,
        built_over(spec_new_root(entities)->0, entities.spec_bounds()[0], entities.spec_bounds()[1]),
{
    let b = entities.spec_bounds();
    law_build_svo_builds_octants(root_start(entities), b[0], b[1], entities, 0u32);
    let (m, p, d) = spec_build_svo(root_start(entities), b[0], b[1], entities, 0u32)->0;
    let m1 = NodeModel { leaf_node_index: Some(p), depth: Some(d), ..m };
    lemma_built_over_same_shape(m, m1, b[0], b[1]);
    lemma_built_over_same_shape(m1, spec_set_lod(m1)->0, b[0], b[1]);
}

/// The box in which `search_bound` looks below a node of box `min`..`max` for the child in slot
/// `i`: octant `i`'s box on the first two axes (bit 2 of `i` picks the half of axis 0, bit 1
/// that of axis 1), and the lower half on the third axis.
pub open spec fn search_box<T: SVONode>(i: int, min: [T::Coord; 3], max: [T::Coord; 3]) -> ([T::Coord; 3], [T::Coord; 3]) {
    let mid = spec_mid_point::<T>(min, max);
    (
        [octant_min::<T>(i, min, max)[0], octant_min::<T>(i, min, max)[1], min[2]],
        [octant_max::<T>(i, min, max)[0], octant_max::<T>(i, min, max)[1], mid[2]],
    )
}

/// The walk of `search_bound` along a leaf path: a node whose box misses the query selects
/// nothing; a leaf whose box meets it is selected; an inner node whose box meets it passes
/// the rest of the path to its child in the slot `i` that the path names, in a box that is
/// octant `i`'s box on axes 0 and 1 (the box the child was built over, on those axes) and
/// the lower half on axis 2; nothing is selected where that slot is empty.
pub proof fn law_search_descends_into_octant<T: SVONode>(
    m: NodeModel<T>,
    path: Seq<u8>,
    bounds: [[T::Coord; 3]; 2],
    min: [T::Coord; 3],
    max: [T::Coord; 3],
)
    ensures
        !crate::geometry::spec_intersect::<T>(min, max, bounds) ==> search_step(m, path, bounds, min, max) == Some(false),
        crate::geometry::spec_intersect::<T>(min, max, bounds) && m.is_leaf ==> search_step(m, path, bounds, min, max) == Some(true),
        crate::geometry::spec_intersect::<T>(min, max, bounds) && !m.is_leaf && path.len() > 0 && (path[0] as int) < m.children.len() ==> {
            let i = path[0] as int;
            let (cmin, cmax) = search_box::<T>(i, min, max);
            search_step(m, path, bounds, min, max) == match m.children[i] {
                None => Some(false),
                Some(c) => search_step(c, path.drop_first(), bounds, cmin, cmax),
            }
        },
{
    if crate::geometry::spec_intersect::<T>(min, max, bounds) && !m.is_leaf && path.len() > 0 && (path[0] as int) < m.children.len() {
        let i = path[0] as int;
        let (smin, smax) = crate::svo::search_corners::<T>(i as usize, min, max);
        let (cmin, cmax) = search_box::<T>(i, min, max);
        assert(smin =~= cmin);
        assert(smax =~= cmax);
    }
}

/// Whether the octants that `e` is reported to fall into are different octants, in every box.
pub open spec fn distinct_octants<T: SVONode>(e: T) -> bool {
    forall|b: [[T::Coord; 3]; 2], k1: int, k2: int|
        0 <= k1 < k2 < e.spec_position(b)@.len() ==> #[trigger] e.spec_position(b)@[k1].index != #[trigger] e.spec_position(b)@[k2].index
}

/// Whether slot `j` is one of the octants in `pos`.
pub open spec fn among<C>(pos: Seq<NodeBoundary<C>>, j: int) -> bool {
    exists|k: int| 0 <= k < pos.len() && pos[k].index as int == j
}

/// Whether `new` is the subtree `old`, of box `bounds`, with entity `e` taken in: the node's
/// set has `e` added; a leaf keeps its (absent) children; an inner node passes `e` on to the
/// child of each octant that `e` falls into, where an existing child takes it in the same
/// way and a missing one is replaced by a new subtree built over `e` alone in that octant's
/// box, and keeps its other children.
pub open spec fn took_entity<T: SVONode>(old: NodeModel<T>, new: NodeModel<T>, e: T, bounds: [[T::Coord; 3]; 2]) -> bool
    decreases old, 1int,
{
    &&& new.entities == old.entities.spec_push(e)
    &&& new.is_leaf == old.is_leaf
    &&& if old.is_leaf {
        new.children == old.children
    } else {
        let pos = e.spec_position(bounds)@;
        &&& new.children.len() == old.children.len()
        &&& positions_took(old.children, new.children, e, pos, 0)
        &&& forall|j: int| 0 <= j < old.children.len() && !among(pos, j) ==> #[trigger] new.children[j] == old.children[j]
    }
}

/// Whether, for the octants `pos[k..]`, the new child slots `ncs` are the old ones `ocs` with
/// the entity `e` taken in.
pub open spec fn positions_took<T: SVONode>(
    ocs: Seq<Option<NodeModel<T>>>,
    ncs: Seq<Option<NodeModel<T>>>,
    e: T,
    pos: Seq<NodeBoundary<T::Coord>>,
    k: int,
) -> bool
    decreases ocs, pos.len() - k,
{
    if k < 0 || k >= pos.len() {
        true
    } else {
        position_took(ocs, ncs, e, pos, k) && positions_took(ocs, ncs, e, pos, k + 1)
    }
}

/// Whether the child slot of octant `pos[k]` took the entity `e`: an existing child took it
/// in its box, a missing one became a subtree built over `e` alone in that box.
pub open spec fn position_took<T: SVONode>(
    ocs: Seq<Option<NodeModel<T>>>,
    ncs: Seq<Option<NodeModel<T>>>,
    e: T,
    pos: Seq<NodeBoundary<T::Coord>>,
    k: int,
) -> bool
    decreases ocs, 0int,
{
    if 0 <= k < pos.len() && 0 <= pos[k].index < ocs.len() && pos[k].index < ncs.len() {
        let j = pos[k].index as int;
        match ncs[j] {
            None => false,
            Some(nc) => match ocs[j] {
                Some(oc) => took_entity(oc, nc, e, [pos[k].min, pos[k].max]),
                None => nc.entities == e && built_over(nc, pos[k].min, pos[k].max),
            },
        }
    } else {
        false
    }
}

proof fn lemma_positions_from_each<T: SVONode>(
    ocs: Seq<Option<NodeModel<T>>>,
    ncs: Seq<Option<NodeModel<T>>>,
    e: T,
    pos: Seq<NodeBoundary<T::Coord>>,
    k: int,
)
    requires
        0 <= k,
        forall|k2: int| k <= k2 < pos.len() ==> #[trigger] position_took(ocs, ncs, e, pos, k2),
    ensures
        positions_took(ocs, ncs, e, pos, k),
    decreases pos.len() - k,
{
    if k < pos.len() {
        assert(position_took(ocs, ncs, e, pos, k));
        lemma_positions_from_each(ocs, ncs, e, pos, k + 1);
    }
}

/// `position_took` reads only the slot of its octant.
proof fn lemma_position_took_slot<T: SVONode>(
    ocs1: Seq<Option<NodeModel<T>>>,
    ocs2: Seq<Option<NodeModel<T>>>,
    ncs: Seq<Option<NodeModel<T>>>,
    e: T,
    pos: Seq<NodeBoundary<T::Coord>>,
    k: int,
)
    requires
        position_took(ocs1, ncs, e, pos, k),
        ocs1.len() == ocs2.len(),
        ocs1[pos[k].index as int] == ocs2[pos[k].index as int],
    ensures
        position_took(ocs2, ncs, e, pos, k),
{
}

/// An insertion into a subtree takes the entity in along the octants it falls into.
proof fn lemma_insert_step_took<T: SVONode>(
    fuel: nat,
    m: NodeModel<T>,
    e: T,
    bounds: [[T::Coord; 3]; 2],
    list: Seq<Seq<u8>>,
)
    requires
        insert_step(fuel, m, e, bounds, list) is Some,
        distinct_octants(e),
    ensures
        took_entity(m, (insert_step(fuel, m, e, bounds, list)->0).0, e, bounds),
    decreases fuel, 0int,
{
    let m1 = NodeModel { entities: m.entities.spec_push(e), ..m };
    let r = (insert_step(fuel, m, e, bounds, list)->0).0;
    if !m1.is_leaf {
        let pos = e.spec_position(bounds)@;
        lemma_insert_loop_took((fuel - 1) as nat, m1, e, pos, 0, list);
        let m2 = (insert_loop((fuel - 1) as nat, m1, e, pos, 0, list)->0).0;
        lemma_positions_from_each(m.children, m2.children, e, pos, 0);
        assert(r.children == m2.children);
        assert forall|j: int| 0 <= j < m.children.len() && !among(pos, j) implies #[trigger] r.children[j] == m.children[j] by {
            assert forall|k: int| 0 <= k < pos.len() implies pos[k].index as int != j by {
                if pos[k].index as int == j {
                    assert(among(pos, j));
                }
            }
        }
    }
}

/// The loop of an insertion over the octants `pos[k..]` takes the entity in at the slot of
/// each of them and leaves every other slot, and the node's set, as they were.
proof fn lemma_insert_loop_took<T: SVONode>(
    fuel: nat,
    m: NodeModel<T>,
    e: T,
    pos: Seq<NodeBoundary<T::Coord>>,
    k: int,
    list: Seq<Seq<u8>>,
)
    requires
        insert_loop(fuel, m, e, pos, k, list) is Some,
        distinct_octants(e),
        exists|b: [[T::Coord; 3]; 2]| e.spec_position(b)@ == pos,
        0 <= k,
    ensures
        ({
            let m2 = (insert_loop(fuel, m, e, pos, k, list)->0).0;
            &&& m2.entities == m.entities
            &&& m2.is_leaf == m.is_leaf
            &&& m2.children.len() == m.children.len()
            &&& forall|k2: int| k <= k2 < pos.len() ==> #[trigger] position_took(m.children, m2.children, e, pos, k2)
            &&& forall|j: int| 0 <= j < m.children.len() && (forall|k2: int| k <= k2 < pos.len() ==> pos[k2].index as int != j)
                ==> #[trigger] m2.children[j] == m.children[j]
        }),
    decreases fuel, pos.len() - k + 1,
{
    if k < pos.len() {
        let b = choose|b: [[T::Coord; 3]; 2]| e.spec_position(b)@ == pos;
        let nb = pos[k];
        let j = nb.index as int;
        let m2 = (insert_loop(fuel, m, e, pos, k, list)->0).0;
        let m1 = match m.children[j] {
            Some(c) => {
                lemma_insert_step_took(fuel, c, e, [nb.min, nb.max], list);
                let (c2, l2) = insert_step(fuel, c, e, [nb.min, nb.max], list)->0;
                let m1 = NodeModel { children: m.children.update(j, Some(c2)), ..m };
                lemma_insert_loop_took(fuel, m1, e, pos, k + 1, l2);
                m1
            },
            None => {
                let idx = m.index.push(nb.index as u8).drop_first();
                lemma_build_step_shape(fuel, fresh_model(idx, e), nb.min, nb.max, e, 0u32);
                let (c, p, d) = build_step(fuel, fresh_model(idx, e), nb.min, nb.max, e, 0u32)->0;
                let m1 = NodeModel { children: m.children.update(j, Some(c)), depth: Some(d), ..m };
                lemma_insert_loop_took(fuel, m1, e, pos, k + 1, list + p);
                m1
            },
        };
        assert forall|k2: int| k + 1 <= k2 < pos.len() implies pos[k2].index as int != j by {
            assert(e.spec_position(b)@[k].index != e.spec_position(b)@[k2].index);
        }
        assert(m2.children[j] == m1.children[j]);
        assert(position_took(m.children, m2.children, e, pos, k));
        assert forall|k2: int| k <= k2 < pos.len() implies #[trigger] position_took(m.children, m2.children, e, pos, k2) by {
            if k2 > k {
                assert(position_took(m1.children, m2.children, e, pos, k2));
                lemma_position_took_slot(m1.children, m.children, m2.children, e, pos, k2);
            }
        }
    }
}

/// An insertion along the tree (`insert_entity` ending in `Inserted`) of an entity whose
/// octants are distinct takes the entity into the root's set and passes it down: every inner
/// node that takes it hands it to the child of each octant it falls into, an existing child
/// taking it in turn, down to the leaves, and a missing child becoming a new subtree built
/// over the entity alone in the octant's box; no other child changes. The root's box is the
/// one that `if_cross` reports for the entity.
pub proof fn law_insert_entity_reaches_leaves<T: SVONode>(m: NodeModel<T>, e: T, z: T::Coord)
    requires
        spec_insert_entity(m, e, z) is Some,
        (spec_insert_entity(m, e, z)->0).1 == InsertOutcome::Inserted,
        m.bound is Some,
        distinct_octants(e),
    ensures
        took_entity(m, (spec_insert_entity(m, e, z)->0).0, e, e.spec_cross(m.bound->0).1),
{
    let b = m.bound->0;
    let list = match m.leaf_node_index {
        Some(l) => l,
        None => Seq::empty(),
    };
    let (change, bb) = e.spec_cross(b);
    assert(!change);
    let f = insert_fuel(m, e, bb, list);
    lemma_insert_step_took(f, m, e, bb, list);
    let (m2, l2) = insert_step(f, m, e, bb, list)->0;
    let r = (spec_insert_entity(m, e, z)->0).0;
    assert(r.entities == m2.entities && r.is_leaf == m2.is_leaf && r.children == m2.children);
}

/// Whether `new` is the subtree `old`, of box `bounds`, after removing entity `e` below it: a
/// leaf is kept as it is; an inner node keeps its own set and goes through the octants that
/// `e` falls into, in order: a child holding a single entity is removed and the walk stops
/// there; any other child loses the entity in the same way below it. No other child changes.
pub open spec fn lost_entity<T: SVONode>(old: NodeModel<T>, new: NodeModel<T>, e: T, bounds: [[T::Coord; 3]; 2]) -> bool
    decreases old, 1int,
{
    &&& new.entities == old.entities
    &&& new.is_leaf == old.is_leaf
    &&& if old.is_leaf {
        new.children == old.children
    } else {
        let pos = e.spec_position(bounds)@;
        &&& new.children.len() == old.children.len()
        &&& positions_lost(old.children, new.children, e, pos, 0)
        &&& forall|j: int| 0 <= j < old.children.len() && !among(pos, j) ==> #[trigger] new.children[j] == old.children[j]
    }
}

/// Whether the walk of a deletion over the octants `pos[k..]` turned the child slots `ocs`
/// into `ncs`: at the first octant whose child holds a single entity, that child is gone and
/// the later octants keep their children; before it, each child lost the entity below it.
pub open spec fn positions_lost<T: SVONode>(
    ocs: Seq<Option<NodeModel<T>>>,
    ncs: Seq<Option<NodeModel<T>>>,
    e: T,
    pos: Seq<NodeBoundary<T::Coord>>,
    k: int,
) -> bool
    decreases ocs, pos.len() - k,
{
    if k < 0 || k >= pos.len() {
        true
    } else if 0 <= pos[k].index < ocs.len() && pos[k].index < ncs.len() {
        let j = pos[k].index as int;
        match ocs[j] {
            None => false,
            Some(oc) => if oc.entities.spec_len() == 1 {
                &&& ncs[j] is None
                &&& forall|k2: int| k < k2 < pos.len() && 0 <= pos[k2].index < ocs.len() ==> #[trigger] ncs[pos[k2].index as int] == ocs[pos[k2].index as int]
            } else {
                &&& ncs[j] matches Some(nc) && lost_entity(oc, nc, e, [pos[k].min, pos[k].max])
                &&& positions_lost(ocs, ncs, e, pos, k + 1)
            },
        }
    } else {
        false
    }
}

/// `positions_lost` reads only the slots of the octants it goes through.
proof fn lemma_positions_lost_slots<T: SVONode>(
    ocs1: Seq<Option<NodeModel<T>>>,
    ocs2: Seq<Option<NodeModel<T>>>,
    ncs: Seq<Option<NodeModel<T>>>,
    e: T,
    pos: Seq<NodeBoundary<T::Coord>>,
    k: int,
)
    requires
        positions_lost(ocs1, ncs, e, pos, k),
        ocs1.len() == ocs2.len(),
        0 <= k,
        forall|k2: int| k <= k2 < pos.len() && 0 <= pos[k2].index < ocs1.len() ==> #[trigger] ocs1[pos[k2].index as int] == ocs2[pos[k2].index as int],
    ensures
        positions_lost(ocs2, ncs, e, pos, k),
    decreases pos.len() - k,
{
    if k < pos.len() {
        let j = pos[k].index as int;
        assert(ocs1[j] == ocs2[j]);
        match ocs1[j] {
            Some(oc) => if oc.entities.spec_len() != 1 {
                lemma_positions_lost_slots(ocs1, ocs2, ncs, e, pos, k + 1);
            } else {
                assert forall|k2: int| k < k2 < pos.len() && 0 <= pos[k2].index < ocs2.len() implies #[trigger] ncs[pos[k2].index as int] == ocs2[pos[k2].index as int] by {
                    assert(ocs1[pos[k2].index as int] == ocs2[pos[k2].index as int]);
                }
            },
            None => {},
        }
    }
}

/// A deletion below a subtree removes the entity along the octants it falls into.
proof fn lemma_delete_step_lost<T: SVONode>(
    fuel: nat,
    m: NodeModel<T>,
    e: T,
    bounds: [[T::Coord; 3]; 2],
    list: Seq<Seq<u8>>,
)
    requires
        delete_step(fuel, m, e, bounds, list) is Some,
        distinct_octants(e),
    ensures
        lost_entity(m, (delete_step(fuel, m, e, bounds, list)->0).0, e, bounds),
    decreases fuel, 0int,
{
    let r = (delete_step(fuel, m, e, bounds, list)->0).0;
    if !m.is_leaf {
        let pos = e.spec_position(bounds)@;
        lemma_delete_loop_lost((fuel - 1) as nat, m, e, pos, 0, list);
        let m2 = (delete_loop((fuel - 1) as nat, m, e, pos, 0, list)->0).0;
        assert(r.children == m2.children);
        assert forall|j: int| 0 <= j < m.children.len() && !among(pos, j) implies #[trigger] r.children[j] == m.children[j] by {
            assert forall|k: int| 0 <= k < pos.len() implies pos[k].index as int != j by {
                if pos[k].index as int == j {
                    assert(among(pos, j));
                }
            }
        }
    }
}

/// The walk of a deletion over the octants `pos[k..]` changes only their slots, as
/// `positions_lost` says, and keeps the node's set.
proof fn lemma_delete_loop_lost<T: SVONode>(
    fuel: nat,
    m: NodeModel<T>,
    e: T,
    pos: Seq<NodeBoundary<T::Coord>>,
    k: int,
    list: Seq<Seq<u8>>,
)
    requires
        delete_loop(fuel, m, e, pos, k, list) is Some,
        distinct_octants(e),
        exists|b: [[T::Coord; 3]; 2]| e.spec_position(b)@ == pos,
        0 <= k,
    ensures
        ({
            let m2 = (delete_loop(fuel, m, e, pos, k, list)->0).0;
            &&& m2.entities == m.entities
            &&& m2.is_leaf == m.is_leaf
            &&& m2.children.len() == m.children.len()
            &&& positions_lost(m.children, m2.children, e, pos, k)
            &&& forall|j: int| 0 <= j < m.children.len() && (forall|k2: int| k <= k2 < pos.len() ==> pos[k2].index as int != j)
                ==> #[trigger] m2.children[j] == m.children[j]
        }),
    decreases fuel, pos.len() - k + 1,
{
    if k < pos.len() {
        let b = choose|b: [[T::Coord; 3]; 2]| e.spec_position(b)@ == pos;
        let nb = pos[k];
        let j = nb.index as int;
        let m2 = (delete_loop(fuel, m, e, pos, k, list)->0).0;
        let c = m.children[j]->0;
        assert forall|k2: int| k + 1 <= k2 < pos.len() implies pos[k2].index as int != j by {
            assert(e.spec_position(b)@[k].index != e.spec_position(b)@[k2].index);
        }
        if c.entities.spec_len() == 1 {
            assert forall|k2: int| k < k2 < pos.len() && 0 <= pos[k2].index < m.children.len() implies #[trigger] m2.children[pos[k2].index as int] == m.children[pos[k2].index as int] by {
                assert(pos[k2].index as int != j);
            }
        } else {
            lemma_delete_step_lost(fuel, c, e, [nb.min, nb.max], list);
            let (c2, l2) = delete_step(fuel, c, e, [nb.min, nb.max], list)->0;
            let m1 = NodeModel { children: m.children.update(j, Some(c2)), ..m };
            lemma_delete_loop_lost(fuel, m1, e, pos, k + 1, l2);
            assert(m2.children[j] == m1.children[j]);
            lemma_positions_lost_slots(m1.children, m.children, m2.children, e, pos, k + 1);
        }
    }
}

/// A deletion that removes the entity from the root (`point_delete` ending in `Deleted`), of
/// an entity whose octants are distinct, filters the root's set and walks the tree along the
/// entity's octants: at each inner node it goes through those octants in order, removes the
/// first child that holds a single entity and stops there, and takes the entity out below
/// every child it passes before; leaves and all other children stay as they were.
pub proof fn law_point_delete_removes_along_octants<T: SVONode>(m: NodeModel<T>, e: T)
    requires
        spec_point_delete(m, e) is Some,
        (spec_point_delete(m, e)->0).1 == DeleteOutcome::Deleted,
        distinct_octants(e),
    ensures
        m.bound is Some,
        lost_entity(
            NodeModel { entities: m.entities.spec_retain(&e), ..m },
            (spec_point_delete(m, e)->0).0,
            e,
            m.bound->0,
        ),
{
    let m1 = NodeModel { entities: m.entities.spec_retain(&e), ..m };
    let b = m1.bound->0;
    let l = m1.leaf_node_index->0;
    let f = delete_fuel(m1, e, b, l);
    lemma_delete_step_lost(f, m1, e, b, l);
    let (m2, l2) = delete_step(f, m1, e, b, l)->0;
    let r = (spec_point_delete(m, e)->0).0;
    assert(r.entities == m2.entities && r.is_leaf == m2.is_leaf && r.children == m2.children);
}

} // verus!
