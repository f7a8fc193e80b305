use vstd::prelude::*;
use crate::svo_trait::SVONode;
use crate::svo::{
    NodeModel, build_step, build_children, build_fuel, spec_new_root, root_start,
    lod_sum, range_leaves, slot_leaves, range_consistent, slot_consistent,
    fold_deeper, deeper, fresh_model, octant_corners, insert_step, insert_loop,
    spec_insert_entity, insert_fuel, InsertOutcome, search_paths, search_step, spec_search_bound,
    spec_point_delete, DeleteOutcome, delete_step, delete_loop, delete_fuel, kept_paths,
};

verus! {

/// The depth after two runs of paths is the depth after the second run, started from the
/// depth after the first.
proof fn lemma_fold_deeper_concat(d: u32, a: Seq<Seq<u8>>, b: Seq<Seq<u8>>)
    ensures
        fold_deeper(d, a + b) == fold_deeper(fold_deeper(d, a), b),
    decreases b.len(),
{
    if b.len() == 0 {
        assert(a + b =~= a);
    } else {
        lemma_fold_deeper_concat(d, a, b.drop_last());
        assert((a + b).drop_last() =~= a + b.drop_last());
        assert((a + b).last() == b.last());
    }
}

/// The leaves of slots `i..k+1` are those of `i..k` followed by those of slot `k`.
proof fn lemma_range_leaves_split<T: SVONode>(cs: Seq<Option<NodeModel<T>>>, i: int, k: int)
    requires
        0 <= i <= k,
        k + 1 <= cs.len(),
    ensures
        range_leaves(cs, i, k + 1) == range_leaves(cs, i, k) + slot_leaves(cs, k),
    decreases k - i,
{
    if i == k {
        assert(range_leaves(cs, k + 1, k + 1) =~= Seq::<Seq<u8>>::empty());
        assert(range_leaves(cs, k, k) =~= Seq::<Seq<u8>>::empty());
        assert(range_leaves(cs, i, k + 1) =~= range_leaves(cs, i, k) + slot_leaves(cs, k));
    } else {
        lemma_range_leaves_split(cs, i + 1, k);
        assert(range_leaves(cs, i, k + 1) =~= range_leaves(cs, i, k) + slot_leaves(cs, k));
    }
}

/// Consistent slots over a range are consistent one by one.
proof fn lemma_range_consistent_slot<T: SVONode>(cs: Seq<Option<NodeModel<T>>>, i: int, n: int, j: int)
    requires
        range_consistent(cs, i, n),
        0 <= i <= j < n <= cs.len(),
    ensures
        slot_consistent(cs, j),
    decreases n - i,
{
    if i < j {
        lemma_range_consistent_slot(cs, i + 1, n, j);
    }
}

/// Over consistent children, the sum that `set_lod_info` computes is the number of leaves.
proof fn lemma_lod_sum_counts<T: SVONode>(cs: Seq<Option<NodeModel<T>>>, k: int)
    requires
        0 <= k <= 8 <= cs.len(),
        range_consistent(cs, 0, 8),
        lod_sum(cs, k) is Some,
    ensures
        lod_sum(cs, k)->0 == range_leaves(cs, 0, k).len(),
        lod_sum(cs, k) == Some(range_leaves(cs, 0, k).len() as i32),
    decreases k,
{
    if k == 0 {
        assert(range_leaves(cs, 0, 0) =~= Seq::<Seq<u8>>::empty());
    } else {
        lemma_lod_sum_prefix_some(cs, k);
        lemma_lod_sum_counts(cs, k - 1);
        lemma_range_leaves_split(cs, 0, k - 1);
        lemma_range_consistent_slot(cs, 0, 8, k - 1);
        match cs[k - 1] {
            Some(c) => {
                assert(c.lod_consistent());
                assert(c.lod_info == Some(c.leaves().len() as i32));
                assert(slot_leaves(cs, k - 1) == c.leaves());
            },
            None => {
                assert(slot_leaves(cs, k - 1) =~= Seq::<Seq<u8>>::empty());
            },
        }
    }
}

/// A defined sum has a defined sum one slot shorter.
proof fn lemma_lod_sum_prefix_some<T: SVONode>(cs: Seq<Option<NodeModel<T>>>, k: int)
    requires
        k > 0,
        lod_sum(cs, k) is Some,
    ensures
        lod_sum(cs, k - 1) is Some,
{
}

/// A build that ends leaves a consistent node whose leaves are the paths it recorded, and
/// the depth it reports is the deepest of them.
proof fn lemma_build_step<T: SVONode>(
    fuel: nat,
    m: NodeModel<T>,
    min: [T::Coord; 3],
    max: [T::Coord; 3],
    cloud: T,
    d: u32,
)
    requires
        build_step(fuel, m, min, max, cloud, d) is Some,
        !m.is_leaf || cloud.spec_if_leaf(),
        cloud.spec_if_leaf() || m.children.len() == 8,
    ensures
        ({
            let (m2, p, d2) = build_step(fuel, m, min, max, cloud, d)->0;
            &&& m2.lod_consistent()
            &&& p == m2.leaves()
            &&& d2 == fold_deeper(d, p)
            &&& m2.is_leaf == cloud.spec_if_leaf()
        }),
    decreases fuel, 9int,
{
    let (m2, p, d2) = build_step(fuel, m, min, max, cloud, d)->0;
    if cloud.spec_if_leaf() {
        assert(p.drop_last() =~= Seq::<Seq<u8>>::empty());
        assert(m2.leaves() == p);
        assert(m2.leaves().len() == 1);
        assert(m2.lod_info == Some(1i32));
        assert(m2.lod_consistent());
        assert(fold_deeper(d, p.drop_last()) == d);
        assert(fold_deeper(d, p) == deeper(d, p.last()));
    } else {
        let dist = cloud.spec_distribute([min, max])@;
        lemma_build_children(fuel, m.index, min, max, dist, 0, m.children, Seq::empty(), d);
        let (cs, paths, dd) = build_children(fuel, m.index, min, max, dist, 0, m.children, Seq::empty(), d)->0;
        assert(Seq::<Seq<u8>>::empty() + range_leaves(cs, 0, 8) =~= range_leaves(cs, 0, 8));
        lemma_lod_sum_counts(cs, 8);
    }
}

/// The loop of a build over octants `i..8` fills those slots with consistent nodes, records
/// their leaves in slot order, and reports the deepest of them.
proof fn lemma_build_children<T: SVONode>(
    fuel: nat,
    index: Seq<u8>,
    min: [T::Coord; 3],
    max: [T::Coord; 3],
    dist: Seq<T>,
    i: int,
    cs: Seq<Option<NodeModel<T>>>,
    paths: Seq<Seq<u8>>,
    d: u32,
)
    requires
        build_children(fuel, index, min, max, dist, i, cs, paths, d) is Some,
        0 <= i <= 8,
        i <= cs.len(),
    ensures
        cs.len() >= 8,
        ({
            let (cs2, paths2, d2) = build_children(fuel, index, min, max, dist, i, cs, paths, d)->0;
            &&& cs2.len() == cs.len()
            &&& forall|j: int| 0 <= j < i ==> cs2[j] == cs[j]
            &&& forall|j: int| 8 <= j < cs.len() ==> cs2[j] == cs[j]
            &&& range_consistent(cs2, i, 8)
            &&& paths2 == paths + range_leaves(cs2, i, 8)
            &&& d2 == fold_deeper(d, range_leaves(cs2, i, 8))
        }),
    decreases fuel, 8 - i,
{
    let (cs2, paths2, d2) = build_children(fuel, index, min, max, dist, i, cs, paths, d)->0;
    if i >= 8 {
        assert(range_leaves(cs2, i, 8) =~= Seq::<Seq<u8>>::empty());
        assert(paths + range_leaves(cs2, i, 8) =~= paths);
        assert(fold_deeper(d, range_leaves(cs2, i, 8)) == d);
    } else if dist[i].spec_is_empty() {
        let cs1 = cs.update(i, None);
        lemma_build_children(fuel, index, min, max, dist, i + 1, cs1, paths, d);
        assert(cs2[i] == cs1[i]);
        assert(slot_leaves(cs2, i) =~= Seq::<Seq<u8>>::empty());
        assert(slot_consistent(cs2, i));
        assert(range_consistent(cs2, i, 8));
        assert(range_leaves(cs2, i, 8) =~= range_leaves(cs2, i + 1, 8));
    } else {
        let (cmin, cmax) = octant_corners::<T>(i as usize, min, max);
        let fm = fresh_model(index.push(i as u8), dist[i]);
        lemma_build_step((fuel - 1) as nat, fm, cmin, cmax, dist[i], d);
        let (c, p, dd) = build_step((fuel - 1) as nat, fm, cmin, cmax, dist[i], d)->0;
        let cs1 = cs.update(i, Some(c));
        lemma_build_children(fuel, index, min, max, dist, i + 1, cs1, paths + p, dd);
        assert(cs2[i] == Some(c));
        assert(slot_leaves(cs2, i) == p);
        assert(slot_consistent(cs2, i));
        assert(range_leaves(cs2, i, 8) == p + range_leaves(cs2, i + 1, 8));
        assert(paths2 =~= paths + range_leaves(cs2, i, 8));
        lemma_fold_deeper_concat(d, p, range_leaves(cs2, i + 1, 8));
    }
}

/// A tree that `new_root` builds counts its leaves: the level-of-detail value of every node
/// reached through inner nodes is the number of leaves below it; the recorded leaf paths are
/// the tree's leaves, depth first, so the root's value is their number; and the recorded depth
/// is the length of the longest of them.
pub proof fn law_new_root_counts_leaves<T: SVONode>(entities: T)
    requires
        spec_new_root(entities) is Some,
    ensures
        ({
            let r = spec_new_root(entities)->0;
            &&& r.lod_consistent()
            &&& r.leaf_node_index == Some(r.leaves())
            &&& r.lod_info == Some(r.leaves().len() as i32)
            &&& r.depth == Some(fold_deeper(0, r.leaves()))
        }),
{
    let b = entities.spec_bounds();
    let m0 = root_start(entities);
    let f = build_fuel(m0, b[0], b[1], entities, 0u32);
    lemma_build_step(f, m0, b[0], b[1], entities, 0u32);
    let (m, p, d) = build_step(f, m0, b[0], b[1], entities, 0u32)->0;
    let m1 = NodeModel { leaf_node_index: Some(p), depth: Some(d), ..m };
    assert(m1.leaves() == m.leaves());
    if !m1.is_leaf {
        lemma_lod_sum_counts(m1.children, 8);
    }
    let r = spec_new_root(entities)->0;
    assert(r.leaves() == m.leaves());
}

/// Replacing the node in slot `j` changes the leaves of a range of slots by the difference
/// of the two nodes' leaves, and keeps the range consistent when the new node is.
proof fn lemma_range_update<T: SVONode>(
    cs: Seq<Option<NodeModel<T>>>,
    i: int,
    n: int,
    j: int,
    x: Option<NodeModel<T>>,
)
    requires
        0 <= i <= n <= cs.len(),
        0 <= j < cs.len(),
    ensures
        range_leaves(cs.update(j, x), i, n).len() == range_leaves(cs, i, n).len() + (if i <= j < n {
            slot_leaves(cs.update(j, x), j).len() - slot_leaves(cs, j).len()
        } else {
            0
        }),
        range_consistent(cs, i, n) && slot_consistent(cs.update(j, x), j) ==> range_consistent(cs.update(j, x), i, n),
    decreases n - i,
{
    if i < n {
        lemma_range_update(cs, i + 1, n, j, x);
        if i != j {
            assert(slot_leaves(cs.update(j, x), i) == slot_leaves(cs, i));
            assert(slot_consistent(cs.update(j, x), i) == slot_consistent(cs, i));
        }
    }
}

/// `insert` keeps a consistent node consistent, and the leaves it adds below the node are
/// the paths it appends to the list.
proof fn lemma_insert_step<T: SVONode>(
    fuel: nat,
    m: NodeModel<T>,
    e: T,
    bounds: [[T::Coord; 3]; 2],
    list: Seq<Seq<u8>>,
)
    requires
        insert_step(fuel, m, e, bounds, list) is Some,
        m.lod_consistent(),
    ensures
        ({
            let (m2, l2) = insert_step(fuel, m, e, bounds, list)->0;
            &&& m2.lod_consistent()
            &&& l2.len() + m.leaves().len() == list.len() + m2.leaves().len()
        }),
    decreases fuel, 0int,
{
    let m1 = NodeModel { entities: m.entities.spec_push(e), ..m };
    assert(m1.leaves() == m.leaves());
    if !m1.is_leaf {
        lemma_insert_loop((fuel - 1) as nat, m1, e, e.spec_position(bounds)@, 0, list);
        let (m2, l2) = insert_loop((fuel - 1) as nat, m1, e, e.spec_position(bounds)@, 0, list)->0;
        lemma_lod_sum_counts(m2.children, 8);
    }
}

/// The loop of `insert` keeps the child slots consistent and adds to their leaves what it
/// appends to the list.
proof fn lemma_insert_loop<T: SVONode>(
    fuel: nat,
    m: NodeModel<T>,
    e: T,
    b: Seq<crate::svo_trait::NodeBoundary<T::Coord>>,
    k: int,
    list: Seq<Seq<u8>>,
)
    requires
        insert_loop(fuel, m, e, b, k, list) is Some,
        !m.is_leaf,
        m.children.len() == 8,
        range_consistent(m.children, 0, 8),
    ensures
        ({
            let (m2, l2) = insert_loop(fuel, m, e, b, k, list)->0;
            &&& !m2.is_leaf
            &&& m2.children.len() == 8
            &&& range_consistent(m2.children, 0, 8)
            &&& m2.index == m.index
            &&& l2.len() + range_leaves(m.children, 0, 8).len() == list.len() + range_leaves(m2.children, 0, 8).len()
        }),
    decreases fuel, b.len() - k + 1,
{
    if 0 <= k < b.len() {
        let nb = b[k];
        let j = nb.index as int;
        match m.children[j] {
            Some(c) => {
                lemma_range_consistent_slot(m.children, 0, 8, j);
                lemma_insert_step(fuel, c, e, [nb.min, nb.max], list);
                let (c2, l2) = insert_step(fuel, c, e, [nb.min, nb.max], list)->0;
                let m1 = NodeModel { children: m.children.update(j, Some(c2)), ..m };
                lemma_range_update(m.children, 0, 8, j, Some(c2));
                lemma_insert_loop(fuel, m1, e, b, k + 1, l2);
            },
            None => {
                let idx = m.index.push(nb.index as u8).drop_first();
                let fm = fresh_model(idx, e);
                lemma_build_step(fuel, fm, nb.min, nb.max, e, 0u32);
                let (c, p, d) = build_step(fuel, fm, nb.min, nb.max, e, 0u32)->0;
                let m1 = NodeModel { children: m.children.update(j, Some(c)), depth: Some(d), ..m };
                lemma_range_update(m.children, 0, 8, j, Some(c));
                lemma_insert_loop(fuel, m1, e, b, k + 1, list + p);
            },
        }
    }
}

/// `insert_entity` keeps the leaf count of a tree: in a tree whose level-of-detail values
/// count its leaves and whose recorded leaf paths are as many as its leaves, the same holds
/// after the insertion. (It does not hold where a root that is a leaf is rebuilt over entities
/// that do not fit in one leaf into more than one leaf: the root stays marked as a leaf.)
pub proof fn law_insert_entity_counts_leaves<T: SVONode>(m: NodeModel<T>, e: T, z: T::Coord)
    requires
        m.lod_consistent(),
        m.leaf_node_index matches Some(l) && l.len() == m.leaves().len(),
        spec_insert_entity(m, e, z) is Some,
        !(m.is_leaf && spec_insert_entity(m, e, z).unwrap().1 == InsertOutcome::Rebuilt
            && !m.entities.spec_push(e).spec_if_leaf()
            && spec_insert_entity(m, e, z).unwrap().0.leaf_node_index->0.len() != 1),
    ensures
        ({
            let m2 = spec_insert_entity(m, e, z).unwrap().0;
            &&& m2.lod_consistent()
            &&& m2.leaf_node_index matches Some(l2) && l2.len() == m2.leaves().len()
            &&& m2.lod_info == Some(m2.leaves().len() as i32)
        }),
{
    if !m.entities.spec_contain(&e) {
        let (change, bb) = match m.bound {
            Some(b) => e.spec_cross(b),
            None => (false, [[z, z, z], [z, z, z]]),
        };
        let list = m.leaf_node_index->0;
        if change {
            let m1 = NodeModel { bound: Some(bb), ..m };
            let cloud = m.entities.spec_push(e);
            let f = build_fuel(m1, bb[0], bb[1], cloud, 0u32);
            if !m1.is_leaf || cloud.spec_if_leaf() {
                lemma_build_step(f, m1, bb[0], bb[1], cloud, 0u32);
            }
            let (m2, p, d) = build_step(f, m1, bb[0], bb[1], cloud, 0u32)->0;
            let m3 = NodeModel { leaf_node_index: Some(p), depth: Some(d), ..m2 };
            assert(m3.leaves() == m2.leaves());
        } else {
            let f = insert_fuel(m, e, bb, list);
            lemma_insert_step(f, m, e, bb, list);
            let (m2, l2) = insert_step(f, m, e, bb, list)->0;
            let m3 = NodeModel { leaf_node_index: Some(l2), ..m2 };
            assert(m3.leaves() == m2.leaves());
        }
    }
}

/// The search over a list keeps exactly the paths whose walk selects a leaf, in order.
proof fn lemma_search_paths_filter<T: SVONode>(
    m: NodeModel<T>,
    paths: Seq<Seq<u8>>,
    bounds: [[T::Coord; 3]; 2],
    min: [T::Coord; 3],
    max: [T::Coord; 3],
)
    requires
        search_paths(m, paths, bounds, min, max) is Some,
    ensures
        search_paths(m, paths, bounds, min, max)->0 == paths.filter(
            |p: Seq<u8>| search_step(m, p, bounds, min, max) == Some(true),
        ),
    decreases paths.len(),
{
    reveal(Seq::filter);
    if paths.len() > 0 {
        lemma_search_paths_filter(m, paths.drop_last(), bounds, min, max);
    }
}

/// `search_bound` selects recorded leaf paths only, in their recorded order: its answer is
/// the recorded list filtered by the walk down each path, so every selected path is a
/// recorded one. A query box that misses the root's box selects nothing.
pub proof fn law_search_selects_recorded<T: SVONode>(m: NodeModel<T>, bounds: [[T::Coord; 3]; 2])
    requires
        spec_search_bound(m, bounds) is Some,
    ensures
        ({
            let b = m.bound->0;
            let paths = match m.leaf_node_index {
                Some(l) => l,
                None => Seq::empty(),
            };
            match spec_search_bound(m, bounds)->0 {
                None => !crate::geometry::spec_intersect::<T>(b[0], b[1], bounds),
                Some(s) => {
                    &&& s == paths.filter(|p: Seq<u8>| search_step(m, p, bounds, b[0], b[1]) == Some(true))
                    &&& forall|i: int| 0 <= i < s.len() ==> paths.contains(#[trigger] s[i])
                },
            }
        }),
{
    let b = m.bound->0;
    let paths = match m.leaf_node_index {
        Some(l) => l,
        None => Seq::empty(),
    };
    if crate::geometry::spec_intersect::<T>(b[0], b[1], bounds) {
        lemma_search_paths_filter(m, paths, bounds, b[0], b[1]);
        let pred = |p: Seq<u8>| search_step(m, p, bounds, b[0], b[1]) == Some(true);
        let s = paths.filter(pred);
        assert forall|i: int| 0 <= i < s.len() implies paths.contains(#[trigger] s[i]) by {
            assert(s.contains(s[i]));
            paths.lemma_filter_contains_rev(pred, s[i]);
        }
    }
}

/// Inserting an entity that the root already holds changes nothing.
pub proof fn law_insert_existing_is_noop<T: SVONode>(m: NodeModel<T>, e: T, z: T::Coord)
    requires
        m.entities.spec_contain(&e),
    ensures
        spec_insert_entity(m, e, z) == Some((m, InsertOutcome::AlreadyExists)),
{
}

/// Deleting an entity that filtering does not find at the root changes only the root's
/// entity set, to the filtered one, and nothing below it.
pub proof fn law_delete_missing_touches_root_only<T: SVONode>(m: NodeModel<T>, e: T)
    requires
        m.entities.spec_retain(&e).spec_len() == m.entities.spec_len(),
    ensures
        spec_point_delete(m, e) == Some((NodeModel { entities: m.entities.spec_retain(&e), ..m }, DeleteOutcome::Missing)),
{
}

/// `insert` only appends to the list of leaf paths.
proof fn lemma_insert_step_appends<T: SVONode>(
    fuel: nat,
    m: NodeModel<T>,
    e: T,
    bounds: [[T::Coord; 3]; 2],
    list: Seq<Seq<u8>>,
)
    requires
        insert_step(fuel, m, e, bounds, list) is Some,
    ensures
        list.is_prefix_of(insert_step(fuel, m, e, bounds, list).unwrap().1),
    decreases fuel, 0int,
{
    let m1 = NodeModel { entities: m.entities.spec_push(e), ..m };
    if m1.is_leaf {
        assert(list.is_prefix_of(list));
    } else {
        lemma_insert_loop_appends((fuel - 1) as nat, m1, e, e.spec_position(bounds)@, 0, list);
    }
}

/// The loop of `insert` only appends to the list of leaf paths.
proof fn lemma_insert_loop_appends<T: SVONode>(
    fuel: nat,
    m: NodeModel<T>,
    e: T,
    b: Seq<crate::svo_trait::NodeBoundary<T::Coord>>,
    k: int,
    list: Seq<Seq<u8>>,
)
    requires
        insert_loop(fuel, m, e, b, k, list) is Some,
    ensures
        list.is_prefix_of(insert_loop(fuel, m, e, b, k, list).unwrap().1),
    decreases fuel, b.len() - k + 1,
{
    if 0 <= k < b.len() {
        let nb = b[k];
        let j = nb.index as int;
        match m.children[j] {
            Some(c) => {
                lemma_insert_step_appends(fuel, c, e, [nb.min, nb.max], list);
                let (c2, l2) = insert_step(fuel, c, e, [nb.min, nb.max], list)->0;
                let m1 = NodeModel { children: m.children.update(j, Some(c2)), ..m };
                lemma_insert_loop_appends(fuel, m1, e, b, k + 1, l2);
            },
            None => {
                let idx = m.index.push(nb.index as u8).drop_first();
                let (c, p, d) = build_step(fuel, fresh_model(idx, e), nb.min, nb.max, e, 0u32)->0;
                let m1 = NodeModel { children: m.children.update(j, Some(c)), depth: Some(d), ..m };
                lemma_insert_loop_appends(fuel, m1, e, b, k + 1, list + p);
                assert(list.is_prefix_of(list + p));
            },
        }
    } else {
        assert(list.is_prefix_of(list));
    }
}

/// An insertion along the tree only appends leaf paths: the paths recorded before stay at the
/// head of the list, in their order.
pub proof fn law_insert_appends_paths<T: SVONode>(m: NodeModel<T>, e: T, z: T::Coord)
    requires
        spec_insert_entity(m, e, z) matches Some((_, outcome)) && outcome == InsertOutcome::Inserted,
    ensures
        ({
            let before = match m.leaf_node_index {
                Some(l) => l,
                None => Seq::empty(),
            };
            before.is_prefix_of(spec_insert_entity(m, e, z).unwrap().0.leaf_node_index->0)
        }),
{
    let (change, bb) = match m.bound {
        Some(b) => e.spec_cross(b),
        None => (false, [[z, z, z], [z, z, z]]),
    };
    let list = match m.leaf_node_index {
        Some(l) => l,
        None => Seq::empty(),
    };
    lemma_insert_step_appends(insert_fuel(m, e, bb, list), m, e, bb, list);
}

/// `delete` only drops paths from the list of leaf paths.
proof fn lemma_delete_step_drops<T: SVONode>(
    fuel: nat,
    m: NodeModel<T>,
    e: T,
    bounds: [[T::Coord; 3]; 2],
    list: Seq<Seq<u8>>,
)
    requires
        delete_step(fuel, m, e, bounds, list) is Some,
    ensures
        forall|p: Seq<u8>| #[trigger] delete_step(fuel, m, e, bounds, list).unwrap().1.contains(p) ==> list.contains(p),
    decreases fuel, 0int,
{
    if !m.is_leaf {
        lemma_delete_loop_drops((fuel - 1) as nat, m, e, e.spec_position(bounds)@, 0, list);
    }
}

/// The loop of `delete` only drops paths from the list of leaf paths.
proof fn lemma_delete_loop_drops<T: SVONode>(
    fuel: nat,
    m: NodeModel<T>,
    e: T,
    b: Seq<crate::svo_trait::NodeBoundary<T::Coord>>,
    k: int,
    list: Seq<Seq<u8>>,
)
    requires
        delete_loop(fuel, m, e, b, k, list) is Some,
    ensures
        forall|p: Seq<u8>| #[trigger] delete_loop(fuel, m, e, b, k, list).unwrap().1.contains(p) ==> list.contains(p),
    decreases fuel, b.len() - k + 1,
{
    if 0 <= k < b.len() {
        let nb = b[k];
        let j = nb.index as int;
        let c = m.children[j]->0;
        if c.entities.spec_len() == 1 {
            let pred = |p: Seq<u8>| !crate::svo::paths_agree(p, c.index);
            assert forall|p: Seq<u8>| #[trigger] kept_paths(list, c.index).contains(p) implies list.contains(p) by {
                list.lemma_filter_contains_rev(pred, p);
            }
        } else {
            lemma_delete_step_drops(fuel, c, e, [nb.min, nb.max], list);
            let (c2, l2) = delete_step(fuel, c, e, [nb.min, nb.max], list)->0;
            let m1 = NodeModel { children: m.children.update(j, Some(c2)), ..m };
            lemma_delete_loop_drops(fuel, m1, e, b, k + 1, l2);
        }
    }
}

/// A deletion only drops leaf paths: every path recorded after it was recorded before.
pub proof fn law_delete_drops_paths<T: SVONode>(m: NodeModel<T>, e: T)
    requires
        spec_point_delete(m, e) is Some,
    ensures
        ({
            let m2 = spec_point_delete(m, e).unwrap().0;
            let before = match m.leaf_node_index {
                Some(l) => l,
                None => Seq::empty(),
            };
            m2.leaf_node_index is Some ==> forall|p: Seq<u8>| #[trigger] m2.leaf_node_index->0.contains(p) ==> before.contains(p)
        }),
{
    let m1 = NodeModel { entities: m.entities.spec_retain(&e), ..m };
    if m.entities.spec_len() != m1.entities.spec_len() && m1.entities.spec_len() != 0 {
        let b = m1.bound->0;
        let l = m1.leaf_node_index->0;
        lemma_delete_step_drops(delete_fuel(m1, e, b, l), m1, e, b, l);
    }
}

} // verus!
