# svo

A sparse voxel octree over sets of entities in 3-D space, written in Verus.

- `src/` is the verified library. `svo_trait.rs` declares `SVONode`, the trait that an
  entity set implements (bounding box, split among the eight octants, octants of one
  entity, coordinate comparison and midpoint), each method tied to a specification
  function. `svo.rs` holds the tree `SVO`, its model `NodeModel`, and the construction
  (`new_root`, `build_svo`), search (`search_bound`), insertion (`insert_entity`) and
  deletion (`point_delete`), each specified over the model. `geometry.rs`, `points.rs` and
  `polygon.rs` hold the box, point-cloud and polygon-edge geometry, generic over the
  coordinate type. `laws.rs` proves what holds across operations: level-of-detail values
  count leaves after construction and insertion, and a search selects recorded leaves only.
- `app/` holds what Verus does not check: the `f64` types `Point`, `Polygon` and `Poly` with
  their `SVONode` implementations, the random generators, and the console messages.
- `tests/` runs the library on an `f64` point cloud.
