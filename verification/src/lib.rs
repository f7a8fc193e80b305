//! A sparse voxel octree over sets of entities (points, polygon edges) in 3-D space.
//!
//! `svo_trait` holds the trait that an entity set implements and the octant records it
//! reports; `geometry` the box arithmetic that the tree uses; `svo` the tree, its
//! construction, search, insertion and deletion, with their specifications over a model of
//! the tree; `points` and `polygon` the verified geometry of point clouds and polygon edges;
//! `shape` what the tree's operations do to its structure, octant by octant; `laws` the
//! properties that hold across the tree's operations.

pub mod geometry;
pub mod laws;
pub mod points;
pub mod shape;
pub mod polygon;
pub mod svo;
pub mod svo_trait;
