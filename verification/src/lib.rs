//! Verified core of a voxel-world game: integer vectors, generic 2D grids,
//! behavior trees, navigation-mesh contour extraction and progress tracking.

pub mod math;
pub mod grid;
pub mod grid_ops;
pub mod grid_cache;
pub mod edt;
pub mod behavior_tree;
pub mod actions;
pub mod navmesh;
pub mod progress;
pub mod layers;
pub mod scale;
pub mod scheduling;
pub mod noise;
pub mod triangulation;
pub mod blob;
pub mod overlay;
pub mod scatter;
pub mod dev_overlay;
pub mod array_texture;
