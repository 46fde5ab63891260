//! Shared building blocks for tile-map demos: grid geometry, autotiling,
//! field of view, pathfinding and deterministic noise over integer grids.

pub mod autotile;
pub mod camera;
pub mod fov;
pub mod geom;
pub mod glyphs;
pub mod noise;
pub mod palette;
pub mod path;
pub mod world;
