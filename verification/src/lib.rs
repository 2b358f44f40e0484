//! A 2.5D CNC stock-simulation kernel over a height field.
//!
//! The stock of material is a 2D grid of heights. A triangle mesh can be
//! rasterized into such a grid, a cutting tool moved along a toolpath carves
//! the grid monotonically downward, clearance heights that keep the tool from
//! gouging the surface can be queried, and the carved grid can be turned back
//! into a closed triangulated solid with per-vertex normals.
//!
//! All geometry is exact fixed-point arithmetic: every coordinate, height and
//! diameter is an `i64` counting ticks of `1/SCALE` world units (see
//! [`num::SCALE`]).

pub mod heightmap_from_mesh;
pub mod heightmap_to_solid_mesh;
pub mod num;
pub mod simulate_material_removal;
pub mod tool;
