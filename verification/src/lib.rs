//! Voxelization of a triangle mesh into a regular grid of colored cubes.
//!
//! The library takes a finite sequence of triangles, each vertex carrying a
//! fixed-point integer position and an integer color, and produces a
//! `VoxelMap`: a dense occupancy grid paired with a compact list of occupied,
//! colored cells.  Overlap between a triangle and a candidate cell is decided
//! by an exact separating-axis test over integer arithmetic.
//!
//! A small command-console model (a registry of named accessors, mutators and
//! functions, plus a scrollback body) accompanies the geometry code.

pub mod console;
pub mod dedup;
pub mod geom;
pub mod intersect;
pub mod voxel;
