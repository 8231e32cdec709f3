//! Greedy meshing of a dense voxel grid into rectangular surface patches.

pub mod direction;
pub mod grid;
pub mod queue;
pub mod merge;
pub mod mesh;
pub mod laws;
