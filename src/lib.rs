//! Turns triangle meshes into voxels and voxels into a partition of
//! axis-aligned cuboids.
pub mod cell;
pub mod geometry;
pub mod mesher;
pub mod pipeline;
pub mod report;
pub mod voxelizer;
