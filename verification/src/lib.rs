//! A sparse voxel octree world: storage and queries over homogeneous cube
//! regions, Morton-order traversal, heightmap-driven terrain fill, and a
//! chunk streaming scheduler.

pub mod octree;
pub mod position;
pub mod scheduler;
pub mod terrain;
pub mod traversal;
