//! Adaptive octree traversal that decides which chunks of a voxel world to
//! generate, together with the scene description and command-line grammar
//! that drive it.

pub mod octree;
pub mod chunks;
pub mod laws;
pub mod args;
pub mod scene;
pub mod frame;
