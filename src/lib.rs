//! Integer skeleton of a Monte-Carlo path tracer: image tiling and tile
//! assembly, object identifiers, and the index structure of the bounding
//! volume hierarchy, each with a machine-checked contract.

pub mod accel;
pub mod bvh;
pub mod progress;
pub mod render;
pub mod tiles;
