//! Streaming and meshing core of a block world: voxel chunks on an unbounded
//! grid, the queues that decide which chunks are generated, meshed and
//! unloaded around a viewer, and the mesher that turns a chunk and its six
//! neighbours into packed quad vertices.

pub mod coord;
pub mod chunk;
pub mod blocks;
pub mod greedy;
pub mod mesher;
pub mod store;
pub mod queue;
pub mod render;
pub mod controller;
pub mod systems;
pub mod utils;
