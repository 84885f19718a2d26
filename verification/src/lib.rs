//! A sparse voxel octree over signed, origin-centred coordinates, together
//! with a grid path search that feeds it and a voxel-model byte encoder that
//! reads it back out.

pub mod coord;
pub mod heap_state;
pub mod laws;
pub mod magica_voxel;
pub mod node;
pub mod octree;
pub mod pathfinding;

pub use coord::{Depth, MaskUInt, OctreeError, OctreePoint, PointData, Voxel, MAX_DEPTH};
pub use heap_state::HeapState;
pub use magica_voxel::{write_to_vox, SerializableChunk, SizeChunk, XYZIChunk, XYZI};
pub use node::OctreeNode;
pub use octree::SparseVoxelOctree;
pub use pathfinding::dijkstra;
