//! Streaming a voxel world around a moving viewpoint.
//!
//! - `index3d`: linear offsets of three-dimensional coordinates in a box.
//! - `map_3d`, `byte_grid`: dense cubic grids built on those offsets.
//! - `displacement`: integer vectors and the ellipsoidal displacement set.
//! - `displaced_chunks`: a fixed pool of chunk slots around a moving anchor,
//!   initialized nearest first, drained of dirty slots, and recycled when
//!   the anchor moves.
//! - `octree_texture`: a sparse octree over a boolean volume in a bounded
//!   pool of octuples.
//! - `texture_layout`: where chunks live in texture memory.
//! - `standard_voxel_prefab`: a 32³ voxel model with its palette.
pub mod byte_grid;
pub mod displaced_chunks;
pub mod displacement;
pub mod index3d;
pub mod map_3d;
pub mod octree_texture;
pub mod standard_voxel_prefab;
pub mod texture_layout;
