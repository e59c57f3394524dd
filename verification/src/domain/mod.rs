pub mod block;
pub mod generation;
pub mod lighting;
pub mod mutation;
pub mod simulation;
pub mod targeting;
pub mod time;
pub mod world;

pub use block::{BlockDef, BlockId, BlockState, TorchMount};
pub use generation::{generate_chunk, generated_voxel, stable_hash, SurfaceHeights};
pub use world::{
    chunk_is_representable, world_to_chunk, BlockChunk, ChunkLayer, VoxelCell, VoxelLayer,
    VoxelPos,
};

use vstd::prelude::*;

verus! {

/// Number of block rows in every chunk; valid rows are `0..WORLD_HEIGHT`.
pub const WORLD_HEIGHT: i32 = 80;

/// Number of block columns in every chunk.
pub const CHUNK_WIDTH: i32 = 32;

/// Number of depth slices the generator fills, the two persistent layers among them.
pub const DEPTH_SLICES: u8 = 6;

/// Version of the terrain generator that saves record.
pub const GENERATOR_VERSION: u32 = 2;

/// Number of cells in one layer of one chunk.
pub const CHUNK_AREA: usize = 2560;

} // verus!
