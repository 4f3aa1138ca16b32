//! World dimensions shared by the generator, the server checks and the client store.

use vstd::prelude::*;

verus! {

/// Side length of a chunk, in voxels.
pub const CHUNK_SIZE: u32 = 32;

/// Number of chunks along each horizontal axis of the world.
pub const WORLD_CHUNKS: u32 = 600;

/// Number of voxels along each horizontal axis of the world.
pub const WORLD_VOXELS: u32 = 19200;

/// Voxels per world unit (a voxel is a tenth of a unit wide).
pub const VOXELS_PER_UNIT: u32 = 10;

/// Heights produced by the terrain field lie strictly below this bound.
pub const WORLD_HEIGHT_VOXELS: u32 = 480;

/// Terrain at or below this level (exclusive of the top voxel) lies under water.
pub const SEA_LEVEL_VOXELS: u32 = 140;

/// Columns at least this high have a rock surface.
pub const ROCK_LEVEL_VOXELS: u32 = 260;

/// Columns at least this high have a snow surface.
pub const SNOW_LEVEL_VOXELS: u32 = 340;

/// Depth of the grass and snow layer on top of a column.
pub const GRASS_AND_SNOW_DEPTH: u32 = 3;

/// Radius of an excavation sphere, in voxels.
pub const EXCAVATION_RADIUS_VOXELS: u32 = 8;

/// Largest horizontal distance from a tree root to any voxel of the tree.
pub const TREE_HORIZONTAL_EXTENT: u32 = 28;

/// Chunk distance beyond which no tile is streamed.
pub const RENDER_DISTANCE_CHUNKS: u32 = 160;

/// The world is as wide in voxels as its chunks laid side by side.
pub proof fn lemma_world_voxels()
    ensures
        WORLD_VOXELS == CHUNK_SIZE * WORLD_CHUNKS,
{
}

} // verus!
