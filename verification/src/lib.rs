//! Verified core of a streamed voxel world: chunk identifiers and level-of-detail
//! tile selection, quad packing, procedural terrain and vegetation meshing, the
//! client's chunk store with its collision index, and the server's request checks.

use vstd::prelude::*;

pub mod chunk;
pub mod client;
pub mod clouds;
pub mod coverage;
pub mod hashing;
pub mod layout;
pub mod plants;
pub mod quad;
pub mod regeneration;
pub mod server;
pub mod solid;
pub mod terrain;
pub mod tiles;
pub mod vegetation;
pub mod world;

verus! {

} // verus!
