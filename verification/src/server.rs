//! The server's checks on what clients ask of it: chunk ids, requests for streamed
//! patches, and excavations; and the rows it keeps of chunks and excavations.

use vstd::prelude::*;
use crate::layout::{
    CHUNK_SIZE, EXCAVATION_RADIUS_VOXELS, RENDER_DISTANCE_CHUNKS, TREE_HORIZONTAL_EXTENT, WORLD_CHUNKS,
    WORLD_VOXELS,
};
use crate::tiles::{
    PATCH_FORMAT_FLAG, lod_of_code, range_distance, distance_to_range, coordinate_in_range, decode_spec,
    chunk_id_of, valid_lod, lemma_decode_chunk_id,
};
use crate::terrain::{ExcavationSphere, MAX_MESH_HEIGHT_VOXELS, WorldGenerator, HeightGrid};
use crate::solid::{solid_spec, holds_tree_window};
use crate::chunk::GeneratedChunk;
use crate::quad::{flatten_quads, flatten_spec};

verus! {

/// The revision a chunk row gets when it is generated; rows at or above it are
/// current.
pub const CHUNK_GENERATION_VERSION: u64 = 0x1_0000_0000;

/// Most chunk ids a request may hold.
pub const MAX_CHUNKS_PER_REQUEST: usize = 64;

/// Chunks beyond the render distance that a request may still reach, for the
/// stream cell the client streams around.
pub const STREAM_CELL_MARGIN_CHUNKS: i64 = 16;

/// Why a chunk id is refused.
#[derive(Clone, Copy, PartialEq, Eq, Structural, Debug)]
pub enum ChunkIdError {
    /// High bits set, or the patch format flag missing.
    Malformed,
    /// A level-of-detail code other than the five levels.
    InvalidLod,
    /// A chunk coordinate past the world's edge.
    OutsideWorld,
    /// A patch whose chunk coordinates are not multiples of its level.
    Misaligned,
}

impl ChunkIdError {
    /// The text of the message the server answers with.
    pub open spec fn message_spec(self) -> Seq<char> {
        match self {
            ChunkIdError::Malformed => "invalid chunk id"@,
            ChunkIdError::InvalidLod => "invalid chunk lod"@,
            ChunkIdError::OutsideWorld => "chunk is outside the world"@,
            ChunkIdError::Misaligned => "chunk patch is not aligned to its lod"@,
        }
    }

    /// The message the server answers with.
    pub fn message(&self) -> (text: &'static str)
        ensures
            text@ == self.message_spec(),
    {
        match self {
            ChunkIdError::Malformed => "invalid chunk id",
            ChunkIdError::InvalidLod => "invalid chunk lod",
            ChunkIdError::OutsideWorld => "chunk is outside the world",
            ChunkIdError::Misaligned => "chunk patch is not aligned to its lod",
        }
    }
}

/// What the server makes of a chunk id: the patch's chunk coordinates and level,
/// or why it refuses the id.
pub open spec fn server_decode_spec(id: u64) -> Result<(u32, u32, u8), ChunkIdError> {
    if (id >> 24u64) != 0 || id & PATCH_FORMAT_FLAG == 0 {
        Err(ChunkIdError::Malformed)
    } else {
        match lod_of_code((id >> 20u64) & 7) {
            None => Err(ChunkIdError::InvalidLod),
            Some(lod) => {
                let x = (id & 1023) as u32;
                let z = ((id >> 10u64) & 1023) as u32;
                if x >= WORLD_CHUNKS || z >= WORLD_CHUNKS {
                    Err(ChunkIdError::OutsideWorld)
                } else if x % (lod as u32) != 0 || z % (lod as u32) != 0 {
                    Err(ChunkIdError::Misaligned)
                } else {
                    Ok((x, z, lod))
                }
            },
        }
    }
}

/// Decodes a chunk id as the server accepts it: well formed, with one of the five
/// levels, inside the world, and aligned to its level.
pub fn decode_chunk_id(id: u64) -> (decoded: Result<(u32, u32, u8), ChunkIdError>)
    ensures
        decoded == server_decode_spec(id),
{
    if (id >> 24) != 0 || id & PATCH_FORMAT_FLAG == 0 {
        return Err(ChunkIdError::Malformed);
    }
    let chunk_x = (id & 0x3ff) as u32;
    let chunk_z = ((id >> 10) & 0x3ff) as u32;
    let code = (id >> 20) & 7;
    let lod: u8 = if code == 0 {
        1
    } else if code == 1 {
        2
    } else if code == 2 {
        4
    } else if code == 3 {
        8
    } else if code == 4 {
        16
    } else {
        return Err(ChunkIdError::InvalidLod);
    };
    if chunk_x >= WORLD_CHUNKS || chunk_z >= WORLD_CHUNKS {
        return Err(ChunkIdError::OutsideWorld);
    }
    if chunk_x % lod as u32 != 0 || chunk_z % lod as u32 != 0 {
        return Err(ChunkIdError::Misaligned);
    }
    Ok((chunk_x, chunk_z, lod))
}

/// The server accepts exactly the ids that the client names for aligned patches
/// inside the world, and decodes them to the patch they name.
pub proof fn lemma_server_decode(id: u64)
    ensures
        server_decode_spec(id) is Ok <==> decode_spec(id) is Some && ({
            let (x, z, lod) = decode_spec(id).unwrap();
            x < WORLD_CHUNKS && z < WORLD_CHUNKS && x % (lod as u32) == 0 && z % (lod as u32) == 0
        }),
        server_decode_spec(id) is Ok ==> decode_spec(id) == Some(server_decode_spec(id)->Ok_0),
{
}

/// The server decodes the id of an aligned patch inside the world to that patch.
pub proof fn lemma_server_accepts_patch(x: u32, z: u32, lod: u8)
    requires
        valid_lod(lod),
        x < WORLD_CHUNKS,
        z < WORLD_CHUNKS,
        x % (lod as u32) == 0,
        z % (lod as u32) == 0,
    ensures
        server_decode_spec(chunk_id_of(x, z, lod)) == Ok::<(u32, u32, u8), ChunkIdError>((x, z, lod)),
{
    lemma_decode_chunk_id(x, z, lod);
}

/// Why a request for chunks is refused.
#[derive(Clone, Copy, PartialEq, Eq, Structural, Debug)]
pub enum RequestError {
    /// No chunk ids, or more than a request may hold.
    BadCount,
    /// A chunk id that the server refuses.
    BadChunk(ChunkIdError),
    /// A patch farther from the player than the stream radius.
    OutOfRange,
}

impl RequestError {
    /// The text of the message the server answers with.
    pub open spec fn message_spec(self) -> Seq<char> {
        match self {
            RequestError::BadCount => "request must contain between 1 and 64 chunks"@,
            RequestError::BadChunk(e) => e.message_spec(),
            RequestError::OutOfRange => "requested chunk is outside the player's stream radius"@,
        }
    }

    /// The message the server answers with.
    pub fn message(&self) -> (text: &'static str)
        ensures
            text@ == self.message_spec(),
    {
        match self {
            RequestError::BadCount => "request must contain between 1 and 64 chunks",
            RequestError::BadChunk(e) => e.message(),
            RequestError::OutOfRange => "requested chunk is outside the player's stream radius",
        }
    }
}

/// A patch that a request asks the server to generate.
#[derive(Clone, Copy, PartialEq, Eq, Structural, Debug)]
pub struct PatchRequest {
    pub id: u64,
    pub chunk_x: u32,
    pub chunk_z: u32,
    pub lod: u8,
}

/// The first chunk past a patch along one axis: `lod` chunks on, but not past the
/// world's edge.
pub open spec fn patch_limit(start: u32, lod: u8) -> int {
    if start + lod < WORLD_CHUNKS {
        start + lod
    } else {
        WORLD_CHUNKS as int
    }
}

/// The distance in chunks from the player's chunk to a patch: the larger of the
/// distances along x and z to the patch's range of chunks.
pub open spec fn patch_distance(player_x: i64, player_z: i64, chunk_x: u32, chunk_z: u32, lod: u8) -> int {
    let dx = range_distance(player_x as int, chunk_x as int, patch_limit(chunk_x, lod));
    let dz = range_distance(player_z as int, chunk_z as int, patch_limit(chunk_z, lod));
    if dx >= dz {
        dx
    } else {
        dz
    }
}

/// Whether chunk id `i` of a request needs no work: its row is already current, or
/// an earlier id of the request is the same.
pub open spec fn already_current(ids: Seq<u64>, revisions: Seq<Option<u64>>, i: int) -> bool {
    (revisions[i] matches Some(r) && r >= CHUNK_GENERATION_VERSION) || exists|j: int|
        0 <= j < i && ids[j] == ids[i]
}

/// The patches that ids `i..` of a request ask for, in order, or the first refusal
/// among the ids that need work.
pub open spec fn plan_from(
    ids: Seq<u64>,
    revisions: Seq<Option<u64>>,
    player_x: i64,
    player_z: i64,
    i: int,
) -> Result<Seq<PatchRequest>, RequestError>
    decreases ids.len() - i,
{
    if i >= ids.len() || i < 0 {
        Ok(Seq::empty())
    } else if already_current(ids, revisions, i) {
        plan_from(ids, revisions, player_x, player_z, i + 1)
    } else {
        match server_decode_spec(ids[i]) {
            Err(e) => Err(RequestError::BadChunk(e)),
            Ok((x, z, lod)) => if patch_distance(player_x, player_z, x, z, lod) > RENDER_DISTANCE_CHUNKS
                + STREAM_CELL_MARGIN_CHUNKS {
                Err(RequestError::OutOfRange)
            } else {
                match plan_from(ids, revisions, player_x, player_z, i + 1) {
                    Ok(rest) => Ok(seq![PatchRequest { id: ids[i], chunk_x: x, chunk_z: z, lod }] + rest),
                    Err(e) => Err(e),
                }
            },
        }
    }
}

/// What a request for chunks comes to: between one and the most chunk ids a
/// request may hold, each needing work well formed and within the stream radius
/// of the player's chunk; then the patches to generate.
pub open spec fn plan_spec(
    ids: Seq<u64>,
    revisions: Seq<Option<u64>>,
    player_x: i64,
    player_z: i64,
) -> Result<Seq<PatchRequest>, RequestError> {
    if ids.len() == 0 || ids.len() > MAX_CHUNKS_PER_REQUEST {
        Err(RequestError::BadCount)
    } else {
        plan_from(ids, revisions, player_x, player_z, 0)
    }
}

/// Whether `p` is what id `k` of a request asks for: the id needs work, the
/// server accepts it, and the patch lies within the stream radius.
pub open spec fn plans_id(
    ids: Seq<u64>,
    revisions: Seq<Option<u64>>,
    player_x: i64,
    player_z: i64,
    k: int,
    p: PatchRequest,
) -> bool {
    &&& 0 <= k < ids.len()
    &&& !already_current(ids, revisions, k)
    &&& p.id == ids[k]
    &&& server_decode_spec(p.id) == Ok::<(u32, u32, u8), ChunkIdError>((p.chunk_x, p.chunk_z, p.lod))
    &&& patch_distance(player_x, player_z, p.chunk_x, p.chunk_z, p.lod) <= RENDER_DISTANCE_CHUNKS
        + STREAM_CELL_MARGIN_CHUNKS
}

/// The ids of a list of patch requests.
pub open spec fn patch_ids(ps: Seq<PatchRequest>) -> Seq<u64> {
    ps.map_values(|p: PatchRequest| p.id)
}

/// Whether each patch of `ps` is what some id of the request from `from` on asks
/// for, and no id comes twice.
pub open spec fn planned_from(
    ids: Seq<u64>,
    revisions: Seq<Option<u64>>,
    player_x: i64,
    player_z: i64,
    from: int,
    ps: Seq<PatchRequest>,
) -> bool {
    &&& forall|a: int| 0 <= a < ps.len() ==> #[trigger] planned_by(ids, revisions, player_x, player_z, from, ps[a])
    &&& patch_ids(ps).no_duplicates()
}

/// Whether `p` is what some id of the request from `from` on asks for.
pub open spec fn planned_by(
    ids: Seq<u64>,
    revisions: Seq<Option<u64>>,
    player_x: i64,
    player_z: i64,
    from: int,
    p: PatchRequest,
) -> bool {
    exists|k: int| from <= k && #[trigger] plans_id(ids, revisions, player_x, player_z, k, p)
}

proof fn lemma_plan_from(ids: Seq<u64>, revisions: Seq<Option<u64>>, player_x: i64, player_z: i64, i: int)
    requires
        0 <= i,
        plan_from(ids, revisions, player_x, player_z, i) is Ok,
    ensures
        planned_from(ids, revisions, player_x, player_z, i, plan_from(ids, revisions, player_x, player_z, i)->Ok_0),
    decreases ids.len() - i,
{
    let ps = plan_from(ids, revisions, player_x, player_z, i)->Ok_0;
    if i < ids.len() {
        lemma_plan_from(ids, revisions, player_x, player_z, i + 1);
        let rest = plan_from(ids, revisions, player_x, player_z, i + 1)->Ok_0;
        assert(planned_from(ids, revisions, player_x, player_z, i + 1, rest));
        if !already_current(ids, revisions, i) {
            let (x, z, lod) = server_decode_spec(ids[i])->Ok_0;
            let head = PatchRequest { id: ids[i], chunk_x: x, chunk_z: z, lod };
            assert(ps == seq![head] + rest);
            assert(plans_id(ids, revisions, player_x, player_z, i, head));
            assert forall|a: int| 0 <= a < ps.len() implies #[trigger] planned_by(
                ids,
                revisions,
                player_x,
                player_z,
                i,
                ps[a],
            ) by {
                if a == 0 {
                    assert(plans_id(ids, revisions, player_x, player_z, i, ps[a]));
                } else {
                    assert(ps[a] == rest[a - 1]);
                    assert(planned_by(ids, revisions, player_x, player_z, i + 1, rest[a - 1]));
                    let k = choose|k: int| i + 1 <= k && #[trigger] plans_id(ids, revisions, player_x, player_z, k, rest[a - 1]);
                    assert(plans_id(ids, revisions, player_x, player_z, k, ps[a]));
                }
            }
            let names = patch_ids(ps);
            let rest_names = patch_ids(rest);
            assert forall|a: int, b: int| 0 <= a < names.len() && 0 <= b < names.len() && a != b implies names[a]
                != names[b] by {
                if a > 0 && b > 0 {
                    assert(names[a] == rest_names[a - 1]);
                    assert(names[b] == rest_names[b - 1]);
                } else {
                    let c = if a == 0 { b } else { a };
                    assert(ps[c] == rest[c - 1]);
                    assert(planned_by(ids, revisions, player_x, player_z, i + 1, rest[c - 1]));
                    let k = choose|k: int| i + 1 <= k && #[trigger] plans_id(ids, revisions, player_x, player_z, k, rest[c - 1]);
                    assert(ids[i] != ids[k]);
                }
            }
            assert(names.no_duplicates());
            assert(planned_from(ids, revisions, player_x, player_z, i, ps));
        } else {
            assert(ps == rest);
            assert forall|a: int| 0 <= a < ps.len() implies #[trigger] planned_by(
                ids,
                revisions,
                player_x,
                player_z,
                i,
                ps[a],
            ) by {
                assert(planned_by(ids, revisions, player_x, player_z, i + 1, rest[a]));
                let k = choose|k: int| i + 1 <= k && #[trigger] plans_id(ids, revisions, player_x, player_z, k, rest[a]);
                assert(plans_id(ids, revisions, player_x, player_z, k, ps[a]));
            }
            assert(planned_from(ids, revisions, player_x, player_z, i, ps));
        }
    } else {
        assert(ps.len() == 0);
        assert(patch_ids(ps) =~= Seq::<u64>::empty());
        assert(planned_from(ids, revisions, player_x, player_z, i, ps));
    }
}

/// Every patch that a request plans is what one of its ids asks for: an id that
/// needs work, that the server accepts, for a patch within the stream radius; and
/// no id is planned twice.
pub proof fn lemma_plan_patches(ids: Seq<u64>, revisions: Seq<Option<u64>>, player_x: i64, player_z: i64)
    requires
        plan_spec(ids, revisions, player_x, player_z) is Ok,
    ensures
        planned_from(ids, revisions, player_x, player_z, 0, plan_spec(ids, revisions, player_x, player_z)->Ok_0),
{
    lemma_plan_from(ids, revisions, player_x, player_z, 0);
}

/// `acc` followed by the plan of the remaining ids.
pub open spec fn prepend_plan(
    acc: Seq<PatchRequest>,
    rest: Result<Seq<PatchRequest>, RequestError>,
) -> Result<Seq<PatchRequest>, RequestError> {
    match rest {
        Ok(r) => Ok(acc + r),
        Err(e) => Err(e),
    }
}

fn seen_before(ids: &Vec<u64>, i: usize) -> (seen: bool)
    requires
        i < ids.len(),
    ensures
        seen == exists|j: int| 0 <= j < i && ids@[j] == ids@[i as int],
{
    let mut j: usize = 0;
    while j < i
        invariant
            i < ids.len(),
            j <= i,
            forall|k: int| 0 <= k < j ==> ids@[k] != ids@[i as int],
        decreases i - j,
    {
        if ids[j] == ids[i] {
            return true;
        }
        j = j + 1;
    }
    false
}

/// Plans a request for chunks: which patches to generate, in the order asked,
/// given the revision of each id's existing row and the player's chunk.
pub fn plan_chunk_request(
    chunk_ids: &Vec<u64>,
    revisions: &Vec<Option<u64>>,
    player_chunk_x: i64,
    player_chunk_z: i64,
) -> (plan: Result<Vec<PatchRequest>, RequestError>)
    requires
        revisions.len() == chunk_ids.len(),
        coordinate_in_range(player_chunk_x),
        coordinate_in_range(player_chunk_z),
    ensures
        match plan {
            Ok(patches) => plan_spec(chunk_ids@, revisions@, player_chunk_x, player_chunk_z) == Ok::<
                Seq<PatchRequest>,
                RequestError,
            >(patches@),
            Err(e) => plan_spec(chunk_ids@, revisions@, player_chunk_x, player_chunk_z) == Err::<
                Seq<PatchRequest>,
                RequestError,
            >(e),
        },
{
    if chunk_ids.len() == 0 || chunk_ids.len() > MAX_CHUNKS_PER_REQUEST {
        return Err(RequestError::BadCount);
    }
    let ghost ids = chunk_ids@;
    let ghost revs = revisions@;
    let mut patches: Vec<PatchRequest> = Vec::new();
    let mut i: usize = 0;
    assert(prepend_plan(patches@, plan_from(ids, revs, player_chunk_x, player_chunk_z, 0)) == plan_from(
        ids,
        revs,
        player_chunk_x,
        player_chunk_z,
        0,
    )) by {
        assert(patches@ == Seq::<PatchRequest>::empty());
        match plan_from(ids, revs, player_chunk_x, player_chunk_z, 0) {
            Ok(r) => {
                assert(Seq::<PatchRequest>::empty() + r =~= r);
            },
            Err(e) => {},
        }
    }
    while i < chunk_ids.len()
        invariant
            revisions.len() == chunk_ids.len(),
            0 < chunk_ids.len() <= MAX_CHUNKS_PER_REQUEST,
            ids == chunk_ids@,
            revs == revisions@,
            coordinate_in_range(player_chunk_x),
            coordinate_in_range(player_chunk_z),
            i <= chunk_ids.len(),
            prepend_plan(patches@, plan_from(ids, revs, player_chunk_x, player_chunk_z, i as int)) == plan_from(
                ids,
                revs,
                player_chunk_x,
                player_chunk_z,
                0,
            ),
        decreases chunk_ids.len() - i,
    {
        let id = chunk_ids[i];
        let current = match revisions[i] {
            Some(revision) => revision >= CHUNK_GENERATION_VERSION,
            None => false,
        };
        if current || seen_before(chunk_ids, i) {
            i = i + 1;
            continue;
        }
        assert(!already_current(ids, revs, i as int));
        let (chunk_x, chunk_z, lod) = match decode_chunk_id(id) {
            Ok(decoded) => decoded,
            Err(e) => {
                assert(plan_from(ids, revs, player_chunk_x, player_chunk_z, i as int) == Err::<
                    Seq<PatchRequest>,
                    RequestError,
                >(RequestError::BadChunk(e)));
                return Err(RequestError::BadChunk(e));
            },
        };
        let patch_end_x = if chunk_x + (lod as u32) < WORLD_CHUNKS {
            chunk_x + lod as u32
        } else {
            WORLD_CHUNKS
        } as i64;
        let patch_end_z = if chunk_z + (lod as u32) < WORLD_CHUNKS {
            chunk_z + lod as u32
        } else {
            WORLD_CHUNKS
        } as i64;
        let distance_x = distance_to_range(player_chunk_x, chunk_x as i64, patch_end_x);
        let distance_z = distance_to_range(player_chunk_z, chunk_z as i64, patch_end_z);
        let distance = if distance_x >= distance_z {
            distance_x
        } else {
            distance_z
        };
        if distance > RENDER_DISTANCE_CHUNKS as i64 + STREAM_CELL_MARGIN_CHUNKS {
            assert(plan_from(ids, revs, player_chunk_x, player_chunk_z, i as int) == Err::<
                Seq<PatchRequest>,
                RequestError,
            >(RequestError::OutOfRange));
            return Err(RequestError::OutOfRange);
        }
        let request = PatchRequest { id, chunk_x, chunk_z, lod };
        proof {
            match plan_from(ids, revs, player_chunk_x, player_chunk_z, i + 1) {
                Ok(r) => {
                    assert(patches@.push(request) + r =~= patches@ + (seq![request] + r));
                },
                Err(e) => {},
            }
        }
        patches.push(request);
        i = i + 1;
    }
    proof {
        assert(patches@ + Seq::<PatchRequest>::empty() =~= patches@);
    }
    Ok(patches)
}

/// Why an excavation is refused.
#[derive(Clone, Copy, PartialEq, Eq, Structural, Debug)]
pub enum ExcavateError {
    /// A centre outside the world or above the highest meshed voxel.
    OutsideWorld,
    /// A centre beyond the player's reach.
    OutOfReach,
    /// A centre that is not solid terrain or tree.
    NotSolid,
}

impl ExcavateError {
    /// The text of the message the server answers with.
    pub open spec fn message_spec(self) -> Seq<char> {
        match self {
            ExcavateError::OutsideWorld => "excavation center is outside the world"@,
            ExcavateError::OutOfReach => "excavation center is out of reach"@,
            ExcavateError::NotSolid => "target block is not solid world geometry"@,
        }
    }

    /// The message the server answers with.
    pub fn message(&self) -> (text: &'static str)
        ensures
            text@ == self.message_spec(),
    {
        match self {
            ExcavateError::OutsideWorld => "excavation center is outside the world",
            ExcavateError::OutOfReach => "excavation center is out of reach",
            ExcavateError::NotSolid => "target block is not solid world geometry",
        }
    }
}

/// Accepts an excavation centre inside the world and below the highest meshed voxel.
pub fn check_excavation_center(x: u32, y: u32, z: u32) -> (checked: Result<(), ExcavateError>)
    ensures
        checked == (if x < WORLD_VOXELS && z < WORLD_VOXELS && y < MAX_MESH_HEIGHT_VOXELS {
            Ok::<(), ExcavateError>(())
        } else {
            Err(ExcavateError::OutsideWorld)
        }),
{
    if x >= WORLD_VOXELS || z >= WORLD_VOXELS || y >= MAX_MESH_HEIGHT_VOXELS {
        return Err(ExcavateError::OutsideWorld);
    }
    Ok(())
}

impl WorldGenerator {
    /// Accepts an excavation centre that is solid world geometry.
    pub fn check_excavation_target(&self, grid: &HeightGrid, x: u32, y: u32, z: u32) -> (checked: Result<(), ExcavateError>)
        requires
            x < WORLD_VOXELS,
            z < WORLD_VOXELS,
            holds_tree_window(*grid, x as int, z as int),
        ensures
            checked == (if solid_spec(*self, grid.field(), x as int, y as int, z as int) {
                Ok::<(), ExcavateError>(())
            } else {
                Err(ExcavateError::NotSolid)
            }),
    {
        if !self.is_solid(grid, x as isize, y as i64, z as isize) {
            return Err(ExcavateError::NotSolid);
        }
        Ok(())
    }
}

/// The horizontal reach, in voxels, of an excavation's effect on chunk meshes: its
/// radius, the extent of the trees it may cut, and one voxel of neighbouring faces.
pub open spec fn regeneration_radius() -> int {
    EXCAVATION_RADIUS_VOXELS + TREE_HORIZONTAL_EXTENT + 1
}

/// A rectangle of chunks, bounds included.
#[derive(Clone, Copy, PartialEq, Eq, Structural, Debug)]
pub struct ChunkRange {
    pub min_x: u32,
    pub max_x: u32,
    pub min_z: u32,
    pub max_z: u32,
}

/// The chunks holding a column within `regeneration_radius` of `(x, z)` along
/// each axis, clamped to the world.
pub open spec fn affected_range(x: u32, z: u32) -> ChunkRange {
    let r = regeneration_radius();
    let lo_x = if x >= r { x - r } else { 0 };
    let lo_z = if z >= r { z - r } else { 0 };
    let hi_x = if x + r < WORLD_VOXELS - 1 { x + r } else { WORLD_VOXELS - 1 };
    let hi_z = if z + r < WORLD_VOXELS - 1 { z + r } else { WORLD_VOXELS - 1 };
    ChunkRange {
        min_x: (lo_x / CHUNK_SIZE as int) as u32,
        max_x: (hi_x / CHUNK_SIZE as int) as u32,
        min_z: (lo_z / CHUNK_SIZE as int) as u32,
        max_z: (hi_z / CHUNK_SIZE as int) as u32,
    }
}

/// The chunks whose meshes an excavation at `(x, z)` may change.
pub fn affected_chunks(x: u32, z: u32) -> (range: ChunkRange)
    ensures
        range == affected_range(x, z),
{
    let radius = EXCAVATION_RADIUS_VOXELS + TREE_HORIZONTAL_EXTENT + 1;
    let world_voxels = CHUNK_SIZE * WORLD_CHUNKS;
    let hi_x = x.saturating_add(radius);
    let hi_z = z.saturating_add(radius);
    ChunkRange {
        min_x: x.saturating_sub(radius) / CHUNK_SIZE,
        max_x: (if hi_x < world_voxels - 1 { hi_x } else { world_voxels - 1 }) / CHUNK_SIZE,
        min_z: z.saturating_sub(radius) / CHUNK_SIZE,
        max_z: (if hi_z < world_voxels - 1 { hi_z } else { world_voxels - 1 }) / CHUNK_SIZE,
    }
}

impl ChunkRange {
    /// Whether a full-detail chunk row lies in the range.
    pub open spec fn holds(self, chunk_x: u32, chunk_z: u32, lod: u8) -> bool {
        lod == 1 && self.min_x <= chunk_x <= self.max_x && self.min_z <= chunk_z <= self.max_z
    }

    /// Whether a chunk row is a full-detail chunk in the range.
    pub fn contains(&self, chunk_x: u32, chunk_z: u32, lod: u8) -> (inside: bool)
        ensures
            inside == self.holds(chunk_x, chunk_z, lod),
    {
        lod == 1 && self.min_x <= chunk_x && chunk_x <= self.max_x && self.min_z <= chunk_z && chunk_z
            <= self.max_z
    }
}

/// Every full-detail chunk that holds a column within the regeneration radius of
/// an excavation, along both axes, is among the chunks regenerated.
pub proof fn lemma_affected_covers(x: u32, z: u32, column_x: int, column_z: int)
    requires
        x < WORLD_VOXELS,
        z < WORLD_VOXELS,
        0 <= column_x < WORLD_VOXELS,
        0 <= column_z < WORLD_VOXELS,
        x - regeneration_radius() <= column_x <= x + regeneration_radius(),
        z - regeneration_radius() <= column_z <= z + regeneration_radius(),
    ensures
        affected_range(x, z).holds((column_x / CHUNK_SIZE as int) as u32, (column_z / CHUNK_SIZE as int) as u32, 1),
{
    let r = affected_range(x, z);
    let r0 = regeneration_radius();
    let lo_x = if x >= r0 { x - r0 } else { 0 };
    let hi_x = if x + r0 < WORLD_VOXELS - 1 { x + r0 } else { WORLD_VOXELS - 1 };
    let lo_z = if z >= r0 { z - r0 } else { 0 };
    let hi_z = if z + r0 < WORLD_VOXELS - 1 { z + r0 } else { WORLD_VOXELS - 1 };
    vstd::arithmetic::div_mod::lemma_div_is_ordered(lo_x, column_x, 32);
    vstd::arithmetic::div_mod::lemma_div_is_ordered(column_x, hi_x, 32);
    vstd::arithmetic::div_mod::lemma_div_is_ordered(lo_z, column_z, 32);
    vstd::arithmetic::div_mod::lemma_div_is_ordered(column_z, hi_z, 32);
}

/// The revision a chunk row gets when an excavation regenerates it.
pub fn next_revision(revision: u64) -> (next: u64)
    ensures
        next == (if revision == u64::MAX { 0 } else { revision + 1 }),
{
    revision.wrapping_add(1)
}

/// A stored chunk row: the patch it holds, its column heights and packed quads,
/// and its revision.
pub struct WorldChunk {
    pub id: u64,
    pub chunk_x: u32,
    pub chunk_z: u32,
    pub lod: u8,
    pub heights: Vec<u16>,
    pub solid_quads: Vec<u32>,
    pub water_quads: Vec<u32>,
    pub revision: u64,
}

/// A stored excavation: the voxel at its centre.
#[derive(Clone, Copy, Debug)]
pub struct Excavation {
    pub id: u64,
    pub x: u32,
    pub y: u32,
    pub z: u32,
}

impl WorldChunk {
    /// The row of a patch generated for a request: the patch's heights and packed
    /// quads, at the current generation revision.
    pub fn generated(request: PatchRequest, patch: GeneratedChunk) -> (row: WorldChunk)
        requires
            4 * patch.quads.len() <= usize::MAX,
            4 * patch.water_quads.len() <= usize::MAX,
        ensures
            row.id == request.id,
            row.chunk_x == request.chunk_x,
            row.chunk_z == request.chunk_z,
            row.lod == request.lod,
            row.heights@ == patch.heights@,
            row.solid_quads@ == flatten_spec(patch.quads@),
            row.water_quads@ == flatten_spec(patch.water_quads@),
            row.revision == CHUNK_GENERATION_VERSION,
    {
        WorldChunk {
            id: request.id,
            chunk_x: request.chunk_x,
            chunk_z: request.chunk_z,
            lod: request.lod,
            heights: patch.heights,
            solid_quads: flatten_quads(patch.quads),
            water_quads: flatten_quads(patch.water_quads),
            revision: CHUNK_GENERATION_VERSION,
        }
    }

    /// The row after an excavation regenerates its patch: the same patch, the new
    /// heights and quads, and the next revision.
    pub fn regenerated(self, patch: GeneratedChunk) -> (row: WorldChunk)
        requires
            4 * patch.quads.len() <= usize::MAX,
            4 * patch.water_quads.len() <= usize::MAX,
        ensures
            row.id == self.id,
            row.chunk_x == self.chunk_x,
            row.chunk_z == self.chunk_z,
            row.lod == self.lod,
            row.heights@ == patch.heights@,
            row.solid_quads@ == flatten_spec(patch.quads@),
            row.water_quads@ == flatten_spec(patch.water_quads@),
            row.revision == (if self.revision == u64::MAX { 0 } else { self.revision + 1 }),
    {
        WorldChunk {
            id: self.id,
            chunk_x: self.chunk_x,
            chunk_z: self.chunk_z,
            lod: self.lod,
            heights: patch.heights,
            solid_quads: flatten_quads(patch.quads),
            water_quads: flatten_quads(patch.water_quads),
            revision: next_revision(self.revision),
        }
    }
}

impl Excavation {
    /// The excavation sphere centred on the row's voxel.
    pub fn sphere(&self) -> (sphere: ExcavationSphere)
        ensures
            sphere == (ExcavationSphere { x: self.x, y: self.y, z: self.z }),
    {
        ExcavationSphere { x: self.x, y: self.y, z: self.z }
    }
}

/// The spheres of the stored excavations, in order.
pub fn excavation_spheres(rows: &Vec<Excavation>) -> (spheres: Vec<ExcavationSphere>)
    ensures
        spheres.len() == rows.len(),
        forall|i: int|
            0 <= i < rows.len() ==> #[trigger] spheres@[i] == (ExcavationSphere {
                x: rows@[i].x,
                y: rows@[i].y,
                z: rows@[i].z,
            }),
{
    let mut spheres: Vec<ExcavationSphere> = Vec::new();
    let mut i: usize = 0;
    while i < rows.len()
        invariant
            i <= rows.len(),
            spheres.len() == i,
            forall|k: int|
                0 <= k < i ==> #[trigger] spheres@[k] == (ExcavationSphere {
                    x: rows@[k].x,
                    y: rows@[k].y,
                    z: rows@[k].z,
                }),
        decreases rows.len() - i,
    {
        spheres.push(rows[i].sphere());
        i = i + 1;
    }
    spheres
}

} // verus!
