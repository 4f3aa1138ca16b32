//! The client's store of streamed chunks: their geometry, the column heights of
//! full-detail chunks, and an index of the wood and leaf voxels that block movement.

use vstd::prelude::*;
use vstd::std_specs::hash::group_hash_axioms;
use std::collections::{HashMap, HashSet};
use std::sync::Arc;
use crate::layout::CHUNK_SIZE;
use crate::quad::{
    Quad, Material, flatten_spec, unpack_quads, lemma_flatten_unpack, lemma_flatten_index, quads_of_words,
    lemma_quads_of_flatten,
};
use crate::tiles::{
    decode_chunk_id, decode_spec, chunk_id, chunk_id_of, valid_lod, lemma_encode_decoded,
    lemma_decode_chunk_id, stream_root_tiles, stream_tiles, root_rule, center_in_range,
    selected_ids_wf, TOP_LOD,
};
use crate::coverage::{
    tile_covers, cover_count, aligned_tile, all_aligned, lemma_cover_count_at_most_one,
    lemma_stream_tiles_aligned,
};

verus! {

broadcast use group_hash_axioms;

/// Number of column heights a full-detail chunk carries.
pub const CHUNK_COLUMNS: usize = 1024;

/// One streamed chunk as the client keeps it.
pub struct Chunk {
    pub solid_quads: Vec<Quad>,
    pub water_quads: Vec<Quad>,
    /// The wood and leaf voxels of the solid quads, each once.
    pub collision_voxels: Vec<u128>,
}

/// The client's chunk store.
pub struct World {
    chunks: HashMap<u64, Arc<Chunk>>,
    heights: HashMap<u64, Vec<u16>>,
    collision_voxels: HashMap<u128, usize>,
    revision: u64,
}

/// The index key of the voxel `(x, y, z)`.
pub open spec fn voxel_key(x: u32, y: u32, z: u32) -> u128 {
    (x + y * 0x1_0000_0000int + z * 0x1_0000_0000_0000_0000int) as u128
}

/// The index key of the column heights of the chunk at `(chunk_x, chunk_z)`.
pub open spec fn column_key(chunk_x: u32, chunk_z: u32) -> u64 {
    (chunk_x + chunk_z * 0x1_0000_0000int) as u64
}

/// Materials that block movement: wood and leaves.
pub open spec fn is_collision_code(code: u32) -> bool {
    code == 9 || code == 10
}

/// The voxels of the wood and leaf quads among `words` (four words per quad).
pub open spec fn collision_voxels_of_words(words: Seq<u32>) -> Set<(u32, u32, u32)> {
    Set::new(
        |v: (u32, u32, u32)|
            exists|i: int|
                0 <= i < words.len() / 4 && is_collision_code(#[trigger] words[4 * i + 3] >> 17u32)
                    && words[4 * i] == v.0 && words[4 * i + 1] == v.1 && words[4 * i + 2] == v.2,
    )
}

/// The index keys of the wood and leaf quads among `quads`.
pub open spec fn collision_keys_of(quads: Seq<Quad>) -> Set<u128> {
    Set::new(
        |k: u128|
            exists|i: int|
                0 <= i < quads.len() && is_collision_code(#[trigger] quads[i].material_bits())
                    && voxel_key(quads[i].x(), quads[i].y(), quads[i].z()) == k,
    )
}

/// The voxels that block movement, given the words of every loaded chunk.
pub open spec fn solid_voxels_of(chunks: Map<u64, (Seq<u32>, Seq<u32>)>) -> Set<(u32, u32, u32)> {
    Set::new(
        |v: (u32, u32, u32)|
            exists|id: u64|
                chunks.contains_key(id) && #[trigger] collision_voxels_of_words(chunks[id].0).contains(
                    v,
                ),
    )
}

/// Whether the store takes a streamed chunk: a well-formed id, whole quads, and
/// either no heights or one per column.
pub open spec fn chunk_accepted(id: u64, heights: Seq<u16>, solid: Seq<u32>, water: Seq<u32>) -> bool {
    &&& decode_spec(id) is Some
    &&& solid.len() % 4 == 0
    &&& water.len() % 4 == 0
    &&& (heights.len() == 0 || heights.len() == CHUNK_COLUMNS)
}

/// The stored count of a key; absent keys count zero.
pub open spec fn index_count(index: Map<u128, usize>, k: u128) -> int {
    if index.contains_key(k) {
        index[k] as int
    } else {
        0
    }
}

/// Distinct voxels have distinct index keys.
pub proof fn lemma_voxel_key_injective(a: (u32, u32, u32), b: (u32, u32, u32))
    ensures
        voxel_key(a.0, a.1, a.2) == voxel_key(b.0, b.1, b.2) ==> a == b,
{
    let ka = a.0 + a.1 * 0x1_0000_0000int + a.2 * 0x1_0000_0000_0000_0000int;
    let kb = b.0 + b.1 * 0x1_0000_0000int + b.2 * 0x1_0000_0000_0000_0000int;
    assert(0 <= ka < 0x1_0000_0000_0000_0000_0000_0000int) by (nonlinear_arith)
        requires
            ka == a.0 + a.1 * 0x1_0000_0000int + a.2 * 0x1_0000_0000_0000_0000int,
            0 <= a.0 < 0x1_0000_0000int,
            0 <= a.1 < 0x1_0000_0000int,
            0 <= a.2 < 0x1_0000_0000int,
    ;
    assert(0 <= kb < 0x1_0000_0000_0000_0000_0000_0000int) by (nonlinear_arith)
        requires
            kb == b.0 + b.1 * 0x1_0000_0000int + b.2 * 0x1_0000_0000_0000_0000int,
            0 <= b.0 < 0x1_0000_0000int,
            0 <= b.1 < 0x1_0000_0000int,
            0 <= b.2 < 0x1_0000_0000int,
    ;
    if ka == kb {
        assert(a.0 == b.0 && a.1 == b.1 && a.2 == b.2) by (nonlinear_arith)
            requires
                ka == a.0 + a.1 * 0x1_0000_0000int + a.2 * 0x1_0000_0000_0000_0000int,
                kb == b.0 + b.1 * 0x1_0000_0000int + b.2 * 0x1_0000_0000_0000_0000int,
                ka == kb,
                0 <= a.0 < 0x1_0000_0000int,
                0 <= a.1 < 0x1_0000_0000int,
                0 <= a.2 < 0x1_0000_0000int,
                0 <= b.0 < 0x1_0000_0000int,
                0 <= b.1 < 0x1_0000_0000int,
                0 <= b.2 < 0x1_0000_0000int,
        ;
    }
}

/// The index key of the voxel `(x, y, z)`.
pub fn voxel_key_exec(x: u32, y: u32, z: u32) -> (k: u128)
    ensures
        k == voxel_key(x, y, z),
{
    proof {
        assert(x + y * 0x1_0000_0000int + z * 0x1_0000_0000_0000_0000int
            < 0x1_0000_0000_0000_0000_0000_0000int) by (nonlinear_arith)
            requires
                0 <= x < 0x1_0000_0000int,
                0 <= y < 0x1_0000_0000int,
                0 <= z < 0x1_0000_0000int,
        ;
    }
    x as u128 + (y as u128) * 0x1_0000_0000 + (z as u128) * 0x1_0000_0000_0000_0000
}

fn column_key_exec(chunk_x: u32, chunk_z: u32) -> (k: u64)
    ensures
        k == column_key(chunk_x, chunk_z),
{
    proof {
        assert(chunk_x + chunk_z * 0x1_0000_0000int < 0x1_0000_0000_0000_0000int) by (
        nonlinear_arith)
            requires
                0 <= chunk_x < 0x1_0000_0000int,
                0 <= chunk_z < 0x1_0000_0000int,
        ;
    }
    chunk_x as u64 + (chunk_z as u64) * 0x1_0000_0000
}

proof fn lemma_column_key_injective(a: (u32, u32), b: (u32, u32))
    ensures
        column_key(a.0, a.1) == column_key(b.0, b.1) ==> a == b,
{
    let ka = a.0 + a.1 * 0x1_0000_0000int;
    let kb = b.0 + b.1 * 0x1_0000_0000int;
    if ka < 0x1_0000_0000_0000_0000int && kb < 0x1_0000_0000_0000_0000int && ka == kb {
        assert(a.0 == b.0 && a.1 == b.1) by (nonlinear_arith)
            requires
                ka == a.0 + a.1 * 0x1_0000_0000int,
                kb == b.0 + b.1 * 0x1_0000_0000int,
                ka == kb,
                0 <= a.0 < 0x1_0000_0000int,
                0 <= a.1 < 0x1_0000_0000int,
                0 <= b.0 < 0x1_0000_0000int,
                0 <= b.1 < 0x1_0000_0000int,
        ;
    }
    assert(ka < 0x1_0000_0000_0000_0000int) by (nonlinear_arith)
        requires
            ka == a.0 + a.1 * 0x1_0000_0000int,
            0 <= a.0 < 0x1_0000_0000int,
            0 <= a.1 < 0x1_0000_0000int,
    ;
    assert(kb < 0x1_0000_0000_0000_0000int) by (nonlinear_arith)
        requires
            kb == b.0 + b.1 * 0x1_0000_0000int,
            0 <= b.0 < 0x1_0000_0000int,
            0 <= b.1 < 0x1_0000_0000int,
    ;
}

/// The index keys of the wood and leaf quads, each once, in order of first appearance.
pub fn collision_keys(quads: &Vec<Quad>) -> (keys: Vec<u128>)
    ensures
        keys@.no_duplicates(),
        keys@.to_set() == collision_keys_of(quads@),
{
    let mut seen: HashSet<u128> = HashSet::new();
    let mut keys: Vec<u128> = Vec::new();
    let mut i: usize = 0;
    while i < quads.len()
        invariant
            i <= quads.len(),
            keys@.no_duplicates(),
            seen@ == keys@.to_set(),
            forall|k: u128|
                #![trigger keys@.to_set().contains(k)]
                keys@.to_set().contains(k) <==> exists|j: int|
                    0 <= j < i && is_collision_code(#[trigger] quads@[j].material_bits())
                        && voxel_key(quads@[j].x(), quads@[j].y(), quads@[j].z()) == k,
        decreases quads.len() - i,
    {
        let q = quads[i];
        let code = q.material_code();
        if code == 9 || code == 10 {
            let k = voxel_key_exec(q.packed[0], q.packed[1], q.packed[2]);
            let ghost before = keys@;
            if seen.insert(k) {
                keys.push(k);
                proof {
                    before.lemma_push_to_set_commute(k);
                    assert(keys@.to_set() =~= seen@);
                    assert forall|a: int, b: int|
                        0 <= a < keys.len() && 0 <= b < keys.len() && a != b implies keys@[a]
                        != keys@[b] by {
                        if a < before.len() && b < before.len() {
                        } else if a == before.len() {
                            assert(before.to_set().contains(keys@[b]));
                        } else {
                            assert(before.to_set().contains(keys@[a]));
                        }
                    }
                }
            }
            proof {
                assert forall|k2: u128| #![trigger keys@.to_set().contains(k2)]
                    keys@.to_set().contains(k2) <==> exists|j: int|
                        0 <= j < i + 1 && is_collision_code(#[trigger] quads@[j].material_bits())
                            && voxel_key(quads@[j].x(), quads@[j].y(), quads@[j].z()) == k2 by {
                    if keys@.to_set().contains(k2) && k2 != k {
                        assert(before.to_set().contains(k2));
                    }
                    if k2 == k {
                        assert(is_collision_code(quads@[i as int].material_bits()));
                    }
                }
            }
        }
        i = i + 1;
    }
    proof {
        assert(keys@.to_set() =~= collision_keys_of(quads@));
    }
    keys
}

impl Chunk {
    /// The collision list holds each wood and leaf voxel of the solid quads once.
    pub open spec fn wf(&self) -> bool {
        &&& self.collision_voxels@.no_duplicates()
        &&& self.collision_voxels@.to_set() == collision_keys_of(self.solid_quads@)
    }
}

/// Lowers the count of each key by one, dropping keys that reach zero.
fn release_keys(index: &mut HashMap<u128, usize>, keys: &Vec<u128>)
    requires
        keys@.no_duplicates(),
        forall|k: u128| #[trigger] keys@.contains(k) ==> index_count(old(index)@, k) >= 1,
        forall|k: u128| #[trigger] old(index)@.contains_key(k) ==> old(index)@[k] > 0,
    ensures
        forall|k: u128|
            #[trigger] index_count(final(index)@, k) == index_count(old(index)@, k) - (if keys@.contains(
                k,
            ) {
                1int
            } else {
                0int
            }),
        forall|k: u128| #[trigger] final(index)@.contains_key(k) ==> final(index)@[k] > 0,
{
    let mut i: usize = 0;
    while i < keys.len()
        invariant
            i <= keys.len(),
            keys@.no_duplicates(),
            forall|k: u128| #[trigger] keys@.contains(k) ==> index_count(old(index)@, k) >= 1,
            forall|k: u128|
                #[trigger] index_count(index@, k) == index_count(old(index)@, k) - (if keys@.take(
                    i as int,
                ).contains(k) {
                    1int
                } else {
                    0int
                }),
            forall|k: u128| #[trigger] index@.contains_key(k) ==> index@[k] > 0,
        decreases keys.len() - i,
    {
        let k = keys[i];
        proof {
            assert(keys@.contains(k));
            assert(!keys@.take(i as int).contains(k));
            assert(index_count(index@, k) == index_count(old(index)@, k));
        }
        let ghost prev = index@;
        let count = match index.get(&k) {
            Some(c) => *c,
            None => 0,
        };
        if count > 1 {
            index.insert(k, count - 1);
        } else {
            index.remove(&k);
        }
        proof {
            assert(keys@.take(i + 1) =~= keys@.take(i as int).push(k));
            assert forall|k2: u128| #[trigger] index_count(index@, k2) == index_count(old(index)@, k2)
                - (if keys@.take(i + 1).contains(k2) {
                1int
            } else {
                0int
            }) by {
                assert(index_count(prev, k2) == index_count(old(index)@, k2) - (if keys@.take(
                    i as int,
                ).contains(k2) {
                    1int
                } else {
                    0int
                }));
                if k2 != k {
                    assert(keys@.take(i + 1).contains(k2) == keys@.take(i as int).contains(k2));
                    assert(index_count(index@, k2) == index_count(prev, k2));
                } else {
                    assert(keys@.take(i + 1)[i as int] == k2);
                }
            }
        }
        i = i + 1;
    }
    assert(keys@.take(keys.len() as int) =~= keys@);
}

/// Raises the count of each key by one, adding keys that were absent.
fn acquire_keys(index: &mut HashMap<u128, usize>, keys: &Vec<u128>)
    requires
        keys@.no_duplicates(),
        forall|k: u128| #[trigger] keys@.contains(k) ==> index_count(old(index)@, k) < usize::MAX,
        forall|k: u128| #[trigger] old(index)@.contains_key(k) ==> old(index)@[k] > 0,
    ensures
        forall|k: u128|
            #[trigger] index_count(final(index)@, k) == index_count(old(index)@, k) + (if keys@.contains(
                k,
            ) {
                1int
            } else {
                0int
            }),
        forall|k: u128| #[trigger] final(index)@.contains_key(k) ==> final(index)@[k] > 0,
{
    let mut i: usize = 0;
    while i < keys.len()
        invariant
            i <= keys.len(),
            keys@.no_duplicates(),
            forall|k: u128| #[trigger] keys@.contains(k) ==> index_count(old(index)@, k) < usize::MAX,
            forall|k: u128|
                #[trigger] index_count(index@, k) == index_count(old(index)@, k) + (if keys@.take(
                    i as int,
                ).contains(k) {
                    1int
                } else {
                    0int
                }),
            forall|k: u128| #[trigger] index@.contains_key(k) ==> index@[k] > 0,
        decreases keys.len() - i,
    {
        let k = keys[i];
        proof {
            assert(keys@.contains(k));
            assert(!keys@.take(i as int).contains(k));
            assert(index_count(index@, k) == index_count(old(index)@, k));
        }
        let ghost prev = index@;
        let count = match index.get(&k) {
            Some(c) => *c,
            None => 0,
        };
        index.insert(k, count + 1);
        proof {
            assert(keys@.take(i + 1) =~= keys@.take(i as int).push(k));
            assert forall|k2: u128| #[trigger] index_count(index@, k2) == index_count(old(index)@, k2)
                + (if keys@.take(i + 1).contains(k2) {
                1int
            } else {
                0int
            }) by {
                assert(index_count(prev, k2) == index_count(old(index)@, k2) + (if keys@.take(
                    i as int,
                ).contains(k2) {
                    1int
                } else {
                    0int
                }));
                if k2 != k {
                    assert(keys@.take(i + 1).contains(k2) == keys@.take(i as int).contains(k2));
                    assert(index_count(index@, k2) == index_count(prev, k2));
                } else {
                    assert(keys@.take(i + 1)[i as int] == k2);
                }
            }
        }
        i = i + 1;
    }
    assert(keys@.take(keys.len() as int) =~= keys@);
}

/// The chunks of `chunks` whose collision list holds `k`.
pub open spec fn holders_in(chunks: Map<u64, Arc<Chunk>>, k: u128) -> Set<u64> {
    chunks.dom().filter(|id: u64| chunks[id].collision_voxels@.contains(k))
}

proof fn lemma_holders_remove(chunks: Map<u64, Arc<Chunk>>, id: u64, k: u128)
    requires
        chunks.dom().finite(),
        chunks.contains_key(id),
    ensures
        holders_in(chunks.remove(id), k) == holders_in(chunks, k).remove(id),
        holders_in(chunks, k).finite(),
        holders_in(chunks, k).len() == holders_in(chunks.remove(id), k).len() + (if chunks[id].collision_voxels@.contains(k) {
            1int
        } else {
            0int
        }),
{
    assert(holders_in(chunks.remove(id), k) =~= holders_in(chunks, k).remove(id));
    vstd::set_lib::lemma_len_subset(holders_in(chunks, k), chunks.dom());
}

proof fn lemma_holders_insert(chunks: Map<u64, Arc<Chunk>>, id: u64, c: Arc<Chunk>, k: u128)
    requires
        chunks.dom().finite(),
        !chunks.contains_key(id),
    ensures
        holders_in(chunks, k).finite(),
        holders_in(chunks.insert(id, c), k).len() == holders_in(chunks, k).len() + (if c.collision_voxels@.contains(k) {
            1int
        } else {
            0int
        }),
        holders_in(chunks, k).len() <= chunks.len(),
{
    vstd::set_lib::lemma_len_subset(holders_in(chunks, k), chunks.dom());
    if c.collision_voxels@.contains(k) {
        assert(holders_in(chunks.insert(id, c), k) =~= holders_in(chunks, k).insert(id));
    } else {
        assert(holders_in(chunks.insert(id, c), k) =~= holders_in(chunks, k));
    }
}

/// The first loaded patch on the chain from `(x, z, lod)` through its parents up to
/// level 16.
pub open spec fn ancestor_in(loaded: Set<u64>, x: u32, z: u32, lod: u8) -> Option<u64>
    decreases 16 - lod,
{
    if loaded.contains(chunk_id_of(x, z, lod)) {
        Some(chunk_id_of(x, z, lod))
    } else if lod >= 16 || !valid_lod(lod) {
        None
    } else {
        let up = (lod * 2) as u8;
        ancestor_in(loaded, (x / up as u32 * up as u32) as u32, (z / up as u32 * up as u32) as u32, up)
    }
}

/// The first loaded patch at or above the patch `id`.
pub open spec fn loaded_ancestor_spec(loaded: Set<u64>, id: u64) -> Option<u64> {
    match decode_spec(id) {
        Some((x, z, lod)) => ancestor_in(loaded, x, z, lod),
        None => None,
    }
}

/// Whether a strict ancestor of `(x, z, lod)` up to level 16 lies in `selected`.
pub open spec fn covered_above(selected: Set<u64>, x: u32, z: u32, lod: u8) -> bool
    decreases 16 - lod,
{
    if lod >= 16 || !valid_lod(lod) {
        false
    } else {
        let up = (lod * 2) as u8;
        let px = (x / up as u32 * up as u32) as u32;
        let pz = (z / up as u32 * up as u32) as u32;
        selected.contains(chunk_id_of(px, pz, up)) || covered_above(selected, px, pz, up)
    }
}

/// The loaded patches standing in for the desired tiles.
pub open spec fn selected_ancestors(loaded: Set<u64>, tiles: Seq<u64>) -> Set<u64> {
    Set::new(
        |a: u64|
            exists|i: int| 0 <= i < tiles.len() && #[trigger] loaded_ancestor_spec(loaded, tiles[i]) == Some(a),
    )
}

/// Whether the patch `a` is well formed and no strict ancestor of it lies in `selected`.
pub open spec fn is_uncovered(selected: Set<u64>, a: u64) -> bool {
    decode_spec(a) is Some && !covered_above(
        selected,
        decode_spec(a).unwrap().0,
        decode_spec(a).unwrap().1,
        decode_spec(a).unwrap().2,
    )
}

/// The patches to draw: the selected stand-ins that no other selected patch covers.
pub open spec fn rendered_set(loaded: Set<u64>, tiles: Seq<u64>) -> Set<u64> {
    let selected = selected_ancestors(loaded, tiles);
    selected.filter(|a: u64| is_uncovered(selected, a))
}

/// The solid quads of a run of chunks, in order.
pub open spec fn solid_concat(chunks: Seq<Arc<Chunk>>) -> Seq<Quad>
    decreases chunks.len(),
{
    if chunks.len() == 0 {
        Seq::empty()
    } else {
        solid_concat(chunks.drop_last()) + chunks.last().solid_quads@
    }
}

/// The water quads of a run of chunks, in order.
pub open spec fn water_concat(chunks: Seq<Arc<Chunk>>) -> Seq<Quad>
    decreases chunks.len(),
{
    if chunks.len() == 0 {
        Seq::empty()
    } else {
        water_concat(chunks.drop_last()) + chunks.last().water_quads@
    }
}

/// The chunks to mesh, shared with the store.
pub struct MeshRequest {
    pub chunks: Vec<Arc<Chunk>>,
}

/// Materials that a ray can target: the terrain's grass, rock, snow, gravel and
/// dirt, and trees' wood and leaves.
pub open spec fn is_target_code(code: u32) -> bool {
    code == 0 || code == 1 || code == 2 || code == 6 || code == 7 || code == 9 || code == 10
}

/// The quads of `quads` that a ray can target, in order.
pub open spec fn target_quads(quads: Seq<Quad>) -> Seq<Quad>
    decreases quads.len(),
{
    if quads.len() == 0 {
        Seq::empty()
    } else {
        target_quads(quads.drop_last()) + if is_target_code(quads.last().material_bits()) {
            seq![quads.last()]
        } else {
            Seq::empty()
        }
    }
}

/// The targetable quads of the full-detail patches among `ids`, in order.
pub open spec fn raycast_quads(words: Map<u64, (Seq<u32>, Seq<u32>)>, ids: Seq<u64>) -> Seq<Quad>
    decreases ids.len(),
{
    if ids.len() == 0 {
        Seq::empty()
    } else {
        raycast_quads(words, ids.drop_last()) + if (decode_spec(ids.last()) matches Some(d) && d.2 == 1) {
            target_quads(quads_of_words(words[ids.last()].0))
        } else {
            Seq::empty()
        }
    }
}

/// The geometry of the chunks around the camera.
pub struct Mesh {
    pub quads: Vec<Quad>,
    pub water_quads: Vec<Quad>,
    pub chunk_count: usize,
}

/// Another handle on the same chunk (`Arc::clone`): the chunk is shared, not copied.
#[verifier::external_body]
fn share_chunk(chunk: &Arc<Chunk>) -> (shared: Arc<Chunk>)
    ensures
        shared == *chunk,
{
    Arc::clone(chunk)
}

impl MeshRequest {
    /// Concatenates the geometry of the requested chunks.
    pub fn build(self) -> (mesh: Mesh)
        ensures
            mesh.quads@ == solid_concat(self.chunks@),
            mesh.water_quads@ == water_concat(self.chunks@),
            mesh.chunk_count == self.chunks.len(),
    {
        let mut quads: Vec<Quad> = Vec::new();
        let mut water_quads: Vec<Quad> = Vec::new();
        let mut i: usize = 0;
        while i < self.chunks.len()
            invariant
                i <= self.chunks.len(),
                quads@ == solid_concat(self.chunks@.take(i as int)),
                water_quads@ == water_concat(self.chunks@.take(i as int)),
            decreases self.chunks.len() - i,
        {
            let chunk = &self.chunks[i];
            quads.extend_from_slice(chunk.solid_quads.as_slice());
            water_quads.extend_from_slice(chunk.water_quads.as_slice());
            proof {
                assert(self.chunks@.take(i + 1).drop_last() =~= self.chunks@.take(i as int));
                assert(quads@ =~= solid_concat(self.chunks@.take(i + 1)));
                assert(water_quads@ =~= water_concat(self.chunks@.take(i + 1)));
            }
            i = i + 1;
        }
        assert(self.chunks@.take(self.chunks.len() as int) =~= self.chunks@);
        Mesh { quads, water_quads, chunk_count: self.chunks.len() }
    }
}

proof fn lemma_round_down(x: u32, d: u32)
    requires
        d > 0,
    ensures
        x / d * d <= x,
{
    assert(x / d * d <= x) by (nonlinear_arith)
        requires
            d > 0,
    ;
}

proof fn lemma_ancestor_loaded(loaded: Set<u64>, x: u32, z: u32, lod: u8)
    ensures
        ancestor_in(loaded, x, z, lod) matches Some(a) ==> loaded.contains(a),
    decreases 16 - lod,
{
    if loaded.contains(chunk_id_of(x, z, lod)) {
    } else if lod >= 16 || !valid_lod(lod) {
    } else {
        let up = (lod * 2) as u8;
        lemma_ancestor_loaded(loaded, (x / up as u32 * up as u32) as u32, (z / up as u32 * up as u32) as u32, up);
    }
}

proof fn lemma_rendered_loaded(loaded: Set<u64>, tiles: Seq<u64>, a: u64)
    requires
        rendered_set(loaded, tiles).contains(a),
    ensures
        loaded.contains(a),
{
    assert(selected_ancestors(loaded, tiles).contains(a));
    let j = choose|j: int| 0 <= j < tiles.len() && #[trigger] loaded_ancestor_spec(loaded, tiles[j]) == Some(a);
    match decode_spec(tiles[j]) {
        Some((x, z, lod)) => {
            lemma_ancestor_loaded(loaded, x, z, lod);
        },
        None => {},
    }
}

/// Whether `a` is the patch `(x, z, lod)` or one of its ancestors up to level 16.
pub open spec fn on_chain(a: u64, x: u32, z: u32, lod: u8) -> bool
    decreases 16 - lod,
{
    if a == chunk_id_of(x, z, lod) {
        true
    } else if lod >= 16 || !valid_lod(lod) {
        false
    } else {
        let up = (lod * 2) as u8;
        on_chain(a, (x / up as u32 * up as u32) as u32, (z / up as u32 * up as u32) as u32, up)
    }
}

proof fn lemma_ancestor_on_chain(loaded: Set<u64>, x: u32, z: u32, lod: u8)
    ensures
        ancestor_in(loaded, x, z, lod) matches Some(a) ==> on_chain(a, x, z, lod),
    decreases 16 - lod,
{
    if loaded.contains(chunk_id_of(x, z, lod)) {
    } else if lod >= 16 || !valid_lod(lod) {
    } else {
        let up = (lod * 2) as u8;
        lemma_ancestor_on_chain(loaded, (x / up as u32 * up as u32) as u32, (z / up as u32 * up as u32) as u32, up);
    }
}

proof fn lemma_chain_selected(selected: Set<u64>, a: u64, x: u32, z: u32, lod: u8)
    requires
        selected.contains(a),
        on_chain(a, x, z, lod),
    ensures
        selected.contains(chunk_id_of(x, z, lod)) || covered_above(selected, x, z, lod),
    decreases 16 - lod,
{
    if a != chunk_id_of(x, z, lod) {
        let up = (lod * 2) as u8;
        lemma_chain_selected(selected, a, (x / up as u32 * up as u32) as u32, (z / up as u32 * up as u32) as u32, up);
    }
}

proof fn lemma_topmost_selected(selected: Set<u64>, x: u32, z: u32, lod: u8)
    requires
        valid_lod(lod),
        x < 1024,
        z < 1024,
        selected.contains(chunk_id_of(x, z, lod)) || covered_above(selected, x, z, lod),
    ensures
        exists|r: u64| #[trigger] selected.contains(r) && is_uncovered(selected, r) && on_chain(r, x, z, lod),
    decreases 16 - lod,
{
    if covered_above(selected, x, z, lod) {
        let up = (lod * 2) as u8;
        let px = (x / up as u32 * up as u32) as u32;
        let pz = (z / up as u32 * up as u32) as u32;
        lemma_round_down(x, up as u32);
        lemma_round_down(z, up as u32);
        lemma_topmost_selected(selected, px, pz, up);
        let r = choose|r: u64| #[trigger] selected.contains(r) && is_uncovered(selected, r) && on_chain(r, px, pz, up);
        assert(on_chain(r, x, z, lod));
    } else {
        let r = chunk_id_of(x, z, lod);
        lemma_decode_chunk_id(x, z, lod);
        assert(is_uncovered(selected, r));
    }
}

/// Drawing leaves no hole where something is loaded: for every desired tile with a
/// loaded patch at or above it, some drawn patch lies at or above the tile.
pub proof fn lemma_rendered_covers(loaded: Set<u64>, tiles: Seq<u64>, i: int)
    requires
        0 <= i < tiles.len(),
        loaded_ancestor_spec(loaded, tiles[i]) is Some,
    ensures
        exists|r: u64|
            #[trigger] rendered_set(loaded, tiles).contains(r) && on_chain(
                r,
                decode_spec(tiles[i]).unwrap().0,
                decode_spec(tiles[i]).unwrap().1,
                decode_spec(tiles[i]).unwrap().2,
            ),
{
    let selected = selected_ancestors(loaded, tiles);
    let a = loaded_ancestor_spec(loaded, tiles[i]).unwrap();
    lemma_encode_decoded(tiles[i]);
    let (x, z, lod) = decode_spec(tiles[i]).unwrap();
    assert(selected.contains(a));
    lemma_ancestor_on_chain(loaded, x, z, lod);
    lemma_chain_selected(selected, a, x, z, lod);
    lemma_topmost_selected(selected, x, z, lod);
    let r = choose|r: u64| #[trigger] selected.contains(r) && is_uncovered(selected, r) && on_chain(r, x, z, lod);
    assert(rendered_set(loaded, tiles).contains(r));
}

/// Rounding down to a multiple of `up`, a level above one, gives a multiple of `up`
/// within the range.
proof fn lemma_round_down_aligned(x: int, up: int)
    requires
        up == 2 || up == 4 || up == 8 || up == 16,
        0 <= x,
    ensures
        (x / up * up) % up == 0,
        0 <= x / up * up <= x,
{
    if up == 2 {
    } else if up == 4 {
    } else if up == 8 {
    } else {
    }
}

/// Rounding down to a finer level and then to a coarser one rounds to the coarser.
proof fn lemma_nested_floor(x: int, fine: int, coarse: int)
    requires
        fine == 1 || fine == 2 || fine == 4 || fine == 8,
        coarse == 2 || coarse == 4 || coarse == 8 || coarse == 16,
        fine < coarse,
        0 <= x,
    ensures
        (x / fine * fine) / coarse * coarse == x / coarse * coarse,
{
    if fine == 1 {
    } else if fine == 2 {
        if coarse == 4 {
        } else if coarse == 8 {
        } else {
        }
    } else if fine == 4 {
        if coarse == 8 {
        } else {
        }
    } else {
    }
}

/// The corner of an aligned patch that covers `a` is `a` rounded down to its level.
proof fn lemma_aligned_corner(x: int, lod: int, a: int)
    requires
        lod == 1 || lod == 2 || lod == 4 || lod == 8 || lod == 16,
        0 <= x,
        x % lod == 0,
        x <= a < x + lod,
    ensures
        x == a / lod * lod,
{
    if lod == 1 {
    } else if lod == 2 {
    } else if lod == 4 {
    } else if lod == 8 {
    } else {
    }
}

proof fn lemma_ancestor_aligned(loaded: Set<u64>, x: u32, z: u32, lod: u8)
    requires
        valid_lod(lod),
        x < 1024,
        z < 1024,
        x as int % lod as int == 0,
        z as int % lod as int == 0,
    ensures
        ancestor_in(loaded, x, z, lod) matches Some(a) ==> aligned_tile(a),
    decreases 16 - lod,
{
    if loaded.contains(chunk_id_of(x, z, lod)) {
        lemma_decode_chunk_id(x, z, lod);
    } else if lod < 16 {
        let up = (lod * 2) as u8;
        lemma_round_down_aligned(x as int, up as int);
        lemma_round_down_aligned(z as int, up as int);
        lemma_ancestor_aligned(loaded, (x / up as u32 * up as u32) as u32, (z / up as u32 * up as u32) as u32, up);
    }
}

/// A selected patch of a coarser level over the corner of a patch covers it.
proof fn lemma_covered_by_coarser(selected: Set<u64>, x: u32, z: u32, lod: u8, coarse: u8)
    requires
        valid_lod(lod),
        valid_lod(coarse),
        lod < coarse,
        x < 1024,
        z < 1024,
        selected.contains(
            chunk_id_of((x as int / coarse as int * coarse as int) as u32, (z as int / coarse as int * coarse as int) as u32, coarse),
        ),
    ensures
        covered_above(selected, x, z, lod),
    decreases 16 - lod,
{
    let up = (lod * 2) as u8;
    let px = (x / up as u32 * up as u32) as u32;
    let pz = (z / up as u32 * up as u32) as u32;
    lemma_round_down_aligned(x as int, up as int);
    lemma_round_down_aligned(z as int, up as int);
    if up != coarse {
        lemma_nested_floor(x as int, up as int, coarse as int);
        lemma_nested_floor(z as int, up as int, coarse as int);
        lemma_covered_by_coarser(selected, px, pz, up, coarse);
    }
}

/// Every patch that stands in for an aligned tile is aligned.
proof fn lemma_selected_aligned(loaded: Set<u64>, tiles: Seq<u64>, p: u64)
    requires
        all_aligned(tiles),
        selected_ancestors(loaded, tiles).contains(p),
    ensures
        aligned_tile(p),
{
    let i = choose|i: int| 0 <= i < tiles.len() && #[trigger] loaded_ancestor_spec(loaded, tiles[i]) == Some(p);
    assert(aligned_tile(tiles[i]));
    lemma_encode_decoded(tiles[i]);
    let (x, z, lod) = decode_spec(tiles[i]).unwrap();
    lemma_ancestor_aligned(loaded, x, z, lod);
}

/// Two drawn patches that cover one chunk are the same patch.
proof fn lemma_rendered_one(loaded: Set<u64>, tiles: Seq<u64>, a: int, b: int, p: u64, q: u64)
    requires
        all_aligned(tiles),
        rendered_set(loaded, tiles).contains(p),
        rendered_set(loaded, tiles).contains(q),
        tile_covers(p, a, b),
        tile_covers(q, a, b),
    ensures
        p == q,
{
    let selected = selected_ancestors(loaded, tiles);
    lemma_selected_aligned(loaded, tiles, p);
    lemma_selected_aligned(loaded, tiles, q);
    lemma_encode_decoded(p);
    lemma_encode_decoded(q);
    let (px, pz, pl) = decode_spec(p).unwrap();
    let (qx, qz, ql) = decode_spec(q).unwrap();
    lemma_aligned_corner(px as int, pl as int, a);
    lemma_aligned_corner(pz as int, pl as int, b);
    lemma_aligned_corner(qx as int, ql as int, a);
    lemma_aligned_corner(qz as int, ql as int, b);
    if pl < ql {
        lemma_nested_floor(a, pl as int, ql as int);
        lemma_nested_floor(b, pl as int, ql as int);
        lemma_covered_by_coarser(selected, px, pz, pl, ql);
        assert(!is_uncovered(selected, p));
    } else if ql < pl {
        lemma_nested_floor(a, ql as int, pl as int);
        lemma_nested_floor(b, ql as int, pl as int);
        lemma_covered_by_coarser(selected, qx, qz, ql, pl);
        assert(!is_uncovered(selected, q));
    }
}

/// Drawn patches never overlap: among the patches drawn for aligned tiles, each
/// chunk lies in at most one.
pub proof fn lemma_rendered_disjoint(loaded: Set<u64>, tiles: Seq<u64>, ids: Seq<u64>, a: int, b: int)
    requires
        all_aligned(tiles),
        ids.no_duplicates(),
        ids.to_set() == rendered_set(loaded, tiles),
    ensures
        cover_count(ids, a, b) <= 1,
{
    assert forall|i: int, j: int|
        0 <= i < j < ids.len() && #[trigger] tile_covers(ids[i], a, b) implies !#[trigger] tile_covers(ids[j], a, b) by {
        if tile_covers(ids[j], a, b) {
            assert(ids.to_set().contains(ids[i]));
            assert(ids.to_set().contains(ids[j]));
            lemma_rendered_one(loaded, tiles, a, b, ids[i], ids[j]);
        }
    }
    lemma_cover_count_at_most_one(ids, a, b);
}

proof fn lemma_contains_concat(a: Seq<Quad>, b: Seq<Quad>, q: Quad)
    ensures
        (a + b).contains(q) <==> (a.contains(q) || b.contains(q)),
{
    if a.contains(q) {
        let w = choose|w: int| 0 <= w < a.len() && a[w] == q;
        assert((a + b)[w] == q);
    }
    if b.contains(q) {
        let w = choose|w: int| 0 <= w < b.len() && b[w] == q;
        assert((a + b)[a.len() + w] == q);
    }
    if (a + b).contains(q) {
        let w = choose|w: int| 0 <= w < (a + b).len() && (a + b)[w] == q;
        if w < a.len() {
            assert(a[w] == q);
        } else {
            assert(b[w - a.len()] == q);
        }
    }
}

/// Whether `id` names a patch of level one.
pub open spec fn is_full_detail(id: u64) -> bool {
    decode_spec(id) is Some && decode_spec(id).unwrap().2 == 1
}

/// Whether a ray may stop at a face of this material: the ground's grass, rock,
/// snow, gravel and dirt, and trees' wood and leaves.
pub open spec fn ray_target_material(m: u32) -> bool {
    ||| m == Material::Grass.bits()
    ||| m == Material::Rock.bits()
    ||| m == Material::Snow.bits()
    ||| m == Material::Gravel.bits()
    ||| m == Material::Dirt.bits()
    ||| m == Material::Wood.bits()
    ||| m == Material::Leaves.bits()
}

proof fn lemma_target_quads_contains(qs: Seq<Quad>, q: Quad)
    ensures
        target_quads(qs).contains(q) <==> (qs.contains(q) && ray_target_material(q.material_bits())),
    decreases qs.len(),
{
    if qs.len() > 0 {
        let rest = qs.drop_last();
        let last = qs.last();
        lemma_target_quads_contains(rest, q);
        let tail = if is_target_code(last.material_bits()) {
            seq![last]
        } else {
            Seq::empty()
        };
        lemma_contains_concat(target_quads(rest), tail, q);
        assert(qs =~= rest.push(last));
        lemma_contains_concat(rest, seq![last], q);
        assert(rest.push(last) =~= rest + seq![last]);
        if tail.contains(q) {
            assert(tail[0] == last);
        }
        if seq![last].contains(q) {
            assert(seq![last][0] == last);
        }
        assert(seq![last][0] == last);
    }
}

/// A ray stops exactly at the ground and tree faces of drawn full-detail patches:
/// a quad is a candidate if and only if it is a solid quad of a level-one patch
/// among `ids` whose material is grass, rock, snow, gravel, dirt, wood or leaves.
pub proof fn lemma_raycast_targets(words: Map<u64, (Seq<u32>, Seq<u32>)>, ids: Seq<u64>, q: Quad)
    ensures
        raycast_quads(words, ids).contains(q) <==> (ray_target_material(q.material_bits()) && exists|k: int|
            0 <= k < ids.len() && #[trigger] is_full_detail(ids[k])
                && quads_of_words(words[ids[k]].0).contains(q)),
    decreases ids.len(),
{
    if ids.len() > 0 {
        let rest = ids.drop_last();
        let last = ids.last();
        lemma_raycast_targets(words, rest, q);
        let tail = if (decode_spec(last) matches Some(d) && d.2 == 1) {
            target_quads(quads_of_words(words[last].0))
        } else {
            Seq::empty()
        };
        lemma_contains_concat(raycast_quads(words, rest), tail, q);
        lemma_target_quads_contains(quads_of_words(words[last].0), q);
        let found = ray_target_material(q.material_bits()) && exists|k: int|
            0 <= k < ids.len() && #[trigger] is_full_detail(ids[k])
                && quads_of_words(words[ids[k]].0).contains(q);
        if raycast_quads(words, ids).contains(q) {
            if raycast_quads(words, rest).contains(q) {
                let k = choose|k: int|
                    0 <= k < rest.len() && #[trigger] is_full_detail(rest[k])
                        && quads_of_words(words[rest[k]].0).contains(q);
                assert(ids[k] == rest[k]);
                assert(found);
            } else {
                assert(tail.contains(q));
                assert(decode_spec(last) is Some && decode_spec(last).unwrap().2 == 1);
                assert(ids[ids.len() - 1] == last);
                assert(is_full_detail(ids[ids.len() - 1]));
                assert(quads_of_words(words[ids[ids.len() - 1]].0).contains(q));
                assert(found);
            }
        }
        if found {
            let k = choose|k: int|
                0 <= k < ids.len() && #[trigger] is_full_detail(ids[k])
                    && quads_of_words(words[ids[k]].0).contains(q);
            if k < ids.len() - 1 {
                assert(rest[k] == ids[k]);
            } else {
                assert(ids[k] == last);
            }
        }
    }
}

fn covered_by_selected(selected: &HashSet<u64>, x: u32, z: u32, lod: u8) -> (covered: bool)
    requires
        valid_lod(lod),
        x < 1024,
        z < 1024,
    ensures
        covered == covered_above(selected@, x, z, lod),
    decreases 16 - lod,
{
    if lod >= 16 {
        return false;
    }
    let up: u8 = lod * 2;
    proof {
        lemma_round_down(x, up as u32);
        lemma_round_down(z, up as u32);
    }
    let px = x / up as u32 * up as u32;
    let pz = z / up as u32 * up as u32;
    if selected.contains(&chunk_id(px, pz, up)) {
        return true;
    }
    covered_by_selected(selected, px, pz, up)
}

impl World {
    /// The chunks whose collision list holds `k`.
    pub closed spec fn holders(&self, k: u128) -> Set<u64> {
        holders_in(self.chunks@, k)
    }

    /// Every chunk is well formed, the index counts for each key the chunks that
    /// hold it, and every stored height list has one height per column.
    pub closed spec fn wf(&self) -> bool {
        &&& forall|id: u64| #[trigger] self.chunks@.contains_key(id) ==> self.chunks@[id].wf()
        &&& forall|k: u128| #[trigger] index_count(self.collision_voxels@, k) == self.holders(k).len()
        &&& forall|k: u128| #[trigger] self.collision_voxels@.contains_key(k) ==> self.collision_voxels@[k] > 0
        &&& forall|k: u64| #[trigger] self.heights@.contains_key(k) ==> self.heights@[k].len() == CHUNK_COLUMNS
    }

    /// The words of every loaded chunk: solid quads, then water quads.
    pub closed spec fn chunk_words(&self) -> Map<u64, (Seq<u32>, Seq<u32>)> {
        Map::new(
            |id: u64| self.chunks@.contains_key(id),
            |id: u64| (flatten_spec(self.chunks@[id].solid_quads@), flatten_spec(self.chunks@[id].water_quads@)),
        )
    }

    /// The column heights of every full-detail chunk received.
    pub closed spec fn column_heights(&self) -> Map<(u32, u32), Seq<u16>> {
        Map::new(
            |c: (u32, u32)| self.heights@.contains_key(column_key(c.0, c.1)),
            |c: (u32, u32)| self.heights@[column_key(c.0, c.1)]@,
        )
    }

    /// The voxels that block movement.
    pub closed spec fn solid_voxels(&self) -> Set<(u32, u32, u32)> {
        Set::new(|v: (u32, u32, u32)| self.collision_voxels@.contains_key(voxel_key(v.0, v.1, v.2)))
    }

    /// How many chunks the store has taken.
    pub closed spec fn revision_spec(&self) -> u64 {
        self.revision
    }

    /// An empty store.
    pub fn new() -> (world: World)
        ensures
            world.wf(),
            world.chunk_words() == Map::<u64, (Seq<u32>, Seq<u32>)>::empty(),
            world.column_heights() == Map::<(u32, u32), Seq<u16>>::empty(),
            world.solid_voxels() == Set::<(u32, u32, u32)>::empty(),
            world.revision_spec() == 0,
    {
        let world = World {
            chunks: HashMap::new(),
            heights: HashMap::new(),
            collision_voxels: HashMap::new(),
            revision: 0,
        };
        proof {
            assert forall|k: u128| #[trigger] index_count(world.collision_voxels@, k) == world.holders(k).len() by {
                assert(world.holders(k) =~= Set::<u64>::empty());
            }
            assert(world.chunk_words() =~= Map::<u64, (Seq<u32>, Seq<u32>)>::empty());
            assert(world.column_heights() =~= Map::<(u32, u32), Seq<u16>>::empty());
            assert(world.solid_voxels() =~= Set::<(u32, u32, u32)>::empty());
        }
        world
    }

    /// How many chunks the store has taken, wrapping.
    pub fn revision(&self) -> (revision: u64)
        ensures
            revision == self.revision_spec(),
    {
        self.revision
    }

    /// The blocking voxels of a well-formed store are exactly the wood and leaf
    /// voxels of the chunks it holds now.
    pub proof fn lemma_solid_voxels(&self)
        requires
            self.wf(),
        ensures
            self.solid_voxels() == solid_voxels_of(self.chunk_words()),
    {
        assert forall|v: (u32, u32, u32)| self.solid_voxels().contains(v) <==> solid_voxels_of(
            self.chunk_words(),
        ).contains(v) by {
            let k = voxel_key(v.0, v.1, v.2);
            let h = self.holders(k);
            vstd::set_lib::lemma_len_subset(h, self.chunks@.dom());
            assert(index_count(self.collision_voxels@, k) == h.len());
            if self.solid_voxels().contains(v) {
                assert(h.len() > 0);
                if h =~= Set::<u64>::empty() {
                    assert(h.len() == 0);
                }
                let id = choose|id: u64| h.contains(id);
                let c = self.chunks@[id];
                assert(c.collision_voxels@.contains(k));
                assert(c.collision_voxels@.to_set().contains(k));
                assert(collision_keys_of(c.solid_quads@).contains(k));
                let i = choose|i: int|
                    0 <= i < c.solid_quads@.len() && is_collision_code(
                        #[trigger] c.solid_quads@[i].material_bits(),
                    ) && voxel_key(c.solid_quads@[i].x(), c.solid_quads@[i].y(), c.solid_quads@[i].z()) == k;
                let q = c.solid_quads@[i];
                lemma_voxel_key_injective((q.x(), q.y(), q.z()), v);
                lemma_flatten_index(c.solid_quads@);
                let w = flatten_spec(c.solid_quads@);
                assert(w[4 * i + 0] == q.packed[0]);
                assert(w[4 * i + 1] == q.packed[1]);
                assert(w[4 * i + 2] == q.packed[2]);
                assert(w[4 * i + 3] == q.packed[3]);
                assert(self.chunk_words()[id].0 == w);
                assert(collision_voxels_of_words(w).contains(v));
            }
            if solid_voxels_of(self.chunk_words()).contains(v) {
                let id = choose|id: u64|
                    self.chunk_words().contains_key(id) && #[trigger] collision_voxels_of_words(
                        self.chunk_words()[id].0,
                    ).contains(v);
                let c = self.chunks@[id];
                let w = flatten_spec(c.solid_quads@);
                lemma_flatten_index(c.solid_quads@);
                let i = choose|i: int|
                    0 <= i < w.len() / 4 && is_collision_code(#[trigger] w[4 * i + 3] >> 17u32)
                        && w[4 * i] == v.0 && w[4 * i + 1] == v.1 && w[4 * i + 2] == v.2;
                assert(w[4 * i + 0] == c.solid_quads@[i].packed[0]);
                assert(w[4 * i + 1] == c.solid_quads@[i].packed[1]);
                assert(w[4 * i + 2] == c.solid_quads@[i].packed[2]);
                assert(w[4 * i + 3] == c.solid_quads@[i].packed[3]);
                assert(is_collision_code(c.solid_quads@[i].material_bits()));
                assert(collision_keys_of(c.solid_quads@).contains(k));
                assert(c.collision_voxels@.to_set().contains(k));
                assert(h.contains(id));
                assert(h.remove(id).len() + 1 == h.len());
                assert(h.len() > 0);
            }
        }
        assert(self.solid_voxels() =~= solid_voxels_of(self.chunk_words()));
    }

    /// Whether some blocking voxel lies in the layer `y` of the rectangle.
    pub open spec fn solid_in_layer(
        solid: Set<(u32, u32, u32)>,
        y: u32,
        min_x: u32,
        max_x: u32,
        min_z: u32,
        max_z: u32,
    ) -> bool {
        exists|x: u32, z: u32|
            min_x <= x <= max_x && min_z <= z <= max_z && #[trigger] solid.contains((x, y, z))
    }

    fn layer_has_solid(&self, y: u32, min_x: u32, max_x: u32, min_z: u32, max_z: u32) -> (found:
        bool)
        ensures
            found == Self::solid_in_layer(self.solid_voxels(), y, min_x, max_x, min_z, max_z),
    {
        if min_z > max_z || min_x > max_x {
            return false;
        }
        let mut z: u64 = min_z as u64;
        while z <= max_z as u64
            invariant
                min_x <= max_x,
                min_z <= z <= max_z as u64 + 1,
                forall|x2: u32, z2: u32|
                    min_x <= x2 <= max_x && min_z <= z2 < z ==> !#[trigger] self.solid_voxels().contains(
                        (x2, y, z2),
                    ),
            decreases max_z as u64 + 1 - z,
        {
            let mut x: u64 = min_x as u64;
            while x <= max_x as u64
                invariant
                    min_x <= x <= max_x as u64 + 1,
                    min_z <= z <= max_z,
                    forall|x2: u32, z2: u32|
                        (min_x <= x2 <= max_x && min_z <= z2 < z) || (min_x <= x2 < x && z2 == z)
                            ==> !#[trigger] self.solid_voxels().contains((x2, y, z2)),
                decreases max_x as u64 + 1 - x,
            {
                let key = voxel_key_exec(x as u32, y, z as u32);
                if self.collision_voxels.contains_key(&key) {
                    assert(self.solid_voxels().contains((x as u32, y, z as u32)));
                    return true;
                }
                x = x + 1;
            }
            z = z + 1;
        }
        false
    }

    /// Whether some blocking voxel lies in the box of voxels `min..=max` (per axis).
    pub fn intersects_solid_voxels(
        &self,
        min_x: u32,
        max_x: u32,
        min_y: u32,
        max_y: u32,
        min_z: u32,
        max_z: u32,
    ) -> (found: bool)
        ensures
            found == exists|y: u32|
                min_y <= y <= max_y && #[trigger] Self::solid_in_layer(
                    self.solid_voxels(),
                    y,
                    min_x,
                    max_x,
                    min_z,
                    max_z,
                ),
    {
        if min_y > max_y {
            return false;
        }
        let mut y: u64 = min_y as u64;
        while y <= max_y as u64
            invariant
                min_y <= y <= max_y as u64 + 1,
                forall|y2: u32|
                    min_y <= y2 < y ==> !#[trigger] Self::solid_in_layer(
                        self.solid_voxels(),
                        y2,
                        min_x,
                        max_x,
                        min_z,
                        max_z,
                    ),
            decreases max_y as u64 + 1 - y,
        {
            if self.layer_has_solid(y as u32, min_x, max_x, min_z, max_z) {
                return true;
            }
            y = y + 1;
        }
        false
    }

    /// The highest layer in `min_y..=max_y` that holds a blocking voxel of the rectangle.
    pub fn highest_solid_layer(
        &self,
        min_x: u32,
        max_x: u32,
        min_y: u32,
        max_y: u32,
        min_z: u32,
        max_z: u32,
    ) -> (layer: Option<u32>)
        ensures
            layer matches Some(y) ==> min_y <= y <= max_y && Self::solid_in_layer(
                self.solid_voxels(),
                y,
                min_x,
                max_x,
                min_z,
                max_z,
            ),
            forall|y: u32|
                #![trigger Self::solid_in_layer(self.solid_voxels(), y, min_x, max_x, min_z, max_z)]
                min_y <= y <= max_y && Self::solid_in_layer(
                    self.solid_voxels(),
                    y,
                    min_x,
                    max_x,
                    min_z,
                    max_z,
                ) ==> (layer matches Some(top) && y <= top),
    {
        if min_y > max_y {
            return None;
        }
        let mut y: u64 = max_y as u64 + 1;
        while y > min_y as u64
            invariant
                min_y <= y <= max_y as u64 + 1,
                forall|y2: u32|
                    y <= y2 <= max_y ==> !#[trigger] Self::solid_in_layer(
                        self.solid_voxels(),
                        y2,
                        min_x,
                        max_x,
                        min_z,
                        max_z,
                    ),
            decreases y,
        {
            y = y - 1;
            if self.layer_has_solid(y as u32, min_x, max_x, min_z, max_z) {
                return Some(y as u32);
            }
        }
        None
    }

    /// The lowest layer in `min_y..=max_y` that holds a blocking voxel of the rectangle.
    pub fn lowest_solid_layer(
        &self,
        min_x: u32,
        max_x: u32,
        min_y: u32,
        max_y: u32,
        min_z: u32,
        max_z: u32,
    ) -> (layer: Option<u32>)
        ensures
            layer matches Some(y) ==> min_y <= y <= max_y && Self::solid_in_layer(
                self.solid_voxels(),
                y,
                min_x,
                max_x,
                min_z,
                max_z,
            ),
            forall|y: u32|
                #![trigger Self::solid_in_layer(self.solid_voxels(), y, min_x, max_x, min_z, max_z)]
                min_y <= y <= max_y && Self::solid_in_layer(
                    self.solid_voxels(),
                    y,
                    min_x,
                    max_x,
                    min_z,
                    max_z,
                ) ==> (layer matches Some(bottom) && bottom <= y),
    {
        if min_y > max_y {
            return None;
        }
        let mut y: u64 = min_y as u64;
        while y <= max_y as u64
            invariant
                min_y <= y <= max_y as u64 + 1,
                forall|y2: u32|
                    min_y <= y2 < y ==> !#[trigger] Self::solid_in_layer(
                        self.solid_voxels(),
                        y2,
                        min_x,
                        max_x,
                        min_z,
                        max_z,
                    ),
            decreases max_y as u64 + 1 - y,
        {
            if self.layer_has_solid(y as u32, min_x, max_x, min_z, max_z) {
                return Some(y as u32);
            }
            y = y + 1;
        }
        None
    }

    /// The stored height of the column at voxel `(voxel_x, voxel_z)`, if its chunk's
    /// heights were received.
    pub fn height_at_voxel(&self, voxel_x: usize, voxel_z: usize) -> (height: Option<u16>)
        requires
            self.wf(),
        ensures
            ({
                let c = (((voxel_x / 32) as u32), ((voxel_z / 32) as u32));
                let local = (voxel_x % 32) + 32 * (voxel_z % 32);
                height == if self.column_heights().contains_key(c) {
                    Some(self.column_heights()[c][local as int])
                } else {
                    None
                }
            }),
    {
        let chunk_x = (voxel_x / CHUNK_SIZE as usize) as u32;
        let chunk_z = (voxel_z / CHUNK_SIZE as usize) as u32;
        let key = column_key_exec(chunk_x, chunk_z);
        match self.heights.get(&key) {
            None => None,
            Some(heights) => {
                let local = voxel_x % 32 + 32 * (voxel_z % 32);
                Some(heights[local])
            },
        }
    }

    /// The ids of the loaded chunks.
    pub closed spec fn loaded_ids(&self) -> Set<u64> {
        self.chunks@.dom()
    }

    /// A chunk is loaded exactly when the store holds its words.
    pub proof fn lemma_loaded_ids(&self)
        ensures
            self.loaded_ids() == self.chunk_words().dom(),
    {
        assert(self.loaded_ids() =~= self.chunk_words().dom());
    }

    /// The first loaded patch at or above the patch `id`.
    pub fn loaded_ancestor(&self, id: u64) -> (ancestor: Option<u64>)
        ensures
            ancestor == loaded_ancestor_spec(self.loaded_ids(), id),
    {
        let (mut x, mut z, mut lod) = match decode_chunk_id(id) {
            Some(t) => t,
            None => return None,
        };
        proof {
            lemma_encode_decoded(id);
        }
        let ghost target = ancestor_in(self.loaded_ids(), x, z, lod);
        assert(target == loaded_ancestor_spec(self.loaded_ids(), id));
        loop
            invariant
                target == loaded_ancestor_spec(self.loaded_ids(), id),
                valid_lod(lod),
                x < 1024,
                z < 1024,
                ancestor_in(self.loaded_ids(), x, z, lod) == target,
            decreases 16 - lod,
        {
            let candidate = chunk_id(x, z, lod);
            if self.chunks.contains_key(&candidate) {
                return Some(candidate);
            }
            if lod == 16 {
                return None;
            }
            lod = lod * 2;
            proof {
                lemma_round_down(x, lod as u32);
                lemma_round_down(z, lod as u32);
            }
            x = x / lod as u32 * lod as u32;
            z = z / lod as u32 * lod as u32;
        }
    }

    /// The loaded patches to draw around a stream center: for every desired tile its
    /// first loaded ancestor, leaving out those covered by a coarser one. Each once.
    pub fn rendered_chunk_ids(&self, center_x: i64, center_z: i64) -> (ids: Vec<u64>)
        requires
            center_in_range(center_x),
            center_in_range(center_z),
        ensures
            ids@.no_duplicates(),
            ids@.to_set() == rendered_set(
                self.loaded_ids(),
                stream_tiles(root_rule(false, center_x as int, center_z as int), center_x as int, center_z as int),
            ),
            forall|a: int, b: int| #[trigger] cover_count(ids@, a, b) <= 1,
    {
        let tiles = stream_root_tiles(center_x, center_z, false);
        let ghost loaded = self.loaded_ids();
        let mut seen: HashSet<u64> = HashSet::new();
        let mut selected: Vec<u64> = Vec::new();
        let mut i: usize = 0;
        while i < tiles.len()
            invariant
                i <= tiles.len(),
                loaded == self.loaded_ids(),
                selected@.no_duplicates(),
                seen@ == selected@.to_set(),
                forall|a: u64|
                    #![trigger selected@.to_set().contains(a)]
                    selected@.to_set().contains(a) <==> exists|j: int|
                        0 <= j < i && #[trigger] loaded_ancestor_spec(loaded, tiles@[j]) == Some(a),
            decreases tiles.len() - i,
        {
            let ghost before = selected@;
            match self.loaded_ancestor(tiles[i]) {
                Some(a) => {
                    if seen.insert(a) {
                        selected.push(a);
                        proof {
                            before.lemma_push_to_set_commute(a);
                            assert(selected@.to_set() =~= seen@);
                            assert forall|p: int, q: int|
                                0 <= p < selected.len() && 0 <= q < selected.len() && p != q implies selected@[p]
                                != selected@[q] by {
                                if p < before.len() && q < before.len() {
                                } else if p == before.len() {
                                    assert(before.to_set().contains(selected@[q]));
                                } else {
                                    assert(before.to_set().contains(selected@[p]));
                                }
                            }
                        }
                    }
                },
                None => {},
            }
            proof {
                assert forall|a: u64| #![trigger selected@.to_set().contains(a)]
                    selected@.to_set().contains(a) <==> exists|j: int|
                        0 <= j < i + 1 && #[trigger] loaded_ancestor_spec(loaded, tiles@[j]) == Some(a) by {
                    if selected@.to_set().contains(a) && !before.to_set().contains(a) {
                        assert(loaded_ancestor_spec(loaded, tiles@[i as int]) == Some(a));
                    }
                    if loaded_ancestor_spec(loaded, tiles@[i as int]) == Some(a) {
                        assert(seen@.contains(a));
                    }
                }
            }
            i = i + 1;
        }
        let ghost sel = selected_ancestors(loaded, tiles@);
        assert(selected@.to_set() =~= sel);
        let mut ids: Vec<u64> = Vec::new();
        let mut k: usize = 0;
        while k < selected.len()
            invariant
                k <= selected.len(),
                selected@.no_duplicates(),
                seen@ == sel,
                selected@.to_set() == sel,
                ids@.no_duplicates(),
                forall|a: u64|
                    #![trigger ids@.to_set().contains(a)]
                    ids@.to_set().contains(a) <==> (selected@.take(k as int).contains(a) && is_uncovered(sel, a)),
            decreases selected.len() - k,
        {
            let a = selected[k];
            let ghost before = ids@;
            let keep = match decode_chunk_id(a) {
                Some((x, z, lod)) => {
                    proof {
                        lemma_encode_decoded(a);
                    }
                    !covered_by_selected(&seen, x, z, lod)
                },
                None => false,
            };
            proof {
                assert(selected@.take(k + 1) =~= selected@.take(k as int).push(a));
                assert(!selected@.take(k as int).contains(a));
            }
            if keep {
                ids.push(a);
                proof {
                    before.lemma_push_to_set_commute(a);
                    assert(!before.to_set().contains(a));
                    assert forall|p: int, q: int|
                        0 <= p < ids.len() && 0 <= q < ids.len() && p != q implies ids@[p] != ids@[q] by {
                        if p < before.len() && q < before.len() {
                        } else if p == before.len() {
                            assert(before.to_set().contains(ids@[q]));
                        } else {
                            assert(before.to_set().contains(ids@[p]));
                        }
                    }
                }
            }
            proof {
                assert forall|b: u64| #![trigger ids@.to_set().contains(b)]
                    ids@.to_set().contains(b) <==> (selected@.take(k + 1).contains(b) && is_uncovered(sel, b)) by {
                    if b != a {
                        assert(selected@.take(k + 1).contains(b) == selected@.take(k as int).contains(b));
                        if keep {
                            assert(ids@.to_set().contains(b) == before.to_set().contains(b));
                        }
                    } else {
                        assert(selected@.take(k + 1)[k as int] == b);
                    }
                }
            }
            k = k + 1;
        }
        proof {
            assert(selected@.take(selected.len() as int) =~= selected@);
            assert(ids@.to_set() =~= rendered_set(loaded, tiles@));
            lemma_stream_tiles_aligned(center_x as int, center_z as int);
            assert forall|a: int, b: int| #[trigger] cover_count(ids@, a, b) <= 1 by {
                lemma_rendered_disjoint(loaded, tiles@, ids@, a, b);
            }
        }
        ids
    }

    /// The chunks to mesh around a stream center, shared with the store.
    pub fn mesh_request(&self, center_x: i64, center_z: i64) -> (request: MeshRequest)
        requires
            center_in_range(center_x),
            center_in_range(center_z),
        ensures
            exists|ids: Seq<u64>|
                {
                    &&& ids.no_duplicates()
                    &&& ids.to_set() == rendered_set(
                        self.loaded_ids(),
                        stream_tiles(root_rule(false, center_x as int, center_z as int), center_x as int, center_z as int),
                    )
                    &&& forall|a: int, b: int| #[trigger] cover_count(ids, a, b) <= 1
                    &&& request.chunks@.len() == ids.len()
                    &&& forall|i: int|
                        0 <= i < ids.len() ==> #[trigger] self.chunk_words()[ids[i]] == (
                            flatten_spec(request.chunks@[i].solid_quads@),
                            flatten_spec(request.chunks@[i].water_quads@),
                        )
                },
    {
        let ids = self.rendered_chunk_ids(center_x, center_z);
        let mut chunks: Vec<Arc<Chunk>> = Vec::new();
        let mut i: usize = 0;
        while i < ids.len()
            invariant
                i <= ids.len(),
                ids@.to_set() == rendered_set(
                    self.loaded_ids(),
                    stream_tiles(root_rule(false, center_x as int, center_z as int), center_x as int, center_z as int),
                ),
                chunks.len() == i,
                chunks@ =~= ids@.take(i as int).map_values(|id: u64| self.chunks@[id]),
            decreases ids.len() - i,
        {
            let id = ids[i];
            proof {
                assert(ids@.to_set().contains(id));
                lemma_rendered_loaded(
                    self.loaded_ids(),
                    stream_tiles(root_rule(false, center_x as int, center_z as int), center_x as int, center_z as int),
                    id,
                );
            }
            let found = self.chunks.get(&id);
            let shared = share_chunk(found.unwrap());
            let ghost prev = chunks@;
            chunks.push(shared);
            assert(shared == self.chunks@[id]);
            assert(ids@.take(i + 1) =~= ids@.take(i as int).push(id));
            assert(chunks@ =~= ids@.take(i + 1).map_values(|id: u64| self.chunks@[id]));
            i = i + 1;
        }
        proof {
            assert forall|j: int| 0 <= j < ids.len() implies #[trigger] self.chunk_words()[ids@[j]] == (
                flatten_spec(chunks@[j].solid_quads@),
                flatten_spec(chunks@[j].water_quads@),
            ) by {
                assert(ids@.take(ids.len() as int) =~= ids@);
                assert(chunks@[j] == self.chunks@[ids@[j]]);
                assert(ids@.to_set().contains(ids@[j]));
                lemma_rendered_loaded(
                    self.loaded_ids(),
                    stream_tiles(root_rule(false, center_x as int, center_z as int), center_x as int, center_z as int),
                    ids@[j],
                );
            }
        }
        MeshRequest { chunks }
    }

    /// The quads that a ray cast around a stream center can hit: the quads of
    /// targetable material of the full-detail patches drawn there, patch by patch.
    pub fn raycast_candidates(&self, center_x: i64, center_z: i64) -> (quads: Vec<Quad>)
        requires
            self.wf(),
            center_in_range(center_x),
            center_in_range(center_z),
        ensures
            exists|ids: Seq<u64>|
                #![trigger raycast_quads(self.chunk_words(), ids)]
                {
                    &&& ids.no_duplicates()
                    &&& ids.to_set() == rendered_set(
                        self.loaded_ids(),
                        stream_tiles(root_rule(false, center_x as int, center_z as int), center_x as int, center_z as int),
                    )
                    &&& quads@ == raycast_quads(self.chunk_words(), ids)
                    &&& forall|q: Quad|
                        #[trigger] quads@.contains(q) <==> (ray_target_material(q.material_bits()) && exists|k: int|
                            0 <= k < ids.len() && #[trigger] is_full_detail(ids[k]) && quads_of_words(
                                self.chunk_words()[ids[k]].0,
                            ).contains(q))
                },
    {
        let ids = self.rendered_chunk_ids(center_x, center_z);
        let ghost words = self.chunk_words();
        let mut quads: Vec<Quad> = Vec::new();
        let mut i: usize = 0;
        while i < ids.len()
            invariant
                i <= ids.len(),
                words == self.chunk_words(),
                ids@.to_set() == rendered_set(
                    self.loaded_ids(),
                    stream_tiles(root_rule(false, center_x as int, center_z as int), center_x as int, center_z as int),
                ),
                quads@ == raycast_quads(words, ids@.take(i as int)),
            decreases ids.len() - i,
        {
            let id = ids[i];
            proof {
                assert(ids@.to_set().contains(id));
                lemma_rendered_loaded(
                    self.loaded_ids(),
                    stream_tiles(root_rule(false, center_x as int, center_z as int), center_x as int, center_z as int),
                    id,
                );
                assert(ids@.take(i + 1).drop_last() =~= ids@.take(i as int));
                assert(ids@.take(i + 1).last() == id);
            }
            let full_detail = match decode_chunk_id(id) {
                Some((_, _, lod)) => lod == 1,
                None => false,
            };
            if full_detail {
                let chunk = self.chunks.get(&id).unwrap();
                let ghost before = quads@;
                proof {
                    lemma_quads_of_flatten(chunk.solid_quads@);
                    assert(words[id].0 == flatten_spec(chunk.solid_quads@));
                }
                let mut j: usize = 0;
                while j < chunk.solid_quads.len()
                    invariant
                        j <= chunk.solid_quads.len(),
                        quads@ == before + target_quads(chunk.solid_quads@.take(j as int)),
                    decreases chunk.solid_quads.len() - j,
                {
                    let q = chunk.solid_quads[j];
                    proof {
                        assert(chunk.solid_quads@.take(j + 1).drop_last() =~= chunk.solid_quads@.take(j as int));
                        assert(chunk.solid_quads@.take(j + 1).last() == q);
                    }
                    let code = q.material_code();
                    if code == 0 || code == 1 || code == 2 || code == 6 || code == 7 || code == 9 || code == 10 {
                        quads.push(q);
                    }
                    assert(quads@ =~= before + target_quads(chunk.solid_quads@.take(j + 1)));
                    j = j + 1;
                }
                assert(chunk.solid_quads@.take(chunk.solid_quads.len() as int) =~= chunk.solid_quads@);
                assert(quads@ =~= raycast_quads(words, ids@.take(i + 1)));
            } else {
                assert(quads@ =~= raycast_quads(words, ids@.take(i + 1)));
            }
            i = i + 1;
        }
        assert(ids@.take(ids.len() as int) =~= ids@);
        assert forall|q: Quad|
            #[trigger] quads@.contains(q) <==> (ray_target_material(q.material_bits()) && exists|k: int|
                0 <= k < ids.len() && #[trigger] is_full_detail(ids@[k]) && quads_of_words(
                    self.chunk_words()[ids@[k]].0,
                ).contains(q)) by {
            lemma_raycast_targets(words, ids@, q);
        }
        quads
    }

    /// Takes a streamed chunk, replacing any chunk with the same id; ignores it when
    /// it is malformed (see `chunk_accepted`). Whatever happens, the blocking voxels
    /// are afterwards exactly the wood and leaf voxels of the chunks held.
    pub fn insert_chunk(
        &mut self,
        id: u64,
        chunk_x: u32,
        chunk_z: u32,
        heights: Vec<u16>,
        solid_quads: Vec<u32>,
        water_quads: Vec<u32>,
    )
        requires
            old(self).wf(),
        ensures
            final(self).wf(),
            final(self).solid_voxels() == solid_voxels_of(final(self).chunk_words()),
            chunk_accepted(id, heights@, solid_quads@, water_quads@) ==> {
                &&& final(self).chunk_words() == old(self).chunk_words().insert(
                    id,
                    (solid_quads@, water_quads@),
                )
                &&& final(self).column_heights() == if heights@.len() == 0 {
                    old(self).column_heights()
                } else {
                    old(self).column_heights().insert((chunk_x, chunk_z), heights@)
                }
                &&& final(self).revision_spec() == old(self).revision_spec().wrapping_add(1)
            },
            !chunk_accepted(id, heights@, solid_quads@, water_quads@) ==> {
                &&& final(self).chunk_words() == old(self).chunk_words()
                &&& final(self).column_heights() == old(self).column_heights()
                &&& final(self).revision_spec() == old(self).revision_spec()
            },
    {
        let ghost solid_words = solid_quads@;
        let ghost water_words = water_quads@;
        let ghost height_list = heights@;
        if decode_chunk_id(id).is_none() {
            proof { self.lemma_solid_voxels(); }
            return ;
        }
        let solid = match unpack_quads(solid_quads) {
            Some(q) => q,
            None => {
                proof { self.lemma_solid_voxels(); }
                return ;
            },
        };
        let water = match unpack_quads(water_quads) {
            Some(q) => q,
            None => {
                proof { self.lemma_solid_voxels(); }
                return ;
            },
        };
        if heights.len() != 0 && heights.len() != CHUNK_COLUMNS {
            proof { self.lemma_solid_voxels(); }
            return ;
        }
        proof {
            lemma_flatten_unpack(solid_words, solid@);
            lemma_flatten_unpack(water_words, water@);
        }
        let ghost old_heights = self.heights@;
        if heights.len() != 0 {
            let key = column_key_exec(chunk_x, chunk_z);
            self.heights.insert(key, heights);
            proof {
                assert forall|c: (u32, u32)| #![trigger column_key(c.0, c.1)]
                    column_key(c.0, c.1) == key ==> c == (chunk_x, chunk_z) by {
                    lemma_column_key_injective(c, (chunk_x, chunk_z));
                }
                assert(self.column_heights() =~= old(self).column_heights().insert(
                    (chunk_x, chunk_z),
                    height_list,
                ));
            }
        }
        let collision = collision_keys(&solid);
        let ghost c0 = self.chunks@;
        let previous = self.chunks.remove(&id);
        let ghost c1 = self.chunks@;
        proof {
            assert forall|k: u128| #[trigger] index_count(self.collision_voxels@, k) == holders_in(
                c0,
                k,
            ).len() by {
                assert(index_count(self.collision_voxels@, k) == old(self).holders(k).len());
            }
        }
        match previous {
            Some(prev) => {
                proof {
                    assert(c0.contains_key(id) && c0[id] == prev);
                    assert(c1 == c0.remove(id));
                    assert forall|k: u128| #[trigger] prev.collision_voxels@.contains(k) implies index_count(
                        self.collision_voxels@,
                        k,
                    ) >= 1 by {
                        lemma_holders_remove(c0, id, k);
                    }
                }
                release_keys(&mut self.collision_voxels, &prev.collision_voxels);
                proof {
                    assert forall|k: u128| #[trigger] index_count(self.collision_voxels@, k) == holders_in(
                        c1,
                        k,
                    ).len() by {
                        lemma_holders_remove(c0, id, k);
                    }
                }
            },
            None => {
                proof {
                    assert(c1 == c0);
                }
            },
        }
        let ghost c1_index = self.collision_voxels@;
        let keys = collision.clone();
        let chunk = Arc::new(Chunk { solid_quads: solid, water_quads: water, collision_voxels: collision });
        self.chunks.insert(id, chunk);
        let ghost c2 = self.chunks@;
        let n = self.chunks.len();
        proof {
            assert(!c1.contains_key(id));
            assert(c2 == c1.insert(id, chunk));
            assert(c2.dom() =~= c1.dom().insert(id));
            assert forall|k: u128| #[trigger] keys@.contains(k) implies index_count(
                self.collision_voxels@,
                k,
            ) < usize::MAX by {
                lemma_holders_insert(c1, id, chunk, k);
            }
        }
        acquire_keys(&mut self.collision_voxels, &keys);
        self.revision = self.revision.wrapping_add(1);
        proof {
            assert forall|k: u128| #[trigger] index_count(self.collision_voxels@, k) == self.holders(k).len() by {
                assert(index_count(c1_index, k) == holders_in(c1, k).len());
                lemma_holders_insert(c1, id, chunk, k);
            }
            assert(c2 =~= c0.insert(id, chunk));
            assert(self.chunk_words() =~= old(self).chunk_words().insert(id, (solid_words, water_words)));
            if height_list.len() == 0 {
                assert(self.heights@ == old_heights);
                assert(self.column_heights() =~= old(self).column_heights());
            }
            self.lemma_solid_voxels();
        }
    }
}

} // verus!
