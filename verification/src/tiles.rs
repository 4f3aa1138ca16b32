//! Chunk identifiers and the level-of-detail tile selection that decides which
//! patches the client streams around the camera.
//!
//! A chunk id packs a patch's chunk coordinates and level of detail: bits 0..10
//! hold `chunk_x`, bits 10..20 `chunk_z`, bits 20..23 the level code and bit 23 is
//! the patch-format flag. A patch of level `lod` covers `lod` by `lod` chunks.

use vstd::prelude::*;
use vstd::std_specs::hash::group_hash_axioms;
use std::collections::HashSet;
use crate::layout::{WORLD_CHUNKS, RENDER_DISTANCE_CHUNKS};

verus! {

broadcast use vstd::seq_lib::group_to_multiset_ensures;

/// The flag that marks an id in the patch format.
pub const PATCH_FORMAT_FLAG: u64 = 8388608;

/// Chunks per stream cell along each axis.
pub const STREAM_STEP: i64 = 16;

/// The coarsest level of detail.
pub const TOP_LOD: u8 = 16;

/// The levels of detail a patch can have.
pub open spec fn valid_lod(lod: u8) -> bool {
    lod == 1 || lod == 2 || lod == 4 || lod == 8 || lod == 16
}

/// The three-bit code of a level of detail.
pub open spec fn lod_code(lod: u8) -> u64 {
    if lod == 1 {
        0
    } else if lod == 2 {
        1
    } else if lod == 4 {
        2
    } else if lod == 8 {
        3
    } else {
        4
    }
}

/// The level of detail that a three-bit code stands for, if any.
pub open spec fn lod_of_code(code: u64) -> Option<u8> {
    if code == 0 {
        Some(1u8)
    } else if code == 1 {
        Some(2u8)
    } else if code == 2 {
        Some(4u8)
    } else if code == 3 {
        Some(8u8)
    } else if code == 4 {
        Some(16u8)
    } else {
        None
    }
}

/// The id of the patch at chunk `(x, z)` with level `lod`.
pub open spec fn chunk_id_of(x: u32, z: u32, lod: u8) -> u64 {
    PATCH_FORMAT_FLAG | (x as u64) | ((z as u64) << 10u64) | (lod_code(lod) << 20u64)
}

/// What an id stands for: `(chunk_x, chunk_z, lod)`, or `None` for a malformed id.
pub open spec fn decode_spec(id: u64) -> Option<(u32, u32, u8)> {
    if (id >> 24u64) != 0 || id & PATCH_FORMAT_FLAG == 0 {
        None
    } else {
        match lod_of_code((id >> 20u64) & 7) {
            Some(lod) => Some(((id & 1023) as u32, ((id >> 10u64) & 1023) as u32, lod)),
            None => None,
        }
    }
}

proof fn lemma_id_bits(x: u64, z: u64, c: u64)
    by (bit_vector)
    requires
        x < 1024,
        z < 1024,
        c < 5,
    ensures
        ((8388608u64 | x | (z << 10u64) | (c << 20u64)) >> 24u64) == 0,
        (8388608u64 | x | (z << 10u64) | (c << 20u64)) & 8388608u64 != 0,
        ((8388608u64 | x | (z << 10u64) | (c << 20u64)) >> 20u64) & 7 == c,
        (8388608u64 | x | (z << 10u64) | (c << 20u64)) & 1023 == x,
        ((8388608u64 | x | (z << 10u64) | (c << 20u64)) >> 10u64) & 1023 == z,
{
}

proof fn lemma_id_rebuild(id: u64)
    by (bit_vector)
    requires
        (id >> 24u64) == 0,
        id & 8388608u64 != 0,
    ensures
        (8388608u64 | (id & 1023) | (((id >> 10u64) & 1023) << 10u64) | (((id >> 20u64) & 7)
            << 20u64)) == id,
        id & 1023 < 1024,
        (id >> 10u64) & 1023 < 1024,
{
}

/// Decoding the id of a patch gives back its coordinates and level.
pub proof fn lemma_decode_chunk_id(x: u32, z: u32, lod: u8)
    requires
        x < 1024,
        z < 1024,
        valid_lod(lod),
    ensures
        decode_spec(chunk_id_of(x, z, lod)) == Some((x, z, lod)),
{
    lemma_id_bits(x as u64, z as u64, lod_code(lod));
}

/// Every id that decodes is the id of what it decodes to.
pub proof fn lemma_encode_decoded(id: u64)
    requires
        decode_spec(id) is Some,
    ensures
        ({
            let (x, z, lod) = decode_spec(id).unwrap();
            &&& chunk_id_of(x, z, lod) == id
            &&& x < 1024
            &&& z < 1024
            &&& valid_lod(lod)
        }),
{
    lemma_id_rebuild(id);
}

/// The id of the patch at chunk `(chunk_x, chunk_z)` with level `lod`.
pub fn chunk_id(chunk_x: u32, chunk_z: u32, lod: u8) -> (id: u64)
    requires
        valid_lod(lod),
    ensures
        id == chunk_id_of(chunk_x, chunk_z, lod),
{
    let code: u64 = if lod == 1 {
        0
    } else if lod == 2 {
        1
    } else if lod == 4 {
        2
    } else if lod == 8 {
        3
    } else {
        4
    };
    PATCH_FORMAT_FLAG | (chunk_x as u64) | ((chunk_z as u64) << 10) | (code << 20)
}

/// Splits an id into `(chunk_x, chunk_z, lod)`; `None` when it is malformed.
pub fn decode_chunk_id(id: u64) -> (decoded: Option<(u32, u32, u8)>)
    ensures
        decoded == decode_spec(id),
{
    if (id >> 24) != 0 || id & PATCH_FORMAT_FLAG == 0 {
        return None;
    }
    let code = (id >> 20) & 7;
    let lod: u8 = if code == 0 {
        1
    } else if code == 1 {
        2
    } else if code == 2 {
        4
    } else if code == 3 {
        8
    } else if code == 4 {
        16
    } else {
        return None;
    };
    Some(((id & 1023) as u32, ((id >> 10) & 1023) as u32, lod))
}

/// Distance from `value` to the half-open range `start..end`.
pub open spec fn range_distance(value: int, start: int, end: int) -> int {
    if value < start {
        start - value
    } else if value >= end {
        value - (end - 1)
    } else {
        0
    }
}

/// Coordinates far enough from the machine limits for every distance below.
pub open spec fn coordinate_in_range(c: i64) -> bool {
    -0x4000_0000_0000_0000 <= c <= 0x4000_0000_0000_0000
}

/// Distance from `value` to the half-open range `start..end`, in chunks.
pub fn distance_to_range(value: i64, start: i64, end: i64) -> (distance: i64)
    requires
        value < start ==> start - value <= i64::MAX,
        value >= end ==> end - 1 >= i64::MIN && value - (end - 1) <= i64::MAX,
    ensures
        distance == range_distance(value as int, start as int, end as int),
{
    if value < start {
        start - value
    } else if value >= end {
        value - (end - 1)
    } else {
        0
    }
}

/// Chebyshev distance in chunks from `(center_x, center_z)` to a patch, clipped to the world.
pub open spec fn tile_distance_spec(x: u32, z: u32, lod: u8, center_x: int, center_z: int) -> int {
    let end_x = if x + lod < WORLD_CHUNKS {
        x + lod
    } else {
        WORLD_CHUNKS as int
    };
    let end_z = if z + lod < WORLD_CHUNKS {
        z + lod
    } else {
        WORLD_CHUNKS as int
    };
    let dx = range_distance(center_x, x as int, end_x);
    let dz = range_distance(center_z, z as int, end_z);
    if dx >= dz {
        dx
    } else {
        dz
    }
}

/// Chebyshev distance in chunks from `(center_x, center_z)` to a patch, clipped to the world.
pub fn tile_distance(chunk_x: u32, chunk_z: u32, lod: u8, center_x: i64, center_z: i64) -> (distance:
    i64)
    requires
        chunk_x + lod <= u32::MAX,
        chunk_z + lod <= u32::MAX,
        coordinate_in_range(center_x),
        coordinate_in_range(center_z),
    ensures
        distance == tile_distance_spec(chunk_x, chunk_z, lod, center_x as int, center_z as int),
        distance >= 0,
{
    let end_x: i64 = if chunk_x + (lod as u32) < WORLD_CHUNKS {
        (chunk_x + lod as u32) as i64
    } else {
        WORLD_CHUNKS as i64
    };
    let end_z: i64 = if chunk_z + (lod as u32) < WORLD_CHUNKS {
        (chunk_z + lod as u32) as i64
    } else {
        WORLD_CHUNKS as i64
    };
    let dx = distance_to_range(center_x, chunk_x as i64, end_x);
    let dz = distance_to_range(center_z, chunk_z as i64, end_z);
    if dx >= dz {
        dx
    } else {
        dz
    }
}

/// The distance below which a patch of level `lod` splits into its four children.
pub open spec fn refinement_distance(lod: u8) -> int {
    if lod == 16 {
        128
    } else if lod == 8 {
        64
    } else if lod == 4 {
        32
    } else {
        16
    }
}

/// The level-of-detail quadtree below a patch: the patch itself when it is far
/// enough or of level 1, else the selections of its in-world children in the order
/// `(x, z)`, `(x + h, z)`, `(x, z + h)`, `(x + h, z + h)`; nothing beyond the render
/// distance.
pub open spec fn select_spec(x: u32, z: u32, lod: u8, center_x: int, center_z: int) -> Seq<u64>
    decreases lod, 0int,
{
    let distance = tile_distance_spec(x, z, lod, center_x, center_z);
    if distance > RENDER_DISTANCE_CHUNKS {
        Seq::empty()
    } else if lod <= 1 || distance > refinement_distance(lod) {
        seq![chunk_id_of(x, z, lod)]
    } else {
        let h = (lod / 2) as u8;
        child_select(x, z, h, center_x, center_z) + child_select((x + h) as u32, z, h, center_x, center_z)
            + child_select(x, (z + h) as u32, h, center_x, center_z) + child_select(
            (x + h) as u32,
            (z + h) as u32,
            h,
            center_x,
            center_z,
        )
    }
}

/// The selection below a child patch, or nothing when the child lies outside the world.
pub open spec fn child_select(x: u32, z: u32, lod: u8, center_x: int, center_z: int) -> Seq<u64>
    decreases lod, 1int,
{
    if x < WORLD_CHUNKS && z < WORLD_CHUNKS {
        select_spec(x, z, lod, center_x, center_z)
    } else {
        Seq::empty()
    }
}

/// Every selected id names an in-world patch of a valid level, aligned to it.
pub open spec fn selected_ids_wf(ids: Seq<u64>) -> bool {
    forall|i: int|
        0 <= i < ids.len() ==> {
            let d = #[trigger] decode_spec(ids[i]);
            &&& d is Some
            &&& d.unwrap().0 < WORLD_CHUNKS
            &&& d.unwrap().1 < WORLD_CHUNKS
        }
}

proof fn lemma_select_wf(x: u32, z: u32, lod: u8, center_x: int, center_z: int)
    requires
        x < WORLD_CHUNKS,
        z < WORLD_CHUNKS,
        valid_lod(lod),
    ensures
        selected_ids_wf(select_spec(x, z, lod, center_x, center_z)),
        select_spec(x, z, lod, center_x, center_z).len() <= lod * lod,
    decreases lod, 0int,
{
    let distance = tile_distance_spec(x, z, lod, center_x, center_z);
    if distance > RENDER_DISTANCE_CHUNKS {
    } else if lod <= 1 || distance > refinement_distance(lod) {
        lemma_decode_chunk_id(x, z, lod);
        let s = select_spec(x, z, lod, center_x, center_z);
        assert(s[0] == chunk_id_of(x, z, lod));
    } else {
        let h = (lod / 2) as u8;
        let a = child_select(x, z, h, center_x, center_z);
        let b = child_select((x + h) as u32, z, h, center_x, center_z);
        let c = child_select(x, (z + h) as u32, h, center_x, center_z);
        let d = child_select((x + h) as u32, (z + h) as u32, h, center_x, center_z);
        lemma_child_select_wf(x, z, h, center_x, center_z);
        lemma_child_select_wf((x + h) as u32, z, h, center_x, center_z);
        lemma_child_select_wf(x, (z + h) as u32, h, center_x, center_z);
        lemma_child_select_wf((x + h) as u32, (z + h) as u32, h, center_x, center_z);
        lemma_concat_wf(a, b);
        lemma_concat_wf(a + b, c);
        lemma_concat_wf(a + b + c, d);
        assert(h * h * 4 == lod * lod) by (nonlinear_arith)
            requires
                h == lod / 2,
                lod == 2 || lod == 4 || lod == 8 || lod == 16,
        ;
    }
}

proof fn lemma_child_select_wf(x: u32, z: u32, lod: u8, center_x: int, center_z: int)
    requires
        valid_lod(lod),
        x < WORLD_CHUNKS + 16,
        z < WORLD_CHUNKS + 16,
    ensures
        selected_ids_wf(child_select(x, z, lod, center_x, center_z)),
        child_select(x, z, lod, center_x, center_z).len() <= lod * lod,
    decreases lod, 1int,
{
    if x < WORLD_CHUNKS && z < WORLD_CHUNKS {
        lemma_select_wf(x, z, lod, center_x, center_z);
    }
}

proof fn lemma_concat_wf(a: Seq<u64>, b: Seq<u64>)
    requires
        selected_ids_wf(a),
        selected_ids_wf(b),
    ensures
        selected_ids_wf(a + b),
{
    assert forall|i: int| 0 <= i < (a + b).len() implies {
        let d = #[trigger] decode_spec((a + b)[i]);
        &&& d is Some
        &&& d.unwrap().0 < WORLD_CHUNKS
        &&& d.unwrap().1 < WORLD_CHUNKS
    } by {
        if i < a.len() {
            assert((a + b)[i] == a[i]);
        } else {
            assert((a + b)[i] == b[i - a.len()]);
        }
    }
}

/// Appends the level-of-detail selection below the patch at `(chunk_x, chunk_z)`.
pub fn select_tiles(
    chunk_x: u32,
    chunk_z: u32,
    lod: u8,
    center_x: i64,
    center_z: i64,
    ids: &mut Vec<u64>,
)
    requires
        chunk_x < WORLD_CHUNKS,
        chunk_z < WORLD_CHUNKS,
        valid_lod(lod),
        coordinate_in_range(center_x),
        coordinate_in_range(center_z),
    ensures
        final(ids)@ == old(ids)@ + select_spec(
            chunk_x,
            chunk_z,
            lod,
            center_x as int,
            center_z as int,
        ),
    decreases lod, 0int,
{
    let distance = tile_distance(chunk_x, chunk_z, lod, center_x, center_z);
    if distance > RENDER_DISTANCE_CHUNKS as i64 {
        assert(old(ids)@ + Seq::empty() =~= old(ids)@);
        return ;
    }
    let refinement: i64 = if lod == 16 {
        128
    } else if lod == 8 {
        64
    } else if lod == 4 {
        32
    } else {
        16
    };
    if lod == 1 || distance > refinement {
        ids.push(chunk_id(chunk_x, chunk_z, lod));
        return ;
    }
    let h: u8 = lod / 2;
    let ghost before = ids@;
    let ghost cx = center_x as int;
    let ghost cz = center_z as int;
    let hu = h as u32;
    let ghost a = child_select(chunk_x, chunk_z, h, cx, cz);
    let ghost b = child_select((chunk_x + hu) as u32, chunk_z, h, cx, cz);
    let ghost c = child_select(chunk_x, (chunk_z + hu) as u32, h, cx, cz);
    let ghost d = child_select((chunk_x + hu) as u32, (chunk_z + hu) as u32, h, cx, cz);
    assert(select_spec(chunk_x, chunk_z, lod, cx, cz) == a + b + c + d);
    select_child(chunk_x, chunk_z, h, center_x, center_z, ids);
    select_child(chunk_x + hu, chunk_z, h, center_x, center_z, ids);
    select_child(chunk_x, chunk_z + hu, h, center_x, center_z, ids);
    select_child(chunk_x + hu, chunk_z + hu, h, center_x, center_z, ids);
    assert(ids@ =~= before + (a + b + c + d));
}

/// Appends the selection below a child patch, if the child lies in the world.
fn select_child(
    chunk_x: u32,
    chunk_z: u32,
    lod: u8,
    center_x: i64,
    center_z: i64,
    ids: &mut Vec<u64>,
)
    requires
        chunk_x < WORLD_CHUNKS + 16,
        chunk_z < WORLD_CHUNKS + 16,
        valid_lod(lod),
        coordinate_in_range(center_x),
        coordinate_in_range(center_z),
    ensures
        final(ids)@ == old(ids)@ + child_select(
            chunk_x,
            chunk_z,
            lod,
            center_x as int,
            center_z as int,
        ),
    decreases lod, 1int,
{
    if chunk_x < WORLD_CHUNKS && chunk_z < WORLD_CHUNKS {
        select_tiles(chunk_x, chunk_z, lod, center_x, center_z, ids);
    } else {
        assert(old(ids)@ + Seq::empty() =~= old(ids)@);
    }
}

/// Integer division rounding toward zero, as Rust's `/` does.
pub open spec fn trunc_div(a: int, d: int) -> int {
    if a >= 0 {
        a / d
    } else {
        -((-a) / d)
    }
}

/// The stream cell holding the chunk at `(chunk_x, chunk_z)`.
pub fn stream_cell(chunk_x: i64, chunk_z: i64) -> (cell: (i64, i64))
    requires
        chunk_x > i64::MIN,
        chunk_z > i64::MIN,
    ensures
        cell.0 == trunc_div(chunk_x as int, STREAM_STEP as int),
        cell.1 == trunc_div(chunk_z as int, STREAM_STEP as int),
{
    let cell_x = if chunk_x >= 0 {
        chunk_x / STREAM_STEP
    } else {
        -((-chunk_x) / STREAM_STEP)
    };
    let cell_z = if chunk_z >= 0 {
        chunk_z / STREAM_STEP
    } else {
        -((-chunk_z) / STREAM_STEP)
    };
    (cell_x, cell_z)
}

/// The chunk at the middle of the stream cell holding the chunk at `(chunk_x, chunk_z)`.
pub open spec fn stream_center_spec(chunk: int) -> int {
    trunc_div(chunk, STREAM_STEP as int) * STREAM_STEP + STREAM_STEP / 2
}

/// The stream center for the chunk the camera stands in.
pub fn stream_center_chunk(chunk_x: i64, chunk_z: i64) -> (center: (i64, i64))
    requires
        coordinate_in_range(chunk_x),
        coordinate_in_range(chunk_z),
    ensures
        center.0 == stream_center_spec(chunk_x as int),
        center.1 == stream_center_spec(chunk_z as int),
{
    let (cell_x, cell_z) = stream_cell(chunk_x, chunk_z);
    (cell_x * STREAM_STEP + STREAM_STEP / 2, cell_z * STREAM_STEP + STREAM_STEP / 2)
}

/// Stream centers that the bounds below can be computed for without wrapping.
pub open spec fn center_in_range(c: i64) -> bool {
    -(RENDER_DISTANCE_CHUNKS as int) <= c <= 0x7fff_ffff
}

/// The first root tile coordinate streamed around `center`: a multiple of 16.
pub open spec fn bound_min(center: int) -> int {
    let low = center - RENDER_DISTANCE_CHUNKS;
    (if low > 0 {
        low
    } else {
        0
    }) / 16 * 16
}

/// The last chunk coordinate streamed around `center`.
pub open spec fn bound_max(center: int) -> int {
    let high = center + RENDER_DISTANCE_CHUNKS;
    if high < WORLD_CHUNKS - 1 {
        high
    } else {
        WORLD_CHUNKS - 1
    }
}

/// The chunk rectangle `(min_x, min_z, max_x, max_z)` streamed around a center.
pub fn stream_bounds(center_x: i64, center_z: i64) -> (bounds: (u32, u32, u32, u32))
    requires
        center_in_range(center_x),
        center_in_range(center_z),
    ensures
        bounds.0 == bound_min(center_x as int),
        bounds.1 == bound_min(center_z as int),
        bounds.2 == bound_max(center_x as int),
        bounds.3 == bound_max(center_z as int),
{
    let rd = RENDER_DISTANCE_CHUNKS as i64;
    let low_x = if center_x - rd > 0 { center_x - rd } else { 0 };
    let low_z = if center_z - rd > 0 { center_z - rd } else { 0 };
    let high_x = if center_x + rd < WORLD_CHUNKS as i64 - 1 {
        center_x + rd
    } else {
        WORLD_CHUNKS as i64 - 1
    };
    let high_z = if center_z + rd < WORLD_CHUNKS as i64 - 1 {
        center_z + rd
    } else {
        WORLD_CHUNKS as i64 - 1
    };
    ((low_x / 16 * 16) as u32, (low_z / 16 * 16) as u32, high_x as u32, high_z as u32)
}

/// One past the last coordinate visited when stepping by 16 from `min` while `<= max`.
pub open spec fn step_end(min: int, max: int) -> int {
    if min > max {
        min
    } else {
        min + 16 * ((max - min) / 16 + 1)
    }
}

/// What `f` yields for the root tiles `x = min_x, min_x + 16, ..` below `x_end`, in order.
pub open spec fn row_tiles(f: spec_fn(u32, u32) -> Seq<u64>, min_x: int, x_end: int, z: u32) -> Seq<
    u64,
>
    decreases x_end - min_x,
{
    if x_end < min_x + 16 {
        Seq::empty()
    } else {
        row_tiles(f, min_x, x_end - 16, z) + f((x_end - 16) as u32, z)
    }
}

/// What `f` yields for the rows `z = min_z, min_z + 16, ..` below `z_end`, each row
/// covering `min_x..=max_x`.
pub open spec fn grid_tiles(
    f: spec_fn(u32, u32) -> Seq<u64>,
    min_x: int,
    max_x: int,
    min_z: int,
    z_end: int,
) -> Seq<u64>
    decreases z_end - min_z,
{
    if z_end < min_z + 16 {
        Seq::empty()
    } else {
        grid_tiles(f, min_x, max_x, min_z, z_end - 16) + row_tiles(
            f,
            min_x,
            step_end(min_x, max_x),
            (z_end - 16) as u32,
        )
    }
}

/// What `f` yields over all root tiles of the stream rectangle around a center.
pub open spec fn stream_tiles(f: spec_fn(u32, u32) -> Seq<u64>, center_x: int, center_z: int) -> Seq<
    u64,
> {
    grid_tiles(
        f,
        bound_min(center_x),
        bound_max(center_x),
        bound_min(center_z),
        step_end(bound_min(center_z), bound_max(center_z)),
    )
}

/// The quadtree selection below a root tile.
pub open spec fn root_selection(center_x: int, center_z: int) -> spec_fn(u32, u32) -> Seq<u64> {
    |x: u32, z: u32| select_spec(x, z, TOP_LOD, center_x, center_z)
}

/// The root tile itself, when it lies within the render distance.
pub open spec fn root_coverage(center_x: int, center_z: int) -> spec_fn(u32, u32) -> Seq<u64> {
    |x: u32, z: u32|
        if tile_distance_spec(x, z, TOP_LOD, center_x, center_z) <= RENDER_DISTANCE_CHUNKS {
            seq![chunk_id_of(x, z, TOP_LOD)]
        } else {
            Seq::empty()
        }
}

/// The sort key of a tile: its distance, then its level.
pub open spec fn tile_key(id: u64, center_x: int, center_z: int) -> (int, int) {
    let (x, z, lod) = decode_spec(id).unwrap();
    (tile_distance_spec(x, z, lod, center_x, center_z), lod as int)
}

/// Lexicographic order on sort keys.
pub open spec fn key_le(a: (int, int), b: (int, int)) -> bool {
    a.0 < b.0 || (a.0 == b.0 && a.1 <= b.1)
}

/// Nearest tiles first; among tiles at one distance, finer levels first.
pub open spec fn sorted_by_tile_key(ids: Seq<u64>, center_x: int, center_z: int) -> bool {
    forall|i: int, j: int|
        0 <= i < j < ids.len() ==> key_le(
            #[trigger] tile_key(ids[i], center_x, center_z),
            #[trigger] tile_key(ids[j], center_x, center_z),
        )
}

/// `ids` holds exactly the tiles of `tiles`, nearest first.
pub open spec fn nearest_first_order(ids: Seq<u64>, tiles: Seq<u64>, center_x: int, center_z: int) -> bool {
    &&& ids.to_multiset() == tiles.to_multiset()
    &&& sorted_by_tile_key(ids, center_x, center_z)
}

/// The sort key of a selected tile.
pub fn tile_sort_key(id: u64, center_x: i64, center_z: i64) -> (key: (i64, u8))
    requires
        decode_spec(id) is Some,
        coordinate_in_range(center_x),
        coordinate_in_range(center_z),
    ensures
        key.0 == tile_key(id, center_x as int, center_z as int).0,
        key.1 == tile_key(id, center_x as int, center_z as int).1,
{
    proof {
        lemma_encode_decoded(id);
    }
    match decode_chunk_id(id) {
        Some((x, z, lod)) => (tile_distance(x, z, lod, center_x, center_z), lod),
        None => (0, 0),
    }
}

fn key_le_exec(a: (i64, u8), b: (i64, u8)) -> (le: bool)
    ensures
        le == key_le((a.0 as int, a.1 as int), (b.0 as int, b.1 as int)),
{
    a.0 < b.0 || (a.0 == b.0 && a.1 <= b.1)
}

/// Sorts selected tiles nearest first.
fn sort_by_tile_key(ids: &Vec<u64>, center_x: i64, center_z: i64) -> (sorted: Vec<u64>)
    requires
        selected_ids_wf(ids@),
        coordinate_in_range(center_x),
        coordinate_in_range(center_z),
    ensures
        nearest_first_order(sorted@, ids@, center_x as int, center_z as int),
        selected_ids_wf(sorted@),
{
    let ghost cx = center_x as int;
    let ghost cz = center_z as int;
    let mut out: Vec<u64> = Vec::new();
    let mut i: usize = 0;
    while i < ids.len()
        invariant
            cx == center_x as int,
            cz == center_z as int,
            i <= ids.len(),
            selected_ids_wf(ids@),
            coordinate_in_range(center_x),
            coordinate_in_range(center_z),
            out@.to_multiset() == ids@.take(i as int).to_multiset(),
            out.len() == i,
            sorted_by_tile_key(out@, cx, cz),
            forall|k: int| 0 <= k < out.len() ==> #[trigger] out@.to_multiset().count(out@[k]) > 0,
            forall|k: int| 0 <= k < out.len() ==> ids@.take(i as int).contains(#[trigger] out@[k]),
        decreases ids.len() - i,
    {
        let id = ids[i];
        assert(decode_spec(ids@[i as int]) is Some);
        let key = tile_sort_key(id, center_x, center_z);
        let mut p: usize = out.len();
        while p > 0
            invariant
                cx == center_x as int,
                cz == center_z as int,
                key.0 == tile_key(id, cx, cz).0,
                key.1 == tile_key(id, cx, cz).1,
                p <= out.len(),
                out.len() == i,
                i < ids.len(),
                selected_ids_wf(ids@),
                coordinate_in_range(center_x),
                coordinate_in_range(center_z),
                forall|k: int| 0 <= k < out.len() ==> ids@.take(i as int).contains(#[trigger] out@[k]),
                forall|k: int|
                    p <= k < out.len() ==> !key_le(#[trigger] tile_key(out@[k], cx, cz), tile_key(id, cx, cz)),
            ensures
                p <= out.len(),
                p == 0 || key_le(tile_key(out@[p - 1], cx, cz), tile_key(id, cx, cz)),
                forall|k: int|
                    p <= k < out.len() ==> !key_le(#[trigger] tile_key(out@[k], cx, cz), tile_key(id, cx, cz)),
            decreases p,
        {
            let other = out[p - 1];
            proof {
                let j = choose|j: int| 0 <= j < i && ids@.take(i as int)[j] == out@[p - 1];
                assert(decode_spec(ids@[j]) is Some);
            }
            let other_key = tile_sort_key(other, center_x, center_z);
            if key_le_exec(other_key, key) {
                break;
            }
            assert(!key_le(tile_key(out@[p - 1], cx, cz), tile_key(id, cx, cz)));
            p = p - 1;
        }
        let ghost before = out@;
        out.insert(p, id);
        proof {
            vstd::seq_lib::to_multiset_insert(before, p as int, id);
            assert(ids@.take(i + 1) =~= ids@.take(i as int).push(id));
            assert forall|a: int, b: int| 0 <= a < b < out.len() implies key_le(
                #[trigger] tile_key(out@[a], cx, cz),
                #[trigger] tile_key(out@[b], cx, cz),
            ) by {
                if b < p {
                    assert(out@[a] == before[a] && out@[b] == before[b]);
                } else if b == p {
                    if a + 1 < p {
                        assert(key_le(tile_key(before[a], cx, cz), tile_key(before[p - 1], cx, cz)));
                    }
                } else if a < p {
                    assert(out@[b] == before[b - 1]);
                } else if a == p {
                    assert(out@[b] == before[b - 1]);
                } else {
                    assert(out@[a] == before[a - 1] && out@[b] == before[b - 1]);
                }
            }
            assert forall|k: int| 0 <= k < out.len() implies ids@.take(i + 1).contains(#[trigger] out@[k]) by {
                if k < p {
                    assert(out@[k] == before[k]);
                    let j = choose|j: int| 0 <= j < i && ids@.take(i as int)[j] == before[k];
                    assert(ids@.take(i + 1)[j] == before[k]);
                } else if k == p {
                    assert(ids@.take(i + 1)[i as int] == id);
                } else {
                    assert(out@[k] == before[k - 1]);
                    let j = choose|j: int| 0 <= j < i && ids@.take(i as int)[j] == before[k - 1];
                    assert(ids@.take(i + 1)[j] == before[k - 1]);
                }
            }
        }
        i = i + 1;
    }
    assert(ids@.take(ids.len() as int) =~= ids@);
    proof {
        assert forall|k: int| 0 <= k < out.len() implies {
            let d = #[trigger] decode_spec(out@[k]);
            &&& d is Some
            &&& d.unwrap().0 < WORLD_CHUNKS
            &&& d.unwrap().1 < WORLD_CHUNKS
        } by {
            assert(ids@.contains(out@[k]));
            let j = choose|j: int| 0 <= j < ids@.len() && ids@[j] == out@[k];
            assert(decode_spec(ids@[j]) is Some);
        }
    }
    out
}

proof fn lemma_step_end(min: int, max: int, x: int)
    requires
        min <= max,
        min <= x,
        (x - min) % 16 == 0,
        max < x <= max + 16,
    ensures
        x == step_end(min, max),
{
    let k = (x - min) / 16;
    assert(x == min + 16 * k);
    let q = (max - min) / 16;
    assert(max - min == 16 * q + (max - min) % 16);
    assert(k == q + 1) by (nonlinear_arith)
        requires
            x == min + 16 * k,
            max - min == 16 * q + (max - min) % 16,
            0 <= (max - min) % 16 < 16,
            max < x <= max + 16,
    ;
}

/// The root-tile rule: the quadtree selection, or only the in-range roots.
pub open spec fn root_rule(coverage_only: bool, center_x: int, center_z: int) -> spec_fn(u32, u32) -> Seq<u64> {
    if coverage_only {
        root_coverage(center_x, center_z)
    } else {
        root_selection(center_x, center_z)
    }
}

/// Applies the root-tile rule to every root tile of the stream rectangle, row by row.
pub fn stream_root_tiles(center_x: i64, center_z: i64, coverage_only: bool) -> (ids: Vec<u64>)
    requires
        center_in_range(center_x),
        center_in_range(center_z),
    ensures
        ids@ == stream_tiles(root_rule(coverage_only, center_x as int, center_z as int), center_x as int, center_z as int),
        selected_ids_wf(ids@),
{
    let ghost f = root_rule(coverage_only, center_x as int, center_z as int);
    let (min_x, min_z, max_x, max_z) = stream_bounds(center_x, center_z);
    let mut ids: Vec<u64> = Vec::new();
    let mut z = min_z;
    while z <= max_z
        invariant
            f == root_rule(coverage_only, center_x as int, center_z as int),
            center_in_range(center_x),
            center_in_range(center_z),
            max_x < WORLD_CHUNKS,
            max_z < WORLD_CHUNKS,
            min_z <= z,
            (z - min_z) % 16 == 0,
            z == min_z || z - 16 <= max_z,
            ids@ == grid_tiles(f, min_x as int, max_x as int, min_z as int, z as int),
            selected_ids_wf(ids@),
        decreases max_z + 16 - z,
    {
        let ghost before = ids@;
        let mut x = min_x;
        while x <= max_x
            invariant
                f == root_rule(coverage_only, center_x as int, center_z as int),
                center_in_range(center_x),
                center_in_range(center_z),
                max_x < WORLD_CHUNKS,
                z <= max_z,
                max_z < WORLD_CHUNKS,
                min_x <= x,
                (x - min_x) % 16 == 0,
                x == min_x || x - 16 <= max_x,
                ids@ == before + row_tiles(f, min_x as int, x as int, z),
                selected_ids_wf(ids@),
            decreases max_x + 16 - x,
        {
            let ghost prev = ids@;
            if coverage_only {
                if tile_distance(x, z, TOP_LOD, center_x, center_z) <= RENDER_DISTANCE_CHUNKS as i64 {
                    ids.push(chunk_id(x, z, TOP_LOD));
                    proof {
                        lemma_decode_chunk_id(x, z, TOP_LOD);
                        lemma_concat_wf(prev, seq![chunk_id_of(x, z, TOP_LOD)]);
                    }
                }
            } else {
                select_tiles(x, z, TOP_LOD, center_x, center_z, &mut ids);
                proof {
                    lemma_select_wf(x, z, TOP_LOD, center_x as int, center_z as int);
                    lemma_concat_wf(prev, select_spec(x, z, TOP_LOD, center_x as int, center_z as int));
                }
            }
            assert(row_tiles(f, min_x as int, x + 16, z) == row_tiles(f, min_x as int, x as int, z) + f(x, z));
            assert(ids@ =~= before + row_tiles(f, min_x as int, x + 16, z));
            x = x + 16;
        }
        proof {
            if min_x <= max_x {
                lemma_step_end(min_x as int, max_x as int, x as int);
            }
            assert(grid_tiles(f, min_x as int, max_x as int, min_z as int, z + 16) == grid_tiles(
                f,
                min_x as int,
                max_x as int,
                min_z as int,
                z as int,
            ) + row_tiles(f, min_x as int, step_end(min_x as int, max_x as int), z));
        }
        z = z + 16;
    }
    proof {
        if min_z <= max_z {
            lemma_step_end(min_z as int, max_z as int, z as int);
        }
    }
    ids
}

/// Every tile to draw around the stream center, nearest first.
pub open spec fn is_desired_order(ids: Seq<u64>, center_x: int, center_z: int) -> bool {
    nearest_first_order(ids, stream_tiles(root_selection(center_x, center_z), center_x, center_z), center_x, center_z)
}

/// Every in-range root tile around the stream center, nearest first.
pub open spec fn is_coverage_order(ids: Seq<u64>, center_x: int, center_z: int) -> bool {
    nearest_first_order(ids, stream_tiles(root_coverage(center_x, center_z), center_x, center_z), center_x, center_z)
}

/// The tiles to draw around a stream center: the level-of-detail selection below
/// every root tile of the stream rectangle, nearest first.
pub fn desired_chunk_ids(center_x: i64, center_z: i64) -> (ids: Vec<u64>)
    requires
        center_in_range(center_x),
        center_in_range(center_z),
    ensures
        is_desired_order(ids@, center_x as int, center_z as int),
        selected_ids_wf(ids@),
{
    let tiles = stream_root_tiles(center_x, center_z, false);
    sort_by_tile_key(&tiles, center_x, center_z)
}

/// The level-one tiles of a selection, in order.
pub open spec fn finest_tiles(ids: Seq<u64>) -> Seq<u64> {
    ids.filter(is_finest())
}

/// Whether a tile has level one.
pub open spec fn is_finest() -> spec_fn(u64) -> bool {
    |id: u64| decode_spec(id).unwrap().2 == 1
}

/// The order in which tiles are requested from the server: the finest desired tiles,
/// then every in-range root tile, then the remaining desired tiles, each id once,
/// at its first place.
pub open spec fn request_order(desired: Seq<u64>, coverage: Seq<u64>) -> Seq<u64> {
    (finest_tiles(desired) + coverage + desired).remove_duplicates(Seq::empty())
}

/// The tiles to request around a stream center.
pub fn requested_chunk_ids(center_x: i64, center_z: i64) -> (ids: Vec<u64>)
    requires
        center_in_range(center_x),
        center_in_range(center_z),
    ensures
        exists|desired: Seq<u64>, coverage: Seq<u64>|
            is_desired_order(desired, center_x as int, center_z as int) && is_coverage_order(
                coverage,
                center_x as int,
                center_z as int,
            ) && ids@ == request_order(desired, coverage),
        forall|x: u32, z: u32|
            x < WORLD_CHUNKS && z < WORLD_CHUNKS && x % 16 == 0 && z % 16 == 0 && tile_distance_spec(
                x,
                z,
                16,
                center_x as int,
                center_z as int,
            ) <= RENDER_DISTANCE_CHUNKS ==> #[trigger] ids@.contains(chunk_id_of(x, z, 16)),
        forall|i: int, j: int|
            0 <= i < j < ids.len() ==> (crate::coverage::level_one(#[trigger] ids@[j]) ==> crate::coverage::level_one(
                #[trigger] ids@[i],
            )) && (crate::coverage::near_root(ids@[j], center_x as int, center_z as int)
                ==> crate::coverage::level_one(ids@[i]) || crate::coverage::near_root(
                ids@[i],
                center_x as int,
                center_z as int,
            )),
{
    let desired = desired_chunk_ids(center_x, center_z);
    let mut all: Vec<u64> = Vec::new();
    let mut i: usize = 0;
    let ghost pred = is_finest();
    while i < desired.len()
        invariant
            i <= desired.len(),
            selected_ids_wf(desired@),
            pred == is_finest(),
            all@ == desired@.take(i as int).filter(pred),
        decreases desired.len() - i,
    {
        let id = desired[i];
        proof {
            desired@.take(i as int).lemma_filter_push(id, pred);
            assert(desired@.take(i + 1) =~= desired@.take(i as int).push(id));
            assert(decode_spec(desired@[i as int]) is Some);
        }
        match decode_chunk_id(id) {
            Some((_, _, lod)) => {
                if lod == 1 {
                    all.push(id);
                }
            },
            None => {},
        }
        i = i + 1;
    }
    assert(desired@.take(desired.len() as int) =~= desired@);
    let coverage_tiles = stream_root_tiles(center_x, center_z, true);
    let coverage = sort_by_tile_key(&coverage_tiles, center_x, center_z);
    let ghost finest = all@;
    let mut j: usize = 0;
    while j < coverage.len()
        invariant
            j <= coverage.len(),
            all@ == finest + coverage@.take(j as int),
        decreases coverage.len() - j,
    {
        all.push(coverage[j]);
        assert(coverage@.take(j + 1) =~= coverage@.take(j as int).push(coverage@[j as int]));
        j = j + 1;
    }
    assert(coverage@.take(coverage.len() as int) =~= coverage@);
    let ghost with_coverage = all@;
    let mut k: usize = 0;
    while k < desired.len()
        invariant
            k <= desired.len(),
            all@ == with_coverage + desired@.take(k as int),
        decreases desired.len() - k,
    {
        all.push(desired[k]);
        assert(desired@.take(k + 1) =~= desired@.take(k as int).push(desired@[k as int]));
        k = k + 1;
    }
    assert(desired@.take(desired.len() as int) =~= desired@);
    let ids = dedup_first(&all);
    assert(finest == finest_tiles(desired@));
    assert(all@ =~= finest_tiles(desired@) + coverage@ + desired@);
    assert(is_desired_order(desired@, center_x as int, center_z as int) && is_coverage_order(
        coverage@,
        center_x as int,
        center_z as int,
    ) && ids@ == request_order(desired@, coverage@));
    assert forall|x: u32, z: u32|
        x < WORLD_CHUNKS && z < WORLD_CHUNKS && x % 16 == 0 && z % 16 == 0 && tile_distance_spec(
            x,
            z,
            16,
            center_x as int,
            center_z as int,
        ) <= RENDER_DISTANCE_CHUNKS implies #[trigger] ids@.contains(chunk_id_of(x, z, 16)) by {
        crate::coverage::lemma_requested_roots(
            ids@,
            desired@,
            coverage@,
            center_x as int,
            center_z as int,
            x,
            z,
        );
    }
    assert forall|i: int, j: int|
        0 <= i < j < ids.len() implies (crate::coverage::level_one(#[trigger] ids@[j]) ==> crate::coverage::level_one(
            #[trigger] ids@[i],
        )) && (crate::coverage::near_root(ids@[j], center_x as int, center_z as int)
            ==> crate::coverage::level_one(ids@[i]) || crate::coverage::near_root(
            ids@[i],
            center_x as int,
            center_z as int,
        )) by {
        crate::coverage::lemma_requested_order(ids@, desired@, coverage@, center_x as int, center_z as int, i, j);
    }
    ids
}

/// Keeps the first occurrence of each id, in order.
pub fn dedup_first(ids: &Vec<u64>) -> (unique: Vec<u64>)
    ensures
        unique@ == ids@.remove_duplicates(Seq::empty()),
{
    broadcast use group_hash_axioms;

    let mut seen: HashSet<u64> = HashSet::new();
    let mut unique: Vec<u64> = Vec::new();
    let mut i: usize = 0;
    assert(ids@.skip(0) =~= ids@);
    assert(unique@.to_set() =~= seen@);
    while i < ids.len()
        invariant
            i <= ids.len(),
            seen@ == unique@.to_set(),
            ids@.remove_duplicates(Seq::empty()) == ids@.skip(i as int).remove_duplicates(unique@),
        decreases ids.len() - i,
    {
        let id = ids[i];
        let ghost old_unique = unique@;
        proof {
            let rest = ids@.skip(i as int);
            assert(rest[0] == id);
            assert(rest.skip(1) =~= ids@.skip(i + 1));
            assert(old_unique.to_set().contains(id) <==> old_unique.contains(id));
        }
        if seen.insert(id) {
            unique.push(id);
            proof {
                assert(unique@ =~= old_unique + seq![id]);
                old_unique.lemma_push_to_set_commute(id);
                assert(unique@.to_set() =~= seen@);
            }
        }
        i = i + 1;
    }
    proof {
        assert(ids@.skip(ids.len() as int) =~= Seq::<u64>::empty());
    }
    unique
}

} // verus!
