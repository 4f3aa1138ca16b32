//! The tiles drawn around a stream center partition the chunks near it: no chunk
//! lies in two of them, and every in-world chunk within the render distance lies
//! in one.

use vstd::prelude::*;
use vstd::seq_lib::{to_multiset_build, to_multiset_remove, to_multiset_len, to_multiset_contains};
use crate::layout::{WORLD_CHUNKS, RENDER_DISTANCE_CHUNKS};
use crate::tiles::{
    decode_spec, chunk_id_of, valid_lod, lemma_decode_chunk_id, select_spec, child_select,
    tile_distance_spec, refinement_distance, root_selection, row_tiles, grid_tiles, step_end,
    stream_tiles, bound_min, bound_max, is_desired_order, TOP_LOD, root_coverage, is_coverage_order,
    request_order, chunk_id_of as root_id,
};

verus! {

/// Whether the patch `id` covers the chunk `(a, b)`.
pub open spec fn tile_covers(id: u64, a: int, b: int) -> bool {
    match decode_spec(id) {
        Some((x, z, lod)) => x <= a < x + lod && z <= b < z + lod,
        None => false,
    }
}

/// How many of `ids` cover the chunk `(a, b)`, counting repeats.
pub open spec fn cover_count(ids: Seq<u64>, a: int, b: int) -> nat
    decreases ids.len(),
{
    if ids.len() == 0 {
        0
    } else {
        cover_count(ids.drop_last(), a, b) + if tile_covers(ids.last(), a, b) {
            1nat
        } else {
            0nat
        }
    }
}

/// Chebyshev distance in chunks from `(center_x, center_z)` to the chunk `(a, b)`.
pub open spec fn chunk_distance(a: int, b: int, center_x: int, center_z: int) -> int {
    let dx = if a >= center_x {
        a - center_x
    } else {
        center_x - a
    };
    let dz = if b >= center_z {
        b - center_z
    } else {
        center_z - b
    };
    if dx >= dz {
        dx
    } else {
        dz
    }
}

proof fn lemma_cover_count_add(s: Seq<u64>, t: Seq<u64>, a: int, b: int)
    ensures
        cover_count(s + t, a, b) == cover_count(s, a, b) + cover_count(t, a, b),
    decreases t.len(),
{
    if t.len() == 0 {
        assert(s + t =~= s);
    } else {
        assert((s + t).drop_last() =~= s + t.drop_last());
        lemma_cover_count_add(s, t.drop_last(), a, b);
    }
}

proof fn lemma_cover_count_one(id: u64, a: int, b: int)
    ensures
        cover_count(seq![id], a, b) == if tile_covers(id, a, b) {
            1nat
        } else {
            0nat
        },
{
    assert(seq![id].drop_last() =~= Seq::<u64>::empty());
    assert(cover_count(Seq::<u64>::empty(), a, b) == 0);
    assert(seq![id].last() == id);
}

/// Reordering a run of tiles keeps how many of them cover a chunk.
proof fn lemma_cover_count_permutation(s: Seq<u64>, t: Seq<u64>, a: int, b: int)
    requires
        s.to_multiset() == t.to_multiset(),
    ensures
        cover_count(s, a, b) == cover_count(t, a, b),
    decreases s.len(),
{
    to_multiset_len(s);
    to_multiset_len(t);
    if s.len() > 0 {
        let e = s.last();
        let rest = s.drop_last();
        assert(rest.push(e) =~= s);
        to_multiset_build(rest, e);
        to_multiset_contains(t, e);
        assert(s.to_multiset().count(e) > 0);
        assert(t.contains(e));
        let k = choose|k: int| 0 <= k < t.len() && t[k] == e;
        let other = t.remove(k);
        to_multiset_remove(t, k);
        assert(rest.to_multiset() =~= other.to_multiset());
        lemma_cover_count_permutation(rest, other, a, b);
        assert(t =~= t.take(k) + seq![e] + t.skip(k + 1));
        assert(other =~= t.take(k) + t.skip(k + 1));
        lemma_cover_count_add(t.take(k) + seq![e], t.skip(k + 1), a, b);
        lemma_cover_count_add(t.take(k), seq![e], a, b);
        lemma_cover_count_add(t.take(k), t.skip(k + 1), a, b);
        lemma_cover_count_one(e, a, b);
    }
}

/// A patch is no farther from the center than any in-world chunk it covers.
proof fn lemma_tile_distance_at_most(x: u32, z: u32, lod: u8, center_x: int, center_z: int, a: int, b: int)
    requires
        x <= a < x + lod,
        z <= b < z + lod,
        0 <= a < WORLD_CHUNKS,
        0 <= b < WORLD_CHUNKS,
    ensures
        tile_distance_spec(x, z, lod, center_x, center_z) <= chunk_distance(a, b, center_x, center_z),
{
}

/// Below a patch, the quadtree selection covers no chunk twice and no chunk outside
/// the patch; it covers each in-world chunk of the patch within the render distance.
proof fn lemma_select_cover(x: u32, z: u32, lod: u8, center_x: int, center_z: int, a: int, b: int)
    requires
        valid_lod(lod),
        x < WORLD_CHUNKS,
        z < WORLD_CHUNKS,
    ensures
        cover_count(select_spec(x, z, lod, center_x, center_z), a, b) <= 1,
        !(x <= a < x + lod && z <= b < z + lod) ==> cover_count(select_spec(x, z, lod, center_x, center_z), a, b)
            == 0,
        (x <= a < x + lod && z <= b < z + lod && 0 <= a < WORLD_CHUNKS && 0 <= b < WORLD_CHUNKS && chunk_distance(
            a,
            b,
            center_x,
            center_z,
        ) <= RENDER_DISTANCE_CHUNKS) ==> cover_count(select_spec(x, z, lod, center_x, center_z), a, b) == 1,
    decreases lod, 0int,
{
    let s = select_spec(x, z, lod, center_x, center_z);
    let distance = tile_distance_spec(x, z, lod, center_x, center_z);
    if x <= a < x + lod && z <= b < z + lod && 0 <= a < WORLD_CHUNKS && 0 <= b < WORLD_CHUNKS {
        lemma_tile_distance_at_most(x, z, lod, center_x, center_z, a, b);
    }
    if distance > RENDER_DISTANCE_CHUNKS {
        assert(s =~= Seq::<u64>::empty());
    } else if lod <= 1 || distance > refinement_distance(lod) {
        lemma_decode_chunk_id(x, z, lod);
        lemma_cover_count_one(chunk_id_of(x, z, lod), a, b);
    } else {
        let h = (lod / 2) as u8;
        let x2 = (x + h) as u32;
        let z2 = (z + h) as u32;
        let s1 = child_select(x, z, h, center_x, center_z);
        let s2 = child_select(x2, z, h, center_x, center_z);
        let s3 = child_select(x, z2, h, center_x, center_z);
        let s4 = child_select(x2, z2, h, center_x, center_z);
        assert(s == s1 + s2 + s3 + s4);
        lemma_cover_count_add(s1 + s2 + s3, s4, a, b);
        lemma_cover_count_add(s1 + s2, s3, a, b);
        lemma_cover_count_add(s1, s2, a, b);
        lemma_child_cover(x, z, h, center_x, center_z, a, b);
        lemma_child_cover(x2, z, h, center_x, center_z, a, b);
        lemma_child_cover(x, z2, h, center_x, center_z, a, b);
        lemma_child_cover(x2, z2, h, center_x, center_z, a, b);
    }
}

proof fn lemma_child_cover(x: u32, z: u32, lod: u8, center_x: int, center_z: int, a: int, b: int)
    requires
        valid_lod(lod),
        lod < 16,
    ensures
        cover_count(child_select(x, z, lod, center_x, center_z), a, b) <= 1,
        !(x <= a < x + lod && z <= b < z + lod) ==> cover_count(child_select(x, z, lod, center_x, center_z), a, b)
            == 0,
        (x <= a < x + lod && z <= b < z + lod && 0 <= a < WORLD_CHUNKS && 0 <= b < WORLD_CHUNKS && chunk_distance(
            a,
            b,
            center_x,
            center_z,
        ) <= RENDER_DISTANCE_CHUNKS) ==> cover_count(child_select(x, z, lod, center_x, center_z), a, b) == 1,
    decreases lod, 1int,
{
    if x < WORLD_CHUNKS && z < WORLD_CHUNKS {
        lemma_select_cover(x, z, lod, center_x, center_z, a, b);
    } else {
        assert(child_select(x, z, lod, center_x, center_z) =~= Seq::<u64>::empty());
    }
}

proof fn lemma_step_end_facts(min: int, max: int)
    ensures
        (step_end(min, max) - min) % 16 == 0,
        min <= max ==> max < step_end(min, max) <= max + 16,
        min > max ==> step_end(min, max) == min,
{
    if min <= max {
        let q = (max - min) / 16;
        let r = (max - min) % 16;
        assert(max - min == 16 * q + r && 0 <= r < 16);
        assert((16 * (q + 1)) % 16 == 0) by (nonlinear_arith);
    }
}

/// A row of root tiles `x = min_x, min_x + 16, ..` below `x_end` at row `z` covers
/// no chunk twice and none outside the row; it covers each in-world chunk of the
/// row within the render distance.
proof fn lemma_row_cover(center_x: int, center_z: int, min_x: int, x_end: int, z: u32, a: int, b: int)
    requires
        0 <= min_x <= x_end,
        (x_end - min_x) % 16 == 0,
        x_end > min_x ==> x_end <= WORLD_CHUNKS + 15,
        z < WORLD_CHUNKS,
    ensures
        cover_count(row_tiles(root_selection(center_x, center_z), min_x, x_end, z), a, b) <= 1,
        !(min_x <= a < x_end && z <= b < z + 16) ==> cover_count(
            row_tiles(root_selection(center_x, center_z), min_x, x_end, z),
            a,
            b,
        ) == 0,
        (min_x <= a < x_end && z <= b < z + 16 && 0 <= a < WORLD_CHUNKS && 0 <= b < WORLD_CHUNKS
            && chunk_distance(a, b, center_x, center_z) <= RENDER_DISTANCE_CHUNKS) ==> cover_count(
            row_tiles(root_selection(center_x, center_z), min_x, x_end, z),
            a,
            b,
        ) == 1,
    decreases x_end - min_x,
{
    let f = root_selection(center_x, center_z);
    if x_end >= min_x + 16 {
        let last = (x_end - 16) as u32;
        lemma_row_cover(center_x, center_z, min_x, x_end - 16, z, a, b);
        lemma_cover_count_add(row_tiles(f, min_x, x_end - 16, z), f(last, z), a, b);
        assert(f(last, z) == select_spec(last, z, TOP_LOD, center_x, center_z));
        lemma_select_cover(last, z, TOP_LOD, center_x, center_z, a, b);
    }
}

/// The rows `z = min_z, min_z + 16, ..` below `z_end` of root tiles over
/// `min_x..=max_x` cover no chunk twice and none outside them; they cover each
/// in-world chunk among them within the render distance.
proof fn lemma_grid_cover(
    center_x: int,
    center_z: int,
    min_x: int,
    max_x: int,
    min_z: int,
    z_end: int,
    a: int,
    b: int,
)
    requires
        0 <= min_x,
        max_x < WORLD_CHUNKS,
        0 <= min_z <= z_end,
        (z_end - min_z) % 16 == 0,
        z_end > min_z ==> z_end <= WORLD_CHUNKS + 15,
    ensures
        cover_count(grid_tiles(root_selection(center_x, center_z), min_x, max_x, min_z, z_end), a, b) <= 1,
        !(min_x <= a < step_end(min_x, max_x) && min_z <= b < z_end) ==> cover_count(
            grid_tiles(root_selection(center_x, center_z), min_x, max_x, min_z, z_end),
            a,
            b,
        ) == 0,
        (min_x <= a < step_end(min_x, max_x) && min_z <= b < z_end && 0 <= a < WORLD_CHUNKS && 0 <= b
            < WORLD_CHUNKS && chunk_distance(a, b, center_x, center_z) <= RENDER_DISTANCE_CHUNKS)
            ==> cover_count(grid_tiles(root_selection(center_x, center_z), min_x, max_x, min_z, z_end), a, b)
            == 1,
    decreases z_end - min_z,
{
    let f = root_selection(center_x, center_z);
    if z_end >= min_z + 16 {
        let row_z = (z_end - 16) as u32;
        let x_end = step_end(min_x, max_x);
        lemma_step_end_facts(min_x, max_x);
        lemma_grid_cover(center_x, center_z, min_x, max_x, min_z, z_end - 16, a, b);
        lemma_cover_count_add(grid_tiles(f, min_x, max_x, min_z, z_end - 16), row_tiles(f, min_x, x_end, row_z), a, b);
        lemma_row_cover(center_x, center_z, min_x, x_end, row_z, a, b);
    }
}

/// The tiles drawn around a stream center partition the chunks near it: no chunk
/// lies in two drawn tiles, and each in-world chunk within the render distance of
/// the center lies in exactly one.
pub proof fn lemma_desired_tiles_partition(ids: Seq<u64>, center_x: int, center_z: int, a: int, b: int)
    requires
        is_desired_order(ids, center_x, center_z),
    ensures
        cover_count(ids, a, b) <= 1,
        0 <= a < WORLD_CHUNKS && 0 <= b < WORLD_CHUNKS && chunk_distance(a, b, center_x, center_z)
            <= RENDER_DISTANCE_CHUNKS ==> cover_count(ids, a, b) == 1,
{
    let f = root_selection(center_x, center_z);
    let min_x = bound_min(center_x);
    let max_x = bound_max(center_x);
    let min_z = bound_min(center_z);
    let max_z = bound_max(center_z);
    let tiles = stream_tiles(f, center_x, center_z);
    lemma_cover_count_permutation(ids, tiles, a, b);
    lemma_step_end_facts(min_x, max_x);
    lemma_step_end_facts(min_z, max_z);
    lemma_floor_16(center_x - RENDER_DISTANCE_CHUNKS);
    lemma_floor_16(center_z - RENDER_DISTANCE_CHUNKS);
    lemma_grid_cover(center_x, center_z, min_x, max_x, min_z, step_end(min_z, max_z), a, b);
}

proof fn lemma_floor_16(low: int)
    ensures
        0 <= (if low > 0 {
            low
        } else {
            0
        }) / 16 * 16 <= (if low > 0 {
            low
        } else {
            0
        }),
{
    let v = if low > 0 {
        low
    } else {
        0
    };
    assert(0 <= v / 16 * 16 <= v) by (nonlinear_arith)
        requires
            v >= 0,
    ;
}

proof fn lemma_row_contains(
    f: spec_fn(u32, u32) -> Seq<u64>,
    min_x: int,
    x_end: int,
    z: u32,
    x: int,
    id: u64,
)
    requires
        0 <= min_x <= x < x_end,
        x_end <= u32::MAX,
        (x - min_x) % 16 == 0,
        (x_end - min_x) % 16 == 0,
        f(x as u32, z).contains(id),
    ensures
        row_tiles(f, min_x, x_end, z).contains(id),
    decreases x_end - min_x,
{
    let rest = row_tiles(f, min_x, x_end - 16, z);
    let last = f((x_end - 16) as u32, z);
    assert(row_tiles(f, min_x, x_end, z) == rest + last);
    if x == x_end - 16 {
        let w = choose|w: int| 0 <= w < last.len() && last[w] == id;
        assert((rest + last)[rest.len() + w] == id);
    } else {
        lemma_row_contains(f, min_x, x_end - 16, z, x, id);
        let w = choose|w: int| 0 <= w < rest.len() && rest[w] == id;
        assert((rest + last)[w] == id);
    }
}

proof fn lemma_grid_contains(
    f: spec_fn(u32, u32) -> Seq<u64>,
    min_x: int,
    max_x: int,
    min_z: int,
    z_end: int,
    x: int,
    z: int,
    id: u64,
)
    requires
        0 <= min_x <= x <= max_x,
        max_x < WORLD_CHUNKS,
        0 <= min_z <= z < z_end,
        z_end <= u32::MAX,
        (x - min_x) % 16 == 0,
        (z - min_z) % 16 == 0,
        (z_end - min_z) % 16 == 0,
        f(x as u32, z as u32).contains(id),
    ensures
        grid_tiles(f, min_x, max_x, min_z, z_end).contains(id),
    decreases z_end - min_z,
{
    let rest = grid_tiles(f, min_x, max_x, min_z, z_end - 16);
    let row = row_tiles(f, min_x, step_end(min_x, max_x), (z_end - 16) as u32);
    assert(grid_tiles(f, min_x, max_x, min_z, z_end) == rest + row);
    if z == z_end - 16 {
        lemma_step_end_facts(min_x, max_x);
        lemma_row_contains(f, min_x, step_end(min_x, max_x), (z_end - 16) as u32, x, id);
        let w = choose|w: int| 0 <= w < row.len() && row[w] == id;
        assert((rest + row)[rest.len() + w] == id);
    } else {
        lemma_grid_contains(f, min_x, max_x, min_z, z_end - 16, x, z, id);
        let w = choose|w: int| 0 <= w < rest.len() && rest[w] == id;
        assert((rest + row)[w] == id);
    }
}

/// A coordinate aligned to 16 chunks whose root tile lies within the render
/// distance of `center` lies between the stream bounds, a whole number of root
/// tiles after the first.
proof fn lemma_root_in_bounds(x: int, center: int, distance: int)
    requires
        0 <= x < WORLD_CHUNKS,
        x % 16 == 0,
        distance == range_distance_to(center, x, if x + 16 < WORLD_CHUNKS { x + 16 } else { WORLD_CHUNKS as int }),
        distance <= RENDER_DISTANCE_CHUNKS,
    ensures
        bound_min(center) <= x <= bound_max(center),
        (x - bound_min(center)) % 16 == 0,
{
    let low = center - RENDER_DISTANCE_CHUNKS;
    let v = if low > 0 { low } else { 0 };
    let m = v / 16 * 16;
    assert(m <= v < m + 16) by (nonlinear_arith)
        requires
            v >= 0,
            m == v / 16 * 16,
    ;
    assert(x >= m) by (nonlinear_arith)
        requires
            x % 16 == 0,
            x >= 0,
            x + 16 > v,
            m <= v < m + 16,
            m == v / 16 * 16,
    {
        assert(m == 16 * (v / 16));
        assert(x == 16 * (x / 16));
    }
    assert((x - m) % 16 == 0) by (nonlinear_arith)
        requires
            x % 16 == 0,
            m == v / 16 * 16,
            v >= 0,
            x >= m,
    {
        assert(x == 16 * (x / 16));
        assert(x - m == 16 * (x / 16 - v / 16));
    }
}

/// Distance from `value` to the range `start..end`.
spec fn range_distance_to(value: int, start: int, end: int) -> int {
    if value < start {
        start - value
    } else if value >= end {
        value - (end - 1)
    } else {
        0
    }
}

/// The client asks for every root tile near it: each in-world level-16 tile aligned
/// to 16 chunks whose distance to the stream center is at most the render distance
/// is among the requested ids.
pub proof fn lemma_requested_roots(
    ids: Seq<u64>,
    desired: Seq<u64>,
    coverage: Seq<u64>,
    center_x: int,
    center_z: int,
    x: u32,
    z: u32,
)
    requires
        is_desired_order(desired, center_x, center_z),
        is_coverage_order(coverage, center_x, center_z),
        ids == request_order(desired, coverage),
        x < WORLD_CHUNKS,
        z < WORLD_CHUNKS,
        x % 16 == 0,
        z % 16 == 0,
        tile_distance_spec(x, z, 16, center_x, center_z) <= RENDER_DISTANCE_CHUNKS,
    ensures
        ids.contains(root_id(x, z, 16)),
{
    let f = root_coverage(center_x, center_z);
    let id = root_id(x, z, 16);
    let min_x = bound_min(center_x);
    let max_x = bound_max(center_x);
    let min_z = bound_min(center_z);
    let max_z = bound_max(center_z);
    let end_x = if x + 16 < WORLD_CHUNKS { x + 16 } else { WORLD_CHUNKS as int };
    let end_z = if z + 16 < WORLD_CHUNKS { z + 16 } else { WORLD_CHUNKS as int };
    lemma_root_in_bounds(x as int, center_x, range_distance_to(center_x, x as int, end_x));
    lemma_root_in_bounds(z as int, center_z, range_distance_to(center_z, z as int, end_z));
    lemma_step_end_facts(min_z, max_z);
    assert(f(x, z) == seq![id]);
    assert(f(x, z)[0] == id);
    lemma_grid_contains(f, min_x, max_x, min_z, step_end(min_z, max_z), x as int, z as int, id);
    let tiles = stream_tiles(f, center_x, center_z);
    assert(tiles.contains(id));
    to_multiset_contains(tiles, id);
    to_multiset_contains(coverage, id);
    let all = crate::tiles::finest_tiles(desired) + coverage + desired;
    let w = choose|w: int| 0 <= w < coverage.len() && coverage[w] == id;
    assert(all[crate::tiles::finest_tiles(desired).len() + w] == id);
    all.lemma_remove_duplicates_properties(Seq::empty());
    assert((all + Seq::<u64>::empty()) =~= all);
}

/// Whether `id` names a patch whose corner is a multiple of its level along both axes.
pub open spec fn aligned_tile(id: u64) -> bool {
    match decode_spec(id) {
        Some((x, z, lod)) => x as int % lod as int == 0 && z as int % lod as int == 0,
        None => false,
    }
}

/// Whether every id of `ids` names an aligned patch.
pub open spec fn all_aligned(ids: Seq<u64>) -> bool {
    forall|i: int| 0 <= i < ids.len() ==> #[trigger] aligned_tile(ids[i])
}

/// A run of tiles in which no two entries cover one chunk covers it at most once.
pub proof fn lemma_cover_count_at_most_one(s: Seq<u64>, a: int, b: int)
    requires
        forall|i: int, j: int|
            0 <= i < j < s.len() && #[trigger] tile_covers(s[i], a, b) ==> !#[trigger] tile_covers(s[j], a, b),
    ensures
        cover_count(s, a, b) <= 1,
    decreases s.len(),
{
    if s.len() > 0 {
        let rest = s.drop_last();
        lemma_cover_count_at_most_one(rest, a, b);
        if tile_covers(s.last(), a, b) {
            lemma_cover_count_none(rest, a, b, s);
        }
    }
}

proof fn lemma_cover_count_none(rest: Seq<u64>, a: int, b: int, s: Seq<u64>)
    requires
        s.len() > 0,
        rest == s.drop_last(),
        tile_covers(s.last(), a, b),
        forall|i: int, j: int|
            0 <= i < j < s.len() && #[trigger] tile_covers(s[i], a, b) ==> !#[trigger] tile_covers(s[j], a, b),
    ensures
        cover_count(rest, a, b) == 0,
    decreases rest.len(),
{
    if rest.len() > 0 {
        let shorter = rest.drop_last();
        let t = s.drop_last().drop_last().push(s.last());
        assert(t.drop_last() =~= shorter);
        assert forall|i: int, j: int|
            0 <= i < j < t.len() && #[trigger] tile_covers(t[i], a, b) implies !#[trigger] tile_covers(t[j], a, b) by {
            if j == t.len() - 1 {
                assert(s[i] == t[i]);
                assert(s[s.len() - 1] == t[j]);
            } else {
                assert(s[i] == t[i] && s[j] == t[j]);
            }
        }
        lemma_cover_count_none(shorter, a, b, t);
        assert(rest.last() == s[s.len() - 2]);
        assert(s[s.len() - 1] == s.last());
    }
}

proof fn lemma_aligned_concat(a: Seq<u64>, b: Seq<u64>)
    requires
        all_aligned(a),
        all_aligned(b),
    ensures
        all_aligned(a + b),
{
    assert forall|i: int| 0 <= i < (a + b).len() implies #[trigger] aligned_tile((a + b)[i]) by {
        if i < a.len() {
            assert((a + b)[i] == a[i]);
        } else {
            assert((a + b)[i] == b[i - a.len()]);
        }
    }
}

#[verifier::rlimit(40)]
proof fn lemma_select_aligned(x: u32, z: u32, lod: u8, center_x: int, center_z: int)
    requires
        valid_lod(lod),
        x < WORLD_CHUNKS,
        z < WORLD_CHUNKS,
        x as int % lod as int == 0,
        z as int % lod as int == 0,
    ensures
        all_aligned(select_spec(x, z, lod, center_x, center_z)),
    decreases lod, 0int,
{
    let s = select_spec(x, z, lod, center_x, center_z);
    let distance = tile_distance_spec(x, z, lod, center_x, center_z);
    if distance > RENDER_DISTANCE_CHUNKS {
    } else if lod <= 1 || distance > refinement_distance(lod) {
        lemma_decode_chunk_id(x, z, lod);
        assert(aligned_tile(s[0]));
    } else {
        let h = (lod / 2) as u8;
        let x2 = (x + h) as u32;
        let z2 = (z + h) as u32;
        lemma_half_aligned(x as int, lod as int);
        lemma_half_aligned(z as int, lod as int);
        lemma_child_aligned(x, z, h, center_x, center_z);
        lemma_child_aligned(x2, z, h, center_x, center_z);
        lemma_child_aligned(x, z2, h, center_x, center_z);
        lemma_child_aligned(x2, z2, h, center_x, center_z);
        let s1 = child_select(x, z, h, center_x, center_z);
        let s2 = child_select(x2, z, h, center_x, center_z);
        let s3 = child_select(x, z2, h, center_x, center_z);
        let s4 = child_select(x2, z2, h, center_x, center_z);
        lemma_aligned_concat(s1, s2);
        lemma_aligned_concat(s1 + s2, s3);
        lemma_aligned_concat(s1 + s2 + s3, s4);
        assert(s == s1 + s2 + s3 + s4);
    }
}

proof fn lemma_half_aligned(x: int, lod: int)
    requires
        lod == 2 || lod == 4 || lod == 8 || lod == 16,
        x >= 0,
        x % lod == 0,
    ensures
        x % (lod / 2) == 0,
        (x + lod / 2) % (lod / 2) == 0,
{
    if lod == 2 {
        assert(x % 1 == 0 && (x + 1) % 1 == 0);
    } else if lod == 4 {
        assert(x % 2 == 0 && (x + 2) % 2 == 0);
    } else if lod == 8 {
        assert(x % 4 == 0 && (x + 4) % 4 == 0);
    } else {
        assert(x % 8 == 0 && (x + 8) % 8 == 0);
    }
}

proof fn lemma_child_aligned(x: u32, z: u32, lod: u8, center_x: int, center_z: int)
    requires
        valid_lod(lod),
        lod < 16,
        x as int % lod as int == 0,
        z as int % lod as int == 0,
    ensures
        all_aligned(child_select(x, z, lod, center_x, center_z)),
    decreases lod, 1int,
{
    if x < WORLD_CHUNKS && z < WORLD_CHUNKS {
        lemma_select_aligned(x, z, lod, center_x, center_z);
    }
}

proof fn lemma_row_aligned(center_x: int, center_z: int, min_x: int, x_end: int, z: u32)
    requires
        0 <= min_x <= x_end,
        min_x % 16 == 0,
        (x_end - min_x) % 16 == 0,
        x_end > min_x ==> x_end <= WORLD_CHUNKS + 15,
        z < WORLD_CHUNKS,
        z as int % 16 == 0,
    ensures
        all_aligned(row_tiles(root_selection(center_x, center_z), min_x, x_end, z)),
    decreases x_end - min_x,
{
    let f = root_selection(center_x, center_z);
    if x_end >= min_x + 16 {
        let last = (x_end - 16) as u32;
        lemma_row_aligned(center_x, center_z, min_x, x_end - 16, z);
        assert(last as int % 16 == 0);
        lemma_select_aligned(last, z, TOP_LOD, center_x, center_z);
        let rest = row_tiles(f, min_x, x_end - 16, z);
        let tail = f(last, z);
        assert(row_tiles(f, min_x, x_end, z) == rest + tail);
        assert forall|i: int| 0 <= i < (rest + tail).len() implies #[trigger] aligned_tile((rest + tail)[i]) by {
            if i < rest.len() {
                assert((rest + tail)[i] == rest[i]);
            } else {
                assert((rest + tail)[i] == tail[i - rest.len()]);
            }
        }
    }
}

proof fn lemma_grid_aligned(center_x: int, center_z: int, min_x: int, max_x: int, min_z: int, z_end: int)
    requires
        0 <= min_x,
        min_x % 16 == 0,
        max_x < WORLD_CHUNKS,
        0 <= min_z <= z_end,
        min_z % 16 == 0,
        (z_end - min_z) % 16 == 0,
        z_end > min_z ==> z_end <= WORLD_CHUNKS + 15,
    ensures
        all_aligned(grid_tiles(root_selection(center_x, center_z), min_x, max_x, min_z, z_end)),
    decreases z_end - min_z,
{
    let f = root_selection(center_x, center_z);
    if z_end >= min_z + 16 {
        let row_z = (z_end - 16) as u32;
        lemma_step_end_facts(min_x, max_x);
        lemma_grid_aligned(center_x, center_z, min_x, max_x, min_z, z_end - 16);
        assert(row_z as int % 16 == 0);
        lemma_row_aligned(center_x, center_z, min_x, step_end(min_x, max_x), row_z);
        let rest = grid_tiles(f, min_x, max_x, min_z, z_end - 16);
        let row = row_tiles(f, min_x, step_end(min_x, max_x), row_z);
        assert(grid_tiles(f, min_x, max_x, min_z, z_end) == rest + row);
        assert forall|i: int| 0 <= i < (rest + row).len() implies #[trigger] aligned_tile((rest + row)[i]) by {
            if i < rest.len() {
                assert((rest + row)[i] == rest[i]);
            } else {
                assert((rest + row)[i] == row[i - rest.len()]);
            }
        }
    }
}

/// Every tile selected around a stream center is aligned to its level.
pub proof fn lemma_stream_tiles_aligned(center_x: int, center_z: int)
    ensures
        all_aligned(stream_tiles(root_selection(center_x, center_z), center_x, center_z)),
{
    let min_x = bound_min(center_x);
    let max_x = bound_max(center_x);
    let min_z = bound_min(center_z);
    let max_z = bound_max(center_z);
    lemma_bound_min_aligned(center_x);
    lemma_bound_min_aligned(center_z);
    lemma_step_end_facts(min_z, max_z);
    lemma_grid_aligned(center_x, center_z, min_x, max_x, min_z, step_end(min_z, max_z));
}

proof fn lemma_bound_min_aligned(center: int)
    ensures
        bound_min(center) % 16 == 0,
        bound_min(center) >= 0,
{
    let low = center - RENDER_DISTANCE_CHUNKS;
    let v = if low > 0 { low } else { 0 };
    assert((v / 16 * 16) % 16 == 0 && v / 16 * 16 >= 0) by (nonlinear_arith)
        requires
            v >= 0,
    ;
}

/// Whether `id` is a level-16 root tile of the world, aligned to 16 chunks, within
/// the render distance of the stream center.
pub open spec fn near_root(id: u64, center_x: int, center_z: int) -> bool {
    exists|x: u32, z: u32|
        x < WORLD_CHUNKS && z < WORLD_CHUNKS && x % 16 == 0 && z % 16 == 0 && tile_distance_spec(
            x,
            z,
            16,
            center_x,
            center_z,
        ) <= RENDER_DISTANCE_CHUNKS && id == #[trigger] root_id(x, z, 16)
}

proof fn lemma_row_from(center_x: int, center_z: int, min_x: int, x_end: int, z: u32, id: u64)
    requires
        0 <= min_x <= x_end,
        min_x % 16 == 0,
        (x_end - min_x) % 16 == 0,
        x_end > min_x ==> x_end <= WORLD_CHUNKS + 15,
        z < WORLD_CHUNKS,
        z % 16 == 0,
        row_tiles(root_coverage(center_x, center_z), min_x, x_end, z).contains(id),
    ensures
        near_root(id, center_x, center_z),
    decreases x_end - min_x,
{
    let f = root_coverage(center_x, center_z);
    let last = (x_end - 16) as u32;
    let rest = row_tiles(f, min_x, x_end - 16, z);
    let tail = f(last, z);
    assert(row_tiles(f, min_x, x_end, z) == rest + tail);
    let w = choose|w: int| 0 <= w < (rest + tail).len() && (rest + tail)[w] == id;
    if w < rest.len() {
        assert(rest[w] == id);
        lemma_row_from(center_x, center_z, min_x, x_end - 16, z, id);
    } else {
        assert(tail[w - rest.len()] == id);
        assert(last % 16 == 0);
        assert(id == root_id(last, z, 16));
    }
}

proof fn lemma_grid_from(center_x: int, center_z: int, min_x: int, max_x: int, min_z: int, z_end: int, id: u64)
    requires
        0 <= min_x,
        min_x % 16 == 0,
        max_x < WORLD_CHUNKS,
        0 <= min_z <= z_end,
        min_z % 16 == 0,
        (z_end - min_z) % 16 == 0,
        z_end > min_z ==> z_end <= WORLD_CHUNKS + 15,
        grid_tiles(root_coverage(center_x, center_z), min_x, max_x, min_z, z_end).contains(id),
    ensures
        near_root(id, center_x, center_z),
    decreases z_end - min_z,
{
    let f = root_coverage(center_x, center_z);
    let row_z = (z_end - 16) as u32;
    let rest = grid_tiles(f, min_x, max_x, min_z, z_end - 16);
    let row = row_tiles(f, min_x, step_end(min_x, max_x), row_z);
    assert(grid_tiles(f, min_x, max_x, min_z, z_end) == rest + row);
    let w = choose|w: int| 0 <= w < (rest + row).len() && (rest + row)[w] == id;
    if w < rest.len() {
        assert(rest[w] == id);
        lemma_grid_from(center_x, center_z, min_x, max_x, min_z, z_end - 16, id);
    } else {
        assert(row[w - rest.len()] == id);
        lemma_step_end_facts(min_x, max_x);
        lemma_row_from(center_x, center_z, min_x, step_end(min_x, max_x), row_z, id);
    }
}

/// The client asks for nothing else: every requested id is a desired tile or a
/// level-16 root tile within the render distance.
pub proof fn lemma_requested_from(
    ids: Seq<u64>,
    desired: Seq<u64>,
    coverage: Seq<u64>,
    center_x: int,
    center_z: int,
    id: u64,
)
    requires
        is_desired_order(desired, center_x, center_z),
        is_coverage_order(coverage, center_x, center_z),
        ids == request_order(desired, coverage),
        ids.contains(id),
    ensures
        desired.contains(id) || near_root(id, center_x, center_z),
{
    let finest = crate::tiles::finest_tiles(desired);
    let all = finest + coverage + desired;
    all.lemma_remove_duplicates_properties(Seq::empty());
    assert((all + Seq::<u64>::empty()) =~= all);
    assert(all.contains(id));
    let w = choose|w: int| 0 <= w < all.len() && all[w] == id;
    if w < finest.len() {
        assert(finest[w] == id);
        desired.lemma_filter_contains_rev(crate::tiles::is_finest(), id);
    } else if w < finest.len() + coverage.len() {
        assert(coverage[w - finest.len()] == id);
        let tiles = stream_tiles(root_coverage(center_x, center_z), center_x, center_z);
        to_multiset_contains(coverage, id);
        to_multiset_contains(tiles, id);
        let min_z = bound_min(center_z);
        let max_z = bound_max(center_z);
        lemma_bound_min_aligned(center_x);
        lemma_bound_min_aligned(center_z);
        lemma_step_end_facts(min_z, max_z);
        lemma_grid_from(center_x, center_z, bound_min(center_x), bound_max(center_x), min_z, step_end(min_z, max_z), id);
    } else {
        assert(desired[w - finest.len() - coverage.len()] == id);
    }
}

proof fn lemma_dedup_concat(a: Seq<u64>, b: Seq<u64>, seen: Seq<u64>)
    ensures
        (a + b).remove_duplicates(seen) == b.remove_duplicates(a.remove_duplicates(seen)),
    decreases a.len(),
{
    if a.len() == 0 {
        assert(a + b =~= b);
    } else {
        assert((a + b)[0] == a[0]);
        assert((a + b).skip(1) =~= a.skip(1) + b);
        if seen.contains(a[0]) {
            lemma_dedup_concat(a.skip(1), b, seen);
        } else {
            lemma_dedup_concat(a.skip(1), b, seen + seq![a[0]]);
        }
    }
}

proof fn lemma_dedup_extends(x: Seq<u64>, seen: Seq<u64>)
    ensures
        x.remove_duplicates(seen).len() >= seen.len(),
        x.remove_duplicates(seen).take(seen.len() as int) == seen,
        forall|k: int|
            seen.len() <= k < x.remove_duplicates(seen).len() ==> x.contains(#[trigger] x.remove_duplicates(seen)[k])
                && !seen.contains(x.remove_duplicates(seen)[k]),
    decreases x.len(),
{
    let r = x.remove_duplicates(seen);
    if x.len() == 0 {
        assert(r.take(seen.len() as int) =~= seen);
    } else {
        let rest = x.skip(1);
        let seen2 = if seen.contains(x[0]) { seen } else { seen + seq![x[0]] };
        lemma_dedup_extends(rest, seen2);
        assert(r == rest.remove_duplicates(seen2));
        assert(r.take(seen.len() as int) =~= seen) by {
            assert(r.take(seen2.len() as int) == seen2);
            assert forall|k: int| 0 <= k < seen.len() implies r[k] == seen[k] by {
                assert(r.take(seen2.len() as int)[k] == seen2[k]);
            }
        }
        assert forall|k: int| seen.len() <= k < r.len() implies x.contains(#[trigger] r[k]) && !seen.contains(r[k]) by {
            if k < seen2.len() {
                assert(r.take(seen2.len() as int)[k] == seen2[k]);
                assert(seen2[k] == x[0]);
                assert(x[0] == x[0]);
            } else {
                assert(rest.contains(r[k]));
                let w = choose|w: int| 0 <= w < rest.len() && rest[w] == r[k];
                assert(x[w + 1] == r[k]);
                assert(!seen2.contains(r[k]));
                if seen.contains(r[k]) {
                    let v = choose|v: int| 0 <= v < seen.len() && seen[v] == r[k];
                    assert(seen2[v] == r[k]);
                }
            }
        }
    }
}

/// Whether `id` names a level-one patch.
pub open spec fn level_one(id: u64) -> bool {
    decode_spec(id) is Some && decode_spec(id).unwrap().2 == 1
}

/// The client asks in order: first the level-one tiles, then the root tiles within
/// the render distance, then the rest. No requested id after a non-level-one id is
/// of level one, and no in-range root tile comes after an id that is neither.
pub proof fn lemma_requested_order(
    ids: Seq<u64>,
    desired: Seq<u64>,
    coverage: Seq<u64>,
    center_x: int,
    center_z: int,
    i: int,
    j: int,
)
    requires
        is_desired_order(desired, center_x, center_z),
        is_coverage_order(coverage, center_x, center_z),
        ids == request_order(desired, coverage),
        0 <= i < j < ids.len(),
    ensures
        level_one(ids[j]) ==> level_one(ids[i]),
        near_root(ids[j], center_x, center_z) ==> level_one(ids[i]) || near_root(ids[i], center_x, center_z),
{
    let finest = crate::tiles::finest_tiles(desired);
    let empty = Seq::<u64>::empty();
    let r1 = finest.remove_duplicates(empty);
    let r2 = coverage.remove_duplicates(r1);
    lemma_dedup_concat(finest, coverage + desired, empty);
    lemma_dedup_concat(coverage, desired, r1);
    assert(finest + coverage + desired =~= finest + (coverage + desired));
    assert(ids == desired.remove_duplicates(r2));
    lemma_dedup_extends(finest, empty);
    lemma_dedup_extends(coverage, r1);
    lemma_dedup_extends(desired, r2);
    finest.lemma_remove_duplicates_properties(empty);
    assert(finest + empty =~= finest);
    // What stands at each index of the requested ids.
    assert forall|k: int| 0 <= k < ids.len() implies {
        &&& k < r1.len() ==> finest.contains(#[trigger] ids[k])
        &&& r1.len() <= k < r2.len() ==> coverage.contains(ids[k]) && !r1.contains(ids[k])
        &&& r2.len() <= k ==> desired.contains(ids[k]) && !r2.contains(ids[k])
    } by {
        if k < r2.len() {
            assert(ids.take(r2.len() as int)[k] == r2[k]);
            if k < r1.len() {
                assert(r2.take(r1.len() as int)[k] == r1[k]);
            }
        }
    }
    assert forall|id: u64| finest.contains(id) implies r2.contains(id) by {
        assert((finest + empty).contains(id));
        assert(r1.contains(id));
        let w = choose|w: int| 0 <= w < r1.len() && r1[w] == id;
        assert(r2.take(r1.len() as int)[w] == id);
    }
    assert forall|id: u64| finest.contains(id) implies level_one(id) by {
        desired.lemma_filter_pred(crate::tiles::is_finest(), finest.index_of(id));
        assert(finest[finest.index_of(id)] == id);
        to_multiset_contains(desired, id);
        desired.lemma_filter_contains_rev(crate::tiles::is_finest(), id);
        lemma_desired_decodes(desired, center_x, center_z, id);
    }
    assert forall|id: u64| coverage.contains(id) implies near_root(id, center_x, center_z) && !level_one(id) by {
        lemma_coverage_member(coverage, center_x, center_z, id);
    }
    assert forall|id: u64| near_root(id, center_x, center_z) implies coverage.contains(id) by {
        let (x, z) = choose|x: u32, z: u32|
            x < WORLD_CHUNKS && z < WORLD_CHUNKS && x % 16 == 0 && z % 16 == 0 && tile_distance_spec(
                x,
                z,
                16,
                center_x,
                center_z,
            ) <= RENDER_DISTANCE_CHUNKS && id == #[trigger] root_id(x, z, 16);
        lemma_root_in_coverage(coverage, center_x, center_z, x, z);
    }
    assert forall|id: u64| desired.contains(id) && level_one(id) implies finest.contains(id) by {
        let w = choose|w: int| 0 <= w < desired.len() && desired[w] == id;
        desired.lemma_filter_contains(crate::tiles::is_finest(), w);
    }
    assert forall|id: u64| coverage.contains(id) implies r2.contains(id) by {
        coverage.lemma_remove_duplicates_properties(r1);
        let w = choose|w: int| 0 <= w < coverage.len() && coverage[w] == id;
        assert((coverage + r1)[w] == id);
        assert((coverage + r1).contains(id));
    }
}

proof fn lemma_desired_decodes(desired: Seq<u64>, center_x: int, center_z: int, id: u64)
    requires
        is_desired_order(desired, center_x, center_z),
        desired.contains(id),
        crate::tiles::is_finest()(id),
    ensures
        level_one(id),
{
    let tiles = stream_tiles(root_selection(center_x, center_z), center_x, center_z);
    to_multiset_contains(desired, id);
    to_multiset_contains(tiles, id);
    lemma_stream_tiles_aligned(center_x, center_z);
    let w = choose|w: int| 0 <= w < tiles.len() && tiles[w] == id;
    assert(aligned_tile(tiles[w]));
}

proof fn lemma_coverage_member(coverage: Seq<u64>, center_x: int, center_z: int, id: u64)
    requires
        is_coverage_order(coverage, center_x, center_z),
        coverage.contains(id),
    ensures
        near_root(id, center_x, center_z),
        !level_one(id),
{
    let tiles = stream_tiles(root_coverage(center_x, center_z), center_x, center_z);
    to_multiset_contains(coverage, id);
    to_multiset_contains(tiles, id);
    let min_z = bound_min(center_z);
    let max_z = bound_max(center_z);
    lemma_bound_min_aligned(center_x);
    lemma_bound_min_aligned(center_z);
    lemma_step_end_facts(min_z, max_z);
    lemma_grid_from(center_x, center_z, bound_min(center_x), bound_max(center_x), min_z, step_end(min_z, max_z), id);
    let (x, z) = choose|x: u32, z: u32|
        x < WORLD_CHUNKS && z < WORLD_CHUNKS && x % 16 == 0 && z % 16 == 0 && tile_distance_spec(
            x,
            z,
            16,
            center_x,
            center_z,
        ) <= RENDER_DISTANCE_CHUNKS && id == #[trigger] root_id(x, z, 16);
    lemma_decode_chunk_id(x, z, 16);
}

proof fn lemma_root_in_coverage(coverage: Seq<u64>, center_x: int, center_z: int, x: u32, z: u32)
    requires
        is_coverage_order(coverage, center_x, center_z),
        x < WORLD_CHUNKS,
        z < WORLD_CHUNKS,
        x % 16 == 0,
        z % 16 == 0,
        tile_distance_spec(x, z, 16, center_x, center_z) <= RENDER_DISTANCE_CHUNKS,
    ensures
        coverage.contains(root_id(x, z, 16)),
{
    let f = root_coverage(center_x, center_z);
    let id = root_id(x, z, 16);
    let min_x = bound_min(center_x);
    let max_x = bound_max(center_x);
    let min_z = bound_min(center_z);
    let max_z = bound_max(center_z);
    let end_x = if x + 16 < WORLD_CHUNKS { x + 16 } else { WORLD_CHUNKS as int };
    let end_z = if z + 16 < WORLD_CHUNKS { z + 16 } else { WORLD_CHUNKS as int };
    lemma_root_in_bounds(x as int, center_x, range_distance_to(center_x, x as int, end_x));
    lemma_root_in_bounds(z as int, center_z, range_distance_to(center_z, z as int, end_z));
    lemma_step_end_facts(min_z, max_z);
    assert(f(x, z) == seq![id]);
    assert(f(x, z)[0] == id);
    lemma_grid_contains(f, min_x, max_x, min_z, step_end(min_z, max_z), x as int, z as int, id);
    let tiles = stream_tiles(f, center_x, center_z);
    to_multiset_contains(tiles, id);
    to_multiset_contains(coverage, id);
}

} // verus!
