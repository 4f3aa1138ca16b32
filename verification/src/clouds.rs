//! Clouds: a few flat boxes placed by a hash of each 8 x 8-chunk cloud cell.

use vstd::prelude::*;
use crate::layout::{CHUNK_SIZE, WORLD_VOXELS};
use crate::quad::{Face, Material, Quad, quad_of, pack_quad};
use crate::hashing::{cloud_hash, cloud_hash_spec};
use crate::terrain::{WorldGenerator, small_coord};
use crate::tiles::trunc_div;

verus! {

/// Side of a cloud cell, in chunks.
pub const CLOUD_CELL_CHUNKS: u32 = 8;

/// The six quads of a cloud box of side `size` and the given height at
/// `(x, y, z)`, or none where the box would reach the world's far edges or lie
/// before its near ones.
pub open spec fn cloud_box_quads(x: int, y: int, z: int, size: nat, height: nat) -> Seq<Quad> {
    if x < 0 || z < 0 || x + size >= WORLD_VOXELS || z + size >= WORLD_VOXELS {
        Seq::empty()
    } else {
        let (bx, by, bz) = (x as u32, y as u32, z as u32);
        seq![
            quad_of(bx, (by + height - 1) as u32, bz, Face::Up, size, size, Material::Cloud),
            quad_of(bx, by, bz, Face::Down, size, size, Material::Cloud),
            quad_of(bx, by, bz, Face::Front, size, height, Material::Cloud),
            quad_of(bx, by, bz, Face::Back, size, height, Material::Cloud),
            quad_of(bx, by, bz, Face::Right, size, height, Material::Cloud),
            quad_of(bx, by, bz, Face::Left, size, height, Material::Cloud),
        ]
    }
}

/// Pushes the six faces of a cloud box, unless it would leave the world.
pub fn push_cloud_box(quads: &mut Vec<Quad>, x: isize, y: isize, z: isize, size: usize, height: usize)
    requires
        1 <= size <= 32,
        1 <= height <= 512,
        (y as u32) + height <= u32::MAX,
    ensures
        final(quads)@ == old(quads)@ + cloud_box_quads(x as int, y as int, z as int, size as nat, height as nat),
{
    let far = WORLD_VOXELS as isize - size as isize;
    if x < 0 || z < 0 || x >= far || z >= far {
        assert(final(quads)@ =~= old(quads)@ + cloud_box_quads(x as int, y as int, z as int, size as nat, height as nat));
        return;
    }
    let (bx, by, bz) = (x as u32, #[verifier::truncate] (y as u32), z as u32);
    quads.push(pack_quad(bx, by + height as u32 - 1, bz, Face::Up, size, size, Material::Cloud));
    quads.push(pack_quad(bx, by, bz, Face::Down, size, size, Material::Cloud));
    quads.push(pack_quad(bx, by, bz, Face::Front, size, height, Material::Cloud));
    quads.push(pack_quad(bx, by, bz, Face::Back, size, height, Material::Cloud));
    quads.push(pack_quad(bx, by, bz, Face::Right, size, height, Material::Cloud));
    quads.push(pack_quad(bx, by, bz, Face::Left, size, height, Material::Cloud));
    assert(final(quads)@ =~= old(quads)@ + cloud_box_quads(x as int, y as int, z as int, size as nat, height as nat));
}

/// The offset `(x, y, z)` of the satellite boxes of a cloud, in units of a quarter
/// of the box size along x and a third along z.
pub open spec fn satellite(i: int) -> (int, int, int) {
    if i == 0 {
        (-2, 0, 1)
    } else if i == 1 {
        (-1, 2, -1)
    } else if i == 2 {
        (1, 1, 1)
    } else {
        (2, 0, 0)
    }
}

fn satellite_of(i: usize) -> (s: (isize, isize, isize))
    requires
        i < 4,
    ensures
        s.0 == satellite(i as int).0,
        s.1 == satellite(i as int).1,
        s.2 == satellite(i as int).2,
{
    match i {
        0 => (-2, 0, 1),
        1 => (-1, 2, -1),
        2 => (1, 1, 1),
        _ => (2, 0, 0),
    }
}

/// The cloud of a cloud cell whose hash places one: the main box, then four
/// satellites, each placed and sized by the hash.
pub open spec fn cloud_quads(chunk_x: u32, chunk_z: u32) -> Seq<Quad> {
    let cell_x = chunk_x / CLOUD_CELL_CHUNKS;
    let cell_z = chunk_z / CLOUD_CELL_CHUNKS;
    let hash = cloud_hash_spec(cell_x as u32, cell_z as u32);
    if chunk_x % CLOUD_CELL_CHUNKS != 0 || chunk_z % CLOUD_CELL_CHUNKS != 0 || hash % 5 > 1 {
        Seq::empty()
    } else {
        let x = chunk_x * CHUNK_SIZE + (hash >> 8u32) % 128;
        let z = chunk_z * CHUNK_SIZE + (hash >> 16u32) % 128;
        let y = 500 + (hash >> 24u32) % 80;
        let size = 24 + (hash >> 4u32) % 9;
        cloud_box_quads(x, y, z, size as nat, 5) + satellite_quads(x, y, z, size as nat, 0)
    }
}

/// The quads of the satellites of a cloud from satellite `i` on.
pub open spec fn satellite_quads(x: int, y: int, z: int, size: nat, i: nat) -> Seq<Quad>
    decreases 4 - i,
{
    if i >= 4 {
        Seq::empty()
    } else {
        let s = satellite(i as int);
        let height: nat = if s.0 == 1 || s.0 == -1 {
            5
        } else {
            4
        };
        cloud_box_quads(
            x + trunc_div(s.0 * size * 3, 4),
            y + s.1,
            z + trunc_div(s.2 * size, 3),
            size,
            height,
        ) + satellite_quads(x, y, z, size, i + 1)
    }
}

/// `a / d` rounded toward zero, as Rust divides.
fn div_toward_zero(a: isize, d: isize) -> (q: isize)
    requires
        d > 0,
        small_coord(a as int),
    ensures
        q == trunc_div(a as int, d as int),
{
    if a >= 0 {
        a / d
    } else {
        -((-a) / d)
    }
}

/// Every box of a cloud placed past `2^23` voxels along an axis lies beyond the
/// world's far edge.
proof fn lemma_far_cloud(chunk_x: u32, chunk_z: u32)
    requires
        chunk_x >= 0x4_0000 || chunk_z >= 0x4_0000,
    ensures
        cloud_quads(chunk_x, chunk_z) == Seq::<Quad>::empty(),
{
    let hash = cloud_hash_spec((chunk_x / CLOUD_CELL_CHUNKS) as u32, (chunk_z / CLOUD_CELL_CHUNKS) as u32);
    if !(chunk_x % CLOUD_CELL_CHUNKS != 0 || chunk_z % CLOUD_CELL_CHUNKS != 0 || hash % 5 > 1) {
        let x = chunk_x * CHUNK_SIZE + (hash >> 8u32) % 128;
        let z = chunk_z * CHUNK_SIZE + (hash >> 16u32) % 128;
        let y = 500 + (hash >> 24u32) % 80;
        let size = (24 + (hash >> 4u32) % 9) as nat;
        assert(x >= 0x80_0000 || z >= 0x80_0000);
        assert forall|i: nat| i <= 4 implies #[trigger] satellite_quads(x, y, z, size, i) == Seq::<Quad>::empty() by {
            lemma_far_satellites(x, y, z, size, i);
        }
        assert(cloud_box_quads(x, y, z, size, 5) == Seq::<Quad>::empty());
        assert(cloud_quads(chunk_x, chunk_z) =~= Seq::<Quad>::empty());
    }
}

proof fn lemma_far_satellites(x: int, y: int, z: int, size: nat, i: nat)
    requires
        x >= 0x80_0000 || z >= 0x80_0000,
        24 <= size <= 32,
    ensures
        satellite_quads(x, y, z, size, i) == Seq::<Quad>::empty(),
    decreases 4 - i,
{
    if i < 4 {
        let s = satellite(i as int);
        assert(-192 <= s.0 * size * 3 <= 192 && -32 <= s.2 * size <= 32) by (nonlinear_arith)
            requires
                -2 <= s.0 <= 2,
                -1 <= s.2 <= 1,
                24 <= size <= 32,
        ;
        assert(trunc_div(s.0 * size * 3, 4) >= -48);
        assert(trunc_div(s.2 * size, 3) >= -11);
        lemma_far_satellites(x, y, z, size, i + 1);
        let height: nat = if s.0 == 1 || s.0 == -1 {
            5
        } else {
            4
        };
        assert(cloud_box_quads(
            x + trunc_div(s.0 * size * 3, 4),
            y + s.1,
            z + trunc_div(s.2 * size, 3),
            size,
            height,
        ) == Seq::<Quad>::empty());
        assert(satellite_quads(x, y, z, size, i) =~= Seq::<Quad>::empty());
    }
}

impl WorldGenerator {
    /// Meshes the cloud of the chunk's cloud cell into the chunk that starts the
    /// cell, if the cell's hash places a cloud there.
    pub fn mesh_cloud_for_chunk(&self, chunk_x: u32, chunk_z: u32, quads: &mut Vec<Quad>)
        ensures
            final(quads)@ == old(quads)@ + cloud_quads(chunk_x, chunk_z),
    {
        if chunk_x % CLOUD_CELL_CHUNKS != 0 || chunk_z % CLOUD_CELL_CHUNKS != 0 {
            assert(final(quads)@ =~= old(quads)@ + cloud_quads(chunk_x, chunk_z));
            return;
        }
        if chunk_x >= 0x4_0000 || chunk_z >= 0x4_0000 {
            proof {
                lemma_far_cloud(chunk_x, chunk_z);
            }
            assert(final(quads)@ =~= old(quads)@ + cloud_quads(chunk_x, chunk_z));
            return;
        }
        let cell_x = chunk_x / CLOUD_CELL_CHUNKS;
        let cell_z = chunk_z / CLOUD_CELL_CHUNKS;
        let hash = cloud_hash(cell_x, cell_z);
        if hash % 5 > 1 {
            assert(final(quads)@ =~= old(quads)@ + cloud_quads(chunk_x, chunk_z));
            return;
        }
        assert(cell_x * 8 * 32 < 0x80_0000 && cell_z * 8 * 32 < 0x80_0000) by (nonlinear_arith)
            requires
                cell_x < 0x8000,
                cell_z < 0x8000,
        ;
        let base_x = cell_x as isize * CLOUD_CELL_CHUNKS as isize * CHUNK_SIZE as isize;
        let base_z = cell_z as isize * CLOUD_CELL_CHUNKS as isize * CHUNK_SIZE as isize;
        let x = base_x + ((hash >> 8) % 128) as isize;
        let z = base_z + ((hash >> 16) % 128) as isize;
        let y = 500 + ((hash >> 24) % 80) as isize;
        let size = 24 + ((hash >> 4) % 9) as usize;
        let ghost start = quads@;
        push_cloud_box(quads, x, y, z, size, 5);
        let ghost main = quads@;
        let mut i: usize = 0;
        while i < 4
            invariant
                i <= 4,
                small_coord(x as int),
                small_coord(z as int),
                0 <= x <= 0x81_0000,
                0 <= z <= 0x81_0000,
                500 <= y < 580,
                24 <= size <= 32,
                quads@ + satellite_quads(x as int, y as int, z as int, size as nat, i as nat) == main
                    + satellite_quads(x as int, y as int, z as int, size as nat, 0),
            decreases 4 - i,
        {
            let s = satellite_of(i);
            let height: usize = if s.0 == 1 || s.0 == -1 {
                5
            } else {
                4
            };
            assert(-192 <= s.0 * size * 3 <= 192 && -32 <= s.2 * size <= 32) by (nonlinear_arith)
                requires
                    -2 <= s.0 <= 2,
                    -1 <= s.2 <= 1,
                    24 <= size <= 32,
            ;
            let dx = div_toward_zero(s.0 * size as isize * 3, 4);
            let dz = div_toward_zero(s.2 * size as isize, 3);
            let ghost before = quads@;
            push_cloud_box(quads, x + dx, y + s.1, z + dz, size, height);
            assert(before + satellite_quads(x as int, y as int, z as int, size as nat, i as nat) =~= quads@
                + satellite_quads(x as int, y as int, z as int, size as nat, (i + 1) as nat));
            i = i + 1;
        }
        assert(quads@ =~= quads@ + satellite_quads(x as int, y as int, z as int, size as nat, 4));
        assert(final(quads)@ =~= old(quads)@ + cloud_quads(chunk_x, chunk_z));
    }
}

} // verus!
