//! Excavations are local: a new excavation leaves the generated geometry of every
//! patch that the server does not regenerate as it was.

use vstd::prelude::*;
use crate::quad::Quad;
use crate::layout::{CHUNK_SIZE, WORLD_CHUNKS, WORLD_VOXELS, EXCAVATION_RADIUS_VOXELS, TREE_HORIZONTAL_EXTENT};
use crate::terrain::{
    WorldGenerator, ExcavationSphere, HeightGrid, excavated, distance_squared, column_touched_spec,
    sphere_touches_column, terrain_solid_spec, effective_height_spec,
};
use crate::chunk::{
    ColumnSamples, column_solid, column_water, column_vegetation, column_dug, dug_column, dug_voxel,
    dug_face, chunk_solid, chunk_water, chunk_plants, chunk_vegetation, is_chunk_mesh, chunk_heights,
    column_at, samples, mesh_lod, lattice_height,
};
use crate::server::{affected_range, regeneration_radius};
use crate::plants::{near_column, lemma_vegetation_near};
use crate::vegetation::unexcavated;

verus! {

/// Whether the column `(x, z)` lies more than `d` columns from the sphere's centre
/// along some horizontal axis.
pub open spec fn apart(s: ExcavationSphere, x: int, z: int, d: int) -> bool {
    x < s.x - d || x > s.x + d || z < s.z - d || z > s.z + d
}

/// A sphere removes nothing from a column farther than its radius along an axis.
proof fn lemma_excavated_apart(spheres: Seq<ExcavationSphere>, s: ExcavationSphere, x: int, y: int, z: int)
    requires
        apart(s, x, z, EXCAVATION_RADIUS_VOXELS as int),
    ensures
        excavated(spheres.push(s), x, y, z) == excavated(spheres, x, y, z),
{
    let dx = x - s.x;
    let dy = y - s.y;
    let dz = z - s.z;
    assert(dx * dx + dy * dy + dz * dz > 64) by (nonlinear_arith)
        requires
            dx < -8 || dx > 8 || dz < -8 || dz > 8,
    ;
    assert(distance_squared(s, x, y, z) > EXCAVATION_RADIUS_VOXELS * EXCAVATION_RADIUS_VOXELS);
    let after = spheres.push(s);
    let n = spheres.len() as int;
    if excavated(spheres, x, y, z) {
        let i = choose|i: int|
            0 <= i < spheres.len() && #[trigger] distance_squared(spheres[i], x, y, z)
                <= EXCAVATION_RADIUS_VOXELS * EXCAVATION_RADIUS_VOXELS;
        assert(after[i] == spheres[i]);
        assert(excavated(after, x, y, z));
    }
    if excavated(after, x, y, z) {
        let i = choose|i: int|
            0 <= i < after.len() && #[trigger] distance_squared(after[i], x, y, z)
                <= EXCAVATION_RADIUS_VOXELS * EXCAVATION_RADIUS_VOXELS;
        assert(i != n);
        assert(after[i] == spheres[i]);
        assert(excavated(spheres, x, y, z));
    }
}

/// A sphere touches no column farther than its radius and one along an axis.
proof fn lemma_touched_apart(spheres: Seq<ExcavationSphere>, s: ExcavationSphere, x: int, height: int, z: int)
    requires
        apart(s, x, z, EXCAVATION_RADIUS_VOXELS + 1),
    ensures
        column_touched_spec(spheres.push(s), x, height, z) == column_touched_spec(spheres, x, height, z),
{
    let dx = x - s.x;
    let dz = z - s.z;
    assert(dx * dx + dz * dz > 81) by (nonlinear_arith)
        requires
            dx < -9 || dx > 9 || dz < -9 || dz > 9,
    ;
    assert(!sphere_touches_column(s, x, height, z));
    let after = spheres.push(s);
    let n = spheres.len() as int;
    if column_touched_spec(spheres, x, height, z) {
        let i = choose|i: int| 0 <= i < spheres.len() && #[trigger] sphere_touches_column(spheres[i], x, height, z);
        assert(after[i] == spheres[i]);
        assert(column_touched_spec(after, x, height, z));
    }
    if column_touched_spec(after, x, height, z) {
        let i = choose|i: int| 0 <= i < after.len() && #[trigger] sphere_touches_column(after[i], x, height, z);
        assert(i != n);
        assert(after[i] == spheres[i]);
        assert(column_touched_spec(spheres, x, height, z));
    }
}

proof fn lemma_terrain_solid_apart(
    spheres: Seq<ExcavationSphere>,
    s: ExcavationSphere,
    h: spec_fn(int, int) -> u32,
    x: int,
    y: int,
    z: int,
)
    requires
        apart(s, x, z, EXCAVATION_RADIUS_VOXELS as int),
    ensures
        terrain_solid_spec(spheres.push(s), h, x, y, z) == terrain_solid_spec(spheres, h, x, y, z),
{
    lemma_excavated_apart(spheres, s, x, y, z);
}

proof fn lemma_dug_face_apart(
    spheres: Seq<ExcavationSphere>,
    s: ExcavationSphere,
    h: spec_fn(int, int) -> u32,
    x: u32,
    y: u32,
    z: u32,
    dx: int,
    dy: int,
    dz: int,
    face: crate::quad::Face,
    material: crate::quad::Material,
)
    requires
        apart(s, x as int, z as int, EXCAVATION_RADIUS_VOXELS + 1),
        -1 <= dx <= 1,
        -1 <= dz <= 1,
    ensures
        dug_face(spheres.push(s), h, x, y, z, dx, dy, dz, face, material) == dug_face(
            spheres,
            h,
            x,
            y,
            z,
            dx,
            dy,
            dz,
            face,
            material,
        ),
{
    reveal(dug_face);
    lemma_terrain_solid_apart(spheres, s, h, x + dx, y + dy, z + dz);
}

proof fn lemma_dug_column_apart(
    spheres: Seq<ExcavationSphere>,
    s: ExcavationSphere,
    h: spec_fn(int, int) -> u32,
    x: u32,
    z: u32,
    height: u32,
    surface: crate::quad::Material,
    y: int,
)
    requires
        apart(s, x as int, z as int, EXCAVATION_RADIUS_VOXELS + 1),
    ensures
        dug_column(spheres.push(s), h, x, z, height, surface, y) == dug_column(spheres, h, x, z, height, surface, y),
    decreases height + 1 - y,
{
    if !(y > height || y < 0) {
        let after = spheres.push(s);
        let yy = y as u32;
        lemma_terrain_solid_apart(spheres, s, h, x as int, yy as int, z as int);
        let material = if yy + crate::terrain::surface_depth_spec(surface) > height {
            surface
        } else {
            crate::quad::Material::Rock
        };
        lemma_dug_face_apart(spheres, s, h, x, yy, z, 0, 1, 0, crate::quad::Face::Up, material);
        lemma_dug_face_apart(spheres, s, h, x, yy, z, 0, 0, 1, crate::quad::Face::Front, material);
        lemma_dug_face_apart(spheres, s, h, x, yy, z, 0, 0, -1, crate::quad::Face::Back, material);
        lemma_dug_face_apart(spheres, s, h, x, yy, z, 1, 0, 0, crate::quad::Face::Right, material);
        lemma_dug_face_apart(spheres, s, h, x, yy, z, -1, 0, 0, crate::quad::Face::Left, material);
        lemma_dug_face_apart(spheres, s, h, x, yy, z, 0, -1, 0, crate::quad::Face::Down, material);
        assert(dug_voxel(after, h, x, yy, z, height, surface) == dug_voxel(spheres, h, x, yy, z, height, surface));
        lemma_dug_column_apart(spheres, s, h, x, z, height, surface, y + 1);
    }
}

/// One more sphere changes nothing of a column that lies apart from it, nor of any
/// coarse column.
proof fn lemma_column_apart(
    before: WorldGenerator,
    after: WorldGenerator,
    s: ExcavationSphere,
    h: spec_fn(int, int) -> u32,
    c: ColumnSamples,
)
    requires
        after.seed == before.seed,
        after.excavations@ == before.excavations@.push(s),
        c.lod != 1 || apart(s, c.x as int, c.z as int, EXCAVATION_RADIUS_VOXELS + 1),
    ensures
        column_dug(after.excavations@, c) == column_dug(before.excavations@, c),
        column_solid(after, h, c) == column_solid(before, h, c),
        column_water(after.excavations@, c) == column_water(before.excavations@, c),
        forall|m: Map<(u32, u32, u32), crate::quad::Material>|
            #[trigger] column_vegetation(m, after, c) == column_vegetation(m, before, c),
{
    if c.lod == 1 {
        lemma_touched_apart(before.excavations@, s, c.x as int, c.height as int, c.z as int);
        if column_dug(before.excavations@, c) {
            lemma_dug_column_apart(before.excavations@, s, h, c.x, c.z, c.height, c.material(), 0);
        }
    }
}

/// Whether every column before the `k`-th of a chunk is coarse or apart from the
/// sphere by at least the regeneration radius.
pub open spec fn columns_apart(s: ExcavationSphere, grid: HeightGrid, chunk_x: u32, chunk_z: u32, lod: usize, k: nat) -> bool {
    forall|j: int|
        0 <= j < k ==> #[trigger] column_at(grid, chunk_x, chunk_z, lod, j).lod != 1 || apart(
            s,
            column_at(grid, chunk_x, chunk_z, lod, j).x as int,
            column_at(grid, chunk_x, chunk_z, lod, j).z as int,
            regeneration_radius(),
        )
}

proof fn lemma_chunk_columns_apart(
    before: WorldGenerator,
    after: WorldGenerator,
    s: ExcavationSphere,
    grid: HeightGrid,
    chunk_x: u32,
    chunk_z: u32,
    lod: usize,
    k: nat,
)
    requires
        after.seed == before.seed,
        after.excavations@ == before.excavations@.push(s),
        columns_apart(s, grid, chunk_x, chunk_z, lod, k),
    ensures
        chunk_solid(after, grid, chunk_x, chunk_z, lod, k) == chunk_solid(before, grid, chunk_x, chunk_z, lod, k),
        chunk_water(after, grid, chunk_x, chunk_z, lod, k) == chunk_water(before, grid, chunk_x, chunk_z, lod, k),
        chunk_plants(after, grid, chunk_x, chunk_z, lod, k) == chunk_plants(before, grid, chunk_x, chunk_z, lod, k),
    decreases k,
{
    reveal(chunk_water);
    if k > 0 {
        lemma_chunk_columns_apart(before, after, s, grid, chunk_x, chunk_z, lod, (k - 1) as nat);
        let c = column_at(grid, chunk_x, chunk_z, lod, k - 1);
        assert(c.lod != 1 || apart(s, c.x as int, c.z as int, regeneration_radius()));
        lemma_column_apart(before, after, s, grid.field(), c);
        assert(column_vegetation(chunk_plants(before, grid, chunk_x, chunk_z, lod, (k - 1) as nat), after, c)
            == column_vegetation(chunk_plants(before, grid, chunk_x, chunk_z, lod, (k - 1) as nat), before, c));
    }
}

/// Each vegetation voxel of a chunk lies within the tree extent of one of its
/// full-detail columns.
proof fn lemma_plants_near(
    g: WorldGenerator,
    grid: HeightGrid,
    chunk_x: u32,
    chunk_z: u32,
    lod: usize,
    k: nat,
    t: (u32, u32, u32),
)
    requires
        chunk_plants(g, grid, chunk_x, chunk_z, lod, k).contains_key(t),
    ensures
        exists|j: int|
            0 <= j < k && #[trigger] column_at(grid, chunk_x, chunk_z, lod, j).lod == 1 && near_column(
                t,
                column_at(grid, chunk_x, chunk_z, lod, j).x as int,
                column_at(grid, chunk_x, chunk_z, lod, j).z as int,
                TREE_HORIZONTAL_EXTENT as int,
            ),
    decreases k,
{
    if k > 0 {
        let m = chunk_plants(g, grid, chunk_x, chunk_z, lod, (k - 1) as nat);
        let c = column_at(grid, chunk_x, chunk_z, lod, k - 1);
        if m.contains_key(t) {
            lemma_plants_near(g, grid, chunk_x, chunk_z, lod, (k - 1) as nat, t);
            let j = choose|j: int|
                0 <= j < k - 1 && #[trigger] column_at(grid, chunk_x, chunk_z, lod, j).lod == 1 && near_column(
                    t,
                    column_at(grid, chunk_x, chunk_z, lod, j).x as int,
                    column_at(grid, chunk_x, chunk_z, lod, j).z as int,
                    TREE_HORIZONTAL_EXTENT as int,
                );
            assert(column_at(grid, chunk_x, chunk_z, lod, j).lod == 1);
        } else {
            lemma_vegetation_near(m, g.seed, c.x, c.height, c.z, c.slope(), t);
            assert(column_at(grid, chunk_x, chunk_z, lod, k - 1).lod == 1);
        }
    }
}

proof fn lemma_effective_height_apart(spheres: Seq<ExcavationSphere>, s: ExcavationSphere, x: int, z: int, height: u32)
    requires
        apart(s, x, z, EXCAVATION_RADIUS_VOXELS as int),
    ensures
        effective_height_spec(spheres.push(s), x, z, height) == effective_height_spec(spheres, x, z, height),
    decreases height,
{
    lemma_excavated_apart(spheres, s, x, height as int, z);
    if height > 0 {
        lemma_effective_height_apart(spheres, s, x, z, (height - 1) as u32);
    }
}

/// The columns of a full-detail chunk that the server does not regenerate lie
/// apart from the excavation by the regeneration radius.
proof fn lemma_outside_range_apart(s: ExcavationSphere, chunk_x: u32, chunk_z: u32, i: int, j: int)
    requires
        s.x < WORLD_VOXELS,
        s.z < WORLD_VOXELS,
        chunk_x < WORLD_CHUNKS,
        chunk_z < WORLD_CHUNKS,
        !affected_range(s.x, s.z).holds(chunk_x, chunk_z, 1),
        0 <= i < CHUNK_SIZE,
        0 <= j < CHUNK_SIZE,
    ensures
        apart(s, chunk_x * CHUNK_SIZE + i, chunk_z * CHUNK_SIZE + j, regeneration_radius()),
{
    let r = regeneration_radius();
    let lo_x = if s.x >= r { s.x - r } else { 0 };
    let lo_z = if s.z >= r { s.z - r } else { 0 };
    let hi_x = if s.x + r < WORLD_VOXELS - 1 { s.x + r } else { WORLD_VOXELS - 1 };
    let hi_z = if s.z + r < WORLD_VOXELS - 1 { s.z + r } else { WORLD_VOXELS - 1 };
    lemma_chunk_bounds(chunk_x as int, lo_x, hi_x, i);
    lemma_chunk_bounds(chunk_z as int, lo_z, hi_z, j);
}

proof fn lemma_chunk_bounds(c: int, lo: int, hi: int, i: int)
    requires
        0 <= lo,
        0 <= hi,
        0 <= i < 32,
    ensures
        c < lo / 32 ==> c * 32 + i < lo,
        c > hi / 32 ==> c * 32 + i > hi,
{
    assert(c < lo / 32 ==> c * 32 + i < lo) by (nonlinear_arith)
        requires
            0 <= lo,
            0 <= i < 32,
    ;
    assert(c > hi / 32 ==> c * 32 + i > hi) by (nonlinear_arith)
        requires
            0 <= hi,
            0 <= i < 32,
    ;
}

/// An excavation changes only what the server regenerates: each patch that the
/// server keeps, that is each chunk outside `affected_range` of the new sphere's
/// centre and each chunk meshed at a coarser level, has the same mesh, water and
/// heights before and after the excavation.
pub proof fn lemma_excavation_is_local(
    before: WorldGenerator,
    after: WorldGenerator,
    s: ExcavationSphere,
    grid: HeightGrid,
    chunk_x: u32,
    chunk_z: u32,
    lod: usize,
    quads: Seq<Quad>,
)
    requires
        after.seed == before.seed,
        after.excavations@ == before.excavations@.push(s),
        s.x < WORLD_VOXELS,
        s.z < WORLD_VOXELS,
        chunk_x < WORLD_CHUNKS,
        chunk_z < WORLD_CHUNKS,
        mesh_lod(lod),
        !affected_range(s.x, s.z).holds(chunk_x, chunk_z, lod as u8),
    ensures
        is_chunk_mesh(after, grid, chunk_x, chunk_z, lod, quads) == is_chunk_mesh(
            before,
            grid,
            chunk_x,
            chunk_z,
            lod,
            quads,
        ),
        chunk_water(after, grid, chunk_x, chunk_z, lod, (samples(lod) * samples(lod)) as nat) == chunk_water(
            before,
            grid,
            chunk_x,
            chunk_z,
            lod,
            (samples(lod) * samples(lod)) as nat,
        ),
        lod == 1 ==> chunk_heights(after, grid, chunk_x, chunk_z) == chunk_heights(before, grid, chunk_x, chunk_z),
{
    let n = samples(lod);
    let count = (n * n) as nat;
    assert forall|j: int| 0 <= j < count implies #[trigger] column_at(grid, chunk_x, chunk_z, lod, j).lod != 1
        || apart(
        s,
        column_at(grid, chunk_x, chunk_z, lod, j).x as int,
        column_at(grid, chunk_x, chunk_z, lod, j).z as int,
        regeneration_radius(),
    ) by {
        if lod == 1 {
            assert(n == 32);
            assert(0 <= j / 32 < 32) by {
                vstd::arithmetic::div_mod::lemma_div_is_ordered(j, 1023, 32);
            }
            lemma_outside_range_apart(s, chunk_x, chunk_z, j % 32, j / 32);
        }
    }
    lemma_chunk_columns_apart(before, after, s, grid, chunk_x, chunk_z, lod, count);
    let plants = chunk_plants(before, grid, chunk_x, chunk_z, lod, count);
    assert forall|t: (u32, u32, u32)| plants.contains_key(t) implies unexcavated(after.excavations@).contains(t)
        == unexcavated(before.excavations@).contains(t) by {
        lemma_plants_near(before, grid, chunk_x, chunk_z, lod, count, t);
        let j = choose|j: int|
            0 <= j < count && #[trigger] column_at(grid, chunk_x, chunk_z, lod, j).lod == 1 && near_column(
                t,
                column_at(grid, chunk_x, chunk_z, lod, j).x as int,
                column_at(grid, chunk_x, chunk_z, lod, j).z as int,
                TREE_HORIZONTAL_EXTENT as int,
            );
        lemma_excavated_apart(before.excavations@, s, t.0 as int, t.1 as int, t.2 as int);
    }
    assert(chunk_vegetation(after, grid, chunk_x, chunk_z, lod) =~= chunk_vegetation(
        before,
        grid,
        chunk_x,
        chunk_z,
        lod,
    ));
    reveal(is_chunk_mesh);
    if lod == 1 {
        reveal(chunk_heights);
        assert forall|k: int| 0 <= k < CHUNK_SIZE * CHUNK_SIZE implies effective_height_spec(
            after.excavations@,
            chunk_x * CHUNK_SIZE + k % CHUNK_SIZE as int,
            chunk_z * CHUNK_SIZE + k / CHUNK_SIZE as int,
            #[trigger] lattice_height(grid, chunk_x, chunk_z, 1, k % CHUNK_SIZE as int + 1, k / CHUNK_SIZE as int + 1),
        ) == effective_height_spec(
            before.excavations@,
            chunk_x * CHUNK_SIZE + k % CHUNK_SIZE as int,
            chunk_z * CHUNK_SIZE + k / CHUNK_SIZE as int,
            lattice_height(grid, chunk_x, chunk_z, 1, k % CHUNK_SIZE as int + 1, k / CHUNK_SIZE as int + 1),
        ) by {
            assert(0 <= k / 32 < 32) by {
                vstd::arithmetic::div_mod::lemma_div_is_ordered(k, 1023, 32);
            }
            lemma_outside_range_apart(s, chunk_x, chunk_z, k % 32, k / 32);
            lemma_effective_height_apart(
                before.excavations@,
                s,
                chunk_x * CHUNK_SIZE + k % CHUNK_SIZE as int,
                chunk_z * CHUNK_SIZE + k / CHUNK_SIZE as int,
                lattice_height(grid, chunk_x, chunk_z, 1, k % CHUNK_SIZE as int + 1, k / CHUNK_SIZE as int + 1),
            );
        }
        assert(chunk_heights(after, grid, chunk_x, chunk_z) =~= chunk_heights(before, grid, chunk_x, chunk_z));
    }
}

} // verus!
