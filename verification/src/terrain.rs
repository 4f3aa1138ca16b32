//! Terrain columns: surface materials, sampled height fields, and the excavation
//! spheres that carve the terrain.

use vstd::prelude::*;
use crate::layout::{
    EXCAVATION_RADIUS_VOXELS, GRASS_AND_SNOW_DEPTH, ROCK_LEVEL_VOXELS, SEA_LEVEL_VOXELS,
    SNOW_LEVEL_VOXELS, WORLD_HEIGHT_VOXELS, WORLD_VOXELS,
};
use crate::quad::Material;
use crate::hashing::{terrain_hash, terrain_hash_spec};

verus! {

/// Excavation centres lie below this height.
pub const MAX_MESH_HEIGHT_VOXELS: u32 = 640;

/// Coordinates that the generator's arithmetic handles without overflow.
pub open spec fn small_coord(c: int) -> bool {
    -0x100_0000 <= c <= 0x100_0000
}

/// The surface material of a dry column of the given height.
pub open spec fn surface_material_spec(height: u32) -> Material {
    if height >= SNOW_LEVEL_VOXELS {
        Material::Snow
    } else if height >= ROCK_LEVEL_VOXELS {
        Material::Rock
    } else {
        Material::Grass
    }
}

/// The surface material of a dry column of the given height.
pub fn surface_material(height: u32) -> (material: Material)
    ensures
        material == surface_material_spec(height),
{
    if height >= SNOW_LEVEL_VOXELS {
        Material::Snow
    } else if height >= ROCK_LEVEL_VOXELS {
        Material::Rock
    } else {
        Material::Grass
    }
}

/// The top material of the column at `(x, z)`: gravel or dirt under water (by a
/// hash of the 4x4 block), else the surface material of its height.
pub open spec fn terrain_material_spec(x: u32, height: u32, z: u32) -> Material {
    if height + 1 < SEA_LEVEL_VOXELS {
        if terrain_hash_spec(x / 4, z / 4) % 3 == 0 {
            Material::Gravel
        } else {
            Material::Dirt
        }
    } else {
        surface_material_spec(height)
    }
}

/// The top material of the column at `(x, z)`.
pub fn terrain_material(x: u32, height: u32, z: u32) -> (material: Material)
    requires
        height < u32::MAX,
    ensures
        material == terrain_material_spec(x, height, z),
{
    if height + 1 < SEA_LEVEL_VOXELS {
        if terrain_hash(x / 4, z / 4) % 3 == 0 {
            Material::Gravel
        } else {
            Material::Dirt
        }
    } else {
        surface_material(height)
    }
}

/// How many voxels of a column's top keep its surface material.
pub open spec fn surface_depth_spec(material: Material) -> u32 {
    if material == Material::Grass || material == Material::Snow {
        GRASS_AND_SNOW_DEPTH
    } else {
        1
    }
}

/// How many voxels of a column's top keep its surface material.
pub fn surface_depth(material: Material) -> (depth: u32)
    ensures
        depth == surface_depth_spec(material),
{
    match material {
        Material::Grass | Material::Snow => GRASS_AND_SNOW_DEPTH,
        _ => 1,
    }
}

/// A voxel removed by a player, with the sphere around it.
#[derive(Clone, Copy, Debug)]
pub struct ExcavationSphere {
    pub x: u32,
    pub y: u32,
    pub z: u32,
}

/// Squared distance from a sphere's centre to `(x, y, z)`.
pub open spec fn distance_squared(s: ExcavationSphere, x: int, y: int, z: int) -> int {
    (x - s.x) * (x - s.x) + (y - s.y) * (y - s.y) + (z - s.z) * (z - s.z)
}

/// Whether some sphere removes the voxel `(x, y, z)`.
pub open spec fn excavated(spheres: Seq<ExcavationSphere>, x: int, y: int, z: int) -> bool {
    exists|i: int|
        0 <= i < spheres.len() && #[trigger] distance_squared(spheres[i], x, y, z)
            <= EXCAVATION_RADIUS_VOXELS * EXCAVATION_RADIUS_VOXELS
}

/// Whether the column at `(x, z)` of the given height lies within one voxel of the
/// sphere horizontally and reaches the sphere's bottom.
pub open spec fn sphere_touches_column(s: ExcavationSphere, x: int, height: int, z: int) -> bool {
    &&& (x - s.x) * (x - s.x) + (z - s.z) * (z - s.z) <= (EXCAVATION_RADIUS_VOXELS + 1) * (
    EXCAVATION_RADIUS_VOXELS + 1)
    &&& (if s.y >= EXCAVATION_RADIUS_VOXELS {
        s.y - EXCAVATION_RADIUS_VOXELS
    } else {
        0
    }) <= height
}

/// Whether the column at `(x, z)` of the given height lies near enough to some
/// sphere to be meshed voxel by voxel.
pub open spec fn column_touched_spec(spheres: Seq<ExcavationSphere>, x: int, height: int, z: int) -> bool {
    exists|i: int| 0 <= i < spheres.len() && #[trigger] sphere_touches_column(spheres[i], x, height, z)
}

/// The world generator: a seed and the excavations made so far.
pub struct WorldGenerator {
    pub seed: u32,
    pub excavations: Vec<ExcavationSphere>,
}

impl WorldGenerator {
    /// The generator of an untouched world.
    pub fn new(seed: u32) -> (generator: WorldGenerator)
        ensures
            generator.seed == seed,
            generator.excavations@ == Seq::<ExcavationSphere>::empty(),
    {
        WorldGenerator { seed, excavations: Vec::new() }
    }

    /// The generator of a world with the given excavations.
    pub fn with_excavations(seed: u32, excavations: Vec<ExcavationSphere>) -> (generator: WorldGenerator)
        ensures
            generator.seed == seed,
            generator.excavations@ == excavations@,
    {
        WorldGenerator { seed, excavations }
    }

    /// Whether some excavation removes the voxel `(x, y, z)`.
    pub fn is_excavated(&self, x: i64, y: i64, z: i64) -> (removed: bool)
        ensures
            removed == excavated(self.excavations@, x as int, y as int, z as int),
    {
        let mut i: usize = 0;
        while i < self.excavations.len()
            invariant
                i <= self.excavations.len(),
                forall|j: int|
                    0 <= j < i ==> #[trigger] distance_squared(self.excavations@[j], x as int, y as int, z as int) > 64,
            decreases self.excavations.len() - i,
        {
            let s = self.excavations[i];
            let dx = x as i128 - s.x as i128;
            let dy = y as i128 - s.y as i128;
            let dz = z as i128 - s.z as i128;
            if -8 <= dx && dx <= 8 && -8 <= dy && dy <= 8 && -8 <= dz && dz <= 8 {
                assert(0 <= dx * dx <= 64 && 0 <= dy * dy <= 64 && 0 <= dz * dz <= 64) by (nonlinear_arith)
                    requires
                        -8 <= dx <= 8,
                        -8 <= dy <= 8,
                        -8 <= dz <= 8,
                ;
                if dx * dx + dy * dy + dz * dz <= 64 {
                    assert(distance_squared(self.excavations@[i as int], x as int, y as int, z as int) <= 64);
                    return true;
                }
            } else {
                assert(dx * dx + dy * dy + dz * dz > 64) by (nonlinear_arith)
                    requires
                        !(-8 <= dx <= 8 && -8 <= dy <= 8 && -8 <= dz <= 8),
                ;
            }
            i = i + 1;
        }
        false
    }

    /// Whether the column at `(x, z)` lies near enough to an excavation to be meshed
    /// voxel by voxel.
    pub fn column_touched(&self, x: u32, height: u32, z: u32) -> (touched: bool)
        ensures
            touched == column_touched_spec(self.excavations@, x as int, height as int, z as int),
    {
        let mut i: usize = 0;
        while i < self.excavations.len()
            invariant
                i <= self.excavations.len(),
                forall|j: int|
                    0 <= j < i ==> !#[trigger] sphere_touches_column(
                        self.excavations@[j],
                        x as int,
                        height as int,
                        z as int,
                    ),
            decreases self.excavations.len() - i,
        {
            let s = self.excavations[i];
            let dx = x as i128 - s.x as i128;
            let dz = z as i128 - s.z as i128;
            assert(0 <= dx * dx <= 0x1_0000_0000_0000_0000 && 0 <= dz * dz <= 0x1_0000_0000_0000_0000) by (nonlinear_arith)
                requires
                    -0x1_0000_0000 <= dx <= 0x1_0000_0000,
                    -0x1_0000_0000 <= dz <= 0x1_0000_0000,
            ;
            if dx * dx + dz * dz <= 81 && s.y.saturating_sub(EXCAVATION_RADIUS_VOXELS) <= height {
                assert(sphere_touches_column(self.excavations@[i as int], x as int, height as int, z as int));
                return true;
            }
            i = i + 1;
        }
        false
    }
}

/// Heights of the terrain field sampled on a regular lattice: sample `(i, j)` is the
/// height of the column at `(min_x + i * step, min_z + j * step)`.
pub struct HeightGrid {
    pub min_x: i64,
    pub min_z: i64,
    pub step: u32,
    pub width: usize,
    pub depth: usize,
    pub heights: Vec<u32>,
}

impl HeightGrid {
    /// One height per sample, every height below the world ceiling, and a lattice of
    /// modest size near the world.
    pub open spec fn wf(&self) -> bool {
        &&& self.heights.len() == self.width * self.depth
        &&& 1 <= self.step <= 16
        &&& self.width <= 4096
        &&& self.depth <= 4096
        &&& small_coord(self.min_x as int)
        &&& small_coord(self.min_z as int)
        &&& forall|i: int| 0 <= i < self.heights.len() ==> #[trigger] self.heights@[i] < WORLD_HEIGHT_VOXELS
    }

    /// Whether the column at `(x, z)` is a sample of the grid.
    pub open spec fn covers(&self, x: int, z: int) -> bool {
        &&& x >= self.min_x
        &&& z >= self.min_z
        &&& (x - self.min_x) % (self.step as int) == 0
        &&& (z - self.min_z) % (self.step as int) == 0
        &&& (x - self.min_x) / (self.step as int) < self.width
        &&& (z - self.min_z) / (self.step as int) < self.depth
    }

    /// Whether the grid holds the `nx` by `nz` lattice of its own step whose first
    /// sample is the column `(x0, z0)`.
    pub open spec fn spans(&self, x0: int, z0: int, nx: int, nz: int) -> bool {
        &&& x0 >= self.min_x
        &&& z0 >= self.min_z
        &&& (x0 - self.min_x) % (self.step as int) == 0
        &&& (z0 - self.min_z) % (self.step as int) == 0
        &&& (x0 - self.min_x) / (self.step as int) + nx <= self.width
        &&& (z0 - self.min_z) / (self.step as int) + nz <= self.depth
    }

    /// The sampled height of the column at `(x, z)`.
    pub open spec fn height_at(&self, x: int, z: int) -> u32 {
        self.heights@[(x - self.min_x) / (self.step as int) + self.width * ((z - self.min_z) / (
        self.step as int))]
    }

    /// The height field the grid samples, as a function.
    pub open spec fn field(&self) -> spec_fn(int, int) -> u32 {
        |x: int, z: int| self.height_at(x, z)
    }

    /// A grid that spans a lattice covers each of its samples.
    pub proof fn lemma_spans_covers(&self, x0: int, z0: int, nx: int, nz: int, i: int, j: int)
        requires
            self.wf(),
            self.spans(x0, z0, nx, nz),
            0 <= i < nx,
            0 <= j < nz,
        ensures
            self.covers(x0 + i * self.step, z0 + j * self.step),
    {
        let s = self.step as int;
        let a = x0 - self.min_x;
        let b = z0 - self.min_z;
        vstd::arithmetic::div_mod::lemma_fundamental_div_mod(a, s);
        vstd::arithmetic::div_mod::lemma_fundamental_div_mod(b, s);
        assert(a + i * s == (a / s + i) * s + 0) by (nonlinear_arith)
            requires
                a == s * (a / s) + a % s,
                a % s == 0,
        ;
        assert(b + j * s == (b / s + j) * s + 0) by (nonlinear_arith)
            requires
                b == s * (b / s) + b % s,
                b % s == 0,
        ;
        assert(i * s >= 0) by (nonlinear_arith)
            requires
                i >= 0,
                s >= 1,
        ;
        assert(j * s >= 0) by (nonlinear_arith)
            requires
                j >= 0,
                s >= 1,
        ;
        vstd::arithmetic::div_mod::lemma_fundamental_div_mod_converse(a + i * s, s, a / s + i, 0);
        vstd::arithmetic::div_mod::lemma_fundamental_div_mod_converse(b + j * s, s, b / s + j, 0);
    }

    /// The sampled height of the column at `(x, z)`.
    pub fn height(&self, x: i64, z: i64) -> (height: u32)
        requires
            self.wf(),
            self.covers(x as int, z as int),
        ensures
            height == self.height_at(x as int, z as int),
            height < WORLD_HEIGHT_VOXELS,
    {
        proof {
            let s = self.step as int;
            assert(x - self.min_x < s * self.width) by (nonlinear_arith)
                requires
                    s >= 1,
                    x - self.min_x >= 0,
                    (x - self.min_x) / s < self.width,
            ;
            assert(z - self.min_z < s * self.depth) by (nonlinear_arith)
                requires
                    s >= 1,
                    z - self.min_z >= 0,
                    (z - self.min_z) / s < self.depth,
            ;
            assert(s * self.width <= 16 * 4096) by (nonlinear_arith)
                requires
                    s <= 16,
                    self.width <= 4096,
            ;
            assert(s * self.depth <= 16 * 4096) by (nonlinear_arith)
                requires
                    s <= 16,
                    self.depth <= 4096,
            ;
        }
        let i = ((x - self.min_x) / self.step as i64) as usize;
        let j = ((z - self.min_z) / self.step as i64) as usize;
        proof {
            assert(i + self.width * j < self.width * self.depth) by (nonlinear_arith)
                requires
                    i < self.width,
                    j < self.depth,
            ;
            assert(self.width * j <= 4096 * 4096) by (nonlinear_arith)
                requires
                    self.width <= 4096,
                    j < 4096,
            ;
        }
        self.heights[i + self.width * j]
    }
}

/// Whether `(x, y, z)` is solid terrain: inside the world, at or below its
/// column's height, and not excavated.
pub open spec fn terrain_solid_spec(
    spheres: Seq<ExcavationSphere>,
    h: spec_fn(int, int) -> u32,
    x: int,
    y: int,
    z: int,
) -> bool {
    &&& y >= 0
    &&& 0 <= x < WORLD_VOXELS
    &&& 0 <= z < WORLD_VOXELS
    &&& y <= h(x, z)
    &&& !excavated(spheres, x, y, z)
}

/// The height of a column after excavation: lowered while the top voxel is excavated.
pub open spec fn effective_height_spec(spheres: Seq<ExcavationSphere>, x: int, z: int, height: u32) -> u32
    decreases height,
{
    if height > 0 && excavated(spheres, x, height as int, z) {
        effective_height_spec(spheres, x, z, (height - 1) as u32)
    } else {
        height
    }
}

/// Excavation lowers a column to its highest voxel that no excavation removed, or
/// to zero: every voxel between the new and the old height is excavated.
pub proof fn lemma_effective_height(spheres: Seq<ExcavationSphere>, x: int, z: int, height: u32)
    ensures
        effective_height_spec(spheres, x, z, height) <= height,
        effective_height_spec(spheres, x, z, height) == 0 || !excavated(
            spheres,
            x,
            effective_height_spec(spheres, x, z, height) as int,
            z,
        ),
        forall|y: int|
            effective_height_spec(spheres, x, z, height) < y <= height ==> #[trigger] excavated(spheres, x, y, z),
    decreases height,
{
    if height > 0 && excavated(spheres, x, height as int, z) {
        lemma_effective_height(spheres, x, z, (height - 1) as u32);
    }
}

impl WorldGenerator {
    /// Whether `(x, y, z)` is solid terrain.
    pub fn is_terrain_solid(&self, grid: &HeightGrid, x: i64, y: i64, z: i64) -> (solid: bool)
        requires
            grid.wf(),
            0 <= x < WORLD_VOXELS && 0 <= z < WORLD_VOXELS ==> grid.covers(x as int, z as int),
        ensures
            solid == terrain_solid_spec(self.excavations@, grid.field(), x as int, y as int, z as int),
    {
        y >= 0 && x >= 0 && z >= 0 && x < WORLD_VOXELS as i64 && z < WORLD_VOXELS as i64 && y
            <= grid.height(x, z) as i64 && !self.is_excavated(x, y, z)
    }

    /// The height of the column at `(x, z)` after excavation.
    pub fn effective_height_voxels(&self, x: i64, z: i64, height: u32) -> (effective: u32)
        ensures
            effective == effective_height_spec(self.excavations@, x as int, z as int, height),
            effective <= height,
    {
        let mut h = height;
        while h > 0 && self.is_excavated(x, h as i64, z)
            invariant
                h <= height,
                effective_height_spec(self.excavations@, x as int, z as int, h)
                    == effective_height_spec(self.excavations@, x as int, z as int, height),
            decreases h,
        {
            h = h - 1;
        }
        h
    }
}

} // verus!
