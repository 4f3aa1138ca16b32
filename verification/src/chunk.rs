//! Chunk meshing: the quads of a chunk's terrain columns, water, vegetation and
//! clouds, from the terrain heights sampled on the chunk's lattice.

use vstd::prelude::*;
use crate::layout::{CHUNK_SIZE, SEA_LEVEL_VOXELS, WORLD_CHUNKS, WORLD_HEIGHT_VOXELS, WORLD_VOXELS};
use crate::quad::{Face, Material, Quad, quad_of, pack_quad, lemma_quad_fields};
use crate::terrain::{
    WorldGenerator, HeightGrid, ExcavationSphere, terrain_material, terrain_material_spec, surface_depth,
    surface_depth_spec, terrain_solid_spec, column_touched_spec, effective_height_spec,
};
use crate::vegetation::{unexcavated, voxels_quads, mesh_vegetation_voxels};
use crate::clouds::cloud_quads;
use crate::vegetation::VegetationVoxels;
use crate::plants::{vegetation_grown, vegetation_quads};

verus! {

/// The samples that mesh one column: its position, its height, the heights of its
/// four neighbours one lattice step away, and the lattice step.
#[derive(Clone, Copy)]
pub struct ColumnSamples {
    pub x: u32,
    pub z: u32,
    pub height: u32,
    pub front: u32,
    pub back: u32,
    pub right: u32,
    pub left: u32,
    pub lod: usize,
}

/// `|a - b|`.
pub open spec fn abs_diff(a: u32, b: u32) -> u32 {
    if a >= b {
        (a - b) as u32
    } else {
        (b - a) as u32
    }
}

/// The larger of two heights.
pub open spec fn max_u32(a: u32, b: u32) -> u32 {
    if a >= b {
        a
    } else {
        b
    }
}

impl ColumnSamples {
    /// Heights below the world ceiling, a column in the world, a lattice step that
    /// divides a chunk.
    pub open spec fn wf(self) -> bool {
        &&& self.x < WORLD_VOXELS
        &&& self.z < WORLD_VOXELS
        &&& self.height < WORLD_HEIGHT_VOXELS
        &&& self.front < WORLD_HEIGHT_VOXELS
        &&& self.back < WORLD_HEIGHT_VOXELS
        &&& self.right < WORLD_HEIGHT_VOXELS
        &&& self.left < WORLD_HEIGHT_VOXELS
        &&& (self.lod == 1 || self.lod == 2 || self.lod == 4 || self.lod == 8 || self.lod == 16)
    }

    /// The top material of the column.
    pub open spec fn material(self) -> Material {
        terrain_material_spec(self.x, self.height, self.z)
    }

    /// The largest height difference to a neighbour.
    pub open spec fn slope(self) -> u32 {
        max_u32(
            max_u32(abs_diff(self.height, self.front), abs_diff(self.height, self.back)),
            max_u32(abs_diff(self.height, self.right), abs_diff(self.height, self.left)),
        )
    }

    /// Whether some neighbour reaches the water's surface.
    pub open spec fn touches_shore(self) -> bool {
        self.front + 1 >= SEA_LEVEL_VOXELS || self.back + 1 >= SEA_LEVEL_VOXELS || self.right + 1
            >= SEA_LEVEL_VOXELS || self.left + 1 >= SEA_LEVEL_VOXELS
    }

    /// The top of the column's surface layer on its sides: `depth` below the top of
    /// its top voxel, but not below zero.
    pub open spec fn surface_bottom(self) -> int {
        let top = self.height + 1;
        let depth = surface_depth_spec(self.material());
        if top >= depth {
            top - depth
        } else {
            0
        }
    }
}

/// The quads of a column side from `bottom` up to `top`: rock in sections that end
/// at multiples of the chunk size below the surface layer, then the surface layer in
/// the column's material.
pub open spec fn side_stack(
    x: u32,
    z: u32,
    face: Face,
    lod: nat,
    bottom: int,
    top: int,
    surface_bottom: int,
    material: Material,
) -> Seq<Quad>
    decreases (if surface_bottom <= top {
        top
    } else {
        surface_bottom
    }) - bottom,
{
    if bottom >= top {
        Seq::empty()
    } else if bottom >= surface_bottom {
        seq![quad_of(x, bottom as u32, z, face, lod, (top - bottom) as nat, material)]
    } else {
        let section_top = (bottom / CHUNK_SIZE as int + 1) * CHUNK_SIZE;
        let section_end = if surface_bottom < section_top {
            surface_bottom
        } else {
            section_top
        };
        proof {
            vstd::arithmetic::div_mod::lemma_fundamental_div_mod(bottom, CHUNK_SIZE as int);
            vstd::arithmetic::div_mod::lemma_mod_bound(bottom, CHUNK_SIZE as int);
        }
        seq![quad_of(x, bottom as u32, z, face, lod, (section_end - bottom) as nat, Material::Rock)]
            + side_stack(x, z, face, lod, section_end, top, surface_bottom, material)
    }
}

/// The quads of the side of a column facing a lower neighbour, from just above the
/// neighbour to the column's top.
pub open spec fn side_quads(c: ColumnSamples, neighbor: u32, face: Face) -> Seq<Quad> {
    if neighbor < c.height {
        side_stack(
            c.x,
            c.z,
            face,
            c.lod as nat,
            neighbor + 1,
            c.height + 1,
            c.surface_bottom(),
            c.material(),
        )
    } else {
        Seq::empty()
    }
}

/// Pushes the side of a column facing the given neighbour.
fn push_side(c: ColumnSamples, neighbor: u32, face: Face, quads: &mut Vec<Quad>)
    requires
        c.wf(),
        neighbor < WORLD_HEIGHT_VOXELS,
    ensures
        final(quads)@ == old(quads)@ + side_quads(c, neighbor, face),
{
    if neighbor < c.height {
        let material = terrain_material(c.x, c.height, c.z);
        let mut bottom = neighbor + 1;
        let top = c.height + 1;
        let surface_bottom = top.saturating_sub(surface_depth(material));
        assert(surface_bottom == c.surface_bottom());
        while bottom < top
            invariant
                c.wf(),
                neighbor + 1 <= bottom <= top,
                top == c.height + 1,
                surface_bottom == c.surface_bottom(),
                surface_bottom <= top,
                material == c.material(),
                quads@ + side_stack(c.x, c.z, face, c.lod as nat, bottom as int, top as int, surface_bottom as int, material)
                    == old(quads)@ + side_quads(c, neighbor, face),
            decreases top - bottom,
        {
            let ghost before = quads@;
            let (extent, section_material) = if bottom >= surface_bottom {
                (top - bottom, material)
            } else {
                let section_top = ((bottom / CHUNK_SIZE) + 1) * CHUNK_SIZE;
                (if surface_bottom < section_top {
                    surface_bottom
                } else {
                    section_top
                } - bottom, Material::Rock)
            };
            quads.push(pack_quad(c.x, bottom, c.z, face, c.lod, extent as usize, section_material));
            bottom = bottom + extent;
            assert(before + side_stack(c.x, c.z, face, c.lod as nat, (bottom - extent) as int, top as int, surface_bottom as int, material)
                =~= quads@ + side_stack(c.x, c.z, face, c.lod as nat, bottom as int, top as int, surface_bottom as int, material));
        }
    } else {
        assert(final(quads)@ =~= old(quads)@ + side_quads(c, neighbor, face));
    }
}

/// The quad of one face of voxel `(x, y, z)` when the voxel across that face is
/// not solid terrain.
#[verifier::opaque]
pub open spec fn dug_face(
    spheres: Seq<ExcavationSphere>,
    h: spec_fn(int, int) -> u32,
    x: u32,
    y: u32,
    z: u32,
    dx: int,
    dy: int,
    dz: int,
    face: Face,
    material: Material,
) -> Seq<Quad> {
    if terrain_solid_spec(spheres, h, x + dx, y + dy, z + dz) {
        Seq::empty()
    } else {
        seq![quad_of(x, y, z, face, 1, 1, material)]
    }
}

/// The exposed faces of voxel `y` of an excavated column whose top is `height`:
/// none when the voxel is not solid; else each face towards a non-solid voxel, in
/// the order up, front, back, right, left, down, the last never at the bottom of
/// the world. The top voxels keep the surface material, the rest are rock.
pub open spec fn dug_voxel(
    spheres: Seq<ExcavationSphere>,
    h: spec_fn(int, int) -> u32,
    x: u32,
    y: u32,
    z: u32,
    height: u32,
    surface: Material,
) -> Seq<Quad> {
    if !terrain_solid_spec(spheres, h, x as int, y as int, z as int) {
        Seq::empty()
    } else {
        let material = if y + surface_depth_spec(surface) > height {
            surface
        } else {
            Material::Rock
        };
        dug_face(spheres, h, x, y, z, 0, 1, 0, Face::Up, material) + dug_face(
            spheres,
            h,
            x,
            y,
            z,
            0,
            0,
            1,
            Face::Front,
            material,
        ) + dug_face(spheres, h, x, y, z, 0, 0, -1, Face::Back, material) + dug_face(
            spheres,
            h,
            x,
            y,
            z,
            1,
            0,
            0,
            Face::Right,
            material,
        ) + dug_face(spheres, h, x, y, z, -1, 0, 0, Face::Left, material) + if y == 0 {
            Seq::empty()
        } else {
            dug_face(spheres, h, x, y, z, 0, -1, 0, Face::Down, material)
        }
    }
}

/// The exposed faces of the voxels of an excavated column from `y` up to its top.
pub open spec fn dug_column(
    spheres: Seq<ExcavationSphere>,
    h: spec_fn(int, int) -> u32,
    x: u32,
    z: u32,
    height: u32,
    surface: Material,
    y: int,
) -> Seq<Quad>
    decreases height + 1 - y,
{
    if y > height || y < 0 {
        Seq::empty()
    } else {
        dug_voxel(spheres, h, x, y as u32, z, height, surface) + dug_column(
            spheres,
            h,
            x,
            z,
            height,
            surface,
            y + 1,
        )
    }
}

/// A grid of step 1 that holds the column `(x, z)` and its eight neighbours.
pub open spec fn holds_neighbourhood(grid: HeightGrid, x: int, z: int) -> bool {
    grid.wf() && grid.step == 1 && grid.spans(x - 1, z - 1, 3, 3)
}

/// Each of the nine columns around `(x, z)` can be read from such a grid.
pub(crate) proof fn lemma_neighbourhood(grid: HeightGrid, x: int, z: int, dx: int, dz: int)
    requires
        holds_neighbourhood(grid, x, z),
        -1 <= dx <= 1,
        -1 <= dz <= 1,
    ensures
        grid.covers(x + dx, z + dz),
{
    grid.lemma_spans_covers(x - 1, z - 1, 3, 3, dx + 1, dz + 1);
}

impl WorldGenerator {
    fn push_dug_face(
        &self,
        grid: &HeightGrid,
        x: u32,
        y: u32,
        z: u32,
        dx: i64,
        dy: i64,
        dz: i64,
        face: Face,
        material: Material,
        quads: &mut Vec<Quad>,
    )
        requires
            holds_neighbourhood(*grid, x as int, z as int),
            -1 <= dx <= 1,
            -1 <= dy <= 1,
            -1 <= dz <= 1,
        ensures
            final(quads)@ == old(quads)@ + dug_face(
                self.excavations@,
                grid.field(),
                x,
                y,
                z,
                dx as int,
                dy as int,
                dz as int,
                face,
                material,
            ),
    {
        proof {
            lemma_neighbourhood(*grid, x as int, z as int, dx as int, dz as int);
            reveal(dug_face);
        }
        if !self.is_terrain_solid(grid, x as i64 + dx, y as i64 + dy, z as i64 + dz) {
            quads.push(pack_quad(x, y, z, face, 1, 1, material));
        }
        assert(final(quads)@ =~= old(quads)@ + dug_face(
            self.excavations@,
            grid.field(),
            x,
            y,
            z,
            dx as int,
            dy as int,
            dz as int,
            face,
            material,
        ));
    }

    fn push_dug_voxel(
        &self,
        grid: &HeightGrid,
        x: u32,
        y: u32,
        z: u32,
        height: u32,
        surface_material: Material,
        quads: &mut Vec<Quad>,
    )
        requires
            holds_neighbourhood(*grid, x as int, z as int),
            height < WORLD_HEIGHT_VOXELS,
            y <= height,
        ensures
            final(quads)@ == old(quads)@ + dug_voxel(
                self.excavations@,
                grid.field(),
                x,
                y,
                z,
                height,
                surface_material,
            ),
    {
        proof {
            lemma_neighbourhood(*grid, x as int, z as int, 0, 0);
        }
        if self.is_terrain_solid(grid, x as i64, y as i64, z as i64) {
            let material = if y + surface_depth(surface_material) > height {
                surface_material
            } else {
                Material::Rock
            };
            let ghost spheres = self.excavations@;
            let ghost h = grid.field();
            let ghost q0 = quads@;
            self.push_dug_face(grid, x, y, z, 0, 1, 0, Face::Up, material, quads);
            let ghost q1 = quads@;
            self.push_dug_face(grid, x, y, z, 0, 0, 1, Face::Front, material, quads);
            let ghost q2 = quads@;
            self.push_dug_face(grid, x, y, z, 0, 0, -1, Face::Back, material, quads);
            let ghost q3 = quads@;
            self.push_dug_face(grid, x, y, z, 1, 0, 0, Face::Right, material, quads);
            let ghost q4 = quads@;
            self.push_dug_face(grid, x, y, z, -1, 0, 0, Face::Left, material, quads);
            let ghost q5 = quads@;
            if y != 0 {
                self.push_dug_face(grid, x, y, z, 0, -1, 0, Face::Down, material, quads);
            }
            proof {
                let f1 = dug_face(spheres, h, x, y, z, 0, 1, 0, Face::Up, material);
                let f2 = dug_face(spheres, h, x, y, z, 0, 0, 1, Face::Front, material);
                let f3 = dug_face(spheres, h, x, y, z, 0, 0, -1, Face::Back, material);
                let f4 = dug_face(spheres, h, x, y, z, 1, 0, 0, Face::Right, material);
                let f5 = dug_face(spheres, h, x, y, z, -1, 0, 0, Face::Left, material);
                let f6 = if y == 0 {
                    Seq::<Quad>::empty()
                } else {
                    dug_face(spheres, h, x, y, z, 0, -1, 0, Face::Down, material)
                };
                assert(quads@ == q5 + f6);
                assert(dug_voxel(spheres, h, x, y, z, height, surface_material) == f1 + f2 + f3 + f4 + f5 + f6);
                assert(quads@ =~= q0 + (f1 + f2 + f3 + f4 + f5 + f6));
            }
        } else {
            assert(final(quads)@ =~= old(quads)@ + dug_voxel(
                self.excavations@,
                grid.field(),
                x,
                y,
                z,
                height,
                surface_material,
            ));
        }
    }

    /// Meshes a column that an excavation reaches voxel by voxel: every solid voxel
    /// of the column shows each face that borders a non-solid voxel.
    pub fn mesh_excavated_column(
        &self,
        grid: &HeightGrid,
        x: u32,
        height: u32,
        z: u32,
        surface_material: Material,
        quads: &mut Vec<Quad>,
    )
        requires
            holds_neighbourhood(*grid, x as int, z as int),
            height < WORLD_HEIGHT_VOXELS,
        ensures
            final(quads)@ == old(quads)@ + dug_column(
                self.excavations@,
                grid.field(),
                x,
                z,
                height,
                surface_material,
                0,
            ),
    {
        let ghost spheres = self.excavations@;
        let ghost h = grid.field();
        let mut y: u32 = 0;
        assert(old(quads)@ + dug_column(spheres, h, x, z, height, surface_material, 0) =~= quads@
            + dug_column(spheres, h, x, z, height, surface_material, 0));
        while y <= height
            invariant
                holds_neighbourhood(*grid, x as int, z as int),
                height < WORLD_HEIGHT_VOXELS,
                y <= height + 1,
                spheres == self.excavations@,
                h == grid.field(),
                quads@ + dug_column(spheres, h, x, z, height, surface_material, y as int) == old(quads)@
                    + dug_column(spheres, h, x, z, height, surface_material, 0),
            decreases height + 1 - y,
        {
            let ghost before = quads@;
            self.push_dug_voxel(grid, x, y, z, height, surface_material, quads);
            assert(before + dug_column(spheres, h, x, z, height, surface_material, y as int) =~= quads@
                + dug_column(spheres, h, x, z, height, surface_material, y + 1));
            y = y + 1;
        }
    }
}

/// Whether a column is meshed voxel by voxel: at full detail, when an excavation
/// reaches it.
pub open spec fn column_dug(spheres: Seq<ExcavationSphere>, c: ColumnSamples) -> bool {
    c.lod == 1 && column_touched_spec(spheres, c.x as int, c.height as int, c.z as int)
}

/// The terrain quads of a column. An excavated column shows the exposed faces of
/// its solid voxels. Any other column shows its top, one lattice step wide, then
/// the tall grass that grows on it at full detail, then its sides facing lower
/// neighbours: front, back, right, left.
pub open spec fn column_solid(g: WorldGenerator, h: spec_fn(int, int) -> u32, c: ColumnSamples) -> Seq<Quad> {
    if column_dug(g.excavations@, c) {
        dug_column(g.excavations@, h, c.x, c.z, c.height, c.material(), 0)
    } else {
        seq![quad_of(c.x, c.height, c.z, Face::Up, c.lod as nat, c.lod as nat, c.material())] + (if c.lod
            == 1 && c.material() == Material::Grass {
            vegetation_quads(g.seed, c.x, c.height, c.z, c.slope())
        } else {
            Seq::empty()
        }) + side_quads(c, c.front, Face::Front) + side_quads(c, c.back, Face::Back) + side_quads(
            c,
            c.right,
            Face::Right,
        ) + side_quads(c, c.left, Face::Left)
    }
}

/// The water quads of a column below sea level: the water surface one voxel below
/// sea level, and foam on it where a neighbour reaches the shore. An excavated
/// column has a one-voxel water surface and no foam.
pub open spec fn column_water(spheres: Seq<ExcavationSphere>, c: ColumnSamples) -> Seq<Quad> {
    let sea = (SEA_LEVEL_VOXELS - 1) as u32;
    if c.height + 1 >= SEA_LEVEL_VOXELS {
        Seq::empty()
    } else if column_dug(spheres, c) {
        seq![quad_of(c.x, sea, c.z, Face::Up, 1, 1, Material::Water)]
    } else {
        seq![quad_of(c.x, sea, c.z, Face::Up, c.lod as nat, c.lod as nat, Material::Water)] + if c.touches_shore() {
            seq![quad_of(c.x, sea, c.z, Face::Up, c.lod as nat, c.lod as nat, Material::Foam)]
        } else {
            Seq::empty()
        }
    }
}

/// The vegetation voxels after the column's plants grow into `m`: only grass
/// columns at full detail that no excavation reaches grow plants.
pub open spec fn column_vegetation(
    m: Map<(u32, u32, u32), Material>,
    g: WorldGenerator,
    c: ColumnSamples,
) -> Map<(u32, u32, u32), Material> {
    if !column_dug(g.excavations@, c) && c.lod == 1 && c.material() == Material::Grass {
        vegetation_grown(m, g.seed, c.x, c.height, c.z, c.slope())
    } else {
        m
    }
}

/// `abs_diff` on machine integers.
pub(crate) fn abs_diff_exec(a: u32, b: u32) -> (d: u32)
    ensures
        d == abs_diff(a, b),
{
    if a >= b {
        a - b
    } else {
        b - a
    }
}

/// `max_u32` on machine integers.
pub(crate) fn max_exec(a: u32, b: u32) -> (m: u32)
    ensures
        m == max_u32(a, b),
{
    if a >= b {
        a
    } else {
        b
    }
}

/// The sides of a column facing lower neighbours: front, back, right, left.
pub open spec fn column_sides(c: ColumnSamples) -> Seq<Quad> {
    side_quads(c, c.front, Face::Front) + side_quads(c, c.back, Face::Back) + side_quads(c, c.right, Face::Right)
        + side_quads(c, c.left, Face::Left)
}

fn push_sides(c: ColumnSamples, quads: &mut Vec<Quad>)
    requires
        c.wf(),
    ensures
        final(quads)@ == old(quads)@ + column_sides(c),
{
    push_side(c, c.front, Face::Front, quads);
    push_side(c, c.back, Face::Back, quads);
    push_side(c, c.right, Face::Right, quads);
    push_side(c, c.left, Face::Left, quads);
    assert(final(quads)@ =~= old(quads)@ + column_sides(c));
}

fn push_water(spheres: Ghost<Seq<ExcavationSphere>>, c: ColumnSamples, water_quads: &mut Vec<Quad>)
    requires
        c.wf(),
        !column_dug(spheres@, c),
    ensures
        final(water_quads)@ == old(water_quads)@ + column_water(spheres@, c),
{
    if c.height + 1 < SEA_LEVEL_VOXELS {
        water_quads.push(pack_quad(c.x, SEA_LEVEL_VOXELS - 1, c.z, Face::Up, c.lod, c.lod, Material::Water));
        let touches_shore = c.front + 1 >= SEA_LEVEL_VOXELS || c.back + 1 >= SEA_LEVEL_VOXELS || c.right + 1
            >= SEA_LEVEL_VOXELS || c.left + 1 >= SEA_LEVEL_VOXELS;
        if touches_shore {
            water_quads.push(pack_quad(c.x, SEA_LEVEL_VOXELS - 1, c.z, Face::Up, c.lod, c.lod, Material::Foam));
        }
    }
    assert(final(water_quads)@ =~= old(water_quads)@ + column_water(spheres@, c));
}

impl WorldGenerator {
    fn mesh_open_column(
        &self,
        c: ColumnSamples,
        vegetation: &mut VegetationVoxels,
        quads: &mut Vec<Quad>,
    )
        requires
            c.wf(),
            old(vegetation).wf(),
            !column_dug(self.excavations@, c),
        ensures
            final(vegetation).wf(),
            final(vegetation)@ == column_vegetation(old(vegetation)@, *self, c),
            final(quads)@ == old(quads)@ + seq![
                quad_of(c.x, c.height, c.z, Face::Up, c.lod as nat, c.lod as nat, c.material()),
            ] + (if c.lod == 1 && c.material() == Material::Grass {
                vegetation_quads(self.seed, c.x, c.height, c.z, c.slope())
            } else {
                Seq::empty()
            }),
    {
        let material = terrain_material(c.x, c.height, c.z);
        quads.push(pack_quad(c.x, c.height, c.z, Face::Up, c.lod, c.lod, material));
        let ghost q1 = quads@;
        if c.lod == 1 && material == Material::Grass {
            let slope = max_exec(
                max_exec(abs_diff_exec(c.height, c.front), abs_diff_exec(c.height, c.back)),
                max_exec(abs_diff_exec(c.height, c.right), abs_diff_exec(c.height, c.left)),
            );
            self.generate_vegetation(c.x, c.height, c.z, slope, vegetation, quads);
        } else {
            assert(quads@ =~= q1 + Seq::<Quad>::empty());
        }
    }

    /// Meshes one column of a chunk into the solid and water quads, and grows its
    /// vegetation into the chunk's vegetation voxels.
    #[verifier::rlimit(30)]
    pub fn mesh_column(
        &self,
        grid: &HeightGrid,
        c: ColumnSamples,
        vegetation: &mut VegetationVoxels,
        quads: &mut Vec<Quad>,
        water_quads: &mut Vec<Quad>,
    )
        requires
            c.wf(),
            old(vegetation).wf(),
            c.lod == 1 ==> holds_neighbourhood(*grid, c.x as int, c.z as int),
        ensures
            final(vegetation).wf(),
            final(vegetation)@ == column_vegetation(old(vegetation)@, *self, c),
            final(quads)@ == old(quads)@ + column_solid(*self, grid.field(), c),
            final(water_quads)@ == old(water_quads)@ + column_water(self.excavations@, c),
    {
        let material = terrain_material(c.x, c.height, c.z);
        if c.lod == 1 && self.column_touched(c.x, c.height, c.z) {
            self.mesh_excavated_column(grid, c.x, c.height, c.z, material, quads);
            if c.height + 1 < SEA_LEVEL_VOXELS {
                water_quads.push(pack_quad(c.x, SEA_LEVEL_VOXELS - 1, c.z, Face::Up, 1, 1, Material::Water));
            }
            assert(final(water_quads)@ =~= old(water_quads)@ + column_water(self.excavations@, c));
            return;
        }
        let ghost q0 = quads@;
        self.mesh_open_column(c, vegetation, quads);
        let ghost q2 = quads@;
        push_water(Ghost(self.excavations@), c, water_quads);
        push_sides(c, quads);
        proof {
            assert(column_solid(*self, grid.field(), c) == (q2.subrange(q0.len() as int, q2.len() as int))
                + column_sides(c)) by {
                assert(q2.subrange(q0.len() as int, q2.len() as int) =~= seq![
                    quad_of(c.x, c.height, c.z, Face::Up, c.lod as nat, c.lod as nat, c.material()),
                ] + (if c.lod == 1 && c.material() == Material::Grass {
                    vegetation_quads(self.seed, c.x, c.height, c.z, c.slope())
                } else {
                    Seq::empty()
                }));
            }
            assert(quads@ =~= q0 + column_solid(*self, grid.field(), c));
        }
    }
}

/// Columns per side of a chunk meshed at the given lattice step.
pub open spec fn samples(lod: usize) -> int {
    CHUNK_SIZE as int / lod as int
}

/// Whether `lod` is a lattice step the generator meshes at.
pub open spec fn mesh_lod(lod: usize) -> bool {
    lod == 1 || lod == 2 || lod == 4 || lod == 8 || lod == 16
}

/// The height of sample `(i, j)` of a chunk's lattice: the column `i - 1` steps
/// along x and `j - 1` steps along z from the chunk's first column. The lattice
/// has a one-sample border around the chunk's own columns.
pub open spec fn lattice_height(grid: HeightGrid, chunk_x: u32, chunk_z: u32, lod: usize, i: int, j: int) -> u32 {
    grid.height_at(chunk_x * CHUNK_SIZE + (i - 1) * lod, chunk_z * CHUNK_SIZE + (j - 1) * lod)
}

/// The samples of column `k` of a chunk, its columns taken row by row.
pub open spec fn column_at(grid: HeightGrid, chunk_x: u32, chunk_z: u32, lod: usize, k: int) -> ColumnSamples {
    let n = samples(lod);
    let i = k % n;
    let j = k / n;
    ColumnSamples {
        x: (chunk_x * CHUNK_SIZE + i * lod) as u32,
        z: (chunk_z * CHUNK_SIZE + j * lod) as u32,
        height: lattice_height(grid, chunk_x, chunk_z, lod, i + 1, j + 1),
        front: lattice_height(grid, chunk_x, chunk_z, lod, i + 1, j + 2),
        back: lattice_height(grid, chunk_x, chunk_z, lod, i + 1, j),
        right: lattice_height(grid, chunk_x, chunk_z, lod, i + 2, j + 1),
        left: lattice_height(grid, chunk_x, chunk_z, lod, i, j + 1),
        lod,
    }
}

/// What meshing a chunk needs: a world chunk, a lattice step, and a grid of that
/// step holding the chunk's lattice.
pub open spec fn chunk_ok(grid: HeightGrid, chunk_x: u32, chunk_z: u32, lod: usize) -> bool {
    &&& grid.wf()
    &&& chunk_x < WORLD_CHUNKS
    &&& chunk_z < WORLD_CHUNKS
    &&& mesh_lod(lod)
    &&& grid.step == lod
    &&& grid.spans(
        chunk_x * CHUNK_SIZE - lod,
        chunk_z * CHUNK_SIZE - lod,
        samples(lod) + 2,
        samples(lod) + 2,
    )
}

/// The terrain quads of the first `k` columns of a chunk.
pub open spec fn chunk_solid(g: WorldGenerator, grid: HeightGrid, chunk_x: u32, chunk_z: u32, lod: usize, k: nat) -> Seq<Quad>
    decreases k,
{
    if k == 0 {
        Seq::empty()
    } else {
        chunk_solid(g, grid, chunk_x, chunk_z, lod, (k - 1) as nat) + column_solid(
            g,
            grid.field(),
            column_at(grid, chunk_x, chunk_z, lod, k - 1),
        )
    }
}

/// The water quads of the first `k` columns of a chunk.
#[verifier::opaque]
pub open spec fn chunk_water(g: WorldGenerator, grid: HeightGrid, chunk_x: u32, chunk_z: u32, lod: usize, k: nat) -> Seq<Quad>
    decreases k,
{
    if k == 0 {
        Seq::empty()
    } else {
        chunk_water(g, grid, chunk_x, chunk_z, lod, (k - 1) as nat) + column_water(
            g.excavations@,
            column_at(grid, chunk_x, chunk_z, lod, k - 1),
        )
    }
}

/// The vegetation voxels grown by the first `k` columns of a chunk.
pub open spec fn chunk_plants(g: WorldGenerator, grid: HeightGrid, chunk_x: u32, chunk_z: u32, lod: usize, k: nat) -> Map<
    (u32, u32, u32),
    Material,
>
    decreases k,
{
    if k == 0 {
        Map::empty()
    } else {
        column_vegetation(
            chunk_plants(g, grid, chunk_x, chunk_z, lod, (k - 1) as nat),
            g,
            column_at(grid, chunk_x, chunk_z, lod, k - 1),
        )
    }
}

/// The vegetation voxels of a chunk that no excavation removes.
pub open spec fn chunk_vegetation(g: WorldGenerator, grid: HeightGrid, chunk_x: u32, chunk_z: u32, lod: usize) -> Map<
    (u32, u32, u32),
    Material,
> {
    let n = samples(lod);
    chunk_plants(g, grid, chunk_x, chunk_z, lod, (n * n) as nat).restrict(unexcavated(g.excavations@))
}

/// Whether `quads` is a mesh of the chunk: its columns' terrain quads, then the
/// exposed faces of its vegetation voxels (taken in some order, each once), then
/// its cloud.
#[verifier::opaque]
pub open spec fn is_chunk_mesh(
    g: WorldGenerator,
    grid: HeightGrid,
    chunk_x: u32,
    chunk_z: u32,
    lod: usize,
    quads: Seq<Quad>,
) -> bool {
    let n = samples(lod);
    let vegetation = chunk_vegetation(g, grid, chunk_x, chunk_z, lod);
    exists|order: Seq<(u32, u32, u32)>|
        #![trigger voxels_quads(vegetation, order)]
        order.no_duplicates() && order.to_set() == vegetation.dom() && quads == chunk_solid(
            g,
            grid,
            chunk_x,
            chunk_z,
            lod,
            (n * n) as nat,
        ) + voxels_quads(vegetation, order) + cloud_quads(chunk_x, chunk_z)
}

/// The column heights of a full-detail chunk after excavation, row by row.
#[verifier::opaque]
pub open spec fn chunk_heights(g: WorldGenerator, grid: HeightGrid, chunk_x: u32, chunk_z: u32) -> Seq<u16> {
    Seq::new(
        (CHUNK_SIZE * CHUNK_SIZE) as nat,
        |k: int|
            effective_height_spec(
                g.excavations@,
                chunk_x * CHUNK_SIZE + k % CHUNK_SIZE as int,
                chunk_z * CHUNK_SIZE + k / CHUNK_SIZE as int,
                lattice_height(grid, chunk_x, chunk_z, 1, k % CHUNK_SIZE as int + 1, k / CHUNK_SIZE as int + 1),
            ) as u16,
    )
}

/// A chunk's generated geometry: terrain, vegetation and cloud quads, water quads,
/// and (at full detail) its column heights.
pub struct GeneratedChunk {
    pub quads: Vec<Quad>,
    pub water_quads: Vec<Quad>,
    pub heights: Vec<u16>,
}

/// A row-major index `i + n * j` splits back into its column `i` and row `j`.
pub(crate) proof fn lemma_row_index(i: int, j: int, n: int)
    requires
        0 <= i < n,
        0 <= j,
    ensures
        (i + n * j) % n == i,
        (i + n * j) / n == j,
{
    assert(i + n * j == j * n + i) by (nonlinear_arith);
    vstd::arithmetic::div_mod::lemma_fundamental_div_mod_converse(i + n * j, n, j, i);
}

fn sample_lattice(grid: &HeightGrid, chunk_x: u32, chunk_z: u32, lod: usize) -> (heights: Vec<u32>)
    requires
        grid.wf(),
        chunk_x < WORLD_CHUNKS,
        chunk_z < WORLD_CHUNKS,
        mesh_lod(lod),
        grid.step == lod,
        grid.spans(chunk_x * CHUNK_SIZE - lod, chunk_z * CHUNK_SIZE - lod, samples(lod) + 2, samples(lod) + 2),
    ensures
        heights.len() == (samples(lod) + 2) * (samples(lod) + 2),
        forall|i: int, j: int|
            0 <= i < samples(lod) + 2 && 0 <= j < samples(lod) + 2 ==> heights@[i + (samples(lod) + 2) * j]
                == #[trigger] lattice_height(*grid, chunk_x, chunk_z, lod, i, j),
        forall|k: int| 0 <= k < heights.len() ==> #[trigger] heights@[k] < WORLD_HEIGHT_VOXELS,
{
    let stride = CHUNK_SIZE as usize / lod + 2;
    let base_x = chunk_x as i64 * CHUNK_SIZE as i64;
    let base_z = chunk_z as i64 * CHUNK_SIZE as i64;
    let ghost x0 = chunk_x * CHUNK_SIZE - lod;
    let ghost z0 = chunk_z * CHUNK_SIZE - lod;
    let mut heights: Vec<u32> = Vec::new();
    let mut j: usize = 0;
    while j < stride
        invariant
            grid.wf(),
            chunk_x < WORLD_CHUNKS,
            chunk_z < WORLD_CHUNKS,
            mesh_lod(lod),
            grid.step == lod,
            stride == samples(lod) + 2,
            x0 == chunk_x * CHUNK_SIZE - lod,
            z0 == chunk_z * CHUNK_SIZE - lod,
            base_x == chunk_x * CHUNK_SIZE,
            base_z == chunk_z * CHUNK_SIZE,
            grid.spans(x0, z0, stride as int, stride as int),
            j <= stride,
            heights.len() == stride * j,
            forall|a: int, b: int|
                0 <= a < stride && 0 <= b < j ==> heights@[a + stride * b] == #[trigger] lattice_height(
                    *grid,
                    chunk_x,
                    chunk_z,
                    lod,
                    a,
                    b,
                ),
            forall|k: int| 0 <= k < heights.len() ==> #[trigger] heights@[k] < WORLD_HEIGHT_VOXELS,
        decreases stride - j,
    {
        let mut i: usize = 0;
        while i < stride
            invariant
                grid.wf(),
                chunk_x < WORLD_CHUNKS,
                chunk_z < WORLD_CHUNKS,
                mesh_lod(lod),
                grid.step == lod,
                stride == samples(lod) + 2,
                x0 == chunk_x * CHUNK_SIZE - lod,
                z0 == chunk_z * CHUNK_SIZE - lod,
                base_x == chunk_x * CHUNK_SIZE,
                base_z == chunk_z * CHUNK_SIZE,
                grid.spans(x0, z0, stride as int, stride as int),
                j < stride,
                i <= stride,
                heights.len() == stride * j + i,
                forall|a: int, b: int|
                    0 <= a < stride && 0 <= b < j ==> heights@[a + stride * b] == #[trigger] lattice_height(
                        *grid,
                        chunk_x,
                        chunk_z,
                        lod,
                        a,
                        b,
                    ),
                forall|a: int| 0 <= a < i ==> heights@[a + stride * j] == #[trigger] lattice_height(
                    *grid,
                    chunk_x,
                    chunk_z,
                    lod,
                    a,
                    j as int,
                ),
                forall|k: int| 0 <= k < heights.len() ==> #[trigger] heights@[k] < WORLD_HEIGHT_VOXELS,
            decreases stride - i,
        {
            proof {
                grid.lemma_spans_covers(x0, z0, stride as int, stride as int, i as int, j as int);
                assert(x0 + i * lod == chunk_x * CHUNK_SIZE + (i - 1) * lod) by (nonlinear_arith)
                    requires
                        x0 == chunk_x * CHUNK_SIZE - lod,
                ;
                assert(z0 + j * lod == chunk_z * CHUNK_SIZE + (j - 1) * lod) by (nonlinear_arith)
                    requires
                        z0 == chunk_z * CHUNK_SIZE - lod,
                ;
                assert(-16 <= (i - 1) * lod <= 34 * 16 && -16 <= (j - 1) * lod <= 34 * 16) by (nonlinear_arith)
                    requires
                        0 <= i < 34,
                        0 <= j < 34,
                        1 <= lod <= 16,
                ;
            }
            let height = grid.height(base_x + (i as i64 - 1) * lod as i64, base_z + (j as i64 - 1) * lod as i64);
            proof {
                assert(stride * j + i == i + stride * j) by (nonlinear_arith);
            }
            heights.push(height);
            proof {
                assert forall|a: int, b: int|
                    0 <= a < stride && 0 <= b < j implies heights@[a + stride * b] == #[trigger] lattice_height(
                        *grid,
                        chunk_x,
                        chunk_z,
                        lod,
                        a,
                        b,
                    ) by {
                    assert(a + stride * b < stride * j) by (nonlinear_arith)
                        requires
                            0 <= a < stride,
                            0 <= b < j,
                    ;
                }
            }
            i = i + 1;
        }
        proof {
            assert(stride * j + stride == stride * (j + 1)) by (nonlinear_arith);
        }
        j = j + 1;
    }
    heights
}

/// A grid that spans a rectangle spans every rectangle inside it.
pub(crate) proof fn lemma_spans_sub(grid: HeightGrid, x0: int, z0: int, nx: int, nz: int, a: int, b: int, mx: int, mz: int)
    requires
        grid.wf(),
        grid.spans(x0, z0, nx, nz),
        0 <= a,
        a + mx <= nx,
        0 <= b,
        b + mz <= nz,
    ensures
        grid.spans(x0 + a * grid.step, z0 + b * grid.step, mx, mz),
{
    let s = grid.step as int;
    let p = x0 - grid.min_x;
    let q = z0 - grid.min_z;
    vstd::arithmetic::div_mod::lemma_fundamental_div_mod(p, s);
    vstd::arithmetic::div_mod::lemma_fundamental_div_mod(q, s);
    assert(p + a * s == (p / s + a) * s + 0) by (nonlinear_arith)
        requires
            p == s * (p / s) + p % s,
            p % s == 0,
    ;
    assert(q + b * s == (q / s + b) * s + 0) by (nonlinear_arith)
        requires
            q == s * (q / s) + q % s,
            q % s == 0,
    ;
    assert(a * s >= 0 && b * s >= 0) by (nonlinear_arith)
        requires
            a >= 0,
            b >= 0,
            s >= 1,
    ;
    vstd::arithmetic::div_mod::lemma_fundamental_div_mod_converse(p + a * s, s, p / s + a, 0);
    vstd::arithmetic::div_mod::lemma_fundamental_div_mod_converse(q + b * s, s, q / s + b, 0);
}

impl WorldGenerator {
    fn sample_full_heights(&self, grid: &HeightGrid, heights: &Vec<u32>, chunk_x: u32, chunk_z: u32) -> (full: Vec<u16>)
        requires
            chunk_x < WORLD_CHUNKS,
            chunk_z < WORLD_CHUNKS,
            heights.len() == 34 * 34,
            forall|i: int, j: int|
                0 <= i < 34 && 0 <= j < 34 ==> heights@[i + 34 * j] == #[trigger] lattice_height(
                    *grid,
                    chunk_x,
                    chunk_z,
                    1,
                    i,
                    j,
                ),
            forall|k: int| 0 <= k < heights.len() ==> #[trigger] heights@[k] < WORLD_HEIGHT_VOXELS,
        ensures
            full@ == chunk_heights(*self, *grid, chunk_x, chunk_z),
    {
        assert(chunk_x * 32 < 0x10_0000 && chunk_z * 32 < 0x10_0000);
        let base_x = chunk_x as i64 * CHUNK_SIZE as i64;
        let base_z = chunk_z as i64 * CHUNK_SIZE as i64;
        let ghost target = chunk_heights(*self, *grid, chunk_x, chunk_z);
        let mut full: Vec<u16> = Vec::new();
        let mut z: usize = 0;
        while z < 32
            invariant
                chunk_x < WORLD_CHUNKS,
                chunk_z < WORLD_CHUNKS,
                base_x == chunk_x * CHUNK_SIZE,
                base_z == chunk_z * CHUNK_SIZE,
                heights.len() == 34 * 34,
                forall|i: int, j: int|
                    0 <= i < 34 && 0 <= j < 34 ==> heights@[i + 34 * j] == #[trigger] lattice_height(
                        *grid,
                        chunk_x,
                        chunk_z,
                        1,
                        i,
                        j,
                    ),
                forall|k: int| 0 <= k < heights.len() ==> #[trigger] heights@[k] < WORLD_HEIGHT_VOXELS,
                target == chunk_heights(*self, *grid, chunk_x, chunk_z),
                z <= 32,
                full.len() == 32 * z,
                forall|k: int| 0 <= k < full.len() ==> full@[k] == #[trigger] target[k],
            decreases 32 - z,
        {
            let mut x: usize = 0;
            while x < 32
                invariant
                    chunk_x < WORLD_CHUNKS,
                    chunk_z < WORLD_CHUNKS,
                    base_x == chunk_x * CHUNK_SIZE,
                    base_z == chunk_z * CHUNK_SIZE,
                    heights.len() == 34 * 34,
                    forall|i: int, j: int|
                        0 <= i < 34 && 0 <= j < 34 ==> heights@[i + 34 * j] == #[trigger] lattice_height(
                            *grid,
                            chunk_x,
                            chunk_z,
                            1,
                            i,
                            j,
                        ),
                    forall|k: int| 0 <= k < heights.len() ==> #[trigger] heights@[k] < WORLD_HEIGHT_VOXELS,
                    target == chunk_heights(*self, *grid, chunk_x, chunk_z),
                    z < 32,
                    x <= 32,
                    full.len() == 32 * z + x,
                    forall|k: int| 0 <= k < full.len() ==> full@[k] == #[trigger] target[k],
                decreases 32 - x,
            {
                let height = heights[(x + 1) + 34 * (z + 1)];
                let effective = self.effective_height_voxels(base_x + x as i64, base_z + z as i64, height);
                proof {
                    reveal(chunk_heights);
                    lemma_row_index(x as int, z as int, 32);
                    assert(heights@[(x + 1) + 34 * (z + 1)] == lattice_height(
                        *grid,
                        chunk_x,
                        chunk_z,
                        1,
                        x + 1,
                        z + 1,
                    ));
                    assert(x + 32 * z == 32 * z + x);
                }
                full.push(effective as u16);
                x = x + 1;
            }
            z = z + 1;
        }
        proof {
            reveal(chunk_heights);
        }
        assert(full@ =~= target);
        full
    }

    fn mesh_columns(
        &self,
        grid: &HeightGrid,
        heights: &Vec<u32>,
        chunk_x: u32,
        chunk_z: u32,
        lod: usize,
        vegetation: &mut VegetationVoxels,
        quads: &mut Vec<Quad>,
        water_quads: &mut Vec<Quad>,
    )
        requires
            chunk_ok(*grid, chunk_x, chunk_z, lod),
            heights.len() == (samples(lod) + 2) * (samples(lod) + 2),
            forall|i: int, j: int|
                0 <= i < samples(lod) + 2 && 0 <= j < samples(lod) + 2 ==> heights@[i + (samples(lod) + 2)
                    * j] == #[trigger] lattice_height(*grid, chunk_x, chunk_z, lod, i, j),
            forall|k: int| 0 <= k < heights.len() ==> #[trigger] heights@[k] < WORLD_HEIGHT_VOXELS,
            old(vegetation).wf(),
            old(vegetation)@ == Map::<(u32, u32, u32), Material>::empty(),
            old(quads)@ == Seq::<Quad>::empty(),
            old(water_quads)@ == Seq::<Quad>::empty(),
        ensures
            final(vegetation).wf(),
            final(vegetation)@ == chunk_plants(*self, *grid, chunk_x, chunk_z, lod, (samples(lod) * samples(lod)) as nat),
            final(quads)@ == chunk_solid(*self, *grid, chunk_x, chunk_z, lod, (samples(lod) * samples(lod)) as nat),
            final(water_quads)@ == chunk_water(*self, *grid, chunk_x, chunk_z, lod, (samples(lod) * samples(lod)) as nat),
    {
        proof {
            reveal(chunk_water);
            assert(chunk_water(*self, *grid, chunk_x, chunk_z, lod, 0) == Seq::<Quad>::empty());
        }
        let n = CHUNK_SIZE as usize / lod;
        let stride = n + 2;
        assert(n * lod == 32) by (nonlinear_arith)
            requires
                n == 32usize / lod,
                lod == 1 || lod == 2 || lod == 4 || lod == 8 || lod == 16,
        ;
        let mut j: usize = 0;
        while j < n
            invariant
                chunk_ok(*grid, chunk_x, chunk_z, lod),
                n == samples(lod),
                1 <= n <= 32,
                n * lod == 32,
                stride == n + 2,
                heights.len() == stride * stride,
                forall|a: int, b: int|
                    0 <= a < stride && 0 <= b < stride ==> heights@[a + stride * b] == #[trigger] lattice_height(
                        *grid,
                        chunk_x,
                        chunk_z,
                        lod,
                        a,
                        b,
                    ),
                forall|k: int| 0 <= k < heights.len() ==> #[trigger] heights@[k] < WORLD_HEIGHT_VOXELS,
                j <= n,
                vegetation.wf(),
                vegetation@ == chunk_plants(*self, *grid, chunk_x, chunk_z, lod, (n * j) as nat),
                quads@ == chunk_solid(*self, *grid, chunk_x, chunk_z, lod, (n * j) as nat),
                water_quads@ == chunk_water(*self, *grid, chunk_x, chunk_z, lod, (n * j) as nat),
            decreases n - j,
        {
            let mut i: usize = 0;
            while i < n
                invariant
                    chunk_ok(*grid, chunk_x, chunk_z, lod),
                    n == samples(lod),
                    1 <= n <= 32,
                    n * lod == 32,
                    stride == n + 2,
                    heights.len() == stride * stride,
                    forall|a: int, b: int|
                        0 <= a < stride && 0 <= b < stride ==> heights@[a + stride * b] == #[trigger] lattice_height(
                            *grid,
                            chunk_x,
                            chunk_z,
                            lod,
                            a,
                            b,
                        ),
                    forall|k: int| 0 <= k < heights.len() ==> #[trigger] heights@[k] < WORLD_HEIGHT_VOXELS,
                    j < n,
                    i <= n,
                    vegetation.wf(),
                    vegetation@ == chunk_plants(*self, *grid, chunk_x, chunk_z, lod, (i + n * j) as nat),
                    quads@ == chunk_solid(*self, *grid, chunk_x, chunk_z, lod, (i + n * j) as nat),
                    water_quads@ == chunk_water(*self, *grid, chunk_x, chunk_z, lod, (i + n * j) as nat),
                decreases n - i,
            {
                proof {
                    assert(i * lod < 32 && j * lod < 32) by (nonlinear_arith)
                        requires
                            i < n,
                            j < n,
                            n * lod == 32,
                            lod >= 1,
                    ;
                    assert(i + 2 + stride * (j + 1) < stride * stride && i + 1 + stride * (j + 2) < stride
                        * stride && 0 <= stride * j && stride * j <= stride * (j + 1) && stride * (j + 1)
                        <= stride * (j + 2)) by (nonlinear_arith)
                        requires
                            i < n,
                            j < n,
                            stride == n + 2,
                    ;
                }
                let c = ColumnSamples {
                    x: chunk_x * CHUNK_SIZE + (i * lod) as u32,
                    z: chunk_z * CHUNK_SIZE + (j * lod) as u32,
                    height: heights[(i + 1) + stride * (j + 1)],
                    front: heights[(i + 1) + stride * (j + 2)],
                    back: heights[(i + 1) + stride * j],
                    right: heights[(i + 2) + stride * (j + 1)],
                    left: heights[i + stride * (j + 1)],
                    lod,
                };
                proof {
                    let k = i + n * j;
                    lemma_row_index(i as int, j as int, n as int);
                    assert(c.height == lattice_height(*grid, chunk_x, chunk_z, lod, i + 1, j + 1));
                    assert(c.front == lattice_height(*grid, chunk_x, chunk_z, lod, i + 1, j + 2));
                    assert(c.back == lattice_height(*grid, chunk_x, chunk_z, lod, i + 1, j as int));
                    assert(c.right == lattice_height(*grid, chunk_x, chunk_z, lod, i + 2, j + 1));
                    assert(c.left == lattice_height(*grid, chunk_x, chunk_z, lod, i as int, j + 1));
                    assert(c == column_at(*grid, chunk_x, chunk_z, lod, k));
                    assert(c.x < WORLD_VOXELS && c.z < WORLD_VOXELS);
                    if lod == 1 {
                        lemma_spans_sub(
                            *grid,
                            chunk_x * CHUNK_SIZE - 1,
                            chunk_z * CHUNK_SIZE - 1,
                            stride as int,
                            stride as int,
                            i as int,
                            j as int,
                            3,
                            3,
                        );
                        assert(i * lod == i && j * lod == j && i * grid.step == i && j * grid.step == j) by (nonlinear_arith)
                            requires
                                lod == 1,
                                grid.step == lod,
                        ;
                        assert(c.x - 1 == chunk_x * CHUNK_SIZE - 1 + i);
                        assert(c.z - 1 == chunk_z * CHUNK_SIZE - 1 + j);
                    }
                }
                self.mesh_column(grid, c, vegetation, quads, water_quads);
                proof {
                    reveal(chunk_water);
                    assert(i + 1 + n * j == (i + n * j) + 1);
                }
                i = i + 1;
            }
            proof {
                assert(n + n * j == n * (j + 1)) by (nonlinear_arith);
            }
            j = j + 1;
        }
    }

    /// Generates the geometry of one chunk at the given lattice step: each column's
    /// terrain and water quads, the faces of the vegetation grown on its grass and
    /// left by the excavations, its cloud, and at full detail its column heights
    /// after excavation.
    pub fn generate_chunk(&self, grid: &HeightGrid, chunk_x: u32, chunk_z: u32, lod: usize) -> (chunk: GeneratedChunk)
        requires
            chunk_ok(*grid, chunk_x, chunk_z, lod),
        ensures
            is_chunk_mesh(*self, *grid, chunk_x, chunk_z, lod, chunk.quads@),
            chunk.water_quads@ == chunk_water(*self, *grid, chunk_x, chunk_z, lod, (samples(lod) * samples(lod)) as nat),
            chunk.heights@ == (if lod == 1 {
                chunk_heights(*self, *grid, chunk_x, chunk_z)
            } else {
                Seq::empty()
            }),
    {
        let heights = sample_lattice(grid, chunk_x, chunk_z, lod);
        assert(lod == 1 ==> samples(lod) == 32) by {
            if lod == 1 {
                assert(CHUNK_SIZE as int / 1 == 32);
            }
        }
        let full_heights = if lod == 1 {
            self.sample_full_heights(grid, &heights, chunk_x, chunk_z)
        } else {
            Vec::new()
        };
        let mut quads: Vec<Quad> = Vec::new();
        let mut water_quads: Vec<Quad> = Vec::new();
        let mut vegetation = VegetationVoxels::new();
        self.mesh_columns(grid, &heights, chunk_x, chunk_z, lod, &mut vegetation, &mut quads, &mut water_quads);
        let kept = self.retain_unexcavated(&vegetation);
        let ghost solid = quads@;
        mesh_vegetation_voxels(&kept, &mut quads);
        let ghost with_plants = quads@;
        self.mesh_cloud_for_chunk(chunk_x, chunk_z, &mut quads);
        proof {
            reveal(is_chunk_mesh);
            let order = choose|order: Seq<(u32, u32, u32)>|
                order.no_duplicates() && order.to_set() == kept@.dom() && with_plants == solid + voxels_quads(
                    kept@,
                    order,
                );
            assert(kept@ == chunk_vegetation(*self, *grid, chunk_x, chunk_z, lod));
            assert(quads@ == solid + voxels_quads(kept@, order) + cloud_quads(chunk_x, chunk_z));
        }
        GeneratedChunk { quads, water_quads, heights: full_heights }
    }
}

/// The first chunk past a patch that starts at `start`: `lod` chunks on, but not
/// past the world's edge.
pub open spec fn patch_end(start: u32, lod: usize) -> int {
    if start + lod < WORLD_CHUNKS {
        start + lod
    } else {
        WORLD_CHUNKS as int
    }
}

/// The chunk `m` of a patch, its chunks taken row by row.
pub open spec fn patch_chunk(chunk_x: u32, chunk_z: u32, lod: usize, m: int) -> (u32, u32) {
    let w = patch_end(chunk_x, lod) - chunk_x;
    ((chunk_x + m % w) as u32, (chunk_z + m / w) as u32)
}

/// Number of chunks in a patch.
pub open spec fn patch_size(chunk_x: u32, chunk_z: u32, lod: usize) -> int {
    (patch_end(chunk_x, lod) - chunk_x) * (patch_end(chunk_z, lod) - chunk_z)
}

/// What meshing a patch needs: a world chunk to start from, a lattice step, and a
/// grid of that step holding the lattices of all the patch's chunks.
pub open spec fn patch_ok(grid: HeightGrid, chunk_x: u32, chunk_z: u32, lod: usize) -> bool {
    &&& grid.wf()
    &&& chunk_x < WORLD_CHUNKS
    &&& chunk_z < WORLD_CHUNKS
    &&& mesh_lod(lod)
    &&& grid.step == lod
    &&& grid.spans(
        chunk_x * CHUNK_SIZE - lod,
        chunk_z * CHUNK_SIZE - lod,
        (patch_end(chunk_x, lod) - chunk_x) * samples(lod) + 2,
        (patch_end(chunk_z, lod) - chunk_z) * samples(lod) + 2,
    )
}

/// The water quads of the first `m` chunks of a patch.
pub open spec fn patch_water(g: WorldGenerator, grid: HeightGrid, chunk_x: u32, chunk_z: u32, lod: usize, m: nat) -> Seq<Quad>
    decreases m,
{
    if m == 0 {
        Seq::empty()
    } else {
        let c = patch_chunk(chunk_x, chunk_z, lod, m - 1);
        patch_water(g, grid, chunk_x, chunk_z, lod, (m - 1) as nat) + chunk_water(
            g,
            grid,
            c.0,
            c.1,
            lod,
            (samples(lod) * samples(lod)) as nat,
        )
    }
}

/// Whether `parts` holds a mesh of each chunk of a patch, in order.
pub open spec fn patch_parts(
    g: WorldGenerator,
    grid: HeightGrid,
    chunk_x: u32,
    chunk_z: u32,
    lod: usize,
    parts: Seq<Seq<Quad>>,
) -> bool {
    &&& parts.len() == patch_size(chunk_x, chunk_z, lod)
    &&& forall|m: int|
        0 <= m < parts.len() ==> is_chunk_mesh(
            g,
            grid,
            patch_chunk(chunk_x, chunk_z, lod, m).0,
            patch_chunk(chunk_x, chunk_z, lod, m).1,
            lod,
            #[trigger] parts[m],
        )
}

impl WorldGenerator {
    /// Generates a streamed patch: the `lod` by `lod` chunks (cut at the world's
    /// edge) starting at `(chunk_x, chunk_z)`, each meshed at lattice step `lod`,
    /// their quads concatenated row by row. A full-detail patch is one chunk and
    /// carries its column heights.
    pub fn generate_patch(&self, grid: &HeightGrid, chunk_x: u32, chunk_z: u32, lod: usize) -> (patch: GeneratedChunk)
        requires
            patch_ok(*grid, chunk_x, chunk_z, lod),
        ensures
            exists|parts: Seq<Seq<Quad>>|
                patch_parts(*self, *grid, chunk_x, chunk_z, lod, parts) && patch.quads@ == parts.flatten(),
            patch.water_quads@ == patch_water(
                *self,
                *grid,
                chunk_x,
                chunk_z,
                lod,
                patch_size(chunk_x, chunk_z, lod) as nat,
            ),
            patch.heights@ == (if lod == 1 {
                chunk_heights(*self, *grid, chunk_x, chunk_z)
            } else {
                Seq::empty()
            }),
    {
        let end_x = if chunk_x + (lod as u32) < WORLD_CHUNKS {
            chunk_x + lod as u32
        } else {
            WORLD_CHUNKS
        };
        let end_z = if chunk_z + (lod as u32) < WORLD_CHUNKS {
            chunk_z + lod as u32
        } else {
            WORLD_CHUNKS
        };
        let ghost w = end_x - chunk_x;
        let ghost n = samples(lod);
        let mut patch = GeneratedChunk { quads: Vec::new(), water_quads: Vec::new(), heights: Vec::new() };
        let ghost mut parts: Seq<Seq<Quad>> = Seq::empty();
        assert(n * lod == 32) by (nonlinear_arith)
            requires
                n == 32int / (lod as int),
                lod == 1 || lod == 2 || lod == 4 || lod == 8 || lod == 16,
        ;
        let mut z = chunk_z;
        while z < end_z
            invariant
                patch_ok(*grid, chunk_x, chunk_z, lod),
                end_x == patch_end(chunk_x, lod),
                end_z == patch_end(chunk_z, lod),
                w == end_x - chunk_x,
                1 <= w <= lod,
                n == samples(lod),
                n * lod == 32,
                chunk_z <= z <= end_z,
                parts.len() == (z - chunk_z) * w,
                forall|m: int|
                    0 <= m < parts.len() ==> is_chunk_mesh(
                        *self,
                        *grid,
                        patch_chunk(chunk_x, chunk_z, lod, m).0,
                        patch_chunk(chunk_x, chunk_z, lod, m).1,
                        lod,
                        #[trigger] parts[m],
                    ),
                patch.quads@ == parts.flatten_alt(),
                patch.water_quads@ == patch_water(*self, *grid, chunk_x, chunk_z, lod, parts.len()),
                lod == 1 ==> (parts.len() == 0 ==> patch.heights@ == Seq::<u16>::empty()),
                lod == 1 ==> (parts.len() == 1 ==> patch.heights@ == chunk_heights(*self, *grid, chunk_x, chunk_z)),
                lod != 1 ==> patch.heights@ == Seq::<u16>::empty(),
            decreases end_z - z,
        {
            let mut x = chunk_x;
            while x < end_x
                invariant
                    patch_ok(*grid, chunk_x, chunk_z, lod),
                    end_x == patch_end(chunk_x, lod),
                    end_z == patch_end(chunk_z, lod),
                    w == end_x - chunk_x,
                    1 <= w <= lod,
                    n == samples(lod),
                    n * lod == 32,
                    chunk_z <= z < end_z,
                    chunk_x <= x <= end_x,
                    parts.len() == (z - chunk_z) * w + (x - chunk_x),
                    forall|m: int|
                        0 <= m < parts.len() ==> is_chunk_mesh(
                            *self,
                            *grid,
                            patch_chunk(chunk_x, chunk_z, lod, m).0,
                            patch_chunk(chunk_x, chunk_z, lod, m).1,
                            lod,
                            #[trigger] parts[m],
                        ),
                    patch.quads@ == parts.flatten_alt(),
                    patch.water_quads@ == patch_water(*self, *grid, chunk_x, chunk_z, lod, parts.len()),
                    lod == 1 ==> (parts.len() == 0 ==> patch.heights@ == Seq::<u16>::empty()),
                    lod == 1 ==> (parts.len() == 1 ==> patch.heights@ == chunk_heights(*self, *grid, chunk_x, chunk_z)),
                    lod != 1 ==> patch.heights@ == Seq::<u16>::empty(),
                decreases end_x - x,
            {
                let ghost m = parts.len() as int;
                proof {
                    lemma_row_index(x - chunk_x, z - chunk_z, w as int);
                    assert(m == (x - chunk_x) + w * (z - chunk_z)) by (nonlinear_arith)
                        requires
                            m == (z - chunk_z) * w + (x - chunk_x),
                    ;
                    assert(patch_chunk(chunk_x, chunk_z, lod, m) == (x, z));
                    let a = (x - chunk_x) * n;
                    let b = (z - chunk_z) * n;
                    assert(a + n + 2 <= w * n + 2 && b + n + 2 <= (end_z - chunk_z) * n + 2 && a >= 0 && b >= 0)
                        by (nonlinear_arith)
                        requires
                            a == (x - chunk_x) * n,
                            b == (z - chunk_z) * n,
                            0 <= x - chunk_x < w,
                            0 <= z - chunk_z < end_z - chunk_z,
                            n >= 1,
                    ;
                    lemma_spans_sub(
                        *grid,
                        chunk_x * CHUNK_SIZE - lod,
                        chunk_z * CHUNK_SIZE - lod,
                        w * n + 2,
                        (end_z - chunk_z) * n + 2,
                        a,
                        b,
                        n + 2,
                        n + 2,
                    );
                    assert(chunk_x * CHUNK_SIZE - lod + a * grid.step == x * CHUNK_SIZE - lod) by (nonlinear_arith)
                        requires
                            a == (x - chunk_x) * n,
                            n * lod == 32,
                            grid.step == lod,
                            CHUNK_SIZE == 32,
                    ;
                    assert(chunk_z * CHUNK_SIZE - lod + b * grid.step == z * CHUNK_SIZE - lod) by (nonlinear_arith)
                        requires
                            b == (z - chunk_z) * n,
                            n * lod == 32,
                            grid.step == lod,
                            CHUNK_SIZE == 32,
                    ;
                }
                let mut chunk = self.generate_chunk(grid, x, z, lod);
                let ghost before = parts;
                proof {
                    parts = parts.push(chunk.quads@);
                    assert(parts.drop_last() =~= before);
                    assert(parts.last() == chunk.quads@);
                }
                patch.quads.append(&mut chunk.quads);
                patch.water_quads.append(&mut chunk.water_quads);
                if lod == 1 {
                    patch.heights = chunk.heights;
                    proof {
                        assert(end_x == chunk_x + 1 && end_z == chunk_z + 1);
                        assert(x == chunk_x && z == chunk_z);
                        assert(w == 1);
                        assert(m == 0) by (nonlinear_arith)
                            requires
                                m == (z - chunk_z) * w + (x - chunk_x),
                                x == chunk_x,
                                z == chunk_z,
                        ;
                    }
                }
                x = x + 1;
            }
            proof {
                assert((z - chunk_z) * w + w == (z + 1 - chunk_z) * w) by (nonlinear_arith);
            }
            z = z + 1;
        }
        proof {
            parts.lemma_flatten_and_flatten_alt_are_equivalent();
            assert(parts.len() == patch_size(chunk_x, chunk_z, lod)) by (nonlinear_arith)
                requires
                    parts.len() == (end_z - chunk_z) * w,
                    w == patch_end(chunk_x, lod) - chunk_x,
                    end_z == patch_end(chunk_z, lod),
                    patch_size(chunk_x, chunk_z, lod) == (patch_end(chunk_x, lod) - chunk_x) * (patch_end(
                        chunk_z,
                        lod,
                    ) - chunk_z),
            ;
            assert(patch_parts(*self, *grid, chunk_x, chunk_z, lod, parts));
        }
        patch
    }
}

/// The water quads of a chunk's columns all stand among the chunk's water quads.
proof fn lemma_column_water_in_chunk(
    g: WorldGenerator,
    grid: HeightGrid,
    chunk_x: u32,
    chunk_z: u32,
    lod: usize,
    count: nat,
    k: int,
    q: Quad,
)
    requires
        0 <= k < count,
        column_water(g.excavations@, column_at(grid, chunk_x, chunk_z, lod, k)).contains(q),
    ensures
        chunk_water(g, grid, chunk_x, chunk_z, lod, count).contains(q),
    decreases count,
{
    reveal(chunk_water);
    let before = chunk_water(g, grid, chunk_x, chunk_z, lod, (count - 1) as nat);
    let last = column_water(g.excavations@, column_at(grid, chunk_x, chunk_z, lod, count - 1));
    assert(chunk_water(g, grid, chunk_x, chunk_z, lod, count) == before + last);
    if k < count - 1 {
        lemma_column_water_in_chunk(g, grid, chunk_x, chunk_z, lod, (count - 1) as nat, k, q);
        let w = choose|w: int| 0 <= w < before.len() && before[w] == q;
        assert((before + last)[w] == q);
    } else {
        let w = choose|w: int| 0 <= w < last.len() && last[w] == q;
        assert((before + last)[before.len() + w] == q);
    }
}

/// Shores foam: each shore column of a chunk (below the water's surface, with a
/// lattice neighbour reaching it, no excavation near) adds a foam quad one lattice
/// step wide on the water surface to the chunk's water quads.
pub proof fn lemma_shore_foam(
    g: WorldGenerator,
    grid: HeightGrid,
    chunk_x: u32,
    chunk_z: u32,
    lod: usize,
    i: int,
    j: int,
)
    requires
        chunk_x < WORLD_CHUNKS,
        chunk_z < WORLD_CHUNKS,
        mesh_lod(lod),
        0 <= i < samples(lod),
        0 <= j < samples(lod),
        shore_sample(g, grid, chunk_x, chunk_z, lod, i, j),
    ensures
        chunk_water(g, grid, chunk_x, chunk_z, lod, (samples(lod) * samples(lod)) as nat).contains(
            quad_of(
                (chunk_x * CHUNK_SIZE + i * lod) as u32,
                (SEA_LEVEL_VOXELS - 1) as u32,
                (chunk_z * CHUNK_SIZE + j * lod) as u32,
                Face::Up,
                lod as nat,
                lod as nat,
                Material::Foam,
            ),
        ),
{
    let n = samples(lod);
    let k = i + n * j;
    lemma_row_index(i, j, n);
    assert(k < n * n) by (nonlinear_arith)
        requires
            0 <= i < n,
            0 <= j < n,
            k == i + n * j,
    ;
    let c = column_at(grid, chunk_x, chunk_z, lod, k);
    assert(c.x == (chunk_x * CHUNK_SIZE + i * lod) as u32);
    assert(c.z == (chunk_z * CHUNK_SIZE + j * lod) as u32);
    assert(0 <= i * lod < CHUNK_SIZE && 0 <= j * lod < CHUNK_SIZE) by (nonlinear_arith)
        requires
            0 <= i < n,
            0 <= j < n,
            n == CHUNK_SIZE as int / lod as int,
            1 <= lod <= 16,
    ;
    assert(c.touches_shore());
    assert(!column_dug(g.excavations@, c));
    let foam = quad_of(c.x, (SEA_LEVEL_VOXELS - 1) as u32, c.z, Face::Up, lod as nat, lod as nat, Material::Foam);
    assert(column_water(g.excavations@, c)[1] == foam);
    lemma_column_water_in_chunk(g, grid, chunk_x, chunk_z, lod, (n * n) as nat, k, foam);
}

/// Whether sample `(i, j)` of a chunk's lattice is a shore column: its top lies
/// below the water's surface, a lattice neighbour reaches the surface, and no
/// excavation reaches it.
pub open spec fn shore_sample(g: WorldGenerator, grid: HeightGrid, chunk_x: u32, chunk_z: u32, lod: usize, i: int, j: int) -> bool {
    &&& lattice_height(grid, chunk_x, chunk_z, lod, i + 1, j + 1) + 1 < SEA_LEVEL_VOXELS
    &&& (lattice_height(grid, chunk_x, chunk_z, lod, i + 1, j + 2) + 1 >= SEA_LEVEL_VOXELS
        || lattice_height(grid, chunk_x, chunk_z, lod, i + 1, j) + 1 >= SEA_LEVEL_VOXELS
        || lattice_height(grid, chunk_x, chunk_z, lod, i + 2, j + 1) + 1 >= SEA_LEVEL_VOXELS
        || lattice_height(grid, chunk_x, chunk_z, lod, i, j + 1) + 1 >= SEA_LEVEL_VOXELS)
    &&& !(lod == 1 && column_touched_spec(
        g.excavations@,
        chunk_x * CHUNK_SIZE + i,
        lattice_height(grid, chunk_x, chunk_z, lod, i + 1, j + 1) as int,
        chunk_z * CHUNK_SIZE + j,
    ))
}

proof fn lemma_chunk_water_from_column(
    g: WorldGenerator,
    grid: HeightGrid,
    chunk_x: u32,
    chunk_z: u32,
    lod: usize,
    count: nat,
    q: Quad,
)
    requires
        chunk_water(g, grid, chunk_x, chunk_z, lod, count).contains(q),
    ensures
        exists|k: int|
            0 <= k < count && #[trigger] column_water(g.excavations@, column_at(grid, chunk_x, chunk_z, lod, k)).contains(q),
    decreases count,
{
    reveal(chunk_water);
    let before = chunk_water(g, grid, chunk_x, chunk_z, lod, (count - 1) as nat);
    let last = column_water(g.excavations@, column_at(grid, chunk_x, chunk_z, lod, count - 1));
    assert(chunk_water(g, grid, chunk_x, chunk_z, lod, count) == before + last);
    let w = choose|w: int| 0 <= w < (before + last).len() && (before + last)[w] == q;
    if w < before.len() {
        assert(before[w] == q);
        lemma_chunk_water_from_column(g, grid, chunk_x, chunk_z, lod, (count - 1) as nat, q);
        let k = choose|k: int|
            0 <= k < count - 1 && #[trigger] column_water(g.excavations@, column_at(grid, chunk_x, chunk_z, lod, k)).contains(q);
    } else {
        assert(last[w - before.len()] == q);
        assert(column_water(g.excavations@, column_at(grid, chunk_x, chunk_z, lod, count - 1)).contains(q));
    }
}

/// Foam lies only on shores: every foam quad among a chunk's water quads is the
/// water-surface foam, one lattice step wide, of a shore column of the chunk.
pub proof fn lemma_foam_only_on_shores(g: WorldGenerator, grid: HeightGrid, chunk_x: u32, chunk_z: u32, lod: usize, q: Quad)
    requires
        chunk_x < WORLD_CHUNKS,
        chunk_z < WORLD_CHUNKS,
        mesh_lod(lod),
        chunk_water(g, grid, chunk_x, chunk_z, lod, (samples(lod) * samples(lod)) as nat).contains(q),
        q.material_bits() == Material::Foam.bits(),
    ensures
        exists|i: int, j: int|
            0 <= i < samples(lod) && 0 <= j < samples(lod) && #[trigger] shore_sample(g, grid, chunk_x, chunk_z, lod, i, j)
                && q == quad_of(
                (chunk_x * CHUNK_SIZE + i * lod) as u32,
                (SEA_LEVEL_VOXELS - 1) as u32,
                (chunk_z * CHUNK_SIZE + j * lod) as u32,
                Face::Up,
                lod as nat,
                lod as nat,
                Material::Foam,
            ),
{
    let n = samples(lod);
    lemma_chunk_water_from_column(g, grid, chunk_x, chunk_z, lod, (n * n) as nat, q);
    let k = choose|k: int|
        0 <= k < n * n && #[trigger] column_water(g.excavations@, column_at(grid, chunk_x, chunk_z, lod, k)).contains(q);
    let c = column_at(grid, chunk_x, chunk_z, lod, k);
    let i = k % n;
    let j = k / n;
    assert(0 <= i < n && 0 <= j < n) by (nonlinear_arith)
        requires
            0 <= k < n * n,
            n > 0,
            i == k % n,
            j == k / n,
    ;
    let water = quad_of(c.x, (SEA_LEVEL_VOXELS - 1) as u32, c.z, Face::Up, c.lod as nat, c.lod as nat, Material::Water);
    let dug = quad_of(c.x, (SEA_LEVEL_VOXELS - 1) as u32, c.z, Face::Up, 1, 1, Material::Water);
    lemma_quad_fields(c.x, (SEA_LEVEL_VOXELS - 1) as u32, c.z, Face::Up, c.lod as nat, c.lod as nat, Material::Water);
    lemma_quad_fields(c.x, (SEA_LEVEL_VOXELS - 1) as u32, c.z, Face::Up, 1, 1, Material::Water);
    assert(water.material_bits() == Material::Water.bits());
    assert(dug.material_bits() == Material::Water.bits());
    let w = choose|w: int| 0 <= w < column_water(g.excavations@, c).len() && column_water(g.excavations@, c)[w] == q;
    assert(0 <= i * lod < CHUNK_SIZE && 0 <= j * lod < CHUNK_SIZE) by (nonlinear_arith)
        requires
            0 <= i < n,
            0 <= j < n,
            n == CHUNK_SIZE as int / lod as int,
            1 <= lod <= 16,
    ;
    assert(shore_sample(g, grid, chunk_x, chunk_z, lod, i, j));
}

} // verus!
