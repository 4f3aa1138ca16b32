//! Vegetation voxels: the trees, bushes and flowers grown on grass columns, kept
//! in a voxel map before they are meshed.

use vstd::prelude::*;
use vstd::std_specs::hash::group_hash_axioms;
use std::collections::HashMap;
use crate::layout::WORLD_VOXELS;
use crate::quad::{Face, Material, Quad, quad_of, pack_quad, lemma_quad_fields};
use crate::hashing::{vegetation_hash_3d, vegetation_hash_3d_spec};
use crate::world::{voxel_key, voxel_key_exec, lemma_voxel_key_injective};
use crate::terrain::{small_coord, excavated, ExcavationSphere, WorldGenerator};

verus! {

broadcast use group_hash_axioms;

/// A voxel position.
pub open spec fn voxel_of_key(k: u128) -> (u32, u32, u32) {
    (
        (k % 0x1_0000_0000) as u32,
        ((k / 0x1_0000_0000) % 0x1_0000_0000) as u32,
        (k / 0x1_0000_0000_0000_0000) as u32,
    )
}

/// Every key below 2^96 is the key of the voxel it decodes to.
proof fn lemma_key_roundtrip(k: u128)
    requires
        k < 0x1_0000_0000_0000_0000_0000_0000,
    ensures
        voxel_key(voxel_of_key(k).0, voxel_of_key(k).1, voxel_of_key(k).2) == k,
{
    let d: int = 0x1_0000_0000;
    let ki = k as int;
    let q = ki / d;
    vstd::arithmetic::div_mod::lemma_fundamental_div_mod(ki, d);
    vstd::arithmetic::div_mod::lemma_fundamental_div_mod(q, d);
    vstd::arithmetic::div_mod::lemma_div_denominator(ki, d, d);
    assert(ki / (d * d) < d) by (nonlinear_arith)
        requires
            0 <= ki < d * d * d,
            d > 0,
    ;
    assert(ki == ki % d + (q % d) * d + (ki / (d * d)) * (d * d)) by (nonlinear_arith)
        requires
            ki == d * q + ki % d,
            q == d * (q / d) + q % d,
            q / d == ki / (d * d),
    ;
}

/// Whether the column `(x, z)` lies in the world.
pub open spec fn in_world(x: int, z: int) -> bool {
    0 <= x < WORLD_VOXELS && 0 <= z < WORLD_VOXELS
}

/// The vegetation voxels of a chunk under construction, each with its material.
pub struct VegetationVoxels {
    cells: HashMap<u128, Material>,
}

impl View for VegetationVoxels {
    type V = Map<(u32, u32, u32), Material>;

    closed spec fn view(&self) -> Map<(u32, u32, u32), Material> {
        Map::new(
            |t: (u32, u32, u32)| self.cells@.contains_key(voxel_key(t.0, t.1, t.2)),
            |t: (u32, u32, u32)| self.cells@[voxel_key(t.0, t.1, t.2)],
        )
    }
}

impl VegetationVoxels {
    /// Every stored key is the key of a voxel.
    pub closed spec fn wf(&self) -> bool {
        forall|k: u128| #[trigger]
            self.cells@.contains_key(k) ==> k < 0x1_0000_0000_0000_0000_0000_0000
    }

    /// An empty voxel map.
    pub fn new() -> (voxels: VegetationVoxels)
        ensures
            voxels.wf(),
            voxels@ == Map::<(u32, u32, u32), Material>::empty(),
    {
        let voxels = VegetationVoxels { cells: HashMap::new() };
        assert(voxels@ =~= Map::<(u32, u32, u32), Material>::empty());
        voxels
    }

    /// Whether the voxel `(x, y, z)` is present.
    pub fn contains(&self, x: u32, y: u32, z: u32) -> (present: bool)
        ensures
            present == self@.contains_key((x, y, z)),
    {
        let k = voxel_key_exec(x, y, z);
        self.cells.contains_key(&k)
    }

    /// The material of a present voxel.
    pub fn material(&self, x: u32, y: u32, z: u32) -> (material: Material)
        requires
            self@.contains_key((x, y, z)),
        ensures
            material == self@[(x, y, z)],
    {
        let k = voxel_key_exec(x, y, z);
        *self.cells.get(&k).unwrap()
    }

    /// Sets the material of the voxel `(x, y, z)`.
    pub fn set(&mut self, x: u32, y: u32, z: u32, material: Material)
        requires
            old(self).wf(),
        ensures
            final(self).wf(),
            final(self)@ == old(self)@.insert((x, y, z), material),
    {
        let k = voxel_key_exec(x, y, z);
        proof {
            assert(k < 0x1_0000_0000_0000_0000_0000_0000) by (nonlinear_arith)
                requires
                    k == x + y * 0x1_0000_0000int + z * 0x1_0000_0000_0000_0000int,
                    0 <= x < 0x1_0000_0000int,
                    0 <= y < 0x1_0000_0000int,
                    0 <= z < 0x1_0000_0000int,
            ;
        }
        self.cells.insert(k, material);
        proof {
            assert forall|t: (u32, u32, u32)| voxel_key(t.0, t.1, t.2) == k implies t == (x, y, z) by {
                lemma_voxel_key_injective(t, (x, y, z));
            }
            assert(self@ =~= old(self)@.insert((x, y, z), material));
        }
    }

    /// The voxels present, each once, in the map's own order.
    pub fn voxel_list(&self) -> (list: Vec<(u32, u32, u32)>)
        requires
            self.wf(),
        ensures
            list@.no_duplicates(),
            list@.to_set() == self@.dom(),
    {
        let mut list: Vec<(u32, u32, u32)> = Vec::new();
        let ghost mut seen: Seq<u128> = Seq::empty();
        for k in it: self.cells.keys()
            invariant
                list@.len() == it.index(),
                seen.len() == it.index(),
                forall|i: int| 0 <= i < it.index() ==> seen[i] == *it.seq()[i],
                forall|i: int| 0 <= i < it.index() ==> #[trigger] list@[i] == voxel_of_key(seen[i]),
                it.seq().unref().to_set() == self.cells@.dom(),
                it.seq().unref().no_duplicates(),
                self.wf(),
                seen.no_duplicates(),
                forall|i: int| 0 <= i < seen.len() ==> self.cells@.contains_key(#[trigger] seen[i]),
                it.index() == it.seq().len() ==> forall|k: u128|
                    #[trigger] self.cells@.contains_key(k) ==> seen.contains(k),
        {
            proof {
                assert(it.seq().unref().to_set().contains(*k));
                assert forall|i: int| 0 <= i < seen.len() implies seen[i] != *k by {
                    assert(it.seq().unref()[i] == seen[i]);
                    assert(it.seq().unref()[it.index() as int] == *k);
                }
                seen = seen.push(*k);
                assert forall|k2: u128| #[trigger] self.cells@.contains_key(k2) && it.index() + 1
                    == it.seq().len() implies seen.contains(k2) by {
                    assert(it.seq().unref().to_set().contains(k2));
                    let j = choose|j: int| 0 <= j < it.seq().len() && it.seq().unref()[j] == k2;
                    assert(seen[j] == k2);
                }
            }
            list.push(((*k % 0x1_0000_0000) as u32, ((*k / 0x1_0000_0000) % 0x1_0000_0000) as u32, (*k / 0x1_0000_0000_0000_0000) as u32));
        }
        proof {
            assert forall|i: int| 0 <= i < seen.len() implies #[trigger] voxel_key(
                list@[i].0,
                list@[i].1,
                list@[i].2,
            ) == seen[i] by {
                assert(seen.contains(seen[i]));
                lemma_key_roundtrip(seen[i]);
            }
            assert forall|i: int, j: int| 0 <= i < list@.len() && 0 <= j < list@.len() && i != j
                implies list@[i] != list@[j] by {
                assert(voxel_key(list@[i].0, list@[i].1, list@[i].2) == seen[i]);
                assert(voxel_key(list@[j].0, list@[j].1, list@[j].2) == seen[j]);
            }
            assert forall|t: (u32, u32, u32)| #[trigger] list@.to_set().contains(t) <==> self@.dom().contains(t) by {
                if list@.to_set().contains(t) {
                    let i = choose|i: int| 0 <= i < list@.len() && list@[i] == t;
                    assert(voxel_key(list@[i].0, list@[i].1, list@[i].2) == seen[i]);
                    assert(seen.contains(seen[i]));
                }
                if self@.dom().contains(t) {
                    let k = voxel_key(t.0, t.1, t.2);
                    assert(self.cells@.contains_key(k));
                    assert(seen.contains(k));
                    let i = choose|i: int| 0 <= i < seen.len() && seen[i] == k;
                    lemma_key_roundtrip(k);
                    lemma_voxel_key_injective(voxel_of_key(k), t);
                    assert(list@[i] == t);
                }
            }
            assert(list@.to_set() =~= self@.dom());
        }
        list
    }
}

/// `m` with every voxel of `s` set to `material`.
pub open spec fn paint(
    m: Map<(u32, u32, u32), Material>,
    s: Set<(u32, u32, u32)>,
    material: Material,
) -> Map<(u32, u32, u32), Material> {
    Map::new(
        |t: (u32, u32, u32)| s.contains(t) || m.contains_key(t),
        |t: (u32, u32, u32)| if s.contains(t) { material } else { m[t] },
    )
}

/// `m` with every voxel of `s` that `m` lacks set to `material`.
pub open spec fn fill(
    m: Map<(u32, u32, u32), Material>,
    s: Set<(u32, u32, u32)>,
    material: Material,
) -> Map<(u32, u32, u32), Material> {
    Map::new(
        |t: (u32, u32, u32)| m.contains_key(t) || s.contains(t),
        |t: (u32, u32, u32)| if m.contains_key(t) { m[t] } else { material },
    )
}

/// A plant grown into `m`: its `wood` voxels replace whatever was there, and its
/// `foliage` voxels take only the places that nothing else holds.
pub open spec fn plant(
    m: Map<(u32, u32, u32), Material>,
    wood: Set<(u32, u32, u32)>,
    wood_material: Material,
    foliage: Set<(u32, u32, u32)>,
    foliage_material: Material,
) -> Map<(u32, u32, u32), Material> {
    paint(fill(m, foliage, foliage_material), wood, wood_material)
}

/// Painting twice with one material paints the union.
pub proof fn lemma_paint_paint(
    m: Map<(u32, u32, u32), Material>,
    a: Set<(u32, u32, u32)>,
    b: Set<(u32, u32, u32)>,
    material: Material,
)
    ensures
        paint(paint(m, a, material), b, material) == paint(m, a.union(b), material),
{
    assert(paint(paint(m, a, material), b, material) =~= paint(m, a.union(b), material));
}

/// Filling a planted map with its foliage material grows the foliage.
pub proof fn lemma_fill_plant(
    m: Map<(u32, u32, u32), Material>,
    wood: Set<(u32, u32, u32)>,
    wood_material: Material,
    foliage: Set<(u32, u32, u32)>,
    foliage_material: Material,
    s: Set<(u32, u32, u32)>,
)
    ensures
        fill(plant(m, wood, wood_material, foliage, foliage_material), s, foliage_material) == plant(
            m,
            wood,
            wood_material,
            foliage.union(s),
            foliage_material,
        ),
{
    assert(fill(plant(m, wood, wood_material, foliage, foliage_material), s, foliage_material)
        =~= plant(m, wood, wood_material, foliage.union(s), foliage_material));
}

/// Painting a planted map with its wood material grows the wood.
pub proof fn lemma_paint_plant(
    m: Map<(u32, u32, u32), Material>,
    wood: Set<(u32, u32, u32)>,
    wood_material: Material,
    foliage: Set<(u32, u32, u32)>,
    foliage_material: Material,
    s: Set<(u32, u32, u32)>,
)
    ensures
        paint(plant(m, wood, wood_material, foliage, foliage_material), s, wood_material) == plant(
            m,
            wood.union(s),
            wood_material,
            foliage,
            foliage_material,
        ),
{
    lemma_paint_paint(fill(m, foliage, foliage_material), wood, s, wood_material);
}

/// The voxel `(x, y, z)` as a one-voxel set, or nothing outside the world.
pub open spec fn voxel_in_world(x: int, y: u32, z: int) -> Set<(u32, u32, u32)> {
    if in_world(x, z) {
        set![(x as u32, y, z as u32)]
    } else {
        Set::empty()
    }
}

/// Sets the voxel `(x, y, z)` to `material` when its column is in the world.
pub fn insert_vegetation_voxel(
    voxels: &mut VegetationVoxels,
    x: isize,
    y: u32,
    z: isize,
    material: Material,
)
    requires
        old(voxels).wf(),
    ensures
        final(voxels).wf(),
        final(voxels)@ == paint(old(voxels)@, voxel_in_world(x as int, y, z as int), material),
{
    if x >= 0 && z >= 0 && x < WORLD_VOXELS as isize && z < WORLD_VOXELS as isize {
        voxels.set(x as u32, y, z as u32, material);
        assert(final(voxels)@ =~= paint(old(voxels)@, voxel_in_world(x as int, y, z as int), material));
    } else {
        assert(voxels@ =~= paint(old(voxels)@, voxel_in_world(x as int, y, z as int), material));
    }
}

/// Sets the voxel `(x, y, z)` to `material` when its column is in the world and
/// the voxel is empty.
pub fn insert_vegetation_voxel_if_empty(
    voxels: &mut VegetationVoxels,
    x: isize,
    y: u32,
    z: isize,
    material: Material,
)
    requires
        old(voxels).wf(),
    ensures
        final(voxels).wf(),
        final(voxels)@ == fill(old(voxels)@, voxel_in_world(x as int, y, z as int), material),
{
    if x >= 0 && z >= 0 && x < WORLD_VOXELS as isize && z < WORLD_VOXELS as isize {
        if !voxels.contains(x as u32, y, z as u32) {
            voxels.set(x as u32, y, z as u32, material);
        }
        assert(final(voxels)@ =~= fill(old(voxels)@, voxel_in_world(x as int, y, z as int), material));
    } else {
        assert(voxels@ =~= fill(old(voxels)@, voxel_in_world(x as int, y, z as int), material));
    }
}

/// Filling twice with one material fills the union.
pub proof fn lemma_fill_fill(
    m: Map<(u32, u32, u32), Material>,
    a: Set<(u32, u32, u32)>,
    b: Set<(u32, u32, u32)>,
    material: Material,
)
    ensures
        fill(fill(m, a, material), b, material) == fill(m, a.union(b), material),
{
    assert(fill(fill(m, a, material), b, material) =~= fill(m, a.union(b), material));
}

/// Whether the offset `(dx, dz)` lies in the disk of radius `r`, widened so that
/// `dx² + dz²` may exceed `r²` by one.
pub open spec fn in_disk(dx: int, dz: int, r: int) -> bool {
    -r <= dx <= r && -r <= dz <= r && dx * dx + dz * dz <= r * r + 1
}

/// The in-world voxels at height `y` whose offset from `(cx, cz)` lies in the disk
/// of radius `r`.
pub open spec fn disk_set(cx: int, y: u32, cz: int, r: int) -> Set<(u32, u32, u32)> {
    Set::new(
        |t: (u32, u32, u32)|
            in_world(t.0 as int, t.2 as int) && t.1 == y && in_disk(t.0 - cx, t.2 - cz, r),
    )
}

/// The part of `disk_set` whose offsets come before `(row, col)`, rows first.
pub open spec fn disk_part(cx: int, y: u32, cz: int, r: int, row: int, col: int) -> Set<(u32, u32, u32)> {
    Set::new(
        |t: (u32, u32, u32)|
            in_world(t.0 as int, t.2 as int) && t.1 == y && in_disk(t.0 - cx, t.2 - cz, r) && (t.2
                - cz < row || (t.2 - cz == row && t.0 - cx < col)),
    )
}

/// Sets every in-world voxel of the disk of radius `radius` around `(cx, y, cz)`
/// to `material`.
pub(crate) fn insert_disk(
    voxels: &mut VegetationVoxels,
    cx: isize,
    y: u32,
    cz: isize,
    radius: isize,
    material: Material,
)
    requires
        old(voxels).wf(),
        0 <= radius <= 8,
        small_coord(cx as int),
        small_coord(cz as int),
    ensures
        final(voxels).wf(),
        final(voxels)@ == paint(old(voxels)@, disk_set(cx as int, y, cz as int, radius as int), material),
{
    let ghost start = voxels@;
    let mut dz: isize = -radius;
    assert(disk_part(cx as int, y, cz as int, radius as int, dz as int, -radius as int) =~= Set::empty());
    assert(paint(start, Set::empty(), material) =~= start);
    while dz <= radius
        invariant
            voxels.wf(),
            0 <= radius <= 8,
            -radius <= dz <= radius + 1,
            small_coord(cx as int),
            small_coord(cz as int),
            voxels@ == paint(start, disk_part(cx as int, y, cz as int, radius as int, dz as int, -radius as int), material),
        decreases radius + 1 - dz,
    {
        let mut dx: isize = -radius;
        while dx <= radius
            invariant
                voxels.wf(),
                0 <= radius <= 8,
                -radius <= dz <= radius,
                -radius <= dx <= radius + 1,
                small_coord(cx as int),
                small_coord(cz as int),
                voxels@ == paint(start, disk_part(cx as int, y, cz as int, radius as int, dz as int, dx as int), material),
            decreases radius + 1 - dx,
        {
            let ghost part = disk_part(cx as int, y, cz as int, radius as int, dz as int, dx as int);
            let ghost next = disk_part(cx as int, y, cz as int, radius as int, dz as int, dx + 1);
            assert(0 <= dx * dx <= 81 && 0 <= dz * dz <= 81 && 0 <= radius * radius <= 64) by (nonlinear_arith)
                requires
                    -9 <= dx <= 9,
                    -9 <= dz <= 9,
                    0 <= radius <= 8,
            ;
            if dx * dx + dz * dz <= radius * radius + 1 {
                insert_vegetation_voxel(voxels, cx + dx, y, cz + dz, material);
                proof {
                    let single = voxel_in_world((cx + dx) as int, y, (cz + dz) as int);
                    lemma_paint_paint(start, part, single, material);
                    assert(part.union(single) =~= next);
                }
            } else {
                assert(part =~= next);
            }
            dx = dx + 1;
        }
        assert(disk_part(cx as int, y, cz as int, radius as int, dz as int, radius + 1) =~= disk_part(
            cx as int,
            y,
            cz as int,
            radius as int,
            dz + 1,
            -radius as int,
        ));
        dz = dz + 1;
    }
    assert(disk_part(cx as int, y, cz as int, radius as int, radius + 1, -radius as int) =~= disk_set(
        cx as int,
        y,
        cz as int,
        radius as int,
    ));
}

/// The height `cy + dy` of a cluster voxel, taken modulo 2^32.
pub open spec fn cluster_y(cy: u32, dy: int) -> u32 {
    (cy + dy) as u32
}

/// `(dx/rx)² + (dy/ry)² + (dz/rz)²`, scaled by `ellipsoid_scale(rx, ry, rz)`.
pub open spec fn ellipsoid_sum(dx: int, dy: int, dz: int, rx: int, ry: int, rz: int) -> int {
    dx * dx * (ry * ry) * (rz * rz) + dy * dy * (rx * rx) * (rz * rz) + dz * dz * (rx * rx) * (ry * ry)
}

/// The scale `rx² · ry² · rz²` that turns an ellipsoid's squared distances into integers.
pub open spec fn ellipsoid_scale(rx: int, ry: int, rz: int) -> int {
    rx * rx * (ry * ry) * (rz * rz)
}

/// Whether a foliage cluster keeps the voxel at an offset from its centre: the
/// offset lies in the ellipsoid, and unless it lies on the shell, where voxels
/// whose hash is a multiple of the kind's modulus are left out. A leaf shell starts
/// at 17/25 of the squared distance to the surface (modulus 7); a bush shell lies
/// beyond 3/5 of it (modulus 5).
pub open spec fn cluster_rule(
    seed: u32,
    cx: int,
    cy: u32,
    cz: int,
    rx: int,
    ry: int,
    rz: int,
    bush: bool,
) -> spec_fn(int, int, int) -> bool {
    |dx: int, dy: int, dz: int|
        {
            let n = ellipsoid_sum(dx, dy, dz, rx, ry, rz);
            let p = ellipsoid_scale(rx, ry, rz);
            let shell = if bush {
                5 * n > 3 * p
            } else {
                25 * n >= 17 * p
            };
            let modulus: u32 = if bush {
                5
            } else {
                7
            };
            n <= p && !(shell && vegetation_hash_3d_spec(
                seed,
                (cx + dx) as i64,
                (cy + dy) as i64,
                (cz + dz) as i64,
            ) % modulus == 0)
        }
}

/// The in-world voxels of the box of radii `(rx, ry, rz)` around `(cx, cy, cz)`
/// whose offsets `rule` keeps and come before `(ly, lz, lx)`: by height first, then
/// by row, then by column.
pub open spec fn cluster_part(
    rule: spec_fn(int, int, int) -> bool,
    cx: int,
    cy: u32,
    cz: int,
    rx: int,
    ry: int,
    rz: int,
    ly: int,
    lz: int,
    lx: int,
) -> Set<(u32, u32, u32)> {
    Set::new(
        |t: (u32, u32, u32)|
            in_world(t.0 as int, t.2 as int) && -rx <= t.0 - cx <= rx && -rz <= t.2 - cz <= rz
                && exists|dy: int|
                #![trigger cluster_y(cy, dy)]
                -ry <= dy <= ry && t.1 == cluster_y(cy, dy) && rule(t.0 - cx, dy, t.2 - cz) && (dy
                    < ly || (dy == ly && (t.2 - cz < lz || (t.2 - cz == lz && t.0 - cx < lx)))),
    )
}

/// The voxels of a tree's leaf cluster of radii `(rx, ry, rz)` around `(cx, cy, cz)`.
pub open spec fn leaf_cluster(
    seed: u32,
    cx: int,
    cy: u32,
    cz: int,
    rx: int,
    ry: int,
    rz: int,
) -> Set<(u32, u32, u32)> {
    cluster_part(cluster_rule(seed, cx, cy, cz, rx, ry, rz, false), cx, cy, cz, rx, ry, rz, ry + 1, -rz, -rx)
}

/// The voxels of a bush's leaf cluster of radius `r` (and height radius `ry`)
/// around `(cx, cy, cz)`.
pub open spec fn bush_cluster(seed: u32, cx: int, cy: u32, cz: int, r: int, ry: int) -> Set<(u32, u32, u32)> {
    cluster_part(cluster_rule(seed, cx, cy, cz, r, ry, r, true), cx, cy, cz, r, ry, r, ry + 1, -r, -r)
}

proof fn lemma_cluster_step(
    rule: spec_fn(int, int, int) -> bool,
    cx: int,
    cy: u32,
    cz: int,
    rx: int,
    ry: int,
    rz: int,
    dy: int,
    dz: int,
    dx: int,
)
    requires
        -rx <= dx <= rx,
        -ry <= dy <= ry,
        -rz <= dz <= rz,
    ensures
        cluster_part(rule, cx, cy, cz, rx, ry, rz, dy, dz, dx + 1) == cluster_part(
            rule,
            cx,
            cy,
            cz,
            rx,
            ry,
            rz,
            dy,
            dz,
            dx,
        ).union(
            if rule(dx, dy, dz) {
                voxel_in_world(cx + dx, cluster_y(cy, dy), cz + dz)
            } else {
                Set::empty()
            },
        ),
{
    let next = cluster_part(rule, cx, cy, cz, rx, ry, rz, dy, dz, dx + 1);
    let cur = cluster_part(rule, cx, cy, cz, rx, ry, rz, dy, dz, dx);
    let extra = if rule(dx, dy, dz) {
        voxel_in_world(cx + dx, cluster_y(cy, dy), cz + dz)
    } else {
        Set::<(u32, u32, u32)>::empty()
    };
    assert forall|t: (u32, u32, u32)| #[trigger] next.contains(t) <==> cur.union(extra).contains(t) by {
        if next.contains(t) {
            let w = choose|w: int|
                #![trigger cluster_y(cy, w)]
                -ry <= w <= ry && t.1 == cluster_y(cy, w) && rule(t.0 - cx, w, t.2 - cz) && (w < dy
                    || (w == dy && (t.2 - cz < dz || (t.2 - cz == dz && t.0 - cx < dx + 1))));
            if w == dy && t.2 - cz == dz && t.0 - cx == dx {
                assert(extra.contains(t));
            } else {
                assert(cur.contains(t));
            }
        }
        if extra.contains(t) {
            assert(t.0 - cx == dx && t.2 - cz == dz);
            assert(t.1 == cluster_y(cy, dy));
            assert(next.contains(t));
        }
        if cur.contains(t) {
            let w = choose|w: int|
                #![trigger cluster_y(cy, w)]
                -ry <= w <= ry && t.1 == cluster_y(cy, w) && rule(t.0 - cx, w, t.2 - cz) && (w < dy
                    || (w == dy && (t.2 - cz < dz || (t.2 - cz == dz && t.0 - cx < dx))));
            assert(t.1 == cluster_y(cy, w));
            assert(next.contains(t));
        }
    }
    assert(next =~= cur.union(extra));
}

proof fn lemma_cluster_row(
    rule: spec_fn(int, int, int) -> bool,
    cx: int,
    cy: u32,
    cz: int,
    rx: int,
    ry: int,
    rz: int,
    dy: int,
    dz: int,
)
    ensures
        cluster_part(rule, cx, cy, cz, rx, ry, rz, dy, dz, rx + 1) == cluster_part(
            rule,
            cx,
            cy,
            cz,
            rx,
            ry,
            rz,
            dy,
            dz + 1,
            -rx,
        ),
{
    let a = cluster_part(rule, cx, cy, cz, rx, ry, rz, dy, dz, rx + 1);
    let b = cluster_part(rule, cx, cy, cz, rx, ry, rz, dy, dz + 1, -rx);
    assert forall|t: (u32, u32, u32)| #[trigger] a.contains(t) <==> b.contains(t) by {
        if a.contains(t) {
            let w = choose|w: int|
                #![trigger cluster_y(cy, w)]
                -ry <= w <= ry && t.1 == cluster_y(cy, w) && rule(t.0 - cx, w, t.2 - cz) && (w < dy
                    || (w == dy && (t.2 - cz < dz || (t.2 - cz == dz && t.0 - cx < rx + 1))));
            assert(t.1 == cluster_y(cy, w));
        }
        if b.contains(t) {
            let w = choose|w: int|
                #![trigger cluster_y(cy, w)]
                -ry <= w <= ry && t.1 == cluster_y(cy, w) && rule(t.0 - cx, w, t.2 - cz) && (w < dy
                    || (w == dy && (t.2 - cz < dz + 1 || (t.2 - cz == dz + 1 && t.0 - cx < -rx))));
            assert(t.1 == cluster_y(cy, w));
        }
    }
    assert(a =~= b);
}

proof fn lemma_cluster_plane(
    rule: spec_fn(int, int, int) -> bool,
    cx: int,
    cy: u32,
    cz: int,
    rx: int,
    ry: int,
    rz: int,
    dy: int,
)
    ensures
        cluster_part(rule, cx, cy, cz, rx, ry, rz, dy, rz + 1, -rx) == cluster_part(
            rule,
            cx,
            cy,
            cz,
            rx,
            ry,
            rz,
            dy + 1,
            -rz,
            -rx,
        ),
{
    let a = cluster_part(rule, cx, cy, cz, rx, ry, rz, dy, rz + 1, -rx);
    let b = cluster_part(rule, cx, cy, cz, rx, ry, rz, dy + 1, -rz, -rx);
    assert forall|t: (u32, u32, u32)| #[trigger] a.contains(t) <==> b.contains(t) by {
        if a.contains(t) {
            let w = choose|w: int|
                #![trigger cluster_y(cy, w)]
                -ry <= w <= ry && t.1 == cluster_y(cy, w) && rule(t.0 - cx, w, t.2 - cz) && (w < dy
                    || (w == dy && (t.2 - cz < rz + 1 || (t.2 - cz == rz + 1 && t.0 - cx < -rx))));
            assert(t.1 == cluster_y(cy, w));
        }
        if b.contains(t) {
            let w = choose|w: int|
                #![trigger cluster_y(cy, w)]
                -ry <= w <= ry && t.1 == cluster_y(cy, w) && rule(t.0 - cx, w, t.2 - cz) && (w < dy
                    + 1 || (w == dy + 1 && (t.2 - cz < -rz || (t.2 - cz == -rz && t.0 - cx < -rx))));
            assert(t.1 == cluster_y(cy, w));
        }
    }
    assert(a =~= b);
}

/// Radii that the cluster arithmetic handles.
pub open spec fn cluster_radius(r: int) -> bool {
    1 <= r <= 1024
}

/// Grows a foliage cluster: every kept, in-world voxel of the ellipsoid that is
/// still empty takes the cluster's material.
fn grow_cluster(
    voxels: &mut VegetationVoxels,
    seed: u32,
    cx: isize,
    cy: u32,
    cz: isize,
    rx: isize,
    ry: isize,
    rz: isize,
    bush: bool,
)
    requires
        old(voxels).wf(),
        cluster_radius(rx as int),
        cluster_radius(ry as int),
        cluster_radius(rz as int),
        small_coord(cx as int),
        small_coord(cz as int),
    ensures
        final(voxels).wf(),
        final(voxels)@ == fill(
            old(voxels)@,
            cluster_part(
                cluster_rule(seed, cx as int, cy, cz as int, rx as int, ry as int, rz as int, bush),
                cx as int,
                cy,
                cz as int,
                rx as int,
                ry as int,
                rz as int,
                ry + 1,
                -rz,
                -rx,
            ),
            if bush {
                Material::Bush
            } else {
                Material::Leaves
            },
        ),
{
    let ghost start = voxels@;
    let ghost rule = cluster_rule(seed, cx as int, cy, cz as int, rx as int, ry as int, rz as int, bush);
    let material = if bush {
        Material::Bush
    } else {
        Material::Leaves
    };
    let modulus: u32 = if bush {
        5
    } else {
        7
    };
    let (wx, wy, wz) = (rx as i128, ry as i128, rz as i128);
    assert(0 < wx * wx <= 0x10_0000 && 0 < wy * wy <= 0x10_0000 && 0 < wz * wz <= 0x10_0000) by (nonlinear_arith)
        requires
            1 <= wx <= 1024,
            1 <= wy <= 1024,
            1 <= wz <= 1024,
    ;
    let (sx, sy, sz) = (wx * wx, wy * wy, wz * wz);
    assert(0 < sx * sy <= 0x100_0000_0000 && 0 < sx * sz <= 0x100_0000_0000 && 0 < sy * sz <= 0x100_0000_0000) by (nonlinear_arith)
        requires
            0 < sx <= 0x10_0000,
            0 < sy <= 0x10_0000,
            0 < sz <= 0x10_0000,
    ;
    let (syz, sxz, sxy) = (sy * sz, sx * sz, sx * sy);
    assert(0 < sx * syz <= 0x1000_0000_0000_0000) by (nonlinear_arith)
        requires
            0 < sx <= 0x10_0000,
            0 < syz <= 0x100_0000_0000,
    ;
    let p: i128 = sx * syz;
    let mut dy: isize = -ry;
    assert(cluster_part(rule, cx as int, cy, cz as int, rx as int, ry as int, rz as int, -ry as int, -rz as int, -rx as int) =~= Set::empty());
    assert(fill(start, Set::empty(), material) =~= start);
    while dy <= ry
        invariant
            voxels.wf(),
            cluster_radius(rx as int),
            cluster_radius(ry as int),
            cluster_radius(rz as int),
            small_coord(cx as int),
            small_coord(cz as int),
            -ry <= dy <= ry + 1,
            rule == cluster_rule(seed, cx as int, cy, cz as int, rx as int, ry as int, rz as int, bush),
            material == (if bush { Material::Bush } else { Material::Leaves }),
            modulus == (if bush { 5u32 } else { 7u32 }),
            sx == rx * rx, sy == ry * ry, sz == rz * rz,
            syz == sy * sz, sxz == sx * sz, sxy == sx * sy,
            p == sx * syz,
            0 < p <= 0x1000_0000_0000_0000,
            0 < sx <= 0x10_0000,
            0 < sy <= 0x10_0000,
            0 < sz <= 0x10_0000,
            0 < syz <= 0x100_0000_0000,
            0 < sxz <= 0x100_0000_0000,
            0 < sxy <= 0x100_0000_0000,
            voxels@ == fill(
                start,
                cluster_part(rule, cx as int, cy, cz as int, rx as int, ry as int, rz as int, dy as int, -rz as int, -rx as int),
                material,
            ),
        decreases ry + 1 - dy,
    {
        let mut dz: isize = -rz;
        while dz <= rz
            invariant
                voxels.wf(),
                cluster_radius(rx as int),
                cluster_radius(ry as int),
                cluster_radius(rz as int),
                small_coord(cx as int),
                small_coord(cz as int),
                -ry <= dy <= ry,
                -rz <= dz <= rz + 1,
                rule == cluster_rule(seed, cx as int, cy, cz as int, rx as int, ry as int, rz as int, bush),
                material == (if bush { Material::Bush } else { Material::Leaves }),
                modulus == (if bush { 5u32 } else { 7u32 }),
                sx == rx * rx, sy == ry * ry, sz == rz * rz,
                syz == sy * sz, sxz == sx * sz, sxy == sx * sy,
                p == sx * syz,
                0 < p <= 0x1000_0000_0000_0000,
            0 < p <= 0x1000_0000_0000_0000,
                0 < sx <= 0x10_0000,
                0 < sy <= 0x10_0000,
                0 < sz <= 0x10_0000,
                0 < syz <= 0x100_0000_0000,
                0 < sxz <= 0x100_0000_0000,
                0 < sxy <= 0x100_0000_0000,
                voxels@ == fill(
                    start,
                    cluster_part(rule, cx as int, cy, cz as int, rx as int, ry as int, rz as int, dy as int, dz as int, -rx as int),
                    material,
                ),
            decreases rz + 1 - dz,
        {
            let mut dx: isize = -rx;
            while dx <= rx
                invariant
                    voxels.wf(),
                    cluster_radius(rx as int),
                    cluster_radius(ry as int),
                    cluster_radius(rz as int),
                    small_coord(cx as int),
                    small_coord(cz as int),
                    -ry <= dy <= ry,
                    -rz <= dz <= rz,
                    -rx <= dx <= rx + 1,
                    rule == cluster_rule(seed, cx as int, cy, cz as int, rx as int, ry as int, rz as int, bush),
                    material == (if bush { Material::Bush } else { Material::Leaves }),
                    modulus == (if bush { 5u32 } else { 7u32 }),
                    sx == rx * rx, sy == ry * ry, sz == rz * rz,
                    syz == sy * sz, sxz == sx * sz, sxy == sx * sy,
                    p == sx * syz,
                    0 < p <= 0x1000_0000_0000_0000,
                0 < p <= 0x1000_0000_0000_0000,
            0 < p <= 0x1000_0000_0000_0000,
                    0 < sx <= 0x10_0000,
                    0 < sy <= 0x10_0000,
                    0 < sz <= 0x10_0000,
                    0 < syz <= 0x100_0000_0000,
                    0 < sxz <= 0x100_0000_0000,
                    0 < sxy <= 0x100_0000_0000,
                    voxels@ == fill(
                        start,
                        cluster_part(rule, cx as int, cy, cz as int, rx as int, ry as int, rz as int, dy as int, dz as int, dx as int),
                        material,
                    ),
                decreases rx + 1 - dx,
            {
                let (ex, ey, ez) = (dx as i128, dy as i128, dz as i128);
                assert(0 <= ex * ex <= 0x10_0000 && 0 <= ey * ey <= 0x10_0000 && 0 <= ez * ez <= 0x10_0000) by (nonlinear_arith)
                    requires
                        -1024 <= ex <= 1024,
                        -1024 <= ey <= 1024,
                        -1024 <= ez <= 1024,
                ;
                let (qx, qy, qz) = (ex * ex, ey * ey, ez * ez);
                assert(0 <= qx * syz <= 0x1000_0000_0000_0000 && 0 <= qy * sxz <= 0x1000_0000_0000_0000
                    && 0 <= qz * sxy <= 0x1000_0000_0000_0000) by (nonlinear_arith)
                    requires
                        0 <= qx <= 0x10_0000,
                        0 <= qy <= 0x10_0000,
                        0 <= qz <= 0x10_0000,
                        0 < syz <= 0x100_0000_0000,
                        0 < sxz <= 0x100_0000_0000,
                        0 < sxy <= 0x100_0000_0000,
                ;
                let n: i128 = qx * syz + qy * sxz + qz * sxy;
                proof {
                    assert(n == ellipsoid_sum(dx as int, dy as int, dz as int, rx as int, ry as int, rz as int)) by (nonlinear_arith)
                        requires
                            n == qx * syz + qy * sxz + qz * sxy,
                            qx == dx * dx, qy == dy * dy, qz == dz * dz,
                            syz == sy * sz, sxz == sx * sz, sxy == sx * sy,
                            sx == rx * rx, sy == ry * ry, sz == rz * rz,
                    ;
                    assert(p == ellipsoid_scale(rx as int, ry as int, rz as int)) by (nonlinear_arith)
                        requires
                            p == sx * syz,
                    0 < p <= 0x1000_0000_0000_0000,
                0 < p <= 0x1000_0000_0000_0000,
            0 < p <= 0x1000_0000_0000_0000,
                            syz == sy * sz,
                            sx == rx * rx, sy == ry * ry, sz == rz * rz,
                    ;
                }
                let shell = if bush {
                    5 * n > 3 * p
                } else {
                    25 * n >= 17 * p
                };
                let ghost part = cluster_part(rule, cx as int, cy, cz as int, rx as int, ry as int, rz as int, dy as int, dz as int, dx as int);
                proof {
                    lemma_cluster_step(rule, cx as int, cy, cz as int, rx as int, ry as int, rz as int, dy as int, dz as int, dx as int);
                }
                let skip = n > p || (shell && vegetation_hash_3d(
                    seed,
                    (cx + dx) as i64,
                    cy as i64 + dy as i64,
                    (cz + dz) as i64,
                ) % modulus == 0);
                if !skip {
                    assert(rule(dx as int, dy as int, dz as int));
                    insert_vegetation_voxel_if_empty(
                        voxels,
                        cx + dx,
                        #[verifier::truncate] ((cy as i64 + dy as i64) as u32),
                        cz + dz,
                        material,
                    );
                    proof {
                        lemma_fill_fill(start, part, voxel_in_world((cx + dx) as int, cluster_y(cy, dy as int), (cz + dz) as int), material);
                    }
                } else {
                    assert(!rule(dx as int, dy as int, dz as int));
                    assert(part.union(Set::empty()) =~= part);
                }
                dx = dx + 1;
            }
            proof {
                lemma_cluster_row(rule, cx as int, cy, cz as int, rx as int, ry as int, rz as int, dy as int, dz as int);
            }
            dz = dz + 1;
        }
        proof {
            lemma_cluster_plane(rule, cx as int, cy, cz as int, rx as int, ry as int, rz as int, dy as int);
        }
        dy = dy + 1;
    }
}

/// Whether a cluster centre lies so far from the world that no cluster of radius at
/// most 1024 around it reaches a world column.
fn far_from_world(center_x: isize, center_z: isize) -> (far: bool)
    ensures
        far == !(small_coord(center_x as int) && small_coord(center_z as int)),
{
    !(-0x100_0000 <= center_x && center_x <= 0x100_0000 && -0x100_0000 <= center_z && center_z <= 0x100_0000)
}

/// Grows a tree's leaf cluster of radii `(radius_x, radius_y, radius_z)` around
/// the centre: each kept, in-world voxel that is still empty becomes leaves.
pub fn add_leaf_cluster(
    seed: u32,
    center_x: isize,
    center_y: u32,
    center_z: isize,
    radius_x: isize,
    radius_y: isize,
    radius_z: isize,
    voxels: &mut VegetationVoxels,
)
    requires
        old(voxels).wf(),
        cluster_radius(radius_x as int),
        cluster_radius(radius_y as int),
        cluster_radius(radius_z as int),
    ensures
        final(voxels).wf(),
        final(voxels)@ == fill(
            old(voxels)@,
            leaf_cluster(
                seed,
                center_x as int,
                center_y,
                center_z as int,
                radius_x as int,
                radius_y as int,
                radius_z as int,
            ),
            Material::Leaves,
        ),
{
    if !far_from_world(center_x, center_z) {
        grow_cluster(voxels, seed, center_x, center_y, center_z, radius_x, radius_y, radius_z, false);
    } else {
        let ghost cluster = leaf_cluster(
            seed,
            center_x as int,
            center_y,
            center_z as int,
            radius_x as int,
            radius_y as int,
            radius_z as int,
        );
        assert(cluster =~= Set::empty());
        assert(fill(voxels@, cluster, Material::Leaves) =~= voxels@);
    }
}

/// Grows a bush's leaf cluster of radius `radius` (height radius `radius_y`)
/// around the centre: each kept, in-world voxel that is still empty becomes bush.
pub fn add_bush_cluster(
    seed: u32,
    center_x: isize,
    center_y: u32,
    center_z: isize,
    radius: isize,
    radius_y: isize,
    voxels: &mut VegetationVoxels,
)
    requires
        old(voxels).wf(),
        cluster_radius(radius as int),
        cluster_radius(radius_y as int),
    ensures
        final(voxels).wf(),
        final(voxels)@ == fill(
            old(voxels)@,
            bush_cluster(seed, center_x as int, center_y, center_z as int, radius as int, radius_y as int),
            Material::Bush,
        ),
{
    if !far_from_world(center_x, center_z) {
        grow_cluster(voxels, seed, center_x, center_y, center_z, radius, radius_y, radius, true);
    } else {
        let ghost cluster = bush_cluster(seed, center_x as int, center_y, center_z as int, radius as int, radius_y as int);
        assert(cluster =~= Set::empty());
        assert(fill(voxels@, cluster, Material::Bush) =~= voxels@);
    }
}

/// Whether the neighbour of voxel `t` at offset `(dx, dy, dz)` is in `m`. A
/// neighbour below zero on some axis never is; coordinates are taken modulo 2^32.
pub open spec fn covered(m: Map<(u32, u32, u32), Material>, t: (u32, u32, u32), dx: int, dy: int, dz: int) -> bool {
    let nx = t.0 + dx;
    let ny = t.1 + dy;
    let nz = t.2 + dz;
    nx >= 0 && ny >= 0 && nz >= 0 && m.contains_key((nx as u32, ny as u32, nz as u32))
}

/// The quad of one face of voxel `t` when its neighbour across that face is not
/// in `m`.
pub open spec fn face_quad(
    m: Map<(u32, u32, u32), Material>,
    t: (u32, u32, u32),
    dx: int,
    dy: int,
    dz: int,
    face: Face,
) -> Seq<Quad> {
    if covered(m, t, dx, dy, dz) {
        Seq::empty()
    } else {
        seq![quad_of(t.0, t.1, t.2, face, 1, 1, m[t])]
    }
}

/// The exposed faces of voxel `t` of `m`, in the order up, front, back, right,
/// left, down.
pub open spec fn voxel_quads(m: Map<(u32, u32, u32), Material>, t: (u32, u32, u32)) -> Seq<Quad> {
    face_quad(m, t, 0, 1, 0, Face::Up) + face_quad(m, t, 0, 0, 1, Face::Front) + face_quad(
        m,
        t,
        0,
        0,
        -1,
        Face::Back,
    ) + face_quad(m, t, 1, 0, 0, Face::Right) + face_quad(m, t, -1, 0, 0, Face::Left) + face_quad(
        m,
        t,
        0,
        -1,
        0,
        Face::Down,
    )
}

/// The exposed faces of the voxels of `m` taken in the given order.
pub open spec fn voxels_quads(m: Map<(u32, u32, u32), Material>, order: Seq<(u32, u32, u32)>) -> Seq<Quad>
    decreases order.len(),
{
    if order.len() == 0 {
        Seq::empty()
    } else {
        voxels_quads(m, order.drop_last()) + voxel_quads(m, order.last())
    }
}

/// Every face that vegetation meshing emits is a single voxel wide and high, at
/// a voxel of the map, in that voxel's material.
pub proof fn lemma_voxels_quads_unit(m: Map<(u32, u32, u32), Material>, order: Seq<(u32, u32, u32)>)
    requires
        forall|i: int| 0 <= i < order.len() ==> m.contains_key(#[trigger] order[i]),
    ensures
        forall|j: int|
            0 <= j < voxels_quads(m, order).len() ==> {
                let q = #[trigger] voxels_quads(m, order)[j];
                &&& q.width_bits() == 0
                &&& q.height_bits() == 0
                &&& m.contains_key((q.x(), q.y(), q.z()))
                &&& q.material_bits() == m[(q.x(), q.y(), q.z())].bits()
            },
    decreases order.len(),
{
    if order.len() > 0 {
        let rest = order.drop_last();
        lemma_voxels_quads_unit(m, rest);
        let t = order.last();
        assert(m.contains_key(t));
        lemma_quad_fields(t.0, t.1, t.2, Face::Up, 1, 1, m[t]);
        lemma_quad_fields(t.0, t.1, t.2, Face::Front, 1, 1, m[t]);
        lemma_quad_fields(t.0, t.1, t.2, Face::Back, 1, 1, m[t]);
        lemma_quad_fields(t.0, t.1, t.2, Face::Right, 1, 1, m[t]);
        lemma_quad_fields(t.0, t.1, t.2, Face::Left, 1, 1, m[t]);
        lemma_quad_fields(t.0, t.1, t.2, Face::Down, 1, 1, m[t]);
        let faces = voxel_quads(m, t);
        assert forall|j: int| 0 <= j < faces.len() implies {
            let q = #[trigger] faces[j];
            &&& q.width_bits() == 0
            &&& q.height_bits() == 0
            &&& q.x() == t.0 && q.y() == t.1 && q.z() == t.2
            &&& q.material_bits() == m[t].bits()
        } by {
            assert(faces == face_quad(m, t, 0, 1, 0, Face::Up) + face_quad(m, t, 0, 0, 1, Face::Front)
                + face_quad(m, t, 0, 0, -1, Face::Back) + face_quad(m, t, 1, 0, 0, Face::Right)
                + face_quad(m, t, -1, 0, 0, Face::Left) + face_quad(m, t, 0, -1, 0, Face::Down));
        }
        assert(voxels_quads(m, order) == voxels_quads(m, rest) + faces);
    }
}

fn push_face(
    voxels: &VegetationVoxels,
    t: (u32, u32, u32),
    dx: i64,
    dy: i64,
    dz: i64,
    face: Face,
    material: Material,
    quads: &mut Vec<Quad>,
)
    requires
        voxels@.contains_key(t),
        material == voxels@[t],
        -1 <= dx <= 1,
        -1 <= dy <= 1,
        -1 <= dz <= 1,
    ensures
        final(quads)@ == old(quads)@ + face_quad(voxels@, t, dx as int, dy as int, dz as int, face),
{
    let nx = t.0 as i64 + dx;
    let ny = t.1 as i64 + dy;
    let nz = t.2 as i64 + dz;
    let covered = nx >= 0 && ny >= 0 && nz >= 0 && voxels.contains(
        #[verifier::truncate] (nx as u32),
        #[verifier::truncate] (ny as u32),
        #[verifier::truncate] (nz as u32),
    );
    if !covered {
        quads.push(pack_quad(t.0, t.1, t.2, face, 1, 1, material));
    }
    assert(final(quads)@ =~= old(quads)@ + face_quad(voxels@, t, dx as int, dy as int, dz as int, face));
}

fn push_voxel_faces(voxels: &VegetationVoxels, t: (u32, u32, u32), quads: &mut Vec<Quad>)
    requires
        voxels@.contains_key(t),
    ensures
        final(quads)@ == old(quads)@ + voxel_quads(voxels@, t),
{
    let material = voxels.material(t.0, t.1, t.2);
    push_face(voxels, t, 0, 1, 0, Face::Up, material, quads);
    push_face(voxels, t, 0, 0, 1, Face::Front, material, quads);
    push_face(voxels, t, 0, 0, -1, Face::Back, material, quads);
    push_face(voxels, t, 1, 0, 0, Face::Right, material, quads);
    push_face(voxels, t, -1, 0, 0, Face::Left, material, quads);
    push_face(voxels, t, 0, -1, 0, Face::Down, material, quads);
    assert(final(quads)@ =~= old(quads)@ + voxel_quads(voxels@, t));
}

/// Meshes vegetation voxels one by one: each face whose neighbour is not itself a
/// vegetation voxel becomes a one-voxel quad of the voxel's material. The voxels
/// are taken in the map's own order, each once.
pub fn mesh_vegetation_voxels(voxels: &VegetationVoxels, quads: &mut Vec<Quad>)
    requires
        voxels.wf(),
    ensures
        exists|order: Seq<(u32, u32, u32)>|
            order.no_duplicates() && order.to_set() == voxels@.dom() && final(quads)@ == old(quads)@
                + voxels_quads(voxels@, order),
{
    let list = voxel_list_of(voxels);
    let mut i: usize = 0;
    assert(list@.take(0) =~= Seq::<(u32, u32, u32)>::empty());
    assert(old(quads)@ + Seq::<Quad>::empty() =~= old(quads)@);
    while i < list.len()
        invariant
            i <= list.len(),
            list@.to_set() == voxels@.dom(),
            quads@ == old(quads)@ + voxels_quads(voxels@, list@.take(i as int)),
        decreases list.len() - i,
    {
        let t = list[i];
        assert(list@.to_set().contains(t));
        let ghost before = quads@;
        push_voxel_faces(voxels, t, quads);
        proof {
            let prefix = list@.take(i + 1);
            assert(prefix.drop_last() =~= list@.take(i as int));
            assert(prefix.last() == t);
            assert(voxels_quads(voxels@, prefix) == voxels_quads(voxels@, list@.take(i as int)) + voxel_quads(voxels@, t));
            assert(quads@ =~= old(quads)@ + voxels_quads(voxels@, prefix));
        }
        i = i + 1;
    }
    assert(list@.take(list.len() as int) =~= list@);
}

fn voxel_list_of(voxels: &VegetationVoxels) -> (list: Vec<(u32, u32, u32)>)
    requires
        voxels.wf(),
    ensures
        list@.no_duplicates(),
        list@.to_set() == voxels@.dom(),
{
    voxels.voxel_list()
}

impl WorldGenerator {
    /// The vegetation voxels that no excavation removes.
    pub fn retain_unexcavated(&self, voxels: &VegetationVoxels) -> (kept: VegetationVoxels)
        requires
            voxels.wf(),
        ensures
            kept.wf(),
            kept@ == voxels@.restrict(unexcavated(self.excavations@)),
    {
        let list = voxels.voxel_list();
        let mut kept = VegetationVoxels::new();
        let mut i: usize = 0;
        while i < list.len()
            invariant
                i <= list.len(),
                kept.wf(),
                list@.to_set() == voxels@.dom(),
                kept@ == voxels@.restrict(list@.take(i as int).to_set().intersect(unexcavated(self.excavations@))),
            decreases list.len() - i,
        {
            let t = list[i];
            assert(list@.to_set().contains(t));
            let ghost before = list@.take(i as int).to_set();
            assert(list@.take(i + 1).to_set() =~= before.insert(t)) by {
                assert(list@.take(i + 1) =~= list@.take(i as int).push(t));
                list@.take(i as int).lemma_push_to_set_commute(t);
            }
            if !self.is_excavated(t.0 as i64, t.1 as i64, t.2 as i64) {
                let material = voxels.material(t.0, t.1, t.2);
                kept.set(t.0, t.1, t.2, material);
            }
            assert(kept@ =~= voxels@.restrict(
                list@.take(i + 1).to_set().intersect(unexcavated(self.excavations@)),
            ));
            i = i + 1;
        }
        assert(list@.take(list.len() as int) =~= list@);
        assert(voxels@.restrict(list@.to_set().intersect(unexcavated(self.excavations@))) =~= voxels@.restrict(
            unexcavated(self.excavations@),
        ));
        kept
    }
}

/// The voxels that no excavation removes.
pub open spec fn unexcavated(spheres: Seq<ExcavationSphere>) -> Set<(u32, u32, u32)> {
    Set::new(|t: (u32, u32, u32)| !excavated(spheres, t.0 as int, t.1 as int, t.2 as int))
}

} // verus!
