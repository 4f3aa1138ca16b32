//! Which voxels of the generated world are solid: terrain below each column's
//! height and the wood and leaves of its trees, less what excavations removed.

use vstd::prelude::*;
use crate::layout::{TREE_HORIZONTAL_EXTENT, WORLD_VOXELS};
use crate::quad::Material;
use crate::hashing::{vegetation_hash, vegetation_hash_spec};
use crate::terrain::{
    WorldGenerator, HeightGrid, ExcavationSphere, terrain_material, terrain_material_spec, excavated,
    distance_squared,
};
use crate::layout::EXCAVATION_RADIUS_VOXELS;
use crate::chunk::{
    abs_diff, max_u32, abs_diff_exec, max_exec, holds_neighbourhood, lemma_neighbourhood, lemma_spans_sub,
    lemma_row_index,
};
use crate::vegetation::{VegetationVoxels, in_world, plant};
use crate::plants::{generate_tree, tree_wood, tree_leaves, lemma_tree_near};

verus! {

/// The tree rooted on the column `(x, z)`, if one grows there: its base height
/// (one above the surface) and its vegetation hash. A tree grows where the hash
/// picks one, the surface is grass, and no neighbour's height differs by more than 2.
pub open spec fn tree_root_spec(seed: u32, h: spec_fn(int, int) -> u32, x: u32, z: u32) -> Option<(u32, u32)> {
    let hash = vegetation_hash_spec(seed, x, z);
    let ground = h(x as int, z as int);
    let slope = max_u32(
        max_u32(abs_diff(ground, h(x as int, z + 1)), abs_diff(ground, h(x as int, z - 1))),
        max_u32(abs_diff(ground, h(x + 1, z as int)), abs_diff(ground, h(x - 1, z as int))),
    );
    if hash % 4096 != 17 || terrain_material_spec(x, ground, z) != Material::Grass || slope > 2 {
        None
    } else {
        Some(((ground + 1) as u32, hash))
    }
}

/// The material of voxel `t` in the tree rooted at `(root_x, base_y, root_z)`, if
/// the tree holds it: wood, else leaves.
pub open spec fn tree_voxel(seed: u32, root_x: u32, root_z: u32, base_y: u32, hash: u32, t: (u32, u32, u32)) -> Option<Material> {
    if tree_wood(root_x as int, base_y, root_z as int, hash).contains(t) {
        Some(Material::Wood)
    } else if tree_leaves(seed, root_x as int, base_y, root_z as int, hash).contains(t) {
        Some(Material::Leaves)
    } else {
        None
    }
}

/// The material of voxel `t` in the tree rooted on the column `(root_x, root_z)`,
/// if a tree grows there and holds `t`.
#[verifier::opaque]
pub open spec fn root_tree_voxel(seed: u32, h: spec_fn(int, int) -> u32, root_x: u32, root_z: u32, t: (u32, u32, u32)) -> Option<Material> {
    match tree_root_spec(seed, h, root_x, root_z) {
        Some((base_y, hash)) => tree_voxel(seed, root_x, root_z, base_y, hash, t),
        None => None,
    }
}

/// The first tree among roots `k..count` of a window that holds voxel `t`, and the
/// material it gives `t`. Root `k` of a window `width` columns wide that starts at
/// `(min_x, min_z)` is the column `(min_x + k % width, min_z + k / width)`.
pub open spec fn tree_search(
    seed: u32,
    h: spec_fn(int, int) -> u32,
    t: (u32, u32, u32),
    min_x: int,
    min_z: int,
    width: int,
    k: int,
    count: int,
) -> Option<Material>
    decreases count - k,
{
    if k >= count || width <= 0 {
        None
    } else {
        let found = root_tree_voxel(seed, h, (min_x + k % width) as u32, (min_z + k / width) as u32, t);
        if found is Some {
            found
        } else {
            tree_search(seed, h, t, min_x, min_z, width, k + 1, count)
        }
    }
}

/// The larger of `a` and `b`.
pub open spec fn max_int(a: int, b: int) -> int {
    if a >= b {
        a
    } else {
        b
    }
}

/// The smaller of `a` and `b`.
pub open spec fn min_int(a: int, b: int) -> int {
    if a <= b {
        a
    } else {
        b
    }
}

/// The material of the tree voxel `(x, y, z)`: the trees rooted within the tree
/// extent of its column are searched row by row, and the first that holds the voxel
/// gives it its material. A voxel outside the world is in no tree.
pub open spec fn tree_material_spec(seed: u32, h: spec_fn(int, int) -> u32, x: int, y: u32, z: int) -> Option<Material> {
    if !in_world(x, z) {
        None
    } else {
        let extent = TREE_HORIZONTAL_EXTENT as int;
        let min_x = max_int(x - extent, 0);
        let min_z = max_int(z - extent, 0);
        let max_x = min_int(x + extent, WORLD_VOXELS - 1);
        let max_z = min_int(z + extent, WORLD_VOXELS - 1);
        let width = max_x - min_x + 1;
        tree_search(seed, h, (x as u32, y, z as u32), min_x, min_z, width, 0, width * (max_z - min_z + 1))
    }
}

/// A grid of step 1 that holds every column within a tree extent and one of
/// `(x, z)`: the roots that could reach the column and their neighbours.
pub open spec fn holds_tree_window(grid: HeightGrid, x: int, z: int) -> bool {
    grid.wf() && grid.step == 1 && grid.spans(
        x - TREE_HORIZONTAL_EXTENT - 1,
        z - TREE_HORIZONTAL_EXTENT - 1,
        2 * TREE_HORIZONTAL_EXTENT + 3,
        2 * TREE_HORIZONTAL_EXTENT + 3,
    )
}

/// Whether `(x, y, z)` is solid: in the world, at or above zero, not excavated, and
/// either at or below its column's height or a voxel of a tree.
pub open spec fn solid_spec(g: WorldGenerator, h: spec_fn(int, int) -> u32, x: int, y: int, z: int) -> bool {
    &&& y >= 0
    &&& in_world(x, z)
    &&& !excavated(g.excavations@, x, y, z)
    &&& (y <= h(x, z) || tree_material_spec(g.seed, h, x, y as u32, z) is Some)
}

impl WorldGenerator {
    /// The tree rooted on the column `(x, z)`, if one grows there.
    pub fn tree_root(&self, grid: &HeightGrid, x: u32, z: u32) -> (root: Option<(u32, u32)>)
        requires
            holds_neighbourhood(*grid, x as int, z as int),
        ensures
            root == tree_root_spec(self.seed, grid.field(), x, z),
    {
        let hash = vegetation_hash(self.seed, x, z);
        if hash % 4096 != 17 {
            return None;
        }
        proof {
            lemma_neighbourhood(*grid, x as int, z as int, 0, 0);
            lemma_neighbourhood(*grid, x as int, z as int, 0, 1);
            lemma_neighbourhood(*grid, x as int, z as int, 0, -1);
            lemma_neighbourhood(*grid, x as int, z as int, 1, 0);
            lemma_neighbourhood(*grid, x as int, z as int, -1, 0);
        }
        let ground_y = grid.height(x as i64, z as i64);
        if terrain_material(x, ground_y, z) != Material::Grass {
            return None;
        }
        let slope = max_exec(
            max_exec(
                abs_diff_exec(ground_y, grid.height(x as i64, z as i64 + 1)),
                abs_diff_exec(ground_y, grid.height(x as i64, z as i64 - 1)),
            ),
            max_exec(
                abs_diff_exec(ground_y, grid.height(x as i64 + 1, z as i64)),
                abs_diff_exec(ground_y, grid.height(x as i64 - 1, z as i64)),
            ),
        );
        if slope <= 2 {
            Some((ground_y + 1, hash))
        } else {
            None
        }
    }
}

proof fn lemma_window_root(grid: HeightGrid, x: int, z: int, root_x: int, root_z: int)
    requires
        holds_tree_window(grid, x, z),
        x - TREE_HORIZONTAL_EXTENT <= root_x <= x + TREE_HORIZONTAL_EXTENT,
        z - TREE_HORIZONTAL_EXTENT <= root_z <= z + TREE_HORIZONTAL_EXTENT,
    ensures
        holds_neighbourhood(grid, root_x, root_z),
{
    let extent = TREE_HORIZONTAL_EXTENT as int;
    let a = root_x - (x - extent);
    let b = root_z - (z - extent);
    lemma_spans_sub(grid, x - extent - 1, z - extent - 1, 2 * extent + 3, 2 * extent + 3, a, b, 3, 3);
    assert(a * grid.step == a && b * grid.step == b) by (nonlinear_arith)
        requires
            grid.step == 1,
    ;
}

impl WorldGenerator {
    /// Grows the tree rooted on the column `(root_x, root_z)`, if one grows there,
    /// and gives the material it holds at `(x, y, z)`.
    fn root_tree_material(&self, grid: &HeightGrid, root_x: u32, root_z: u32, x: u32, y: u32, z: u32) -> (material: Option<Material>)
        requires
            holds_neighbourhood(*grid, root_x as int, root_z as int),
            root_x < WORLD_VOXELS,
            root_z < WORLD_VOXELS,
        ensures
            material == root_tree_voxel(self.seed, grid.field(), root_x, root_z, (x, y, z)),
    {
        proof {
            reveal(root_tree_voxel);
        }
        match self.tree_root(grid, root_x, root_z) {
            Some((base_y, hash)) => {
                let mut voxels = VegetationVoxels::new();
                generate_tree(self.seed, root_x, base_y, root_z, hash, &mut voxels);
                if voxels.contains(x, y, z) {
                    Some(voxels.material(x, y, z))
                } else {
                    None
                }
            },
            None => None,
        }
    }

    /// The material of the tree voxel `(x, y, z)`, if a tree holds it: the trees
    /// rooted within the tree extent of its column are grown one by one, row by row,
    /// and the first that holds the voxel gives its material.
    pub fn tree_material_at(&self, grid: &HeightGrid, x: isize, y: u32, z: isize) -> (material: Option<Material>)
        requires
            in_world(x as int, z as int) ==> holds_tree_window(*grid, x as int, z as int),
        ensures
            material == tree_material_spec(self.seed, grid.field(), x as int, y, z as int),
    {
        if x < 0 || z < 0 || x >= WORLD_VOXELS as isize || z >= WORLD_VOXELS as isize {
            return None;
        }
        let extent = TREE_HORIZONTAL_EXTENT as isize;
        let min_x = if x - extent > 0 {
            x - extent
        } else {
            0
        };
        let min_z = if z - extent > 0 {
            z - extent
        } else {
            0
        };
        let max_x = if x + extent < WORLD_VOXELS as isize - 1 {
            x + extent
        } else {
            WORLD_VOXELS as isize - 1
        };
        let max_z = if z + extent < WORLD_VOXELS as isize - 1 {
            z + extent
        } else {
            WORLD_VOXELS as isize - 1
        };
        let ghost h = grid.field();
        let ghost t = (x as u32, y, z as u32);
        let ghost width = max_x - min_x + 1;
        let ghost count = width * (max_z - min_z + 1);
        let ghost answer = tree_material_spec(self.seed, h, x as int, y, z as int);
        assert(answer == tree_search(self.seed, h, t, min_x as int, min_z as int, width, 0, count));
        let mut root_z = min_z;
        while root_z <= max_z
            invariant
                holds_tree_window(*grid, x as int, z as int),
                0 <= x < WORLD_VOXELS,
                0 <= z < WORLD_VOXELS,
                min_x == max_int(x - TREE_HORIZONTAL_EXTENT, 0),
                min_z == max_int(z - TREE_HORIZONTAL_EXTENT, 0),
                max_x == min_int(x + TREE_HORIZONTAL_EXTENT, WORLD_VOXELS - 1),
                max_z == min_int(z + TREE_HORIZONTAL_EXTENT, WORLD_VOXELS - 1),
                h == grid.field(),
                t == (x as u32, y, z as u32),
                width == max_x - min_x + 1,
                count == width * (max_z - min_z + 1),
                min_z <= root_z <= max_z + 1,
                answer == tree_material_spec(self.seed, grid.field(), x as int, y, z as int),
                answer == tree_search(
                    self.seed,
                    h,
                    t,
                    min_x as int,
                    min_z as int,
                    width,
                    (root_z - min_z) * width,
                    count,
                ),
            decreases max_z + 1 - root_z,
        {
            let mut root_x = min_x;
            while root_x <= max_x
                invariant
                    holds_tree_window(*grid, x as int, z as int),
                    0 <= x < WORLD_VOXELS,
                    0 <= z < WORLD_VOXELS,
                    min_x == max_int(x - TREE_HORIZONTAL_EXTENT, 0),
                    min_z == max_int(z - TREE_HORIZONTAL_EXTENT, 0),
                    max_x == min_int(x + TREE_HORIZONTAL_EXTENT, WORLD_VOXELS - 1),
                    max_z == min_int(z + TREE_HORIZONTAL_EXTENT, WORLD_VOXELS - 1),
                    h == grid.field(),
                    t == (x as u32, y, z as u32),
                    width == max_x - min_x + 1,
                    count == width * (max_z - min_z + 1),
                    min_z <= root_z <= max_z,
                    min_x <= root_x <= max_x + 1,
                    answer == tree_material_spec(self.seed, grid.field(), x as int, y, z as int),
                    answer == tree_search(
                        self.seed,
                        h,
                        t,
                        min_x as int,
                        min_z as int,
                        width,
                        (root_z - min_z) * width + (root_x - min_x),
                        count,
                    ),
                decreases max_x + 1 - root_x,
            {
                let ghost k = (root_z - min_z) * width + (root_x - min_x);
                proof {
                    lemma_row_index(root_x - min_x, root_z - min_z, width);
                    assert(k == (root_x - min_x) + width * (root_z - min_z)) by (nonlinear_arith)
                        requires
                            k == (root_z - min_z) * width + (root_x - min_x),
                    ;
                    assert(k < count) by (nonlinear_arith)
                        requires
                            0 <= root_x - min_x,
                            0 <= root_z - min_z,
                            k == (root_z - min_z) * width + (root_x - min_x),
                            count == width * (max_z - min_z + 1),
                            root_x - min_x < width,
                            root_z - min_z < max_z - min_z + 1,
                    ;
                    lemma_window_root(*grid, x as int, z as int, root_x as int, root_z as int);
                }
                let found = self.root_tree_material(grid, root_x as u32, root_z as u32, x as u32, y, z as u32);
                proof {
                    assert((min_x + k % width) as u32 == root_x as u32 && (min_z + k / width) as u32 == root_z as u32);
                    assert(root_tree_voxel(self.seed, h, root_x as u32, root_z as u32, t) == found);
                }
                if found.is_some() {
                    assert(answer == found);
                    return found;
                }
                root_x = root_x + 1;
            }
            proof {
                assert((root_z - min_z) * width + (root_x - min_x) == (root_z + 1 - min_z) * width) by (nonlinear_arith)
                    requires
                        root_x - min_x == width,
                ;
            }
            root_z = root_z + 1;
        }
        proof {
            assert((root_z - min_z) * width == count) by (nonlinear_arith)
                requires
                    root_z == max_z + 1,
                    count == width * (max_z - min_z + 1),
            ;
        }
        None
    }

    /// Whether the voxel `(x, y, z)` is solid world geometry.
    pub fn is_solid(&self, grid: &HeightGrid, x: isize, y: i64, z: isize) -> (solid: bool)
        requires
            in_world(x as int, z as int) ==> holds_tree_window(*grid, x as int, z as int),
        ensures
            solid == solid_spec(*self, grid.field(), x as int, y as int, z as int),
    {
        if y < 0 || x < 0 || z < 0 || x >= WORLD_VOXELS as isize || z >= WORLD_VOXELS as isize {
            return false;
        }
        if self.is_excavated(x as i64, y, z as i64) {
            return false;
        }
        proof {
            lemma_window_root(*grid, x as int, z as int, x as int, z as int);
            lemma_neighbourhood(*grid, x as int, z as int, 0, 0);
        }
        y <= grid.height(x as i64, z as i64) as i64 || self.tree_material_at(
            grid,
            x,
            #[verifier::truncate] (y as u32),
            z,
        ).is_some()
    }
}


/// One more excavation removes exactly the voxels of its sphere: after it, a voxel
/// is solid when it was solid before and lies farther than the excavation radius
/// from the new sphere's centre.
pub proof fn lemma_excavation_removes_its_sphere(
    before: WorldGenerator,
    after: WorldGenerator,
    sphere: ExcavationSphere,
    h: spec_fn(int, int) -> u32,
    x: int,
    y: int,
    z: int,
)
    requires
        after.seed == before.seed,
        after.excavations@ == before.excavations@.push(sphere),
    ensures
        solid_spec(after, h, x, y, z) == (solid_spec(before, h, x, y, z) && distance_squared(sphere, x, y, z)
            > EXCAVATION_RADIUS_VOXELS * EXCAVATION_RADIUS_VOXELS),
{
    let old_spheres = before.excavations@;
    let new_spheres = after.excavations@;
    let n = old_spheres.len() as int;
    assert(new_spheres[n] == sphere);
    if excavated(old_spheres, x, y, z) {
        let i = choose|i: int|
            0 <= i < old_spheres.len() && #[trigger] distance_squared(old_spheres[i], x, y, z)
                <= EXCAVATION_RADIUS_VOXELS * EXCAVATION_RADIUS_VOXELS;
        assert(new_spheres[i] == old_spheres[i]);
        assert(excavated(new_spheres, x, y, z));
    }
    if distance_squared(sphere, x, y, z) <= EXCAVATION_RADIUS_VOXELS * EXCAVATION_RADIUS_VOXELS {
        assert(distance_squared(new_spheres[n], x, y, z) <= EXCAVATION_RADIUS_VOXELS * EXCAVATION_RADIUS_VOXELS);
        assert(excavated(new_spheres, x, y, z));
    }
    if excavated(new_spheres, x, y, z) {
        let i = choose|i: int|
            0 <= i < new_spheres.len() && #[trigger] distance_squared(new_spheres[i], x, y, z)
                <= EXCAVATION_RADIUS_VOXELS * EXCAVATION_RADIUS_VOXELS;
        if i < n {
            assert(new_spheres[i] == old_spheres[i]);
            assert(excavated(old_spheres, x, y, z));
        }
    }
}

proof fn lemma_search_finds(
    seed: u32,
    h: spec_fn(int, int) -> u32,
    t: (u32, u32, u32),
    min_x: int,
    min_z: int,
    width: int,
    k: int,
    count: int,
    target: int,
)
    requires
        width > 0,
        k <= target < count,
        root_tree_voxel(seed, h, (min_x + target % width) as u32, (min_z + target / width) as u32, t) is Some,
    ensures
        tree_search(seed, h, t, min_x, min_z, width, k, count) is Some,
    decreases count - k,
{
    if k < target {
        lemma_search_finds(seed, h, t, min_x, min_z, width, k + 1, count, target);
    }
}

/// Every voxel of a tree grown on a world column is solid exactly where no
/// excavation removed it: the tree search behind `is_solid` finds each of them.
pub proof fn lemma_tree_voxels_solid(
    g: WorldGenerator,
    h: spec_fn(int, int) -> u32,
    root_x: u32,
    root_z: u32,
    t: (u32, u32, u32),
)
    requires
        in_world(root_x as int, root_z as int),
        root_tree_voxel(g.seed, h, root_x, root_z, t) is Some,
    ensures
        tree_material_spec(g.seed, h, t.0 as int, t.1, t.2 as int) is Some,
        solid_spec(g, h, t.0 as int, t.1 as int, t.2 as int) == !excavated(
            g.excavations@,
            t.0 as int,
            t.1 as int,
            t.2 as int,
        ),
{
    reveal(root_tree_voxel);
    let (base_y, hash) = tree_root_spec(g.seed, h, root_x, root_z).unwrap();
    lemma_tree_near(g.seed, root_x as int, base_y, root_z as int, hash, t);
    let x = t.0 as int;
    let z = t.2 as int;
    let extent = TREE_HORIZONTAL_EXTENT as int;
    let min_x = max_int(x - extent, 0);
    let min_z = max_int(z - extent, 0);
    let max_x = min_int(x + extent, WORLD_VOXELS - 1);
    let max_z = min_int(z + extent, WORLD_VOXELS - 1);
    let width = max_x - min_x + 1;
    let i = root_x - min_x;
    let j = root_z - min_z;
    let target = i + width * j;
    let count = width * (max_z - min_z + 1);
    lemma_row_index(i, j, width);
    assert(target < count) by (nonlinear_arith)
        requires
            0 <= i < width,
            0 <= j <= max_z - min_z,
            target == i + width * j,
            count == width * (max_z - min_z + 1),
    ;
    lemma_search_finds(g.seed, h, t, min_x, min_z, width, 0, count, target);
}

/// The tree lookup agrees with tree growth: for a tree rooted on a world column,
/// every voxel that `generate_tree` grows keeps in that tree the material it was
/// grown with (wood, or leaves where no wood is), the lookup behind `is_solid`
/// finds a tree holding it, and it is solid exactly where no excavation removed it.
/// (When several trees hold a voxel, the lookup answers with the first of them in
/// its row-by-row search.)
pub proof fn lemma_grown_tree_solid(
    g: WorldGenerator,
    h: spec_fn(int, int) -> u32,
    root_x: u32,
    root_z: u32,
    base_y: u32,
    hash: u32,
    t: (u32, u32, u32),
)
    requires
        in_world(root_x as int, root_z as int),
        tree_root_spec(g.seed, h, root_x, root_z) == Some((base_y, hash)),
        plant(
            Map::empty(),
            tree_wood(root_x as int, base_y, root_z as int, hash),
            Material::Wood,
            tree_leaves(g.seed, root_x as int, base_y, root_z as int, hash),
            Material::Leaves,
        ).contains_key(t),
    ensures
        root_tree_voxel(g.seed, h, root_x, root_z, t) == Some(
            plant(
                Map::empty(),
                tree_wood(root_x as int, base_y, root_z as int, hash),
                Material::Wood,
                tree_leaves(g.seed, root_x as int, base_y, root_z as int, hash),
                Material::Leaves,
            )[t],
        ),
        tree_material_spec(g.seed, h, t.0 as int, t.1, t.2 as int) is Some,
        solid_spec(g, h, t.0 as int, t.1 as int, t.2 as int) == !excavated(
            g.excavations@,
            t.0 as int,
            t.1 as int,
            t.2 as int,
        ),
{
    reveal(root_tree_voxel);
    lemma_tree_voxels_solid(g, h, root_x, root_z, t);
}

} // verus!
