//! The plants grown on grass columns: trees, bushes, flowers and tall grass.

use vstd::prelude::*;
use crate::quad::{Face, Material, Quad, quad_of, pack_quad};
use crate::hashing::{rotr, rotate_right, vegetation_hash, vegetation_hash_spec};
use crate::terrain::WorldGenerator;
use crate::layout::TREE_HORIZONTAL_EXTENT;
use crate::vegetation::{
    VegetationVoxels, in_world, in_disk, disk_set, plant, paint, fill, voxel_in_world, leaf_cluster,
    bush_cluster, insert_disk, insert_vegetation_voxel, add_leaf_cluster, add_bush_cluster,
    lemma_paint_plant, lemma_fill_plant, lemma_paint_paint,
};

verus! {

/// The eight horizontal directions, counter-clockwise from +x.
pub open spec fn direction(i: int) -> (int, int) {
    if i == 0 {
        (1, 0)
    } else if i == 1 {
        (1, 1)
    } else if i == 2 {
        (0, 1)
    } else if i == 3 {
        (-1, 1)
    } else if i == 4 {
        (-1, 0)
    } else if i == 5 {
        (-1, -1)
    } else if i == 6 {
        (0, -1)
    } else {
        (1, -1)
    }
}

fn direction_of(i: u32) -> (d: (isize, isize))
    requires
        i < 8,
    ensures
        d.0 == direction(i as int).0,
        d.1 == direction(i as int).1,
{
    match i {
        0 => (1, 0),
        1 => (1, 1),
        2 => (0, 1),
        3 => (-1, 1),
        4 => (-1, 0),
        5 => (-1, -1),
        6 => (0, -1),
        _ => (1, -1),
    }
}

proof fn lemma_low_bits(v: u32)
    by (bit_vector)
    ensures
        v & 1 <= 1,
        v & 3 <= 3,
        v & 7 <= 7,
{
}

/// Height of a tree's trunk: 64 to 87 voxels.
pub open spec fn trunk_height(hash: u32) -> u32 {
    (64 + (hash >> 12u32) % 24) as u32
}

/// Radius of the trunk `dy` voxels above its base: wide at the foot, thin at the top.
pub open spec fn trunk_radius(dy: int, height: int) -> int {
    if dy < 10 {
        4
    } else if dy < height / 2 {
        3
    } else {
        2
    }
}

/// The trunk voxels less than `n` voxels above the base.
pub open spec fn trunk_part(x: int, base_y: u32, z: int, hash: u32, n: int) -> Set<(u32, u32, u32)> {
    Set::new(
        |t: (u32, u32, u32)|
            in_world(t.0 as int, t.2 as int) && base_y <= t.1 < base_y + n && in_disk(
                t.0 - x,
                t.2 - z,
                trunk_radius(t.1 - base_y, trunk_height(hash) as int),
            ),
    )
}

/// The direction of branch `b`.
pub open spec fn branch_direction(hash: u32, b: u32) -> (int, int) {
    direction(((((hash >> (b * 2) as u32) & 3) + b) % 8) as int)
}

/// The height at which branch `b` leaves the trunk.
pub open spec fn branch_base(base_y: u32, hash: u32, b: u32) -> int {
    base_y + trunk_height(hash) - 12 - (b % 4) * 7
}

/// Length of branch `b`: 10 to 17 steps.
pub open spec fn branch_length(hash: u32, b: u32) -> int {
    10 + ((rotr(hash, (b * 3) as u32) >> 16u32) & 7)
}

/// Radius of a branch at a step: thicker over its first third.
pub open spec fn branch_radius(step: int, length: int) -> int {
    if step <= length / 3 {
        2
    } else {
        1
    }
}

/// The centre of branch `b` at a step: out along its direction, rising one voxel
/// every three steps.
pub open spec fn branch_center(x: int, base_y: u32, z: int, hash: u32, b: u32, step: int) -> (int, int, int) {
    let d = branch_direction(hash, b);
    (x + d.0 * step, branch_base(base_y, hash, b) + step / 3, z + d.1 * step)
}

/// The voxels of branch `b` from its steps before `s`.
pub open spec fn branch_part(x: int, base_y: u32, z: int, hash: u32, b: u32, s: int) -> Set<(u32, u32, u32)> {
    Set::new(
        |t: (u32, u32, u32)|
            in_world(t.0 as int, t.2 as int) && exists|step: int|
                #![trigger branch_center(x, base_y, z, hash, b, step)]
                1 <= step < s && t.1 == branch_center(x, base_y, z, hash, b, step).1 && in_disk(
                    t.0 - branch_center(x, base_y, z, hash, b, step).0,
                    t.2 - branch_center(x, base_y, z, hash, b, step).2,
                    branch_radius(step, branch_length(hash, b)),
                ),
    )
}

/// The voxels of the first `n` branches.
pub open spec fn branches(x: int, base_y: u32, z: int, hash: u32, n: nat) -> Set<(u32, u32, u32)>
    decreases n,
{
    if n == 0 {
        Set::empty()
    } else {
        branches(x, base_y, z, hash, (n - 1) as nat).union(
            branch_part(x, base_y, z, hash, (n - 1) as u32, branch_length(hash, (n - 1) as u32) + 1),
        )
    }
}

/// The leaves at the ends of the first `n` branches.
pub open spec fn branch_leaves(seed: u32, x: int, base_y: u32, z: int, hash: u32, n: nat) -> Set<(u32, u32, u32)>
    decreases n,
{
    if n == 0 {
        Set::empty()
    } else {
        let end = branch_center(x, base_y, z, hash, (n - 1) as u32, branch_length(hash, (n - 1) as u32));
        branch_leaves(seed, x, base_y, z, hash, (n - 1) as nat).union(
            leaf_cluster(seed, end.0, end.1 as u32, end.2, 10, 7, 10),
        )
    }
}

/// Length of root `i`: 7 to 10 steps.
pub open spec fn root_length(hash: u32, i: u32) -> int {
    7 + ((rotr(hash, (i * 5) as u32) >> 24u32) & 3)
}

/// The position of root `i` at a step, along every other direction.
pub open spec fn root_point(x: int, z: int, i: u32, step: int) -> (int, int) {
    let d = direction(2 * i);
    (x + d.0 * step, z + d.1 * step)
}

/// The voxels of root `i` from its steps before `s`, at the base height.
pub open spec fn root_part(x: int, base_y: u32, z: int, hash: u32, i: u32, s: int) -> Set<(u32, u32, u32)> {
    Set::new(
        |t: (u32, u32, u32)|
            in_world(t.0 as int, t.2 as int) && t.1 == base_y && exists|step: int|
                #![trigger root_point(x, z, i, step)]
                1 <= step < s && t.0 == root_point(x, z, i, step).0 && t.2 == root_point(x, z, i, step).1,
    )
}

/// The voxels of the first `n` roots.
pub open spec fn roots(x: int, base_y: u32, z: int, hash: u32, n: nat) -> Set<(u32, u32, u32)>
    decreases n,
{
    if n == 0 {
        Set::empty()
    } else {
        roots(x, base_y, z, hash, (n - 1) as nat).union(
            root_part(x, base_y, z, hash, (n - 1) as u32, root_length(hash, (n - 1) as u32) + 1),
        )
    }
}

/// The wood of a tree: trunk, eight branches and four roots.
#[verifier::opaque]
pub open spec fn tree_wood(x: int, base_y: u32, z: int, hash: u32) -> Set<(u32, u32, u32)> {
    trunk_part(x, base_y, z, hash, trunk_height(hash) as int).union(branches(x, base_y, z, hash, 8)).union(
        roots(x, base_y, z, hash, 4),
    )
}

/// The leaves of a tree: a cluster at each branch end and a larger one on top.
#[verifier::opaque]
pub open spec fn tree_leaves(seed: u32, x: int, base_y: u32, z: int, hash: u32) -> Set<(u32, u32, u32)> {
    branch_leaves(seed, x, base_y, z, hash, 8).union(
        leaf_cluster(seed, x, (base_y + trunk_height(hash)) as u32, z, 15, 11, 15),
    )
}

proof fn lemma_trunk_step(x: int, base_y: u32, z: int, hash: u32, n: int)
    requires
        0 <= n,
        base_y + n <= u32::MAX,
    ensures
        trunk_part(x, base_y, z, hash, n + 1) == trunk_part(x, base_y, z, hash, n).union(
            disk_set(x, (base_y + n) as u32, z, trunk_radius(n, trunk_height(hash) as int)),
        ),
{
    assert(trunk_part(x, base_y, z, hash, n + 1) =~= trunk_part(x, base_y, z, hash, n).union(
        disk_set(x, (base_y + n) as u32, z, trunk_radius(n, trunk_height(hash) as int)),
    ));
}

proof fn lemma_branch_step(x: int, base_y: u32, z: int, hash: u32, b: u32, s: int)
    requires
        1 <= s,
        0 <= branch_center(x, base_y, z, hash, b, s).1 <= u32::MAX,
    ensures
        ({
            let c = branch_center(x, base_y, z, hash, b, s);
            branch_part(x, base_y, z, hash, b, s + 1) == branch_part(x, base_y, z, hash, b, s).union(
                disk_set(c.0, c.1 as u32, c.2, branch_radius(s, branch_length(hash, b))),
            )
        }),
{
    let c = branch_center(x, base_y, z, hash, b, s);
    let next = branch_part(x, base_y, z, hash, b, s + 1);
    let cur = branch_part(x, base_y, z, hash, b, s);
    let disk = disk_set(c.0, c.1 as u32, c.2, branch_radius(s, branch_length(hash, b)));
    assert forall|t: (u32, u32, u32)| #[trigger] next.contains(t) <==> cur.union(disk).contains(t) by {
        if next.contains(t) {
            let w = choose|w: int|
                #![trigger branch_center(x, base_y, z, hash, b, w)]
                1 <= w < s + 1 && t.1 == branch_center(x, base_y, z, hash, b, w).1 && in_disk(
                    t.0 - branch_center(x, base_y, z, hash, b, w).0,
                    t.2 - branch_center(x, base_y, z, hash, b, w).2,
                    branch_radius(w, branch_length(hash, b)),
                );
            if w < s {
                assert(cur.contains(t));
            } else {
                assert(disk.contains(t));
            }
        }
        if disk.contains(t) {
            assert(next.contains(t));
        }
        if cur.contains(t) {
            let w = choose|w: int|
                #![trigger branch_center(x, base_y, z, hash, b, w)]
                1 <= w < s && t.1 == branch_center(x, base_y, z, hash, b, w).1 && in_disk(
                    t.0 - branch_center(x, base_y, z, hash, b, w).0,
                    t.2 - branch_center(x, base_y, z, hash, b, w).2,
                    branch_radius(w, branch_length(hash, b)),
                );
            assert(next.contains(t));
        }
    }
    assert(next =~= cur.union(disk));
}

proof fn lemma_root_step(x: int, base_y: u32, z: int, hash: u32, i: u32, s: int)
    requires
        1 <= s,
    ensures
        root_part(x, base_y, z, hash, i, s + 1) == root_part(x, base_y, z, hash, i, s).union(
            voxel_in_world(root_point(x, z, i, s).0, base_y, root_point(x, z, i, s).1),
        ),
{
    let next = root_part(x, base_y, z, hash, i, s + 1);
    let cur = root_part(x, base_y, z, hash, i, s);
    let p = root_point(x, z, i, s);
    let single = voxel_in_world(p.0, base_y, p.1);
    assert forall|t: (u32, u32, u32)| #[trigger] next.contains(t) <==> cur.union(single).contains(t) by {
        if next.contains(t) {
            let w = choose|w: int|
                #![trigger root_point(x, z, i, w)]
                1 <= w < s + 1 && t.0 == root_point(x, z, i, w).0 && t.2 == root_point(x, z, i, w).1;
            if w < s {
                assert(cur.contains(t));
            } else {
                assert(single.contains(t));
            }
        }
        if single.contains(t) {
            assert(next.contains(t));
        }
        if cur.contains(t) {
            let w = choose|w: int|
                #![trigger root_point(x, z, i, w)]
                1 <= w < s && t.0 == root_point(x, z, i, w).0 && t.2 == root_point(x, z, i, w).1;
            assert(next.contains(t));
        }
    }
    assert(next =~= cur.union(single));
}

/// Grows a tree rooted at `(x, base_y, z)`: a trunk of stacked disks, eight
/// rising branches each ending in a leaf cluster, four roots along the ground, and
/// a large leaf cluster on top. Wood replaces what was there; leaves fill only
/// empty voxels.
pub fn generate_tree(seed: u32, x: u32, base_y: u32, z: u32, hash: u32, voxels: &mut VegetationVoxels)
    requires
        old(voxels).wf(),
        x <= 0xff_0000,
        z <= 0xff_0000,
        base_y <= u32::MAX - 128,
    ensures
        final(voxels).wf(),
        final(voxels)@ == plant(
            old(voxels)@,
            tree_wood(x as int, base_y, z as int, hash),
            Material::Wood,
            tree_leaves(seed, x as int, base_y, z as int, hash),
            Material::Leaves,
        ),
{
    let ghost start = voxels@;
    let ghost (xi, zi) = (x as int, z as int);
    let height: u32 = 64 + ((hash >> 12) % 24);
    let mut dy: u32 = 0;
    assert(trunk_part(xi, base_y, zi, hash, 0) =~= Set::empty());
    assert(plant(start, Set::empty(), Material::Wood, Set::empty(), Material::Leaves) =~= start);
    while dy < height
        invariant
            voxels.wf(),
            x <= 0xff_0000,
            z <= 0xff_0000,
            base_y <= u32::MAX - 128,
            xi == x,
            zi == z,
            height == trunk_height(hash),
            dy <= height,
            voxels@ == plant(
                start,
                trunk_part(xi, base_y, zi, hash, dy as int),
                Material::Wood,
                Set::empty(),
                Material::Leaves,
            ),
        decreases height - dy,
    {
        let radius: isize = if dy < 10 {
            4
        } else if dy < height / 2 {
            3
        } else {
            2
        };
        insert_disk(voxels, x as isize, base_y + dy, z as isize, radius, Material::Wood);
        proof {
            lemma_paint_plant(
                start,
                trunk_part(xi, base_y, zi, hash, dy as int),
                Material::Wood,
                Set::empty(),
                Material::Leaves,
                disk_set(xi, (base_y + dy) as u32, zi, radius as int),
            );
            lemma_trunk_step(xi, base_y, zi, hash, dy as int);
        }
        dy = dy + 1;
    }
    let ghost trunk = trunk_part(xi, base_y, zi, hash, height as int);
    assert(trunk.union(branches(xi, base_y, zi, hash, 0)) =~= trunk);
    let mut branch: u32 = 0;
    while branch < 8
        invariant
            voxels.wf(),
            x <= 0xff_0000,
            z <= 0xff_0000,
            base_y <= u32::MAX - 128,
            xi == x,
            zi == z,
            height == trunk_height(hash),
            trunk == trunk_part(xi, base_y, zi, hash, height as int),
            branch <= 8,
            voxels@ == plant(
                start,
                trunk.union(branches(xi, base_y, zi, hash, branch as nat)),
                Material::Wood,
                branch_leaves(seed, xi, base_y, zi, hash, branch as nat),
                Material::Leaves,
            ),
        decreases 8 - branch,
    {
        proof {
            lemma_low_bits(hash >> (branch * 2));
            lemma_low_bits(rotr(hash, (branch * 3) as u32) >> 16u32);
        }
        let d = direction_of((((hash >> (branch * 2)) & 3) + branch) % 8);
        let branch_y: u32 = base_y + height - 12 - (branch % 4) * 7;
        let length: isize = 10 + ((rotate_right(hash, branch * 3) >> 16) & 7) as isize;
        let ghost wood = trunk.union(branches(xi, base_y, zi, hash, branch as nat));
        let ghost leaves = branch_leaves(seed, xi, base_y, zi, hash, branch as nat);
        let mut end: (isize, u32, isize) = (x as isize, branch_y, z as isize);
        let mut step: isize = 1;
        assert(branch_part(xi, base_y, zi, hash, branch, 1) =~= Set::empty());
        assert(wood.union(Set::empty()) =~= wood);
        while step <= length
            invariant
                voxels.wf(),
                x <= 0xff_0000,
                z <= 0xff_0000,
                base_y <= u32::MAX - 128,
                xi == x,
                zi == z,
                height == trunk_height(hash),
                branch < 8,
                d.0 == branch_direction(hash, branch).0,
                d.1 == branch_direction(hash, branch).1,
                -1 <= d.0 <= 1,
                -1 <= d.1 <= 1,
                10 <= length <= 17,
                branch_y == branch_base(base_y, hash, branch),
                length == branch_length(hash, branch),
                1 <= step <= length + 1,
                step > 1 ==> end.0 == branch_center(xi, base_y, zi, hash, branch, step - 1).0
                    && end.1 == branch_center(xi, base_y, zi, hash, branch, step - 1).1
                    && end.2 == branch_center(xi, base_y, zi, hash, branch, step - 1).2,
                step > 1 ==> x - 17 <= end.0 <= x + 17 && z - 17 <= end.2 <= z + 17,
                voxels@ == plant(
                    start,
                    wood.union(branch_part(xi, base_y, zi, hash, branch, step as int)),
                    Material::Wood,
                    leaves,
                    Material::Leaves,
                ),
            decreases length + 1 - step,
        {
            assert(-17 <= d.0 * step <= 17 && -17 <= d.1 * step <= 17) by (nonlinear_arith)
                requires
                    -1 <= d.0 <= 1,
                    -1 <= d.1 <= 1,
                    1 <= step <= 17,
            ;
            end = (x as isize + d.0 * step, branch_y + (step / 3) as u32, z as isize + d.1 * step);
            let radius: isize = if step <= length / 3 {
                2
            } else {
                1
            };
            insert_disk(voxels, end.0, end.1, end.2, radius, Material::Wood);
            proof {
                let part = branch_part(xi, base_y, zi, hash, branch, step as int);
                let disk = disk_set(end.0 as int, end.1, end.2 as int, radius as int);
                lemma_paint_plant(start, wood.union(part), Material::Wood, leaves, Material::Leaves, disk);
                lemma_branch_step(xi, base_y, zi, hash, branch, step as int);
                assert(wood.union(part).union(disk) =~= wood.union(
                    branch_part(xi, base_y, zi, hash, branch, step + 1),
                ));
            }
            step = step + 1;
        }
        add_leaf_cluster(seed, end.0, end.1, end.2, 10, 7, 10, voxels);
        proof {
            let cluster = leaf_cluster(seed, end.0 as int, end.1, end.2 as int, 10, 7, 10);
            lemma_fill_plant(
                start,
                wood.union(branch_part(xi, base_y, zi, hash, branch, length + 1)),
                Material::Wood,
                leaves,
                Material::Leaves,
                cluster,
            );
            assert(wood.union(branch_part(xi, base_y, zi, hash, branch, length + 1)) =~= trunk.union(
                branches(xi, base_y, zi, hash, (branch + 1) as nat),
            ));
        }
        branch = branch + 1;
    }
    let ghost crown = trunk.union(branches(xi, base_y, zi, hash, 8));
    let ghost leaves = branch_leaves(seed, xi, base_y, zi, hash, 8);
    assert(crown.union(roots(xi, base_y, zi, hash, 0)) =~= crown);
    let mut index: u32 = 0;
    while index < 4
        invariant
            voxels.wf(),
            x <= 0xff_0000,
            z <= 0xff_0000,
            base_y <= u32::MAX - 128,
            xi == x,
            zi == z,
            height == trunk_height(hash),
            index <= 4,
            voxels@ == plant(
                start,
                crown.union(roots(xi, base_y, zi, hash, index as nat)),
                Material::Wood,
                leaves,
                Material::Leaves,
            ),
        decreases 4 - index,
    {
        proof {
            lemma_low_bits(rotr(hash, (index * 5) as u32) >> 24u32);
        }
        let d = direction_of(index * 2);
        let root_len: u32 = 7 + ((rotate_right(hash, index * 5) >> 24) & 3);
        let ghost wood = crown.union(roots(xi, base_y, zi, hash, index as nat));
        let mut step: u32 = 1;
        assert(root_part(xi, base_y, zi, hash, index, 1) =~= Set::empty());
        assert(wood.union(Set::empty()) =~= wood);
        while step <= root_len
            invariant
                voxels.wf(),
                x <= 0xff_0000,
                z <= 0xff_0000,
                index < 4,
                xi == x,
                zi == z,
                d.0 == direction(2 * index).0,
                d.1 == direction(2 * index).1,
                -1 <= d.0 <= 1,
                -1 <= d.1 <= 1,
                7 <= root_len <= 10,
                root_len == root_length(hash, index),
                1 <= step <= root_len + 1,
                voxels@ == plant(
                    start,
                    wood.union(root_part(xi, base_y, zi, hash, index, step as int)),
                    Material::Wood,
                    leaves,
                    Material::Leaves,
                ),
            decreases root_len + 1 - step,
        {
            insert_vegetation_voxel(
                voxels,
                x as isize + d.0 * step as isize,
                base_y,
                z as isize + d.1 * step as isize,
                Material::Wood,
            );
            proof {
                let part = root_part(xi, base_y, zi, hash, index, step as int);
                let p = root_point(xi, zi, index, step as int);
                let single = voxel_in_world(p.0, base_y, p.1);
                lemma_paint_plant(start, wood.union(part), Material::Wood, leaves, Material::Leaves, single);
                lemma_root_step(xi, base_y, zi, hash, index, step as int);
                assert(wood.union(part).union(single) =~= wood.union(
                    root_part(xi, base_y, zi, hash, index, step + 1),
                ));
            }
            step = step + 1;
        }
        assert(wood.union(root_part(xi, base_y, zi, hash, index, root_len + 1)) =~= crown.union(
            roots(xi, base_y, zi, hash, (index + 1) as nat),
        ));
        index = index + 1;
    }
    add_leaf_cluster(seed, x as isize, base_y + height, z as isize, 15, 11, 15, voxels);
    proof {
        reveal(tree_wood);
        reveal(tree_leaves);
        lemma_fill_plant(
            start,
            crown.union(roots(xi, base_y, zi, hash, 4)),
            Material::Wood,
            leaves,
            Material::Leaves,
            leaf_cluster(seed, xi, (base_y + height) as u32, zi, 15, 11, 15),
        );
    }
}

/// Height of a bush's stem: 5 to 8 voxels.
pub open spec fn bush_height(hash: u32) -> int {
    5 + ((hash >> 9u32) & 3)
}

/// The four directions of a bush's arms.
pub open spec fn arm_direction(i: int) -> (int, int) {
    if i == 0 {
        (1, 0)
    } else if i == 1 {
        (-1, 0)
    } else if i == 2 {
        (0, 1)
    } else {
        (0, -1)
    }
}

fn arm_direction_of(i: u32) -> (d: (isize, isize))
    requires
        i < 4,
    ensures
        d.0 == arm_direction(i as int).0,
        d.1 == arm_direction(i as int).1,
{
    match i {
        0 => (1, 0),
        1 => (-1, 0),
        2 => (0, 1),
        _ => (0, -1),
    }
}

/// The voxels of a stem of `n` voxels standing on `(x, base_y, z)`.
pub open spec fn stem_part(x: int, base_y: u32, z: int, n: int) -> Set<(u32, u32, u32)> {
    Set::new(
        |t: (u32, u32, u32)|
            in_world(t.0 as int, t.2 as int) && t.0 == x && t.2 == z && base_y <= t.1 < base_y + n,
    )
}

/// The voxel of arm `i` of a bush at a step: out along the arm, rising every
/// other step.
pub open spec fn arm_point(x: int, base_y: u32, z: int, i: int, step: int) -> (int, int, int) {
    let d = arm_direction(i);
    (x + d.0 * step, base_y + 2 + step / 2, z + d.1 * step)
}

/// The voxels of the arms before arm `i`, and of arm `i` before step `s`.
pub open spec fn arms_part(x: int, base_y: u32, z: int, i: int, s: int) -> Set<(u32, u32, u32)> {
    Set::new(
        |t: (u32, u32, u32)|
            in_world(t.0 as int, t.2 as int) && exists|a: int, step: int|
                #![trigger arm_point(x, base_y, z, a, step)]
                0 <= a <= i && 1 <= step <= 3 && (a < i || step < s) && t.0 == arm_point(
                    x,
                    base_y,
                    z,
                    a,
                    step,
                ).0 && t.1 == arm_point(x, base_y, z, a, step).1 && t.2 == arm_point(
                    x,
                    base_y,
                    z,
                    a,
                    step,
                ).2,
    )
}

/// The wood of a bush: its stem and four arms of three voxels.
pub open spec fn bush_wood(x: int, base_y: u32, z: int, hash: u32) -> Set<(u32, u32, u32)> {
    stem_part(x, base_y, z, bush_height(hash)).union(arms_part(x, base_y, z, 4, 1))
}

/// The leaf cluster of a bush, four voxels above its base.
pub open spec fn bush_leaves(seed: u32, x: int, base_y: u32, z: int, hash: u32) -> Set<(u32, u32, u32)> {
    bush_cluster(seed, x, (base_y + 4) as u32, z, 5 + ((hash >> 15u32) & 1), 4)
}

proof fn lemma_arm_step(x: int, base_y: u32, z: int, i: int, s: int)
    requires
        base_y <= u32::MAX - 128,
        0 <= i < 4,
        1 <= s <= 3,
    ensures
        arms_part(x, base_y, z, i, s + 1) == arms_part(x, base_y, z, i, s).union(
            voxel_in_world(
                arm_point(x, base_y, z, i, s).0,
                arm_point(x, base_y, z, i, s).1 as u32,
                arm_point(x, base_y, z, i, s).2,
            ),
        ),
{
    let next = arms_part(x, base_y, z, i, s + 1);
    let cur = arms_part(x, base_y, z, i, s);
    let p = arm_point(x, base_y, z, i, s);
    let single = voxel_in_world(p.0, p.1 as u32, p.2);
    assert forall|t: (u32, u32, u32)| #[trigger] next.contains(t) <==> cur.union(single).contains(t) by {
        if next.contains(t) {
            let (a, w) = choose|a: int, w: int|
                #![trigger arm_point(x, base_y, z, a, w)]
                0 <= a <= i && 1 <= w <= 3 && (a < i || w < s + 1) && t.0 == arm_point(
                    x,
                    base_y,
                    z,
                    a,
                    w,
                ).0 && t.1 == arm_point(x, base_y, z, a, w).1 && t.2 == arm_point(x, base_y, z, a, w).2;
            if a == i && w == s {
                assert(single.contains(t));
            } else {
                assert(cur.contains(t));
            }
        }
        if single.contains(t) {
            assert(t.0 == p.0 && t.1 == p.1 && t.2 == p.2);
            assert(next.contains(t));
        }
        if cur.contains(t) {
            let (a, w) = choose|a: int, w: int|
                #![trigger arm_point(x, base_y, z, a, w)]
                0 <= a <= i && 1 <= w <= 3 && (a < i || w < s) && t.0 == arm_point(
                    x,
                    base_y,
                    z,
                    a,
                    w,
                ).0 && t.1 == arm_point(x, base_y, z, a, w).1 && t.2 == arm_point(x, base_y, z, a, w).2;
            assert(next.contains(t));
        }
    }
    assert(next =~= cur.union(single));
}

proof fn lemma_arm_next(x: int, base_y: u32, z: int, i: int)
    ensures
        arms_part(x, base_y, z, i, 4) == arms_part(x, base_y, z, i + 1, 1),
{
    let a = arms_part(x, base_y, z, i, 4);
    let b = arms_part(x, base_y, z, i + 1, 1);
    assert forall|t: (u32, u32, u32)| #[trigger] a.contains(t) <==> b.contains(t) by {
        if a.contains(t) {
            let (c, w) = choose|c: int, w: int|
                #![trigger arm_point(x, base_y, z, c, w)]
                0 <= c <= i && 1 <= w <= 3 && (c < i || w < 4) && t.0 == arm_point(
                    x,
                    base_y,
                    z,
                    c,
                    w,
                ).0 && t.1 == arm_point(x, base_y, z, c, w).1 && t.2 == arm_point(x, base_y, z, c, w).2;
            assert(b.contains(t));
        }
        if b.contains(t) {
            let (c, w) = choose|c: int, w: int|
                #![trigger arm_point(x, base_y, z, c, w)]
                0 <= c <= i + 1 && 1 <= w <= 3 && (c < i + 1 || w < 1) && t.0 == arm_point(
                    x,
                    base_y,
                    z,
                    c,
                    w,
                ).0 && t.1 == arm_point(x, base_y, z, c, w).1 && t.2 == arm_point(x, base_y, z, c, w).2;
            assert(a.contains(t));
        }
    }
    assert(a =~= b);
}

proof fn lemma_stem_step(x: int, base_y: u32, z: int, n: int)
    requires
        0 <= n,
        base_y + n <= u32::MAX,
    ensures
        stem_part(x, base_y, z, n + 1) == stem_part(x, base_y, z, n).union(
            voxel_in_world(x, (base_y + n) as u32, z),
        ),
{
    assert(stem_part(x, base_y, z, n + 1) =~= stem_part(x, base_y, z, n).union(
        voxel_in_world(x, (base_y + n) as u32, z),
    ));
}

/// Grows a bush rooted at `(x, base_y, z)`: a short stem, four arms, and a leaf
/// cluster around them. Wood replaces what was there; the cluster fills only
/// empty voxels.
pub fn generate_bush(seed: u32, x: u32, base_y: u32, z: u32, hash: u32, voxels: &mut VegetationVoxels)
    requires
        old(voxels).wf(),
        x <= 0xff_0000,
        z <= 0xff_0000,
        base_y <= u32::MAX - 128,
    ensures
        final(voxels).wf(),
        final(voxels)@ == plant(
            old(voxels)@,
            bush_wood(x as int, base_y, z as int, hash),
            Material::Wood,
            bush_leaves(seed, x as int, base_y, z as int, hash),
            Material::Bush,
        ),
{
    let ghost start = voxels@;
    let ghost (xi, zi) = (x as int, z as int);
    proof {
        lemma_low_bits(hash >> 9u32);
    }
    let height: u32 = 5 + ((hash >> 9) & 3);
    let mut dy: u32 = 0;
    assert(stem_part(xi, base_y, zi, 0) =~= Set::empty());
    assert(plant(start, Set::empty(), Material::Wood, Set::empty(), Material::Bush) =~= start);
    while dy < height
        invariant
            voxels.wf(),
            x <= 0xff_0000,
            z <= 0xff_0000,
            base_y <= u32::MAX - 128,
            xi == x,
            zi == z,
            height == bush_height(hash),
            5 <= height <= 8,
            dy <= height,
            voxels@ == plant(start, stem_part(xi, base_y, zi, dy as int), Material::Wood, Set::empty(), Material::Bush),
        decreases height - dy,
    {
        insert_vegetation_voxel(voxels, x as isize, base_y + dy, z as isize, Material::Wood);
        proof {
            lemma_paint_plant(
                start,
                stem_part(xi, base_y, zi, dy as int),
                Material::Wood,
                Set::empty(),
                Material::Bush,
                voxel_in_world(xi, (base_y + dy) as u32, zi),
            );
            lemma_stem_step(xi, base_y, zi, dy as int);
        }
        dy = dy + 1;
    }
    let ghost stem = stem_part(xi, base_y, zi, height as int);
    assert(arms_part(xi, base_y, zi, 0, 1) =~= Set::empty());
    assert(stem.union(Set::empty()) =~= stem);
    let mut arm: u32 = 0;
    while arm < 4
        invariant
            voxels.wf(),
            x <= 0xff_0000,
            z <= 0xff_0000,
            base_y <= u32::MAX - 128,
            xi == x,
            zi == z,
            arm <= 4,
            voxels@ == plant(
                start,
                stem.union(arms_part(xi, base_y, zi, arm as int, 1)),
                Material::Wood,
                Set::empty(),
                Material::Bush,
            ),
        decreases 4 - arm,
    {
        let d = arm_direction_of(arm);
        let mut step: isize = 1;
        while step <= 3
            invariant
                voxels.wf(),
                x <= 0xff_0000,
                z <= 0xff_0000,
                base_y <= u32::MAX - 128,
                xi == x,
                zi == z,
                arm < 4,
                d.0 == arm_direction(arm as int).0,
                d.1 == arm_direction(arm as int).1,
                -1 <= d.0 <= 1,
                -1 <= d.1 <= 1,
                1 <= step <= 4,
                voxels@ == plant(
                    start,
                    stem.union(arms_part(xi, base_y, zi, arm as int, step as int)),
                    Material::Wood,
                    Set::empty(),
                    Material::Bush,
                ),
            decreases 4 - step,
        {
            assert(-3 <= d.0 * step <= 3 && -3 <= d.1 * step <= 3) by (nonlinear_arith)
                requires
                    -1 <= d.0 <= 1,
                    -1 <= d.1 <= 1,
                    1 <= step <= 3,
            ;
            insert_vegetation_voxel(
                voxels,
                x as isize + d.0 * step,
                base_y + 2 + step as u32 / 2,
                z as isize + d.1 * step,
                Material::Wood,
            );
            proof {
                let part = arms_part(xi, base_y, zi, arm as int, step as int);
                let p = arm_point(xi, base_y, zi, arm as int, step as int);
                let single = voxel_in_world(p.0, p.1 as u32, p.2);
                lemma_paint_plant(start, stem.union(part), Material::Wood, Set::empty(), Material::Bush, single);
                lemma_arm_step(xi, base_y, zi, arm as int, step as int);
                assert(stem.union(part).union(single) =~= stem.union(
                    arms_part(xi, base_y, zi, arm as int, step + 1),
                ));
            }
            step = step + 1;
        }
        proof {
            lemma_arm_next(xi, base_y, zi, arm as int);
        }
        arm = arm + 1;
    }
    proof {
        lemma_low_bits(hash >> 15u32);
    }
    add_bush_cluster(seed, x as isize, base_y + 4, z as isize, 5 + ((hash >> 15) & 1) as isize, 4, voxels);
    proof {
        lemma_fill_plant(
            start,
            bush_wood(xi, base_y, zi, hash),
            Material::Wood,
            Set::empty(),
            Material::Bush,
            bush_leaves(seed, xi, base_y, zi, hash),
        );
        assert(Set::<(u32, u32, u32)>::empty().union(bush_leaves(seed, xi, base_y, zi, hash)) =~= bush_leaves(
            seed,
            xi,
            base_y,
            zi,
            hash,
        ));
    }
}

/// Height of a flower's stem: 5 to 8 voxels.
pub open spec fn flower_stem_height(hash: u32) -> int {
    5 + ((hash >> 8u32) & 3)
}

/// The side on which a flower grows its first leaf: +x or -x.
pub open spec fn leaf_side(hash: u32) -> int {
    if hash & 0x400 == 0 {
        1
    } else {
        -1
    }
}

/// The stem voxels of a flower: the stem itself and two leaves beside it.
pub open spec fn flower_stems(x: int, base_y: u32, z: int, hash: u32) -> Set<(u32, u32, u32)> {
    stem_part(x, base_y, z, flower_stem_height(hash)).union(
        voxel_in_world(x + leaf_side(hash), (base_y + 2) as u32, z),
    ).union(voxel_in_world(x, (base_y + 3) as u32, z - leaf_side(hash)))
}

/// The petal colour of a flower.
pub open spec fn petal_material(hash: u32) -> Material {
    if hash & 0x1000 == 0 {
        Material::FlowerRed
    } else {
        Material::FlowerYellow
    }
}

/// The colour of a flower's centre: yellow in a red flower, wood in a yellow one.
pub open spec fn center_material(hash: u32) -> Material {
    if petal_material(hash) == Material::FlowerRed {
        Material::FlowerYellow
    } else {
        Material::Wood
    }
}

/// The eight petal offsets around a flower's centre.
pub open spec fn petal_offset(i: int) -> (int, int) {
    if i == 0 {
        (1, 0)
    } else if i == 1 {
        (-1, 0)
    } else if i == 2 {
        (0, 1)
    } else if i == 3 {
        (0, -1)
    } else if i == 4 {
        (1, 1)
    } else if i == 5 {
        (1, -1)
    } else if i == 6 {
        (-1, 1)
    } else {
        (-1, -1)
    }
}

fn petal_offset_of(i: u32) -> (d: (isize, isize))
    requires
        i < 8,
    ensures
        d.0 == petal_offset(i as int).0,
        d.1 == petal_offset(i as int).1,
{
    match i {
        0 => (1, 0),
        1 => (-1, 0),
        2 => (0, 1),
        3 => (0, -1),
        4 => (1, 1),
        5 => (1, -1),
        6 => (-1, 1),
        _ => (-1, -1),
    }
}

/// The in-world voxels of the first `n` petals around `(x, y, z)`.
pub open spec fn petals(x: int, y: u32, z: int, n: int) -> Set<(u32, u32, u32)> {
    Set::new(
        |t: (u32, u32, u32)|
            in_world(t.0 as int, t.2 as int) && t.1 == y && exists|i: int|
                #![trigger petal_offset(i)]
                0 <= i < n && t.0 == x + petal_offset(i).0 && t.2 == z + petal_offset(i).1,
    )
}

/// The voxel map after a flower grows into `m`: its stems, then its centre, then
/// its petals, each replacing what was there.
pub open spec fn flower_grown(m: Map<(u32, u32, u32), Material>, x: int, base_y: u32, z: int, hash: u32) -> Map<
    (u32, u32, u32),
    Material,
> {
    let y = (base_y + flower_stem_height(hash)) as u32;
    paint(
        paint(paint(m, flower_stems(x, base_y, z, hash), Material::Stem), voxel_in_world(x, y, z), center_material(hash)),
        petals(x, y, z, 8),
        petal_material(hash),
    )
}

proof fn lemma_petal_step(x: int, y: u32, z: int, n: int)
    requires
        0 <= n,
    ensures
        petals(x, y, z, n + 1) == petals(x, y, z, n).union(
            voxel_in_world(x + petal_offset(n).0, y, z + petal_offset(n).1),
        ),
{
    let next = petals(x, y, z, n + 1);
    let cur = petals(x, y, z, n);
    let single = voxel_in_world(x + petal_offset(n).0, y, z + petal_offset(n).1);
    assert forall|t: (u32, u32, u32)| #[trigger] next.contains(t) <==> cur.union(single).contains(t) by {
        if next.contains(t) {
            let i = choose|i: int|
                #![trigger petal_offset(i)]
                0 <= i < n + 1 && t.0 == x + petal_offset(i).0 && t.2 == z + petal_offset(i).1;
            if i < n {
                assert(cur.contains(t));
            } else {
                assert(single.contains(t));
            }
        }
        if cur.contains(t) {
            let i = choose|i: int|
                #![trigger petal_offset(i)]
                0 <= i < n && t.0 == x + petal_offset(i).0 && t.2 == z + petal_offset(i).1;
            assert(next.contains(t));
        }
        if single.contains(t) {
            assert(petal_offset(n) == petal_offset(n));
            assert(next.contains(t));
        }
    }
    assert(next =~= cur.union(single));
}

/// Grows a flower rooted at `(x, base_y, z)`: a stem with two leaves, and on top
/// a centre ringed by eight petals.
pub fn generate_flower(x: u32, base_y: u32, z: u32, hash: u32, voxels: &mut VegetationVoxels)
    requires
        old(voxels).wf(),
        x <= 0xff_0000,
        z <= 0xff_0000,
        base_y <= u32::MAX - 128,
    ensures
        final(voxels).wf(),
        final(voxels)@ == flower_grown(old(voxels)@, x as int, base_y, z as int, hash),
{
    let ghost start = voxels@;
    let ghost (xi, zi) = (x as int, z as int);
    proof {
        lemma_low_bits(hash >> 8u32);
    }
    let stem_height: u32 = 5 + ((hash >> 8) & 3);
    let mut dy: u32 = 0;
    assert(stem_part(xi, base_y, zi, 0) =~= Set::empty());
    assert(paint(start, Set::empty(), Material::Stem) =~= start);
    while dy < stem_height
        invariant
            voxels.wf(),
            x <= 0xff_0000,
            z <= 0xff_0000,
            base_y <= u32::MAX - 128,
            xi == x,
            zi == z,
            stem_height == flower_stem_height(hash),
            5 <= stem_height <= 8,
            dy <= stem_height,
            voxels@ == paint(start, stem_part(xi, base_y, zi, dy as int), Material::Stem),
        decreases stem_height - dy,
    {
        insert_vegetation_voxel(voxels, x as isize, base_y + dy, z as isize, Material::Stem);
        proof {
            lemma_paint_paint(
                start,
                stem_part(xi, base_y, zi, dy as int),
                voxel_in_world(xi, (base_y + dy) as u32, zi),
                Material::Stem,
            );
            lemma_stem_step(xi, base_y, zi, dy as int);
        }
        dy = dy + 1;
    }
    let leaf_direction: isize = if hash & 0x400 == 0 {
        1
    } else {
        -1
    };
    insert_vegetation_voxel(voxels, x as isize + leaf_direction, base_y + 2, z as isize, Material::Stem);
    insert_vegetation_voxel(voxels, x as isize, base_y + 3, z as isize - leaf_direction, Material::Stem);
    proof {
        let stem = stem_part(xi, base_y, zi, stem_height as int);
        let first = voxel_in_world(xi + leaf_side(hash), (base_y + 2) as u32, zi);
        let second = voxel_in_world(xi, (base_y + 3) as u32, zi - leaf_side(hash));
        lemma_paint_paint(start, stem, first, Material::Stem);
        lemma_paint_paint(start, stem.union(first), second, Material::Stem);
    }
    let flower_y = base_y + stem_height;
    let petals_material = if hash & 0x1000 == 0 {
        Material::FlowerRed
    } else {
        Material::FlowerYellow
    };
    let center = match petals_material {
        Material::FlowerRed => Material::FlowerYellow,
        _ => Material::Wood,
    };
    insert_vegetation_voxel(voxels, x as isize, flower_y, z as isize, center);
    let ghost centred = voxels@;
    let mut i: u32 = 0;
    assert(petals(xi, flower_y, zi, 0) =~= Set::empty());
    assert(paint(centred, Set::empty(), petals_material) =~= centred);
    while i < 8
        invariant
            voxels.wf(),
            x <= 0xff_0000,
            z <= 0xff_0000,
            xi == x,
            zi == z,
            i <= 8,
            voxels@ == paint(centred, petals(xi, flower_y, zi, i as int), petals_material),
        decreases 8 - i,
    {
        let offset = petal_offset_of(i);
        insert_vegetation_voxel(voxels, x as isize + offset.0, flower_y, z as isize + offset.1, petals_material);
        proof {
            lemma_paint_paint(
                centred,
                petals(xi, flower_y, zi, i as int),
                voxel_in_world(xi + petal_offset(i as int).0, flower_y, zi + petal_offset(i as int).1),
                petals_material,
            );
            lemma_petal_step(xi, flower_y, zi, i as int);
        }
        i = i + 1;
    }
}

/// The quads of a tuft of tall grass `height` voxels high on `(x, y, z)`: four
/// sides, then a top.
pub open spec fn tall_grass_quads(x: u32, y: u32, z: u32, height: nat) -> Seq<Quad> {
    seq![
        quad_of(x, y, z, Face::Front, 1, height, Material::TallGrass),
        quad_of(x, y, z, Face::Back, 1, height, Material::TallGrass),
        quad_of(x, y, z, Face::Right, 1, height, Material::TallGrass),
        quad_of(x, y, z, Face::Left, 1, height, Material::TallGrass),
        quad_of(x, (y + height - 1) as u32, z, Face::Up, 1, 1, Material::TallGrass),
    ]
}

/// Pushes the quads of a tuft of tall grass.
pub fn push_tall_grass(x: u32, y: u32, z: u32, height: usize, quads: &mut Vec<Quad>)
    requires
        1 <= height <= 512,
        y + height <= u32::MAX,
    ensures
        final(quads)@ == old(quads)@ + tall_grass_quads(x, y, z, height as nat),
{
    quads.push(pack_quad(x, y, z, Face::Front, 1, height, Material::TallGrass));
    quads.push(pack_quad(x, y, z, Face::Back, 1, height, Material::TallGrass));
    quads.push(pack_quad(x, y, z, Face::Right, 1, height, Material::TallGrass));
    quads.push(pack_quad(x, y, z, Face::Left, 1, height, Material::TallGrass));
    quads.push(pack_quad(x, y + height as u32 - 1, z, Face::Up, 1, 1, Material::TallGrass));
    assert(final(quads)@ =~= old(quads)@ + tall_grass_quads(x, y, z, height as nat));
}

/// The vegetation hash of a column picks a tree.
pub open spec fn grows_tree(hash: u32, slope: u32) -> bool {
    hash % 4096 == 17 && slope <= 2
}

/// The vegetation hash of a column picks a bush.
pub open spec fn grows_bush(hash: u32, slope: u32) -> bool {
    !grows_tree(hash, slope) && hash % 512 == 33 && slope <= 2
}

/// The vegetation hash of a column picks a flower.
pub open spec fn grows_flower(hash: u32, slope: u32) -> bool {
    !grows_tree(hash, slope) && !grows_bush(hash, slope) && hash % 128 == 7 && slope <= 3
}

/// The vegetation hash of a column picks tall grass.
pub open spec fn grows_grass(hash: u32, slope: u32) -> bool {
    !grows_tree(hash, slope) && !grows_bush(hash, slope) && !grows_flower(hash, slope) && hash % 32 == 0
}

/// The voxel map after the vegetation of the grass column `(x, z)` with surface
/// `ground_y` and the given slope grows into `m`.
pub closed spec fn vegetation_grown(
    m: Map<(u32, u32, u32), Material>,
    seed: u32,
    x: u32,
    ground_y: u32,
    z: u32,
    slope: u32,
) -> Map<(u32, u32, u32), Material> {
    let hash = vegetation_hash_spec(seed, x, z);
    let base_y = (ground_y + 1) as u32;
    if grows_tree(hash, slope) {
        plant(
            m,
            tree_wood(x as int, base_y, z as int, hash),
            Material::Wood,
            tree_leaves(seed, x as int, base_y, z as int, hash),
            Material::Leaves,
        )
    } else if grows_bush(hash, slope) {
        plant(
            m,
            bush_wood(x as int, base_y, z as int, hash),
            Material::Wood,
            bush_leaves(seed, x as int, base_y, z as int, hash),
            Material::Bush,
        )
    } else if grows_flower(hash, slope) {
        flower_grown(m, x as int, base_y, z as int, hash)
    } else {
        m
    }
}

/// The quads that the vegetation of a grass column adds directly: tall grass, 3 or
/// 4 voxels high, when it grows there.
pub closed spec fn vegetation_quads(seed: u32, x: u32, ground_y: u32, z: u32, slope: u32) -> Seq<Quad> {
    let hash = vegetation_hash_spec(seed, x, z);
    if grows_grass(hash, slope) {
        tall_grass_quads(x, (ground_y + 1) as u32, z, (3 + ((hash >> 8u32) & 1)) as nat)
    } else {
        Seq::empty()
    }
}

impl WorldGenerator {
    /// Grows the vegetation of the grass column `(x, z)` whose surface is
    /// `ground_y`: by the column's vegetation hash, a tree or a bush where the
    /// slope is at most 2, a flower where it is at most 3, or else perhaps a tuft of
    /// tall grass.
    pub fn generate_vegetation(
        &self,
        x: u32,
        ground_y: u32,
        z: u32,
        slope: u32,
        voxels: &mut VegetationVoxels,
        quads: &mut Vec<Quad>,
    )
        requires
            old(voxels).wf(),
            x <= 0xff_0000,
            z <= 0xff_0000,
            ground_y < u32::MAX - 128,
        ensures
            final(voxels).wf(),
            final(voxels)@ == vegetation_grown(old(voxels)@, self.seed, x, ground_y, z, slope),
            final(quads)@ == old(quads)@ + vegetation_quads(self.seed, x, ground_y, z, slope),
    {
        let hash = vegetation_hash(self.seed, x, z);
        let base_y = ground_y + 1;
        if hash % 4096 == 17 && slope <= 2 {
            generate_tree(self.seed, x, base_y, z, hash, voxels);
        } else if hash % 512 == 33 && slope <= 2 {
            generate_bush(self.seed, x, base_y, z, hash, voxels);
        } else if hash % 128 == 7 && slope <= 3 {
            generate_flower(x, base_y, z, hash, voxels);
        } else if hash % 32 == 0 {
            proof {
                lemma_low_bits(hash >> 8u32);
            }
            push_tall_grass(x, base_y, z, 3 + ((hash >> 8) & 1) as usize, quads);
        }
        assert(final(quads)@ =~= old(quads)@ + vegetation_quads(self.seed, x, ground_y, z, slope));
    }
}


/// Whether the voxel `t` lies within `e` columns of the column `(x, z)` along both
/// horizontal axes.
pub open spec fn near_column(t: (u32, u32, u32), x: int, z: int, e: int) -> bool {
    -e <= t.0 - x <= e && -e <= t.2 - z <= e
}

proof fn lemma_branch_center_near(x: int, base_y: u32, z: int, hash: u32, b: u32, step: int)
    requires
        1 <= step <= branch_length(hash, b),
    ensures
        -17 <= branch_center(x, base_y, z, hash, b, step).0 - x <= 17,
        -17 <= branch_center(x, base_y, z, hash, b, step).2 - z <= 17,
{
    lemma_low_bits(rotr(hash, (b * 3) as u32) >> 16u32);
    let d = branch_direction(hash, b);
    assert(-1 <= d.0 <= 1 && -1 <= d.1 <= 1);
    assert(-17 <= d.0 * step <= 17 && -17 <= d.1 * step <= 17) by (nonlinear_arith)
        requires
            -1 <= d.0 <= 1,
            -1 <= d.1 <= 1,
            1 <= step <= 17,
    ;
}

proof fn lemma_branches_near(x: int, base_y: u32, z: int, hash: u32, n: nat, t: (u32, u32, u32))
    requires
        branches(x, base_y, z, hash, n).contains(t),
    ensures
        near_column(t, x, z, 19),
        in_world(t.0 as int, t.2 as int),
    decreases n,
{
    if n > 0 {
        let b = (n - 1) as u32;
        if branches(x, base_y, z, hash, (n - 1) as nat).contains(t) {
            lemma_branches_near(x, base_y, z, hash, (n - 1) as nat, t);
        } else {
            let step = choose|step: int|
                #![trigger branch_center(x, base_y, z, hash, b, step)]
                1 <= step < branch_length(hash, b) + 1 && t.1 == branch_center(x, base_y, z, hash, b, step).1
                    && in_disk(
                    t.0 - branch_center(x, base_y, z, hash, b, step).0,
                    t.2 - branch_center(x, base_y, z, hash, b, step).2,
                    branch_radius(step, branch_length(hash, b)),
                );
            lemma_branch_center_near(x, base_y, z, hash, b, step);
        }
    }
}

proof fn lemma_branch_leaves_near(seed: u32, x: int, base_y: u32, z: int, hash: u32, n: nat, t: (u32, u32, u32))
    requires
        branch_leaves(seed, x, base_y, z, hash, n).contains(t),
    ensures
        near_column(t, x, z, 27),
        in_world(t.0 as int, t.2 as int),
    decreases n,
{
    if n > 0 {
        let b = (n - 1) as u32;
        if branch_leaves(seed, x, base_y, z, hash, (n - 1) as nat).contains(t) {
            lemma_branch_leaves_near(seed, x, base_y, z, hash, (n - 1) as nat, t);
        } else {
            lemma_low_bits(rotr(hash, (b * 3) as u32) >> 16u32);
            lemma_branch_center_near(x, base_y, z, hash, b, branch_length(hash, b));
        }
    }
}

proof fn lemma_roots_near(x: int, base_y: u32, z: int, hash: u32, n: nat, t: (u32, u32, u32))
    requires
        roots(x, base_y, z, hash, n).contains(t),
    ensures
        near_column(t, x, z, 10),
        in_world(t.0 as int, t.2 as int),
    decreases n,
{
    if n > 0 {
        let i = (n - 1) as u32;
        if roots(x, base_y, z, hash, (n - 1) as nat).contains(t) {
            lemma_roots_near(x, base_y, z, hash, (n - 1) as nat, t);
        } else {
            lemma_low_bits(rotr(hash, (i * 5) as u32) >> 24u32);
            let step = choose|step: int|
                #![trigger root_point(x, z, i, step)]
                1 <= step < root_length(hash, i) + 1 && t.0 == root_point(x, z, i, step).0 && t.2 == root_point(
                    x,
                    z,
                    i,
                    step,
                ).1;
            let d = direction(2 * i);
            assert(-1 <= d.0 <= 1 && -1 <= d.1 <= 1);
            assert(-10 <= d.0 * step <= 10 && -10 <= d.1 * step <= 10) by (nonlinear_arith)
                requires
                    -1 <= d.0 <= 1,
                    -1 <= d.1 <= 1,
                    1 <= step <= 10,
            ;
        }
    }
}

/// Every voxel of a tree lies in the world, within the tree extent of its root column.
pub(crate) proof fn lemma_tree_near(seed: u32, x: int, base_y: u32, z: int, hash: u32, t: (u32, u32, u32))
    requires
        tree_wood(x, base_y, z, hash).contains(t) || tree_leaves(seed, x, base_y, z, hash).contains(t),
    ensures
        near_column(t, x, z, TREE_HORIZONTAL_EXTENT as int),
        in_world(t.0 as int, t.2 as int),
{
    reveal(tree_wood);
    reveal(tree_leaves);
    if branches(x, base_y, z, hash, 8).contains(t) {
        lemma_branches_near(x, base_y, z, hash, 8, t);
    } else if roots(x, base_y, z, hash, 4).contains(t) {
        lemma_roots_near(x, base_y, z, hash, 4, t);
    } else if branch_leaves(seed, x, base_y, z, hash, 8).contains(t) {
        lemma_branch_leaves_near(seed, x, base_y, z, hash, 8, t);
    }
}

/// Every voxel of a bush lies within six columns of its root column.
proof fn lemma_bush_near(seed: u32, x: int, base_y: u32, z: int, hash: u32, t: (u32, u32, u32))
    requires
        bush_wood(x, base_y, z, hash).contains(t) || bush_leaves(seed, x, base_y, z, hash).contains(t),
    ensures
        near_column(t, x, z, 6),
{
    lemma_low_bits(hash >> 15u32);
    if arms_part(x, base_y, z, 4, 1).contains(t) {
        let (a, step) = choose|a: int, step: int|
            #![trigger arm_point(x, base_y, z, a, step)]
            0 <= a <= 4 && 1 <= step <= 3 && (a < 4 || step < 1) && t.0 == arm_point(x, base_y, z, a, step).0
                && t.1 == arm_point(x, base_y, z, a, step).1 && t.2 == arm_point(x, base_y, z, a, step).2;
        let d = arm_direction(a);
        assert(-1 <= d.0 <= 1 && -1 <= d.1 <= 1);
        assert(-3 <= d.0 * step <= 3 && -3 <= d.1 * step <= 3) by (nonlinear_arith)
            requires
                -1 <= d.0 <= 1,
                -1 <= d.1 <= 1,
                1 <= step <= 3,
        ;
    }
}

/// Every voxel that a flower grows lies within one column of its root column.
proof fn lemma_flower_near(m: Map<(u32, u32, u32), Material>, x: int, base_y: u32, z: int, hash: u32, t: (u32, u32, u32))
    requires
        flower_grown(m, x, base_y, z, hash).contains_key(t),
    ensures
        m.contains_key(t) || near_column(t, x, z, 1),
{
    let y = (base_y + flower_stem_height(hash)) as u32;
    if petals(x, y, z, 8).contains(t) {
        let i = choose|i: int|
            #![trigger petal_offset(i)]
            0 <= i < 8 && t.0 == x + petal_offset(i).0 && t.2 == z + petal_offset(i).1;
    }
}

/// The vegetation of a grass column adds only voxels within the tree extent of
/// the column.
pub(crate) proof fn lemma_vegetation_near(
    m: Map<(u32, u32, u32), Material>,
    seed: u32,
    x: u32,
    ground_y: u32,
    z: u32,
    slope: u32,
    t: (u32, u32, u32),
)
    requires
        vegetation_grown(m, seed, x, ground_y, z, slope).contains_key(t),
    ensures
        m.contains_key(t) || near_column(t, x as int, z as int, TREE_HORIZONTAL_EXTENT as int),
{
    let hash = vegetation_hash_spec(seed, x, z);
    let base_y = (ground_y + 1) as u32;
    if grows_tree(hash, slope) {
        if !m.contains_key(t) {
            lemma_tree_near(seed, x as int, base_y, z as int, hash, t);
        }
    } else if grows_bush(hash, slope) {
        if !m.contains_key(t) {
            lemma_bush_near(seed, x as int, base_y, z as int, hash, t);
        }
    } else if grows_flower(hash, slope) {
        lemma_flower_near(m, x as int, base_y, z as int, hash, t);
    }
}

} // verus!
