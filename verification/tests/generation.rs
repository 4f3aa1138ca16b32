use poutre::chunk::GeneratedChunk;
use poutre::hashing::vegetation_hash;
use poutre::layout::{CHUNK_SIZE, SEA_LEVEL_VOXELS, WORLD_VOXELS};
use poutre::quad::{pack_quad, Face, Material, Quad};
use poutre::terrain::{surface_depth, ExcavationSphere, HeightGrid, WorldGenerator};
use poutre::vegetation::{mesh_vegetation_voxels, VegetationVoxels};

const EXCAVATION_RADIUS_VOXELS: u32 = 8;

/// A gently rolling grass terrain, zero outside the world as the height field is.
fn terrain_height(x: i64, z: i64) -> u32 {
    if x < 0 || z < 0 || x >= WORLD_VOXELS as i64 || z >= WORLD_VOXELS as i64 {
        return 0;
    }
    200 + ((x / 64 + z / 64) % 2) as u32
}

fn grid(min_x: i64, min_z: i64, step: u32, width: usize, depth: usize) -> HeightGrid {
    let mut heights = Vec::with_capacity(width * depth);
    for j in 0..depth {
        for i in 0..width {
            heights.push(terrain_height(
                min_x + i as i64 * step as i64,
                min_z + j as i64 * step as i64,
            ));
        }
    }
    HeightGrid { min_x, min_z, step, width, depth, heights }
}

/// The grid holding the lattice of a full-detail chunk.
fn chunk_grid(chunk_x: u32, chunk_z: u32) -> HeightGrid {
    grid(
        chunk_x as i64 * CHUNK_SIZE as i64 - 1,
        chunk_z as i64 * CHUNK_SIZE as i64 - 1,
        1,
        CHUNK_SIZE as usize + 2,
        CHUNK_SIZE as usize + 2,
    )
}

/// The grid holding every column within a tree's reach of `(x, z)`.
fn tree_grid(x: u32, z: u32) -> HeightGrid {
    grid(x as i64 - 29, z as i64 - 29, 1, 59, 59)
}

fn material_of(quad: &Quad) -> u32 {
    quad.packed[3] >> 17
}

fn find_tree_root(world: &WorldGenerator) -> (u32, u32) {
    for z in 9_000..10_200_u32 {
        for x in 9_000..10_200_u32 {
            if world.tree_root(&tree_grid(x, z), x, z).is_some() {
                return (x, z);
            }
        }
    }
    panic!("seed should place a tree in the search area");
}

fn generate_full_patch(world: &WorldGenerator, chunk_x: u32, chunk_z: u32) -> GeneratedChunk {
    world.generate_patch(&chunk_grid(chunk_x, chunk_z), chunk_x, chunk_z, 1)
}

#[test]
fn world_is_ten_times_wider_with_tenth_size_voxels() {
    assert_eq!(WORLD_VOXELS, 19_200);
    let world_size = WORLD_VOXELS as f32 * 0.1;
    assert_eq!(world_size, 1_920.0);
}

#[test]
fn chunk_dimensions_and_packing_support_32_voxels() {
    assert_eq!(CHUNK_SIZE, 32);
    let quad = pack_quad(
        0,
        0,
        0,
        Face::Up,
        CHUNK_SIZE as usize,
        CHUNK_SIZE as usize,
        Material::Snow,
    );
    assert_eq!((quad.packed[3] >> 3) & 31, 31);
    assert_eq!((quad.packed[3] >> 8) & 511, 31);
    assert_eq!(quad.packed[3] >> 17, Material::Snow.code());
}

#[test]
fn grass_and_snow_layers_are_three_voxels_deep() {
    assert_eq!(surface_depth(Material::Grass), 3);
    assert_eq!(surface_depth(Material::Snow), 3);
    assert_eq!(surface_depth(Material::Rock), 1);
}

#[test]
fn vegetation_placement_is_seeded() {
    assert_eq!(vegetation_hash(42, 100, 200), vegetation_hash(42, 100, 200));
    assert_ne!(vegetation_hash(42, 100, 200), vegetation_hash(43, 100, 200));
}

#[test]
fn streamed_mesh_contains_small_single_voxel_tops() {
    let world = WorldGenerator::new(42);
    let mesh = generate_full_patch(&world, 300, 300);
    assert_eq!(mesh.heights.len(), (CHUNK_SIZE * CHUNK_SIZE) as usize);
    assert!(mesh.quads.len() >= (CHUNK_SIZE * CHUNK_SIZE) as usize);
    assert!(mesh.quads.iter().all(|quad| quad.packed[0] < WORLD_VOXELS));
}

#[test]
fn procedural_vegetation_generates_every_voxel_material() {
    let world = WorldGenerator::new(42);
    let mut voxels = VegetationVoxels::new();
    let mut quads = Vec::new();
    for z in 100..300 {
        for x in 100..300 {
            world.generate_vegetation(x, SEA_LEVEL_VOXELS, z, 0, &mut voxels, &mut quads);
        }
    }
    mesh_vegetation_voxels(&voxels, &mut quads);

    for material in [
        Material::TallGrass,
        Material::Wood,
        Material::Leaves,
        Material::Bush,
        Material::FlowerRed,
        Material::FlowerYellow,
        Material::Stem,
    ] {
        assert!(
            quads.iter().any(|quad| material_of(quad) == material.code()),
            "missing {material:?} geometry"
        );
    }

    assert!(
        quads
            .iter()
            .filter(|quad| material_of(quad) == Material::Leaves.code())
            .count()
            > 100
    );
    assert!(
        quads
            .iter()
            .filter(|quad| material_of(quad) == Material::FlowerRed.code())
            .count()
            > 8
    );
    assert!(
        quads
            .iter()
            .filter(|quad| material_of(quad) == Material::FlowerYellow.code())
            .count()
            > 8
    );
    assert!(
        quads
            .iter()
            .filter(|quad| material_of(quad) >= Material::Wood.code())
            .all(|quad| ((quad.packed[3] >> 3) & 31) == 0 && ((quad.packed[3] >> 8) & 511) == 0)
    );
}

#[test]
fn generated_world_chunks_include_trees_and_flowers() {
    let world = WorldGenerator::new(42);
    let (tree_x, tree_z) = find_tree_root(&world);
    let mut flower_root = None;

    'search: for z in 9_000..10_200_u32 {
        for x in 9_000..10_200_u32 {
            let height = terrain_height(x as i64, z as i64);
            let slope = [
                terrain_height(x as i64, z as i64 + 1),
                terrain_height(x as i64, z as i64 - 1),
                terrain_height(x as i64 + 1, z as i64),
                terrain_height(x as i64 - 1, z as i64),
            ]
            .into_iter()
            .map(|neighbor| height.abs_diff(neighbor))
            .max()
            .unwrap_or(0);
            let hash = vegetation_hash(world.seed, x, z);
            if hash % 128 == 7 && slope <= 3 {
                flower_root = Some((x, z));
            }
            if flower_root.is_some() {
                break 'search;
            }
        }
    }

    let (tree_base_y, _) = world.tree_root(&tree_grid(tree_x, tree_z), tree_x, tree_z).unwrap();
    let tree_chunk = generate_full_patch(&world, tree_x / CHUNK_SIZE, tree_z / CHUNK_SIZE);
    assert!(tree_chunk.quads.iter().any(|quad| {
        material_of(quad) == Material::Wood.code() || material_of(quad) == Material::Leaves.code()
    }));
    assert!(tree_chunk.quads.iter().any(|quad| quad.packed[1] >= tree_base_y + 60));

    let (flower_x, flower_z) = flower_root.expect("seed should place a flower on grass");
    let flower_chunk = generate_full_patch(&world, flower_x / CHUNK_SIZE, flower_z / CHUNK_SIZE);
    assert!(flower_chunk.quads.iter().any(|quad| {
        material_of(quad) == Material::FlowerRed.code()
            || material_of(quad) == Material::FlowerYellow.code()
    }));
    assert!(flower_chunk
        .quads
        .iter()
        .any(|quad| material_of(quad) == Material::Stem.code()));
}

#[test]
fn tree_voxels_are_authoritative_and_excavatable() {
    let world = WorldGenerator::new(42);
    let (tree_x, tree_z) = find_tree_root(&world);
    let window = tree_grid(tree_x + 3, tree_z);
    let (base_y, _) = world.tree_root(&tree_grid(tree_x, tree_z), tree_x, tree_z).unwrap();
    let target = (tree_x + 3, base_y + 20, tree_z);

    assert_eq!(
        world.tree_material_at(&window, target.0 as isize, target.1, target.2 as isize),
        Some(Material::Wood)
    );
    assert!(world.is_solid(&window, target.0 as isize, target.1 as i64, target.2 as isize));
    let untouched = generate_full_patch(&world, tree_x / CHUNK_SIZE, tree_z / CHUNK_SIZE);
    assert!(untouched.quads.iter().any(|quad| {
        quad.packed[0] == target.0
            && quad.packed[1] == target.1
            && quad.packed[2] == target.2
            && material_of(quad) == Material::Wood.code()
    }));

    let excavated = WorldGenerator::with_excavations(
        42,
        vec![ExcavationSphere {
            x: target.0,
            y: target.1,
            z: target.2,
        }],
    );
    assert!(!excavated.is_solid(&window, target.0 as isize, target.1 as i64, target.2 as isize));
    let modified = generate_full_patch(&excavated, tree_x / CHUNK_SIZE, tree_z / CHUNK_SIZE);
    assert!(!modified.quads.iter().any(|quad| {
        quad.packed[0] == target.0
            && quad.packed[1] == target.1
            && quad.packed[2] == target.2
            && material_of(quad) == Material::Wood.code()
    }));
}

#[test]
fn excavation_lowers_the_surface_and_exposes_cavity_faces() {
    let x: i64 = 9_600;
    let z: i64 = 9_600;
    let surface = terrain_height(x, z);
    let excavated = WorldGenerator::with_excavations(
        42,
        vec![ExcavationSphere {
            x: x as u32,
            y: surface,
            z: z as u32,
        }],
    );
    let chunk = generate_full_patch(&excavated, x as u32 / CHUNK_SIZE, z as u32 / CHUNK_SIZE);
    let local = x as usize % CHUNK_SIZE as usize + (z as usize % CHUNK_SIZE as usize) * CHUNK_SIZE as usize;

    assert!(chunk.heights[local] < surface as u16);
    assert!(chunk.quads.iter().any(|quad| {
        quad.packed[0] == x as u32 && quad.packed[2] == z as u32 && quad.packed[1] < surface
    }));
}

#[test]
fn excavation_meshes_the_solid_halo_around_the_cavity() {
    let x: i64 = 9_600;
    let z: i64 = 9_600;
    let y = terrain_height(x + 9, z).saturating_sub(20);
    let excavated = WorldGenerator::with_excavations(
        42,
        vec![ExcavationSphere {
            x: x as u32,
            y,
            z: z as u32,
        }],
    );
    let chunk = generate_full_patch(&excavated, x as u32 / CHUNK_SIZE, z as u32 / CHUNK_SIZE);

    assert!(chunk.quads.iter().any(|quad| {
        quad.packed[0] == x as u32 + EXCAVATION_RADIUS_VOXELS + 1
            && quad.packed[1] == y
            && quad.packed[2] == z as u32
            && quad.packed[3] & 7 == Face::Left.code()
    }));
}

#[test]
fn excavation_leaves_chunks_beyond_the_regenerated_range_unchanged() {
    let x: u32 = 9_600;
    let z: u32 = 9_600;
    let surface = terrain_height(x as i64, z as i64);
    let untouched = WorldGenerator::new(42);
    let excavated = WorldGenerator::with_excavations(42, vec![ExcavationSphere { x, y: surface, z }]);
    let sorted = |quads: &[Quad]| {
        let mut packed: Vec<[u32; 4]> = quads.iter().map(|quad| quad.packed).collect();
        packed.sort_unstable();
        packed
    };
    // The regenerated range around (9600, 9600) is chunks 298..=301 on each axis.
    for (chunk_x, chunk_z) in [(302, 300), (300, 297), (297, 297)] {
        let before = generate_full_patch(&untouched, chunk_x, chunk_z);
        let after = generate_full_patch(&excavated, chunk_x, chunk_z);
        assert_eq!(sorted(&before.quads), sorted(&after.quads));
        assert_eq!(sorted(&before.water_quads), sorted(&after.water_quads));
        assert_eq!(before.heights, after.heights);
    }
    let before = generate_full_patch(&untouched, 300, 300);
    let after = generate_full_patch(&excavated, 300, 300);
    assert_ne!(sorted(&before.quads), sorted(&after.quads));
}
