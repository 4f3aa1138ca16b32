use poutre::clouds::push_cloud_box;
use poutre::layout::CHUNK_SIZE;
use poutre::plants::{generate_bush, generate_flower, push_tall_grass};
use poutre::quad::{Face, Material, Quad};
use poutre::terrain::{HeightGrid, WorldGenerator};
use poutre::vegetation::{
    add_leaf_cluster, insert_vegetation_voxel, insert_vegetation_voxel_if_empty, mesh_vegetation_voxels,
    VegetationVoxels,
};

fn material_of(quad: &Quad) -> u32 {
    quad.packed[3] >> 17
}

fn face_of(quad: &Quad) -> u32 {
    quad.packed[3] & 7
}

fn width_of(quad: &Quad) -> u32 {
    ((quad.packed[3] >> 3) & 31) + 1
}

fn height_of(quad: &Quad) -> u32 {
    ((quad.packed[3] >> 8) & 511) + 1
}

/// A chunk lattice at the given step whose heights come from `height`.
fn lattice(chunk_x: u32, chunk_z: u32, lod: u32, height: impl Fn(i64, i64) -> u32) -> HeightGrid {
    let samples = (CHUNK_SIZE / lod) as usize + 2;
    let min_x = chunk_x as i64 * CHUNK_SIZE as i64 - lod as i64;
    let min_z = chunk_z as i64 * CHUNK_SIZE as i64 - lod as i64;
    let mut heights = Vec::new();
    for j in 0..samples {
        for i in 0..samples {
            heights.push(height(min_x + i as i64 * lod as i64, min_z + j as i64 * lod as i64));
        }
    }
    HeightGrid { min_x, min_z, step: lod, width: samples, depth: samples, heights }
}

#[test]
fn cloud_boxes_have_six_faces_inside_the_world() {
    let mut quads = Vec::new();
    push_cloud_box(&mut quads, 100, 500, 200, 24, 5);
    assert_eq!(quads.len(), 6);
    assert_eq!(quads[0].packed[1], 504);
    assert_eq!(face_of(&quads[0]), Face::Up.code());
    assert_eq!((width_of(&quads[0]), height_of(&quads[0])), (24, 24));
    assert_eq!((width_of(&quads[2]), height_of(&quads[2])), (24, 5));
    assert!(quads.iter().all(|quad| material_of(quad) == Material::Cloud.code()));

    push_cloud_box(&mut quads, 19_176, 500, 200, 24, 5);
    push_cloud_box(&mut quads, -1, 500, 200, 24, 5);
    assert_eq!(quads.len(), 6);
}

#[test]
fn only_the_first_chunk_of_a_cloud_cell_carries_a_cloud() {
    let world = WorldGenerator::new(42);
    let mut quads = Vec::new();
    world.mesh_cloud_for_chunk(1, 8, &mut quads);
    world.mesh_cloud_for_chunk(8, 3, &mut quads);
    assert!(quads.is_empty());
}

#[test]
fn clouds_of_chunks_far_past_the_world_have_no_faces() {
    let world = WorldGenerator::new(42);
    let mut quads = Vec::new();
    for cell in 0..64 {
        world.mesh_cloud_for_chunk(0x4_0000 + 8 * cell, 0, &mut quads);
        world.mesh_cloud_for_chunk(0, u32::MAX - 7 - 8 * cell, &mut quads);
    }
    assert!(quads.is_empty());
}

#[test]
fn tall_grass_has_four_sides_and_a_top() {
    let mut quads = Vec::new();
    push_tall_grass(7, 150, 9, 4, &mut quads);
    assert_eq!(quads.len(), 5);
    assert!(quads[..4].iter().all(|quad| height_of(quad) == 4 && quad.packed[1] == 150));
    assert_eq!(quads[4].packed[1], 153);
    assert_eq!(face_of(&quads[4]), Face::Up.code());
}

#[test]
fn vegetation_voxels_stay_inside_the_world_and_keep_what_they_find() {
    let mut voxels = VegetationVoxels::new();
    insert_vegetation_voxel(&mut voxels, -1, 10, 5, Material::Wood);
    insert_vegetation_voxel(&mut voxels, 5, 10, 19_200, Material::Wood);
    assert!(!voxels.contains(5, 10, 19_200));
    insert_vegetation_voxel(&mut voxels, 5, 10, 5, Material::Wood);
    insert_vegetation_voxel_if_empty(&mut voxels, 5, 10, 5, Material::Leaves);
    assert_eq!(voxels.material(5, 10, 5), Material::Wood);
    insert_vegetation_voxel(&mut voxels, 5, 10, 5, Material::Stem);
    assert_eq!(voxels.material(5, 10, 5), Material::Stem);
}

#[test]
fn adjacent_vegetation_voxels_hide_their_shared_faces() {
    let mut voxels = VegetationVoxels::new();
    insert_vegetation_voxel(&mut voxels, 5, 10, 5, Material::Wood);
    insert_vegetation_voxel(&mut voxels, 6, 10, 5, Material::Leaves);
    let mut quads = Vec::new();
    mesh_vegetation_voxels(&voxels, &mut quads);
    assert_eq!(quads.len(), 10);
    assert!(!quads
        .iter()
        .any(|quad| quad.packed[0] == 5 && face_of(quad) == Face::Right.code()));
    assert!(quads.iter().all(|quad| width_of(quad) == 1 && height_of(quad) == 1));
}

#[test]
fn flowers_have_a_stem_leaves_a_centre_and_petals() {
    let mut voxels = VegetationVoxels::new();
    // Stem height 5 + ((hash >> 8) & 3); leaf toward +x; red petals, yellow centre.
    let hash: u32 = 0x0000_0200;
    generate_flower(100, 50, 100, hash, &mut voxels);
    let stem_height = 5 + ((hash >> 8) & 3);
    for dy in 0..stem_height {
        assert_eq!(voxels.material(100, 50 + dy, 100), Material::Stem);
    }
    assert_eq!(voxels.material(101, 52, 100), Material::Stem);
    assert_eq!(voxels.material(100, 53, 99), Material::Stem);
    assert_eq!(voxels.material(100, 50 + stem_height, 100), Material::FlowerYellow);
    assert_eq!(voxels.material(99, 50 + stem_height, 101), Material::FlowerRed);

    let mut yellow = VegetationVoxels::new();
    generate_flower(100, 50, 100, 0x1400, &mut yellow);
    assert_eq!(yellow.material(100, 55, 100), Material::Wood);
    assert_eq!(yellow.material(101, 55, 99), Material::FlowerYellow);
    assert_eq!(yellow.material(99, 52, 100), Material::Stem);
}

#[test]
fn bushes_have_wood_inside_their_leaves() {
    let mut voxels = VegetationVoxels::new();
    generate_bush(42, 500, 150, 500, 0, &mut voxels);
    for dy in 0..5 {
        assert_eq!(voxels.material(500, 150 + dy, 500), Material::Wood);
    }
    assert_eq!(voxels.material(503, 153, 500), Material::Wood);
    assert_eq!(voxels.material(500, 152, 499), Material::Wood);
    assert_eq!(voxels.material(500, 157, 500), Material::Bush);
    assert!(!voxels.contains(506, 154, 500));
}

#[test]
fn leaf_clusters_fill_their_ellipsoid() {
    let mut voxels = VegetationVoxels::new();
    add_leaf_cluster(42, 1_000, 300, 1_000, 10, 7, 10, &mut voxels);
    assert_eq!(voxels.material(1_000, 300, 1_000), Material::Leaves);
    assert_eq!(voxels.material(1_005, 303, 1_000), Material::Leaves);
    assert!(!voxels.contains(1_011, 300, 1_000));
    assert!(!voxels.contains(1_008, 305, 1_008));
}

#[test]
fn leaf_clusters_far_from_the_world_add_nothing() {
    let mut voxels = VegetationVoxels::new();
    add_leaf_cluster(42, -0x200_0000, 300, 1_000, 10, 7, 10, &mut voxels);
    add_leaf_cluster(42, 1_000, 300, isize::MAX - 20, 15, 11, 15, &mut voxels);
    assert!(voxels.voxel_list().is_empty());
}

#[test]
fn flat_coarse_chunks_are_one_top_per_sample() {
    let world = WorldGenerator::new(42);
    let grid = lattice(1, 1, 2, |_, _| 200);
    let chunk = world.generate_chunk(&grid, 1, 1, 2);
    assert_eq!(chunk.quads.len(), 256);
    assert!(chunk
        .quads
        .iter()
        .all(|quad| face_of(quad) == Face::Up.code() && width_of(quad) == 2 && quad.packed[1] == 200));
    assert!(chunk.water_quads.is_empty());
    assert!(chunk.heights.is_empty());
}

#[test]
fn sea_floor_columns_carry_water() {
    let world = WorldGenerator::new(42);
    let grid = lattice(1, 1, 1, |_, _| 100);
    let chunk = world.generate_chunk(&grid, 1, 1, 1);
    assert_eq!(chunk.quads.len(), 1024);
    assert_eq!(chunk.water_quads.len(), 1024);
    assert!(chunk
        .water_quads
        .iter()
        .all(|quad| quad.packed[1] == 139 && material_of(quad) == Material::Water.code()));
    assert!(chunk.heights.iter().all(|height| *height == 100));
}

#[test]
fn raised_columns_show_rock_below_their_surface_layer() {
    let world = WorldGenerator::new(42);
    // One column raised five voxels above a flat rock plateau.
    let grid = lattice(1, 1, 1, |x, z| if x == 40 && z == 40 { 305 } else { 300 });
    let chunk = world.generate_chunk(&grid, 1, 1, 1);
    let sides: Vec<&Quad> = chunk
        .quads
        .iter()
        .filter(|quad| quad.packed[0] == 40 && quad.packed[2] == 40 && face_of(quad) != Face::Up.code())
        .collect();
    // Rock has a surface layer one voxel deep: four rock sections from 301 to 304,
    // then the top voxel in rock again.
    assert_eq!(sides.len(), 8);
    assert!(sides.iter().all(|quad| material_of(quad) == Material::Rock.code()));
    assert!(sides.iter().any(|quad| quad.packed[1] == 301 && height_of(quad) == 4));
    assert!(sides.iter().any(|quad| quad.packed[1] == 305 && height_of(quad) == 1));
}
