use poutre::client::{mesh_request_due, quad_buffer_capacity, transform_send_due};
use poutre::tiles::{chunk_id, decode_chunk_id, desired_chunk_ids, stream_center_chunk};
use poutre::world::World;

const CHUNK_COLUMNS: usize = 32 * 32;

/// The chunk the spawn position (the world's centre) stands in.
const SPAWN_CHUNK: i64 = 300;

#[test]
fn desired_chunks_are_nearest_first_and_use_distance_lod() {
    let (center_x, center_z) = stream_center_chunk(SPAWN_CHUNK, SPAWN_CHUNK);
    let ids = desired_chunk_ids(center_x, center_z);
    assert!(ids.len() > 1_000);
    assert!(ids.len() < 5_000);
    assert_eq!(decode_chunk_id(ids[0]).unwrap().2, 1);
    assert!(ids.iter().any(|id| decode_chunk_id(*id).unwrap().2 == 16));
}

#[test]
fn streamed_heights_drive_collision_height() {
    let mut world = World::new();
    world.insert_chunk(chunk_id(0, 0, 1), 0, 0, vec![149; CHUNK_COLUMNS], vec![], vec![]);
    // The column under (0.1, 0.1) in world units is voxel (1, 1); its top is one
    // voxel above the stored height, a tenth of a unit per voxel.
    let height = world.height_at_voxel(1, 1).unwrap();
    assert_eq!((height as f32 + 1.0) * 0.1, 15.0);
}

#[test]
fn loaded_parent_patch_fills_missing_finer_tiles() {
    let (center_x, center_z) = stream_center_chunk(SPAWN_CHUNK, SPAWN_CHUNK);
    let parent_x = (center_x as u32 / 16) * 16;
    let parent_z = (center_z as u32 / 16) * 16;
    let mut world = World::new();
    world.insert_chunk(
        chunk_id(parent_x, parent_z, 16),
        parent_x,
        parent_z,
        Vec::new(),
        vec![0, 0, 0, 0],
        Vec::new(),
    );

    assert_eq!(world.mesh_request(center_x, center_z).build().chunk_count, 1);
}

#[test]
fn tree_quads_are_indexed_as_solid_world_voxels() {
    let mut world = World::new();
    world.insert_chunk(
        chunk_id(0, 0, 1),
        0,
        0,
        vec![20; CHUNK_COLUMNS],
        vec![10, 30, 30, 3 | (9 << 17)],
        Vec::new(),
    );

    // The box from (0.95, 2.95, 2.95) to (1.15, 3.15, 3.15) covers voxels 9..=11
    // along x and 29..=31 along y and z.
    assert!(world.intersects_solid_voxels(9, 11, 29, 31, 29, 31));
    let top = world.highest_solid_layer(9, 11, 29, 31, 29, 31).unwrap();
    assert_eq!((top + 1) as f32 * 0.1, 3.1000001);
    let bottom = world.lowest_solid_layer(9, 11, 29, 31, 29, 31).unwrap();
    assert_eq!(bottom as f32 * 0.1, 3.0);
}

#[test]
fn replacing_a_chunk_removes_its_old_tree_collision() {
    let mut world = World::new();
    let id = chunk_id(0, 0, 1);
    world.insert_chunk(
        id,
        0,
        0,
        vec![20; CHUNK_COLUMNS],
        vec![10, 30, 30, 3 | (10 << 17)],
        Vec::new(),
    );
    world.insert_chunk(id, 0, 0, vec![20; CHUNK_COLUMNS], Vec::new(), Vec::new());

    assert!(!world.intersects_solid_voxels(9, 11, 29, 31, 29, 31));
}

#[test]
fn inserting_an_accepted_chunk_bumps_the_revision_and_a_malformed_one_does_not() {
    let mut world = World::new();
    let before = world.revision();
    world.insert_chunk(chunk_id(0, 0, 1), 0, 0, vec![20; CHUNK_COLUMNS], vec![1, 2, 3, 0], Vec::new());
    assert_eq!(world.revision(), before + 1);
    // Quad words that are not a multiple of four are refused.
    world.insert_chunk(chunk_id(1, 0, 1), 1, 0, vec![20; CHUNK_COLUMNS], vec![1, 2, 3], Vec::new());
    assert_eq!(world.revision(), before + 1);
    assert_eq!(world.height_at_voxel(40, 0), None);
}

#[test]
fn collision_index_holds_only_wood_and_leaves() {
    let mut world = World::new();
    world.insert_chunk(
        chunk_id(0, 0, 1),
        0,
        0,
        vec![20; CHUNK_COLUMNS],
        vec![5, 5, 5, 1 << 17, 6, 6, 6, 10 << 17, 7, 7, 7, 11 << 17],
        Vec::new(),
    );
    // Rock at (5, 5, 5) and bush at (7, 7, 7) do not block; leaves at (6, 6, 6) do.
    assert!(!world.intersects_solid_voxels(5, 5, 5, 5, 5, 5));
    assert!(world.intersects_solid_voxels(6, 6, 6, 6, 6, 6));
    assert!(!world.intersects_solid_voxels(7, 7, 7, 7, 7, 7));
}

#[test]
fn mesh_of_loaded_chunks_carries_their_quads() {
    let (center_x, center_z) = stream_center_chunk(SPAWN_CHUNK, SPAWN_CHUNK);
    let mut world = World::new();
    let x = center_x as u32;
    let z = center_z as u32;
    world.insert_chunk(
        chunk_id(x, z, 1),
        x,
        z,
        Vec::new(),
        vec![x * 32, 200, z * 32, 0],
        vec![x * 32, 139, z * 32, 3 << 17],
    );
    let mesh = world.mesh_request(center_x, center_z).build();
    assert_eq!(mesh.chunk_count, 1);
    assert_eq!(mesh.quads.len(), 1);
    assert_eq!(mesh.quads[0].packed, [x * 32, 200, z * 32, 0]);
    assert_eq!(mesh.water_quads[0].packed, [x * 32, 139, z * 32, 3 << 17]);
}

#[test]
fn mesh_requests_follow_the_camera_and_throttle_store_changes() {
    assert!(mesh_request_due(true, false, 5, 0));
    assert!(!mesh_request_due(false, false, 0, 10_000));
    assert!(!mesh_request_due(false, true, 3, 249));
    assert!(mesh_request_due(false, true, 3, 250));
    assert!(mesh_request_due(false, true, 0, 0));
}

#[test]
fn quad_buffers_grow_to_powers_of_two() {
    assert_eq!(quad_buffer_capacity(64, 10), 64);
    assert_eq!(quad_buffer_capacity(64, 65), 128);
    assert_eq!(quad_buffer_capacity(0, 1), 1);
    assert_eq!(quad_buffer_capacity(100, 1000), 1024);
}

#[test]
fn transforms_are_sent_at_most_every_fifty_milliseconds_and_only_when_changed() {
    assert!(transform_send_due(None, false));
    assert!(transform_send_due(None, true));
    assert!(!transform_send_due(Some(49), true));
    assert!(transform_send_due(Some(50), true));
    assert!(!transform_send_due(Some(10_000), false));
}

#[test]
fn desired_tiles_cover_each_nearby_chunk_exactly_once() {
    for (chunk_x, chunk_z) in [(SPAWN_CHUNK, SPAWN_CHUNK), (3, 590), (599, 0)] {
        let (center_x, center_z) = stream_center_chunk(chunk_x, chunk_z);
        let mut covering = vec![0_u32; 600 * 600];
        for id in desired_chunk_ids(center_x, center_z) {
            let (x, z, lod) = decode_chunk_id(id).unwrap();
            for b in z..(z + lod as u32).min(600) {
                for a in x..(x + lod as u32).min(600) {
                    covering[a as usize + 600 * b as usize] += 1;
                }
            }
        }
        for b in 0..600_i64 {
            for a in 0..600_i64 {
                let count = covering[a as usize + 600 * b as usize];
                assert!(count <= 1);
                if (a - center_x).abs().max((b - center_z).abs()) <= 160 {
                    assert_eq!(count, 1, "chunk ({a}, {b}) around ({center_x}, {center_z})");
                }
            }
        }
    }
}
