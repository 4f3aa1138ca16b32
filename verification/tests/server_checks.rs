use poutre::server::{
    affected_chunks, check_excavation_center, decode_chunk_id, excavation_spheres, next_revision,
    plan_chunk_request, ChunkIdError, ChunkRange, Excavation, ExcavateError, RequestError,
    CHUNK_GENERATION_VERSION,
};
use poutre::tiles::chunk_id;

#[test]
fn server_decodes_aligned_patches_inside_the_world() {
    assert_eq!(decode_chunk_id(chunk_id(32, 48, 16)), Ok((32, 48, 16)));
    assert_eq!(decode_chunk_id(chunk_id(599, 0, 1)), Ok((599, 0, 1)));
}

#[test]
fn server_refuses_each_kind_of_bad_chunk_id() {
    assert_eq!(decode_chunk_id(1 << 24), Err(ChunkIdError::Malformed));
    assert_eq!(decode_chunk_id(5), Err(ChunkIdError::Malformed));
    assert_eq!(decode_chunk_id((1 << 23) | (5 << 20)), Err(ChunkIdError::InvalidLod));
    assert_eq!(decode_chunk_id(chunk_id(600, 0, 1)), Err(ChunkIdError::OutsideWorld));
    assert_eq!(decode_chunk_id(chunk_id(8, 16, 16)), Err(ChunkIdError::Misaligned));
    assert_eq!(ChunkIdError::InvalidLod.message(), "invalid chunk lod");
}

#[test]
fn requests_hold_between_one_and_sixty_four_chunks() {
    assert_eq!(plan_chunk_request(&vec![], &vec![], 300, 300), Err(RequestError::BadCount));
    let ids = vec![chunk_id(300, 300, 1); 65];
    let revisions = vec![None; 65];
    assert_eq!(plan_chunk_request(&ids, &revisions, 300, 300), Err(RequestError::BadCount));
    assert_eq!(
        RequestError::BadCount.message(),
        "request must contain between 1 and 64 chunks"
    );
}

#[test]
fn requests_skip_current_and_repeated_chunks() {
    let a = chunk_id(300, 300, 1);
    let b = chunk_id(301, 300, 1);
    let c = chunk_id(304, 304, 4);
    let ids = vec![a, b, a, c];
    let revisions = vec![None, Some(CHUNK_GENERATION_VERSION), None, Some(3)];
    let plan = plan_chunk_request(&ids, &revisions, 300, 300).unwrap();
    assert_eq!(plan.len(), 2);
    assert_eq!((plan[0].id, plan[0].chunk_x, plan[0].chunk_z, plan[0].lod), (a, 300, 300, 1));
    assert_eq!((plan[1].id, plan[1].chunk_x, plan[1].chunk_z, plan[1].lod), (c, 304, 304, 4));
}

#[test]
fn requests_refuse_bad_ids_and_far_patches() {
    let far = chunk_id(0, 0, 16);
    assert_eq!(
        plan_chunk_request(&vec![chunk_id(300, 300, 1), far], &vec![None, None], 300, 300),
        Err(RequestError::OutOfRange)
    );
    // The stream radius reaches 176 chunks past the patch.
    assert!(plan_chunk_request(&vec![far], &vec![None], 191, 0).is_ok());
    assert_eq!(
        plan_chunk_request(&vec![far], &vec![None], 192, 0),
        Err(RequestError::OutOfRange)
    );
    assert_eq!(
        plan_chunk_request(&vec![chunk_id(8, 16, 16)], &vec![None], 0, 0),
        Err(RequestError::BadChunk(ChunkIdError::Misaligned))
    );
    // An id whose row is current is not even decoded.
    assert!(plan_chunk_request(&vec![7], &vec![Some(CHUNK_GENERATION_VERSION)], 0, 0)
        .unwrap()
        .is_empty());
}

#[test]
fn excavation_centres_must_lie_in_the_world() {
    assert_eq!(check_excavation_center(19_199, 639, 0), Ok(()));
    assert_eq!(check_excavation_center(19_200, 0, 0), Err(ExcavateError::OutsideWorld));
    assert_eq!(check_excavation_center(0, 640, 0), Err(ExcavateError::OutsideWorld));
    assert_eq!(check_excavation_center(0, 0, 19_200), Err(ExcavateError::OutsideWorld));
    assert_eq!(
        ExcavateError::NotSolid.message(),
        "target block is not solid world geometry"
    );
}

#[test]
fn excavations_regenerate_the_chunks_within_tree_reach() {
    let range = affected_chunks(9_600, 9_600);
    assert_eq!(
        range,
        ChunkRange { min_x: 298, max_x: 301, min_z: 298, max_z: 301 }
    );
    assert!(range.contains(298, 301, 1));
    assert!(!range.contains(298, 301, 2));
    assert!(!range.contains(302, 300, 1));
    let corner = affected_chunks(5, 19_199);
    assert_eq!(corner, ChunkRange { min_x: 0, max_x: 1, min_z: 598, max_z: 599 });
}

#[test]
fn regenerated_rows_move_to_the_next_revision() {
    assert_eq!(next_revision(CHUNK_GENERATION_VERSION), CHUNK_GENERATION_VERSION + 1);
    assert_eq!(next_revision(u64::MAX), 0);
}

#[test]
fn stored_excavations_become_spheres_in_order() {
    let rows = vec![
        Excavation { id: 1, x: 10, y: 20, z: 30 },
        Excavation { id: 2, x: 40, y: 50, z: 60 },
    ];
    let spheres = excavation_spheres(&rows);
    assert_eq!(spheres.len(), 2);
    assert_eq!((spheres[1].x, spheres[1].y, spheres[1].z), (40, 50, 60));
}
