use worldbox::coord::Coord;
use worldbox::utils::{
    get_chunk_pos, index_from_offset, index_to_ivec3, index_to_ivec3_bounds, near_chunks,
    vec3_to_index, CHUNK_TASKS, MESH_TASKS,
};

#[test]
fn index_and_cell_correspond() {
    assert_eq!(vec3_to_index(Coord::new(3, 4, 5), 32), 3 + 4 * 32 + 5 * 1024);
    assert_eq!(vec3_to_index(Coord::new(1, 2, 3), 4), 1 + 2 * 4 + 3 * 16);
    assert_eq!(index_to_ivec3(3 + 4 * 32 + 5 * 1024), Coord::new(3, 4, 5));
    assert_eq!(index_to_ivec3(32767), Coord::new(31, 31, 31));
    assert_eq!(index_to_ivec3_bounds(63, 4), Coord::new(3, 3, 3));
    assert_eq!(index_to_ivec3_bounds(17, 4), Coord::new(1, 0, 1));
    for i in 0..64 {
        assert_eq!(vec3_to_index(index_to_ivec3_bounds(i, 4), 4), i);
    }
}

#[test]
fn neighbourhood_helpers() {
    assert_eq!(near_chunks(Coord::new(0, 0, 0)).len(), 7);
    assert_eq!(near_chunks(Coord::new(1, 1, 1))[4], Coord::new(2, 1, 1));
    assert_eq!(index_from_offset(Coord::new(0, 1, 0)), Some(2));
    assert_eq!(index_from_offset(Coord::new(0, 2, 0)), None);
    assert_eq!(get_chunk_pos(Coord::new(-1, 31, 32)), Coord::new(-1, 0, 1));
    assert_eq!(CHUNK_TASKS, 8);
    assert_eq!(MESH_TASKS, 4);
}
