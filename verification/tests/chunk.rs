use worldbox::blocks::{BlocksHandler, Model};
use worldbox::chunk::{Chunk, ChunksRefs, Neighbourhood, RawChunk};
use worldbox::coord::Coord;

fn palette() -> BlocksHandler {
    let mut blocks = BlocksHandler::new();
    blocks.insert("Air".to_string(), Model::Empty);
    blocks.insert("Dirt".to_string(), Model::Meshable(1));
    blocks.insert("Grass".to_string(), Model::Meshable(2));
    blocks.insert("Stone".to_string(), Model::Meshable(3));
    blocks
}

fn seven(center: RawChunk) -> Neighbourhood {
    Neighbourhood::new([
        center,
        RawChunk::filled(1),
        RawChunk::filled(2),
        RawChunk::filled(3),
        RawChunk::filled(4),
        RawChunk::filled(5),
        RawChunk::filled(6),
    ])
}

#[test]
fn block_index_has_x_fastest_and_z_slowest() {
    assert_eq!(RawChunk::block_index(Coord::new(0, 0, 0)), 0);
    assert_eq!(RawChunk::block_index(Coord::new(1, 0, 0)), 1);
    assert_eq!(RawChunk::block_index(Coord::new(0, 1, 0)), 32);
    assert_eq!(RawChunk::block_index(Coord::new(0, 0, 1)), 1024);
    assert_eq!(RawChunk::block_index(Coord::new(3, 4, 5)), 3 + 4 * 32 + 5 * 1024);
    assert_eq!(RawChunk::block_index(Coord::new(31, 31, 31)), 32767);
}

#[test]
fn buffers_hold_the_cube() {
    let chunk = RawChunk::filled(7);
    assert_eq!(chunk.get().len(), 32 * 32 * 32);
    assert!(chunk.get().iter().all(|b| *b == 7));
    assert!(RawChunk::empty().get().iter().all(|b| *b == 0));
    assert_eq!(RawChunk::SIZE, 32);
    assert_eq!(RawChunk::SIZE_P3, 32768);
}

#[test]
fn set_changes_one_cell() {
    let mut chunk = RawChunk::empty();
    chunk.set(40, 9);
    assert_eq!(chunk.block(40), 9);
    assert_eq!(chunk.block(39), 0);
    assert_eq!(chunk.block(41), 0);
    assert_eq!(chunk.get().iter().filter(|b| **b != 0).count(), 1);
    let copy = chunk.duplicate();
    assert_eq!(copy.get(), chunk.get());
}

#[test]
fn global_and_relative_split_a_position() {
    assert_eq!(RawChunk::global(Coord::new(-1, 32, 63)), Coord::new(-1, 1, 1));
    assert_eq!(RawChunk::relative(Coord::new(-1, 32, 63)), Coord::new(31, 0, 31));
}

#[test]
fn generator_lays_ground_at_height_zero() {
    let blocks = palette();
    let ground = RawChunk::generate(&blocks, Coord::new(3, 0, -2));
    for z in 0..32 {
        for y in 0..32 {
            for x in 0..32 {
                let expected = if y == 0 { 2 } else { 0 };
                assert_eq!(ground.block(RawChunk::block_index(Coord::new(x, y, z))), expected);
            }
        }
    }
    let above = RawChunk::generate(&blocks, Coord::new(3, 1, -2));
    assert!(above.get().iter().all(|b| *b == 0));
    let below = RawChunk::generate(&blocks, Coord::new(0, -1, 0));
    assert!(below.get().iter().all(|b| *b == 0));
}

#[test]
fn generator_without_grass_gives_an_empty_chunk() {
    let mut blocks = BlocksHandler::new();
    blocks.insert("Air".to_string(), Model::Empty);
    let chunk = RawChunk::generate(&blocks, Coord::new(0, 0, 0));
    assert!(chunk.get().iter().all(|b| *b == 0));
}

#[test]
fn handles_share_one_buffer() {
    let handle = Chunk::new(RawChunk::filled(4));
    let other = handle.clone();
    assert_eq!(handle.read().block(0), 4);
    let mut raw = other.read();
    raw.set(0, 9);
    other.write(raw);
    assert_eq!(handle.read().block(0), 9);
    assert_eq!(handle.read().block(1), 4);
    assert_eq!(handle.clone().read().block(0), 9);
}

#[test]
fn offsets_are_the_chunk_and_its_face_neighbours() {
    assert_eq!(ChunksRefs::offset(0), Coord::new(0, 0, 0));
    assert_eq!(ChunksRefs::offset(1), Coord::new(0, -1, 0));
    assert_eq!(ChunksRefs::offset(2), Coord::new(0, 1, 0));
    assert_eq!(ChunksRefs::offset(3), Coord::new(-1, 0, 0));
    assert_eq!(ChunksRefs::offset(4), Coord::new(1, 0, 0));
    assert_eq!(ChunksRefs::offset(5), Coord::new(0, 0, -1));
    assert_eq!(ChunksRefs::offset(6), Coord::new(0, 0, 1));
    assert_eq!(
        ChunksRefs::offsets(Coord::new(10, 20, 30)),
        vec![
            Coord::new(10, 20, 30),
            Coord::new(10, 19, 30),
            Coord::new(10, 21, 30),
            Coord::new(9, 20, 30),
            Coord::new(11, 20, 30),
            Coord::new(10, 20, 29),
            Coord::new(10, 20, 31),
        ]
    );
}

#[test]
fn offsets_leave_out_what_is_beyond_the_range() {
    let edge = Coord::new(i32::MAX, 0, i32::MIN);
    assert_eq!(
        ChunksRefs::offsets(edge),
        vec![
            edge,
            Coord::new(i32::MAX, -1, i32::MIN),
            Coord::new(i32::MAX, 1, i32::MIN),
            Coord::new(i32::MAX - 1, 0, i32::MIN),
            Coord::new(i32::MAX, 0, i32::MIN + 1),
        ]
    );
}

#[test]
fn offset_index_finds_offsets_only() {
    assert_eq!(ChunksRefs::offset_index(Coord::new(0, 0, 0)), Some(0));
    assert_eq!(ChunksRefs::offset_index(Coord::new(0, 0, 1)), Some(6));
    assert_eq!(ChunksRefs::offset_index(Coord::new(-1, 0, 0)), Some(3));
    assert_eq!(ChunksRefs::offset_index(Coord::new(1, 1, 0)), None);
    assert_eq!(ChunksRefs::offset_index(Coord::new(2, 0, 0)), None);
}

#[test]
fn get_block_reaches_into_the_neighbours() {
    let mut center = RawChunk::empty();
    center.set(RawChunk::block_index(Coord::new(1, 2, 3)), 42);
    let refs = seven(center);
    assert_eq!(refs.get_block(Coord::new(1, 2, 3)), 42);
    assert_eq!(refs.get_block(Coord::new(0, 0, 0)), 0);
    assert_eq!(refs.get_block(Coord::new(5, -1, 5)), 1);
    assert_eq!(refs.get_block(Coord::new(5, 32, 5)), 2);
    assert_eq!(refs.get_block(Coord::new(5, 33, 5)), 2);
    assert_eq!(refs.get_block(Coord::new(-1, 5, 5)), 3);
    assert_eq!(refs.get_block(Coord::new(32, 5, 5)), 4);
    assert_eq!(refs.get_block(Coord::new(5, 5, -1)), 5);
    assert_eq!(refs.get_block(Coord::new(5, 5, 32)), 6);
}

#[test]
fn get_block_reads_the_right_cell_of_a_neighbour() {
    let mut up = RawChunk::empty();
    up.set(RawChunk::block_index(Coord::new(7, 0, 9)), 11);
    let refs = Neighbourhood::new([
        RawChunk::empty(),
        RawChunk::empty(),
        up,
        RawChunk::empty(),
        RawChunk::empty(),
        RawChunk::empty(),
        RawChunk::empty(),
    ]);
    assert_eq!(refs.get_block(Coord::new(7, 32, 9)), 11);
    assert_eq!(refs.get_block(Coord::new(7, 33, 9)), 0);
    assert_eq!(refs.get_block(Coord::new(9, 32, 7)), 0);
}

#[test]
fn bundle_reads_through_its_handles() {
    let handles: Vec<Chunk> = (1..8).map(|b| Chunk::new(RawChunk::filled(b))).collect();
    let refs = ChunksRefs::new([
        handles[0].clone(),
        handles[1].clone(),
        handles[2].clone(),
        handles[3].clone(),
        handles[4].clone(),
        handles[5].clone(),
        handles[6].clone(),
    ]);
    assert_eq!(refs.get_block(Coord::new(0, 0, 0)), 1);
    assert_eq!(refs.get_block(Coord::new(0, -1, 0)), 2);
    assert_eq!(refs.get_block(Coord::new(0, 32, 0)), 3);
    assert_eq!(refs.get_block(Coord::new(-1, 0, 0)), 4);
    assert_eq!(refs.get_block(Coord::new(32, 0, 0)), 5);
    assert_eq!(refs.get_block(Coord::new(0, 0, -1)), 6);
    assert_eq!(refs.get_block(Coord::new(0, 0, 32)), 7);
    let before = refs.read();
    let mut raw = handles[0].read();
    raw.set(RawChunk::block_index(Coord::new(3, 3, 3)), 99);
    handles[0].write(raw);
    assert_eq!(refs.get_block(Coord::new(3, 3, 3)), 99);
    assert_eq!(refs.read().get_block(Coord::new(3, 3, 3)), 99);
    assert_eq!(before.get_block(Coord::new(3, 3, 3)), 1);
    assert_eq!(refs.clone().get_block(Coord::new(3, 3, 3)), 99);
}

#[test]
fn adjacent_blocks_are_current_back_left_down() {
    let mut center = RawChunk::empty();
    center.set(RawChunk::block_index(Coord::new(4, 4, 4)), 10);
    center.set(RawChunk::block_index(Coord::new(4, 4, 3)), 20);
    center.set(RawChunk::block_index(Coord::new(3, 4, 4)), 30);
    center.set(RawChunk::block_index(Coord::new(4, 3, 4)), 40);
    let refs = seven(center);
    assert_eq!(refs.get_adjacent_blocks(Coord::new(4, 4, 4)), (10, 20, 30, 40));
    assert_eq!(refs.get_adjacent_blocks(Coord::new(0, 0, 0)), (0, 5, 3, 1));
}
