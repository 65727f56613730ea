use worldbox::chunk::{Chunk, ChunksRefs, RawChunk};
use worldbox::controller::Controller;
use worldbox::coord::Coord;
use worldbox::render::RenderDistance;
use worldbox::systems::{
    destroy_selected, fill, look, place_selected, update_selected, SelectedBlock, SelectedData,
};

fn c(x: i32, y: i32, z: i32) -> Coord {
    Coord::new(x, y, z)
}

fn hit(chunk: Coord, block: usize, data: u16) -> SelectedBlock {
    SelectedBlock { chunk, block, data }
}

fn world() -> Controller {
    let mut world = Controller::new(RenderDistance::new(0, 0), RenderDistance::new(0, 0));
    let mut ground = RawChunk::empty();
    ground.set(RawChunk::block_index(c(4, 0, 4)), 2);
    world.insert(c(0, 0, 0), Chunk::new(ground));
    world
}

#[test]
fn empty_selection() {
    let empty = SelectedData::empty();
    assert_eq!(empty.current, hit(c(0, 0, 0), 0, 0));
    assert_eq!(empty.previous, hit(c(0, 0, 0), 0, 0));
    assert_eq!(SelectedBlock::empty(), hit(c(0, 0, 0), 0, 0));
    let mut block = SelectedBlock::empty();
    block.set(c(1, 2, 3), 4, 5);
    assert_eq!(block, hit(c(1, 2, 3), 4, 5));
    let mut data = SelectedData { previous: block, current: block };
    data.reset();
    assert_eq!(data, SelectedData::empty());
}

#[test]
fn select_takes_the_first_block_and_the_cell_before_it() {
    let hits = vec![
        hit(c(0, 0, 0), 1, 0),
        hit(c(0, 0, 0), 2, 0),
        hit(c(0, 0, 0), 3, 7),
        hit(c(0, 0, 0), 4, 0),
        hit(c(0, 0, 0), 5, 9),
    ];
    let selected = SelectedData::select(&hits);
    assert_eq!(selected.previous, hit(c(0, 0, 0), 2, 0));
    assert_eq!(selected.current, hit(c(0, 0, 0), 3, 7));
}

#[test]
fn select_without_a_block_selects_nothing() {
    let hits = vec![hit(c(0, 0, 0), 1, 0), hit(c(1, 0, 0), 2, 0)];
    let selected = SelectedData::select(&hits);
    assert_eq!(selected.previous, hit(c(1, 0, 0), 2, 0));
    assert_eq!(selected.current, SelectedBlock::empty());
    assert_eq!(SelectedData::select(&vec![]), SelectedData::empty());
    let first = SelectedData::select(&vec![hit(c(2, 0, 0), 9, 4)]);
    assert_eq!(first.previous, SelectedBlock::empty());
    assert_eq!(first.current, hit(c(2, 0, 0), 9, 4));
}

#[test]
fn look_skips_chunks_that_are_not_loaded() {
    let world = world();
    let samples = vec![c(4, 2, 4), c(40, 2, 4), c(4, 1, 4), c(4, 0, 4), c(4, -1, 4)];
    let hits = look(&world, &samples);
    assert_eq!(
        hits,
        vec![
            hit(c(0, 0, 0), RawChunk::block_index(c(4, 2, 4)), 0),
            hit(c(0, 0, 0), RawChunk::block_index(c(4, 1, 4)), 0),
            hit(c(0, 0, 0), RawChunk::block_index(c(4, 0, 4)), 2),
        ]
    );
}

#[test]
fn update_selected_walks_the_ray() {
    let world = world();
    let samples = vec![c(4, 3, 4), c(4, 2, 4), c(4, 1, 4), c(4, 0, 4), c(4, -1, 4)];
    let mut selected = SelectedData::empty();
    update_selected(&world, &samples, &mut selected);
    assert_eq!(selected.current, hit(c(0, 0, 0), RawChunk::block_index(c(4, 0, 4)), 2));
    assert_eq!(selected.previous, hit(c(0, 0, 0), RawChunk::block_index(c(4, 1, 4)), 0));
    update_selected(&world, &vec![c(1, 1, 1)], &mut selected);
    assert_eq!(selected.current, SelectedBlock::empty());
}

#[test]
fn destroy_empties_the_selected_block() {
    let mut world = world();
    let mut selected = SelectedData::empty();
    assert!(!destroy_selected(&mut world, &selected));
    assert_eq!(world.build_queue(), vec![]);
    update_selected(&world, &vec![c(4, 1, 4), c(4, 0, 4)], &mut selected);
    assert!(destroy_selected(&mut world, &selected));
    assert_eq!(world.read_block(c(0, 0, 0), RawChunk::block_index(c(4, 0, 4))), Some(0));
    assert_eq!(world.build_queue(), ChunksRefs::offsets(c(0, 0, 0)));
}

#[test]
fn place_fills_the_cell_before_the_selected_block() {
    let mut world = world();
    let mut selected = SelectedData::empty();
    assert!(!place_selected(&mut world, &selected, 3));
    update_selected(&world, &vec![c(4, 1, 4), c(4, 0, 4)], &mut selected);
    assert!(place_selected(&mut world, &selected, 3));
    assert_eq!(world.read_block(c(0, 0, 0), RawChunk::block_index(c(4, 1, 4))), Some(3));
    assert_eq!(world.read_block(c(0, 0, 0), RawChunk::block_index(c(4, 0, 4))), Some(2));
    assert_eq!(world.build_queue(), ChunksRefs::offsets(c(0, 0, 0)));
}

#[test]
fn fill_writes_along_the_ray() {
    let mut world = world();
    fill(&mut world, &vec![], 3);
    assert_eq!(world.build_queue(), vec![]);
    fill(&mut world, &vec![c(1, 1, 1), c(2, 1, 1), c(33, 1, 1)], 3);
    assert_eq!(world.read_block(c(0, 0, 0), RawChunk::block_index(c(1, 1, 1))), Some(3));
    assert_eq!(world.read_block(c(0, 0, 0), RawChunk::block_index(c(2, 1, 1))), Some(3));
    assert_eq!(world.read_block(c(0, 0, 0), RawChunk::block_index(c(3, 1, 1))), Some(0));
    let queue = world.build_queue();
    assert_eq!(&queue[0..7], &ChunksRefs::offsets(c(0, 0, 0))[..]);
    assert!(queue.contains(&c(2, 0, 0)));
    assert_eq!(queue.len(), 12);
}
