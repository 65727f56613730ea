use worldbox::blocks::{BlocksHandler, Model};
use worldbox::chunk::{Chunk, ChunksRefs, Neighbourhood, RawChunk};
use worldbox::controller::{Controller, MAX_CHUNKS, MAX_MESHES};
use worldbox::coord::Coord;
use worldbox::mesher::ChunkMesh;
use worldbox::render::RenderDistance;

fn c(x: i32, y: i32, z: i32) -> Coord {
    Coord::new(x, y, z)
}

fn palette() -> BlocksHandler {
    let mut blocks = BlocksHandler::new();
    blocks.insert("Air".to_string(), Model::Empty);
    blocks.insert("Dirt".to_string(), Model::Meshable(1));
    blocks.insert("Grass".to_string(), Model::Meshable(2));
    blocks.insert("Stone".to_string(), Model::Meshable(3));
    blocks
}

fn controller(load: u8, build: u8) -> Controller {
    Controller::new(RenderDistance::new(load, load), RenderDistance::new(build, build))
}

fn loaded(around: Coord) -> Controller {
    let mut world = controller(0, 0);
    for pos in ChunksRefs::offsets(around) {
        world.insert(pos, Chunk::new(RawChunk::empty()));
    }
    world
}

/// One tick of a host that finishes every task at once. Returns the meshes
/// that were built.
fn tick(world: &mut Controller, blocks: &BlocksHandler) -> Vec<(Coord, Option<ChunkMesh>)> {
    let work = world.begin();
    world.unload();
    world.take_despawn();
    for pos in work.loads {
        world.finish_load(pos, RawChunk::generate(blocks, pos));
    }
    let mut meshes = Vec::new();
    for (pos, refs) in work.builds {
        let mesh = ChunkMesh::build(blocks, &refs);
        meshes.push((pos, world.finish_build(pos, mesh)));
    }
    meshes
}

#[test]
fn new_controller_is_empty() {
    let world = controller(8, 7);
    assert_eq!(world.chunk_count(), 0);
    assert_eq!(world.load_queue(), vec![]);
    assert_eq!(world.build_queue(), vec![]);
    assert_eq!(world.unload_queue(), vec![]);
    assert_eq!(world.loading(), 0);
    assert_eq!(world.building(), 0);
    assert_eq!(world.center(), None);
    assert!(world.get(c(0, 0, 0)).is_none());
    assert!(world.refs(c(0, 0, 0)).is_none());
    assert_eq!(MAX_CHUNKS, 4);
    assert_eq!(MAX_MESHES, 2);
}

#[test]
fn default_controller_has_the_usual_distances() {
    let mut world = Controller::default();
    assert_eq!(world.chunk_count(), 0);
    world.set_viewer(c(0, 0, 0));
    assert_eq!(world.load_queue().len(), 17 * 17 * 17);
    assert_eq!(world.build_queue().len(), 15 * 15 * 15);
}

#[test]
fn neighbourhood_needs_all_seven_chunks() {
    let center = c(3, -2, 7);
    assert!(loaded(center).refs(center).is_some());
    for missing in ChunksRefs::offsets(center) {
        let mut world = loaded(center);
        assert!(world.remove(missing).is_some());
        assert!(world.refs(center).is_none());
        world.insert(missing, Chunk::new(RawChunk::empty()));
        assert!(world.refs(center).is_some());
    }
    assert!(loaded(center).refs(c(4, -2, 7)).is_none());
}

#[test]
fn neighbourhood_at_the_edge_of_the_range_is_never_complete() {
    let edge = c(i32::MAX, 0, 0);
    assert!(loaded(edge).refs(edge).is_none());
}

#[test]
fn neighbourhood_holds_the_chunks_in_order() {
    let center = c(0, 0, 0);
    let mut world = controller(0, 0);
    let mut block = 1;
    for pos in ChunksRefs::offsets(center) {
        world.insert(pos, Chunk::new(RawChunk::filled(block)));
        block += 1;
    }
    let refs = world.refs(center).unwrap();
    world.get(c(0, 1, 0)).unwrap().write(RawChunk::filled(30));
    assert_eq!(refs.get_block(c(0, 40, 0)), 30);
    let refs = refs.read();
    assert_eq!(refs.get_block(c(0, 0, 0)), 1);
    assert_eq!(refs.get_block(c(0, -1, 0)), 2);
    assert_eq!(refs.get_block(c(0, 32, 0)), 30);
    assert_eq!(refs.get_block(c(-1, 0, 0)), 4);
    assert_eq!(refs.get_block(c(32, 0, 0)), 5);
    assert_eq!(refs.get_block(c(0, 0, -1)), 6);
    assert_eq!(refs.get_block(c(0, 0, 32)), 7);
}

#[test]
fn one_chunk_from_an_empty_store() {
    let blocks = palette();
    let mut world = controller(0, 0);
    world.set_viewer(c(0, 0, 0));
    assert_eq!(world.load_queue(), vec![c(0, 0, 0)]);
    assert_eq!(world.build_queue(), vec![c(0, 0, 0)]);

    let work = world.begin();
    assert_eq!(work.loads, vec![c(0, 0, 0)]);
    assert!(work.builds.is_empty());
    assert_eq!(world.chunk_count(), 0);
    assert!(world.is_loading(c(0, 0, 0)));

    world.finish_load(c(0, 0, 0), RawChunk::generate(&blocks, c(0, 0, 0)));
    assert_eq!(world.chunk_count(), 1);
    assert!(world.get(c(0, 0, 0)).is_some());
    assert!(!world.is_loading(c(0, 0, 0)));
    assert_eq!(world.build_queue(), ChunksRefs::offsets(c(0, 0, 0)));

    for _ in 0..3 {
        let work = world.begin();
        assert!(work.loads.is_empty());
        assert!(work.builds.is_empty());
        assert_eq!(world.building(), 0);
    }
    assert_eq!(world.mesh(c(0, 0, 0)), None);

    world.set_render_distance(RenderDistance::new(1, 1), RenderDistance::new(0, 0));
    let mut built = Vec::new();
    for _ in 0..20 {
        built.extend(tick(&mut world, &blocks));
    }
    assert_eq!(world.chunk_count(), 27);
    assert_eq!(built.len(), 1);
    assert_eq!(built[0].0, c(0, 0, 0));
    let mesh = built[0].1.as_ref().unwrap();
    assert_eq!(
        mesh.data(),
        vec![
            810811392, 542375968, 5636128, 274071552, 809500736, 272760896, 4325472, 541065312,
        ]
    );
}

#[test]
fn a_world_of_air_has_no_mesh() {
    let mut blocks = BlocksHandler::new();
    blocks.insert("Air".to_string(), Model::Empty);
    let mut world = controller(1, 0);
    world.set_viewer(c(0, 0, 0));
    let mut built = Vec::new();
    for _ in 0..20 {
        built.extend(tick(&mut world, &blocks));
    }
    assert_eq!(world.chunk_count(), 27);
    assert_eq!(built.len(), 1);
    assert_eq!(built[0].0, c(0, 0, 0));
    assert!(built[0].1.is_none());
    assert_eq!(world.mesh(c(0, 0, 0)), None);
    assert_eq!(world.building(), 0);
}

#[test]
fn budget_is_respected() {
    let blocks = palette();
    let mut world = controller(2, 1);
    world.set_viewer(c(0, 0, 0));
    assert_eq!(world.load_queue().len(), 5 * 5 * 5);
    let first = world.begin();
    assert_eq!(first.loads.len(), MAX_CHUNKS);
    assert_eq!(world.loading(), MAX_CHUNKS);
    let second = world.begin();
    assert!(second.loads.is_empty());
    assert_eq!(world.loading(), MAX_CHUNKS);
    world.finish_load(first.loads[0], RawChunk::generate(&blocks, first.loads[0]));
    assert_eq!(world.loading(), MAX_CHUNKS - 1);
    let third = world.begin();
    assert_eq!(third.loads.len(), 1);
    assert_eq!(world.loading(), MAX_CHUNKS);
    for pos in first.loads.iter().skip(1).chain(third.loads.iter()) {
        world.finish_load(*pos, RawChunk::generate(&blocks, *pos));
    }
    let mut pending: Vec<Coord> = Vec::new();
    for _ in 0..200 {
        let work = world.begin();
        assert!(world.loading() <= MAX_CHUNKS);
        assert!(world.building() <= MAX_MESHES);
        assert!(work.builds.len() <= MAX_MESHES);
        for pos in work.loads {
            world.finish_load(pos, RawChunk::generate(&blocks, pos));
        }
        for pos in pending.drain(..) {
            world.finish_build(pos, None);
        }
        pending.extend(work.builds.iter().map(|b| b.0));
    }
    assert_eq!(world.chunk_count(), 125);
}

#[test]
fn loads_are_dispatched_nearest_first() {
    let mut world = controller(1, 1);
    world.set_viewer(c(10, 10, 10));
    let work = world.begin();
    assert_eq!(work.loads[0], c(10, 10, 10));
    for pos in &work.loads[1..] {
        assert_eq!(pos.distance_squared(c(10, 10, 10)), 1);
    }
    let queue = world.load_queue();
    assert_eq!(queue.len(), 27 - 4);
    for pair in queue.windows(2) {
        assert!(pair[0].distance_squared(c(10, 10, 10)) <= pair[1].distance_squared(c(10, 10, 10)));
    }
}

#[test]
fn requested_loads_keep_their_order_without_a_sort() {
    let mut world = controller(0, 0);
    world.request_load(c(9, 0, 0));
    world.request_load(c(1, 0, 0));
    world.request_load(c(9, 0, 0));
    world.request_load(c(5, 0, 0));
    assert_eq!(world.load_queue(), vec![c(9, 0, 0), c(1, 0, 0), c(5, 0, 0)]);
    world.sort_queues();
    assert_eq!(world.load_queue(), vec![c(1, 0, 0), c(5, 0, 0), c(9, 0, 0)]);
    world.request_load(c(0, 0, 0));
    let work = world.dispatch();
    assert_eq!(work.loads, vec![c(1, 0, 0), c(5, 0, 0), c(9, 0, 0), c(0, 0, 0)]);
    assert_eq!(world.load_queue(), vec![]);
    world.request_load(c(1, 0, 0));
    assert_eq!(world.load_queue(), vec![]);
}

#[test]
fn build_waits_for_the_neighbourhood() {
    let mut world = loaded(c(0, 0, 0));
    world.request_build(c(5, 5, 5));
    world.request_build(c(1, 0, 0));
    world.request_build(c(0, 0, 0));
    let work = world.begin();
    let coords: Vec<Coord> = work.builds.iter().map(|b| b.0).collect();
    assert_eq!(coords, vec![c(0, 0, 0)]);
    assert_eq!(world.build_queue(), vec![c(1, 0, 0), c(5, 5, 5)]);
    assert!(world.is_building(c(0, 0, 0)));
    let again = world.begin();
    assert!(again.builds.is_empty());
    assert_eq!(world.build_queue(), vec![c(1, 0, 0), c(5, 5, 5)]);
}

#[test]
fn a_chunk_is_not_meshed_twice_at_a_time() {
    let mut world = loaded(c(0, 0, 0));
    world.request_build(c(0, 0, 0));
    assert_eq!(world.begin().builds.len(), 1);
    world.request_build(c(0, 0, 0));
    assert!(world.begin().builds.is_empty());
    assert_eq!(world.build_queue(), vec![c(0, 0, 0)]);
    world.finish_build(c(0, 0, 0), None);
    assert_eq!(world.begin().builds.len(), 1);
    assert_eq!(world.build_queue(), vec![]);
}

#[test]
fn build_budget_takes_the_first_that_are_ready() {
    let mut world = controller(0, 0);
    for x in 0..8 {
        for pos in ChunksRefs::offsets(c(x, 0, 0)) {
            world.insert(pos, Chunk::new(RawChunk::empty()));
        }
    }
    world.request_build(c(100, 0, 0));
    for x in [3, 1, 2, 5] {
        world.request_build(c(x, 0, 0));
    }
    let work = world.dispatch();
    let coords: Vec<Coord> = work.builds.iter().map(|b| b.0).collect();
    assert_eq!(coords, vec![c(3, 0, 0), c(1, 0, 0)]);
    assert_eq!(world.build_queue(), vec![c(100, 0, 0), c(2, 0, 0), c(5, 0, 0)]);
    assert_eq!(world.building(), 2);
}

#[test]
fn unload_waits_for_the_task_in_flight() {
    let blocks = palette();
    let mut world = controller(0, 0);
    world.request_load(c(1, 1, 1));
    let work = world.begin();
    assert_eq!(work.loads, vec![c(1, 1, 1)]);
    world.request_unload(c(1, 1, 1));
    world.unload();
    assert_eq!(world.unload_queue(), vec![c(1, 1, 1)]);
    assert!(world.is_loading(c(1, 1, 1)));
    world.finish_load(c(1, 1, 1), RawChunk::generate(&blocks, c(1, 1, 1)));
    assert_eq!(world.chunk_count(), 0);
    assert!(!world.is_loading(c(1, 1, 1)));
    assert_eq!(world.build_queue(), vec![]);
    world.unload();
    assert_eq!(world.unload_queue(), vec![]);
    assert_eq!(world.chunk_count(), 0);
}

#[test]
fn unload_keeps_a_chunk_while_it_is_meshed() {
    let mut world = loaded(c(0, 0, 0));
    world.spawned(c(0, 0, 0), 70);
    world.request_build(c(0, 0, 0));
    assert_eq!(world.begin().builds.len(), 1);
    world.request_unload(c(0, 0, 0));
    world.request_unload(c(1, 0, 0));
    world.unload();
    assert!(world.get(c(0, 0, 0)).is_some());
    assert!(world.get(c(1, 0, 0)).is_none());
    assert_eq!(world.unload_queue(), vec![c(0, 0, 0)]);
    assert_eq!(world.mesh(c(0, 0, 0)), Some(70));
    let mesh = ChunkMesh::greedy(&palette(), &Neighbourhood::new([
        RawChunk::filled(1),
        RawChunk::empty(),
        RawChunk::empty(),
        RawChunk::empty(),
        RawChunk::empty(),
        RawChunk::empty(),
        RawChunk::empty(),
    ]));
    assert!(mesh.is_some());
    assert!(world.finish_build(c(0, 0, 0), mesh).is_none());
    assert_eq!(world.take_despawn(), vec![70]);
    world.unload();
    assert!(world.get(c(0, 0, 0)).is_none());
    assert_eq!(world.unload_queue(), vec![]);
    assert_eq!(world.take_despawn(), vec![]);
}

#[test]
fn unload_frees_chunk_and_mesh() {
    let mut world = loaded(c(0, 0, 0));
    world.spawned(c(0, 0, 0), 5);
    world.spawned(c(1, 0, 0), 6);
    world.request_unload(c(1, 0, 0));
    world.request_unload(c(9, 9, 9));
    world.request_unload(c(0, 0, 0));
    world.request_unload(c(0, 1, 0));
    world.unload();
    assert_eq!(world.chunk_count(), 4);
    assert_eq!(world.mesh(c(0, 0, 0)), None);
    assert_eq!(world.mesh(c(1, 0, 0)), None);
    assert_eq!(world.unload_queue(), vec![]);
    assert_eq!(world.take_despawn(), vec![6, 5]);
    assert_eq!(world.take_despawn(), vec![]);
}

#[test]
fn request_unload_cancels_queued_work() {
    let mut world = controller(0, 0);
    world.request_load(c(1, 0, 0));
    world.request_load(c(2, 0, 0));
    world.request_build(c(1, 0, 0));
    world.request_unload(c(1, 0, 0));
    world.request_unload(c(1, 0, 0));
    assert_eq!(world.load_queue(), vec![c(2, 0, 0)]);
    assert_eq!(world.build_queue(), vec![]);
    assert_eq!(world.unload_queue(), vec![c(1, 0, 0)]);
}

#[test]
fn finished_mesh_replaces_the_old_one() {
    let mut world = loaded(c(0, 0, 0));
    world.spawned(c(0, 0, 0), 11);
    assert_eq!(world.mesh(c(0, 0, 0)), Some(11));
    world.request_build(c(0, 0, 0));
    let work = world.begin();
    let mesh = ChunkMesh::build(&palette(), &work.builds[0].1);
    assert!(mesh.is_none());
    assert!(world.finish_build(c(0, 0, 0), mesh).is_none());
    assert_eq!(world.mesh(c(0, 0, 0)), None);
    assert_eq!(world.building(), 0);
    assert_eq!(world.take_despawn(), vec![11]);
    world.spawned(c(0, 0, 0), 12);
    world.spawned(c(0, 0, 0), 13);
    assert_eq!(world.mesh(c(0, 0, 0)), Some(13));
    assert_eq!(world.take_despawn(), vec![12]);
}

#[test]
fn mesh_of_a_missing_chunk_is_despawned() {
    let mut world = controller(0, 0);
    world.spawned(c(4, 4, 4), 99);
    assert_eq!(world.mesh(c(4, 4, 4)), None);
    assert_eq!(world.take_despawn(), vec![99]);
}

#[test]
fn removing_a_chunk_retires_its_mesh() {
    let mut world = loaded(c(0, 0, 0));
    world.spawned(c(0, 0, 0), 21);
    assert!(world.remove(c(0, 0, 0)).is_some());
    assert!(world.remove(c(0, 0, 0)).is_none());
    assert!(world.get(c(0, 0, 0)).is_none());
    assert_eq!(world.mesh(c(0, 0, 0)), None);
    assert_eq!(world.take_despawn(), vec![21]);
    assert_eq!(world.chunk_count(), 6);
}

#[test]
fn moving_viewer_shifts_the_wanted_box() {
    let blocks = palette();
    let mut world = controller(1, 0);
    world.set_viewer(c(0, 0, 0));
    for _ in 0..20 {
        tick(&mut world, &blocks);
    }
    assert_eq!(world.chunk_count(), 27);
    world.set_viewer(c(1, 0, 0));
    assert_eq!(world.center(), Some(c(1, 0, 0)));
    let mut leaving = world.unload_queue();
    leaving.sort_by_key(|p| (p.x, p.y, p.z));
    let mut expected = Vec::new();
    for y in -1..=1 {
        for z in -1..=1 {
            expected.push(c(-1, y, z));
        }
    }
    assert_eq!(leaving, expected);
    let mut entering = world.load_queue();
    entering.sort_by_key(|p| (p.x, p.y, p.z));
    let mut expected = Vec::new();
    for y in -1..=1 {
        for z in -1..=1 {
            expected.push(c(2, y, z));
        }
    }
    assert_eq!(entering, expected);
    assert!(world.build_queue().contains(&c(1, 0, 0)));
    for _ in 0..20 {
        tick(&mut world, &blocks);
    }
    assert_eq!(world.chunk_count(), 27);
    assert!(world.get(c(-1, 0, 0)).is_none());
    assert!(world.get(c(2, 1, -1)).is_some());
    assert_eq!(world.unload_queue(), vec![]);
}

#[test]
fn what_comes_is_queued_nearest_first() {
    let blocks = palette();
    let mut world = Controller::new(RenderDistance::new(1, 0), RenderDistance::new(0, 0));
    world.set_viewer(c(0, 0, 0));
    assert_eq!(
        world.load_queue(),
        vec![
            c(0, 0, 0),
            c(-1, 0, 0),
            c(0, 0, -1),
            c(0, 0, 1),
            c(1, 0, 0),
            c(-1, 0, -1),
            c(-1, 0, 1),
            c(1, 0, -1),
            c(1, 0, 1),
        ]
    );
    for _ in 0..10 {
        tick(&mut world, &blocks);
    }
    assert_eq!(world.chunk_count(), 9);
    world.request_unload(c(7, 7, 7));
    world.set_viewer(c(1, 0, 0));
    assert_eq!(
        world.unload_queue(),
        vec![c(7, 7, 7), c(-1, 0, 0), c(-1, 0, -1), c(-1, 0, 1)]
    );
    assert_eq!(world.load_queue(), vec![c(2, 0, 0), c(2, 0, -1), c(2, 0, 1)]);
    let build = world.build_queue();
    assert!(!build.contains(&c(0, 0, 0)));
    assert!(!build.contains(&c(-1, 0, 0)));
    assert!(!build.contains(&c(-1, 0, 1)));
    assert!(build.contains(&c(1, 0, 0)));
    assert!(build.contains(&c(0, 1, 0)));
}

#[test]
fn returning_viewer_cancels_the_unload() {
    let blocks = palette();
    let mut world = controller(0, 0);
    world.set_viewer(c(0, 0, 0));
    tick(&mut world, &blocks);
    assert_eq!(world.chunk_count(), 1);
    world.set_viewer(c(5, 0, 0));
    assert_eq!(world.unload_queue(), vec![c(0, 0, 0)]);
    assert_eq!(world.load_queue(), vec![c(5, 0, 0)]);
    world.set_viewer(c(0, 0, 0));
    assert_eq!(world.unload_queue(), vec![c(5, 0, 0)]);
    assert_eq!(world.load_queue(), vec![]);
    world.unload();
    assert_eq!(world.chunk_count(), 1);
}

#[test]
fn same_viewer_changes_nothing() {
    let mut world = controller(1, 1);
    world.set_viewer(c(0, 0, 0));
    world.begin();
    let load = world.load_queue();
    let build = world.build_queue();
    world.set_viewer(c(0, 0, 0));
    world.set_render_distance(RenderDistance::new(1, 1), RenderDistance::new(1, 1));
    assert_eq!(world.load_queue(), load);
    assert_eq!(world.build_queue(), build);
    assert_eq!(world.unload_queue(), vec![]);
}

#[test]
fn shrinking_the_distance_unloads_the_rim() {
    let blocks = palette();
    let mut world = controller(1, 0);
    world.set_viewer(c(0, 0, 0));
    for _ in 0..20 {
        tick(&mut world, &blocks);
    }
    world.set_render_distance(RenderDistance::new(0, 0), RenderDistance::new(0, 0));
    assert_eq!(world.unload_queue().len(), 26);
    world.unload();
    assert_eq!(world.chunk_count(), 1);
    assert!(world.get(c(0, 0, 0)).is_some());
}

#[test]
fn distances_are_recorded_before_the_viewer_is_known() {
    let mut world = controller(3, 3);
    world.set_render_distance(RenderDistance::new(0, 0), RenderDistance::new(0, 0));
    assert_eq!(world.load_queue(), vec![]);
    world.set_viewer(c(2, 2, 2));
    assert_eq!(world.load_queue(), vec![c(2, 2, 2)]);
}

#[test]
fn reload_queues_every_meshed_chunk() {
    let mut world = loaded(c(0, 0, 0));
    world.request_build(c(7, 7, 7));
    world.spawned(c(0, 0, 0), 1);
    world.spawned(c(0, 1, 0), 2);
    world.reload();
    let queue = world.build_queue();
    assert_eq!(queue.len(), 3);
    assert_eq!(queue[0], c(7, 7, 7));
    assert!(queue.contains(&c(0, 0, 0)));
    assert!(queue.contains(&c(0, 1, 0)));
}

#[test]
fn rebuild_queues_the_neighbourhood() {
    let mut world = controller(0, 0);
    world.request_build(c(1, 0, 0));
    world.rebuild(c(0, 0, 0));
    assert_eq!(
        world.build_queue(),
        vec![
            c(1, 0, 0),
            c(0, 0, 0),
            c(0, -1, 0),
            c(0, 1, 0),
            c(-1, 0, 0),
            c(0, 0, -1),
            c(0, 0, 1),
        ]
    );
    world.sort();
    world.sort_queues();
    assert_eq!(world.build_queue()[0], c(0, 0, 0));
}

#[test]
fn edit_block_writes_and_queues_the_rebuild() {
    let mut world = loaded(c(0, 0, 0));
    assert!(!world.edit_block(c(-1, 5, 40), 3));
    assert!(!world.edit_block(c(500, 5, 40), 3));
    assert!(world.get(c(-1, 0, 1)).is_none());
    assert!(world.edit_block(c(-1, 5, 3), 3));
    let raw = world.get(c(-1, 0, 0)).unwrap().read();
    assert_eq!(raw.block(RawChunk::block_index(c(31, 5, 3))), 3);
    assert_eq!(raw.get().iter().filter(|b| **b != 0).count(), 1);
    let queue = world.build_queue();
    assert_eq!(&queue[0..7], &ChunksRefs::offsets(c(-1, 0, 1))[..]);
    assert!(queue.contains(&c(15, 0, 1)));
    assert!(queue.contains(&c(-2, 0, 0)));
}

#[test]
fn read_and_write_block_go_through_the_handle() {
    let world = loaded(c(0, 0, 0));
    assert_eq!(world.read_block(c(0, 0, 0), 5), Some(0));
    assert!(world.write_block(c(0, 0, 0), 5, 8));
    assert_eq!(world.read_block(c(0, 0, 0), 5), Some(8));
    assert_eq!(world.read_block(c(0, 0, 0), 6), Some(0));
    assert_eq!(world.read_block(c(0, 0, 0), 32768), None);
    assert!(!world.write_block(c(0, 0, 0), 32768, 8));
    assert_eq!(world.read_block(c(3, 3, 3), 5), None);
    assert!(!world.write_block(c(3, 3, 3), 5, 8));
}
