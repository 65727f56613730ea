use worldbox::blocks::{Block, BlocksHandler, Model};

fn palette() -> BlocksHandler {
    let mut blocks = BlocksHandler::new();
    blocks.insert("Air".to_string(), Model::Empty);
    blocks.insert("Dirt".to_string(), Model::Meshable(10));
    blocks.insert("Grass".to_string(), Model::Meshable(11));
    blocks.insert("Stone".to_string(), Model::Meshable(12));
    blocks.insert("Fern".to_string(), Model::Crossed(13));
    blocks.insert("Lamp".to_string(), Model::Custom(14));
    blocks
}

#[test]
fn models_know_whether_they_are_meshed() {
    assert!(!Model::Empty.is_meshable());
    assert!(Model::Meshable(3).is_meshable());
    assert!(!Model::Crossed(3).is_meshable());
    assert!(!Model::Custom(3).is_meshable());
    assert_eq!(Model::Meshable(3).texture(), Some(3));
    assert_eq!(Model::Crossed(3).texture(), None);
    assert_eq!(Model::Empty.texture(), None);
}

#[test]
fn block_identifier_is_the_place_in_the_palette() {
    let blocks = palette();
    assert_eq!(blocks.len(), 6);
    assert_eq!(blocks.block("Air"), 0);
    assert_eq!(blocks.block("Dirt"), 1);
    assert_eq!(blocks.block("Grass"), 2);
    assert_eq!(blocks.block("Stone"), 3);
    assert_eq!(blocks.block("Lamp"), 5);
}

#[test]
fn unknown_block_is_the_empty_block() {
    let blocks = palette();
    assert_eq!(blocks.block("Lava"), 0);
    assert_eq!(blocks.block(""), 0);
    assert_eq!(BlocksHandler::new().block("Grass"), 0);
}

#[test]
fn meshable_blocks_are_the_cubes() {
    let blocks = palette();
    assert!(!blocks.is_meshable(0));
    assert!(blocks.is_meshable(1));
    assert!(blocks.is_meshable(2));
    assert!(blocks.is_meshable(3));
    assert!(!blocks.is_meshable(4));
    assert!(!blocks.is_meshable(5));
    assert!(!blocks.is_meshable(6));
    assert!(!blocks.is_meshable(u16::MAX));
}

#[test]
fn identifier_zero_is_never_meshable() {
    let mut blocks = BlocksHandler::new();
    blocks.insert("Rock".to_string(), Model::Meshable(1));
    blocks.insert("Sand".to_string(), Model::Meshable(2));
    assert_eq!(blocks.block("Rock"), 0);
    assert!(!blocks.is_meshable(0));
    assert!(blocks.is_meshable(1));
}

#[test]
fn inserting_a_known_name_keeps_its_place() {
    let mut blocks = palette();
    blocks.insert("Dirt".to_string(), Model::Empty);
    assert_eq!(blocks.len(), 6);
    assert_eq!(blocks.block("Dirt"), 1);
    assert!(!blocks.is_meshable(1));
    assert_eq!(blocks.block("Grass"), 2);
}

#[test]
fn textures_follow_the_palette() {
    let blocks = palette();
    assert_eq!(blocks.textures(), vec![None, Some(10), Some(11), Some(12), None, None]);
    assert_eq!(BlocksHandler::new().textures(), Vec::<Option<u32>>::new());
}

#[test]
fn all_lists_the_identifiers() {
    assert_eq!(palette().all(), vec![0, 1, 2, 3, 4, 5]);
    assert_eq!(BlocksHandler::new().all(), Vec::<u16>::new());
}

#[test]
fn built_in_blocks_have_six_textures() {
    assert!(!Block::Air.meshable());
    assert!(Block::Grass.meshable());
    assert!(Block::Dirt.meshable());
    assert_eq!(Block::Air.texture(), None);
    assert_eq!(Block::Grass.texture(), Some([0, 1, 2, 3, 4, 5]));
    assert_eq!(Block::Dirt.texture(), Some([1024, 1025, 1026, 1027, 1028, 1029]));
}

#[test]
fn face_gives_the_atlas_cell() {
    let dirt = Block::Dirt.texture().unwrap();
    assert_eq!(Block::Dirt.face(dirt, 0), (0, 1));
    assert_eq!(Block::Dirt.face(dirt, 5), (5, 1));
    let grass = Block::Grass.texture().unwrap();
    assert_eq!(Block::Grass.face(grass, 3), (3, 0));
    assert_eq!(Block::Grass.face([2050, 0, 0, 0, 0, 0], 0), (2, 2));
}
