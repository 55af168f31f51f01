use lce::block::{Block, BlockRegistry, BlockTextures, RawBlockRegistry};
use lce::identifier::{BiomeId, BlockId};

fn shared(ident: &str, path: &str) -> Block {
    Block::new(ident.to_string(), BlockTextures::SharedFace(path.to_string()))
}

fn all_faces(ident: &str) -> Block {
    Block::new(
        ident.to_string(),
        BlockTextures::AllFaces {
            top: "top.png".to_string(),
            front: "front.png".to_string(),
            left: "left.png".to_string(),
            right: "right.png".to_string(),
            back: "back.png".to_string(),
            bottom: "bottom.png".to_string(),
        },
    )
}

#[test]
fn shared_face_textures() {
    let b = shared("Ru4J:stone", "textures/blocks/stone.png");
    assert_eq!(b.ident(), "Ru4J:stone");
    assert_eq!(b.texture_front(), "textures/blocks/stone.png");
    assert_eq!(b.texture_back(), "textures/blocks/stone.png");
    assert_eq!(b.texture_left(), "textures/blocks/stone.png");
    assert_eq!(b.texture_right(), "textures/blocks/stone.png");
    assert_eq!(b.texture_top(), "textures/blocks/stone.png");
    assert_eq!(b.texture_bottom(), "textures/blocks/stone.png");
    assert_eq!(
        b.textures(),
        &BlockTextures::SharedFace("textures/blocks/stone.png".to_string())
    );
}

#[test]
fn all_face_textures() {
    let b = all_faces("Ru4J:grass");
    assert_eq!(b.texture_front(), "front.png");
    assert_eq!(b.texture_back(), "back.png");
    assert_eq!(b.texture_left(), "left.png");
    assert_eq!(b.texture_right(), "right.png");
    assert_eq!(b.texture_top(), "top.png");
    assert_eq!(b.texture_bottom(), "bottom.png");
}

#[test]
fn default_textures_are_air() {
    assert_eq!(BlockTextures::default(), BlockTextures::Air);
}

#[test]
fn name_hash_values() {
    assert_eq!(BlockId::from_name("").raw(), 0);
    assert_eq!(BlockId::from_name("a").raw(), 98);
    assert_eq!(BlockId::from_name("ab").raw(), 98 + 99 * 53);
    assert_eq!(
        BlockId::from_name("Ru4J:air").raw(),
        leafwing_manifest::identifier::Id::<()>::from_name("Ru4J:air").raw()
    );
    assert_eq!(BlockId::from_raw(42).raw(), 42);
    assert_eq!(BiomeId::from_name("a").raw(), 98);
    assert_eq!(BiomeId::from_raw(7).raw(), 7);
}

#[test]
fn same_name_same_id() {
    assert_eq!(BlockId::from_name("bevy"), BlockId::from_name("bevy"));
    assert_ne!(BlockId::from_name("bevy"), BlockId::from_name("bavy"));
}

#[test]
fn air_is_recognised() {
    assert!(BlockRegistry::is_air(BlockRegistry::air_id()));
    assert!(BlockRegistry::is_air(BlockId::from_name("Ru4J:air")));
    assert!(!BlockRegistry::is_air(BlockId::from_name("Ru4J:stone")));
}

#[test]
fn registry_from_raw_manifest() {
    let raw = RawBlockRegistry::new(vec![
        shared("Ru4J:stone", "stone.png"),
        all_faces("Ru4J:grass"),
        shared("Ru4J:stone", "stone2.png"),
    ]);
    assert_eq!(raw.blocks().len(), 3);
    let registry = BlockRegistry::from_raw_manifest(raw);
    let stone = registry.get(BlockId::from_name("Ru4J:stone")).expect("stone is registered");
    // the later listing replaces the earlier one
    assert_eq!(stone.texture_top(), "stone2.png");
    let grass = registry.get_by_name("Ru4J:grass").expect("grass is registered");
    assert_eq!(grass.ident(), "Ru4J:grass");
    assert!(registry.get_by_name("Ru4J:dirt").is_none());
    assert!(BlockRegistry::default().get_by_name("Ru4J:grass").is_none());
}
