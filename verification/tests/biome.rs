use lce::biome::{Color, ColorMap, RawColorMap};

#[test]
fn colormap_from_raw_words() {
    let raw = RawColorMap { grass: 0x12_34_56, foliage: 0xAB_CD_EF, sky: 0xFF_00_00_01 };
    let map = ColorMap::from(raw);
    assert_eq!(*map.grass(), Color::srgb_u8(0x12, 0x34, 0x56));
    assert_eq!(*map.foliage(), Color::srgb_u8(0xAB, 0xCD, 0xEF));
    // bits above the low 24 are ignored
    assert_eq!(*map.sky(), Color::srgb_u8(0x00, 0x00, 0x01));
}

#[test]
fn colormap_new_and_getters() {
    let red = Color::srgb_u8(255, 0, 0);
    let green = Color::srgb_u8(0, 255, 0);
    let blue = Color::srgb_u8(0, 0, 255);
    let map = ColorMap::new(red, green, blue);
    assert_eq!(*map.grass(), red);
    assert_eq!(*map.foliage(), green);
    assert_eq!(*map.sky(), blue);
}

#[test]
fn packed_colour_decoding() {
    let c = Color::from_packed(0x00_80_40_20);
    assert_eq!((c.red, c.green, c.blue), (0x80, 0x40, 0x20));
    let raw = RawColorMap::default();
    assert_eq!((raw.grass, raw.foliage, raw.sky), (0, 0, 0));
}

#[test]
fn biome_index_keeps_last_listing() {
    let names: Vec<String> = vec![
        "Ru4J:plains".to_string(),
        "Ru4J:desert".to_string(),
        "Ru4J:plains".to_string(),
    ];
    let index = lce::biome::BiomeIndex::from_names(&names);
    assert_eq!(index.position_by_name("Ru4J:plains"), Some(2));
    assert_eq!(index.position_by_name("Ru4J:desert"), Some(1));
    assert_eq!(index.position_by_name("Ru4J:ocean"), None);
    let desert = lce::identifier::BiomeId::from_name("Ru4J:desert");
    assert_eq!(index.position(desert), Some(1));
    let empty = lce::biome::BiomeIndex::default();
    assert_eq!(empty.position(desert), None);
}
