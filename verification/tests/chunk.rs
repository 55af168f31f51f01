use lce::chunk::{Chunk, Face, SubChunk};
use lce::collection::PVec;
use lce::identifier::BlockId;

#[test]
fn coordinate_conversion_index_first() {
    for y in 0..SubChunk::SIZE {
        for x in 0..SubChunk::SIZE {
            for z in 0..SubChunk::SIZE {
                let (x, y, z) = (
                    u8::try_from(x).expect("the chunk-relative `x` should cast into a `u8`"),
                    u8::try_from(y).expect("the chunk-relative `y` should cast into a `u8`"),
                    u8::try_from(z).expect("the chunk-relative `z` should cast into a `u8`"),
                );

                let idx = SubChunk::index(x, y, z);
                assert_eq!(SubChunk::coords(idx), (x, y, z));
            }
        }
    }
}

#[test]
fn coordinate_conversion_coords_first() {
    for idx in 0..SubChunk::SIZE_3 {
        let (x, y, z) = SubChunk::coords(idx);
        assert_eq!(SubChunk::index(x, y, z), idx);
    }
}

#[test]
fn mesh_generation() {
    // Three cubes in a row: 18 quads, of which the 7 on the sub-chunk's
    // border and the 4 between neighbouring cubes are culled.
    let sub_chunk = SubChunk {
        storage: PVec::filled(BlockId::from_name("Ru4J:grass"), 3),
    };
    let faces = sub_chunk.visible_faces();
    assert_eq!(faces.len(), 7, "there should be seven quads");
}

#[test]
fn mesh_generation_lists_faces_in_order() {
    let sub_chunk = SubChunk {
        storage: PVec::filled(BlockId::from_name("Ru4J:grass"), 3),
    };
    let faces = sub_chunk.visible_faces();
    assert_eq!(
        faces,
        vec![
            (0, Face::PosY),
            (0, Face::PosX),
            (1, Face::PosY),
            (1, Face::PosX),
            (2, Face::PosY),
            (2, Face::PosX),
            (2, Face::PosZ),
        ]
    );
}

#[test]
fn mesh_generation_skips_air() {
    let mut storage = PVec::new();
    storage.push(BlockId::from_name("Ru4J:air"));
    storage.push(BlockId::from_name("Ru4J:stone"));
    let sub_chunk = SubChunk { storage };
    // the stone at z = 1 sees air at z = 0, which does not hide it
    assert_eq!(
        sub_chunk.visible_faces(),
        vec![(1, Face::PosY), (1, Face::PosX), (1, Face::PosZ), (1, Face::NegZ)]
    );
}

#[test]
fn empty_sub_chunk_has_no_faces() {
    let sub_chunk = SubChunk { storage: PVec::new() };
    assert!(sub_chunk.visible_faces().is_empty());
}

#[test]
fn index_of_origin_is_first_item() {
    let origin_idx = SubChunk::index(0, 0, 0);
    let mut storage = PVec::<u8>::new();
    storage.push(1);
    assert_eq!(origin_idx, 0, "(0, 0, 0) should be the first item's index in storage");
    assert_eq!(storage.get(origin_idx), Some(&1), "1 should be the first stored item");
}

#[test]
fn first_stored_item_is_at_origin() {
    let mut storage = PVec::<u8>::new();
    storage.push(1);
    let mut it = storage.index_iter();
    let (index, _) = it.next().expect("there should be at least one value");
    assert_eq!(SubChunk::coords(index), (0, 0, 0));
}

#[test]
fn index_layout_values() {
    assert_eq!(SubChunk::index(1, 0, 0), 16);
    assert_eq!(SubChunk::index(0, 1, 0), 256);
    assert_eq!(SubChunk::index(0, 0, 1), 1);
    assert_eq!(SubChunk::index(15, 15, 15), 4095);
    assert_eq!(SubChunk::coords(4095), (15, 15, 15));
    assert_eq!(SubChunk::coords(273), (1, 1, 1));
}

#[test]
fn face_offsets() {
    assert_eq!(Face::PosY.unpack_offsets(), [0, 1, 0]);
    assert_eq!(Face::NegY.unpack_offsets(), [0, -1, 0]);
    assert_eq!(Face::PosX.unpack_offsets(), [1, 0, 0]);
    assert_eq!(Face::NegX.unpack_offsets(), [-1, 0, 0]);
    assert_eq!(Face::PosZ.unpack_offsets(), [0, 0, 1]);
    assert_eq!(Face::NegZ.unpack_offsets(), [0, 0, -1]);
    assert_eq!(Face::ALL.len(), 6);
}

#[test]
fn new_chunk_has_no_biomes() {
    let chunk = Chunk::default();
    assert!(chunk.biomes().is_empty());
}

#[test]
fn face_corner_table() {
    assert_eq!(Face::PosX.corners(), [(1, 0, 0), (1, 0, 1), (1, 1, 1), (1, 1, 0)]);
    assert_eq!(Face::NegY.corners(), [(0, 0, 0), (0, 0, 1), (1, 0, 1), (1, 0, 0)]);
    assert_eq!(Face::NegZ.corners(), [(0, 0, 0), (1, 0, 0), (1, 1, 0), (0, 1, 0)]);
}

#[test]
fn quad_index_pattern() {
    assert_eq!(lce::chunk::quad_indices(0), [0, 3, 1, 1, 3, 2]);
    assert_eq!(lce::chunk::quad_indices(8), [8, 11, 9, 9, 11, 10]);
}
