use lce::collection::PVec;
use lce::container;
use lce::identifier::BlockId;

fn items(v: &PVec<u8>) -> Vec<u8> {
    let mut out = Vec::new();
    let mut it = v.iter();
    while let Some(x) = it.next() {
        out.push(*x);
    }
    out
}

#[test]
fn new_pvec_is_empty() {
    let v = PVec::<u8>::new();
    assert_eq!(v.len(), 0);
    assert!(v.is_empty());
    assert_eq!(v.unique_values(), 0);
    assert_eq!(v.get(0), None);
    assert!(!v.contains(0));
}

#[test]
fn push_get_pop() {
    let mut v = PVec::<u8>::new();
    v.push(5);
    v.push(7);
    v.push(5);
    assert_eq!(v.len(), 3);
    assert_eq!(v.unique_values(), 2);
    assert_eq!(v.get(0), Some(&5));
    assert_eq!(v.get(1), Some(&7));
    assert_eq!(v.get(2), Some(&5));
    assert_eq!(v.get(3), None);
    assert!(v.contains(2));
    assert!(!v.contains(3));
    assert_eq!(v.pop(), Some(5));
    assert_eq!(v.pop(), Some(7));
    assert_eq!(v.unique_values(), 1);
    assert_eq!(v.pop(), Some(5));
    assert_eq!(v.pop(), None);
    assert_eq!(v.unique_values(), 0);
}

#[test]
fn filled_repeats_value() {
    let v = PVec::filled(3u8, 5);
    assert_eq!(items(&v), vec![3, 3, 3, 3, 3]);
    assert_eq!(v.unique_values(), 1);
    let one = PVec::filled(7u8, 1);
    assert_eq!(items(&one), vec![7]);
}

#[test]
fn pop_undoes_push() {
    let mut v = PVec::from_iter(vec![1u8, 2, 2]);
    v.push(9);
    assert_eq!(v.pop(), Some(9));
    assert_eq!(items(&v), vec![1, 2, 2]);
    assert_eq!(v.unique_values(), 2);
}

#[test]
fn many_values_move_palette_to_heap() {
    let mut v = PVec::<u8>::new();
    let expected: Vec<u8> = (0..300u32).map(|i| (i * 7 % 40) as u8).collect();
    for &x in &expected {
        v.push(x);
    }
    assert_eq!(items(&v), expected);
    assert_eq!(v.unique_values(), 40);
    for _ in 0..150 {
        v.pop();
    }
    assert_eq!(items(&v), expected[..150].to_vec());
}

#[test]
fn optimize_keeps_items() {
    let mut v = PVec::<u8>::new();
    let expected: Vec<u8> = vec![1, 2, 2, 3, 3, 3, 4, 4, 4, 4, 9, 8, 7, 6, 5, 5];
    for &x in &expected {
        v.push(x);
    }
    v.optimize();
    assert_eq!(items(&v), expected);
    // remove the rare values, then optimize again
    for _ in 0..6 {
        v.pop();
    }
    v.optimize();
    assert_eq!(items(&v), expected[..10].to_vec());
    assert_eq!(v.unique_values(), 4);
    v.push(200);
    assert_eq!(v.get(10), Some(&200));
}

#[test]
fn from_iter_collects_in_order() {
    let v = PVec::from_iter(vec![4u8, 4, 1]);
    assert_eq!(items(&v), vec![4, 4, 1]);
    assert_eq!(v.unique_values(), 2);
}

#[test]
fn index_iter_pairs_offsets() {
    let v = PVec::from_iter(vec![9u8, 8]);
    let mut it = v.index_iter();
    assert_eq!(it.next(), Some((0, &9)));
    assert_eq!(it.next(), Some((1, &8)));
    assert_eq!(it.next(), None);
}

#[test]
fn container_pvec_is_the_same_collection() {
    let mut v: container::PVec<BlockId> = container::PVec::new();
    v.push(BlockId::from_name("Ru4J:dirt"));
    assert_eq!(v.len(), 1);
}

#[test]
fn block_ids_in_pvec() {
    let bedrock = BlockId::from_name("Ru4J:bedrock");
    let dirt = BlockId::from_name("Ru4J:dirt");
    let mut storage = PVec::filled(bedrock, 16 * 16);
    for _ in 0..(16 * 16 * 2) {
        storage.push(dirt);
    }
    assert_eq!(storage.len(), 16 * 16 * 3);
    assert_eq!(storage.unique_values(), 2);
    assert_eq!(storage.get(255), Some(&bedrock));
    assert_eq!(storage.get(256), Some(&dirt));
    let copy = storage.clone();
    assert_eq!(copy.get(600), Some(&dirt));
}
