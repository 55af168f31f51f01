use lce::index::{AlignedIndexBuffer, IndexBuffer, IndexMapping, Iter};

fn buffer_of(width: usize, indices: &[usize]) -> AlignedIndexBuffer {
    let mut buffer = AlignedIndexBuffer::new();
    buffer.set_index_size(width, None);
    for &index in indices {
        buffer.push(index);
    }
    buffer
}

fn contents(buffer: &AlignedIndexBuffer) -> Vec<usize> {
    let mut out = Vec::new();
    let mut it = Iter::new(buffer);
    while let Some(index) = it.next() {
        out.push(index);
    }
    out
}

#[test]
fn new_buffer_is_empty() {
    let buffer = AlignedIndexBuffer::new();
    assert_eq!(buffer.len(), 0);
    assert!(buffer.is_empty());
    assert_eq!(buffer.get(0), None);
}

#[test]
fn zero_width_holds_only_zeros() {
    let mut buffer = AlignedIndexBuffer::new();
    buffer.push(0);
    buffer.push(0);
    assert_eq!(buffer.len(), 2);
    assert_eq!(buffer.get(1), Some(0));
    assert_eq!(buffer.pop(), Some(0));
    assert_eq!(buffer.pop(), Some(0));
    assert_eq!(buffer.pop(), None);
}

#[test]
fn push_then_get_across_words() {
    // 3-bit indices: 21 to a word, so 50 indices span three words
    let indices: Vec<usize> = (0..50).map(|i| i % 8).collect();
    let buffer = buffer_of(3, &indices);
    assert_eq!(buffer.len(), 50);
    assert_eq!(contents(&buffer), indices);
    assert_eq!(buffer.get(49), Some(1));
    assert_eq!(buffer.get(50), None);
}

#[test]
fn set_returns_old_index_and_keeps_neighbours() {
    let mut buffer = buffer_of(4, &[1, 2, 3, 4, 5]);
    assert_eq!(buffer.set(2, 15), 3);
    assert_eq!(contents(&buffer), vec![1, 2, 15, 4, 5]);
    assert_eq!(buffer.get_unchecked(2), 15);
}

#[test]
fn pop_after_push_restores() {
    let mut buffer = buffer_of(7, &[100, 7, 64]);
    buffer.push(127);
    assert_eq!(buffer.pop(), Some(127));
    assert_eq!(contents(&buffer), vec![100, 7, 64]);
    // a popped slot is overwritten cleanly by the next push
    buffer.pop();
    buffer.push(1);
    assert_eq!(contents(&buffer), vec![100, 7, 1]);
}

#[test]
fn widening_keeps_indices() {
    let indices: Vec<usize> = (0..40).map(|i| i % 4).collect();
    let mut buffer = buffer_of(2, &indices);
    buffer.set_index_size(9, None);
    assert_eq!(contents(&buffer), indices);
    buffer.push(511);
    assert_eq!(buffer.get(40), Some(511));
}

#[test]
fn narrowing_keeps_indices_that_fit() {
    let mut buffer = buffer_of(16, &[0, 1, 1, 0, 1]);
    buffer.set_index_size(1, None);
    assert_eq!(contents(&buffer), vec![0, 1, 1, 0, 1]);
}

#[test]
fn renumbering_through_a_mapping() {
    let mut buffer = buffer_of(2, &[0, 1, 2, 1]);
    let mut mapping = IndexMapping::new();
    mapping.insert(0, 2);
    mapping.insert(1, 0);
    mapping.insert(2, 1);
    buffer.set_index_size(2, Some(mapping));
    assert_eq!(contents(&buffer), vec![2, 0, 1, 0]);
}

#[test]
fn zero_width_clears_indices() {
    let mut buffer = buffer_of(3, &[5, 6]);
    buffer.set_index_size(0, None);
    assert_eq!(contents(&buffer), vec![0, 0]);
}

#[test]
fn full_width_indices() {
    let mut buffer = buffer_of(64, &[usize::MAX, 0, usize::MAX - 1]);
    assert_eq!(contents(&buffer), vec![usize::MAX, 0, usize::MAX - 1]);
    assert_eq!(buffer.set(1, 12345), 0);
    assert_eq!(buffer.get(1), Some(12345));
}

#[test]
fn truncate_cleared_zeroes() {
    let mut buffer = buffer_of(5, &[31, 30, 29]);
    buffer.truncate_cleared(40);
    assert_eq!(contents(&buffer), vec![0; 40]);
    buffer.truncate_cleared(1);
    assert_eq!(contents(&buffer), vec![0]);
}

#[test]
fn mapping_lookups() {
    let mut mapping = IndexMapping::new();
    assert_eq!(mapping.len(), 0);
    mapping.insert(3, 4);
    mapping.insert(3, 5);
    assert_eq!(mapping.get(3), Some(5));
    assert_eq!(mapping.get(4), None);
    assert_eq!(mapping.len(), 1);
}

#[test]
fn default_buffer_is_new_buffer() {
    let b = AlignedIndexBuffer::default();
    assert_eq!(b, AlignedIndexBuffer::new());
    assert_eq!(b.len(), 0);
    assert!(b.is_empty());
    let mut b = b;
    assert_eq!(b.pop(), None);
}

#[test]
fn repacking_across_many_words() {
    let indices: Vec<usize> = (0..200).map(|i| (i * 5) % 8).collect();
    let mut buffer = buffer_of(3, &indices);
    // widen with uneven word fill: 21 three-bit fields, then 9 seven-bit ones
    buffer.set_index_size(7, None);
    assert_eq!(contents(&buffer), indices);
    // renumber every index while narrowing back to 3 bits
    let mut mapping = IndexMapping::new();
    for i in 0..8 {
        mapping.insert(i, 7 - i);
    }
    buffer.set_index_size(3, Some(mapping));
    let flipped: Vec<usize> = indices.iter().map(|i| 7 - i).collect();
    assert_eq!(contents(&buffer), flipped);
    // same width, renumbered in place
    let mut back = IndexMapping::new();
    for i in 0..8 {
        back.insert(i, 7 - i);
    }
    buffer.set_index_size(3, Some(back));
    assert_eq!(contents(&buffer), indices);
}
