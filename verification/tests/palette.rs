use lce::palette::hybrid::{heap_threshold_for_sizes, HybridPalette};
use lce::palette::{index_width_for, Entry};

fn value_at(palette: &HybridPalette<u8>, index: usize) -> Option<(u8, usize)> {
    palette.get(index).map(|e| (e.value, e.count))
}

#[test]
fn entries_count_inserted_values() {
    let mut palette = HybridPalette::<u8>::new();
    assert_eq!(palette.entries(), 0);

    // insert two ones.
    palette.insert_new(Entry::new(2, 1));
    assert_eq!(palette.entries(), 1);

    // insert one two.
    palette.insert_new(Entry::new(1, 2));
    assert_eq!(palette.entries(), 2);
}

#[test]
fn is_empty_until_insert() {
    let mut palette = HybridPalette::<u8>::new();
    assert!(palette.is_empty());

    palette.insert_new(Entry::new(1, 1));
    assert!(!palette.is_empty());
}

#[test]
fn entry_new_sets_fields() {
    let e = Entry::new(3, 9u8);
    assert_eq!(e.count, 3);
    assert_eq!(e.value, 9);
}

#[test]
fn array_inserts_take_first_free_slot() {
    let mut palette = HybridPalette::<u8>::with_heap_threshold(4);
    assert_eq!(palette.insert_new(Entry::new(1, 10)), (0, Some(1)));
    assert_eq!(palette.insert_new(Entry::new(1, 11)), (1, Some(2)));
    assert_eq!(palette.insert_new(Entry::new(1, 12)), (2, None));
    palette.free(0);
    assert_eq!(palette.entries(), 2);
    assert_eq!(value_at(&palette, 0), None);
    assert_eq!(palette.insert_new(Entry::new(5, 13)), (0, None));
    assert_eq!(value_at(&palette, 0), Some((13, 5)));
    assert_eq!(palette.index_width(), 2);
}

#[test]
fn full_array_moves_to_heap() {
    let mut palette = HybridPalette::<u8>::with_heap_threshold(2);
    assert_eq!(palette.heap_threshold(), 2);
    palette.insert_new(Entry::new(1, 10));
    palette.insert_new(Entry::new(1, 11));
    assert_eq!(palette.insert_new(Entry::new(1, 12)), (2, None));
    assert_eq!(palette.insert_new(Entry::new(1, 13)), (3, Some(3)));
    assert_eq!(value_at(&palette, 2), Some((12, 1)));
    assert_eq!(palette.find(&13).map(|(e, i)| (e.value, i)), Some((13, 3)));
    // freed heap indices are reused, most recently freed first
    palette.free(1);
    palette.free(0);
    assert_eq!(palette.insert_new(Entry::new(1, 20)), (0, None));
    assert_eq!(palette.insert_new(Entry::new(1, 21)), (1, None));
    assert_eq!(palette.insert_new(Entry::new(1, 22)), (4, None));
    assert_eq!(palette.entries(), 5);
}

#[test]
fn find_and_get() {
    let mut palette = HybridPalette::<u8>::with_heap_threshold(3);
    palette.insert_new(Entry::new(4, 7));
    palette.insert_new(Entry::new(2, 8));
    assert_eq!(palette.find(&8).map(|(e, i)| (e.count, i)), Some((2, 1)));
    assert!(palette.find(&9).is_none());
    assert_eq!(value_at(&palette, 5), None);
    palette.set_count(1, 6);
    assert_eq!(value_at(&palette, 1), Some((8, 6)));
}

#[test]
fn optimize_orders_by_count_in_array() {
    let mut palette = HybridPalette::<u8>::with_heap_threshold(4);
    palette.insert_new(Entry::new(1, 10));
    palette.insert_new(Entry::new(5, 11));
    palette.insert_new(Entry::new(3, 12));
    let mapping = palette.optimize().expect("the entries should be renumbered");
    assert_eq!(mapping.get(1), Some(0));
    assert_eq!(mapping.get(2), Some(1));
    assert_eq!(mapping.get(0), Some(2));
    assert_eq!(value_at(&palette, 0), Some((11, 5)));
    assert_eq!(value_at(&palette, 1), Some((12, 3)));
    assert_eq!(value_at(&palette, 2), Some((10, 1)));
    assert_eq!(palette.index_width(), 2);
}

#[test]
fn optimize_without_changes_returns_none() {
    let mut palette = HybridPalette::<u8>::with_heap_threshold(4);
    palette.insert_new(Entry::new(5, 10));
    palette.insert_new(Entry::new(5, 11));
    palette.insert_new(Entry::new(1, 12));
    assert!(palette.optimize().is_none());
    assert_eq!(value_at(&palette, 1), Some((11, 5)));
}

#[test]
fn optimize_shrinks_width_after_frees() {
    let mut palette = HybridPalette::<u8>::with_heap_threshold(8);
    for v in 0..5u8 {
        palette.insert_new(Entry::new(1, v));
    }
    assert_eq!(palette.index_width(), 3);
    palette.free(0);
    palette.free(1);
    palette.free(2);
    let mapping = palette.optimize().expect("the entries should move down");
    assert_eq!(mapping.get(3), Some(0));
    assert_eq!(mapping.get(4), Some(1));
    assert_eq!(palette.index_width(), 2);
}

#[test]
fn optimize_returns_heap_to_array() {
    let mut palette = HybridPalette::<u8>::with_heap_threshold(2);
    palette.insert_new(Entry::new(1, 10));
    palette.insert_new(Entry::new(2, 11));
    palette.insert_new(Entry::new(3, 12));
    palette.free(0);
    let mapping = palette.optimize().expect("the entries should be renumbered");
    assert_eq!(mapping.get(2), Some(0));
    assert_eq!(mapping.get(1), Some(1));
    assert_eq!(value_at(&palette, 0), Some((12, 3)));
    // back in the array: the next insert takes the first free slot
    palette.free(1);
    assert_eq!(palette.insert_new(Entry::new(1, 13)), (1, None));
}

#[test]
fn optimize_compacts_heap() {
    let mut palette = HybridPalette::<u8>::with_heap_threshold(1);
    palette.insert_new(Entry::new(1, 10));
    palette.insert_new(Entry::new(1, 11));
    palette.insert_new(Entry::new(9, 12));
    palette.free(1);
    let mapping = palette.optimize().expect("the entries should be renumbered");
    assert_eq!(mapping.get(2), Some(0));
    assert_eq!(mapping.get(0), Some(1));
    assert_eq!(mapping.len(), 2);
    assert_eq!(palette.insert_new(Entry::new(1, 13)), (2, None));
}

#[test]
fn optimize_keeps_full_heap() {
    let mut palette = HybridPalette::<u8>::with_heap_threshold(1);
    palette.insert_new(Entry::new(1, 10));
    palette.insert_new(Entry::new(5, 11));
    assert!(palette.optimize().is_none());
    assert_eq!(value_at(&palette, 0), Some((10, 1)));
    assert_eq!(value_at(&palette, 1), Some((11, 5)));
}

#[test]
fn index_widths() {
    assert_eq!(index_width_for(0), 0);
    assert_eq!(index_width_for(1), 1);
    assert_eq!(index_width_for(2), 2);
    assert_eq!(index_width_for(255), 8);
    assert_eq!(index_width_for(256), 9);
    assert_eq!(index_width_for(usize::MAX), usize::BITS);
}

#[test]
fn heap_threshold_formula() {
    assert_eq!(heap_threshold_for_sizes(40, 24, 16), 6);
    assert_eq!(heap_threshold_for_sizes(40, 24, 24), 4);
}

#[test]
fn iter_lists_live_entries_in_index_order() {
    let mut palette = HybridPalette::<u8>::with_heap_threshold(2);
    palette.insert_new(Entry::new(1, 10));
    palette.insert_new(Entry::new(2, 11));
    palette.insert_new(Entry::new(3, 12));
    palette.free(1);
    let listed: Vec<(u8, usize)> = palette.iter().iter().map(|e| (e.value, e.count)).collect();
    assert_eq!(listed, vec![(10, 1), (12, 3)]);
}

#[test]
fn default_heap_threshold_fits_two_maps_and_a_vec() {
    let room = 2 * std::mem::size_of::<hashbrown::HashMap<usize, usize>>()
        + std::mem::size_of::<Vec<usize>>();
    let slot = std::mem::size_of::<Option<Entry<u8>>>();
    assert_eq!(lce::palette::hybrid::calc_heap_threshold::<u8>(), room / slot);
    assert_eq!(HybridPalette::<u8>::new().heap_threshold(), room / slot);
}

#[test]
fn optimize_heap_without_moves_returns_none() {
    let mut palette = HybridPalette::<u8>::with_heap_threshold(0);
    palette.insert_new(Entry::new(2, 10));
    palette.insert_new(Entry::new(1, 11));
    palette.free(1);
    assert!(palette.optimize().is_none());
    assert_eq!(value_at(&palette, 0), Some((10, 2)));
    assert_eq!(palette.index_width(), 1);
    assert_eq!(palette.insert_new(Entry::new(1, 12)), (1, Some(2)));
}

#[test]
fn heap_insert_into_freed_index_widens_when_needed() {
    let mut palette = HybridPalette::<u8>::with_heap_threshold(0);
    palette.insert_new(Entry::new(1, 10));
    palette.insert_new(Entry::new(1, 11));
    palette.free(0);
    assert_eq!(palette.index_width(), 2);
    assert_eq!(palette.insert_new(Entry::new(1, 12)), (0, None));
    assert_eq!(palette.index_width(), 2);
}

#[test]
fn zero_count_entry_stays_until_replaced() {
    let mut palette = HybridPalette::<u8>::with_heap_threshold(4);
    palette.insert_new(Entry::new(1, 10));
    palette.insert_new(Entry::new(2, 11));
    palette.set_count(0, 0);
    assert_eq!(value_at(&palette, 0), Some((10, 0)));
    assert_eq!(palette.entries(), 2);
    assert_eq!(palette.find(&10).map(|(e, i)| (e.count, i)), Some((0, 0)));
    // a new value takes the slot whose count is zero
    assert_eq!(palette.insert_new(Entry::new(3, 12)), (0, None));
    assert_eq!(value_at(&palette, 0), Some((12, 3)));
    assert_eq!(palette.entries(), 2);
}
