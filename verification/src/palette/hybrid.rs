//! A palette that keeps its entries in a fixed array while few, and in maps
//! on the heap once they outgrow it.

use vstd::prelude::*;
use vstd::arithmetic::power2::pow2;
use std::collections::HashMap;

use super::{
    Entry, PaletteValue, KeyIndexMap, count_some, bit_width,
    index_width_for, lemma_bit_width_bounds, lemma_bit_width_fits,
    lemma_count_some_update, lemma_count_some_push, lemma_count_some_prefix,
    lemma_count_some_all, lemma_count_some_none,
    lemma_count_some_exact, live_entries, lemma_live_entries_len,
};
use crate::index::IndexMapping;
use vstd::arithmetic::power2::lemma_pow2_strictly_increases;

verus! {

broadcast use vstd::std_specs::hash::group_hash_axioms;

/// Where a [`HybridPalette`] keeps its entries.
#[derive(Clone, Debug)]
pub enum HybridStorage<T> {
    /// A fixed number of slots, each free or holding an entry.
    Array(Vec<Option<Entry<T>>>),
    /// Entries keyed by index, with a reverse map from value keys to indices
    /// and the list of freed indices, most recently freed last.
    HashMap {
        free_indices: Vec<usize>,
        index_map: HashMap<usize, Entry<T>>,
        value_map: KeyIndexMap,
    },
}

/// Entry `(c1, i1)` comes before entry `(c2, i2)` when reordering a palette:
/// higher counts first, lower indices first among equal counts.
pub open spec fn ranks_before(c1: usize, i1: usize, c2: usize, i2: usize) -> bool {
    c1 > c2 || (c1 == c2 && i1 < i2)
}

/// `new` holds the entries of `old` renumbered by `m`: `m` maps each
/// occupied index of `old` to a distinct index below `k`, in the order of
/// [`ranks_before`], and `new` is occupied exactly below `k`.
pub open spec fn renumbers<T>(
    old: Seq<Option<Entry<T>>>,
    new: Seq<Option<Entry<T>>>,
    m: Map<usize, usize>,
    k: nat,
) -> bool {
    &&& k <= new.len()
    &&& forall|i: usize|
        (i as int) < old.len() ==> ((#[trigger] old[i as int]) is Some <==> m.contains_key(i))
    &&& forall|i: usize|
        #[trigger] m.contains_key(i) ==> (i as int) < old.len() && (m[i] as int) < k && new[m[i] as int]
            == old[i as int]
    &&& forall|j: int| 0 <= j < new.len() ==> ((#[trigger] new[j]) is Some <==> j < k)
    &&& forall|j: int| 0 <= j < k ==> #[trigger] hits(m, j)
    &&& forall|i1: usize, i2: usize|
        #[trigger] m.contains_key(i1) && #[trigger] m.contains_key(i2) && i1 != i2 ==> (m[i1] < m[i2]
            <==> ranks_before(old[i1 as int]->0.count, i1, old[i2 as int]->0.count, i2))
}

/// Some key of `m` maps to `j`.
pub open spec fn hits(m: Map<usize, usize>, j: int) -> bool {
    exists|i: usize| #[trigger] m.contains_key(i) && m[i] == j
}

/// The map sending each occupied index of `s` to itself.
pub open spec fn identity_on<T>(s: Seq<Option<Entry<T>>>) -> Map<usize, usize> {
    Map::new(|i: usize| (i as int) < s.len() && s[i as int] is Some, |i: usize| i)
}

/// The slots built from `order` renumber `old` by `m`.
proof fn lemma_order_renumbers<T>(
    old: Seq<Option<Entry<T>>>,
    new: Seq<Option<Entry<T>>>,
    order: Seq<(usize, Entry<T>)>,
    m: Map<usize, usize>,
    k: nat,
)
    requires
        order.len() == k,
        k <= new.len(),
        forall|t: int|
            0 <= t < order.len() ==> (#[trigger] order[t]).0 < old.len() && old[order[t].0 as int]
                == Some(order[t].1),
        forall|t1: int, t2: int|
            0 <= t1 < t2 < order.len() ==> ranks_before(
                (#[trigger] order[t1]).1.count,
                order[t1].0,
                (#[trigger] order[t2]).1.count,
                order[t2].0,
            ),
        forall|i: int|
            0 <= i < old.len() && (#[trigger] old[i]) is Some ==> exists|t: int|
                0 <= t < order.len() && (#[trigger] order[t]).0 == i as usize,
        forall|t: int|
            0 <= t < order.len() ==> m.contains_key((#[trigger] order[t]).0) && m[order[t].0] == t,
        forall|i: usize|
            #[trigger] m.contains_key(i) ==> exists|t: int| 0 <= t < order.len() && (#[trigger] order[t]).0 == i,
        forall|j: int| 0 <= j < new.len() ==> (#[trigger] new[j]) == (if j < k {
            Some(order[j].1)
        } else {
            None
        }),
    ensures
        renumbers(old, new, m, k),
{
    assert forall|i: usize|
        (i as int) < old.len() implies ((#[trigger] old[i as int]) is Some <==> m.contains_key(i)) by {
        if old[i as int] is Some {
            let t = choose|t: int| 0 <= t < order.len() && (#[trigger] order[t]).0 == i as usize;
            assert(m.contains_key(order[t].0));
        }
        if m.contains_key(i) {
            let t = choose|t: int| 0 <= t < order.len() && (#[trigger] order[t]).0 == i;
        }
    }
    assert forall|i: usize| #[trigger] m.contains_key(i) implies (i as int) < old.len() && (m[i] as int) < k
        && new[m[i] as int] == old[i as int] by {
        let t = choose|t: int| 0 <= t < order.len() && (#[trigger] order[t]).0 == i;
    }
    assert forall|j: int| 0 <= j < k implies #[trigger] hits(m, j) by {
        assert(m.contains_key(order[j].0));
    }
    assert forall|i1: usize, i2: usize|
        #[trigger] m.contains_key(i1) && #[trigger] m.contains_key(i2) && i1 != i2 implies (m[i1] < m[i2]
            <==> ranks_before(old[i1 as int]->0.count, i1, old[i2 as int]->0.count, i2)) by {
        let t1 = choose|t: int| 0 <= t < order.len() && (#[trigger] order[t]).0 == i1;
        let t2 = choose|t: int| 0 <= t < order.len() && (#[trigger] order[t]).0 == i2;
        if t1 < t2 {
            assert(ranks_before(order[t1].1.count, order[t1].0, order[t2].1.count, order[t2].0));
        } else if t2 < t1 {
            assert(ranks_before(order[t2].1.count, order[t2].0, order[t1].1.count, order[t1].0));
        }
    }
}

/// The slot can take a new entry: it is free, or its entry's count is zero.
pub open spec fn vacant<T>(slot: Option<Entry<T>>) -> bool {
    slot is None || slot->0.count == 0
}

/// The index of the first vacant slot of `s`, or its length if none is.
pub open spec fn first_vacant<T>(s: Seq<Option<Entry<T>>>) -> int
    decreases s.len(),
{
    if s.len() == 0 {
        0
    } else if vacant(s[0]) {
        0
    } else {
        1 + first_vacant(s.drop_first())
    }
}

/// [`first_vacant`] finds the first vacant slot, and every slot before it
/// holds an entry with a positive count.
proof fn lemma_first_vacant<T>(s: Seq<Option<Entry<T>>>)
    ensures
        0 <= first_vacant(s) <= s.len(),
        first_vacant(s) < s.len() ==> vacant(s[first_vacant(s)]),
        forall|i: int| 0 <= i < first_vacant(s) ==> !vacant(#[trigger] s[i]),
        first_vacant(s) <= count_some(s),
    decreases s.len(),
{
    if s.len() > 0 && !vacant(s[0]) {
        lemma_first_vacant(s.drop_first());
        assert forall|i: int| 0 <= i < first_vacant(s) implies !vacant(#[trigger] s[i]) by {
            if i > 0 {
                assert(s[i] == s.drop_first()[i - 1]);
            }
        }
    }
    let p = first_vacant(s);
    assert(count_some(s.take(p)) == p) by {
        assert forall|i: int| 0 <= i < s.take(p).len() implies #[trigger] s.take(p)[i] is Some by {
            assert(!vacant(s[i]));
        }
        lemma_count_some_all(s.take(p));
    }
    lemma_count_some_prefix(s, p);
}

/// A palette that stores up to `heap_threshold` entries in an array, and
/// moves them into maps on the heap when one more is inserted.
#[derive(Clone, Debug)]
pub struct HybridPalette<T> {
    index_size: u32,
    real_entries: usize,
    heap_threshold: usize,
    storage: HybridStorage<T>,
}

/// The size in bytes of a `hashbrown` map from indices to indices.
///
/// Trusted: returns `core::mem::size_of` of that type; nothing is stated of
/// the value, which depends on the machine and on the crate's layout.
#[verifier::external_body]
fn index_map_bytes() -> (r: usize) {
    core::mem::size_of::<hashbrown::HashMap<usize, usize>>()
}

/// The number of array slots that take as much room as two index maps and a
/// vector: `(2 * map_bytes + vec_bytes) / entry_bytes`.
pub fn heap_threshold_for_sizes(map_bytes: usize, vec_bytes: usize, entry_bytes: usize) -> (r:
    usize)
    requires
        entry_bytes > 0,
        2 * map_bytes + vec_bytes <= usize::MAX,
    ensures
        r == (2 * map_bytes + vec_bytes) / (entry_bytes as int),
{
    (2 * map_bytes + vec_bytes) / entry_bytes
}

/// The heap threshold for maps of `map_bytes` bytes, vectors of `vec_bytes`
/// bytes and array slots of `entry_bytes` bytes: the number of slots that fit
/// in two maps and a vector, or zero where that room does not fit a `usize`
/// or a slot takes no room.
pub open spec fn heap_threshold_of(map_bytes: nat, vec_bytes: nat, entry_bytes: nat) -> nat {
    if entry_bytes == 0 || 2 * map_bytes + vec_bytes > usize::MAX {
        0
    } else {
        (2 * map_bytes + vec_bytes) / entry_bytes
    }
}

/// The default heap threshold for a palette of `T`: the number of array
/// slots of `Option<Entry<T>>` that fit in the room taken by the heap
/// storage (two `hashbrown` maps and a `Vec`). The size of the map is what
/// `size_of` reports for it on this machine; nothing more is known of it.
pub fn calc_heap_threshold<T: PaletteValue>() -> (r: usize)
    ensures
        exists|map_bytes: nat|
            map_bytes <= usize::MAX && r == heap_threshold_of(
                map_bytes,
                vstd::layout::size_of::<Vec<usize>>(),
                vstd::layout::size_of::<Option<Entry<T>>>(),
            ),
{
    let map_bytes = index_map_bytes();
    let vec_bytes = core::mem::size_of::<Vec<usize>>();
    let entry_bytes = core::mem::size_of::<Option<Entry<T>>>();
    let room = match map_bytes.checked_mul(2) {
        Some(twice) => twice.checked_add(vec_bytes),
        None => None,
    };
    let r = match room {
        Some(_) => {
            if entry_bytes == 0 {
                0
            } else {
                heap_threshold_for_sizes(map_bytes, vec_bytes, entry_bytes)
            }
        },
        None => 0,
    };
    proof {
        assert(r == heap_threshold_of(
            map_bytes as nat,
            vstd::layout::size_of::<Vec<usize>>(),
            vstd::layout::size_of::<Option<Entry<T>>>(),
        ));
    }
    r
}

impl<T: PaletteValue> HybridPalette<T> {
    /// The slots of the palette: slot `i` is `Some(entry)` where index `i`
    /// holds `entry`, `None` where it is free.
    pub closed spec fn slots(self) -> Seq<Option<Entry<T>>> {
        match self.storage {
            HybridStorage::Array(a) => a@,
            HybridStorage::HashMap { free_indices, index_map, .. } => Seq::new(
                (self.real_entries + free_indices@.len()) as nat,
                |i: int|
                    if index_map@.contains_key(i as usize) {
                        Some(index_map@[i as usize])
                    } else {
                        None
                    },
            ),
        }
    }

    /// The palette still keeps its entries in the array.
    pub closed spec fn is_array(self) -> bool {
        self.storage is Array
    }

    /// The freed indices of the heap storage, most recently freed last
    /// (empty while the array is used).
    pub closed spec fn free_slots(self) -> Seq<usize> {
        match self.storage {
            HybridStorage::Array(_) => Seq::empty(),
            HybridStorage::HashMap { free_indices, .. } => free_indices@,
        }
    }

    /// The index width of the palette, in bits.
    pub closed spec fn width(self) -> nat {
        self.index_size as nat
    }

    /// The number of array slots.
    pub closed spec fn threshold(self) -> nat {
        self.heap_threshold as nat
    }

    /// The entry at `index`, if any.
    pub open spec fn slot(self, index: int) -> Option<Entry<T>> {
        if 0 <= index < self.slots().len() {
            self.slots()[index]
        } else {
            None
        }
    }

    /// The number of entries stored.
    pub open spec fn spec_entries(self) -> nat {
        count_some(self.slots())
    }

    /// No two entries share a value.
    pub open spec fn values_distinct(slots: Seq<Option<Entry<T>>>) -> bool {
        forall|i: int, j: int|
            0 <= i < slots.len() && 0 <= j < slots.len() && i != j && (#[trigger] slots[i]) is Some
                && (#[trigger] slots[j]) is Some ==> slots[i]->0.value.spec_key()
                != slots[j]->0.value.spec_key()
    }

    /// The internal invariant of the palette: [`wf_relaxed`](Self::wf_relaxed),
    /// and on the heap every index up to and including the next unused one
    /// fits the index width.
    pub closed spec fn wf(self) -> bool {
        &&& self.wf_relaxed()
        &&& !self.is_array() ==> self.slots().len() < pow2(self.index_size as nat)
    }

    /// The invariant that holds from the moment a full array moves to the
    /// heap: every slot of the heap fits the index width.
    closed spec fn wf_relaxed(self) -> bool {
        let s = self.slots();
        &&& self.index_size <= 64
        &&& self.real_entries == count_some(s)
        &&& forall|i: int|
            0 <= i < s.len() && (#[trigger] s[i]) is Some ==> i < pow2(self.index_size as nat)
        &&& Self::values_distinct(s)
        &&& match self.storage {
            HybridStorage::Array(a) => a@.len() == self.heap_threshold,
            HybridStorage::HashMap { free_indices, index_map, value_map } => {
                let n = s.len();
                &&& n <= usize::MAX
                &&& n <= pow2(self.index_size as nat)
                &&& forall|k: usize| #[trigger] index_map@.contains_key(k) ==> (k as int) < n
                &&& free_indices@.no_duplicates()
                &&& forall|j: int|
                    0 <= j < free_indices@.len() ==> (#[trigger] free_indices@[j] as int) < n
                        && !index_map@.contains_key(free_indices@[j])
                &&& forall|i: int|
                    0 <= i < n && (#[trigger] s[i]) is None ==> free_indices@.contains(i as usize)
                &&& forall|k: u64| #[trigger]
                    value_map@.contains_key(k) ==> index_map@.contains_key(value_map@[k])
                        && index_map@[value_map@[k]].value.spec_key() == k
                &&& forall|k: usize| #[trigger]
                    index_map@.contains_key(k) ==> value_map@.contains_key(
                        index_map@[k].value.spec_key(),
                    ) && value_map@[index_map@[k].value.spec_key()] == k
            },
        }
    }

    /// Constructs an empty palette whose array has `heap_threshold` slots.
    pub fn with_heap_threshold(heap_threshold: usize) -> (r: Self)
        ensures
            r.wf(),
            r.is_array(),
            r.slots() == Seq::new(heap_threshold as nat, |i: int| None::<Entry<T>>),
            r.width() == 0,
            r.threshold() == heap_threshold,
            r.free_slots() == Seq::<usize>::empty(),
    {
        let mut array: Vec<Option<Entry<T>>> = Vec::new();
        let mut k: usize = 0;
        while k < heap_threshold
            invariant
                k <= heap_threshold,
                array@ == Seq::new(k as nat, |i: int| None::<Entry<T>>),
            decreases heap_threshold - k,
        {
            array.push(None);
            k = k + 1;
            proof {
                assert(array@ =~= Seq::new(k as nat, |i: int| None::<Entry<T>>));
            }
        }
        let r = HybridPalette {
            index_size: 0,
            real_entries: 0,
            heap_threshold,
            storage: HybridStorage::Array(array),
        };
        proof {
            lemma_count_some_none(array@);
        }
        r
    }

    /// Constructs an empty palette with the default heap threshold for `T`.
    pub fn new() -> (r: Self)
        ensures
            r.wf(),
            r.is_array(),
            r.slots() == Seq::new(r.threshold(), |i: int| None::<Entry<T>>),
            r.width() == 0,
            r.free_slots() == Seq::<usize>::empty(),
    {
        Self::with_heap_threshold(calc_heap_threshold::<T>())
    }

    /// The number of entries the array holds before the palette moves to the
    /// heap.
    pub fn heap_threshold(&self) -> (r: usize)
        ensures
            r == self.threshold(),
    {
        self.heap_threshold
    }

    /// Returns the number of unique entries stored.
    pub fn entries(&self) -> (r: usize)
        requires
            self.wf(),
        ensures
            r == self.spec_entries(),
    {
        self.real_entries
    }

    /// Returns `true` if the palette holds no entries.
    pub fn is_empty(&self) -> (r: bool)
        requires
            self.wf(),
        ensures
            r == (self.spec_entries() == 0),
    {
        self.entries() == 0
    }

    /// Returns the number of bits every index into the palette fits in.
    pub fn index_width(&self) -> (r: u32)
        ensures
            r == self.width(),
    {
        self.index_size
    }

    /// Returns the entry at `index`, or `None` if no entry is there.
    pub fn get(&self, index: usize) -> (r: Option<&Entry<T>>)
        requires
            self.wf(),
        ensures
            match r {
                Some(e) => self.slot(index as int) == Some(*e),
                None => self.slot(index as int) is None,
            },
    {
        match &self.storage {
            HybridStorage::Array(a) => {
                if index < a.len() {
                    match &a[index] {
                        Some(e) => Some(e),
                        None => None,
                    }
                } else {
                    None
                }
            },
            HybridStorage::HashMap { index_map, .. } => {
                let r = index_map.get(&index);
                proof {
                    if !index_map@.contains_key(index) {
                        assert(self.slot(index as int) is None);
                    }
                }
                r
            },
        }
    }

    /// Returns the entry holding `value` and its index, or `None` if no entry
    /// holds it.
    pub fn find(&self, value: &T) -> (r: Option<(&Entry<T>, usize)>)
        requires
            self.wf(),
        ensures
            match r {
                Some((e, i)) => self.slot(i as int) == Some(*e) && e.value == *value,
                None => forall|i: int|
                    0 <= i < self.slots().len() && (#[trigger] self.slots()[i]) is Some
                        ==> self.slots()[i]->0.value != *value,
            },
    {
        let key = value.key();
        match &self.storage {
            HybridStorage::Array(a) => {
                let mut i: usize = 0;
                while i < a.len()
                    invariant
                        i <= a@.len(),
                        a@ == self.slots(),
                        key == value.spec_key(),
                        forall|j: int|
                            0 <= j < i && (#[trigger] a@[j]) is Some ==> a@[j]->0.value
                                != *value,
                    decreases a@.len() - i,
                {
                    match &a[i] {
                        Some(e) => {
                            if e.value.key() == key {
                                proof {
                                    T::lemma_key_injective(e.value, *value);
                                }
                                return Some((e, i));
                            }
                        },
                        None => {},
                    }
                    i = i + 1;
                }
                None
            },
            HybridStorage::HashMap { index_map, value_map, .. } => {
                match value_map.get(key) {
                    None => {
                        proof {
                            assert forall|i: int|
                                0 <= i < self.slots().len() && (#[trigger] self.slots()[i]) is Some
                                    implies self.slots()[i]->0.value != *value by {
                                assert(index_map@.contains_key(i as usize));
                            }
                        }
                        None
                    },
                    Some(idx) => {
                        match index_map.get(&idx) {
                            Some(e) => {
                                proof {
                                    T::lemma_key_injective(e.value, *value);
                                }
                                Some((e, idx))
                            },
                            None => None,
                        }
                    },
                }
            },
        }
    }

    /// Sets the count of the entry at `index`, which must hold one. An entry
    /// set to a count of zero stays until it is freed or, in the array, a new
    /// entry takes its slot.
    pub fn set_count(&mut self, index: usize, count: usize)
        requires
            old(self).wf(),
            old(self).slot(index as int) is Some,
        ensures
            final(self).wf(),
            final(self).slots() == old(self).slots().update(
                index as int,
                Some(Entry { value: old(self).slots()[index as int]->0.value, count }),
            ),
            final(self).is_array() == old(self).is_array(),
            final(self).free_slots() == old(self).free_slots(),
            final(self).width() == old(self).width(),
            final(self).threshold() == old(self).threshold(),
    {
        let ghost old_slots = self.slots();
        let mut storage = HybridStorage::Array(Vec::new());
        std::mem::swap(&mut storage, &mut self.storage);
        match storage {
            HybridStorage::Array(mut a) => {
                let current = a[index];
                match current {
                    Some(e) => {
                        a.set(index, Some(Entry { value: e.value, count }));
                    },
                    None => {},
                }
                self.storage = HybridStorage::Array(a);
            },
            HybridStorage::HashMap { free_indices, mut index_map, value_map } => {
                let e = *index_map.get(&index).unwrap();
                index_map.insert(index, Entry { value: e.value, count });
                self.storage = HybridStorage::HashMap { free_indices, index_map, value_map };
            },
        }
        proof {
            let new_entry = Entry { value: old_slots[index as int]->0.value, count };
            assert(self.slots() =~= old_slots.update(index as int, Some(new_entry)));
            lemma_count_some_update(old_slots, index as int, Some(new_entry));
            let s = self.slots();
            assert forall|i: int, j: int|
                0 <= i < s.len() && 0 <= j < s.len() && i != j && (#[trigger] s[i]) is Some
                    && (#[trigger] s[j]) is Some implies s[i]->0.value.spec_key()
                != s[j]->0.value.spec_key() by {
                assert(old_slots[i] is Some && old_slots[j] is Some);
            }
        }
    }

    /// Frees the entry at `index`. While the array is used any slot may be
    /// freed; on the heap the index must hold an entry.
    pub fn free(&mut self, index: usize)
        requires
            old(self).wf(),
            index < old(self).slots().len(),
            old(self).is_array() || old(self).slot(index as int) is Some,
        ensures
            final(self).wf(),
            final(self).slots() == old(self).slots().update(index as int, None),
            final(self).is_array() == old(self).is_array(),
            final(self).free_slots() == (if old(self).is_array() {
                old(self).free_slots()
            } else {
                old(self).free_slots().push(index)
            }),
            final(self).width() == old(self).width(),
            final(self).threshold() == old(self).threshold(),
    {
        let ghost old_slots = self.slots();
        proof {
            lemma_count_some_update(old_slots, index as int, None);
        }
        let mut storage = HybridStorage::Array(Vec::new());
        std::mem::swap(&mut storage, &mut self.storage);
        match storage {
            HybridStorage::Array(mut a) => {
                if a[index].is_some() {
                    self.real_entries = self.real_entries - 1;
                }
                a.set(index, None);
                self.storage = HybridStorage::Array(a);
                proof {
                    assert(self.slots() =~= old_slots.update(index as int, None));
                }
            },
            HybridStorage::HashMap { mut free_indices, mut index_map, mut value_map } => {
                let ghost old_free = free_indices@;
                let ghost old_index_map = index_map@;
                let ghost old_value_map = value_map@;
                let e = index_map.remove(&index).unwrap();
                free_indices.push(index);
                value_map.remove(e.value.key());
                self.real_entries = self.real_entries - 1;
                self.storage = HybridStorage::HashMap { free_indices, index_map, value_map };
                proof {
                    assert(e == old_index_map[index]);
                    assert(self.slots() =~= old_slots.update(index as int, None));
                    let s = self.slots();
                    let n = s.len();
                    assert forall|i: int| 0 <= i < n && (#[trigger] s[i]) is None implies free_indices@.contains(i as usize) by {
                        if i != index {
                            assert(old_slots[i] is None);
                            assert(old_free.contains(i as usize));
                            let w = choose|w: int| 0 <= w < old_free.len() && old_free[w] == i as usize;
                            assert(free_indices@[w] == i as usize);
                        } else {
                            assert(free_indices@[old_free.len() as int] == index);
                        }
                    }
                    assert forall|j: int| 0 <= j < free_indices@.len() implies (#[trigger] free_indices@[j] as int) < n
                        && !index_map@.contains_key(free_indices@[j]) by {
                        if j < old_free.len() {
                            assert(free_indices@[j] == old_free[j]);
                        }
                    }
                    assert(free_indices@.no_duplicates()) by {
                        assert(!old_free.contains(index)) by {
                            if old_free.contains(index) {
                                let w = choose|w: int| 0 <= w < old_free.len() && old_free[w] == index;
                                assert(!old_index_map.contains_key(old_free[w]));
                            }
                        }
                        assert forall|a: int, b: int| 0 <= a < free_indices@.len() && 0 <= b < free_indices@.len() && a != b
                            implies free_indices@[a] != free_indices@[b] by {
                            if a < old_free.len() && b < old_free.len() {
                                assert(free_indices@[a] == old_free[a]);
                                assert(free_indices@[b] == old_free[b]);
                            } else if a < old_free.len() {
                                assert(free_indices@[a] == old_free[a]);
                            } else if b < old_free.len() {
                                assert(free_indices@[b] == old_free[b]);
                            }
                        }
                    }
                    let ekey = e.value.spec_key();
                    assert forall|k: u64| #[trigger] value_map@.contains_key(k) implies index_map@.contains_key(value_map@[k])
                        && index_map@[value_map@[k]].value.spec_key() == k by {
                        assert(old_value_map.contains_key(k));
                        assert(old_value_map[k] != index);
                    }
                    assert forall|k: usize| #[trigger] index_map@.contains_key(k) implies value_map@.contains_key(
                        index_map@[k].value.spec_key()) && value_map@[index_map@[k].value.spec_key()] == k by {
                        assert(old_index_map.contains_key(k));
                        assert(k != index);
                        assert(old_slots[k as int] is Some && old_slots[index as int] is Some);
                        assert(index_map@[k].value.spec_key() != ekey);
                    }
                }
            },
        }
        proof {
            let s = self.slots();
            assert forall|i: int, j: int|
                0 <= i < s.len() && 0 <= j < s.len() && i != j && (#[trigger] s[i]) is Some
                    && (#[trigger] s[j]) is Some implies s[i]->0.value.spec_key()
                != s[j]->0.value.spec_key() by {
                assert(old_slots[i] is Some && old_slots[j] is Some);
            }
        }
    }

    /// The index that [`insert_new`](Self::insert_new) gives its entry: the
    /// first vacant array slot (free, or holding an entry whose count is
    /// zero), the array's length when none is, the most recently freed heap
    /// index, or the next unused heap index.
    pub open spec fn insert_position(self) -> int {
        if self.is_array() {
            first_vacant(self.slots())
        } else if self.free_slots().len() > 0 {
            self.free_slots().last() as int
        } else {
            self.slots().len() as int
        }
    }

    /// The insertion replaces an array entry whose count is zero.
    pub open spec fn insert_replaces(self) -> bool {
        &&& self.is_array()
        &&& self.insert_position() < self.slots().len()
        &&& self.slots()[self.insert_position()] is Some
    }

    /// The number of entries after the insertion: one more, unless it
    /// replaces an entry whose count is zero.
    pub open spec fn entries_after_insert(self) -> nat {
        if self.insert_replaces() {
            self.spec_entries()
        } else {
            self.spec_entries() + 1
        }
    }

    /// The index width grows with this insertion: the entries after it need
    /// more bits than the width has.
    pub open spec fn insert_widens(self) -> bool {
        bit_width(self.entries_after_insert()) > self.width()
    }

    /// Moves every entry of a full array into the heap storage.
    #[verifier::spinoff_prover]
    fn convert_to_hashmap(&mut self)
        requires
            old(self).wf(),
            old(self).is_array(),
            forall|i: int| 0 <= i < old(self).slots().len() ==> (#[trigger] old(self).slots()[i]) is Some,
        ensures
            final(self).wf_relaxed(),
            !final(self).is_array(),
            final(self).slots() == old(self).slots(),
            final(self).free_slots() == Seq::<usize>::empty(),
            final(self).width() == old(self).width(),
            final(self).threshold() == old(self).threshold(),
            final(self).real_entries == old(self).real_entries,
    {
        let ghost old_slots = self.slots();
        let mut storage = HybridStorage::Array(Vec::new());
        std::mem::swap(&mut storage, &mut self.storage);
        let a = match storage {
            HybridStorage::Array(a) => a,
            HybridStorage::HashMap { .. } => Vec::new(),
        };
        proof {
            lemma_count_some_all(old_slots);
        }
        let mut index_map: HashMap<usize, Entry<T>> = HashMap::new();
        let mut value_map = KeyIndexMap::new();
        let mut i: usize = 0;
        while i < a.len()
            invariant
                a@ == old_slots,
                i <= a@.len(),
                forall|k: int| 0 <= k < a@.len() ==> (#[trigger] a@[k]) is Some,
                Self::values_distinct(a@),
                forall|k: usize| #[trigger] index_map@.contains_key(k) <==> k < i,
                forall|k: usize| #[trigger] index_map@.contains_key(k) ==> index_map@[k] == a@[k as int]->0,
                forall|kk: u64| #[trigger] value_map@.contains_key(kk) ==> value_map@[kk] < i
                    && a@[value_map@[kk] as int]->0.value.spec_key() == kk,
                forall|k: usize| k < i ==> #[trigger] value_map@.contains_key(a@[k as int]->0.value.spec_key())
                    && value_map@[a@[k as int]->0.value.spec_key()] == k,
            decreases a@.len() - i,
        {
            let e = a[i].unwrap();
            let ghost before = value_map@;
            index_map.insert(i, e);
            value_map.insert(e.value.key(), i);
            proof {
                assert forall|k: usize| k < i + 1 implies #[trigger] value_map@.contains_key(a@[k as int]->0.value.spec_key())
                    && value_map@[a@[k as int]->0.value.spec_key()] == k by {
                    if k < i {
                        assert(a@[k as int] is Some && a@[i as int] is Some);
                        assert(a@[k as int]->0.value.spec_key() != e.value.spec_key());
                        assert(before.contains_key(a@[k as int]->0.value.spec_key()));
                    } else {
                        assert(a@[k as int]->0 == e);
                    }
                }
            }
            i = i + 1;
        }
        let free_indices: Vec<usize> = Vec::new();
        self.storage = HybridStorage::HashMap { free_indices, index_map, value_map };
        proof {
            assert(self.slots() =~= old_slots);
            let s = self.slots();
            assert forall|k: u64| #[trigger] value_map@.contains_key(k) implies index_map@.contains_key(value_map@[k])
                && index_map@[value_map@[k]].value.spec_key() == k by {
            }
            if old_slots.len() > 0 {
                let last = old_slots.len() - 1;
                assert(old_slots[last] is Some);
                assert(last < pow2(self.index_size as nat));
            }
        }
    }

    /// Inserts an entry whose value the palette does not hold yet into the
    /// heap storage.
    fn insert_into_heap(&mut self, entry: Entry<T>) -> (r: (usize, Option<u32>))
        requires
            old(self).wf_relaxed(),
            old(self).free_slots().len() > 0 ==> old(self).slots().len() < pow2(old(self).width()),
            !old(self).is_array(),
            entry.count > 0,
            old(self).spec_entries() < usize::MAX,
            forall|i: int|
                0 <= i < old(self).slots().len() && (#[trigger] old(self).slots()[i]) is Some
                    ==> old(self).slots()[i]->0.value != entry.value,
        ensures
            final(self).wf(),
            r.0 == old(self).insert_position(),
            old(self).slot(r.0 as int) is None,
            final(self).slot(r.0 as int) == Some(entry),
            final(self).slots() == (if old(self).insert_position() < old(self).slots().len() {
                old(self).slots().update(old(self).insert_position(), Some(entry))
            } else {
                old(self).slots().push(Some(entry))
            }),
            !final(self).is_array(),
            final(self).free_slots() == (if old(self).free_slots().len() > 0 {
                old(self).free_slots().drop_last()
            } else {
                Seq::<usize>::empty()
            }),
            r.1 == (if old(self).insert_widens() {
                Some(bit_width(old(self).entries_after_insert()) as u32)
            } else {
                None::<u32>
            }),
            final(self).width() == (if old(self).insert_widens() {
                bit_width(old(self).entries_after_insert())
            } else {
                old(self).width()
            }),
            final(self).threshold() == old(self).threshold(),
    {
        let ghost old_slots = self.slots();
        let ghost ekey = entry.value.spec_key();
        proof {
            assert forall|i: int| 0 <= i < old_slots.len() && (#[trigger] old_slots[i]) is Some
                implies old_slots[i]->0.value.spec_key() != ekey by {
                T::lemma_key_injective(old_slots[i]->0.value, entry.value);
            }
        }
        let mut storage = HybridStorage::Array(Vec::new());
        std::mem::swap(&mut storage, &mut self.storage);
        match storage {
            HybridStorage::Array(a) => {
                self.storage = HybridStorage::Array(a);
                (0, None)
            },
            HybridStorage::HashMap { mut free_indices, mut index_map, mut value_map } => {
                let ghost old_free = free_indices@;
                let ghost old_index_map = index_map@;
                let ghost old_value_map = value_map@;
                let key = entry.value.key();
                if free_indices.len() > 0 {
                    proof {
                        lemma_bit_width_fits((self.real_entries + 1) as nat, self.index_size as nat);
                    }
                    let idx = free_indices.pop().unwrap();
                    value_map.insert(key, idx);
                    index_map.insert(idx, entry);
                    self.real_entries = self.real_entries + 1;
                    self.storage = HybridStorage::HashMap { free_indices, index_map, value_map };
                    proof {
                        assert(idx == old_free.last());
                        assert(old_free[old_free.len() - 1] == idx);
                        assert(!old_index_map.contains_key(idx));
                        lemma_count_some_update(old_slots, idx as int, Some(entry));
                        assert(self.slots() =~= old_slots.update(idx as int, Some(entry)));
                        self.lemma_heap_insert_wf(old_slots, old_free, old_index_map, old_value_map, idx, entry);
                    }
                    return (idx, None);
                }
                let idx = self.real_entries;
                value_map.insert(key, idx);
                index_map.insert(idx, entry);
                self.real_entries = self.real_entries + 1;
                let new_size = index_width_for(self.real_entries);
                let mut widened = None;
                if new_size > self.index_size {
                    self.index_size = new_size;
                    widened = Some(new_size);
                }
                self.storage = HybridStorage::HashMap { free_indices, index_map, value_map };
                proof {
                    assert(old_slots.len() == idx);
                    lemma_count_some_push(old_slots, Some(entry));
                    assert(self.slots() =~= old_slots.push(Some(entry)));
                    lemma_bit_width_bounds(self.real_entries as nat);
                    if new_size <= old(self).index_size {
                        if (new_size as nat) < old(self).index_size as nat {
                            lemma_pow2_strictly_increases(new_size as nat, old(self).index_size as nat);
                        }
                    }
                    self.lemma_heap_insert_wf(old_slots, old_free, old_index_map, old_value_map, idx, entry);
                }
                (idx, widened)
            },
        }
    }

    proof fn lemma_heap_insert_wf(
        self,
        old_slots: Seq<Option<Entry<T>>>,
        old_free: Seq<usize>,
        old_index_map: Map<usize, Entry<T>>,
        old_value_map: Map<u64, usize>,
        idx: usize,
        entry: Entry<T>,
    )
        requires
            match self.storage {
                HybridStorage::Array(_) => false,
                HybridStorage::HashMap { free_indices, index_map, value_map } => {
                    &&& index_map@ == old_index_map.insert(idx, entry)
                    &&& value_map@ == old_value_map.insert(entry.value.spec_key(), idx)
                    &&& (free_indices@ == old_free.drop_last() && old_free.len() > 0 && old_free.last() == idx
                        || free_indices@ == old_free && old_free.len() == 0 && idx == old_slots.len())
                },
            },
            !old_index_map.contains_key(idx),
            self.slots() == (if idx < old_slots.len() { old_slots.update(idx as int, Some(entry)) } else { old_slots.push(Some(entry)) }),
            self.real_entries == count_some(self.slots()),
            self.index_size <= 64,
            entry.count > 0,
            self.slots().len() < pow2(self.index_size as nat),
            self.slots().len() <= usize::MAX,
            forall|i: int| 0 <= i < old_slots.len() && (#[trigger] old_slots[i]) is Some
                ==> old_slots[i]->0.value.spec_key() != entry.value.spec_key(),
            Self::values_distinct(old_slots),
            // the old heap invariant
            forall|k: usize| #[trigger] old_index_map.contains_key(k) ==> (k as int) < old_slots.len(),
            old_free.no_duplicates(),
            forall|j: int| 0 <= j < old_free.len() ==> (#[trigger] old_free[j] as int) < old_slots.len()
                && !old_index_map.contains_key(old_free[j]),
            forall|i: int| 0 <= i < old_slots.len() && (#[trigger] old_slots[i]) is None ==> old_free.contains(i as usize),
            forall|k: u64| #[trigger] old_value_map.contains_key(k) ==> old_index_map.contains_key(old_value_map[k])
                && old_index_map[old_value_map[k]].value.spec_key() == k,
            forall|k: usize| #[trigger] old_index_map.contains_key(k) ==> old_value_map.contains_key(
                old_index_map[k].value.spec_key()) && old_value_map[old_index_map[k].value.spec_key()] == k,
            forall|i: int| 0 <= i < old_slots.len() ==> (#[trigger] old_slots[i]) == (if old_index_map.contains_key(i as usize) {
                Some(old_index_map[i as usize]) } else { None }),
        ensures
            self.wf(),
    {
        let s = self.slots();
        if let HybridStorage::HashMap { free_indices, index_map, value_map } = self.storage {
            assert forall|i: int| 0 <= i < s.len() && (#[trigger] s[i]) is Some implies i < pow2(self.index_size as nat) by {
                if i != idx {
                    assert(old_slots[i] is Some);
                }
            }
            assert forall|i: int, j: int|
                0 <= i < s.len() && 0 <= j < s.len() && i != j && (#[trigger] s[i]) is Some
                    && (#[trigger] s[j]) is Some implies s[i]->0.value.spec_key()
                != s[j]->0.value.spec_key() by {
                if i != idx && j != idx {
                    assert(old_slots[i] is Some && old_slots[j] is Some);
                } else if i != idx {
                    assert(old_slots[i] is Some);
                } else {
                    assert(old_slots[j] is Some);
                }
            }
            assert forall|j: int| 0 <= j < free_indices@.len() implies (#[trigger] free_indices@[j] as int) < s.len()
                && !index_map@.contains_key(free_indices@[j]) by {
                assert(free_indices@[j] == old_free[j]);
                if free_indices@[j] == idx {
                    assert(old_free[old_free.len() - 1] == idx);
                }
            }
            assert forall|i: int| 0 <= i < s.len() && (#[trigger] s[i]) is None implies free_indices@.contains(i as usize) by {
                assert(i != idx);
                assert(old_slots[i] is None);
                let w = choose|w: int| 0 <= w < old_free.len() && old_free[w] == i as usize;
                if w == old_free.len() - 1 {
                    assert(old_free[w] == idx);
                }
                assert(free_indices@[w] == i as usize);
            }
            assert forall|k: u64| #[trigger] value_map@.contains_key(k) implies index_map@.contains_key(value_map@[k])
                && index_map@[value_map@[k]].value.spec_key() == k by {
                if k != entry.value.spec_key() {
                    assert(old_value_map.contains_key(k));
                    assert(old_value_map[k] != idx);
                }
            }
            assert forall|k: usize| #[trigger] index_map@.contains_key(k) implies value_map@.contains_key(
                index_map@[k].value.spec_key()) && value_map@[index_map@[k].value.spec_key()] == k by {
                if k != idx {
                    assert(old_index_map.contains_key(k));
                    assert(old_slots[k as int] is Some);
                }
            }
        }
    }

    /// Inserts a **new** entry, one whose value the palette does not hold,
    /// returning its index and the new index width if the width grew.
    ///
    /// While the array has a vacant slot (free, or holding an entry whose
    /// count is zero) the entry takes the first one, replacing the entry
    /// there; when the array is full, its entries move to the heap and the
    /// new entry follows them.
    pub fn insert_new(&mut self, entry: Entry<T>) -> (r: (usize, Option<u32>))
        requires
            old(self).wf(),
            entry.count > 0,
            old(self).spec_entries() < usize::MAX,
            forall|i: int|
                0 <= i < old(self).slots().len() && (#[trigger] old(self).slots()[i]) is Some
                    ==> old(self).slots()[i]->0.value != entry.value,
        ensures
            final(self).wf(),
            r.0 == old(self).insert_position(),
            old(self).slot(r.0 as int) is None || old(self).slot(r.0 as int)->0.count == 0,
            final(self).slot(r.0 as int) == Some(entry),
            final(self).slots() == (if old(self).insert_position() < old(self).slots().len() {
                old(self).slots().update(old(self).insert_position(), Some(entry))
            } else {
                old(self).slots().push(Some(entry))
            }),
            final(self).is_array() == (old(self).is_array() && old(self).insert_position()
                < old(self).slots().len()),
            final(self).free_slots() == (if !old(self).is_array() && old(self).free_slots().len()
                > 0 {
                old(self).free_slots().drop_last()
            } else {
                Seq::<usize>::empty()
            }),
            r.1 == (if old(self).insert_widens() {
                Some(bit_width(old(self).entries_after_insert()) as u32)
            } else {
                None::<u32>
            }),
            final(self).width() == (if old(self).insert_widens() {
                bit_width(old(self).entries_after_insert())
            } else {
                old(self).width()
            }),
            final(self).threshold() == old(self).threshold(),
    {
        let ghost old_slots = self.slots();
        let is_array = match &self.storage {
            HybridStorage::Array(_) => true,
            HybridStorage::HashMap { .. } => false,
        };
        if !is_array {
            return self.insert_into_heap(entry);
        }
        let mut free_slot: Option<usize> = None;
        match &self.storage {
            HybridStorage::Array(a) => {
                let mut i: usize = 0;
                while i < a.len()
                    invariant_except_break
                        free_slot is None,
                    invariant
                        i <= a@.len(),
                        a@ == old_slots,
                        forall|j: int| 0 <= j < i ==> (#[trigger] a@[j]) is Some && a@[j]->0.count != 0,
                    ensures
                        match free_slot {
                            Some(p) => p == i && i < a@.len() && (a@[p as int] is None || a@[p as int]->0.count == 0),
                            None => i == a@.len(),
                        },
                    decreases a@.len() - i,
                {
                    let vacant = match &a[i] {
                        None => true,
                        Some(e) => e.count == 0,
                    };
                    if vacant {
                        free_slot = Some(i);
                        break;
                    }
                    i = i + 1;
                }
                proof {
                    lemma_first_vacant(old_slots);
                    match free_slot {
                        Some(p) => {
                            assert(vacant(old_slots[p as int]));
                            assert(first_vacant(old_slots) == p) by {
                                if first_vacant(old_slots) < p {
                                    assert(!vacant(old_slots[first_vacant(old_slots)]));
                                }
                            }
                        },
                        None => {
                            assert(first_vacant(old_slots) == old_slots.len()) by {
                                if first_vacant(old_slots) < old_slots.len() {
                                    assert(!vacant(old_slots[first_vacant(old_slots)]));
                                }
                            }
                        },
                    }
                }
            },
            HybridStorage::HashMap { .. } => {},
        }
        match free_slot {
            Some(idx) => {
                let mut storage = HybridStorage::Array(Vec::new());
                std::mem::swap(&mut storage, &mut self.storage);
                let mut was_free = false;
                if let HybridStorage::Array(mut a) = storage {
                    was_free = a[idx].is_none();
                    a.set(idx, Some(entry));
                    self.storage = HybridStorage::Array(a);
                }
                if was_free {
                    self.real_entries = self.real_entries + 1;
                }
                let new_size = index_width_for(self.real_entries);
                let mut widened = None;
                if new_size > self.index_size {
                    self.index_size = new_size;
                    widened = Some(new_size);
                }
                proof {
                    lemma_first_vacant(old_slots);
                    lemma_count_some_update(old_slots, idx as int, Some(entry));
                    assert(self.slots() =~= old_slots.update(idx as int, Some(entry)));
                    lemma_bit_width_bounds(self.real_entries as nat);
                    if new_size <= old(self).index_size && (new_size as nat) < old(self).index_size as nat {
                        lemma_pow2_strictly_increases(new_size as nat, old(self).index_size as nat);
                    }
                    let s = self.slots();
                    assert forall|i: int| 0 <= i < s.len() && (#[trigger] s[i]) is Some implies i < pow2(self.index_size as nat) by {
                        if i != idx || old_slots[i] is Some {
                            assert(old_slots[i] is Some);
                            if (self.index_size as nat) > old(self).index_size as nat {
                                lemma_pow2_strictly_increases(old(self).index_size as nat, self.index_size as nat);
                            }
                        }
                    }
                    assert forall|i: int, j: int|
                        0 <= i < s.len() && 0 <= j < s.len() && i != j && (#[trigger] s[i]) is Some
                            && (#[trigger] s[j]) is Some implies s[i]->0.value.spec_key()
                        != s[j]->0.value.spec_key() by {
                        if i != idx && j != idx {
                            assert(old_slots[i] is Some && old_slots[j] is Some);
                        } else if i != idx {
                            assert(old_slots[i] is Some);
                            T::lemma_key_injective(old_slots[i]->0.value, entry.value);
                        } else {
                            assert(old_slots[j] is Some);
                            T::lemma_key_injective(old_slots[j]->0.value, entry.value);
                        }
                    }
                }
                (idx, widened)
            },
            None => {
                self.convert_to_hashmap();
                self.insert_into_heap(entry)
            },
        }
    }

    /// The slots as a vector.
    fn slot_vec(&self) -> (r: Vec<Option<Entry<T>>>)
        requires
            self.wf(),
        ensures
            r@ == self.slots(),
    {
        let mut r: Vec<Option<Entry<T>>> = Vec::new();
        match &self.storage {
            HybridStorage::Array(a) => {
                let mut i: usize = 0;
                while i < a.len()
                    invariant
                        i <= a@.len(),
                        a@ == self.slots(),
                        r@ == a@.take(i as int),
                    decreases a@.len() - i,
                {
                    r.push(a[i]);
                    i = i + 1;
                    proof {
                        assert(r@ =~= a@.take(i as int));
                    }
                }
                proof {
                    assert(a@.take(i as int) =~= a@);
                }
            },
            HybridStorage::HashMap { free_indices, index_map, .. } => {
                let n = self.real_entries + free_indices.len();
                let mut i: usize = 0;
                while i < n
                    invariant
                        i <= n,
                        n == self.slots().len(),
                        r@ == self.slots().take(i as int),
                        self.storage matches HybridStorage::HashMap { index_map: im, .. } && im == *index_map,
                    decreases n - i,
                {
                    let slot = match index_map.get(&i) {
                        Some(e) => Some(*e),
                        None => None,
                    };
                    r.push(slot);
                    i = i + 1;
                    proof {
                        assert(r@ =~= self.slots().take(i as int));
                    }
                }
                proof {
                    assert(self.slots().take(i as int) =~= self.slots());
                }
            },
        }
        r
    }

    /// Returns the entries of the palette, in index order.
    pub fn iter(&self) -> (r: Vec<Entry<T>>)
        requires
            self.wf(),
        ensures
            r@ == live_entries(self.slots()),
            r@.len() == self.spec_entries(),
    {
        let slots = self.slot_vec();
        let mut r: Vec<Entry<T>> = Vec::new();
        let mut i: usize = 0;
        while i < slots.len()
            invariant
                i <= slots@.len(),
                r@ == live_entries(slots@.take(i as int)),
            decreases slots@.len() - i,
        {
            proof {
                assert(slots@.take(i as int + 1).drop_last() =~= slots@.take(i as int));
            }
            match slots[i] {
                Some(e) => r.push(e),
                None => {},
            }
            i = i + 1;
        }
        proof {
            assert(slots@.take(i as int) =~= slots@);
            lemma_live_entries_len(self.slots());
        }
        r
    }

    /// The occupied slots ordered by count, highest first, ties broken by
    /// lower index first; each paired with its index.
    fn ranked_entries(&self) -> (order: Vec<(usize, Entry<T>)>)
        requires
            self.wf(),
        ensures
            order@.len() == self.spec_entries(),
            forall|t: int|
                0 <= t < order@.len() ==> (#[trigger] order@[t]).0 < self.slots().len()
                    && self.slots()[order@[t].0 as int] == Some(order@[t].1),
            forall|t1: int, t2: int|
                0 <= t1 < t2 < order@.len() ==> ranks_before(
                    (#[trigger] order@[t1]).1.count,
                    order@[t1].0,
                    (#[trigger] order@[t2]).1.count,
                    order@[t2].0,
                ),
            forall|i: int|
                0 <= i < self.slots().len() && (#[trigger] self.slots()[i]) is Some ==> exists|t: int|
                    0 <= t < order@.len() && (#[trigger] order@[t]).0 == i as usize,
    {
        let ghost s = self.slots();
        let mut remaining = self.slot_vec();
        let k = self.real_entries;
        let mut order: Vec<(usize, Entry<T>)> = Vec::new();
        let mut t: usize = 0;
        while t < k
            invariant
                remaining@.len() == s.len(),
                k == count_some(s),
                t <= k,
                count_some(remaining@) == k - t,
                order@.len() == t,
                forall|i: int|
                    0 <= i < s.len() && (#[trigger] remaining@[i]) is Some ==> remaining@[i] == s[i],
                forall|t1: int|
                    0 <= t1 < t ==> (#[trigger] order@[t1]).0 < s.len() && s[order@[t1].0 as int]
                        == Some(order@[t1].1) && remaining@[order@[t1].0 as int] is None,
                forall|i: int|
                    0 <= i < s.len() && (#[trigger] s[i]) is Some && remaining@[i] is None
                        ==> exists|t1: int| 0 <= t1 < t && (#[trigger] order@[t1]).0 == i as usize,
                forall|t1: int, t2: int|
                    0 <= t1 < t2 < t ==> ranks_before(
                        (#[trigger] order@[t1]).1.count,
                        order@[t1].0,
                        (#[trigger] order@[t2]).1.count,
                        order@[t2].0,
                    ),
                forall|t1: int, i: int|
                    0 <= t1 < t && 0 <= i < s.len() && (#[trigger] remaining@[i]) is Some
                        ==> ranks_before(
                        (#[trigger] order@[t1]).1.count,
                        order@[t1].0,
                        remaining@[i]->0.count,
                        i as usize,
                    ),
            decreases k - t,
        {
            let mut best: Option<usize> = None;
            let mut i: usize = 0;
            while i < remaining.len()
                invariant
                    i <= remaining@.len(),
                    match best {
                        Some(b) => b < i && remaining@[b as int] is Some && forall|j: int|
                            0 <= j < i && j != b && (#[trigger] remaining@[j]) is Some ==> ranks_before(
                                remaining@[b as int]->0.count,
                                b,
                                remaining@[j]->0.count,
                                j as usize,
                            ),
                        None => forall|j: int| 0 <= j < i ==> (#[trigger] remaining@[j]) is None,
                    },
                decreases remaining@.len() - i,
            {
                match remaining[i] {
                    Some(e) => {
                        match best {
                            None => {
                                best = Some(i);
                            },
                            Some(b) => {
                                let eb = remaining[b].unwrap();
                                if e.count > eb.count {
                                    best = Some(i);
                                }
                            },
                        }
                    },
                    None => {},
                }
                i = i + 1;
            }
            proof {
                if best is None {
                    lemma_count_some_none(remaining@);
                }
            }
            let b = best.unwrap();
            let e = remaining[b].unwrap();
            let ghost before = remaining@;
            let ghost old_order = order@;
            order.push((b, e));
            remaining.set(b, None);
            proof {
                lemma_count_some_update(before, b as int, None);
                assert forall|i: int|
                    0 <= i < s.len() && (#[trigger] s[i]) is Some && remaining@[i] is None
                        implies exists|t1: int| 0 <= t1 < t + 1 && (#[trigger] order@[t1]).0 == i as usize by {
                    if i == b {
                        assert(order@[t as int].0 == i as usize);
                    } else {
                        assert(before[i] is None);
                        let t1 = choose|t1: int| 0 <= t1 < t && (#[trigger] old_order[t1]).0 == i as usize;
                        assert(order@[t1] == old_order[t1]);
                        assert(order@[t1].0 == i as usize);
                    }
                }
                assert forall|t1: int, t2: int|
                    0 <= t1 < t2 < t + 1 implies ranks_before(
                        (#[trigger] order@[t1]).1.count,
                        order@[t1].0,
                        (#[trigger] order@[t2]).1.count,
                        order@[t2].0,
                    ) by {
                    if t2 == t {
                        assert(before[b as int] is Some);
                    }
                }
                assert forall|t1: int, i: int|
                    0 <= t1 < t + 1 && 0 <= i < s.len() && (#[trigger] remaining@[i]) is Some
                        implies ranks_before(
                        (#[trigger] order@[t1]).1.count,
                        order@[t1].0,
                        remaining@[i]->0.count,
                        i as usize,
                    ) by {
                    assert(before[i] is Some);
                    if t1 == t {
                        assert(i != b);
                    }
                }
            }
            t = t + 1;
        }
        proof {
            assert forall|i: int|
                0 <= i < s.len() && (#[trigger] s[i]) is Some implies exists|t1: int|
                    0 <= t1 < order@.len() && (#[trigger] order@[t1]).0 == i as usize by {
                if remaining@[i] is Some {
                    let mut r = remaining@;
                    lemma_count_some_update(r, i, None);
                }
            }
        }
        order
    }

    /// [`optimize`](Self::optimize) renumbers the entries: always for the
    /// array, and on the heap when the entries fit the array again or some
    /// index is free.
    pub open spec fn optimize_reorders(self) -> bool {
        self.is_array() || self.spec_entries() <= self.threshold() || self.free_slots().len() > 0
    }

    /// Facts the invariant gives: every entry has a positive count and an
    /// index that fits the index width, and no two entries share a value.
    pub proof fn lemma_wf_facts(self)
        requires
            self.wf(),
        ensures
            forall|i: int|
                0 <= i < self.slots().len() && (#[trigger] self.slots()[i]) is Some ==> i < pow2(self.width()),
            forall|i: int, j: int|
                0 <= i < self.slots().len() && 0 <= j < self.slots().len() && i != j
                    && (#[trigger] self.slots()[i]) is Some && (#[trigger] self.slots()[j]) is Some
                    ==> self.slots()[i]->0.value != self.slots()[j]->0.value,
            self.width() <= 64,
            self.spec_entries() <= self.slots().len(),
            self.slots().len() <= usize::MAX,
            !self.is_array() ==> self.slots().len() == self.spec_entries() + self.free_slots().len(),
            self.is_array() ==> self.slots().len() == self.threshold(),
            self.is_array() ==> self.free_slots().len() == 0,
    {
        let s = self.slots();
        lemma_count_some_prefix(s, 0);
        assert forall|i: int, j: int|
            0 <= i < s.len() && 0 <= j < s.len() && i != j && (#[trigger] s[i]) is Some
                && (#[trigger] s[j]) is Some implies s[i]->0.value != s[j]->0.value by {
            assert(s[i]->0.value.spec_key() != s[j]->0.value.spec_key());
        }
    }

    /// Orders the entries by count, highest first (ties keep the lower index
    /// first), and renumbers them from zero; also resets the index width to
    /// what the number of entries needs. Returns the old-to-new mapping, or
    /// `None` when no index changed.
    ///
    /// On the heap, while the entries outnumber the array and no index is
    /// free, the entries keep their indices. A mapping is returned exactly
    /// when some entry moved to another index.
    pub fn optimize(&mut self) -> (r: Option<IndexMapping>)
        requires
            old(self).wf(),
        ensures
            final(self).wf(),
            final(self).width() == bit_width(old(self).spec_entries()),
            final(self).spec_entries() == old(self).spec_entries(),
            final(self).threshold() == old(self).threshold(),
            !old(self).optimize_reorders() ==> {
                &&& r is None
                &&& final(self).slots() == old(self).slots()
                &&& final(self).is_array() == old(self).is_array()
                &&& final(self).free_slots() == old(self).free_slots()
            },
            old(self).optimize_reorders() ==> {
                &&& final(self).is_array() == (old(self).is_array() || old(self).spec_entries()
                    <= old(self).threshold())
                &&& final(self).free_slots() == Seq::<usize>::empty()
                &&& final(self).slots().len() == (if final(self).is_array() {
                    old(self).threshold()
                } else {
                    old(self).spec_entries()
                })
                &&& match r {
                    Some(m) => renumbers(
                        old(self).slots(),
                        final(self).slots(),
                        m@,
                        old(self).spec_entries(),
                    ) && exists|i: usize| #[trigger] m@.contains_key(i) && m@[i] != i,
                    None => renumbers(
                        old(self).slots(),
                        final(self).slots(),
                        identity_on(old(self).slots()),
                        old(self).spec_entries(),
                    ),
                }
            },
    {
        let ghost old_slots = self.slots();
        let k = self.real_entries;
        let new_size = index_width_for(k);
        proof {
            lemma_bit_width_bounds(k as nat);
            self.lemma_wf_facts();
        }
        let is_array = match &self.storage {
            HybridStorage::Array(_) => true,
            HybridStorage::HashMap { .. } => false,
        };
        let to_array = is_array || k <= self.heap_threshold;
        if !to_array {
            let free_empty = match &self.storage {
                HybridStorage::Array(_) => false,
                HybridStorage::HashMap { free_indices, .. } => free_indices.len() == 0,
            };
            if free_empty {
                self.index_size = new_size;
                proof {
                    assert(self.slots() == old_slots);
                }
                return None;
            }
        }
        let order = self.ranked_entries();
        let mut mapping = IndexMapping::new();
        let mut needs_new_mapping = false;
        let mut t: usize = 0;
        while t < k
            invariant
                t <= k,
                k == count_some(old_slots),
                order@.len() == k,
                forall|t1: int|
                    0 <= t1 < order@.len() ==> (#[trigger] order@[t1]).0 < old_slots.len()
                        && old_slots[order@[t1].0 as int] == Some(order@[t1].1),
                forall|t1: int, t2: int|
                    0 <= t1 < t2 < order@.len() ==> ranks_before(
                        (#[trigger] order@[t1]).1.count,
                        order@[t1].0,
                        (#[trigger] order@[t2]).1.count,
                        order@[t2].0,
                    ),
                forall|t1: int|
                    0 <= t1 < t ==> mapping@.contains_key((#[trigger] order@[t1]).0)
                        && mapping@[order@[t1].0] == t1,
                forall|i: usize|
                    #[trigger] mapping@.contains_key(i) ==> exists|t1: int|
                        0 <= t1 < t && (#[trigger] order@[t1]).0 == i,
                !needs_new_mapping ==> forall|t1: int| 0 <= t1 < t ==> (#[trigger] order@[t1]).0 == t1,
                needs_new_mapping ==> exists|t1: int| 0 <= t1 < t && (#[trigger] order@[t1]).0 != t1,
            decreases k - t,
        {
            let old_idx = order[t].0;
            if old_idx != t {
                needs_new_mapping = true;
            }
            let ghost before = mapping@;
            mapping.insert(old_idx, t);
            proof {
                assert forall|t1: int| 0 <= t1 < t + 1 implies mapping@.contains_key((#[trigger] order@[t1]).0)
                    && mapping@[order@[t1].0] == t1 by {
                    if t1 < t {
                        assert(ranks_before(order@[t1].1.count, order@[t1].0, order@[t as int].1.count, order@[t as int].0));
                        assert(order@[t1].0 != old_idx);
                    }
                }
                assert forall|i: usize| #[trigger] mapping@.contains_key(i) implies exists|t1: int|
                    0 <= t1 < t + 1 && (#[trigger] order@[t1]).0 == i by {
                    if i != old_idx {
                        assert(before.contains_key(i));
                    } else {
                        assert(order@[t as int].0 == i);
                    }
                }
            }
            t = t + 1;
        }
        proof {
            assert forall|t1: int, t2: int| 0 <= t1 < order@.len() && 0 <= t2 < order@.len() && t1 != t2
                implies (#[trigger] order@[t1]).0 != (#[trigger] order@[t2]).0
                && order@[t1].1.value.spec_key() != order@[t2].1.value.spec_key() by {
                if t1 < t2 {
                    assert(ranks_before(order@[t1].1.count, order@[t1].0, order@[t2].1.count, order@[t2].0));
                } else {
                    assert(ranks_before(order@[t2].1.count, order@[t2].0, order@[t1].1.count, order@[t1].0));
                }
                assert(old_slots[order@[t1].0 as int] is Some && old_slots[order@[t2].0 as int] is Some);
                assert(old_slots[order@[t1].0 as int]->0.value.spec_key() != old_slots[order@[t2].0 as int]->0.value.spec_key());
            }
        }
        self.index_size = new_size;
        if to_array {
            let mut a: Vec<Option<Entry<T>>> = Vec::new();
            let mut j: usize = 0;
            while j < self.heap_threshold
                invariant
                    j <= self.heap_threshold,
                    k <= self.heap_threshold,
                    order@.len() == k,
                    a@.len() == j,
                    forall|j1: int| 0 <= j1 < j ==> (#[trigger] a@[j1]) == (if j1 < k {
                        Some(order@[j1].1)
                    } else {
                        None
                    }),
                decreases self.heap_threshold - j,
            {
                if j < k {
                    a.push(Some(order[j].1));
                } else {
                    a.push(None);
                }
                j = j + 1;
            }
            proof {
                assert(k <= self.heap_threshold) by {
                    if is_array {
                        lemma_count_some_prefix(old_slots, 0);
                    }
                }
            }
            self.storage = HybridStorage::Array(a);
            proof {
                let s = self.slots();
                lemma_order_renumbers(old_slots, s, order@, mapping@, k as nat);
                lemma_count_some_exact(s, k as int);
                assert forall|i: int| 0 <= i < s.len() && (#[trigger] s[i]) is Some implies i < pow2(self.index_size as nat) by {
                    assert(old_slots[order@[i].0 as int] is Some);
                }
                assert forall|i: int, j: int|
                    0 <= i < s.len() && 0 <= j < s.len() && i != j && (#[trigger] s[i]) is Some
                        && (#[trigger] s[j]) is Some implies s[i]->0.value.spec_key()
                    != s[j]->0.value.spec_key() by {
                    assert(order@[i].1.value.spec_key() != order@[j].1.value.spec_key());
                }
            }
            if needs_new_mapping {
                proof {
                    let t1 = choose|t1: int| 0 <= t1 < t && (#[trigger] order@[t1]).0 != t1;
                    assert(mapping@.contains_key(order@[t1].0) && mapping@[order@[t1].0] != order@[t1].0);
                }
                Some(mapping)
            } else {
                proof {
                    assert(mapping@ =~= identity_on(old_slots)) by {
                        assert forall|i: usize| #[trigger] mapping@.contains_key(i) implies identity_on(old_slots).contains_key(i)
                            && mapping@[i] == i by {
                            let t1 = choose|t1: int| 0 <= t1 < k && (#[trigger] order@[t1]).0 == i;
                        }
                        assert forall|i: usize| #[trigger] identity_on(old_slots).contains_key(i) implies mapping@.contains_key(i) by {
                        }
                    }
                }
                None
            }
        } else {
            let mut index_map: HashMap<usize, Entry<T>> = HashMap::new();
            let mut value_map = KeyIndexMap::new();
            let mut j: usize = 0;
            while j < k
                invariant
                    j <= k,
                    order@.len() == k,
                    forall|t1: int, t2: int| 0 <= t1 < order@.len() && 0 <= t2 < order@.len() && t1 != t2
                        ==> (#[trigger] order@[t1]).1.value.spec_key() != (#[trigger] order@[t2]).1.value.spec_key(),
                    forall|i: usize| #[trigger] index_map@.contains_key(i) <==> i < j,
                    forall|i: usize| #[trigger] index_map@.contains_key(i) ==> index_map@[i] == order@[i as int].1,
                    forall|kk: u64| #[trigger] value_map@.contains_key(kk) ==> value_map@[kk] < j
                        && order@[value_map@[kk] as int].1.value.spec_key() == kk,
                    forall|i: usize| i < j ==> #[trigger] value_map@.contains_key(order@[i as int].1.value.spec_key())
                        && value_map@[order@[i as int].1.value.spec_key()] == i,
                decreases k - j,
            {
                let e = order[j].1;
                let ghost before = value_map@;
                index_map.insert(j, e);
                value_map.insert(e.value.key(), j);
                proof {
                    assert(e == order@[j as int].1);
                    assert forall|kk: u64| #[trigger] value_map@.contains_key(kk) implies value_map@[kk] < j + 1
                        && order@[value_map@[kk] as int].1.value.spec_key() == kk by {
                        if kk != e.value.spec_key() {
                            assert(before.contains_key(kk));
                        }
                    }
                    assert forall|i: usize| i < j + 1 implies #[trigger] value_map@.contains_key(order@[i as int].1.value.spec_key())
                        && value_map@[order@[i as int].1.value.spec_key()] == i by {
                        if i < j {
                            assert(order@[i as int].1.value.spec_key() != order@[j as int].1.value.spec_key());
                        }
                    }
                }
                j = j + 1;
            }
            let free_indices: Vec<usize> = Vec::new();
            self.storage = HybridStorage::HashMap { free_indices, index_map, value_map };
            proof {
                let s = self.slots();
                assert(s.len() == k);
                assert forall|j1: int| 0 <= j1 < s.len() implies (#[trigger] s[j1]) == (if j1 < k {
                    Some(order@[j1].1) } else { None }) by {
                    assert(index_map@.contains_key(j1 as usize));
                }
                lemma_order_renumbers(old_slots, s, order@, mapping@, k as nat);
                lemma_count_some_exact(s, k as int);
                assert forall|i: int| 0 <= i < s.len() && (#[trigger] s[i]) is Some implies i < pow2(self.index_size as nat) by {
                    assert(old_slots[order@[i].0 as int] is Some);
                }
                assert forall|i: int, j: int|
                    0 <= i < s.len() && 0 <= j < s.len() && i != j && (#[trigger] s[i]) is Some
                        && (#[trigger] s[j]) is Some implies s[i]->0.value.spec_key()
                    != s[j]->0.value.spec_key() by {
                    assert(order@[i].1.value.spec_key() != order@[j].1.value.spec_key());
                }
                assert forall|kk: u64| #[trigger] value_map@.contains_key(kk) implies index_map@.contains_key(value_map@[kk])
                    && index_map@[value_map@[kk]].value.spec_key() == kk by {
                }
            }
            if needs_new_mapping {
                proof {
                    let t1 = choose|t1: int| 0 <= t1 < t && (#[trigger] order@[t1]).0 != t1;
                    assert(mapping@.contains_key(order@[t1].0) && mapping@[order@[t1].0] != order@[t1].0);
                }
                Some(mapping)
            } else {
                proof {
                    assert(mapping@ =~= identity_on(old_slots)) by {
                        assert forall|i: usize| #[trigger] mapping@.contains_key(i) implies identity_on(old_slots).contains_key(i)
                            && mapping@[i] == i by {
                            let t1 = choose|t1: int| 0 <= t1 < k && (#[trigger] order@[t1]).0 == i;
                        }
                        assert forall|i: usize| #[trigger] identity_on(old_slots).contains_key(i) implies mapping@.contains_key(i) by {
                        }
                    }
                }
                None
            }
        }
    }
}

} // verus!
