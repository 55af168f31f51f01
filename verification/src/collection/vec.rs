//! A vector-like collection whose items are palette-compressed.

use vstd::prelude::*;

use super::{occurrences, lemma_occurrences_push, lemma_occurrences_bounds, lemma_occurrences_map, lemma_occurrences_repeat};
use crate::index::{AlignedIndexBuffer, IndexBuffer, IndexMapping, fits, remapped};
use crate::palette::{
    Entry, PaletteValue, bit_width, lemma_count_some_update, occupied,
    lemma_count_some_card,
};
use crate::palette::hybrid::{HybridPalette, identity_on, hits};
use crate::cursor::cursor_step;

verus! {

/// A data structure similar to a [`Vec`], but storing its items with palette
/// compression: each distinct value is kept once in a palette, and each
/// position holds the index of its value's palette entry.
#[derive(Clone, Debug)]
pub struct PVec<T> {
    palette: HybridPalette<T>,
    buffer: AlignedIndexBuffer,
}

impl<T: PaletteValue> View for PVec<T> {
    type V = Seq<T>;

    closed spec fn view(&self) -> Seq<T> {
        self.buffer@.map_values(|idx: usize| self.palette.slot(idx as int)->0.value)
    }
}


impl<T: PaletteValue> PVec<T> {
    /// The internal invariant: every stored index names a palette entry, the
    /// buffer is as wide as the palette's indices, and each entry counts how
    /// many positions hold its index, which is at least one.
    pub closed spec fn wf(self) -> bool {
        &&& self.palette.wf()
        &&& self.buffer.wf()
        &&& self.buffer.width() == self.palette.width()
        &&& forall|i: int|
            0 <= i < self.buffer@.len() ==> (#[trigger] self.palette.slot(self.buffer@[i] as int)) is Some
        &&& forall|idx: usize|
            (#[trigger] self.palette.slot(idx as int)) is Some ==> self.palette.slot(idx as int)->0.count
                == occurrences(self.buffer@, idx) && self.palette.slot(idx as int)->0.count > 0
    }

    /// The width in bits of each stored palette index.
    pub closed spec fn index_width(self) -> nat {
        self.buffer.width()
    }

    /// The palette index stored for the item at `i`.
    pub closed spec fn stored_index(self, i: int) -> usize {
        self.buffer@[i]
    }

    /// The number of distinct values stored.
    spec fn unique_count(self) -> nat {
        self.palette.spec_entries()
    }

    /// The palette holds no more entries than the buffer holds indices.
    proof fn lemma_entries_le_len(self)
        requires
            self.wf(),
        ensures
            self.palette.spec_entries() <= self.buffer@.len(),
    {
        let s = self.palette.slots();
        self.palette.lemma_wf_facts();
        lemma_count_some_card(s);
        let b = self.buffer@;
        assert(occupied(s).subset_of(b.to_set())) by {
            assert forall|i: usize| occupied(s).contains(i) implies b.to_set().contains(i) by {
                assert(self.palette.slot(i as int) is Some);
                lemma_occurrences_bounds(b, i);
            }
        }
        vstd::seq_lib::seq_to_set_is_finite(b);
        vstd::set_lib::lemma_len_subset(occupied(s), b.to_set());
        b.lemma_cardinality_of_set();
    }

    /// Constructs a new, empty [`PVec`].
    pub fn new() -> (r: Self)
        ensures
            r.wf(),
            r@ == Seq::<T>::empty(),
    {
        let palette = HybridPalette::new();
        let buffer = AlignedIndexBuffer::new();
        let r = PVec { palette, buffer };
        proof {
            crate::palette::lemma_count_some_none(r.palette.slots());
            assert(r@ =~= Seq::<T>::empty());
            assert forall|idx: usize| (#[trigger] r.palette.slot(idx as int)) is Some implies r.palette.slot(idx as int)->0.count
                == occurrences(r.buffer@, idx) by {
            }
        }
        r
    }

    /// Returns the number of items stored.
    pub fn len(&self) -> (r: usize)
        requires
            self.wf(),
        ensures
            r == self@.len(),
    {
        self.buffer.len()
    }

    /// Returns `true` if no items are stored.
    pub fn is_empty(&self) -> (r: bool)
        requires
            self.wf(),
        ensures
            r == (self@.len() == 0),
    {
        self.buffer.is_empty()
    }

    /// Returns the number of distinct values stored.
    pub fn unique_values(&self) -> (r: usize)
        requires
            self.wf(),
        ensures
            r == self@.to_set().len(),
    {
        proof {
            self.lemma_unique_count();
        }
        self.palette.entries()
    }

    /// Returns a reference to the item at `offset`, or `None` past the end.
    pub fn get(&self, offset: usize) -> (r: Option<&T>)
        requires
            self.wf(),
        ensures
            r == (if offset < self@.len() {
                Some(&self@[offset as int])
            } else {
                None::<&T>
            }),
    {
        match self.buffer.get(offset) {
            None => None,
            Some(idx) => {
                proof {
                    assert(self.palette.slot(self.buffer@[offset as int] as int) is Some);
                }
                match self.palette.get(idx) {
                    Some(e) => Some(&e.value),
                    None => None,
                }
            },
        }
    }

    /// Returns `true` if `offset` is a valid position.
    pub fn contains(&self, offset: usize) -> (r: bool)
        requires
            self.wf(),
        ensures
            r == (offset < self@.len()),
    {
        self.buffer.get(offset).is_some()
    }

    /// Appends an item to the end.
    pub fn push(&mut self, value: T)
        requires
            old(self).wf(),
            old(self)@.len() < usize::MAX,
        ensures
            final(self).wf(),
            final(self)@ == old(self)@.push(value),
    {
        let ghost old_buf = self.buffer@;
        let ghost old_slots = self.palette.slots();
        proof {
            self.lemma_entries_le_len();
            self.palette.lemma_wf_facts();
        }
        let found = match self.palette.find(&value) {
            Some((e, idx)) => Some((idx, e.count)),
            None => None,
        };
        match found {
            None => {
                let (idx, new_idx_size) = self.palette.insert_new(Entry { value, count: 1 });
                proof {
                    self.palette.lemma_wf_facts();
                }
                match new_idx_size {
                    Some(w) => {
                        proof {
                            assert forall|i: int| 0 <= i < old_buf.len() implies {
                                &&& (None::<IndexMapping> is Some ==> None::<IndexMapping>->0@.contains_key(#[trigger] old_buf[i]))
                                &&& fits(remapped(old_buf[i], None), w as nat)
                            } by {
                                assert(old(self).palette.slot(old_buf[i] as int) is Some);
                                assert(self.palette.slots()[old_buf[i] as int] is Some);
                            }
                        }
                        self.buffer.set_index_size(w as usize, None);
                        proof {
                            assert(self.buffer@ =~= old_buf);
                        }
                    },
                    None => {},
                }
                self.buffer.push(idx);
                proof {
                    assert(self.buffer@ == old_buf.push(idx));
                    assert forall|i: int| 0 <= i < old_buf.len() implies old_buf[i] != idx by {
                        assert(old(self).palette.slot(old_buf[i] as int) is Some);
                    }
                    lemma_occurrences_bounds(old_buf, idx);
                    self.lemma_push_wf(old(self).palette, old_buf, idx, value);
                }
            },
            Some((idx, count)) => {
                proof {
                    assert(old(self).palette.slot(idx as int) is Some);
                    lemma_occurrences_bounds(old_buf, idx);
                }
                self.palette.set_count(idx, count + 1);
                proof {
                    self.palette.lemma_wf_facts();
                }
                self.buffer.push(idx);
                proof {
                    self.lemma_push_wf(old(self).palette, old_buf, idx, value);
                }
            },
        }
    }

    proof fn lemma_push_wf(self, old_palette: HybridPalette<T>, old_buf: Seq<usize>, idx: usize, value: T)
        requires
            self.palette.wf(),
            self.buffer.wf(),
            self.buffer.width() == self.palette.width(),
            self.buffer@ == old_buf.push(idx),
            self.palette.slot(idx as int) is Some,
            self.palette.slot(idx as int)->0.value == value,
            self.palette.slot(idx as int)->0.count == occurrences(old_buf, idx) + 1,
            forall|j: usize| j != idx ==> #[trigger] self.palette.slot(j as int) == old_palette.slot(j as int),
            old_palette.slot(idx as int) is Some ==> old_palette.slot(idx as int)->0.value == value,
            forall|i: int|
                0 <= i < old_buf.len() ==> (#[trigger] old_palette.slot(old_buf[i] as int)) is Some,
            forall|j: usize|
                (#[trigger] old_palette.slot(j as int)) is Some ==> old_palette.slot(j as int)->0.count
                    == occurrences(old_buf, j) && old_palette.slot(j as int)->0.count > 0,
        ensures
            self.wf(),
            self@ == old_buf.map_values(|i: usize| old_palette.slot(i as int)->0.value).push(value),
    {
        assert forall|i: int|
            0 <= i < self.buffer@.len() implies (#[trigger] self.palette.slot(self.buffer@[i] as int)) is Some by {
            if i < old_buf.len() {
                if old_buf[i] != idx {
                    assert(old_palette.slot(old_buf[i] as int) is Some);
                }
            }
        }
        assert forall|j: usize|
            (#[trigger] self.palette.slot(j as int)) is Some implies self.palette.slot(j as int)->0.count
                == occurrences(self.buffer@, j) && self.palette.slot(j as int)->0.count > 0 by {
            lemma_occurrences_push(old_buf, idx, j);
            if j != idx {
                assert(old_palette.slot(j as int) is Some);
            }
        }
        assert(self@ =~= old_buf.map_values(|i: usize| old_palette.slot(i as int)->0.value).push(value)) by {
            assert forall|i: int| 0 <= i < old_buf.len() implies self.palette.slot(old_buf[i] as int)->0.value == old_palette.slot(old_buf[i] as int)->0.value by {
                if old_buf[i] == idx {
                    assert(old_palette.slot(idx as int) is Some);
                }
            }
        }
    }
}


impl<T: PaletteValue> PVec<T> {
    /// Removes the last item and returns it, or returns `None` if there is
    /// none.
    pub fn pop(&mut self) -> (r: Option<T>)
        requires
            old(self).wf(),
        ensures
            final(self).wf(),
            old(self)@.len() == 0 ==> r is None && final(self)@ == old(self)@,
            old(self)@.len() > 0 ==> r == Some(old(self)@.last()) && final(self)@ == old(
                self,
            )@.drop_last(),
    {
        let ghost old_buf = self.buffer@;
        let idx = match self.buffer.pop() {
            None => {
                return None;
            },
            Some(idx) => idx,
        };
        proof {
            assert(old(self).palette.slot(old_buf[old_buf.len() - 1] as int) is Some);
        }
        let e = match self.palette.get(idx) {
            Some(e) => *e,
            None => {
                return None;
            },
        };
        let value = e.value;
        let ghost new_buf = self.buffer@;
        proof {
            assert(old_buf =~= new_buf.push(idx));
            lemma_occurrences_push(new_buf, idx, idx);
        }
        if e.count - 1 == 0 {
            self.palette.free(idx);
        } else {
            self.palette.set_count(idx, e.count - 1);
        }
        proof {
            self.palette.lemma_wf_facts();
            assert forall|j: usize|
                (#[trigger] self.palette.slot(j as int)) is Some implies self.palette.slot(j as int)->0.count
                    == occurrences(self.buffer@, j) by {
                lemma_occurrences_push(new_buf, idx, j);
                if j != idx {
                    assert(old(self).palette.slot(j as int) is Some);
                }
            }
            assert forall|i: int|
                0 <= i < self.buffer@.len() implies (#[trigger] self.palette.slot(self.buffer@[i] as int)) is Some by {
                assert(old_buf[i] == self.buffer@[i]);
                assert(old(self).palette.slot(old_buf[i] as int) is Some);
                if self.buffer@[i] == idx && e.count - 1 == 0 {
                    lemma_occurrences_bounds(new_buf, idx);
                }
            }
            assert(self@ =~= old(self)@.drop_last()) by {
                assert forall|i: int| 0 <= i < new_buf.len() implies self.palette.slot(new_buf[i] as int)->0.value
                    == old(self).palette.slot(new_buf[i] as int)->0.value by {
                    assert(old_buf[i] == new_buf[i]);
                    if new_buf[i] == idx && e.count - 1 == 0 {
                        lemma_occurrences_bounds(new_buf, idx);
                    }
                }
            }
        }
        Some(value)
    }

    /// Constructs a [`PVec`] holding `value` repeated `len` times.
    ///
    /// The palette takes `value` as an entry counted `len` times, and a
    /// palette entry is never inserted with a count of zero: `len` must be
    /// positive.
    pub fn filled(value: T, len: usize) -> (r: Self)
        requires
            len > 0,
        ensures
            r.wf(),
            r@ == Seq::new(len as nat, |i: int| value),
    {
        let mut palette: HybridPalette<T> = HybridPalette::new();
        let ghost p0 = palette;
        proof {
            crate::palette::lemma_count_some_none(p0.slots());
            assert(bit_width(0) == 0);
            assert(bit_width(1) == 1);
        }
        let (index, index_size) = palette.insert_new(Entry { value, count: len });
        let mut buffer = AlignedIndexBuffer::new();
        match index_size {
            Some(w) => {
                buffer.set_index_size(w as usize, None);
            },
            None => {},
        }
        buffer.truncate_cleared(len);
        let r = PVec { palette, buffer };
        proof {
            r.palette.lemma_wf_facts();
            assert(index == 0);
            if p0.slots().len() > 0 {
                lemma_count_some_update(p0.slots(), 0, Some(Entry { value, count: len }));
            } else {
                crate::palette::lemma_count_some_push(p0.slots(), Some(Entry { value, count: len }));
            }
            assert(r.palette.width() == 1) by {
                vstd::arithmetic::power2::lemma2_to64();
            }
            assert(r.buffer@ =~= Seq::new(len as nat, |i: int| 0usize));
            lemma_occurrences_repeat(len as nat, 0usize);
            assert forall|j: usize| (#[trigger] r.palette.slot(j as int)) is Some implies r.palette.slot(j as int)->0.count
                == occurrences(r.buffer@, j) && r.palette.slot(j as int)->0.count > 0 by {
                assert(j == 0);
            }
            assert(r@ =~= Seq::new(len as nat, |i: int| value));
        }
        r
    }
}


impl<T: PaletteValue> PVec<T> {
    /// Optimizes the stored values: the palette is reordered by use and its
    /// index width reset, which can shrink the stored indices. The items are
    /// unchanged.
    pub fn optimize(&mut self)
        requires
            old(self).wf(),
        ensures
            final(self).wf(),
            final(self)@ == old(self)@,
            final(self).index_width() == bit_width(old(self)@.to_set().len()),
            forall|i: int|
                0 <= i < final(self)@.len() ==> (#[trigger] final(self).stored_index(i) as int)
                    < old(self)@.to_set().len(),
    {
        proof {
            self.lemma_unique_count();
        }
        let ghost old_buf = self.buffer@;
        let ghost old_pal = self.palette;
        let ghost k = old_pal.spec_entries();
        let mapping = self.palette.optimize();
        let ghost gm = mapping;
        let new_index_size = self.palette.index_width();
        let ghost new_pal = self.palette;
        let ghost f = |b: usize| remapped(b, gm);
        proof {
            old_pal.lemma_wf_facts();
            new_pal.lemma_wf_facts();
            crate::palette::lemma_bit_width_bounds(k);
            // every stored index is renamed to an occupied index of the new
            // palette holding the same entry
            assert forall|i: int| 0 <= i < old_buf.len() implies {
                &&& (gm is Some ==> gm->0@.contains_key(#[trigger] old_buf[i]))
                &&& new_pal.slot(f(old_buf[i]) as int) == old_pal.slot(old_buf[i] as int)
                &&& (f(old_buf[i]) as int) < k
            } by {
                let b = old_buf[i];
                assert(old_pal.slot(b as int) is Some);
                assert(old_pal.slots()[b as int] is Some);
                lemma_count_some_card(old_pal.slots());
                assert(occupied(old_pal.slots()).contains(b));
                if !old_pal.optimize_reorders() {
                    assert(new_pal.slots()[b as int] is Some);
                    assert(occupied(new_pal.slots()).contains(b));
                    assert(new_pal.slots().len() == k);
                } else {
                    match gm {
                        Some(m) => {
                            assert(m@.contains_key(b));
                        },
                        None => {
                            assert(identity_on(old_pal.slots()).contains_key(b));
                        },
                    }
                }
            }
        }
        self.buffer.set_index_size(new_index_size as usize, mapping);
        proof {
            let nb = self.buffer@;
            if new_index_size == 0 {
                if old_buf.len() > 0 {
                    assert((f(old_buf[0]) as int) < k);
                }
                assert(nb =~= old_buf.map_values(f));
            }
            assert(nb =~= old_buf.map_values(f));
            // renaming is injective on the stored indices
            assert forall|p: int, q: int|
                0 <= p < old_buf.len() && 0 <= q < old_buf.len() && f(#[trigger] old_buf[p]) == f(#[trigger] old_buf[q])
                implies old_buf[p] == old_buf[q] by {
                assert(new_pal.slot(f(old_buf[p]) as int) == old_pal.slot(old_buf[p] as int));
                assert(new_pal.slot(f(old_buf[q]) as int) == old_pal.slot(old_buf[q] as int));
                assert(old_pal.slot(old_buf[p] as int) is Some);
                assert(old_pal.slot(old_buf[q] as int) is Some);
                if old_buf[p] != old_buf[q] {
                    assert(old_pal.slots()[old_buf[p] as int] is Some);
                    assert(old_pal.slots()[old_buf[q] as int] is Some);
                }
            }
            assert forall|i: int|
                0 <= i < nb.len() implies (#[trigger] new_pal.slot(nb[i] as int)) is Some by {
                assert(old_pal.slot(old_buf[i] as int) is Some);
            }
            assert forall|j: usize|
                (#[trigger] new_pal.slot(j as int)) is Some implies new_pal.slot(j as int)->0.count
                    == occurrences(nb, j) && new_pal.slot(j as int)->0.count > 0 by {
                assert(new_pal.slots()[j as int] is Some);
                let i: usize = if !old_pal.optimize_reorders() {
                    j
                } else {
                    match gm {
                        Some(m) => {
                            assert(hits(m@, j as int));
                            choose|i: usize| #[trigger] m@.contains_key(i) && m@[i] == j
                        },
                        None => {
                            assert(hits(identity_on(old_pal.slots()), j as int));
                            choose|i: usize| #[trigger] identity_on(old_pal.slots()).contains_key(i) && identity_on(old_pal.slots())[i] == j
                        },
                    }
                };
                assert(f(i) == j);
                assert(new_pal.slot(j as int) == old_pal.slot(i as int));
                assert(old_pal.slot(i as int) is Some);
                assert forall|p: int| 0 <= p < old_buf.len() && f(#[trigger] old_buf[p]) == f(i) implies old_buf[p] == i by {
                    assert(new_pal.slot(f(old_buf[p]) as int) == old_pal.slot(old_buf[p] as int));
                    assert(old_pal.slot(old_buf[p] as int) is Some);
                    if old_buf[p] != i {
                        assert(old_pal.slots()[old_buf[p] as int] is Some);
                        assert(old_pal.slots()[i as int] is Some);
                    }
                }
                lemma_occurrences_map(old_buf, f, i);
            }
            assert(self@ =~= old(self)@) by {
                assert forall|i: int| 0 <= i < old_buf.len() implies new_pal.slot(nb[i] as int)->0.value
                    == old_pal.slot(old_buf[i] as int)->0.value by {
                }
            }
            assert forall|i: int| 0 <= i < nb.len() implies (#[trigger] self.stored_index(i) as int) < k by {
                assert(nb[i] == f(old_buf[i]));
            }
        }
    }
}


impl<T: PaletteValue> PVec<T> {
    /// The palette holds one entry per distinct stored value.
    proof fn lemma_unique_count(self)
        requires
            self.wf(),
        ensures
            self.unique_count() == self@.to_set().len(),
    {
        let s = self.palette.slots();
        self.palette.lemma_wf_facts();
        lemma_count_some_card(s);
        let o = occupied(s);
        let g = |i: usize| self.palette.slot(i as int)->0.value;
        let v = self@.to_set();
        assert(o.map(g) =~= v) by {
            assert forall|x: T| v.contains(x) implies o.map(g).contains(x) by {
                let p = choose|p: int| 0 <= p < self@.len() && self@[p] == x;
                let b = self.buffer@[p];
                assert(self.palette.slot(b as int) is Some);
                assert(o.contains(b));
            }
            assert forall|x: T| o.map(g).contains(x) implies v.contains(x) by {
                let i = choose|i: usize| o.contains(i) && g(i) == x;
                assert(self.palette.slot(i as int) is Some);
                lemma_occurrences_bounds(self.buffer@, i);
                let p = choose|p: int| 0 <= p < self.buffer@.len() && self.buffer@[p] == i;
                assert(self@[p] == x);
            }
        }
        assert(vstd::relations::injective_on(g, o)) by {
            assert forall|a: usize, b: usize| o.contains(a) && o.contains(b) && #[trigger] g(a) == #[trigger] g(b)
                implies a == b by {
                if a != b {
                    assert(s[a as int] is Some && s[b as int] is Some);
                }
            }
        }
        vstd::set_lib::lemma_map_size(o, v, g);
    }
}


impl<T: PaletteValue> PVec<T> {
    /// Returns a cursor over the stored items, first to last.
    pub fn iter(&self) -> (r: Iter<'_, T>)
        ensures
            r.items() == self@,
            r.position() == 0,
            r.valid() == self.wf(),
    {
        Iter { vec: self, offset: 0 }
    }

    /// Returns a cursor over the stored items paired with their offsets.
    pub fn index_iter(&self) -> (r: IndexIter<'_, T>)
        ensures
            r.items() == self@,
            r.position() == 0,
            r.valid() == self.wf(),
    {
        IndexIter { vec: self, offset: 0 }
    }

    /// Collects `values` into a [`PVec`], in order.
    pub fn from_iter(values: Vec<T>) -> (r: Self)
        ensures
            r.wf(),
            r@ == values@,
    {
        let mut ret = Self::new();
        let mut i: usize = 0;
        while i < values.len()
            invariant
                i <= values@.len(),
                ret.wf(),
                ret@ == values@.take(i as int),
            decreases values@.len() - i,
        {
            ret.push(values[i]);
            i = i + 1;
            proof {
                assert(ret@ =~= values@.take(i as int));
            }
        }
        proof {
            assert(values@.take(i as int) =~= values@);
        }
        ret
    }
}

/// Popping right after a push gives back the pushed item and leaves the
/// [`PVec`] as it was before the push: the same items, so the same length,
/// the same item at every offset and the same number of distinct values.
///
/// `pushed` is `before` after [`PVec::push`] of `value`, and `popped` and
/// `r` are what [`PVec::pop`] then leaves and returns, each as that
/// function's contract gives it.
pub proof fn lemma_pop_undoes_push<T: PaletteValue>(
    before: PVec<T>,
    value: T,
    pushed: PVec<T>,
    popped: PVec<T>,
    r: Option<T>,
)
    requires
        pushed@ == before@.push(value),
        pushed@.len() == 0 ==> r is None && popped@ == pushed@,
        pushed@.len() > 0 ==> r == Some(pushed@.last()) && popped@ == pushed@.drop_last(),
    ensures
        r == Some(value),
        popped@ == before@,
        popped@.len() == before@.len(),
        forall|i: int| 0 <= i < before@.len() ==> #[trigger] popped@[i] == before@[i],
        popped@.to_set().len() == before@.to_set().len(),
{
    assert(before@.push(value).drop_last() =~= before@);
}

impl<T: PaletteValue> Default for PVec<T> {
    fn default() -> (r: Self)
        ensures
            r.wf(),
            r@ == Seq::<T>::empty(),
    {
        Self::new()
    }
}

/// A cursor over the items of a [`PVec`], first to last.
pub struct Iter<'a, T> {
    vec: &'a PVec<T>,
    offset: usize,
}

impl<'a, T: PaletteValue> Iter<'a, T> {
    /// The items walked over.
    pub closed spec fn items(&self) -> Seq<T> {
        self.vec@
    }

    /// The number of items already yielded.
    pub closed spec fn position(&self) -> nat {
        self.offset as nat
    }

    /// The walked [`PVec`] is well formed.
    pub closed spec fn valid(&self) -> bool {
        self.vec.wf()
    }

    /// Yields the next item, or `None` once every item has been yielded.
    pub fn next(&mut self) -> (r: Option<&'a T>)
        requires
            old(self).valid(),
            old(self).position() <= old(self).items().len(),
        ensures
            final(self).valid(),
            final(self).items() == old(self).items(),
            final(self).position() <= final(self).items().len(),
            old(self).position() < old(self).items().len() ==> {
                &&& r == Some(&old(self).items()[old(self).position() as int])
                &&& final(self).position() == old(self).position() + 1
            },
            old(self).position() == old(self).items().len() ==> {
                &&& r is None
                &&& final(self).position() == old(self).position()
            },
            cursor_step(
                old(self).items(),
                old(self).position(),
                (match r {
                    Some(x) => Some(*x),
                    None => None,
                }),
                final(self).position(),
            ),
    {
        if self.offset < self.vec.len() {
            let r = self.vec.get(self.offset);
            self.offset = self.offset + 1;
            r
        } else {
            None
        }
    }
}

/// A cursor over the items of a [`PVec`] paired with their offsets.
pub struct IndexIter<'a, T> {
    vec: &'a PVec<T>,
    offset: usize,
}

impl<'a, T: PaletteValue> IndexIter<'a, T> {
    /// The items walked over.
    pub closed spec fn items(&self) -> Seq<T> {
        self.vec@
    }

    /// The number of items already yielded.
    pub closed spec fn position(&self) -> nat {
        self.offset as nat
    }

    /// The walked [`PVec`] is well formed.
    pub closed spec fn valid(&self) -> bool {
        self.vec.wf()
    }

    /// Yields the next offset and item, or `None` once every item has been
    /// yielded.
    pub fn next(&mut self) -> (r: Option<(usize, &'a T)>)
        requires
            old(self).valid(),
            old(self).position() <= old(self).items().len(),
        ensures
            final(self).valid(),
            final(self).items() == old(self).items(),
            final(self).position() <= final(self).items().len(),
            old(self).position() < old(self).items().len() ==> {
                &&& r == Some((old(self).position() as usize, &old(self).items()[old(self).position() as int]))
                &&& final(self).position() == old(self).position() + 1
            },
            old(self).position() == old(self).items().len() ==> {
                &&& r is None
                &&& final(self).position() == old(self).position()
            },
            cursor_step(
                old(self).items().map(|i: int, x: T| (i as usize, x)),
                old(self).position(),
                (match r {
                    Some((o, x)) => Some((o, *x)),
                    None => None,
                }),
                final(self).position(),
            ),
    {
        if self.offset < self.vec.len() {
            let offset = self.offset;
            match self.vec.get(offset) {
                Some(v) => {
                    self.offset = self.offset + 1;
                    Some((offset, v))
                },
                None => None,
            }
        } else {
            None
        }
    }
}

} // verus!
