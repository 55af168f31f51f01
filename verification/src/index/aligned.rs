//! An index buffer that packs fixed-width indices into `u64` words, never
//! letting an index straddle two words.

use vstd::prelude::*;
use vstd::arithmetic::div_mod::{
    lemma_fundamental_div_mod, lemma_fundamental_div_mod_converse, lemma_mod_pos_bound,
    lemma_div_pos_is_pos, lemma_div_is_ordered, lemma_div_is_ordered_by_denominator,
};
use vstd::arithmetic::mul::lemma_mul_inequality;

use super::bits::{
    width_mask, read_field, write_field, lemma_write_read_same, lemma_write_read_apart, lemma_write_read_other,
    lemma_read_fresh_word, lemma_read_zero_word, lemma_width_mask_pow2,
};
use super::{IndexBuffer, IndexMapping, fits, remapped, remap_fits};

verus! {

/// The number of words needed to hold `len` fields, `per` to a word.
pub open spec fn words_for(len: int, per: int) -> int {
    if len % per == 0 {
        len / per
    } else {
        len / per + 1
    }
}

proof fn lemma_per_word(width: int)
    requires
        1 <= width <= 64,
    ensures
        1 <= 64int / width <= 64,
        (64int / width) * width <= 64,
{
    lemma_fundamental_div_mod(64int, width);
    lemma_mod_pos_bound(64int, width);
    lemma_div_pos_is_pos(64int, width);
    let q = 64int / width;
    assert(q * width <= 64 && q * width > 64 - width) by (nonlinear_arith)
        requires
            64int == width * q + 64int % width,
            0 <= 64int % width < width,
    ;
    assert(q >= 1) by (nonlinear_arith)
        requires
            q * width > 64 - width,
            width <= 64,
            q >= 0,
            width >= 1,
    ;
    assert(q <= 64) by (nonlinear_arith)
        requires
            q * width <= 64,
            width >= 1,
            q >= 0,
    ;
}

/// Where field `i` lies: in a word that exists, and wholly inside it.
proof fn lemma_slot_in_bounds(i: int, len: int, per: int, width: int)
    requires
        0 <= i < len,
        1 <= per,
        1 <= width,
        per * width <= 64,
    ensures
        0 <= i / per < words_for(len, per),
        0 <= i % per < per,
        (i % per) * width + width <= 64,
{
    lemma_fundamental_div_mod(i, per);
    lemma_fundamental_div_mod(len, per);
    lemma_mod_pos_bound(i, per);
    lemma_mod_pos_bound(len, per);
    lemma_div_pos_is_pos(i, per);
    lemma_div_is_ordered(i, len, per);
    let qi = i / per;
    let ql = len / per;
    if len % per == 0 {
        assert(qi < ql) by (nonlinear_arith)
            requires
                i == per * qi + i % per,
                len == per * ql,
                i < len,
                i % per >= 0,
                per >= 1,
        ;
    }
    lemma_mul_inequality(i % per + 1, per, width);
    assert((i % per + 1) * width == (i % per) * width + width) by (nonlinear_arith);
}

/// Two different fields in one word do not overlap.
proof fn lemma_slots_disjoint(i: int, j: int, per: int, width: int)
    requires
        0 <= i,
        0 <= j,
        i != j,
        i / per == j / per,
        1 <= per,
        1 <= width,
    ensures
        (i % per) * width + width <= (j % per) * width || (j % per) * width + width <= (i % per)
            * width,
{
    lemma_fundamental_div_mod(i, per);
    lemma_fundamental_div_mod(j, per);
    let ri = i % per;
    let rj = j % per;
    assert(ri != rj);
    if ri < rj {
        lemma_mul_inequality(ri + 1, rj, width);
        assert((ri + 1) * width == ri * width + width) by (nonlinear_arith);
    } else {
        lemma_mul_inequality(rj + 1, ri, width);
        assert((rj + 1) * width == rj * width + width) by (nonlinear_arith);
    }
}

/// When fields widen, field `i` of the wider layout lies in a later word
/// than field `j < i` of the narrower one, or in the same word after it.
proof fn lemma_wider_after(i: int, j: int, op: int, ow: int, np: int, nw: int)
    requires
        0 <= j < i,
        1 <= np <= op,
        1 <= ow <= nw,
        op * ow <= 64,
    ensures
        j / op < i / np || (j / op == i / np && (j % op) * ow + ow <= (i % np) * nw),
{
    lemma_fundamental_div_mod(i, np);
    lemma_fundamental_div_mod(j, op);
    lemma_mod_pos_bound(i, np);
    lemma_mod_pos_bound(j, op);
    lemma_div_pos_is_pos(i, np);
    lemma_div_pos_is_pos(j, op);
    let q = i / np;
    let r = i % np;
    let s = j / op;
    let t = j % op;
    assert(s <= q) by (nonlinear_arith)
        requires
            i == np * q + r,
            j == op * s + t,
            0 <= r < np,
            0 <= t < op,
            np <= op,
            j < i,
            q >= 0,
            s >= 0,
    ;
    if s == q {
        assert(t + 1 <= r) by (nonlinear_arith)
            requires
                i == np * q + r,
                j == op * q + t,
                np <= op,
                j < i,
                q >= 0,
        ;
        assert((t + 1) * ow <= r * nw) by (nonlinear_arith)
            requires
                0 <= t + 1 <= r,
                1 <= ow <= nw,
        ;
        assert((t + 1) * ow == t * ow + ow) by (nonlinear_arith);
    }
}

/// When fields narrow, field `i` of the narrower layout lies in an earlier
/// word than field `j > i` of the wider one, or in the same word before it.
proof fn lemma_narrower_before(i: int, j: int, op: int, ow: int, np: int, nw: int)
    requires
        0 <= i < j,
        1 <= op <= np,
        1 <= nw <= ow,
        np * nw <= 64,
    ensures
        i / np < j / op || (i / np == j / op && (i % np) * nw + nw <= (j % op) * ow),
{
    lemma_fundamental_div_mod(i, np);
    lemma_fundamental_div_mod(j, op);
    lemma_mod_pos_bound(i, np);
    lemma_mod_pos_bound(j, op);
    lemma_div_pos_is_pos(i, np);
    lemma_div_pos_is_pos(j, op);
    let q = i / np;
    let r = i % np;
    let s = j / op;
    let t = j % op;
    assert(s >= q) by (nonlinear_arith)
        requires
            i == np * q + r,
            j == op * s + t,
            0 <= r < np,
            0 <= t < op,
            op <= np,
            i < j,
            q >= 0,
            s >= 0,
    ;
    if s == q {
        assert(r + 1 <= t) by (nonlinear_arith)
            requires
                i == np * q + r,
                j == op * q + t,
                op <= np,
                i < j,
                q >= 0,
        ;
        assert((r + 1) * nw <= t * ow) by (nonlinear_arith)
            requires
                0 <= r + 1 <= t,
                1 <= nw <= ow,
        ;
        assert((r + 1) * nw == r * nw + nw) by (nonlinear_arith);
    }
}

/// Field `i` of `storage` in the layout of `per` fields of `width` bits to a
/// word.
spec fn field_in(storage: Seq<u64>, i: int, per: int, width: int) -> u64 {
    read_field(storage[i / per], ((i % per) * width) as u64, width_mask(width as u64))
}

/// Reads field `i` of `storage` in the layout of `per` fields of `width`
/// bits to a word.
fn read_field_at(storage: &Vec<u64>, i: usize, per: usize, width: usize) -> (r: u64)
    requires
        1 <= per,
        1 <= width <= 64,
        i / per < storage@.len(),
        (i % per) * width + width <= 64,
    ensures
        r == field_in(storage@, i as int, per as int, width as int),
{
    let shift = ((i % per) * width) as u64;
    (storage[i / per] >> shift) & (u64::MAX >> ((64 - width) as u64))
}

/// Writes `value` into field `i` of `storage` in the layout of `per` fields
/// of `width` bits to a word; no other word changes.
fn write_field_at(storage: &mut Vec<u64>, i: usize, per: usize, width: usize, value: u64)
    requires
        1 <= per,
        1 <= width <= 64,
        i / per < old(storage)@.len(),
        (i % per) * width + width <= 64,
        value <= width_mask(width as u64),
    ensures
        final(storage)@ == old(storage)@.update(
            (i / per) as int,
            write_field(
                old(storage)@[(i / per) as int],
                ((i % per) * width) as u64,
                width_mask(width as u64),
                value,
            ),
        ),
{
    let shift = ((i % per) * width) as u64;
    let w = i / per;
    let word = storage[w];
    let mask = u64::MAX >> ((64 - width) as u64);
    storage.set(w, (word & !(mask << shift)) | (value << shift));
}

/// How the number of words changes when one field is appended.
proof fn lemma_words_push(len: int, per: int)
    requires
        0 <= len,
        1 <= per,
    ensures
        len % per == 0 ==> words_for(len + 1, per) == words_for(len, per) + 1 && len / per
            == words_for(len, per),
        len % per != 0 ==> words_for(len + 1, per) == words_for(len, per),
        words_for(len, per) >= 0,
{
    lemma_fundamental_div_mod(len, per);
    lemma_mod_pos_bound(len, per);
    lemma_div_pos_is_pos(len, per);
    let q = len / per;
    let r = len % per;
    assert(len + 1 == q * per + (r + 1)) by (nonlinear_arith)
        requires
            len == per * q + r,
    ;
    assert(len + 1 == (q + 1) * per + (r + 1 - per)) by (nonlinear_arith)
        requires
            len + 1 == q * per + (r + 1),
    ;
    if r + 1 < per {
        lemma_fundamental_div_mod_converse(len + 1, per, q, r + 1);
    } else {
        lemma_fundamental_div_mod_converse(len + 1, per, q + 1, 0);
    }
}

/// Indices packed into `u64` words, `64 / index_size` to a word.
///
/// An index size of zero stores no words at all: every index is then zero.
#[derive(Clone, Debug, PartialEq, Eq, Hash)]
pub struct AlignedIndexBuffer {
    index_size: usize,
    indices_per_u64: u8,
    mask: u64,
    len: usize,
    storage: Vec<u64>,
}

impl AlignedIndexBuffer {
    /// The raw bits of field `i`.
    spec fn field(self, i: int) -> u64 {
        let per = self.indices_per_u64 as int;
        read_field(self.storage@[i / per], ((i % per) * (self.index_size as int)) as u64, self.mask)
    }

    /// Every field of the buffer: index size, indices per word, field mask,
    /// length and the words.
    pub closed spec fn layout(self) -> (usize, u8, u64, usize, Seq<u64>) {
        (self.index_size, self.indices_per_u64, self.mask, self.len, self.storage@)
    }

    /// The layout of a new buffer: no index size, no words.
    pub open spec fn empty_layout() -> (usize, u8, u64, usize, Seq<u64>) {
        (0, 0, 0, 0, Seq::empty())
    }

    /// The width in bits of each index.
    pub closed spec fn width(self) -> nat {
        self.index_size as nat
    }

    /// The layout of the words agrees with the index size and the length.
    spec fn shape_ok(self) -> bool {
        &&& self.index_size <= 64
        &&& self.index_size == 0 ==> self.storage@.len() == 0
        &&& self.index_size > 0 ==> {
            &&& self.indices_per_u64 as int == 64int / (self.index_size as int)
            &&& self.mask == width_mask(self.index_size as u64)
            &&& self.storage@.len() == words_for(self.len as int, self.indices_per_u64 as int)
        }
    }

    /// The internal invariant: the layout is consistent and every stored
    /// field holds a `usize`.
    pub closed spec fn wf(self) -> bool {
        &&& self.shape_ok()
        &&& self.index_size > 0 ==> forall|i: int|
            0 <= i < self.len ==> #[trigger] self.field(i) <= usize::MAX
    }

    proof fn lemma_geometry(self, i: int)
        requires
            self.shape_ok(),
            self.index_size > 0,
            0 <= i < self.len,
        ensures
            0 <= i / (self.indices_per_u64 as int) < self.storage@.len(),
            0 <= i % (self.indices_per_u64 as int) < self.indices_per_u64,
            (i % (self.indices_per_u64 as int)) * (self.index_size as int) + (self.index_size as int)
                <= 64,
            1 <= self.indices_per_u64,
    {
        lemma_per_word(self.index_size as int);
        lemma_slot_in_bounds(
            i,
            self.len as int,
            self.indices_per_u64 as int,
            self.index_size as int,
        );
    }

    /// Creates an empty buffer with an index size of zero.
    pub fn new() -> (r: Self)
        ensures
            r.wf(),
            r@ == Seq::<usize>::empty(),
            r.width() == 0,
            r.layout() == Self::empty_layout(),
    {
        let r = AlignedIndexBuffer {
            index_size: 0,
            indices_per_u64: 0,
            mask: 0,
            len: 0,
            storage: Vec::new(),
        };
        assert(r@ =~= Seq::<usize>::empty());
        r
    }

    /// Writes `value` into field `offset`, leaving every other field as it
    /// was.
    fn write_slot(&mut self, offset: usize, value: usize)
        requires
            old(self).shape_ok(),
            old(self).index_size > 0,
            offset < old(self).len,
            fits(value, old(self).index_size as nat),
        ensures
            final(self).shape_ok(),
            final(self).index_size == old(self).index_size,
            final(self).len == old(self).len,
            final(self).field(offset as int) == value as u64,
            forall|i: int|
                0 <= i < old(self).len && i != offset ==> #[trigger] final(self).field(i) == old(
                    self,
                ).field(i),
    {
        proof {
            self.lemma_geometry(offset as int);
            lemma_width_mask_pow2(value as u64, self.index_size as u64);
        }
        let per = self.indices_per_u64 as usize;
        let w = offset / per;
        let shift = ((offset % per) * self.index_size) as u64;
        let word = self.storage[w];
        let new_word = (word & !(self.mask << shift)) | ((value as u64) << shift);
        self.storage.set(w, new_word);
        proof {
            let width = self.index_size as u64;
            lemma_write_read_same(word, shift, width, value as u64);
            assert forall|i: int|
                0 <= i < old(self).len && i != offset implies #[trigger] self.field(i) == old(
                self,
            ).field(i) by {
                old(self).lemma_geometry(i);
                let pi = (i / (per as int));
                if pi == w as int {
                    lemma_slots_disjoint(i, offset as int, per as int, width as int);
                    let other = ((i % (per as int)) * (width as int)) as u64;
                    lemma_write_read_other(word, shift, other, width, value as u64);
                }
            }
        }
    }

    /// Writes the indices out afresh at `new_size` bits each, renumbered by
    /// `new_mapping`.
    fn rebuild_with_size(&mut self, new_size: usize, new_mapping: Option<IndexMapping>)
        requires
            old(self).wf(),
            1 <= new_size <= 64,
            remap_fits(old(self)@, new_mapping, new_size as nat),
        ensures
            final(self).wf(),
            final(self).width() == new_size,
            final(self)@ == old(self)@.map_values(|index: usize| remapped(index, new_mapping)),
    {
        let ghost old_indices = self@;
        proof {
            lemma_per_word(new_size as int);
        }
        let per = 64 / new_size;
        let mut fresh = AlignedIndexBuffer {
            index_size: new_size,
            indices_per_u64: per as u8,
            mask: u64::MAX >> ((64 - new_size) as u64),
            len: 0,
            storage: Vec::new(),
        };
        proof {
            assert(fresh@ =~= Seq::<usize>::empty());
        }
        let mut i: usize = 0;
        while i < self.len
            invariant
                self.wf(),
                self@ == old_indices,
                new_size <= 64,
                new_size > 0,
                remap_fits(old_indices, new_mapping, new_size as nat),
                i <= old_indices.len(),
                fresh.wf(),
                fresh.width() == new_size,
                fresh@ == old_indices.take(i as int).map_values(
                    |index: usize| remapped(index, new_mapping),
                ),
            decreases old_indices.len() - i,
        {
            let old_index = self.get_unchecked(i);
            let new_index = match &new_mapping {
                None => old_index,
                Some(m) => match m.get(old_index) {
                    Some(v) => v,
                    None => old_index,
                },
            };
            proof {
                assert(old_indices[i as int] == old_index);
            }
            fresh.push(new_index);
            proof {
                assert(old_indices.take(i as int + 1) =~= old_indices.take(i as int).push(
                    old_index,
                ));
                assert(fresh@ =~= old_indices.take(i as int + 1).map_values(
                    |index: usize| remapped(index, new_mapping),
                ));
            }
            i = i + 1;
        }
        proof {
            assert(old_indices.take(i as int) =~= old_indices);
        }
        *self = fresh;
    }
    /// Repacks the indices in place at `new_size` bits each, renumbered by
    /// `new_mapping`: when the indices widen they are moved last to first,
    /// so that no index is overwritten before it is read, and otherwise
    /// first to last; then the words no longer needed are dropped.
    fn repack_in_place(&mut self, new_size: usize, new_mapping: Option<IndexMapping>)
        requires
            old(self).wf(),
            old(self).index_size > 0,
            1 <= new_size <= 64,
            remap_fits(old(self)@, new_mapping, new_size as nat),
        ensures
            final(self).wf(),
            final(self).width() == new_size,
            final(self)@ == old(self)@.map_values(|index: usize| remapped(index, new_mapping)),
    {
        let ghost old_indices = self@;
        let len = self.len;
        let ow = self.index_size;
        let op = self.indices_per_u64 as usize;
        let nw = new_size;
        let np = 64 / new_size;
        proof {
            lemma_per_word(ow as int);
            lemma_per_word(nw as int);
            if nw >= ow {
                lemma_div_is_ordered_by_denominator(64, ow as int, nw as int);
            } else {
                lemma_div_is_ordered_by_denominator(64, nw as int, ow as int);
            }
        }
        let new_words = if len % np == 0 {
            len / np
        } else {
            proof {
                lemma_div_is_ordered_by_denominator(len as int, 2, np as int);
            }
            len / np + 1
        };
        let mut storage: Vec<u64> = Vec::new();
        std::mem::swap(&mut storage, &mut self.storage);
        let ghost old_storage = storage@;
        let old_words = storage.len();
        if storage.len() < new_words {
            storage.resize(new_words, 0);
        }
        proof {
            assert forall|j: int| 0 <= j < len implies {
                &&& (j / (op as int)) < old_words
                &&& (j % (op as int)) * (ow as int) + (ow as int) <= 64
                &&& #[trigger] field_in(storage@, j, op as int, ow as int) == old_indices[j] as u64
            } by {
                old(self).lemma_geometry(j);
                assert(storage@[j / (op as int)] == old_storage[j / (op as int)]);
            }
        }
        if nw > ow {
            let mut k: usize = len;
            while k > 0
                invariant
                    k <= len,
                    len == old_indices.len(),
                    1 <= ow < nw <= 64,
                    1 <= np <= op,
                    op * ow <= 64,
                    np * nw <= 64,
                    old_words <= storage@.len(),
                    new_words <= storage@.len(),
                    new_words == words_for(len as int, np as int),
                    remap_fits(old_indices, new_mapping, nw as nat),
                    old_words == words_for(len as int, op as int),
                    forall|j: int|
                        0 <= j < k ==> #[trigger] field_in(storage@, j, op as int, ow as int)
                            == old_indices[j] as u64,
                    forall|j: int|
                        k <= j < len ==> #[trigger] field_in(storage@, j, np as int, nw as int)
                            == remapped(old_indices[j], new_mapping) as u64,
                decreases k,
            {
                k = k - 1;
                let ghost before = storage@;
                proof {
                    lemma_slot_in_bounds(k as int, len as int, op as int, ow as int);
                }
                let v = read_field_at(&storage, k, op, ow);
                let old_index = v as usize;
                let new_index = match &new_mapping {
                    None => old_index,
                    Some(m) => match m.get(old_index) {
                        Some(x) => x,
                        None => old_index,
                    },
                };
                proof {
                    assert(old_indices[k as int] as u64 == v);
                    assert(new_index == remapped(old_indices[k as int], new_mapping));
                    lemma_slot_in_bounds(k as int, len as int, np as int, nw as int);
                    lemma_width_mask_pow2(new_index as u64, nw as u64);
                }
                write_field_at(&mut storage, k, np, nw, new_index as u64);
                proof {
                    let kw = (k / np) as int;
                    let koff = ((k % np) * nw) as u64;
                    lemma_write_read_same(before[kw], koff, nw as u64, new_index as u64);
                    assert forall|j: int| 0 <= j < k implies #[trigger] field_in(storage@, j, op as int, ow as int)
                        == old_indices[j] as u64 by {
                        lemma_wider_after(k as int, j, op as int, ow as int, np as int, nw as int);
                        lemma_slot_in_bounds(j, len as int, op as int, ow as int);
                        let jw = j / (op as int);
                        if jw == kw {
                            let joff = ((j % (op as int)) * (ow as int)) as u64;
                            lemma_write_read_apart(before[kw], koff, nw as u64, new_index as u64, joff, ow as u64);
                        }
                        assert(field_in(before, j, op as int, ow as int) == old_indices[j] as u64);
                    }
                    assert forall|j: int| k <= j < len implies #[trigger] field_in(storage@, j, np as int, nw as int)
                        == remapped(old_indices[j], new_mapping) as u64 by {
                        if j > k {
                            lemma_slot_in_bounds(j, len as int, np as int, nw as int);
                            let jw = j / (np as int);
                            if jw == kw {
                                lemma_slots_disjoint(j, k as int, np as int, nw as int);
                                let joff = ((j % (np as int)) * (nw as int)) as u64;
                                lemma_write_read_other(before[kw], koff, joff, nw as u64, new_index as u64);
                            }
                            assert(field_in(before, j, np as int, nw as int) == remapped(old_indices[j], new_mapping) as u64);
                        }
                    }
                }
            }
        } else {
            let mut k: usize = 0;
            while k < len
                invariant
                    k <= len,
                    len == old_indices.len(),
                    1 <= nw <= ow <= 64,
                    1 <= op <= np,
                    op * ow <= 64,
                    np * nw <= 64,
                    old_words <= storage@.len(),
                    new_words <= storage@.len(),
                    new_words == words_for(len as int, np as int),
                    remap_fits(old_indices, new_mapping, nw as nat),
                    old_words == words_for(len as int, op as int),
                    forall|j: int|
                        k <= j < len ==> #[trigger] field_in(storage@, j, op as int, ow as int)
                            == old_indices[j] as u64,
                    forall|j: int|
                        0 <= j < k ==> #[trigger] field_in(storage@, j, np as int, nw as int)
                            == remapped(old_indices[j], new_mapping) as u64,
                decreases len - k,
            {
                let ghost before = storage@;
                proof {
                    lemma_slot_in_bounds(k as int, len as int, op as int, ow as int);
                }
                let v = read_field_at(&storage, k, op, ow);
                let old_index = v as usize;
                let new_index = match &new_mapping {
                    None => old_index,
                    Some(m) => match m.get(old_index) {
                        Some(x) => x,
                        None => old_index,
                    },
                };
                proof {
                    assert(old_indices[k as int] as u64 == v);
                    assert(new_index == remapped(old_indices[k as int], new_mapping));
                    lemma_slot_in_bounds(k as int, len as int, np as int, nw as int);
                    lemma_width_mask_pow2(new_index as u64, nw as u64);
                }
                write_field_at(&mut storage, k, np, nw, new_index as u64);
                proof {
                    let kw = (k / np) as int;
                    let koff = ((k % np) * nw) as u64;
                    lemma_write_read_same(before[kw], koff, nw as u64, new_index as u64);
                    assert forall|j: int| k < j < len implies #[trigger] field_in(storage@, j, op as int, ow as int)
                        == old_indices[j] as u64 by {
                        lemma_narrower_before(k as int, j, op as int, ow as int, np as int, nw as int);
                        lemma_slot_in_bounds(j, len as int, op as int, ow as int);
                        let jw = j / (op as int);
                        if jw == kw {
                            let joff = ((j % (op as int)) * (ow as int)) as u64;
                            lemma_write_read_apart(before[kw], koff, nw as u64, new_index as u64, joff, ow as u64);
                        }
                        assert(field_in(before, j, op as int, ow as int) == old_indices[j] as u64);
                    }
                    assert forall|j: int| 0 <= j < k + 1 implies #[trigger] field_in(storage@, j, np as int, nw as int)
                        == remapped(old_indices[j], new_mapping) as u64 by {
                        if j < k {
                            lemma_slot_in_bounds(j, len as int, np as int, nw as int);
                            let jw = j / (np as int);
                            if jw == kw {
                                lemma_slots_disjoint(j, k as int, np as int, nw as int);
                                let joff = ((j % (np as int)) * (nw as int)) as u64;
                                lemma_write_read_other(before[kw], koff, joff, nw as u64, new_index as u64);
                            }
                            assert(field_in(before, j, np as int, nw as int) == remapped(old_indices[j], new_mapping) as u64);
                        }
                    }
                }
                k = k + 1;
            }
        }
        let ghost packed = storage@;
        storage.truncate(new_words);
        self.index_size = nw;
        self.indices_per_u64 = np as u8;
        self.mask = u64::MAX >> ((64 - nw) as u64);
        self.storage = storage;
        proof {
            assert forall|j: int| 0 <= j < len implies #[trigger] self.field(j) == remapped(old_indices[j], new_mapping) as u64 by {
                lemma_slot_in_bounds(j, len as int, np as int, nw as int);
                assert(self.storage@[j / (np as int)] == packed[j / (np as int)]);
                assert(field_in(packed, j, np as int, nw as int) == remapped(old_indices[j], new_mapping) as u64);
            }
            assert(self@ =~= old_indices.map_values(|index: usize| remapped(index, new_mapping)));
        }
    }
}

impl Default for AlignedIndexBuffer {
    /// An empty buffer with an index size of zero, as [`new`](Self::new)
    /// gives.
    fn default() -> (r: Self)
        ensures
            r.wf(),
            r@ == Seq::<usize>::empty(),
            r.width() == 0,
            r.layout() == Self::empty_layout(),
    {
        Self::new()
    }
}

impl IndexBuffer for AlignedIndexBuffer {
    open spec fn spec_indices(&self) -> Seq<usize> {
        self@
    }

    open spec fn spec_width(&self) -> nat {
        self.width()
    }

    open spec fn spec_wf(&self) -> bool {
        self.wf()
    }

    fn truncate_cleared(&mut self, len: usize) {
        self.len = len;
        if self.index_size == 0 {
            proof {
                assert(self@ =~= Seq::new(len as nat, |i: int| 0usize));
            }
            return;
        }
        proof {
            lemma_per_word(self.index_size as int);
        }
        let per = 64 / self.index_size;
        proof {
            lemma_fundamental_div_mod(len as int, per as int);
            lemma_mod_pos_bound(len as int, per as int);
            if len % per != 0 {
                assert(len / per < len) by (nonlinear_arith)
                    requires
                        len == per * (len / per) + len % per,
                        len % per > 0,
                        per >= 2 || len % per == 0,
                        len / per >= 0,
                ;
            }
        }
        let needed = if len % per == 0 {
            len / per
        } else {
            len / per + 1
        };
        let mut storage: Vec<u64> = Vec::new();
        let mut k: usize = 0;
        while k < needed
            invariant
                k <= needed,
                storage@.len() == k,
                forall|j: int| 0 <= j < k ==> storage@[j] == 0u64,
            decreases needed - k,
        {
            storage.push(0u64);
            k = k + 1;
        }
        self.storage = storage;
        self.mask = u64::MAX >> ((64 - self.index_size) as u64);
        self.indices_per_u64 = per as u8;
        proof {
            assert(self.shape_ok());
            assert forall|i: int| 0 <= i < self.len implies #[trigger] self.field(i) == 0u64 by {
                self.lemma_geometry(i);
                lemma_read_zero_word(
                    ((i % (per as int)) * (self.index_size as int)) as u64,
                    self.mask,
                );
            }
            assert(self@ =~= Seq::new(len as nat, |i: int| 0usize));
        }
    }

    fn len(&self) -> (r: usize) {
        self.len
    }

    fn set_index_size(&mut self, new_size: usize, new_mapping: Option<IndexMapping>) {
        let ghost old_indices = self@;
        if new_size == 0 {
            self.index_size = 0;
            self.storage = Vec::new();
            proof {
                assert(self@ =~= Seq::new(old_indices.len(), |i: int| 0usize));
            }
            return;
        }
        if self.index_size == 0 {
            // Every stored index is zero and no word is stored: there is
            // nothing to repack, so the indices are written out afresh.
            self.rebuild_with_size(new_size, new_mapping);
            return;
        }
        self.repack_in_place(new_size, new_mapping);
    }

    fn set(&mut self, offset: usize, value: usize) -> (r: usize) {
        let old_index = self.get_unchecked(offset);
        self.write_slot(offset, value);
        proof {
            assert forall|i: int| 0 <= i < self.len implies #[trigger] self.field(i) <= usize::MAX by {
                if i != offset {
                    assert(old(self).field(i) <= usize::MAX);
                }
            }
            assert(self@ =~= old(self)@.update(offset as int, value));
        }
        old_index
    }

    fn get(&self, offset: usize) -> (r: Option<usize>) {
        if offset < self.len {
            Some(self.get_unchecked(offset))
        } else {
            None
        }
    }

    fn get_unchecked(&self, offset: usize) -> (r: usize) {
        if self.index_size == 0 {
            return 0;
        }
        proof {
            self.lemma_geometry(offset as int);
        }
        let per = self.indices_per_u64 as usize;
        let word = self.storage[offset / per];
        let shift = ((offset % per) * self.index_size) as u64;
        let v = (word >> shift) & self.mask;
        proof {
            assert(v == self.field(offset as int));
        }
        v as usize
    }

    fn push(&mut self, index: usize) {
        if self.index_size == 0 {
            self.len = self.len + 1;
            proof {
                assert(index == 0) by {
                    vstd::arithmetic::power2::lemma2_to64();
                }
                assert(self@ =~= old(self)@.push(index));
            }
            return;
        }
        proof {
            lemma_per_word(self.index_size as int);
            lemma_words_push(self.len as int, self.indices_per_u64 as int);
            lemma_width_mask_pow2(index as u64, self.index_size as u64);
        }
        let per = self.indices_per_u64 as usize;
        if self.len % per == 0 {
            self.storage.push(index as u64);
            self.len = self.len + 1;
            proof {
                let n = old(self).len as int;
                assert forall|i: int| 0 <= i < self.len implies #[trigger] self.field(i) == (if i
                    == n {
                    index as u64
                } else {
                    old(self).field(i)
                }) by {
                    self.lemma_geometry(i);
                    if i == n {
                        assert(n % (per as int) == 0);
                        assert(n / (per as int) == old(self).storage@.len());
                        assert(self.storage@[n / (per as int)] == index as u64);
                        assert(((n % (per as int)) * (self.index_size as int)) as u64 == 0u64);
                        lemma_read_fresh_word(index as u64, self.index_size as u64);
                    } else {
                        old(self).lemma_geometry(i);
                        assert(self.storage@[i / (per as int)] == old(self).storage@[i / (
                        per as int)]);
                    }
                }
                assert(self@ =~= old(self)@.push(index));
            }
            return;
        }
        self.len = self.len + 1;
        proof {
            assert(self.shape_ok());
        }
        self.write_slot(self.len - 1, index);
        proof {
            assert forall|i: int| 0 <= i < self.len implies #[trigger] self.field(i) <= usize::MAX by {
                if i != self.len - 1 {
                    assert(old(self).field(i) <= usize::MAX);
                }
            }
            assert(self@ =~= old(self)@.push(index));
        }
    }

    fn pop(&mut self) -> (r: Option<usize>) {
        if self.len == 0 {
            return None;
        }
        if self.index_size == 0 {
            self.len = self.len - 1;
            proof {
                assert(self@ =~= old(self)@.drop_last());
            }
            return Some(0);
        }
        let index = self.get_unchecked(self.len - 1);
        proof {
            lemma_per_word(self.index_size as int);
            lemma_words_push(self.len - 1, self.indices_per_u64 as int);
        }
        self.len = self.len - 1;
        let per = self.indices_per_u64 as usize;
        if self.len % per == 0 {
            self.storage.pop();
        }
        proof {
            assert forall|i: int| 0 <= i < self.len implies #[trigger] self.field(i) == old(
                self,
            ).field(i) by {
                old(self).lemma_geometry(i);
                self.lemma_geometry(i);
                assert(self.storage@[i / (per as int)] == old(self).storage@[i / (per as int)]);
            }
            assert(self@ =~= old(self)@.drop_last());
        }
        Some(index)
    }
}

impl View for AlignedIndexBuffer {
    type V = Seq<usize>;

    closed spec fn view(&self) -> Seq<usize> {
        Seq::new(
            self.len as nat,
            |i: int|
                if self.index_size == 0 {
                    0usize
                } else {
                    self.field(i) as usize
                },
        )
    }
}

} // verus!
