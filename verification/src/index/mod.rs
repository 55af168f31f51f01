//! Storage implementations for indices into palette-compressed data
//! structures.
//!
//! An index buffer is kept apart from the palette it indexes: the palette
//! compresses values, the buffer stores, for each position of a collection,
//! which palette entry holds its value.

use vstd::prelude::*;
use vstd::arithmetic::power2::pow2;

use crate::cursor::cursor_step;

mod aligned;
mod bits;
mod mapping;

pub use aligned::AlignedIndexBuffer;
pub use mapping::{IndexMapping, mapping_contents};

verus! {

/// `index` can be stored in a field of `width` bits.
pub open spec fn fits(index: usize, width: nat) -> bool {
    (index as int) < pow2(width)
}

/// The index that `index` becomes under an optional renumbering: itself when
/// there is none.
pub open spec fn remapped(index: usize, mapping: Option<IndexMapping>) -> usize {
    match mapping {
        None => index,
        Some(m) => m@[index],
    }
}

/// `mapping` is defined on every index of `indices` and sends each of them to
/// an index that fits `width` bits.
pub open spec fn remap_fits(indices: Seq<usize>, mapping: Option<IndexMapping>, width: nat) -> bool {
    forall|i: int|
        0 <= i < indices.len() ==> {
            &&& (mapping is Some ==> mapping->0@.contains_key(#[trigger] indices[i]))
            &&& fits(remapped(indices[i], mapping), width)
        }
}

/// Without a mapping, changing the width renumbers nothing.
pub proof fn lemma_no_mapping_keeps_indices(indices: Seq<usize>)
    ensures
        indices.map_values(|index: usize| remapped(index, None)) == indices,
{
    assert(indices.map_values(|index: usize| remapped(index, None)) =~= indices);
}

/// A store of palette indices, each `spec_width()` bits wide.
pub trait IndexBuffer: Sized {
    /// The stored indices, first to last.
    spec fn spec_indices(&self) -> Seq<usize>;

    /// The width in bits of each stored index.
    spec fn spec_width(&self) -> nat;

    /// The internal invariant of the buffer.
    spec fn spec_wf(&self) -> bool;

    /// Truncates down to `len` and zeroes out the buffer: afterwards it holds
    /// `len` zero indices.
    fn truncate_cleared(&mut self, len: usize)
        requires
            old(self).spec_wf(),
        ensures
            final(self).spec_wf(),
            final(self).spec_width() == old(self).spec_width(),
            final(self).spec_indices() == Seq::new(len as nat, |i: int| 0usize),
    ;

    /// The number of indices stored.
    fn len(&self) -> (r: usize)
        requires
            self.spec_wf(),
        ensures
            r == self.spec_indices().len(),
    ;

    /// Sets the width of the indices to `new_size` bits, renumbering every
    /// stored index through `new_mapping` when one is given. A width of zero
    /// leaves only zero indices.
    fn set_index_size(&mut self, new_size: usize, new_mapping: Option<IndexMapping>)
        requires
            old(self).spec_wf(),
            new_size <= 64,
            new_size > 0 ==> remap_fits(old(self).spec_indices(), new_mapping, new_size as nat),
        ensures
            final(self).spec_wf(),
            final(self).spec_width() == new_size,
            final(self).spec_indices() == (if new_size == 0 {
                Seq::new(old(self).spec_indices().len(), |i: int| 0usize)
            } else {
                old(self).spec_indices().map_values(|index: usize| remapped(index, new_mapping))
            }),
    ;

    /// Sets the index at `offset` to `value`; returns the index that was there.
    fn set(&mut self, offset: usize, value: usize) -> (r: usize)
        requires
            old(self).spec_wf(),
            old(self).spec_width() > 0,
            offset < old(self).spec_indices().len(),
            fits(value, old(self).spec_width()),
        ensures
            final(self).spec_wf(),
            final(self).spec_width() == old(self).spec_width(),
            final(self).spec_indices() == old(self).spec_indices().update(offset as int, value),
            r == old(self).spec_indices()[offset as int],
    ;

    /// Gets the index at `offset`, or `None` if there is no index there.
    fn get(&self, offset: usize) -> (r: Option<usize>)
        requires
            self.spec_wf(),
        ensures
            r == (if offset < self.spec_indices().len() {
                Some(self.spec_indices()[offset as int])
            } else {
                None::<usize>
            }),
    ;

    /// Gets the index at `offset`, which must be below `len()`.
    fn get_unchecked(&self, offset: usize) -> (r: usize)
        requires
            self.spec_wf(),
            offset < self.spec_indices().len(),
        ensures
            r == self.spec_indices()[offset as int],
    ;

    /// Appends `index` to the end of the buffer.
    fn push(&mut self, index: usize)
        requires
            old(self).spec_wf(),
            old(self).spec_indices().len() < usize::MAX,
            fits(index, old(self).spec_width()),
        ensures
            final(self).spec_wf(),
            final(self).spec_width() == old(self).spec_width(),
            final(self).spec_indices() == old(self).spec_indices().push(index),
    ;

    /// Removes the last index and returns it, or returns `None` if the buffer
    /// is empty.
    fn pop(&mut self) -> (r: Option<usize>)
        requires
            old(self).spec_wf(),
        ensures
            final(self).spec_wf(),
            final(self).spec_width() == old(self).spec_width(),
            old(self).spec_indices().len() == 0 ==> r is None && final(self).spec_indices()
                == old(self).spec_indices(),
            old(self).spec_indices().len() > 0 ==> r == Some(old(self).spec_indices().last())
                && final(self).spec_indices() == old(self).spec_indices().drop_last(),
    ;

    /// Returns `true` if the buffer holds no indices.
    fn is_empty(&self) -> (r: bool)
        requires
            self.spec_wf(),
        ensures
            r == (self.spec_indices().len() == 0),
    {
        self.len() == 0
    }
}

/// A cursor over the indices of an [`IndexBuffer`], first to last.
pub struct Iter<'a, B: IndexBuffer> {
    buffer: &'a B,
    offset: usize,
}

impl<'a, B: IndexBuffer> Iter<'a, B> {
    /// The buffer walked over.
    pub closed spec fn buffer(&self) -> B {
        *self.buffer
    }

    /// The number of indices already yielded.
    pub closed spec fn position(&self) -> nat {
        self.offset as nat
    }

    /// Starts a walk over `buffer`.
    pub fn new(buffer: &'a B) -> (it: Self)
        ensures
            it.buffer() == *buffer,
            it.position() == 0,
    {
        Iter { buffer, offset: 0 }
    }

    /// Yields the next index, or `None` once every index has been yielded.
    pub fn next(&mut self) -> (r: Option<usize>)
        requires
            old(self).buffer().spec_wf(),
            old(self).position() <= old(self).buffer().spec_indices().len(),
        ensures
            final(self).buffer() == old(self).buffer(),
            final(self).position() <= final(self).buffer().spec_indices().len(),
            old(self).position() < old(self).buffer().spec_indices().len() ==> {
                &&& r == Some(old(self).buffer().spec_indices()[old(self).position() as int])
                &&& final(self).position() == old(self).position() + 1
            },
            old(self).position() == old(self).buffer().spec_indices().len() ==> {
                &&& r is None
                &&& final(self).position() == old(self).position()
            },
            cursor_step(old(self).buffer().spec_indices(), old(self).position(), r, final(self).position()),
    {
        if self.offset < self.buffer.len() {
            let r = self.buffer.get_unchecked(self.offset);
            self.offset = self.offset + 1;
            Some(r)
        } else {
            None
        }
    }
}

} // verus!
