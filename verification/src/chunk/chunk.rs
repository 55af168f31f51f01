//! Chunks: 16 by 16 columns of the world.

use vstd::prelude::*;

use crate::collection::PVec;
use crate::identifier::BiomeId;

verus! {

/// A 16x by 16z portion of the world.
///
/// Its sections are [`SubChunk`](super::SubChunk)s, kept apart from the chunk
/// itself.
#[derive(Clone, Debug)]
pub struct Chunk {
    biomes: PVec<BiomeId>,
}

impl Chunk {
    /// The internal invariant.
    pub closed spec fn wf(self) -> bool {
        self.biomes.wf()
    }

    /// The biomes stored in the chunk.
    pub closed spec fn spec_biomes(self) -> Seq<BiomeId> {
        self.biomes@
    }

    /// Constructs a chunk that stores no biomes.
    pub fn new() -> (r: Self)
        ensures
            r.wf(),
            r.spec_biomes() == Seq::<BiomeId>::empty(),
    {
        Chunk { biomes: PVec::new() }
    }

    /// Returns the biomes stored in the [`Chunk`].
    pub fn biomes(&self) -> (r: &PVec<BiomeId>)
        ensures
            r@ == self.spec_biomes(),
            self.wf() ==> r.wf(),
    {
        &self.biomes
    }
}

impl Default for Chunk {
    fn default() -> (r: Self)
        ensures
            r.wf(),
            r.spec_biomes() == Seq::<BiomeId>::empty(),
    {
        Self::new()
    }
}

} // verus!
