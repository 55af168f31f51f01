//! The index of the biome registry: where each biome of the registry file's
//! listing is found, keyed by the identifier of its name.
//!
//! The biomes themselves carry floating-point climate data and are kept by
//! the caller in listing order; the index maps each identifier to the
//! position of the biome listed last under it.

use vstd::prelude::*;

use crate::identifier::{BiomeId, name_id};
use crate::palette::{KeyIndexMap, key_index_contents, no_keys};

verus! {

/// For each listed name, the position of its last listing, keyed by the
/// name's identifier.
pub open spec fn biome_positions_of(names: Seq<Seq<char>>) -> Map<u64, usize>
    decreases names.len(),
{
    if names.len() == 0 {
        Map::empty()
    } else {
        biome_positions_of(names.drop_last()).insert(
            name_id(names.last()),
            (names.len() - 1) as usize,
        )
    }
}

/// The names of a listing of biomes, as character sequences.
pub open spec fn listed_names(names: Seq<String>) -> Seq<Seq<char>> {
    names.map_values(|s: String| s@)
}

/// Maps the identifier of each listed biome name to the position of the
/// biome listed last under it.
#[derive(Clone, Debug)]
pub struct BiomeIndex {
    positions: KeyIndexMap,
}

impl BiomeIndex {
    /// The positions, keyed by the raw value of the identifier.
    pub closed spec fn contents(self) -> Map<u64, usize> {
        key_index_contents(self.positions)
    }

    /// Creates an index of no biomes.
    pub fn new() -> (r: Self)
        ensures
            r.contents() == Map::<u64, usize>::empty(),
    {
        BiomeIndex { positions: KeyIndexMap::new() }
    }

    /// Builds the index of the listing `names`: each name's identifier maps
    /// to the position of its last listing.
    pub fn from_names(names: &Vec<String>) -> (r: Self)
        ensures
            r.contents() == biome_positions_of(listed_names(names@)),
    {
        let ghost listed = listed_names(names@);
        let mut positions = KeyIndexMap::new();
        let mut i: usize = 0;
        while i < names.len()
            invariant
                i <= names@.len(),
                listed == listed_names(names@),
                key_index_contents(positions) == biome_positions_of(listed.take(i as int)),
            decreases names@.len() - i,
        {
            let key = BiomeId::from_name(names[i].as_str()).raw();
            proof {
                assert(listed.take(i as int + 1).drop_last() =~= listed.take(i as int));
                assert(listed.take(i as int + 1).last() == names@[i as int]@);
            }
            positions.insert(key, i);
            i = i + 1;
        }
        proof {
            assert(listed.take(i as int) =~= listed);
        }
        BiomeIndex { positions }
    }

    /// Returns the position of the biome with identifier `id`, if listed.
    pub fn position(&self, id: BiomeId) -> (r: Option<usize>)
        ensures
            r == (if self.contents().contains_key(id.spec_raw()) {
                Some(self.contents()[id.spec_raw()])
            } else {
                None::<usize>
            }),
    {
        self.positions.get(id.raw())
    }

    /// Returns the position of the biome named `name`, if listed.
    pub fn position_by_name(&self, name: &str) -> (r: Option<usize>)
        ensures
            r == (if self.contents().contains_key(name_id(name@)) {
                Some(self.contents()[name_id(name@)])
            } else {
                None::<usize>
            }),
    {
        self.position(BiomeId::from_name(name))
    }
}

impl Default for BiomeIndex {
    fn default() -> (r: Self)
        ensures
            r.contents() == Map::<u64, usize>::empty(),
    {
        Self::new()
    }
}

/// Looking up a listed biome's name in the index built from the listing
/// finds the last biome listed under that name: a position at or after the
/// name's own, holding a name with the same identifier, with no later
/// listing under that identifier.
pub proof fn lemma_index_finds_last_listing(names: Seq<Seq<char>>, i: int)
    requires
        0 <= i < names.len(),
        names.len() <= usize::MAX,
    ensures
        ({
            let key = name_id(names[i]);
            let j = biome_positions_of(names)[key] as int;
            &&& biome_positions_of(names).contains_key(key)
            &&& i <= j < names.len()
            &&& name_id(names[j]) == key
            &&& forall|l: int| j < l < names.len() ==> name_id(#[trigger] names[l]) != key
        }),
    decreases names.len(),
{
    let key = name_id(names[i]);
    let last = names.len() - 1;
    assert(names.last() == names[last]);
    if name_id(names[last]) != key {
        let rest = names.drop_last();
        lemma_index_finds_last_listing(rest, i);
        assert(rest[i] == names[i]);
        let j = biome_positions_of(rest)[key] as int;
        assert(names[j] == rest[j]);
        assert forall|l: int| j < l < names.len() implies name_id(#[trigger] names[l]) != key by {
            if l < last {
                assert(names[l] == rest[l]);
            }
        }
    }
}

/// Every identifier in the index belongs to a listed name, and maps to a
/// position inside the listing.
pub proof fn lemma_index_holds_only_listed(names: Seq<Seq<char>>, key: u64)
    requires
        biome_positions_of(names).contains_key(key),
        names.len() <= usize::MAX,
    ensures
        (biome_positions_of(names)[key] as int) < names.len(),
        name_id(names[biome_positions_of(names)[key] as int]) == key,
    decreases names.len(),
{
    if name_id(names.last()) != key {
        let rest = names.drop_last();
        lemma_index_holds_only_listed(rest, key);
        assert(rest[biome_positions_of(rest)[key] as int] == names[biome_positions_of(rest)[key] as int]);
    }
}

} // verus!
