//! The old-index to new-index mapping handed from a palette to an index
//! buffer when the palette renumbers its entries.

use vstd::prelude::*;

verus! {

/// A map from old palette indices to new ones, held in a `hashbrown` map.
#[verifier::external_body]
#[derive(Debug)]
pub struct IndexMapping {
    map: hashbrown::HashMap<usize, usize>,
}

/// The mapping with no pairs.
pub open spec fn no_pairs() -> Map<usize, usize> {
    Map::empty()
}

/// The pairs held by an [`IndexMapping`].
pub uninterp spec fn mapping_contents(m: IndexMapping) -> Map<usize, usize>;

impl View for IndexMapping {
    type V = Map<usize, usize>;

    open spec fn view(&self) -> Map<usize, usize> {
        mapping_contents(*self)
    }
}

impl Clone for IndexMapping {
    /// Copies the mapping.
    ///
    /// Trusted: `hashbrown::HashMap::clone` returns a map with the same pairs.
    #[verifier::external_body]
    fn clone(&self) -> (r: IndexMapping)
        ensures
            mapping_contents(r) == mapping_contents(*self),
    {
        IndexMapping { map: self.map.clone() }
    }
}

impl IndexMapping {
    /// Creates an empty mapping.
    ///
    /// Trusted: `hashbrown::HashMap::new` returns a map with no entries.
    #[verifier::external_body]
    pub fn new() -> (r: IndexMapping)
        ensures
            mapping_contents(r) == no_pairs(),
    {
        IndexMapping { map: hashbrown::HashMap::new() }
    }

    /// Maps `from` to `to`, replacing any earlier pair for `from`.
    ///
    /// Trusted: `hashbrown::HashMap::insert` leaves the map holding `to` at
    /// key `from` and every other pair as it was.
    #[verifier::external_body]
    pub fn insert(&mut self, from: usize, to: usize)
        ensures
            mapping_contents(*final(self)) == mapping_contents(*old(self)).insert(from, to),
    {
        self.map.insert(from, to);
    }

    /// Returns the index that `from` is mapped to, if any.
    ///
    /// Trusted: `hashbrown::HashMap::get` returns the value stored at the key,
    /// or `None` where the key is absent.
    #[verifier::external_body]
    pub fn get(&self, from: usize) -> (r: Option<usize>)
        ensures
            r == (if mapping_contents(*self).contains_key(from) {
                Some(mapping_contents(*self)[from])
            } else {
                None::<usize>
            }),
    {
        self.map.get(&from).copied()
    }

    /// The number of pairs in the mapping.
    ///
    /// Trusted: `hashbrown::HashMap::len` counts the keys of the map.
    #[verifier::external_body]
    pub fn len(&self) -> (r: usize)
        ensures
            r == mapping_contents(*self).dom().len(),
    {
        self.map.len()
    }
}

} // verus!
