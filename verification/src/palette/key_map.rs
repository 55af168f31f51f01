//! The value-key to palette-index map that a heap-backed palette keeps for
//! finding an entry by its value.

use vstd::prelude::*;

verus! {

/// A map from value keys to palette indices, held in a `hashbrown` map.
#[verifier::external_body]
#[derive(Debug)]
pub struct KeyIndexMap {
    map: hashbrown::HashMap<u64, usize>,
}

/// The map with no pairs.
pub open spec fn no_keys() -> Map<u64, usize> {
    Map::empty()
}

/// The pairs held by a [`KeyIndexMap`].
pub uninterp spec fn key_index_contents(m: KeyIndexMap) -> Map<u64, usize>;

impl View for KeyIndexMap {
    type V = Map<u64, usize>;

    open spec fn view(&self) -> Map<u64, usize> {
        key_index_contents(*self)
    }
}

impl Clone for KeyIndexMap {
    /// Copies the map.
    ///
    /// Trusted: `hashbrown::HashMap::clone` returns a map with the same pairs.
    #[verifier::external_body]
    fn clone(&self) -> (r: KeyIndexMap)
        ensures
            key_index_contents(r) == key_index_contents(*self),
    {
        KeyIndexMap { map: self.map.clone() }
    }
}

impl KeyIndexMap {
    /// Creates an empty map.
    ///
    /// Trusted: `hashbrown::HashMap::new` returns a map with no entries.
    #[verifier::external_body]
    pub fn new() -> (r: KeyIndexMap)
        ensures
            key_index_contents(r) == no_keys(),
    {
        KeyIndexMap { map: hashbrown::HashMap::new() }
    }

    /// Maps `key` to `index`, replacing any earlier pair for `key`.
    ///
    /// Trusted: `hashbrown::HashMap::insert` leaves the map holding `index` at
    /// `key` and every other pair as it was.
    #[verifier::external_body]
    pub fn insert(&mut self, key: u64, index: usize)
        ensures
            key_index_contents(*final(self)) == key_index_contents(*old(self)).insert(key, index),
    {
        self.map.insert(key, index);
    }

    /// Returns the index stored at `key`, if any.
    ///
    /// Trusted: `hashbrown::HashMap::get` returns the value stored at the key,
    /// or `None` where the key is absent.
    #[verifier::external_body]
    pub fn get(&self, key: u64) -> (r: Option<usize>)
        ensures
            r == (if key_index_contents(*self).contains_key(key) {
                Some(key_index_contents(*self)[key])
            } else {
                None::<usize>
            }),
    {
        self.map.get(&key).copied()
    }

    /// Removes the pair stored at `key`, if any.
    ///
    /// Trusted: `hashbrown::HashMap::remove` leaves every other pair as it was.
    #[verifier::external_body]
    pub fn remove(&mut self, key: u64)
        ensures
            key_index_contents(*final(self)) == key_index_contents(*old(self)).remove(key),
    {
        self.map.remove(&key);
    }
}

} // verus!
