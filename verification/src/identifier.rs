//! Identifiers built by hashing human-readable names.

use vstd::prelude::*;
use vstd::string::StringSliceAdditionalSpecFns;
use vstd::utf8::encode_utf8;

use crate::palette::PaletteValue;

verus! {

/// Base of the polynomial name hash.
pub const HASH_P: u64 = 53;

/// Modulus of the polynomial name hash.
pub const HASH_M: u64 = 1_000_000_009;

/// The state `(value, power)` of the polynomial hash after reading `bytes`:
/// each byte `b` at position `k` adds `(b + 1) * P^k`, everything modulo `M`.
pub open spec fn name_hash_state(bytes: Seq<u8>) -> (int, int)
    decreases bytes.len(),
{
    if bytes.len() == 0 {
        (0, 1)
    } else {
        let (v, p) = name_hash_state(bytes.drop_last());
        let b = bytes.last() as int;
        ((v + (b + 1) * p) % (HASH_M as int), (p * (HASH_P as int)) % (HASH_M as int))
    }
}

/// The identifier value that the name with UTF-8 encoding `bytes` hashes to.
pub open spec fn name_hash(bytes: Seq<u8>) -> u64 {
    name_hash_state(bytes).0 as u64
}

/// The identifier value of the name `name`.
pub open spec fn name_id(name: Seq<char>) -> u64 {
    name_hash(encode_utf8(name))
}

/// Hashes `name` with `leafwing_manifest`'s `Id::from_name`, and returns the
/// raw value of the identifier.
///
/// Trusted: the contract states the polynomial hash that `Id::from_name`
/// computes over the UTF-8 bytes of `name` (value `0`, power `1`; for each
/// byte `value = (value + (byte + 1) * power) % M`, `power = power * P % M`).
#[verifier::external_body]
fn hash_name(name: &str) -> (r: u64)
    ensures
        r == name_hash(name.spec_bytes()),
{
    leafwing_manifest::identifier::Id::<()>::from_name(name).raw()
}

/// The identifier of a block kind.
#[derive(Clone, Copy, Debug, PartialEq, Eq, Hash, Structural)]
pub struct BlockId {
    value: u64,
}

impl BlockId {
    /// The raw hashed value of the identifier.
    pub closed spec fn spec_raw(self) -> u64 {
        self.value
    }

    /// The identifier of the block named `name`.
    pub closed spec fn named(name: Seq<char>) -> BlockId {
        BlockId { value: name_id(name) }
    }

    /// Identifiers with the same raw value are the same identifier.
    pub proof fn lemma_raw_injective(a: BlockId, b: BlockId)
        ensures
            a.spec_raw() == b.spec_raw() ==> a == b,
    {
    }

    /// Creates the identifier of the block named `name`.
    pub fn from_name(name: &str) -> (id: Self)
        ensures
            id == BlockId::named(name@),
            id.spec_raw() == name_id(name@),
    {
        BlockId { value: hash_name(name) }
    }

    /// Creates an identifier from its raw value.
    pub fn from_raw(value: u64) -> (id: Self)
        ensures
            id.spec_raw() == value,
    {
        BlockId { value }
    }

    /// Returns the raw value of the identifier.
    pub fn raw(&self) -> (r: u64)
        ensures
            r == self.spec_raw(),
    {
        self.value
    }
}

impl PaletteValue for BlockId {
    open spec fn spec_key(self) -> u64 {
        self.spec_raw()
    }

    fn key(&self) -> (k: u64) {
        self.value
    }

    proof fn lemma_key_injective(a: Self, b: Self) {
    }
}

/// The identifier of a biome.
#[derive(Clone, Copy, Debug, PartialEq, Eq, Hash, Structural)]
pub struct BiomeId {
    value: u64,
}

impl BiomeId {
    /// The raw hashed value of the identifier.
    pub closed spec fn spec_raw(self) -> u64 {
        self.value
    }

    /// Creates the identifier of the biome named `name`.
    pub fn from_name(name: &str) -> (id: Self)
        ensures
            id.spec_raw() == name_id(name@),
    {
        BiomeId { value: hash_name(name) }
    }

    /// Creates an identifier from its raw value.
    pub fn from_raw(value: u64) -> (id: Self)
        ensures
            id.spec_raw() == value,
    {
        BiomeId { value }
    }

    /// Returns the raw value of the identifier.
    pub fn raw(&self) -> (r: u64)
        ensures
            r == self.spec_raw(),
    {
        self.value
    }
}

impl PaletteValue for BiomeId {
    open spec fn spec_key(self) -> u64 {
        self.spec_raw()
    }

    fn key(&self) -> (k: u64) {
        self.value
    }

    proof fn lemma_key_injective(a: Self, b: Self) {
    }
}

} // verus!
