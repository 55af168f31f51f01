//! The registry of block kinds, keyed by identifier.

use vstd::prelude::*;

use super::block::Block;
use crate::identifier::{BlockId, name_id};

verus! {

/// A map from block identifiers to blocks, held in a `hashbrown` map.
#[verifier::external_body]
#[derive(Debug)]
pub struct BlockTable {
    map: hashbrown::HashMap<u64, Block>,
}

/// The map with no blocks.
pub open spec fn no_blocks() -> Map<u64, Block> {
    Map::empty()
}

/// The pairs held by a [`BlockTable`].
pub uninterp spec fn block_table_contents(t: BlockTable) -> Map<u64, Block>;

impl Clone for BlockTable {
    /// Copies the table.
    ///
    /// Trusted: `hashbrown::HashMap::clone` returns a map with the same keys,
    /// each holding a clone of the block; nothing is stated of the result.
    #[verifier::external_body]
    fn clone(&self) -> (r: BlockTable) {
        BlockTable { map: self.map.clone() }
    }
}

impl BlockTable {
    /// Creates an empty table.
    ///
    /// Trusted: `hashbrown::HashMap::new` returns a map with no entries.
    #[verifier::external_body]
    pub fn new() -> (r: BlockTable)
        ensures
            block_table_contents(r) == no_blocks(),
    {
        BlockTable { map: hashbrown::HashMap::new() }
    }

    /// Stores `block` at `key`, replacing any earlier block there.
    ///
    /// Trusted: `hashbrown::HashMap::insert` leaves the map holding `block`
    /// at `key` and every other pair as it was.
    #[verifier::external_body]
    pub fn insert(&mut self, key: u64, block: Block)
        ensures
            block_table_contents(*final(self)) == block_table_contents(*old(self)).insert(key, block),
    {
        self.map.insert(key, block);
    }

    /// Returns the block stored at `key`, if any.
    ///
    /// Trusted: `hashbrown::HashMap::get` returns the value stored at the key,
    /// or `None` where the key is absent.
    #[verifier::external_body]
    pub fn get(&self, key: u64) -> (r: Option<&Block>)
        ensures
            match r {
                Some(b) => block_table_contents(*self).contains_key(key) && *b == block_table_contents(
                    *self,
                )[key],
                None => !block_table_contents(*self).contains_key(key),
            },
    {
        self.map.get(&key)
    }
}

/// The registry built from `blocks`: each block stored at the identifier of
/// its name, a later block replacing an earlier one of the same name.
pub open spec fn registry_of(blocks: Seq<Block>) -> Map<u64, Block>
    decreases blocks.len(),
{
    if blocks.len() == 0 {
        Map::empty()
    } else {
        registry_of(blocks.drop_last()).insert(
            name_id(blocks.last().spec_ident()),
            blocks.last(),
        )
    }
}

/// Stores the mapping of block identifiers to blocks.
#[derive(Clone, Debug)]
pub struct BlockRegistry {
    blocks: BlockTable,
}

/// The blocks as listed in the registry file.
#[derive(Clone, Debug)]
pub struct RawBlockRegistry {
    block: Vec<Block>,
}

impl RawBlockRegistry {
    /// The listed blocks, in order.
    pub closed spec fn spec_blocks(self) -> Seq<Block> {
        self.block@
    }

    /// Constructs the raw registry listing `block`.
    pub fn new(block: Vec<Block>) -> (r: Self)
        ensures
            r.spec_blocks() == block@,
    {
        RawBlockRegistry { block }
    }

    /// Returns the listed blocks.
    pub fn blocks(&self) -> (r: &[Block])
        ensures
            r@ == self.spec_blocks(),
    {
        self.block.as_slice()
    }
}

impl BlockRegistry {
    /// The blocks of the registry, keyed by the raw value of their
    /// identifier.
    pub closed spec fn contents(self) -> Map<u64, Block> {
        block_table_contents(self.blocks)
    }

    /// The identifier of the air block.
    pub open spec fn air() -> BlockId {
        BlockId::named("Ru4J:air"@)
    }

    /// Creates an empty registry.
    pub fn new() -> (r: Self)
        ensures
            r.contents() == Map::<u64, Block>::empty(),
    {
        BlockRegistry { blocks: BlockTable::new() }
    }

    /// The [`BlockId`] of the air block.
    pub fn air_id() -> (r: BlockId)
        ensures
            r == Self::air(),
    {
        BlockId::from_name("Ru4J:air")
    }

    /// Returns `true` if `blk` is the air block.
    pub fn is_air(blk: BlockId) -> (r: bool)
        ensures
            r == (blk == Self::air()),
    {
        blk == Self::air_id()
    }

    /// Builds the registry from the raw manifest: each listed block is stored
    /// at the identifier of its name.
    pub fn from_raw_manifest(raw: RawBlockRegistry) -> (r: Self)
        ensures
            r.contents() == registry_of(raw.spec_blocks()),
    {
        let ghost listed = raw.spec_blocks();
        let mut forward = raw.block;
        let total = forward.len();
        // Reverse the list so that popping yields the blocks first to last.
        let mut reversed: Vec<Block> = Vec::new();
        while forward.len() > 0
            invariant
                forward@.len() + reversed@.len() == listed.len(),
                forall|i: int| 0 <= i < forward@.len() ==> forward@[i] == listed[i],
                forall|i: int|
                    0 <= i < reversed@.len() ==> reversed@[i] == listed[listed.len() - 1 - i],
            decreases forward@.len(),
        {
            let b = forward.pop().unwrap();
            reversed.push(b);
        }
        let mut blocks = BlockTable::new();
        let mut done: usize = 0;
        while reversed.len() > 0
            invariant
                done + reversed@.len() == listed.len(),
                listed.len() == total,
                forall|i: int|
                    0 <= i < reversed@.len() ==> reversed@[i] == listed[listed.len() - 1 - i],
                block_table_contents(blocks) == registry_of(listed.take(done as int)),
            decreases reversed@.len(),
        {
            let b = reversed.pop().unwrap();
            proof {
                assert(b == listed[done as int]);
                assert(listed.take(done as int + 1).drop_last() =~= listed.take(done as int));
            }
            let key = BlockId::from_name(b.ident()).raw();
            blocks.insert(key, b);
            done = done + 1;
        }
        proof {
            assert(listed.take(done as int) =~= listed);
        }
        BlockRegistry { blocks }
    }

    /// Returns the block with identifier `id`, if registered.
    pub fn get(&self, id: BlockId) -> (r: Option<&Block>)
        ensures
            match r {
                Some(b) => self.contents().contains_key(id.spec_raw()) && *b == self.contents()[id.spec_raw()],
                None => !self.contents().contains_key(id.spec_raw()),
            },
    {
        self.blocks.get(id.raw())
    }

    /// Returns the block named `name`, if registered.
    pub fn get_by_name(&self, name: &str) -> (r: Option<&Block>)
        ensures
            match r {
                Some(b) => self.contents().contains_key(name_id(name@)) && *b == self.contents()[name_id(name@)],
                None => !self.contents().contains_key(name_id(name@)),
            },
    {
        self.get(BlockId::from_name(name))
    }
}

impl Default for BlockRegistry {
    fn default() -> (r: Self)
        ensures
            r.contents() == Map::<u64, Block>::empty(),
    {
        Self::new()
    }
}


/// Looking up a listed block's name in the registry built from the list
/// finds the last block listed under that name.
pub proof fn lemma_registry_finds_last_listing(blocks: Seq<Block>, i: int)
    requires
        0 <= i < blocks.len(),
    ensures
        ({
            let key = name_id(blocks[i].spec_ident());
            &&& registry_of(blocks).contains_key(key)
            &&& exists|j: int|
                i <= j < blocks.len() && #[trigger] blocks[j] == registry_of(blocks)[key] && name_id(
                    blocks[j].spec_ident(),
                ) == key && forall|l: int|
                    j < l < blocks.len() ==> name_id(#[trigger] blocks[l].spec_ident()) != key
        }),
    decreases blocks.len(),
{
    let key = name_id(blocks[i].spec_ident());
    let last = blocks.len() - 1;
    if name_id(blocks[last].spec_ident()) == key {
        assert(blocks[last] == registry_of(blocks)[key]);
    } else {
        let rest = blocks.drop_last();
        lemma_registry_finds_last_listing(rest, i);
        assert(rest[i] == blocks[i]);
        let j = choose|j: int|
            i <= j < rest.len() && #[trigger] rest[j] == registry_of(rest)[key] && name_id(
                rest[j].spec_ident(),
            ) == key && forall|l: int| j < l < rest.len() ==> name_id(#[trigger] rest[l].spec_ident()) != key;
        assert(blocks[j] == rest[j]);
        assert forall|l: int| j < l < blocks.len() implies name_id(#[trigger] blocks[l].spec_ident()) != key by {
            if l < last {
                assert(blocks[l] == rest[l]);
            }
        }
    }
}

} // verus!
