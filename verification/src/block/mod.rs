//! Blocks: the placeable, destroyable and interactable geometry of the world.

mod block;
mod registry;
mod texture;

pub use block::Block;
pub use registry::{
    BlockRegistry, RawBlockRegistry, BlockTable, block_table_contents, registry_of,
    lemma_registry_finds_last_listing,
};
pub use texture::{BlockTextures, face_texture, Side, lemma_shared_texture_on_every_side};
