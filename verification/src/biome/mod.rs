//! Biome colour data, and the index of the biome registry.

mod colormap;
mod registry;

pub use colormap::{Color, ColorMap, RawColorMap, unpack_srgb};
pub use registry::{
    BiomeIndex, biome_positions_of, listed_names, lemma_index_finds_last_listing,
    lemma_index_holds_only_listed,
};
