//! Palette-compressed storage, blocks, biome colours and sub-chunk geometry
//! for a voxel world.

pub mod identifier;
pub mod index;
pub mod palette;
pub mod collection;
pub mod container;
pub mod block;
pub mod biome;
pub mod chunk;
pub mod asset;
pub mod cursor;
