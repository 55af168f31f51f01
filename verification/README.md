# lce

The data side of a voxel game engine, written in Verus: palette-compressed
collections, block and biome identifiers, the block registry, colour maps,
sub-chunk geometry and face culling, and the block-asset loading state
machine. Verus proves the contract of every function under `src/`, except
for the small trusted wrappers around outside crates listed below, whose
contracts it believes; a few of those (`BlockTable::clone`,
`index_map_bytes`) state nothing of their result.

## Layout

- `src/index/`: bit-packed buffers of palette indices (`AlignedIndexBuffer`,
  repacked in place when the index width changes, and the `IndexBuffer` trait) and the old-to-new index mapping a palette hands
  over when it renumbers its entries.
- `src/palette/`: palette entries and `HybridPalette`, which keeps its
  entries in a fixed array while few and moves them into hash maps once they
  outgrow it.
- `src/collection/`: `PVec`, a vector whose items are stored as indices into
  a palette; its view is the sequence of stored items.
- `src/identifier.rs`: `BlockId` and `BiomeId`, made by hashing names.
- `src/block/`: blocks, their face textures and the block registry.
- `src/biome/`: colour maps packed as sRGB words, and the index from biome
  identifiers to their position in the registry listing.
- `src/chunk/`: chunks and sub-chunks, the position/index conversion, and the
  faces a sub-chunk's mesh is built from.
- `src/asset.rs`: the loading states of the block textures.
- `src/cursor.rs`: the step of a cursor's `next`, and the walk it adds up to.
- `tests/`: tests on concrete values.
- `app/`: the program around the library: asset loading, rendering and the
  types that need `serde` or `bevy` derives.

Calls into `hashbrown` and `leafwing_manifest` go through small trusted
wrappers (`IndexMapping`, `KeyIndexMap`, `BlockTable`, `hash_name` and
`index_map_bytes`) whose doc comments say what their contracts claim.
