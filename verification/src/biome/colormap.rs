//! Biome colour blending data.

use vstd::prelude::*;

verus! {

/// Colours as listed in the biome registry: `0xRRGGBB` words.
#[derive(Clone, Copy, Debug, PartialEq, Eq, Hash, Structural)]
pub struct RawColorMap {
    /// The grass colour.
    pub grass: u32,
    /// The foliage colour.
    pub foliage: u32,
    /// The sky colour.
    pub sky: u32,
}

impl Default for RawColorMap {
    fn default() -> (r: Self)
        ensures
            r.grass == 0 && r.foliage == 0 && r.sky == 0,
    {
        RawColorMap { grass: 0, foliage: 0, sky: 0 }
    }
}

/// An opaque colour given by its 8-bit sRGB channels.
#[derive(Clone, Copy, Debug, PartialEq, Eq, Hash, Structural)]
pub struct Color {
    /// The red channel.
    pub red: u8,
    /// The green channel.
    pub green: u8,
    /// The blue channel.
    pub blue: u8,
}

/// The colour that the word `0xRRGGBB` encodes (higher bits are ignored).
pub open spec fn unpack_srgb(word: u32) -> Color {
    Color {
        red: ((word >> 16u32) & 0xFFu32) as u8,
        green: ((word >> 8u32) & 0xFFu32) as u8,
        blue: (word & 0xFFu32) as u8,
    }
}

impl Color {
    /// The colour with channels `red`, `green` and `blue`.
    pub fn srgb_u8(red: u8, green: u8, blue: u8) -> (r: Self)
        ensures
            r.red == red && r.green == green && r.blue == blue,
    {
        Color { red, green, blue }
    }

    /// Decodes the word `0xRRGGBB`.
    pub fn from_packed(word: u32) -> (r: Self)
        ensures
            r == unpack_srgb(word),
    {
        let red = ((word >> 16u32) & 0xFFu32) as u8;
        let green = ((word >> 8u32) & 0xFFu32) as u8;
        let blue = (word & 0xFFu32) as u8;
        Color { red, green, blue }
    }
}

/// Biome colour blending data.
#[derive(Clone, Copy, Debug, PartialEq, Eq, Hash, Structural)]
pub struct ColorMap {
    grass: Color,
    foliage: Color,
    sky: Color,
}

impl ColorMap {
    /// The grass colour tint.
    pub closed spec fn spec_grass(self) -> Color {
        self.grass
    }

    /// The foliage colour tint.
    pub closed spec fn spec_foliage(self) -> Color {
        self.foliage
    }

    /// The sky colour tint.
    pub closed spec fn spec_sky(self) -> Color {
        self.sky
    }

    /// The colour map that `raw` decodes to.
    pub closed spec fn decoded(raw: RawColorMap) -> ColorMap {
        ColorMap {
            grass: unpack_srgb(raw.grass),
            foliage: unpack_srgb(raw.foliage),
            sky: unpack_srgb(raw.sky),
        }
    }

    /// What the decoded colour map holds.
    pub proof fn lemma_decoded(raw: RawColorMap)
        ensures
            ColorMap::decoded(raw).spec_grass() == unpack_srgb(raw.grass),
            ColorMap::decoded(raw).spec_foliage() == unpack_srgb(raw.foliage),
            ColorMap::decoded(raw).spec_sky() == unpack_srgb(raw.sky),
    {
    }

    /// Constructs a new [`ColorMap`].
    pub fn new(grass: Color, foliage: Color, sky: Color) -> (r: Self)
        ensures
            r.spec_grass() == grass,
            r.spec_foliage() == foliage,
            r.spec_sky() == sky,
    {
        ColorMap { grass, foliage, sky }
    }

    /// The grass colour tint.
    pub fn grass(&self) -> (r: &Color)
        ensures
            *r == self.spec_grass(),
    {
        &self.grass
    }

    /// The foliage colour tint.
    pub fn foliage(&self) -> (r: &Color)
        ensures
            *r == self.spec_foliage(),
    {
        &self.foliage
    }

    /// The sky colour tint.
    pub fn sky(&self) -> (r: &Color)
        ensures
            *r == self.spec_sky(),
    {
        &self.sky
    }
}

impl From<RawColorMap> for ColorMap {
    fn from(value: RawColorMap) -> (r: ColorMap) {
        ColorMap {
            grass: Color::from_packed(value.grass),
            foliage: Color::from_packed(value.foliage),
            sky: Color::from_packed(value.sky),
        }
    }
}

impl vstd::std_specs::convert::FromSpecImpl<RawColorMap> for ColorMap {
    open spec fn obeys_from_spec() -> bool {
        true
    }

    open spec fn from_spec(v: RawColorMap) -> ColorMap {
        ColorMap::decoded(v)
    }
}

} // verus!
