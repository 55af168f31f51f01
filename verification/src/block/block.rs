//! The block type.

use vstd::prelude::*;

use super::texture::{BlockTextures, Side, face_texture};

verus! {

/// A placeable, destroyable, and interactable geometry in the world.
#[derive(Clone, Debug, PartialEq, Eq)]
pub struct Block {
    ident: String,
    textures: BlockTextures,
}

impl Block {
    /// The name of the block.
    pub closed spec fn spec_ident(self) -> Seq<char> {
        self.ident@
    }

    /// The texture mappings of the block.
    pub closed spec fn spec_textures(self) -> BlockTextures {
        self.textures
    }

    /// Constructs a block named `ident` with the texture mappings `textures`.
    pub fn new(ident: String, textures: BlockTextures) -> (r: Self)
        ensures
            r.spec_ident() == ident@,
            r.spec_textures() == textures,
    {
        Block { ident, textures }
    }

    /// Returns the name of this block.
    pub fn ident(&self) -> (r: &str)
        ensures
            r@ == self.spec_ident(),
    {
        self.ident.as_str()
    }

    /// Returns the texture mappings for each face.
    pub fn textures(&self) -> (r: &BlockTextures)
        ensures
            *r == self.spec_textures(),
    {
        &self.textures
    }

    /// The texture of `side`; the block must not be air.
    fn texture_of(&self, side: Side) -> (r: &str)
        requires
            !(self.spec_textures() is Air),
        ensures
            r@ == face_texture(self.spec_textures(), side),
    {
        match &self.textures {
            BlockTextures::SharedFace(p) => p.as_str(),
            BlockTextures::AllFaces { top, front, left, right, back, bottom } => match side {
                Side::Front => front.as_str(),
                Side::Back => back.as_str(),
                Side::Left => left.as_str(),
                Side::Right => right.as_str(),
                Side::Top => top.as_str(),
                Side::Bottom => bottom.as_str(),
            },
            BlockTextures::Air => "",
        }
    }

    /// Returns the texture used for the front of this block; the block must
    /// not be air.
    pub fn texture_front(&self) -> (r: &str)
        requires
            !(self.spec_textures() is Air),
        ensures
            r@ == face_texture(self.spec_textures(), Side::Front),
    {
        self.texture_of(Side::Front)
    }

    /// Returns the texture used for the back of this block; the block must
    /// not be air.
    pub fn texture_back(&self) -> (r: &str)
        requires
            !(self.spec_textures() is Air),
        ensures
            r@ == face_texture(self.spec_textures(), Side::Back),
    {
        self.texture_of(Side::Back)
    }

    /// Returns the texture used for the left of this block; the block must
    /// not be air.
    pub fn texture_left(&self) -> (r: &str)
        requires
            !(self.spec_textures() is Air),
        ensures
            r@ == face_texture(self.spec_textures(), Side::Left),
    {
        self.texture_of(Side::Left)
    }

    /// Returns the texture used for the right of this block; the block must
    /// not be air.
    pub fn texture_right(&self) -> (r: &str)
        requires
            !(self.spec_textures() is Air),
        ensures
            r@ == face_texture(self.spec_textures(), Side::Right),
    {
        self.texture_of(Side::Right)
    }

    /// Returns the texture used for the top of this block; the block must
    /// not be air.
    pub fn texture_top(&self) -> (r: &str)
        requires
            !(self.spec_textures() is Air),
        ensures
            r@ == face_texture(self.spec_textures(), Side::Top),
    {
        self.texture_of(Side::Top)
    }

    /// Returns the texture used for the bottom of this block; the block must
    /// not be air.
    pub fn texture_bottom(&self) -> (r: &str)
        requires
            !(self.spec_textures() is Air),
        ensures
            r@ == face_texture(self.spec_textures(), Side::Bottom),
    {
        self.texture_of(Side::Bottom)
    }
}

} // verus!
