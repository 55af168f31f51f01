//! Texture mappings of a block's faces.

use vstd::prelude::*;

verus! {

/// Texture mappings stored as paths.
///
/// Encodes no texture, a single texture shared by every face, and a texture
/// for each side of the block.
#[derive(Clone, Debug, PartialEq, Eq)]
pub enum BlockTextures {
    /// No texture.
    Air,
    /// One texture for every face of the block.
    SharedFace(String),
    /// A texture for each face of the block.
    AllFaces {
        /// The texture of the top face.
        top: String,
        /// The texture of the front face.
        front: String,
        /// The texture of the left face.
        left: String,
        /// The texture of the right face.
        right: String,
        /// The texture of the back face.
        back: String,
        /// The texture of the bottom face.
        bottom: String,
    },
}

/// A side of a block.
#[derive(Clone, Copy, Debug, PartialEq, Eq, Hash, Structural)]
pub enum Side {
    Front,
    Back,
    Left,
    Right,
    Top,
    Bottom,
}

/// The path of the texture that `textures` gives to `side` (empty for air).
pub open spec fn face_texture(textures: BlockTextures, side: Side) -> Seq<char> {
    match textures {
        BlockTextures::Air => Seq::empty(),
        BlockTextures::SharedFace(p) => p@,
        BlockTextures::AllFaces { top, front, left, right, back, bottom } => match side {
            Side::Front => front@,
            Side::Back => back@,
            Side::Left => left@,
            Side::Right => right@,
            Side::Top => top@,
            Side::Bottom => bottom@,
        },
    }
}

impl Default for BlockTextures {
    fn default() -> (r: Self)
        ensures
            r is Air,
    {
        BlockTextures::Air
    }
}


/// A shared texture is the texture of every side.
pub proof fn lemma_shared_texture_on_every_side(path: String, a: Side, b: Side)
    ensures
        face_texture(BlockTextures::SharedFace(path), a) == path@,
        face_texture(BlockTextures::SharedFace(path), a) == face_texture(
            BlockTextures::SharedFace(path),
            b,
        ),
{
}

} // verus!
