//! A strategy to divide the world into manageable segments.

mod chunk;
mod subchunk;

pub use chunk::Chunk;
pub use subchunk::{
    Face, SubChunk, face_offset, face_side, face_visible, face_if_visible, faces_of, faces_upto,
    in_section, section_coords, section_index, lemma_index_coords, lemma_coords_index,
    face_corners, on_face, lemma_corners_on_face, quad_indices, differ_in_one,
    lemma_corners_go_round, lemma_face_shows_side_it_faces, lemma_drawn_faces_touch_no_block,
};
