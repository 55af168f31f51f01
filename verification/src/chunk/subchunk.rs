//! Sub-chunks: 16 by 16 by 16 sections of a chunk.

use vstd::prelude::*;
use vstd::arithmetic::div_mod::{lemma_fundamental_div_mod_converse, lemma_fundamental_div_mod, lemma_mod_pos_bound, lemma_div_pos_is_pos};

use crate::block::{Block, BlockRegistry, Side, face_texture};
use crate::collection::PVec;
use crate::identifier::BlockId;

verus! {

/// A 16x by 16z by 16y section within a [`Chunk`](super::Chunk).
#[derive(Clone, Debug)]
pub struct SubChunk {
    /// How blocks are stored in the [`SubChunk`].
    pub storage: PVec<BlockId>,
}

/// The storage index of the chunk-relative position `(x, y, z)`.
pub open spec fn section_index(x: int, y: int, z: int) -> int {
    y * 256 + x * 16 + z
}

/// The chunk-relative position `(x, y, z)` of storage index `i`.
pub open spec fn section_coords(i: int) -> (int, int, int) {
    ((i / 16) % 16, i / 256, i % 16)
}

/// The position lies within a sub-chunk.
pub open spec fn in_section(x: int, y: int, z: int) -> bool {
    0 <= x < 16 && 0 <= y < 16 && 0 <= z < 16
}

/// A face of a block, named by the axis direction it faces.
#[derive(Clone, Copy, Debug, PartialEq, Eq, Hash, Structural)]
pub enum Face {
    PosY,
    NegY,
    PosX,
    NegX,
    PosZ,
    NegZ,
}

/// The unit offset towards the neighbour behind face `f`.
pub open spec fn face_offset(f: Face) -> (int, int, int) {
    match f {
        Face::PosY => (0, 1, 0),
        Face::NegY => (0, -1, 0),
        Face::PosX => (1, 0, 0),
        Face::NegX => (-1, 0, 0),
        Face::PosZ => (0, 0, 1),
        Face::NegZ => (0, 0, -1),
    }
}

/// The side of a block that face `f` shows.
pub open spec fn face_side(f: Face) -> Side {
    match f {
        Face::PosY => Side::Top,
        Face::NegY => Side::Bottom,
        Face::PosX => Side::Right,
        Face::NegX => Side::Left,
        Face::PosZ => Side::Front,
        Face::NegZ => Side::Back,
    }
}

/// Face `f` of the block at index `idx` of `blocks` is drawn: its neighbour
/// lies inside the sub-chunk and is not a stored block other than air.
/// Faces on the sub-chunk's border are not drawn.
pub open spec fn face_visible(blocks: Seq<BlockId>, idx: int, f: Face) -> bool {
    let (x, y, z) = section_coords(idx);
    let (dx, dy, dz) = face_offset(f);
    let n = section_index(x + dx, y + dy, z + dz);
    &&& in_section(x + dx, y + dy, z + dz)
    &&& !(n < blocks.len() && blocks[n] != BlockRegistry::air())
}

/// `(idx, f)` if face `f` of block `idx` is drawn, nothing otherwise.
pub open spec fn face_if_visible(blocks: Seq<BlockId>, idx: int, f: Face) -> Seq<(usize, Face)> {
    if face_visible(blocks, idx, f) {
        seq![(idx as usize, f)]
    } else {
        Seq::empty()
    }
}

/// The drawn faces of block `idx`, in the order up, down, +x, -x, +z, -z;
/// none for air.
pub open spec fn faces_of(blocks: Seq<BlockId>, idx: int) -> Seq<(usize, Face)> {
    if blocks[idx] == BlockRegistry::air() {
        Seq::empty()
    } else {
        face_if_visible(blocks, idx, Face::PosY) + face_if_visible(blocks, idx, Face::NegY)
            + face_if_visible(blocks, idx, Face::PosX) + face_if_visible(blocks, idx, Face::NegX)
            + face_if_visible(blocks, idx, Face::PosZ) + face_if_visible(blocks, idx, Face::NegZ)
    }
}

/// The drawn faces of the first `n` blocks, block by block.
pub open spec fn faces_upto(blocks: Seq<BlockId>, n: int) -> Seq<(usize, Face)>
    decreases n,
{
    if n <= 0 {
        Seq::empty()
    } else {
        faces_upto(blocks, n - 1) + faces_of(blocks, n - 1)
    }
}

/// The corners of face `f` of the unit cube at the origin, in the order a
/// quad is drawn.
pub open spec fn face_corners(f: Face) -> Seq<(u8, u8, u8)> {
    match f {
        Face::PosX => seq![(1u8, 0u8, 0u8), (1, 0, 1), (1, 1, 1), (1, 1, 0)],
        Face::NegX => seq![(0u8, 0u8, 0u8), (0, 1, 0), (0, 1, 1), (0, 0, 1)],
        Face::PosY => seq![(0u8, 1u8, 0u8), (1, 1, 0), (1, 1, 1), (0, 1, 1)],
        Face::NegY => seq![(0u8, 0u8, 0u8), (0, 0, 1), (1, 0, 1), (1, 0, 0)],
        Face::PosZ => seq![(0u8, 0u8, 1u8), (0, 1, 1), (1, 1, 1), (1, 0, 1)],
        Face::NegZ => seq![(0u8, 0u8, 0u8), (1, 0, 0), (1, 1, 0), (0, 1, 0)],
    }
}

/// The corner `c` of the unit cube lies on the side that face `f` faces:
/// its coordinate along the face's axis is 1 for a positive face and 0 for a
/// negative one.
pub open spec fn on_face(f: Face, c: (u8, u8, u8)) -> bool {
    let (dx, dy, dz) = face_offset(f);
    &&& dx != 0 ==> c.0 as int == (if dx > 0 { 1int } else { 0int })
    &&& dy != 0 ==> c.1 as int == (if dy > 0 { 1int } else { 0int })
    &&& dz != 0 ==> c.2 as int == (if dz > 0 { 1int } else { 0int })
}

/// The four corners of a face are distinct corners of the unit cube, all on
/// the side the face faces.
pub proof fn lemma_corners_on_face(f: Face)
    ensures
        face_corners(f).len() == 4,
        forall|i: int| 0 <= i < 4 ==> on_face(f, #[trigger] face_corners(f)[i]),
        forall|i: int| 0 <= i < 4 ==> {
            let c = #[trigger] face_corners(f)[i];
            c.0 <= 1 && c.1 <= 1 && c.2 <= 1
        },
        forall|i: int, j: int| 0 <= i < j < 4 ==> #[trigger] face_corners(f)[i] != #[trigger] face_corners(f)[j],
{
}

/// The corners `a` and `b` of the unit cube differ in exactly one
/// coordinate: they are the two ends of one edge.
pub open spec fn differ_in_one(a: (u8, u8, u8), b: (u8, u8, u8)) -> bool {
    ||| (a.0 != b.0 && a.1 == b.1 && a.2 == b.2)
    ||| (a.0 == b.0 && a.1 != b.1 && a.2 == b.2)
    ||| (a.0 == b.0 && a.1 == b.1 && a.2 != b.2)
}

/// The corners of a face, in order, go round it: each corner and the next
/// (the last and the first included) are the ends of one edge, so the two
/// triangles of [`quad_indices`] cover the whole face.
pub proof fn lemma_corners_go_round(f: Face)
    ensures
        forall|i: int| 0 <= i < 4 ==> differ_in_one(#[trigger] face_corners(f)[i], face_corners(f)[(i + 1) % 4]),
{
}

/// Each face shows the side of the block that lies in its direction: the
/// face towards `+y` shows the top, `-y` the bottom, `+x` the right, `-x`
/// the left, `+z` the front and `-z` the back.
pub proof fn lemma_face_shows_side_it_faces(f: Face)
    ensures
        face_side(f) == Side::Top <==> face_offset(f) == (0int, 1int, 0int),
        face_side(f) == Side::Bottom <==> face_offset(f) == (0int, -1int, 0int),
        face_side(f) == Side::Right <==> face_offset(f) == (1int, 0int, 0int),
        face_side(f) == Side::Left <==> face_offset(f) == (-1int, 0int, 0int),
        face_side(f) == Side::Front <==> face_offset(f) == (0int, 0int, 1int),
        face_side(f) == Side::Back <==> face_offset(f) == (0int, 0int, -1int),
{
}

/// The six vertex indices of the two triangles of a quad whose four
/// vertices start at `first`.
pub fn quad_indices(first: u32) -> (r: [u32; 6])
    requires
        first <= u32::MAX - 3,
    ensures
        r@ == seq![first, (first + 3) as u32, (first + 1) as u32, (first + 1) as u32, (first + 3) as u32, (first + 2) as u32],
{
    [first, first + 3, first + 1, first + 1, first + 3, first + 2]
}

impl Face {
    /// Every face, in the order meshes are built: up, down, +x, -x, +z, -z.
    pub const ALL: [Face; 6] = [Face::PosY, Face::NegY, Face::PosX, Face::NegX, Face::PosZ, Face::NegZ];

    /// The unit offset `(dx, dy, dz)` towards the neighbour behind the face.
    pub fn offset(self) -> (r: (i16, i16, i16))
        ensures
            (r.0 as int, r.1 as int, r.2 as int) == face_offset(self),
    {
        match self {
            Face::PosY => (0, 1, 0),
            Face::NegY => (0, -1, 0),
            Face::PosX => (1, 0, 0),
            Face::NegX => (-1, 0, 0),
            Face::PosZ => (0, 0, 1),
            Face::NegZ => (0, 0, -1),
        }
    }

    /// The offset as an array `[dx, dy, dz]`.
    pub fn unpack_offsets(self) -> (r: [i16; 3])
        ensures
            (r@[0] as int, r@[1] as int, r@[2] as int) == face_offset(self),
    {
        let (dx, dy, dz) = self.offset();
        [dx, dy, dz]
    }

    /// The corners of this face of the unit cube at the origin, in the order
    /// a quad is drawn.
    pub fn corners(self) -> (r: [(u8, u8, u8); 4])
        ensures
            r@ == face_corners(self),
            forall|i: int| 0 <= i < 4 ==> differ_in_one(#[trigger] r@[i], r@[(i + 1) % 4]),
            forall|i: int| 0 <= i < 4 ==> on_face(self, #[trigger] r@[i]),
    {
        match self {
            Face::PosX => [(1, 0, 0), (1, 0, 1), (1, 1, 1), (1, 1, 0)],
            Face::NegX => [(0, 0, 0), (0, 1, 0), (0, 1, 1), (0, 0, 1)],
            Face::PosY => [(0, 1, 0), (1, 1, 0), (1, 1, 1), (0, 1, 1)],
            Face::NegY => [(0, 0, 0), (0, 0, 1), (1, 0, 1), (1, 0, 0)],
            Face::PosZ => [(0, 0, 1), (0, 1, 1), (1, 1, 1), (1, 0, 1)],
            Face::NegZ => [(0, 0, 0), (1, 0, 0), (1, 1, 0), (0, 1, 0)],
        }
    }

    /// The side of a block that the face shows.
    pub fn side(self) -> (r: Side)
        ensures
            r == face_side(self),
            r == (match self {
                Face::PosY => Side::Top,
                Face::NegY => Side::Bottom,
                Face::PosX => Side::Right,
                Face::NegX => Side::Left,
                Face::PosZ => Side::Front,
                Face::NegZ => Side::Back,
            }),
    {
        match self {
            Face::PosY => Side::Top,
            Face::NegY => Side::Bottom,
            Face::PosX => Side::Right,
            Face::NegX => Side::Left,
            Face::PosZ => Side::Front,
            Face::NegZ => Side::Back,
        }
    }

    /// The texture path that `blk`, which must not be air, shows on this
    /// face.
    pub fn texture_path(self, blk: &Block) -> (r: &str)
        requires
            !(blk.spec_textures() is Air),
        ensures
            r@ == face_texture(blk.spec_textures(), face_side(self)),
            r@ == face_texture(
                blk.spec_textures(),
                (match self {
                    Face::PosY => Side::Top,
                    Face::NegY => Side::Bottom,
                    Face::PosX => Side::Right,
                    Face::NegX => Side::Left,
                    Face::PosZ => Side::Front,
                    Face::NegZ => Side::Back,
                }),
            ),
    {
        match self {
            Face::PosY => blk.texture_top(),
            Face::NegY => blk.texture_bottom(),
            Face::PosX => blk.texture_right(),
            Face::NegX => blk.texture_left(),
            Face::PosZ => blk.texture_front(),
            Face::NegZ => blk.texture_back(),
        }
    }
}

impl SubChunk {
    /// The length along any axis of a [`SubChunk`].
    pub const SIZE: usize = 16;

    /// The number of blocks in a [`SubChunk`].
    pub const SIZE_3: usize = 4096;

    /// Converts a chunk-relative position to an index into a sub-chunk's
    /// storage: `y` is the slowest-varying coordinate and `z` the fastest.
    pub fn index(x: u8, y: u8, z: u8) -> (r: usize)
        ensures
            r == section_index(x as int, y as int, z as int),
    {
        (y as usize) * 16 * 16 + (x as usize) * 16 + (z as usize)
    }

    /// Converts an index into a sub-chunk's storage, which must lie within
    /// the sub-chunk, into a chunk-relative position `(x, y, z)`.
    pub fn coords(index: usize) -> (r: (u8, u8, u8))
        requires
            index < 4096,
        ensures
            (r.0 as int, r.1 as int, r.2 as int) == section_coords(index as int),
    {
        let z = index % 16;
        let x = (index / 16) % 16;
        let y = index / (16 * 16);
        (x as u8, y as u8, z as u8)
    }
}


/// A position inside a sub-chunk survives the round trip through its storage
/// index, and that index lies inside the sub-chunk.
pub proof fn lemma_index_coords(x: int, y: int, z: int)
    requires
        in_section(x, y, z),
    ensures
        0 <= section_index(x, y, z) < 4096,
        section_coords(section_index(x, y, z)) == (x, y, z),
{
    let i = section_index(x, y, z);
    lemma_fundamental_div_mod_converse(i, 16, y * 16 + x, z);
    lemma_fundamental_div_mod_converse(y * 16 + x, 16, y, x);
    lemma_fundamental_div_mod_converse(i, 256, y, x * 16 + z);
}

/// A storage index inside a sub-chunk survives the round trip through its
/// position, and that position lies inside the sub-chunk.
pub proof fn lemma_coords_index(i: int)
    requires
        0 <= i < 4096,
    ensures
        in_section(section_coords(i).0, section_coords(i).1, section_coords(i).2),
        section_index(section_coords(i).0, section_coords(i).1, section_coords(i).2) == i,
{
    lemma_fundamental_div_mod(i, 16);
    lemma_mod_pos_bound(i, 16);
    lemma_div_pos_is_pos(i, 16);
    let q = i / 16;
    lemma_fundamental_div_mod(q, 16);
    lemma_mod_pos_bound(q, 16);
    lemma_div_pos_is_pos(q, 16);
    assert(q < 256);
    assert(q / 16 < 16);
    lemma_fundamental_div_mod_converse(i, 256, q / 16, (q % 16) * 16 + i % 16);
}

/// Appending a block's faces one at a time appends all of them.
proof fn lemma_faces_of_split(
    b: Seq<BlockId>,
    i: int,
    g0: Seq<(usize, Face)>,
    g1: Seq<(usize, Face)>,
    g2: Seq<(usize, Face)>,
    g3: Seq<(usize, Face)>,
    g4: Seq<(usize, Face)>,
    g5: Seq<(usize, Face)>,
    g6: Seq<(usize, Face)>,
)
    requires
        b[i] != BlockRegistry::air(),
        g1 == g0 + face_if_visible(b, i, Face::PosY),
        g2 == g1 + face_if_visible(b, i, Face::NegY),
        g3 == g2 + face_if_visible(b, i, Face::PosX),
        g4 == g3 + face_if_visible(b, i, Face::NegX),
        g5 == g4 + face_if_visible(b, i, Face::PosZ),
        g6 == g5 + face_if_visible(b, i, Face::NegZ),
    ensures
        g6 == g0 + faces_of(b, i),
{
    let p1 = face_if_visible(b, i, Face::PosY);
    let p2 = face_if_visible(b, i, Face::NegY);
    let p3 = face_if_visible(b, i, Face::PosX);
    let p4 = face_if_visible(b, i, Face::NegX);
    let p5 = face_if_visible(b, i, Face::PosZ);
    let p6 = face_if_visible(b, i, Face::NegZ);
    assert(faces_of(b, i) == p1 + p2 + p3 + p4 + p5 + p6);
    assert(g6 =~= g0 + (p1 + p2 + p3 + p4 + p5 + p6));
}

impl SubChunk {
    /// Appends `(idx, face)` to `out` when that face of block `idx` is drawn.
    fn push_if_visible(&self, out: &mut Vec<(usize, Face)>, idx: usize, face: Face, air: BlockId)
        requires
            self.storage.wf(),
            idx < self.storage@.len(),
            self.storage@.len() <= 4096,
            air == BlockRegistry::air(),
        ensures
            final(out)@ == old(out)@ + face_if_visible(self.storage@, idx as int, face),
    {
        let (x, y, z) = Self::coords(idx);
        let (dx, dy, dz) = face.offset();
        let nx = x as i16 + dx;
        let ny = y as i16 + dy;
        let nz = z as i16 + dz;
        if 0 <= nx && nx < 16 && 0 <= ny && ny < 16 && 0 <= nz && nz < 16 {
            let n = Self::index(nx as u8, ny as u8, nz as u8);
            match self.storage.get(n) {
                Some(id) => {
                    if *id != air {
                        proof {
                            assert(face_if_visible(self.storage@, idx as int, face) =~= Seq::empty());
                            assert(old(out)@ + Seq::<(usize, Face)>::empty() =~= old(out)@);
                        }
                        return;
                    }
                },
                None => {},
            }
            out.push((idx, face));
            proof {
                assert(old(out)@ + face_if_visible(self.storage@, idx as int, face) =~= old(out)@.push((idx, face)));
            }
        } else {
            proof {
                assert(face_if_visible(self.storage@, idx as int, face) =~= Seq::empty());
                assert(old(out)@ + Seq::<(usize, Face)>::empty() =~= old(out)@);
            }
        }
    }

    /// The faces to draw when meshing the sub-chunk, as `(index, face)`
    /// pairs: block by block in storage order, air skipped, each block's
    /// faces in the order of [`Face::ALL`]. A face is drawn when its
    /// neighbour lies inside the sub-chunk and is not a stored block other
    /// than air; faces on the border are culled.
    pub fn visible_faces(&self) -> (r: Vec<(usize, Face)>)
        requires
            self.storage.wf(),
            self.storage@.len() <= 4096,
        ensures
            r@ == faces_upto(self.storage@, self.storage@.len() as int),
            forall|k: int| 0 <= k < r@.len() ==> {
                let (i, f) = #[trigger] r@[k];
                let (x, y, z) = section_coords(i as int);
                let (dx, dy, dz) = face_offset(f);
                let nb = section_index(x + dx, y + dy, z + dz);
                &&& (i as int) < self.storage@.len()
                &&& self.storage@[i as int] != BlockRegistry::air()
                &&& 0 <= x + dx < 16 && 0 <= y + dy < 16 && 0 <= z + dz < 16
                &&& (nb >= self.storage@.len() || self.storage@[nb] == BlockRegistry::air())
            },
    {
        let air = BlockRegistry::air_id();
        let len = self.storage.len();
        let mut out: Vec<(usize, Face)> = Vec::new();
        let mut idx: usize = 0;
        while idx < len
            invariant
                idx <= len,
                len == self.storage@.len(),
                len <= 4096,
                self.storage.wf(),
                air == BlockRegistry::air(),
                out@ == faces_upto(self.storage@, idx as int),
            decreases len - idx,
        {
            let blk = match self.storage.get(idx) {
                Some(b) => *b,
                None => air,
            };
            let ghost before = out@;
            if blk != air {
                let ghost b = self.storage@;
                let ghost i = idx as int;
                self.push_if_visible(&mut out, idx, Face::PosY, air);
                let ghost g1 = out@;
                self.push_if_visible(&mut out, idx, Face::NegY, air);
                let ghost g2 = out@;
                self.push_if_visible(&mut out, idx, Face::PosX, air);
                let ghost g3 = out@;
                self.push_if_visible(&mut out, idx, Face::NegX, air);
                let ghost g4 = out@;
                self.push_if_visible(&mut out, idx, Face::PosZ, air);
                let ghost g5 = out@;
                self.push_if_visible(&mut out, idx, Face::NegZ, air);
                proof {
                    lemma_faces_of_split(b, i, before, g1, g2, g3, g4, g5, out@);
                }
            } else {
                proof {
                    assert(faces_of(self.storage@, idx as int) =~= Seq::empty());
                    assert(out@ =~= before + faces_of(self.storage@, idx as int));
                }
            }
            proof {
                assert(faces_upto(self.storage@, idx + 1) == faces_upto(self.storage@, idx as int) + faces_of(self.storage@, idx as int));
            }
            idx = idx + 1;
        }
        proof {
            lemma_drawn_faces_touch_no_block(self.storage@, len as int);
        }
        out
    }
}


/// Every element of `a + b` satisfies `p` when every element of `a` and of
/// `b` does.
proof fn lemma_concat_all<A>(a: Seq<A>, b: Seq<A>, p: spec_fn(A) -> bool)
    requires
        forall|k: int| 0 <= k < a.len() ==> p(#[trigger] a[k]),
        forall|k: int| 0 <= k < b.len() ==> p(#[trigger] b[k]),
    ensures
        forall|k: int| 0 <= k < (a + b).len() ==> p(#[trigger] (a + b)[k]),
{
    assert forall|k: int| 0 <= k < (a + b).len() implies p(#[trigger] (a + b)[k]) by {
        if k < a.len() {
            assert((a + b)[k] == a[k]);
        } else {
            assert((a + b)[k] == b[k - a.len()]);
        }
    }
}

/// A drawn face never touches a stored block: the block it belongs to is
/// not air, and the neighbour behind it lies inside the sub-chunk and is
/// either not stored or air. Whatever block the neighbour is, if it is
/// stored and not air the face between them is culled.
pub proof fn lemma_drawn_faces_touch_no_block(blocks: Seq<BlockId>, n: int)
    requires
        0 <= n <= blocks.len(),
    ensures
        forall|k: int| 0 <= k < faces_upto(blocks, n).len() ==> {
            let (i, f) = #[trigger] faces_upto(blocks, n)[k];
            let (x, y, z) = section_coords(i as int);
            let (dx, dy, dz) = face_offset(f);
            let nb = section_index(x + dx, y + dy, z + dz);
            &&& (i as int) < n
            &&& blocks[i as int] != BlockRegistry::air()
            &&& 0 <= x + dx < 16 && 0 <= y + dy < 16 && 0 <= z + dz < 16
            &&& (nb >= blocks.len() || blocks[nb] == BlockRegistry::air())
        },
{
    lemma_drawn_faces_are_exposed(blocks, n);
    assert forall|k: int| 0 <= k < faces_upto(blocks, n).len() implies {
        let (i, f) = #[trigger] faces_upto(blocks, n)[k];
        let (x, y, z) = section_coords(i as int);
        let (dx, dy, dz) = face_offset(f);
        let nb = section_index(x + dx, y + dy, z + dz);
        &&& (i as int) < n
        &&& blocks[i as int] != BlockRegistry::air()
        &&& 0 <= x + dx < 16 && 0 <= y + dy < 16 && 0 <= z + dz < 16
        &&& (nb >= blocks.len() || blocks[nb] == BlockRegistry::air())
    } by {
        assert(drawn_face_exposed(blocks, n, faces_upto(blocks, n)[k]));
    }
}

/// The face `e` drawn while meshing the first `n` blocks is exposed: it
/// belongs to one of those blocks, which is not air, and faces a neighbour
/// inside the sub-chunk that is air or not stored.
pub open spec fn drawn_face_exposed(blocks: Seq<BlockId>, n: int, e: (usize, Face)) -> bool {
    &&& (e.0 as int) < n
    &&& blocks[e.0 as int] != BlockRegistry::air()
    &&& face_visible(blocks, e.0 as int, e.1)
}

/// Every face that meshing draws is exposed: faces on the sub-chunk's border,
/// faces between two solid blocks and faces of air are culled.
pub proof fn lemma_drawn_faces_are_exposed(blocks: Seq<BlockId>, n: int)
    requires
        0 <= n <= blocks.len(),
    ensures
        forall|k: int|
            0 <= k < faces_upto(blocks, n).len() ==> drawn_face_exposed(
                blocks,
                n,
                #[trigger] faces_upto(blocks, n)[k],
            ),
    decreases n,
{
    if n > 0 {
        let i = n - 1;
        let p = |e: (usize, Face)| drawn_face_exposed(blocks, n, e);
        lemma_drawn_faces_are_exposed(blocks, i);
        let prev = faces_upto(blocks, i);
        assert forall|k: int| 0 <= k < prev.len() implies p(#[trigger] prev[k]) by {
            assert(drawn_face_exposed(blocks, i, prev[k]));
        }
        if blocks[i] != BlockRegistry::air() {
            let p1 = face_if_visible(blocks, i, Face::PosY);
            let p2 = face_if_visible(blocks, i, Face::NegY);
            let p3 = face_if_visible(blocks, i, Face::PosX);
            let p4 = face_if_visible(blocks, i, Face::NegX);
            let p5 = face_if_visible(blocks, i, Face::PosZ);
            let p6 = face_if_visible(blocks, i, Face::NegZ);
            assert forall|f: Face, k: int| 0 <= k < face_if_visible(blocks, i, f).len() implies p(
                #[trigger] face_if_visible(blocks, i, f)[k],
            ) by {
            }
            lemma_concat_all(p1, p2, p);
            lemma_concat_all(p1 + p2, p3, p);
            lemma_concat_all(p1 + p2 + p3, p4, p);
            lemma_concat_all(p1 + p2 + p3 + p4, p5, p);
            lemma_concat_all(p1 + p2 + p3 + p4 + p5, p6, p);
            lemma_concat_all(prev, faces_of(blocks, i), p);
        } else {
            assert(faces_of(blocks, i) =~= Seq::empty());
            lemma_concat_all(prev, faces_of(blocks, i), p);
        }
    }
}


/// An element of `a` or of `b` is an element of `a + b`.
proof fn lemma_concat_contains<A>(a: Seq<A>, b: Seq<A>, x: A)
    requires
        a.contains(x) || b.contains(x),
    ensures
        (a + b).contains(x),
{
    if a.contains(x) {
        let k = choose|k: int| 0 <= k < a.len() && a[k] == x;
        assert((a + b)[k] == x);
    } else {
        let k = choose|k: int| 0 <= k < b.len() && b[k] == x;
        assert((a + b)[a.len() + k] == x);
    }
}

/// Every exposed face of a stored block other than air is drawn.
pub proof fn lemma_exposed_faces_are_drawn(blocks: Seq<BlockId>, n: int, idx: int, f: Face)
    requires
        0 <= idx < n <= blocks.len(),
        blocks[idx] != BlockRegistry::air(),
        face_visible(blocks, idx, f),
    ensures
        faces_upto(blocks, n).contains((idx as usize, f)),
    decreases n,
{
    let i = n - 1;
    let x = (idx as usize, f);
    if idx < i {
        lemma_exposed_faces_are_drawn(blocks, i, idx, f);
        lemma_concat_contains(faces_upto(blocks, i), faces_of(blocks, i), x);
    } else {
        let p1 = face_if_visible(blocks, i, Face::PosY);
        let p2 = face_if_visible(blocks, i, Face::NegY);
        let p3 = face_if_visible(blocks, i, Face::PosX);
        let p4 = face_if_visible(blocks, i, Face::NegX);
        let p5 = face_if_visible(blocks, i, Face::PosZ);
        let p6 = face_if_visible(blocks, i, Face::NegZ);
        assert(face_if_visible(blocks, i, f)[0] == x);
        assert(face_if_visible(blocks, i, f).contains(x));
        match f {
            Face::PosY => {
                lemma_concat_contains(p1, p2, x);
                lemma_concat_contains(p1 + p2, p3, x);
                lemma_concat_contains(p1 + p2 + p3, p4, x);
                lemma_concat_contains(p1 + p2 + p3 + p4, p5, x);
                lemma_concat_contains(p1 + p2 + p3 + p4 + p5, p6, x);
            },
            Face::NegY => {
                lemma_concat_contains(p1, p2, x);
                lemma_concat_contains(p1 + p2, p3, x);
                lemma_concat_contains(p1 + p2 + p3, p4, x);
                lemma_concat_contains(p1 + p2 + p3 + p4, p5, x);
                lemma_concat_contains(p1 + p2 + p3 + p4 + p5, p6, x);
            },
            Face::PosX => {
                lemma_concat_contains(p1 + p2, p3, x);
                lemma_concat_contains(p1 + p2 + p3, p4, x);
                lemma_concat_contains(p1 + p2 + p3 + p4, p5, x);
                lemma_concat_contains(p1 + p2 + p3 + p4 + p5, p6, x);
            },
            Face::NegX => {
                lemma_concat_contains(p1 + p2 + p3, p4, x);
                lemma_concat_contains(p1 + p2 + p3 + p4, p5, x);
                lemma_concat_contains(p1 + p2 + p3 + p4 + p5, p6, x);
            },
            Face::PosZ => {
                lemma_concat_contains(p1 + p2 + p3 + p4, p5, x);
                lemma_concat_contains(p1 + p2 + p3 + p4 + p5, p6, x);
            },
            Face::NegZ => {
                lemma_concat_contains(p1 + p2 + p3 + p4 + p5, p6, x);
            },
        }
        assert(faces_of(blocks, i) == p1 + p2 + p3 + p4 + p5 + p6);
        lemma_concat_contains(faces_upto(blocks, i), faces_of(blocks, i), x);
    }
}

} // verus!
