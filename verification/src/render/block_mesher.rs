//! Which faces of a chunk's blocks are visible: a face is drawn on a transparent block
//! where its neighbour is opaque (into the opaque list), or where an empty block borders a
//! translucent one (into the translucent list).

use crate::block::blockregistry::BlockRegistry;
use crate::block::{
    spec_kind, spec_light, spec_transparent, Block, BlockTrait, LightBlock, AIR_BLOCK,
    AIR_BLOCK_KIND, BEDROCK_BLOCK,
};
use crate::chunk::chunk::in_chunk;
use crate::chunk::chunk_buffer::ChunkBuffer;
use crate::chunk::{Chunk, ChunkPos};
use vstd::prelude::*;

verus! {

/// One visible face: the world position of the block it belongs to, the texture number of
/// the neighbour's side that faces the block, the block's light and the side of the block
/// (xp, xm, yp, ym, zp, zm) that the face is on.
#[derive(PartialEq, Eq, Structural, Debug, Copy, Clone)]
pub struct BlockFace {
    pub x: i16,
    pub y: i16,
    pub z: i16,
    pub texture: usize,
    pub light: u8,
    pub face: usize,
}

/// The step of side `d` along x (sides in the order xp, xm, yp, ym, zp, zm).
pub open spec fn dir_x(d: int) -> int {
    if d == 0 { 1 } else if d == 1 { -1 } else { 0 }
}

/// The step of side `d` along y.
pub open spec fn dir_y(d: int) -> int {
    if d == 2 { 1 } else if d == 3 { -1 } else { 0 }
}

/// The step of side `d` along z.
pub open spec fn dir_z(d: int) -> int {
    if d == 4 { 1 } else if d == 5 { -1 } else { 0 }
}

/// The side facing side `d`.
pub open spec fn opposite(d: int) -> int {
    if d % 2 == 0 { d + 1 } else { d - 1 }
}

/// The chunk step of a local coordinate that may lie one block outside the chunk.
pub open spec fn chunk_step(n: int) -> int {
    if n < 0 { -1 } else if n >= 16 { 1 } else { 0 }
}

/// The textures of each kind of block, as numbers.
pub open spec fn texture_table(v: Seq<Option<Vec<usize>>>) -> Seq<Option<Seq<usize>>> {
    Seq::new(v.len(), |i: int| match v[i] {
        Some(w) => Some(w@),
        None => None,
    })
}

/// Blocks of kind `kind` have six textures in the table.
pub open spec fn textured(table: Seq<Option<Seq<usize>>>, kind: Block) -> bool {
    &&& kind < table.len()
    &&& table[kind as int] is Some
    &&& table[kind as int]->0.len() == 6
}

/// The texture number of side `side` of blocks of kind `kind`.
pub open spec fn texture_of(table: Seq<Option<Seq<usize>>>, kind: Block, side: int) -> usize {
    table[kind as int]->0[side]
}

/// The list a face between a block and its neighbour goes to: 1 for the opaque faces, where
/// a transparent block borders an opaque one; 2 for the translucent faces, where an empty
/// block borders a translucent one; 0 where no face is drawn.
pub open spec fn face_class(block: Block, neighbour: Block) -> int {
    if !spec_transparent(block) {
        0
    } else if !spec_transparent(neighbour) {
        1
    } else if spec_kind(block) == AIR_BLOCK_KIND && spec_kind(neighbour) != AIR_BLOCK_KIND {
        2
    } else {
        0
    }
}

/// The face on side `d` of a block at world (wx, wy, wz), as a sequence of one face when it
/// goes to list `class` and of none otherwise.
pub open spec fn face_seq(
    table: Seq<Option<Seq<usize>>>,
    block: Block,
    neighbour: Block,
    wx: int,
    wy: int,
    wz: int,
    d: int,
    class: int,
) -> Seq<BlockFace> {
    if face_class(block, neighbour) == class {
        seq![
            BlockFace {
                x: wx as i16,
                y: wy as i16,
                z: wz as i16,
                texture: texture_of(table, spec_kind(neighbour), opposite(d)),
                light: spec_light(block),
                face: d as usize,
            },
        ]
    } else {
        Seq::empty()
    }
}

/// The chunk next to chunk `cp` on side `d`.
pub open spec fn neighbour_chunk(buf: ChunkBuffer, cp: ChunkPos, d: int) -> Option<Chunk> {
    buf.chunk_at((cp.x + dir_x(d)) as i16, (cp.y + dir_y(d)) as i16, (cp.z + dir_z(d)) as i16)
}

/// The block of chunk `cp` at local (x, y, z).
pub open spec fn own_block(buf: ChunkBuffer, cp: ChunkPos, x: int, y: int, z: int) -> Block {
    buf.chunk_at(cp.x, cp.y, cp.z)->0.spec_block(x, y, z)
}

/// The block next to local block (x, y, z) of chunk `cp` on side `d`: read in the chunk
/// itself or in its neighbour; where the chunk above is missing there is air, where the
/// chunk below is missing bedrock.
pub open spec fn neighbour_block(buf: ChunkBuffer, cp: ChunkPos, x: int, y: int, z: int, d: int) -> Block {
    let nx = x + dir_x(d);
    let ny = y + dir_y(d);
    let nz = z + dir_z(d);
    if in_chunk(nx, ny, nz) {
        own_block(buf, cp, nx, ny, nz)
    } else {
        match neighbour_chunk(buf, cp, d) {
            Some(c) => c.spec_block(
                nx - 16 * chunk_step(nx),
                ny - 16 * chunk_step(ny),
                nz - 16 * chunk_step(nz),
            ),
            None => if d == 5 {
                BEDROCK_BLOCK
            } else {
                AIR_BLOCK
            },
        }
    }
}

/// The face on side `d` of local block (x, y, z) of chunk `cp`, when it goes to list `class`.
pub open spec fn face_if(
    buf: ChunkBuffer,
    cp: ChunkPos,
    table: Seq<Option<Seq<usize>>>,
    x: int,
    y: int,
    z: int,
    d: int,
    class: int,
) -> Seq<BlockFace> {
    face_seq(
        table,
        own_block(buf, cp, x, y, z),
        neighbour_block(buf, cp, x, y, z, d),
        cp.x * 16 + x,
        cp.y * 16 + y,
        cp.z * 16 + z,
        d,
        class,
    )
}

/// The face on side `d` of the `k`-th block of chunk `cp` (counting z fastest, then y, then
/// x) when its neighbour lies inside the chunk.
pub open spec fn inner_face(
    buf: ChunkBuffer,
    cp: ChunkPos,
    table: Seq<Option<Seq<usize>>>,
    k: int,
    d: int,
    class: int,
) -> Seq<BlockFace> {
    let x = k / 256;
    let y = (k / 16) % 16;
    let z = k % 16;
    if in_chunk(x + dir_x(d), y + dir_y(d), z + dir_z(d)) {
        face_if(buf, cp, table, x, y, z, d, class)
    } else {
        Seq::empty()
    }
}

/// The faces of list `class` between the first `k` blocks of chunk `cp` and their
/// neighbours inside the chunk, block after block, each block's sides in order.
pub open spec fn inner_faces(
    buf: ChunkBuffer,
    cp: ChunkPos,
    table: Seq<Option<Seq<usize>>>,
    k: int,
    class: int,
) -> Seq<BlockFace>
    decreases k,
{
    if k <= 0 {
        Seq::empty()
    } else {
        inner_faces(buf, cp, table, k - 1, class) + inner_face(buf, cp, table, k - 1, 0, class)
            + inner_face(buf, cp, table, k - 1, 1, class) + inner_face(buf, cp, table, k - 1, 2, class)
            + inner_face(buf, cp, table, k - 1, 3, class) + inner_face(buf, cp, table, k - 1, 4, class)
            + inner_face(buf, cp, table, k - 1, 5, class)
    }
}

/// The local position of the `n`-th block on side `d` of a chunk.
pub open spec fn side_pos(d: int, n: int) -> (int, int, int) {
    let a = n / 16;
    let b = n % 16;
    if d == 0 {
        (15, a, b)
    } else if d == 1 {
        (0, a, b)
    } else if d == 2 {
        (a, 15, b)
    } else if d == 3 {
        (a, 0, b)
    } else if d == 4 {
        (a, b, 15)
    } else {
        (a, b, 0)
    }
}

/// The faces of list `class` on side `d` of the first `n` blocks on that side of chunk `cp`,
/// towards the neighbouring chunk.
pub open spec fn side_faces(
    buf: ChunkBuffer,
    cp: ChunkPos,
    table: Seq<Option<Seq<usize>>>,
    d: int,
    n: int,
    class: int,
) -> Seq<BlockFace>
    decreases n,
{
    if n <= 0 {
        Seq::empty()
    } else {
        let p = side_pos(d, n - 1);
        side_faces(buf, cp, table, d, n - 1, class) + face_if(buf, cp, table, p.0, p.1, p.2, d, class)
    }
}

/// The faces of list `class` towards the neighbouring chunks on the first `d` sides.
pub open spec fn sides_upto(
    buf: ChunkBuffer,
    cp: ChunkPos,
    table: Seq<Option<Seq<usize>>>,
    d: int,
    class: int,
) -> Seq<BlockFace>
    decreases d,
{
    if d <= 0 {
        Seq::empty()
    } else {
        sides_upto(buf, cp, table, d - 1, class) + side_faces(buf, cp, table, d - 1, 256, class)
    }
}

/// All faces of list `class` of chunk `cp`: first those inside the chunk, then those towards
/// each neighbouring chunk in turn.
pub open spec fn chunk_faces(
    buf: ChunkBuffer,
    cp: ChunkPos,
    table: Seq<Option<Seq<usize>>>,
    class: int,
) -> Seq<BlockFace> {
    inner_faces(buf, cp, table, 4096, class) + sides_upto(buf, cp, table, 6, class)
}

/// What a face of list `class` stands between: an opaque face (list 1) is drawn on a
/// transparent block against an opaque neighbour; a translucent face (list 2) on an air
/// block against a neighbour that is transparent and not air, such as a water surface seen
/// from the air.
pub open spec fn drawn_between(block: Block, neighbour: Block, class: int) -> bool {
    if class == 1 {
        spec_transparent(block) && !spec_transparent(neighbour)
    } else {
        &&& class == 2
        &&& spec_kind(block) == AIR_BLOCK_KIND
        &&& spec_transparent(neighbour)
        &&& spec_kind(neighbour) != AIR_BLOCK_KIND
    }
}

/// Face `f` is drawn on side `f.face` of a local block of chunk `cp`, between that block and
/// its neighbour as list `class` draws.
pub open spec fn face_of_class(buf: ChunkBuffer, cp: ChunkPos, f: BlockFace, class: int) -> bool {
    exists|x: int, y: int, z: int|
        #![trigger own_block(buf, cp, x, y, z)]
        {
            &&& in_chunk(x, y, z)
            &&& f.x == (cp.x * 16 + x) as i16
            &&& f.y == (cp.y * 16 + y) as i16
            &&& f.z == (cp.z * 16 + z) as i16
            &&& f.face < 6
            &&& drawn_between(own_block(buf, cp, x, y, z), neighbour_block(buf, cp, x, y, z, f.face as int), class)
        }
}

/// Every face of `s` is a face of list `class` of chunk `cp`.
pub open spec fn all_of_class(buf: ChunkBuffer, cp: ChunkPos, s: Seq<BlockFace>, class: int) -> bool {
    forall|i: int| 0 <= i < s.len() ==> face_of_class(buf, cp, #[trigger] s[i], class)
}

proof fn lemma_class_concat(buf: ChunkBuffer, cp: ChunkPos, a: Seq<BlockFace>, b: Seq<BlockFace>, class: int)
    requires
        all_of_class(buf, cp, a, class),
        all_of_class(buf, cp, b, class),
    ensures
        all_of_class(buf, cp, a + b, class),
{
    assert forall|i: int| 0 <= i < (a + b).len() implies face_of_class(buf, cp, #[trigger] (a + b)[i], class) by {
        if i < a.len() {
            assert((a + b)[i] == a[i]);
        } else {
            assert((a + b)[i] == b[i - a.len()]);
        }
    }
}

proof fn lemma_class_face_if(
    buf: ChunkBuffer,
    cp: ChunkPos,
    table: Seq<Option<Seq<usize>>>,
    x: int,
    y: int,
    z: int,
    d: int,
    class: int,
)
    requires
        in_chunk(x, y, z),
        0 <= d < 6,
        class == 1 || class == 2,
    ensures
        all_of_class(buf, cp, face_if(buf, cp, table, x, y, z, d, class), class),
{
    let s = face_if(buf, cp, table, x, y, z, d, class);
    if s.len() > 0 {
        let f = s[0];
        assert(f.face as int == d);
        assert(own_block(buf, cp, x, y, z) == own_block(buf, cp, x, y, z));
        assert(face_of_class(buf, cp, f, class));
    }
}

proof fn lemma_class_inner(buf: ChunkBuffer, cp: ChunkPos, table: Seq<Option<Seq<usize>>>, k: int, class: int)
    requires
        k <= 4096,
        class == 1 || class == 2,
    ensures
        all_of_class(buf, cp, inner_faces(buf, cp, table, k, class), class),
    decreases k,
{
    if k > 0 {
        lemma_class_inner(buf, cp, table, k - 1, class);
        let j = k - 1;
        let x = j / 256;
        let y = (j / 16) % 16;
        let z = j % 16;
        assert forall|d: int| 0 <= d < 6 implies all_of_class(buf, cp, #[trigger] inner_face(buf, cp, table, j, d, class), class) by {
            if in_chunk(x + dir_x(d), y + dir_y(d), z + dir_z(d)) {
                lemma_class_face_if(buf, cp, table, x, y, z, d, class);
            }
        }
        let s0 = inner_faces(buf, cp, table, k - 1, class);
        let f0 = inner_face(buf, cp, table, j, 0, class);
        let f1 = inner_face(buf, cp, table, j, 1, class);
        let f2 = inner_face(buf, cp, table, j, 2, class);
        let f3 = inner_face(buf, cp, table, j, 3, class);
        let f4 = inner_face(buf, cp, table, j, 4, class);
        let f5 = inner_face(buf, cp, table, j, 5, class);
        lemma_class_concat(buf, cp, s0, f0, class);
        lemma_class_concat(buf, cp, s0 + f0, f1, class);
        lemma_class_concat(buf, cp, s0 + f0 + f1, f2, class);
        lemma_class_concat(buf, cp, s0 + f0 + f1 + f2, f3, class);
        lemma_class_concat(buf, cp, s0 + f0 + f1 + f2 + f3, f4, class);
        lemma_class_concat(buf, cp, s0 + f0 + f1 + f2 + f3 + f4, f5, class);
    }
}

proof fn lemma_class_side(buf: ChunkBuffer, cp: ChunkPos, table: Seq<Option<Seq<usize>>>, d: int, n: int, class: int)
    requires
        0 <= d < 6,
        n <= 256,
        class == 1 || class == 2,
    ensures
        all_of_class(buf, cp, side_faces(buf, cp, table, d, n, class), class),
    decreases n,
{
    if n > 0 {
        lemma_class_side(buf, cp, table, d, n - 1, class);
        let p = side_pos(d, n - 1);
        lemma_class_face_if(buf, cp, table, p.0, p.1, p.2, d, class);
        lemma_class_concat(
            buf,
            cp,
            side_faces(buf, cp, table, d, n - 1, class),
            face_if(buf, cp, table, p.0, p.1, p.2, d, class),
            class,
        );
    }
}

proof fn lemma_class_sides(buf: ChunkBuffer, cp: ChunkPos, table: Seq<Option<Seq<usize>>>, d: int, class: int)
    requires
        d <= 6,
        class == 1 || class == 2,
    ensures
        all_of_class(buf, cp, sides_upto(buf, cp, table, d, class), class),
    decreases d,
{
    if d > 0 {
        lemma_class_sides(buf, cp, table, d - 1, class);
        lemma_class_side(buf, cp, table, d - 1, 256, class);
        lemma_class_concat(
            buf,
            cp,
            sides_upto(buf, cp, table, d - 1, class),
            side_faces(buf, cp, table, d - 1, 256, class),
            class,
        );
    }
}

/// Every face a chunk's mesh draws stands where it should: each opaque face lies on a
/// transparent block of the chunk against an opaque neighbour, and each translucent face on
/// an air block of the chunk against a neighbour that is transparent and not air, on the
/// face's side. So no face is drawn between two transparent blocks that are not air, such
/// as two water blocks.
pub proof fn lemma_faces_drawn_between(buf: ChunkBuffer, cp: ChunkPos, table: Seq<Option<Seq<usize>>>)
    ensures
        all_of_class(buf, cp, chunk_faces(buf, cp, table, 1), 1),
        all_of_class(buf, cp, chunk_faces(buf, cp, table, 2), 2),
        forall|a: Block, b: Block|
            spec_transparent(a) && spec_transparent(b) && spec_kind(a) != AIR_BLOCK_KIND && spec_kind(b) != AIR_BLOCK_KIND
                ==> #[trigger] face_class(a, b) == 0,
{
    lemma_class_inner(buf, cp, table, 4096, 1);
    lemma_class_sides(buf, cp, table, 6, 1);
    lemma_class_concat(buf, cp, inner_faces(buf, cp, table, 4096, 1), sides_upto(buf, cp, table, 6, 1), 1);
    lemma_class_inner(buf, cp, table, 4096, 2);
    lemma_class_sides(buf, cp, table, 6, 2);
    lemma_class_concat(buf, cp, inner_faces(buf, cp, table, 4096, 2), sides_upto(buf, cp, table, 6, 2), 2);
}

/// Chunk `cp` can be meshed: it is loaded and initialized, its neighbours on the four
/// horizontal sides too, those above and below are initialized where loaded, its blocks'
/// world coordinates fit an `i16`, and every neighbour that shows a face has textures.
pub open spec fn meshable(buf: ChunkBuffer, cp: ChunkPos, table: Seq<Option<Seq<usize>>>) -> bool {
    &&& buf.wf()
    &&& -2048 <= cp.x < 2048
    &&& -2048 <= cp.y < 2048
    &&& buf.chunk_at(cp.x, cp.y, cp.z) is Some
    &&& buf.chunk_at(cp.x, cp.y, cp.z)->0.blocks.len() > 0
    &&& forall|d: int|
        0 <= d < 4 ==> #[trigger] neighbour_chunk(buf, cp, d) is Some && neighbour_chunk(
            buf,
            cp,
            d,
        )->0.blocks.len() > 0
    &&& forall|d: int|
        4 <= d < 6 && #[trigger] neighbour_chunk(buf, cp, d) is Some ==> neighbour_chunk(
            buf,
            cp,
            d,
        )->0.blocks.len() > 0
    &&& forall|x: int, y: int, z: int, d: int|
        in_chunk(x, y, z) && 0 <= d < 6 && face_class(
            own_block(buf, cp, x, y, z),
            #[trigger] neighbour_block(buf, cp, x, y, z, d),
        ) != 0 ==> textured(table, spec_kind(neighbour_block(buf, cp, x, y, z, d)))
}

/// A block that can show a face: it is opaque, or it is not air.
pub open spec fn shows_face(b: Block) -> bool {
    !spec_transparent(b) || spec_kind(b) != AIR_BLOCK_KIND
}

/// Every block stored in chunk `c` that can show a face has textures in the table.
pub open spec fn chunk_textured(table: Seq<Option<Seq<usize>>>, c: Chunk) -> bool {
    forall|i: int| 0 <= i < c.blocks.len() && shows_face(#[trigger] c.blocks[i]) ==> textured(table, spec_kind(c.blocks[i]))
}

/// What `BlockMesher::can_mesh` checks of chunk `cp`: it lies where its blocks' world
/// coordinates fit an `i16`; it and its neighbours on the four horizontal sides are loaded
/// and initialized; those above and below are initialized where loaded, and bedrock has
/// textures when there is no chunk below; every block stored in these chunks that can show
/// a face has textures.
pub open spec fn mesh_checks(buf: ChunkBuffer, cp: ChunkPos, table: Seq<Option<Seq<usize>>>) -> bool {
    &&& -2048 <= cp.x < 2048
    &&& -2048 <= cp.y < 2048
    &&& buf.chunk_at(cp.x, cp.y, cp.z) matches Some(c) && c.blocks.len() > 0 && chunk_textured(table, c)
    &&& forall|d: int|
        0 <= d < 6 ==> match #[trigger] neighbour_chunk(buf, cp, d) {
            Some(c) => c.blocks.len() > 0 && chunk_textured(table, c),
            None => d >= 4 && (d == 5 ==> textured(table, spec_kind(BEDROCK_BLOCK))),
        }
}

/// Builds the visible faces of chunks from the texture numbers of each kind of block.
pub struct BlockMesher {
    block_texture_map: Vec<Option<Vec<usize>>>,
}

impl BlockMesher {
    /// The texture numbers of each kind of block.
    pub closed spec fn textures(&self) -> Seq<Option<Seq<usize>>> {
        texture_table(self.block_texture_map@)
    }

    pub fn new(block_registry: &BlockRegistry) -> (r: BlockMesher)
        ensures
            r.textures() == texture_table(block_registry.spec_texture_indices()),
    {
        let indices = block_registry.block_texture_indices();
        let mut map: Vec<Option<Vec<usize>>> = Vec::new();
        let mut i: usize = 0;
        while i < indices.len()
            invariant
                i <= indices.len(),
                indices@ == block_registry.spec_texture_indices(),
                map.len() == i,
                forall|j: int| 0 <= j < i ==> texture_table(map@)[j] == texture_table(indices@)[j],
            decreases indices.len() - i,
        {
            let entry = match &indices[i] {
                Some(v) => {
                    let w = v.clone();
                    proof {
                        assert(w@ =~= v@);
                    }
                    Some(w)
                },
                None => None,
            };
            map.push(entry);
            proof {
                assert forall|j: int| 0 <= j < i + 1 implies texture_table(map@)[j] == texture_table(
                    indices@,
                )[j] by {
                    if j < i {
                        assert(texture_table(map@)[j] == texture_table(map@.drop_last())[j]);
                    }
                }
            }
            i += 1;
        }
        proof {
            assert(texture_table(map@) =~= texture_table(indices@));
        }
        BlockMesher { block_texture_map: map }
    }

    /// The texture number of side `face` of blocks of kind `kind`.
    fn texture(&self, kind: Block, face: usize) -> (r: usize)
        requires
            textured(self.textures(), kind),
            face < 6,
        ensures
            r == texture_of(self.textures(), kind, face as int),
    {
        match &self.block_texture_map[kind as usize] {
            Some(v) => v[face],
            None => 0,
        }
    }

    /// Add the face on side `face` of a block at world (wx, wy, wz) to the list it goes to.
    fn push_face(
        &self,
        vertices: &mut Vec<BlockFace>,
        translucent_vertices: &mut Vec<BlockFace>,
        block: Block,
        neighbour: Block,
        wx: i16,
        wy: i16,
        wz: i16,
        face: usize,
    )
        requires
            face < 6,
            face_class(block, neighbour) != 0 ==> textured(self.textures(), spec_kind(neighbour)),
        ensures
            final(vertices)@ == old(vertices)@ + face_seq(
                self.textures(),
                block,
                neighbour,
                wx as int,
                wy as int,
                wz as int,
                face as int,
                1,
            ),
            final(translucent_vertices)@ == old(translucent_vertices)@ + face_seq(
                self.textures(),
                block,
                neighbour,
                wx as int,
                wy as int,
                wz as int,
                face as int,
                2,
            ),
    {
        let opaque = neighbour.is_opaque();
        let translucent = block.is_empty() && neighbour.is_translucent();
        if block.is_transparent() && (opaque || translucent) {
            let side: usize = if face % 2 == 0 {
                face + 1
            } else {
                face - 1
            };
            let f = BlockFace {
                x: wx,
                y: wy,
                z: wz,
                texture: self.texture(neighbour.kind(), side),
                light: block.get_light(),
                face,
            };
            if opaque {
                vertices.push(f);
            } else {
                translucent_vertices.push(f);
            }
        }
        proof {
            assert(vertices@ =~= old(vertices)@ + face_seq(
                self.textures(),
                block,
                neighbour,
                wx as int,
                wy as int,
                wz as int,
                face as int,
                1,
            ));
            assert(translucent_vertices@ =~= old(translucent_vertices)@ + face_seq(
                self.textures(),
                block,
                neighbour,
                wx as int,
                wy as int,
                wz as int,
                face as int,
                2,
            ));
        }
    }
    /// The faces between local block (x, y, z) of chunk `cp` and its six neighbours inside
    /// the chunk, added to their lists side after side.
    fn push_inner_faces(
        &self,
        vertices: &mut Vec<BlockFace>,
        translucent_vertices: &mut Vec<BlockFace>,
        chunk: &Chunk,
        buffer: &ChunkBuffer,
        cp: ChunkPos,
        k: usize,
    )
        requires
            meshable(*buffer, cp, self.textures()),
            buffer.chunk_at(cp.x, cp.y, cp.z) == Some(*chunk),
            chunk.wf(),
            0 <= cp.z < 64,
            k < 4096,
        ensures
            final(vertices)@ == old(vertices)@ + inner_face(*buffer, cp, self.textures(), k as int, 0, 1)
                + inner_face(*buffer, cp, self.textures(), k as int, 1, 1) + inner_face(
                *buffer,
                cp,
                self.textures(),
                k as int,
                2,
                1,
            ) + inner_face(*buffer, cp, self.textures(), k as int, 3, 1) + inner_face(
                *buffer,
                cp,
                self.textures(),
                k as int,
                4,
                1,
            ) + inner_face(*buffer, cp, self.textures(), k as int, 5, 1),
            final(translucent_vertices)@ == old(translucent_vertices)@ + inner_face(
                *buffer,
                cp,
                self.textures(),
                k as int,
                0,
                2,
            ) + inner_face(*buffer, cp, self.textures(), k as int, 1, 2) + inner_face(
                *buffer,
                cp,
                self.textures(),
                k as int,
                2,
                2,
            ) + inner_face(*buffer, cp, self.textures(), k as int, 3, 2) + inner_face(
                *buffer,
                cp,
                self.textures(),
                k as int,
                4,
                2,
            ) + inner_face(*buffer, cp, self.textures(), k as int, 5, 2),
    {
        let ghost buf = *buffer;
        let ghost table = self.textures();
        let x = k / 256;
        let y = (k / 16) % 16;
        let z = k % 16;
        let wx = cp.x * 16 + x as i16;
        let wy = cp.y * 16 + y as i16;
        let wz = cp.z * 16 + z as i16;
        let block = chunk.get_block(x, y, z);
        let ghost v0 = vertices@;
        let ghost t0 = translucent_vertices@;
        let ghost xi = x as int;
        let ghost yi = y as int;
        let ghost zi = z as int;
        assert(own_block(buf, cp, xi, yi, zi) == block);
        if x < 15 {
            let nb = chunk.get_block(x + 1, y, z);
            assert(neighbour_block(buf, cp, xi, yi, zi, 0) == nb);
            self.push_face(vertices, translucent_vertices, block, nb, wx, wy, wz, 0);
        }
        assert(vertices@ == v0 + inner_face(buf, cp, table, k as int, 0, 1));
        assert(translucent_vertices@ == t0 + inner_face(buf, cp, table, k as int, 0, 2));
        let ghost v1 = vertices@;
        let ghost t1 = translucent_vertices@;
        if x > 0 {
            let nb = chunk.get_block(x - 1, y, z);
            assert(neighbour_block(buf, cp, xi, yi, zi, 1) == nb);
            self.push_face(vertices, translucent_vertices, block, nb, wx, wy, wz, 1);
        }
        assert(vertices@ == v1 + inner_face(buf, cp, table, k as int, 1, 1));
        assert(translucent_vertices@ == t1 + inner_face(buf, cp, table, k as int, 1, 2));
        let ghost v2 = vertices@;
        let ghost t2 = translucent_vertices@;
        if y < 15 {
            let nb = chunk.get_block(x, y + 1, z);
            assert(neighbour_block(buf, cp, xi, yi, zi, 2) == nb);
            self.push_face(vertices, translucent_vertices, block, nb, wx, wy, wz, 2);
        }
        assert(vertices@ == v2 + inner_face(buf, cp, table, k as int, 2, 1));
        assert(translucent_vertices@ == t2 + inner_face(buf, cp, table, k as int, 2, 2));
        let ghost v3 = vertices@;
        let ghost t3 = translucent_vertices@;
        if y > 0 {
            let nb = chunk.get_block(x, y - 1, z);
            assert(neighbour_block(buf, cp, xi, yi, zi, 3) == nb);
            self.push_face(vertices, translucent_vertices, block, nb, wx, wy, wz, 3);
        }
        assert(vertices@ == v3 + inner_face(buf, cp, table, k as int, 3, 1));
        assert(translucent_vertices@ == t3 + inner_face(buf, cp, table, k as int, 3, 2));
        let ghost v4 = vertices@;
        let ghost t4 = translucent_vertices@;
        if z < 15 {
            let nb = chunk.get_block(x, y, z + 1);
            assert(neighbour_block(buf, cp, xi, yi, zi, 4) == nb);
            self.push_face(vertices, translucent_vertices, block, nb, wx, wy, wz, 4);
        }
        assert(vertices@ == v4 + inner_face(buf, cp, table, k as int, 4, 1));
        assert(translucent_vertices@ == t4 + inner_face(buf, cp, table, k as int, 4, 2));
        let ghost v5 = vertices@;
        let ghost t5 = translucent_vertices@;
        if z > 0 {
            let nb = chunk.get_block(x, y, z - 1);
            assert(neighbour_block(buf, cp, xi, yi, zi, 5) == nb);
            self.push_face(vertices, translucent_vertices, block, nb, wx, wy, wz, 5);
        }
        assert(vertices@ == v5 + inner_face(buf, cp, table, k as int, 5, 1));
        assert(translucent_vertices@ == t5 + inner_face(buf, cp, table, k as int, 5, 2));
    }
    /// The face on side `d` of the `n`-th block on that side of chunk `cp`, towards the
    /// neighbouring chunk `neighbour`, added to its list.
    fn push_side_face(
        &self,
        vertices: &mut Vec<BlockFace>,
        translucent_vertices: &mut Vec<BlockFace>,
        chunk: &Chunk,
        neighbour: Option<&Chunk>,
        buffer: &ChunkBuffer,
        cp: ChunkPos,
        d: usize,
        n: usize,
    )
        requires
            meshable(*buffer, cp, self.textures()),
            buffer.chunk_at(cp.x, cp.y, cp.z) == Some(*chunk),
            chunk.wf(),
            0 <= cp.z < 64,
            d < 6,
            n < 256,
            match neighbour {
                Some(c) => neighbour_chunk(*buffer, cp, d as int) == Some(*c) && c.wf(),
                None => neighbour_chunk(*buffer, cp, d as int) is None,
            },
        ensures
            final(vertices)@ == old(vertices)@ + face_if(
                *buffer,
                cp,
                self.textures(),
                side_pos(d as int, n as int).0,
                side_pos(d as int, n as int).1,
                side_pos(d as int, n as int).2,
                d as int,
                1,
            ),
            final(translucent_vertices)@ == old(translucent_vertices)@ + face_if(
                *buffer,
                cp,
                self.textures(),
                side_pos(d as int, n as int).0,
                side_pos(d as int, n as int).1,
                side_pos(d as int, n as int).2,
                d as int,
                2,
            ),
    {
        let ghost buf = *buffer;
        let a = n / 16;
        let b = n % 16;
        let x: usize = if d == 0 {
            15
        } else if d == 1 {
            0
        } else {
            a
        };
        let y: usize = if d == 0 || d == 1 {
            a
        } else if d == 2 {
            15
        } else if d == 3 {
            0
        } else {
            b
        };
        let z: usize = if d < 4 {
            b
        } else if d == 4 {
            15
        } else {
            0
        };
        let nx: usize = if d == 0 {
            0
        } else if d == 1 {
            15
        } else {
            x
        };
        let ny: usize = if d == 2 {
            0
        } else if d == 3 {
            15
        } else {
            y
        };
        let nz: usize = if d == 4 {
            0
        } else if d == 5 {
            15
        } else {
            z
        };
        assert(side_pos(d as int, n as int) == (x as int, y as int, z as int));
        let block = chunk.get_block(x, y, z);
        let nb = match neighbour {
            Some(c) => {
                assert(d < 4 ==> c.blocks.len() > 0);
                assert(c.blocks.len() > 0);
                c.get_block(nx, ny, nz)
            },
            None => if d == 5 {
                BEDROCK_BLOCK
            } else {
                AIR_BLOCK
            },
        };
        assert(own_block(buf, cp, x as int, y as int, z as int) == block);
        assert(neighbour_block(buf, cp, x as int, y as int, z as int, d as int) == nb);
        let wx = cp.x * 16 + x as i16;
        let wy = cp.y * 16 + y as i16;
        let wz = cp.z * 16 + z as i16;
        self.push_face(vertices, translucent_vertices, block, nb, wx, wy, wz, d);
    }

    /// The visible faces of chunk `cp`: those inside the chunk, block after block with each
    /// block's sides in order, then those towards each neighbouring chunk in turn; the
    /// opaque faces in the first list and the translucent ones in the second.
    #[verifier::spinoff_prover]
    #[verifier::rlimit(30)]
    pub fn mesh_chunk(&self, cp: ChunkPos, buffer: &ChunkBuffer) -> (r: (Vec<BlockFace>, Vec<BlockFace>))
        requires
            meshable(*buffer, cp, self.textures()),
        ensures
            r.0@ == chunk_faces(*buffer, cp, self.textures(), 1),
            r.1@ == chunk_faces(*buffer, cp, self.textures(), 2),
            all_of_class(*buffer, cp, r.0@, 1),
            all_of_class(*buffer, cp, r.1@, 2),
    {
        let ghost buf = *buffer;
        let ghost table = self.textures();
        let mut vertices: Vec<BlockFace> = Vec::new();
        let mut translucent_vertices: Vec<BlockFace> = Vec::new();
        let chunk = buffer.get_chunk_pos(cp).unwrap();
        proof {
            buf.lemma_chunk_at_wf(cp.x, cp.y, cp.z);
            let key = crate::chunk::chunk_buffer::spec_column_key(cp.x, cp.y);
            assert(buf.columns@.contains_key(key));
        }
        let mut k: usize = 0;
        while k < 4096
            invariant
                k <= 4096,
                buf == *buffer,
                table == self.textures(),
                meshable(buf, cp, table),
                buf.chunk_at(cp.x, cp.y, cp.z) == Some(*chunk),
                chunk.wf(),
                0 <= cp.z < 64,
                vertices@ == inner_faces(buf, cp, table, k as int, 1),
                translucent_vertices@ == inner_faces(buf, cp, table, k as int, 2),
            decreases 4096 - k,
        {
            self.push_inner_faces(&mut vertices, &mut translucent_vertices, chunk, buffer, cp, k);
            proof {
                assert(vertices@ =~= inner_faces(buf, cp, table, k + 1, 1));
                assert(translucent_vertices@ =~= inner_faces(buf, cp, table, k + 1, 2));
            }
            k += 1;
        }
        let ghost inner1 = vertices@;
        let ghost inner2 = translucent_vertices@;
        proof {
            assert(vertices@ =~= inner1 + sides_upto(buf, cp, table, 0, 1));
            assert(translucent_vertices@ =~= inner2 + sides_upto(buf, cp, table, 0, 2));
        }
        let mut d: usize = 0;
        while d < 6
            invariant
                d <= 6,
                buf == *buffer,
                table == self.textures(),
                meshable(buf, cp, table),
                buf.chunk_at(cp.x, cp.y, cp.z) == Some(*chunk),
                chunk.wf(),
                0 <= cp.z < 64,
                inner1 == inner_faces(buf, cp, table, 4096, 1),
                inner2 == inner_faces(buf, cp, table, 4096, 2),
                vertices@ == inner1 + sides_upto(buf, cp, table, d as int, 1),
                translucent_vertices@ == inner2 + sides_upto(buf, cp, table, d as int, 2),
            decreases 6 - d,
        {
            let dx: i16 = if d == 0 {
                1
            } else if d == 1 {
                -1
            } else {
                0
            };
            let dy: i16 = if d == 2 {
                1
            } else if d == 3 {
                -1
            } else {
                0
            };
            let dz: i16 = if d == 4 {
                1
            } else if d == 5 {
                -1
            } else {
                0
            };
            let ncp = ChunkPos::new(cp.x + dx, cp.y + dy, cp.z + dz);
            let neighbour = buffer.get_chunk_pos(ncp);
            proof {
                assert(neighbour_chunk(buf, cp, d as int) == buf.chunk_at(ncp.x, ncp.y, ncp.z));
                if neighbour is Some {
                    buf.lemma_chunk_at_wf(ncp.x, ncp.y, ncp.z);
                }
            }
            let ghost before1 = vertices@;
            let ghost before2 = translucent_vertices@;
            let mut n: usize = 0;
            while n < 256
                invariant
                    n <= 256,
                    d < 6,
                    buf == *buffer,
                    table == self.textures(),
                    meshable(buf, cp, table),
                    buf.chunk_at(cp.x, cp.y, cp.z) == Some(*chunk),
                    chunk.wf(),
                    0 <= cp.z < 64,
                    match neighbour {
                        Some(c) => neighbour_chunk(buf, cp, d as int) == Some(*c) && c.wf(),
                        None => neighbour_chunk(buf, cp, d as int) is None,
                    },
                    vertices@ == before1 + side_faces(buf, cp, table, d as int, n as int, 1),
                    translucent_vertices@ == before2 + side_faces(buf, cp, table, d as int, n as int, 2),
                decreases 256 - n,
            {
                self.push_side_face(
                    &mut vertices,
                    &mut translucent_vertices,
                    chunk,
                    neighbour,
                    buffer,
                    cp,
                    d,
                    n,
                );
                proof {
                    assert(vertices@ =~= before1 + side_faces(buf, cp, table, d as int, n + 1, 1));
                    assert(translucent_vertices@ =~= before2 + side_faces(
                        buf,
                        cp,
                        table,
                        d as int,
                        n + 1,
                        2,
                    ));
                }
                n += 1;
            }
            proof {
                assert(vertices@ =~= inner1 + sides_upto(buf, cp, table, d + 1, 1));
                assert(translucent_vertices@ =~= inner2 + sides_upto(buf, cp, table, d + 1, 2));
            }
            d += 1;
        }
        proof {
            lemma_faces_drawn_between(buf, cp, table);
        }
        (vertices, translucent_vertices)
    }
    /// Whether blocks of kind `kind` have six textures.
    fn is_textured(&self, kind: Block) -> (r: bool)
        ensures
            r == textured(self.textures(), kind),
    {
        if kind as usize >= self.block_texture_map.len() {
            return false;
        }
        match &self.block_texture_map[kind as usize] {
            Some(v) => v.len() == 6,
            None => false,
        }
    }

    /// Whether every block stored in `chunk` that can show a face has textures.
    fn is_chunk_textured(&self, chunk: &Chunk) -> (r: bool)
        ensures
            r == chunk_textured(self.textures(), *chunk),
    {
        let mut i: usize = 0;
        while i < chunk.blocks.len()
            invariant
                i <= chunk.blocks.len(),
                forall|j: int|
                    0 <= j < i && shows_face(#[trigger] chunk.blocks[j]) ==> textured(self.textures(), spec_kind(chunk.blocks[j])),
            decreases chunk.blocks.len() - i,
        {
            let b = chunk.blocks[i];
            if (!b.is_transparent() || b.kind() != AIR_BLOCK_KIND) && !self.is_textured(b.kind()) {
                assert(shows_face(chunk.blocks[i as int]));
                return false;
            }
            i += 1;
        }
        true
    }

    /// Whether chunk `cp` can be meshed, checked as `mesh_checks` says: then it is
    /// `meshable`.
    pub fn can_mesh(&self, cp: ChunkPos, buffer: &ChunkBuffer) -> (r: bool)
        requires
            buffer.wf(),
        ensures
            r == mesh_checks(*buffer, cp, self.textures()),
            r ==> meshable(*buffer, cp, self.textures()),
    {
        let ghost buf = *buffer;
        let ghost table = self.textures();
        if !(-2048 <= cp.x && cp.x < 2048 && -2048 <= cp.y && cp.y < 2048) {
            return false;
        }
        let chunk = match buffer.get_chunk_pos(cp) {
            Some(c) => c,
            None => {
                return false;
            },
        };
        if !chunk.is_initialized() || !self.is_chunk_textured(chunk) {
            return false;
        }
        proof {
            let key = crate::chunk::chunk_buffer::spec_column_key(cp.x, cp.y);
            assert(buf.columns@.contains_key(key));
        }
        let mut d: usize = 0;
        while d < 6
            invariant
                d <= 6,
                buf == *buffer,
                table == self.textures(),
                buf.wf(),
                -2048 <= cp.x < 2048,
                -2048 <= cp.y < 2048,
                0 <= cp.z < 64,
                buf.chunk_at(cp.x, cp.y, cp.z) == Some(*chunk),
                chunk.blocks.len() > 0,
                chunk_textured(table, *chunk),
                forall|e: int|
                    0 <= e < d ==> match #[trigger] neighbour_chunk(buf, cp, e) {
                        Some(c) => c.blocks.len() > 0 && chunk_textured(table, c),
                        None => e >= 4 && (e == 5 ==> textured(table, spec_kind(BEDROCK_BLOCK))),
                    },
            decreases 6 - d,
        {
            let dx: i16 = if d == 0 {
                1
            } else if d == 1 {
                -1
            } else {
                0
            };
            let dy: i16 = if d == 2 {
                1
            } else if d == 3 {
                -1
            } else {
                0
            };
            let dz: i16 = if d == 4 {
                1
            } else if d == 5 {
                -1
            } else {
                0
            };
            let ncp = ChunkPos::new(cp.x + dx, cp.y + dy, cp.z + dz);
            assert(neighbour_chunk(buf, cp, d as int) == buf.chunk_at(ncp.x, ncp.y, ncp.z));
            match buffer.get_chunk_pos(ncp) {
                Some(c) => {
                    if !c.is_initialized() || !self.is_chunk_textured(c) {
                        return false;
                    }
                },
                None => {
                    if d < 4 {
                        return false;
                    }
                    if d == 5 && !self.is_textured(BEDROCK_BLOCK.kind()) {
                        return false;
                    }
                },
            }
            d += 1;
        }
        proof {
            buf.lemma_chunk_at_wf(cp.x, cp.y, cp.z);
            assert forall|x: int, y: int, z: int, d: int|
                in_chunk(x, y, z) && 0 <= d < 6 && face_class(
                    own_block(buf, cp, x, y, z),
                    #[trigger] neighbour_block(buf, cp, x, y, z, d),
                ) != 0 implies textured(table, spec_kind(neighbour_block(buf, cp, x, y, z, d))) by {
                let nb = neighbour_block(buf, cp, x, y, z, d);
                assert(shows_face(nb));
                let nx = x + dir_x(d);
                let ny = y + dir_y(d);
                let nz = z + dir_z(d);
                assert(match neighbour_chunk(buf, cp, d) {
                    Some(c) => c.blocks.len() > 0 && chunk_textured(table, c),
                    None => d >= 4 && (d == 5 ==> textured(table, spec_kind(BEDROCK_BLOCK))),
                });
                if in_chunk(nx, ny, nz) {
                    if chunk.blocks.len() != 1 {
                        assert(chunk.blocks[crate::chunk::chunk::spec_index(nx, ny, nz)] == nb);
                    } else {
                        assert(chunk.blocks[0] == nb);
                    }
                } else {
                    match neighbour_chunk(buf, cp, d) {
                        Some(c) => {
                            let ncp = ChunkPos {
                                x: (cp.x + dir_x(d)) as i16,
                                y: (cp.y + dir_y(d)) as i16,
                                z: (cp.z + dir_z(d)) as i16,
                            };
                            buf.lemma_chunk_at_wf(ncp.x, ncp.y, ncp.z);
                            let lx = nx - 16 * chunk_step(nx);
                            let ly = ny - 16 * chunk_step(ny);
                            let lz = nz - 16 * chunk_step(nz);
                            if c.blocks.len() != 1 {
                                assert(c.blocks[crate::chunk::chunk::spec_index(lx, ly, lz)] == nb);
                            } else {
                                assert(c.blocks[0] == nb);
                            }
                        },
                        None => {
                            crate::block::lemma_air();
                        },
                    }
                }
            }
        }
        true
    }
}

} // verus!
