use super::chunkpos::ChunkPos;
use super::CHUNK_VOLUME;
use crate::block::Block;
use vstd::prelude::*;

verus! {

/// The index that the bit layout of a chunk gives local block (x, y, z): `z | y << 4 | x << 8`.
pub open spec fn spec_raw_index(x: usize, y: usize, z: usize) -> usize {
    z | (y << 4usize) | (x << 8usize)
}

/// The position of local block (x, y, z) in a normal chunk.
pub open spec fn spec_index(x: int, y: int, z: int) -> int {
    x * 256 + y * 16 + z
}

/// Whether (x, y, z) is a local block coordinate, each in `0..16`.
pub open spec fn in_chunk(x: int, y: int, z: int) -> bool {
    0 <= x < 16 && 0 <= y < 16 && 0 <= z < 16
}

/// For local coordinates the bit layout is the row-major index.
pub proof fn lemma_raw_index(x: usize, y: usize, z: usize)
    requires
        x < 16,
        y < 16,
        z < 16,
    ensures
        spec_raw_index(x, y, z) == spec_index(x as int, y as int, z as int),
        spec_index(x as int, y as int, z as int) < 4096,
{
    assert((z | (y << 4usize) | (x << 8usize)) == x * 256 + y * 16 + z) by (bit_vector)
        requires
            x < 16,
            y < 16,
            z < 16,
    ;
}

/// Distinct local coordinates have distinct indices.
pub proof fn lemma_index_injective(a: int, b: int, c: int, x: int, y: int, z: int)
    requires
        in_chunk(a, b, c),
        in_chunk(x, y, z),
        spec_index(a, b, c) == spec_index(x, y, z),
    ensures
        a == x && b == y && c == z,
{
}

/// A cubic piece of the world of 16x16x16 blocks.
///
/// `blocks` is empty in an uninitialized chunk, holds one block in a solid chunk
/// (every block of the chunk is that block), and holds 4096 blocks in a normal chunk.
#[derive(Debug, PartialEq)]
pub struct Chunk {
    pub pos: ChunkPos,
    pub blocks: Vec<Block>,
}

impl View for Chunk {
    type V = (ChunkPos, Seq<Block>);

    open spec fn view(&self) -> (ChunkPos, Seq<Block>) {
        (self.pos, self.blocks@)
    }
}

impl Clone for Chunk {
    fn clone(&self) -> (r: Self)
        ensures
            r@ == self@,
    {
        let blocks = self.blocks.clone();
        proof {
            assert(blocks@ =~= self.blocks@);
        }
        Chunk { pos: self.pos, blocks }
    }
}

impl Chunk {
    /// The block count is that of an uninitialized, a solid or a normal chunk.
    pub open spec fn wf(&self) -> bool {
        self.blocks.len() == 0 || self.blocks.len() == 1 || self.blocks.len() == CHUNK_VOLUME
    }

    /// The block at local (x, y, z): the single block of a solid chunk,
    /// or the block at its index in a normal chunk.
    pub open spec fn spec_block(&self, x: int, y: int, z: int) -> Block {
        if self.blocks.len() == 1 {
            self.blocks[0]
        } else {
            self.blocks[spec_index(x, y, z)]
        }
    }

    /// Create an uninitialized chunk
    pub fn new_uninitialized(pos: ChunkPos) -> (r: Chunk)
        ensures
            r.pos == pos,
            r.blocks@ == Seq::<Block>::empty(),
    {
        Chunk { pos, blocks: Vec::new() }
    }

    /// Create a solid chunk (i.e. has 1 block type)
    pub fn new_solid(pos: ChunkPos, block: Block) -> (r: Chunk)
        ensures
            r.pos == pos,
            r.blocks@ == seq![block],
    {
        let mut blocks = Vec::with_capacity(1);
        blocks.push(block);
        Chunk { pos, blocks }
    }

    /// Create a normal chunk
    pub fn new_normal(pos: ChunkPos, block: Block) -> (r: Chunk)
        ensures
            r.pos == pos,
            r.blocks@ == Seq::new(CHUNK_VOLUME as nat, |i: int| block),
    {
        let blocks = vec![block; CHUNK_VOLUME];
        proof {
            assert(blocks@ =~= Seq::new(CHUNK_VOLUME as nat, |i: int| block));
        }
        Chunk { pos, blocks }
    }

    pub fn is_initialized(&self) -> (r: bool)
        ensures
            r == (self.blocks.len() > 0),
    {
        self.blocks.len() > 0
    }

    pub fn is_normal(&self) -> (r: bool)
        ensures
            r == (self.blocks.len() > 1),
    {
        self.blocks.len() > 1
    }

    pub fn is_solid(&self) -> (r: bool)
        ensures
            r == (self.blocks.len() == 1),
    {
        self.blocks.len() == 1
    }

    /// The block at local (x_rel, y_rel, z_rel); in a solid chunk the coordinates do not matter.
    pub fn get_block(&self, x_rel: usize, y_rel: usize, z_rel: usize) -> (r: Block)
        requires
            self.blocks.len() > 0,
            self.blocks.len() != 1 ==> {
                &&& x_rel < 16
                &&& y_rel < 16
                &&& z_rel < 16
                &&& spec_index(x_rel as int, y_rel as int, z_rel as int) < self.blocks.len()
            },
        ensures
            r == self.spec_block(x_rel as int, y_rel as int, z_rel as int),
    {
        if self.is_solid() {
            self.blocks[0]
        } else {
            proof {
                lemma_raw_index(x_rel, y_rel, z_rel);
            }
            let index = z_rel | y_rel << 4usize | x_rel << 8usize;
            self.blocks[index]
        }
    }

    /// The offsets of world block (wbx, wby, wbz) from the corner of this chunk fit an `i16`.
    pub open spec fn world_offsets_fit(&self, wbx: i16, wby: i16, wbz: i16) -> bool {
        &&& -2048 <= self.pos.x < 2048
        &&& -2048 <= self.pos.y < 2048
        &&& -2048 <= self.pos.z < 2048
        &&& i16::MIN <= wbx - self.pos.x * 16 <= i16::MAX
        &&& i16::MIN <= wby - self.pos.y * 16 <= i16::MAX
        &&& i16::MIN <= wbz - self.pos.z * 16 <= i16::MAX
    }

    /// Whether world block (wbx, wby, wbz) lies inside this chunk.
    pub open spec fn contains_world(&self, wbx: i16, wby: i16, wbz: i16) -> bool {
        in_chunk(wbx - self.pos.x * 16, wby - self.pos.y * 16, wbz - self.pos.z * 16)
    }

    /// The block at world (wbx, wby, wbz), read through the local offsets from this chunk.
    pub open spec fn spec_block_world(&self, wbx: i16, wby: i16, wbz: i16) -> Block {
        self.spec_block(wbx - self.pos.x * 16, wby - self.pos.y * 16, wbz - self.pos.z * 16)
    }

    pub fn get_block_world(&self, wbx: i16, wby: i16, wbz: i16) -> (r: Block)
        requires
            self.wf(),
            self.blocks.len() > 0,
            self.world_offsets_fit(wbx, wby, wbz),
            self.blocks.len() != 1 ==> self.contains_world(wbx, wby, wbz),
        ensures
            r == self.spec_block_world(wbx, wby, wbz),
    {
        let lbx = (wbx - self.pos.x * 16i16) as usize;
        let lby = (wby - self.pos.y * 16i16) as usize;
        let lbz = (wbz - self.pos.z * 16i16) as usize;
        self.get_block(lbx, lby, lbz)
    }

    /// Turn a solid chunk into a normal one that holds its block everywhere.
    pub fn make_normal(&mut self)
        requires
            old(self).blocks.len() > 0,
        ensures
            final(self).pos == old(self).pos,
            final(self).blocks@ == Seq::new(CHUNK_VOLUME as nat, |i: int| old(self).blocks[0]),
    {
        let solid_block = self.blocks[0];
        self.blocks = vec![solid_block; CHUNK_VOLUME];
        proof {
            assert(self.blocks@ =~= Seq::new(CHUNK_VOLUME as nat, |i: int| solid_block));
        }
    }

    /// Set the block at local (x_rel, y_rel, z_rel); a solid chunk becomes normal
    /// when the block differs from its single block.
    pub fn set_block(&mut self, x_rel: usize, y_rel: usize, z_rel: usize, block: Block)
        requires
            (old(self).blocks.len() == 1 && block == old(self).blocks[0]) || spec_raw_index(
                x_rel,
                y_rel,
                z_rel,
            ) < (if old(self).blocks.len() == 1 {
                CHUNK_VOLUME as nat
            } else {
                old(self).blocks.len() as nat
            }),
        ensures
            final(self).pos == old(self).pos,
            old(self).blocks.len() == 1 && block == old(self).blocks[0] ==> final(self).blocks@
                == old(self).blocks@,
            old(self).blocks.len() == 1 && block != old(self).blocks[0] ==> final(self).blocks@
                == Seq::new(CHUNK_VOLUME as nat, |i: int| old(self).blocks[0]).update(
                spec_raw_index(x_rel, y_rel, z_rel) as int,
                block,
            ),
            old(self).blocks.len() != 1 ==> final(self).blocks@ == old(self).blocks@.update(
                spec_raw_index(x_rel, y_rel, z_rel) as int,
                block,
            ),
            old(self).wf() && old(self).blocks.len() > 0 && in_chunk(
                x_rel as int,
                y_rel as int,
                z_rel as int,
            ) ==> {
                &&& final(self).wf()
                &&& final(self).blocks.len() > 0
                &&& forall|a: int, b: int, c: int|
                    #![trigger final(self).spec_block(a, b, c)]
                    in_chunk(a, b, c) ==> final(self).spec_block(a, b, c) == if a == x_rel && b
                        == y_rel && c == z_rel {
                        block
                    } else {
                        old(self).spec_block(a, b, c)
                    }
            },
    {
        if self.is_solid() {
            if block != self.blocks[0] {
                // Need to support different blocks in this chunk
                self.make_normal();
                let index = z_rel | y_rel << 4usize | x_rel << 8usize;
                self.blocks.set(index, block);
            }
        } else {
            let index = z_rel | y_rel << 4usize | x_rel << 8usize;
            self.blocks.set(index, block);
        }
        proof {
            if old(self).wf() && old(self).blocks.len() > 0 && in_chunk(
                x_rel as int,
                y_rel as int,
                z_rel as int,
            ) {
                lemma_raw_index(x_rel, y_rel, z_rel);
                assert forall|a: int, b: int, c: int|
                    #![trigger self.spec_block(a, b, c)]
                    in_chunk(a, b, c) implies self.spec_block(a, b, c) == if a == x_rel && b
                        == y_rel && c == z_rel {
                        block
                    } else {
                        old(self).spec_block(a, b, c)
                    } by {
                    if !(a == x_rel && b == y_rel && c == z_rel) {
                        if spec_index(a, b, c) == spec_index(
                            x_rel as int,
                            y_rel as int,
                            z_rel as int,
                        ) {
                            lemma_index_injective(a, b, c, x_rel as int, y_rel as int, z_rel as int);
                        }
                    }
                }
            }
        }
    }

    /// Set the block at world (wbx, wby, wbz), through its offsets from this chunk.
    pub fn set_block_world(&mut self, wbx: i16, wby: i16, wbz: i16, block: Block)
        requires
            old(self).wf(),
            old(self).blocks.len() > 0,
            old(self).world_offsets_fit(wbx, wby, wbz),
            old(self).contains_world(wbx, wby, wbz) || (old(self).blocks.len() == 1 && block
                == old(self).blocks[0]),
        ensures
            final(self).pos == old(self).pos,
            final(self).wf(),
            final(self).blocks.len() > 0,
            old(self).blocks.len() == 1 && block == old(self).blocks[0] ==> final(self).blocks@
                == old(self).blocks@,
            old(self).contains_world(wbx, wby, wbz) ==> forall|a: int, b: int, c: int|
                #![trigger final(self).spec_block(a, b, c)]
                in_chunk(a, b, c) ==> final(self).spec_block(a, b, c) == if a == wbx
                    - old(self).pos.x * 16 && b == wby - old(self).pos.y * 16 && c == wbz
                    - old(self).pos.z * 16 {
                    block
                } else {
                    old(self).spec_block(a, b, c)
                },
    {
        let lbx = (wbx - self.pos.x * 16i16) as usize;
        let lby = (wby - self.pos.y * 16i16) as usize;
        let lbz = (wbz - self.pos.z * 16i16) as usize;
        proof {
            if old(self).contains_world(wbx, wby, wbz) {
                lemma_raw_index(lbx, lby, lbz);
            }
        }
        self.set_block(lbx, lby, lbz, block);
    }

    /// Set the block at local (x_rel, y_rel, z_rel) of a normal chunk without conversion.
    pub fn set_block_unchecked(&mut self, x_rel: usize, y_rel: usize, z_rel: usize, block: Block)
        requires
            spec_raw_index(x_rel, y_rel, z_rel) < old(self).blocks.len(),
        ensures
            final(self).pos == old(self).pos,
            final(self).blocks@ == old(self).blocks@.update(
                spec_raw_index(x_rel, y_rel, z_rel) as int,
                block,
            ),
    {
        let index = z_rel | y_rel << 4usize | x_rel << 8usize;
        self.blocks.set(index, block);
    }

    /// Make the chunk uninitialized.
    pub fn clear(&mut self)
        ensures
            final(self).pos == old(self).pos,
            final(self).blocks@ == Seq::<Block>::empty(),
    {
        self.blocks.clear();
    }
}

} // verus!
