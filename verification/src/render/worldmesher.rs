//! Meshing whole columns of chunks.

use super::block_mesher::{chunk_faces, mesh_checks, meshable, BlockFace, BlockMesher};
use crate::block::blockregistry::BlockRegistry;
use crate::chunk::chunk_buffer::ChunkBuffer;
use crate::chunk::{ChunkColumnPos, ChunkPos};
use vstd::prelude::*;

verus! {

/// Chunk `z` of column `col`.
pub open spec fn column_chunk(col: ChunkColumnPos, z: int) -> ChunkPos {
    ChunkPos { x: col.x, y: col.y, z: z as i16 }
}

/// Meshes the chunks of columns with one block mesher.
pub struct WorldMesher {
    block_mesher: BlockMesher,
}

impl WorldMesher {
    /// The texture numbers of each kind of block that the mesher uses.
    pub closed spec fn textures(&self) -> Seq<Option<Seq<usize>>> {
        self.block_mesher.textures()
    }

    pub fn new(block_registry: &BlockRegistry) -> (r: WorldMesher)
        ensures
            r.textures() == super::block_mesher::texture_table(
                block_registry.spec_texture_indices(),
            ),
    {
        WorldMesher { block_mesher: BlockMesher::new(block_registry) }
    }

    /// The visible faces of each of the 64 chunks of column `col`, from the bottom up.
    pub fn mesh_column(&self, col: &ChunkColumnPos, buffer: &ChunkBuffer) -> (r: Vec<
        (Vec<BlockFace>, Vec<BlockFace>),
    >)
        requires
            forall|z: int|
                0 <= z < 64 ==> meshable(
                    *buffer,
                    #[trigger] column_chunk(*col, z),
                    self.textures(),
                ),
        ensures
            r.len() == 64,
            forall|z: int|
                0 <= z < 64 ==> {
                    let cp = column_chunk(*col, z);
                    &&& (#[trigger] r@[z]).0@ == chunk_faces(*buffer, cp, self.textures(), 1)
                    &&& r@[z].1@ == chunk_faces(*buffer, cp, self.textures(), 2)
                },
    {
        let mut col_vertices: Vec<(Vec<BlockFace>, Vec<BlockFace>)> = Vec::new();
        let mut z: usize = 0;
        while z < 64
            invariant
                z <= 64,
                col_vertices.len() == z,
                forall|j: int|
                    0 <= j < 64 ==> meshable(
                        *buffer,
                        #[trigger] column_chunk(*col, j),
                        self.textures(),
                    ),
                forall|j: int|
                    0 <= j < z ==> {
                        let cp = column_chunk(*col, j);
                        &&& (#[trigger] col_vertices@[j]).0@ == chunk_faces(*buffer, cp, self.textures(), 1)
                        &&& col_vertices@[j].1@ == chunk_faces(*buffer, cp, self.textures(), 2)
                    },
            decreases 64 - z,
        {
            let cp = ChunkPos::new(col.x, col.y, z as i16);
            assert(meshable(*buffer, column_chunk(*col, z as int), self.textures()));
            col_vertices.push(self.mesh_chunk(cp, buffer));
            z += 1;
        }
        col_vertices
    }

    /// The visible faces of chunk `cp`: the opaque ones, then the translucent ones.
    pub fn mesh_chunk(&self, cp: ChunkPos, buffer: &ChunkBuffer) -> (r: (Vec<BlockFace>, Vec<BlockFace>))
        requires
            meshable(*buffer, cp, self.textures()),
        ensures
            r.0@ == chunk_faces(*buffer, cp, self.textures(), 1),
            r.1@ == chunk_faces(*buffer, cp, self.textures(), 2),
    {
        self.block_mesher.mesh_chunk(cp, buffer)
    }
    /// Whether each of the 64 chunks of column `col` can be meshed, as
    /// `BlockMesher::can_mesh` checks it.
    pub fn can_mesh_column(&self, col: &ChunkColumnPos, buffer: &ChunkBuffer) -> (r: bool)
        requires
            buffer.wf(),
        ensures
            r == forall|z: int| 0 <= z < 64 ==> mesh_checks(*buffer, #[trigger] column_chunk(*col, z), self.textures()),
            r ==> forall|z: int| 0 <= z < 64 ==> meshable(*buffer, #[trigger] column_chunk(*col, z), self.textures()),
    {
        let mut z: usize = 0;
        while z < 64
            invariant
                z <= 64,
                buffer.wf(),
                forall|j: int| 0 <= j < z ==> meshable(*buffer, #[trigger] column_chunk(*col, j), self.textures()),
                forall|j: int| 0 <= j < z ==> mesh_checks(*buffer, #[trigger] column_chunk(*col, j), self.textures()),
            decreases 64 - z,
        {
            let cp = ChunkPos::new(col.x, col.y, z as i16);
            assert(cp == column_chunk(*col, z as int));
            if !self.block_mesher.can_mesh(cp, buffer) {
                return false;
            }
            z += 1;
        }
        true
    }
}

} // verus!
