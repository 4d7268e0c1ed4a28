use super::chunk::Chunk;
use super::chunkpos::{dist_fits_i16, lemma_square_nonneg, spec_dist_squared, ChunkPos};
use super::{lemma_shr4, spec_chunk_coord};
use vstd::prelude::*;

verus! {

/// The position of a column of chunks, in chunks.
#[derive(PartialEq, Eq, Structural, Hash, Debug, Copy, Clone)]
pub struct ChunkColumnPos {
    pub x: i16,
    pub y: i16,
}

impl ChunkColumnPos {
    pub fn new(x: i16, y: i16) -> (r: ChunkColumnPos)
        ensures
            r == (ChunkColumnPos { x, y }),
    {
        ChunkColumnPos { x, y }
    }

    /// The column that holds a chunk.
    pub fn from_chunk_pos(cp: ChunkPos) -> (r: ChunkColumnPos)
        ensures
            r == (ChunkColumnPos { x: cp.x, y: cp.y }),
    {
        ChunkColumnPos { x: cp.x, y: cp.y }
    }

    pub fn dist_squared_from(&self, other: &ChunkColumnPos) -> (r: i16)
        requires
            dist_fits_i16(self.x as int, self.y as int, 0, other.x as int, other.y as int, 0),
        ensures
            r == spec_dist_squared(
                self.x as int,
                self.y as int,
                0,
                other.x as int,
                other.y as int,
                0,
            ),
    {
        let dx = other.x - self.x;
        let dy = other.y - self.y;
        proof {
            lemma_square_nonneg(dx as int);
            lemma_square_nonneg(dy as int);
        }
        dx * dx + dy * dy
    }

    /// The column that holds world block column (wbx, wby).
    pub fn from_world_block_coords(wbx: i16, wby: i16) -> (r: ChunkColumnPos)
        ensures
            r.x == spec_chunk_coord(wbx as int),
            r.y == spec_chunk_coord(wby as int),
    {
        proof {
            lemma_shr4(wbx);
            lemma_shr4(wby);
        }
        ChunkColumnPos { x: wbx >> 4, y: wby >> 4 }
    }

    pub fn xp(&self) -> (r: ChunkColumnPos)
        requires
            self.x < i16::MAX,
        ensures
            r == (ChunkColumnPos { x: (self.x + 1) as i16, y: self.y }),
    {
        ChunkColumnPos { x: self.x + 1, y: self.y }
    }

    pub fn xm(&self) -> (r: ChunkColumnPos)
        requires
            self.x > i16::MIN,
        ensures
            r == (ChunkColumnPos { x: (self.x - 1) as i16, y: self.y }),
    {
        ChunkColumnPos { x: self.x - 1, y: self.y }
    }

    pub fn yp(&self) -> (r: ChunkColumnPos)
        requires
            self.y < i16::MAX,
        ensures
            r == (ChunkColumnPos { x: self.x, y: (self.y + 1) as i16 }),
    {
        ChunkColumnPos { x: self.x, y: self.y + 1 }
    }

    pub fn ym(&self) -> (r: ChunkColumnPos)
        requires
            self.y > i16::MIN,
        ensures
            r == (ChunkColumnPos { x: self.x, y: (self.y - 1) as i16 }),
    {
        ChunkColumnPos { x: self.x, y: self.y - 1 }
    }
}

/// The stages a column of chunks goes through.
#[derive(PartialEq, Eq, Structural, Debug, Copy, Clone)]
pub enum ColumnStatus {
    /// Uninitialized new column
    New,
    /// Requested for generation
    Requested,
    /// Received the blocks
    Received,
    /// Stored the blocks
    Stored,
    /// Propagated the light
    Propagated,
    /// Meshed the column
    Meshed,
}

/// A column of chunks at one column position, with its stage.
#[derive(Debug)]
pub struct ChunkColumn {
    pub col: ChunkColumnPos,
    pub status: ColumnStatus,
    pub chunks: Vec<Chunk>,
}

impl View for ChunkColumn {
    type V = (ChunkColumnPos, ColumnStatus, Seq<(ChunkPos, Seq<crate::block::Block>)>);

    open spec fn view(&self) -> (ChunkColumnPos, ColumnStatus, Seq<(ChunkPos, Seq<crate::block::Block>)>) {
        (self.col, self.status, self.chunks@.map_values(|c: Chunk| c@))
    }
}

impl Clone for ChunkColumn {
    fn clone(&self) -> (r: Self)
        ensures
            r@ == self@,
    {
        let mut chunks: Vec<Chunk> = Vec::new();
        let mut i: usize = 0;
        while i < self.chunks.len()
            invariant
                i <= self.chunks.len(),
                chunks.len() == i,
                forall|j: int| 0 <= j < i ==> (#[trigger] chunks@[j])@ == self.chunks@[j]@,
            decreases self.chunks.len() - i,
        {
            chunks.push(self.chunks[i].clone());
            i = i + 1;
        }
        proof {
            assert(chunks@.map_values(|c: Chunk| c@) =~= self.chunks@.map_values(|c: Chunk| c@));
        }
        ChunkColumn { col: self.col, status: self.status, chunks }
    }
}

/// Whether a status means the column's blocks are stored.
pub open spec fn status_stored(s: ColumnStatus) -> bool {
    s == ColumnStatus::Stored || s == ColumnStatus::Propagated || s == ColumnStatus::Meshed
}

/// Whether a status means the column's light is propagated.
pub open spec fn status_propagated(s: ColumnStatus) -> bool {
    s == ColumnStatus::Propagated || s == ColumnStatus::Meshed
}

impl ChunkColumn {
    /// The stage of the column.
    pub open spec fn spec_status(&self) -> ColumnStatus {
        self.status
    }

    pub fn new(col: ChunkColumnPos, status: ColumnStatus, chunks: Vec<Chunk>) -> (r: ChunkColumn)
        ensures
            r.col == col,
            r.spec_status() == status,
            r.chunks == chunks,
    {
        ChunkColumn { col, status, chunks }
    }

    pub fn status(&self) -> (r: ColumnStatus)
        ensures
            r == self.spec_status(),
    {
        self.status
    }

    pub fn is_stored(&self) -> (r: bool)
        ensures
            r == status_stored(self.spec_status()),
    {
        self.status == ColumnStatus::Stored || self.status() == ColumnStatus::Propagated
            || self.status() == ColumnStatus::Meshed
    }

    pub fn is_propagated(&self) -> (r: bool)
        ensures
            r == status_propagated(self.spec_status()),
    {
        self.status() == ColumnStatus::Propagated || self.status() == ColumnStatus::Meshed
    }

    pub fn set_status(&mut self, status: ColumnStatus)
        ensures
            final(self).spec_status() == status,
            final(self).col == old(self).col,
            final(self).chunks == old(self).chunks,
    {
        self.status = status;
    }
}

} // verus!
