use super::chunk::{in_chunk, Chunk};
use super::chunkcolumn::{status_propagated, status_stored, ChunkColumn, ChunkColumnPos, ColumnStatus};
use super::chunkpos::{spec_chunk_of, ChunkPos};
use super::{CHUNK_SIZE, WORLD_HEIGHT_BLOCKS, WORLD_HEIGHT_CHUNKS};
use crate::block::{lemma_air, spec_kind, Block, BlockTrait, AIR_BLOCK, AIR_BLOCK_KIND};
use std::collections::hash_map::Entry;
use std::collections::HashMap;
use vstd::prelude::*;
use vstd::std_specs::hash::group_hash_axioms;

verus! {

broadcast use group_hash_axioms;

/// The map key of column (x, y): both coordinates shifted to be non-negative, side by side.
pub open spec fn spec_column_key(x: i16, y: i16) -> u32 {
    ((x as int + 32768) * 65536 + (y as int + 32768)) as u32
}

/// Different columns have different keys.
pub proof fn lemma_column_key_injective(a: i16, b: i16, c: i16, d: i16)
    ensures
        spec_column_key(a, b) == spec_column_key(c, d) ==> a == c && b == d,
{
}

/// The map key of a column position.
pub fn column_key(x: i16, y: i16) -> (r: u32)
    ensures
        r == spec_column_key(x, y),
{
    let hx: u32 = (x as i32 + 32768i32) as u32;
    let hy: u32 = (y as i32 + 32768i32) as u32;
    hx * 65536 + hy
}

/// The loaded columns of chunks, each under the key of its column position.
pub struct ChunkBuffer {
    pub columns: HashMap<u32, ChunkColumn>,
}

/// A chunk's block count is that of an uninitialized, solid or normal chunk,
/// and it sits at height `z` of column `col`.
pub open spec fn chunk_wf_at(c: Chunk, col: ChunkColumnPos, z: int) -> bool {
    &&& c.wf()
    &&& c.pos == ChunkPos { x: col.x, y: col.y, z: z as i16 }
}

/// A column's chunks are well formed and each sits at its own height in the column.
pub open spec fn column_wf(column: ChunkColumn) -> bool {
    &&& column.chunks.len() <= 64
    &&& forall|i: int|
        0 <= i < column.chunks.len() ==> chunk_wf_at(#[trigger] column.chunks[i], column.col, i)
}

impl ChunkBuffer {
    /// Every column is stored under its own key and is well formed.
    pub open spec fn wf(&self) -> bool {
        forall|k: u32|
            #[trigger] self.columns@.contains_key(k) ==> {
                let column = self.columns@[k];
                &&& k == spec_column_key(column.col.x, column.col.y)
                &&& column_wf(column)
            }
    }

    /// The column at (x, y), if it is loaded.
    pub open spec fn column_at(&self, x: i16, y: i16) -> Option<ChunkColumn> {
        if self.columns@.contains_key(spec_column_key(x, y)) {
            Some(self.columns@[spec_column_key(x, y)])
        } else {
            None
        }
    }

    /// The chunk at (cx, cy, cz), if its column is loaded and holds it.
    pub open spec fn chunk_at(&self, cx: i16, cy: i16, cz: i16) -> Option<Chunk> {
        match self.column_at(cx, cy) {
            Some(column) => if 0 <= cz < column.chunks.len() {
                Some(column.chunks[cz as int])
            } else {
                None
            },
            None => None,
        }
    }

    /// The block at world (x, y, z): read from its chunk when that chunk is loaded and
    /// initialized, air otherwise.
    pub open spec fn block_at(&self, x: i16, y: i16, z: i16) -> Block {
        let cp = spec_chunk_of(x, y, z);
        match self.chunk_at(cp.x, cp.y, cp.z) {
            Some(c) => if c.blocks.len() > 0 {
                c.spec_block(x as int % 16, y as int % 16, z as int % 16)
            } else {
                AIR_BLOCK
            },
            None => AIR_BLOCK,
        }
    }

    /// Whether the chunk holding world block (x, y, z) is loaded and initialized.
    pub open spec fn block_loaded(&self, x: i16, y: i16, z: i16) -> bool {
        let cp = spec_chunk_of(x, y, z);
        match self.chunk_at(cp.x, cp.y, cp.z) {
            Some(c) => c.blocks.len() > 0,
            None => false,
        }
    }

    pub fn new() -> (r: ChunkBuffer)
        ensures
            r.columns@ == Map::<u32, ChunkColumn>::empty(),
            r.wf(),
    {
        ChunkBuffer { columns: HashMap::new() }
    }

    pub fn get_column(&self, wcx: i16, wcy: i16) -> (r: Option<&ChunkColumn>)
        ensures
            match r {
                Some(c) => self.column_at(wcx, wcy) == Some(*c),
                None => self.column_at(wcx, wcy) is None,
            },
    {
        let key = column_key(wcx, wcy);
        self.columns.get(&key)
    }

    pub fn get_column_pos(&self, col: &ChunkColumnPos) -> (r: Option<&ChunkColumn>)
        ensures
            match r {
                Some(c) => self.column_at(col.x, col.y) == Some(*c),
                None => self.column_at(col.x, col.y) is None,
            },
    {
        self.get_column(col.x, col.y)
    }

    pub fn is_column_loaded(&self, col: &ChunkColumnPos) -> (r: bool)
        ensures
            r == self.column_at(col.x, col.y) is Some,
    {
        let key = column_key(col.x, col.y);
        self.columns.contains_key(&key)
    }

    pub fn is_column_requested(&self, col: &ChunkColumnPos) -> (r: bool)
        ensures
            r == (match self.column_at(col.x, col.y) {
                Some(c) => c.spec_status() != ColumnStatus::New,
                None => false,
            }),
    {
        if let Some(column) = self.get_column_pos(col) {
            column.status() != ColumnStatus::New
        } else {
            false
        }
    }

    /// Whether the column at `col` is loaded with its blocks stored (or further along).
    pub fn is_column_stored(&self, col: &ChunkColumnPos) -> (r: bool)
        ensures
            r == (match self.column_at(col.x, col.y) {
                Some(c) => status_stored(c.spec_status()),
                None => false,
            }),
    {
        match self.get_column_pos(col) {
            Some(column) => column.is_stored(),
            None => false,
        }
    }

    pub fn get_column_clone(&self, wcx: i16, wcy: i16) -> (r: Option<ChunkColumn>)
        ensures
            match r {
                Some(c) => self.column_at(wcx, wcy) is Some && c@ == self.column_at(
                    wcx,
                    wcy,
                )->0@,
                None => self.column_at(wcx, wcy) is None,
            },
    {
        if let Some(column) = self.get_column(wcx, wcy) {
            Some(column.clone())
        } else {
            None
        }
    }

    /// Set the status of the column at `col`, if it is loaded.
    pub fn set_column_status(&mut self, col: ChunkColumnPos, status: ColumnStatus)
        requires
            old(self).wf(),
        ensures
            final(self).wf(),
            final(self).columns@.dom() == old(self).columns@.dom(),
            forall|k: u32|
                #![trigger final(self).columns@[k]]
                old(self).columns@.contains_key(k) ==> {
                    &&& final(self).columns@[k].col == old(self).columns@[k].col
                    &&& final(self).columns@[k].chunks == old(self).columns@[k].chunks
                    &&& final(self).columns@[k].spec_status() == if k == spec_column_key(col.x, col.y) {
                        status
                    } else {
                        old(self).columns@[k].spec_status()
                    }
                },
    {
        let ghost old_self = *self;
        if let Some(column) = self.get_mut_column(col.x, col.y) {
            column.set_status(status);
        }
        proof {
            assert(self.columns@.dom() =~= old_self.columns@.dom());
            assert forall|k: u32| #[trigger] self.columns@.contains_key(k) implies {
                let column = self.columns@[k];
                &&& k == spec_column_key(column.col.x, column.col.y)
                &&& column_wf(column)
            } by {
                assert(old_self.columns@.contains_key(k));
            }
        }
    }

    /// Store a column under its position, replacing any column stored there.
    pub fn store_column(&mut self, column: ChunkColumn)
        ensures
            final(self).columns@ == old(self).columns@.insert(
                spec_column_key(column.col.x, column.col.y),
                column,
            ),
            old(self).wf() && column_wf(column) ==> final(self).wf(),
    {
        let key = column_key(column.col.x, column.col.y);
        self.columns.insert(key, column);
    }

    pub fn get_chunk(&self, wcx: i16, wcy: i16, wcz: i16) -> (r: Option<&Chunk>)
        ensures
            match r {
                Some(c) => self.chunk_at(wcx, wcy, wcz) == Some(*c),
                None => self.chunk_at(wcx, wcy, wcz) is None,
            },
    {
        if let Some(column) = self.get_column(wcx, wcy) {
            if wcz >= 0 && (wcz as usize) < column.chunks.len() {
                Some(&column.chunks[wcz as usize])
            } else {
                None
            }
        } else {
            None
        }
    }

    pub fn get_chunk_pos(&self, chunk_pos: ChunkPos) -> (r: Option<&Chunk>)
        ensures
            match r {
                Some(c) => self.chunk_at(chunk_pos.x, chunk_pos.y, chunk_pos.z) == Some(*c),
                None => self.chunk_at(chunk_pos.x, chunk_pos.y, chunk_pos.z) is None,
            },
    {
        self.get_chunk(chunk_pos.x, chunk_pos.y, chunk_pos.z)
    }

    /// Get a block in a chunk directly; air where no initialized chunk is loaded.
    pub fn get_block(&self, wbx: i16, wby: i16, wbz: i16) -> (r: Block)
        requires
            self.wf(),
        ensures
            r == self.block_at(wbx, wby, wbz),
    {
        let cp = ChunkPos::from_world_block_coords(wbx, wby, wbz);
        if let Some(chunk) = self.get_chunk_pos(cp) {
            proof {
                self.lemma_chunk_at_wf(cp.x, cp.y, cp.z);
            }
            if chunk.is_initialized() {
                return chunk.get_block_world(wbx, wby, wbz);
            } else {
                return AIR_BLOCK;
            }
        }
        AIR_BLOCK
    }

    /// A loaded chunk is well formed and sits at its own position.
    pub proof fn lemma_chunk_at_wf(&self, cx: i16, cy: i16, cz: i16)
        requires
            self.wf(),
            self.chunk_at(cx, cy, cz) is Some,
        ensures
            self.chunk_at(cx, cy, cz)->0.wf(),
            self.chunk_at(cx, cy, cz)->0.pos == (ChunkPos { x: cx, y: cy, z: cz }),
    {
        let k = spec_column_key(cx, cy);
        let column = self.columns@[k];
        lemma_column_key_injective(cx, cy, column.col.x, column.col.y);
        assert(chunk_wf_at(column.chunks[cz as int], column.col, cz as int));
    }

    pub fn get_mut_column(&mut self, wcx: i16, wcy: i16) -> (r: Option<&mut ChunkColumn>)
        ensures
            match r {
                Some(c) => {
                    &&& old(self).column_at(wcx, wcy) == Some(*c)
                    &&& final(self).columns@ == old(self).columns@.insert(
                        spec_column_key(wcx, wcy),
                        *final(c),
                    )
                },
                None => {
                    &&& old(self).column_at(wcx, wcy) is None
                    &&& final(self).columns@ == old(self).columns@
                },
            },
    {
        let key = column_key(wcx, wcy);
        match self.columns.entry(key) {
            Entry::Occupied(o) => Some(o.into_mut()),
            Entry::Vacant(_) => None,
        }
    }

    /// `self` is `old` with the chunk at (cx, cy, cz) replaced by `c` and nothing else changed.
    pub open spec fn replaces_chunk(self, old: ChunkBuffer, cx: i16, cy: i16, cz: i16, c: Chunk) -> bool {
        let k = spec_column_key(cx, cy);
        &&& self.columns@.dom() =~= old.columns@.dom()
        &&& forall|j: u32| #[trigger] old.columns@.contains_key(j) && j != k ==> self.columns@[j] == old.columns@[j]
        &&& old.columns@.contains_key(k)
        &&& self.columns@[k].col == old.columns@[k].col
        &&& self.columns@[k].status == old.columns@[k].status
        &&& 0 <= cz < old.columns@[k].chunks.len()
        &&& self.columns@[k].chunks@ =~= old.columns@[k].chunks@.update(cz as int, c)
    }

    pub fn get_mut_chunk(&mut self, wcx: i16, wcy: i16, wcz: i16) -> (r: Option<&mut Chunk>)
        ensures
            match r {
                Some(c) => {
                    &&& old(self).chunk_at(wcx, wcy, wcz) == Some(*c)
                    &&& final(self).replaces_chunk(*old(self), wcx, wcy, wcz, *final(c))
                },
                None => {
                    &&& old(self).chunk_at(wcx, wcy, wcz) is None
                    &&& final(self).columns@ == old(self).columns@
                },
            },
    {
        if let Some(column) = self.get_mut_column(wcx, wcy) {
            if wcz >= 0 && (wcz as usize) < column.chunks.len() {
                Some(&mut column.chunks[wcz as usize])
            } else {
                None
            }
        } else {
            None
        }
    }

    pub fn get_mut_chunk_pos(&mut self, chunk_pos: ChunkPos) -> (r: Option<&mut Chunk>)
        ensures
            match r {
                Some(c) => {
                    &&& old(self).chunk_at(chunk_pos.x, chunk_pos.y, chunk_pos.z) == Some(*c)
                    &&& final(self).replaces_chunk(*old(self), chunk_pos.x, chunk_pos.y, chunk_pos.z, *final(c))
                },
                None => {
                    &&& old(self).chunk_at(chunk_pos.x, chunk_pos.y, chunk_pos.z) is None
                    &&& final(self).columns@ == old(self).columns@
                },
            },
    {
        self.get_mut_chunk(chunk_pos.x, chunk_pos.y, chunk_pos.z)
    }

    /// Both buffers hold the same columns, with the same statuses, and the same chunks
    /// at the same places, initialized alike; only the blocks may differ.
    pub open spec fn same_shape(self, other: ChunkBuffer) -> bool {
        &&& self.columns@.dom() =~= other.columns@.dom()
        &&& forall|k: u32|
            #[trigger] self.columns@.contains_key(k) ==> {
                let a = self.columns@[k];
                let b = other.columns@[k];
                &&& a.col == b.col
                &&& a.status == b.status
                &&& a.chunks.len() == b.chunks.len()
                &&& forall|i: int|
                    0 <= i < a.chunks.len() ==> (#[trigger] a.chunks[i]).pos == b.chunks[i].pos && (
                    a.chunks[i].blocks.len() > 0) == (b.chunks[i].blocks.len() > 0)
            }
    }

    /// Having the same shape is transitive.
    pub proof fn lemma_same_shape_trans(a: ChunkBuffer, b: ChunkBuffer, c: ChunkBuffer)
        requires
            b.same_shape(a),
            c.same_shape(b),
        ensures
            c.same_shape(a),
    {
        assert forall|k: u32| #[trigger] c.columns@.contains_key(k) implies {
            let x = c.columns@[k];
            let z = a.columns@[k];
            &&& x.col == z.col
            &&& x.status == z.status
            &&& x.chunks.len() == z.chunks.len()
            &&& forall|i: int|
                0 <= i < x.chunks.len() ==> (#[trigger] x.chunks[i]).pos == z.chunks[i].pos && (
                x.chunks[i].blocks.len() > 0) == (z.chunks[i].blocks.len() > 0)
        } by {
            assert(b.columns@.contains_key(k));
            let y = b.columns@[k];
            assert forall|i: int| 0 <= i < c.columns@[k].chunks.len() implies (#[trigger] c.columns@[k].chunks[i]).pos
                == a.columns@[k].chunks[i].pos && (c.columns@[k].chunks[i].blocks.len() > 0) == (
            a.columns@[k].chunks[i].blocks.len() > 0) by {
                assert(y.chunks[i].pos == a.columns@[k].chunks[i].pos);
            }
        }
    }

    /// Replacing one chunk by a well formed chunk at the same place, initialized alike,
    /// keeps the buffer well formed and its shape, and changes blocks in that chunk only.
    pub proof fn lemma_replace_chunk(new: ChunkBuffer, old: ChunkBuffer, cp: ChunkPos, c: Chunk)
        requires
            old.wf(),
            new.replaces_chunk(old, cp.x, cp.y, cp.z, c),
            c.wf(),
            c.pos == old.chunk_at(cp.x, cp.y, cp.z)->0.pos,
            (c.blocks.len() > 0) == (old.chunk_at(cp.x, cp.y, cp.z)->0.blocks.len() > 0),
        ensures
            new.wf(),
            new.same_shape(old),
            forall|x: i16, y: i16, z: i16|
                #![trigger new.block_loaded(x, y, z)]
                new.block_loaded(x, y, z) == old.block_loaded(x, y, z),
            forall|x: i16, y: i16, z: i16|
                #![trigger new.block_at(x, y, z)]
                spec_chunk_of(x, y, z) != cp ==> new.block_at(x, y, z) == old.block_at(x, y, z),
            forall|x: i16, y: i16, z: i16|
                #![trigger new.block_at(x, y, z)]
                spec_chunk_of(x, y, z) == cp && c.blocks.len() > 0 ==> new.block_at(x, y, z)
                    == c.spec_block(x as int % 16, y as int % 16, z as int % 16),
            forall|cx: i16, cy: i16, cz: i16|
                #![trigger new.chunk_at(cx, cy, cz)]
                (cx, cy, cz) != (cp.x, cp.y, cp.z) ==> new.chunk_at(cx, cy, cz) == old.chunk_at(cx, cy, cz),
            new.chunk_at(cp.x, cp.y, cp.z) == Some(c),
    {
        let k = spec_column_key(cp.x, cp.y);
        assert forall|j: u32| #[trigger] new.columns@.contains_key(j) implies {
            let column = new.columns@[j];
            &&& j == spec_column_key(column.col.x, column.col.y)
            &&& column_wf(column)
        } by {
            if j == k {
                let oc = old.columns@[k];
                let nc = new.columns@[k];
                lemma_column_key_injective(cp.x, cp.y, oc.col.x, oc.col.y);
                assert forall|i: int| 0 <= i < nc.chunks.len() implies chunk_wf_at(#[trigger] nc.chunks[i], nc.col, i) by {
                    assert(chunk_wf_at(oc.chunks[i], oc.col, i));
                }
            }
        }
        assert forall|cx: i16, cy: i16, cz: i16|
            (cx, cy, cz) != (cp.x, cp.y, cp.z) implies #[trigger] new.chunk_at(cx, cy, cz) == old.chunk_at(cx, cy, cz) by {
            lemma_column_key_injective(cx, cy, cp.x, cp.y);
        }
        assert forall|x: i16, y: i16, z: i16|
            #![trigger new.block_loaded(x, y, z)]
            new.block_loaded(x, y, z) == old.block_loaded(x, y, z) by {
            let q = spec_chunk_of(x, y, z);
            lemma_column_key_injective(q.x, q.y, cp.x, cp.y);
        }
        assert forall|x: i16, y: i16, z: i16|
            #![trigger new.block_at(x, y, z)]
            spec_chunk_of(x, y, z) != cp implies new.block_at(x, y, z) == old.block_at(x, y, z) by {
            let q = spec_chunk_of(x, y, z);
            lemma_column_key_injective(q.x, q.y, cp.x, cp.y);
        }
    }

    /// Set a block in a chunk directly; nothing changes where no chunk is loaded.
    pub fn set_block(&mut self, wbx: i16, wby: i16, wbz: i16, block: Block)
        requires
            old(self).wf(),
            ({
                let cp = spec_chunk_of(wbx, wby, wbz);
                old(self).chunk_at(cp.x, cp.y, cp.z) matches Some(c) ==> c.blocks.len() > 0
            }),
        ensures
            final(self).wf(),
            final(self).same_shape(*old(self)),
            forall|x: i16, y: i16, z: i16|
                #![trigger final(self).block_loaded(x, y, z)]
                final(self).block_loaded(x, y, z) == old(self).block_loaded(x, y, z),
            forall|x: i16, y: i16, z: i16|
                #![trigger final(self).block_at(x, y, z)]
                final(self).block_at(x, y, z) == if x == wbx && y == wby && z == wbz && old(
                    self,
                ).block_loaded(wbx, wby, wbz) {
                    block
                } else {
                    old(self).block_at(x, y, z)
                },
            ({
                let cp = spec_chunk_of(wbx, wby, wbz);
                old(self).chunk_at(cp.x, cp.y, cp.z) is None ==> final(self).columns@ == old(self).columns@
            }),
    {
        let cp = ChunkPos::from_world_block_coords(wbx, wby, wbz);
        let ghost old_self = *self;
        let ghost mut new_chunk: Option<Chunk> = None;
        proof {
            super::lemma_shr4(wbx);
            super::lemma_shr4(wby);
            super::lemma_shr4(wbz);
        }
        if let Some(chunk) = self.get_mut_chunk_pos(cp) {
            proof {
                old_self.lemma_chunk_at_wf(cp.x, cp.y, cp.z);
            }
            chunk.set_block_world(wbx, wby, wbz, block);
            proof {
                new_chunk = Some(*chunk);
            }
        }
        proof {
            if let Some(c) = new_chunk {
                let oc = old_self.chunk_at(cp.x, cp.y, cp.z)->0;
                Self::lemma_replace_chunk(*self, old_self, cp, c);
                assert forall|x: i16, y: i16, z: i16|
                    #![trigger self.block_at(x, y, z)]
                    self.block_at(x, y, z) == if x == wbx && y == wby && z == wbz && old_self.block_loaded(wbx, wby, wbz) {
                        block
                    } else {
                        old_self.block_at(x, y, z)
                    } by {
                    if spec_chunk_of(x, y, z) == cp {
                        super::lemma_shr4(x);
                        super::lemma_shr4(y);
                        super::lemma_shr4(z);
                        assert(in_chunk(x as int % 16, y as int % 16, z as int % 16));
                    }
                }
            } else {
                assert(self.columns@ == old_self.columns@);
            }
        }
    }

    /// The `k`-th of the nine columns around `col` (itself included), in the order
    /// x offset -1, 0, 1 and within each y offset -1, 0, 1.
    pub open spec fn neighbour_column(&self, col: ChunkColumnPos, k: int) -> Option<ChunkColumn> {
        self.column_at((col.x + k / 3 - 1) as i16, (col.y + k % 3 - 1) as i16)
    }

    /// Whether the `k`-th neighbour column is loaded and stored (or propagated).
    pub open spec fn neighbour_ready(&self, col: ChunkColumnPos, k: int, propagated: bool) -> bool {
        match self.neighbour_column(col, k) {
            Some(c) => if propagated {
                status_propagated(c.status)
            } else {
                status_stored(c.status)
            },
            None => false,
        }
    }

    /// The first neighbour column that is not ready comes before any ready one without chunks.
    pub open spec fn neighbours_checkable(&self, col: ChunkColumnPos, propagated: bool) -> bool {
        forall|k: int|
            0 <= k < 9 && (forall|j: int| 0 <= j < k ==> self.neighbour_ready(col, j, propagated))
                && #[trigger] self.neighbour_ready(col, k, propagated) ==> self.neighbour_column(
                col,
                k,
            )->0.chunks.len() > 0
    }

    fn all_neighbours_ready(&self, col: ChunkColumnPos, propagated: bool) -> (r: bool)
        requires
            i16::MIN < col.x < i16::MAX,
            i16::MIN < col.y < i16::MAX,
            self.neighbours_checkable(col, propagated),
        ensures
            r == forall|k: int| 0 <= k < 9 ==> self.neighbour_ready(col, k, propagated),
    {
        let mut dx: i16 = -1;
        while dx < 2
            invariant
                -1 <= dx <= 2,
                i16::MIN < col.x < i16::MAX,
                i16::MIN < col.y < i16::MAX,
                self.neighbours_checkable(col, propagated),
                forall|j: int| 0 <= j < (dx + 1) * 3 ==> self.neighbour_ready(col, j, propagated),
            decreases 2 - dx,
        {
            let mut dy: i16 = -1;
            while dy < 2
                invariant
                    -1 <= dx < 2,
                    -1 <= dy <= 2,
                    i16::MIN < col.x < i16::MAX,
                    i16::MIN < col.y < i16::MAX,
                    self.neighbours_checkable(col, propagated),
                    forall|j: int| 0 <= j < (dx + 1) * 3 + dy + 1 ==> self.neighbour_ready(col, j, propagated),
                decreases 2 - dy,
            {
                let ghost k: int = (dx + 1) * 3 + dy + 1;
                assert(k / 3 - 1 == dx && k % 3 - 1 == dy);
                if let Some(column) = self.get_column(col.x + dx, col.y + dy) {
                    let ready = if propagated {
                        column.is_propagated()
                    } else {
                        column.is_stored()
                    };
                    if !ready {
                        // Not ready yet
                        assert(!self.neighbour_ready(col, k, propagated));
                        return false;
                    }
                    assert(self.neighbour_ready(col, k, propagated));
                    assert(column.chunks.len() > 0);
                } else {
                    // Not found
                    assert(!self.neighbour_ready(col, k, propagated));
                    return false;
                }
                dy = dy + 1;
            }
            dx = dx + 1;
        }
        true
    }

    pub fn are_all_neighbours_stored(&self, col: ChunkColumnPos) -> (r: bool)
        requires
            i16::MIN < col.x < i16::MAX,
            i16::MIN < col.y < i16::MAX,
            self.neighbours_checkable(col, false),
        ensures
            r == forall|k: int| 0 <= k < 9 ==> self.neighbour_ready(col, k, false),
    {
        self.all_neighbours_ready(col, false)
    }

    pub fn are_all_neighbours_propagated(&self, col: ChunkColumnPos) -> (r: bool)
        requires
            i16::MIN < col.x < i16::MAX,
            i16::MIN < col.y < i16::MAX,
            self.neighbours_checkable(col, true),
        ensures
            r == forall|k: int| 0 <= k < 9 ==> self.neighbour_ready(col, k, true),
    {
        self.all_neighbours_ready(col, true)
    }

    /// Search from the top of the map down at (x, y) for the first block that is not air,
    /// and return its z; the world height where there is none.
    pub fn get_top_z(&self, x: i16, y: i16) -> (r: i16)
        requires
            self.wf(),
        ensures
            0 <= r <= WORLD_HEIGHT_BLOCKS,
            r < WORLD_HEIGHT_BLOCKS ==> spec_kind(self.block_at(x, y, r)) != AIR_BLOCK_KIND,
            forall|z: i16|
                r < z < WORLD_HEIGHT_BLOCKS ==> spec_kind(#[trigger] self.block_at(x, y, z))
                    == AIR_BLOCK_KIND,
            r == WORLD_HEIGHT_BLOCKS ==> forall|z: i16|
                0 <= z < WORLD_HEIGHT_BLOCKS ==> spec_kind(#[trigger] self.block_at(x, y, z))
                    == AIR_BLOCK_KIND,
    {
        let mut cp = ChunkPos::from_world_block_coords(x, y, 0);
        proof {
            super::lemma_shr4(x);
            super::lemma_shr4(y);
            lemma_air();
        }
        let lbx: i16 = x - (x >> 4) * 16;
        let lby: i16 = y - (y >> 4) * 16;
        let mut cz: i16 = 64;
        while cz > 0
            invariant
                0 <= cz <= 64,
                self.wf(),
                cp.x == spec_chunk_of(x, y, 0).x,
                cp.y == spec_chunk_of(x, y, 0).y,
                lbx == x as int % 16,
                lby == y as int % 16,
                spec_kind(AIR_BLOCK) == AIR_BLOCK_KIND,
                forall|z: i16|
                    cz * 16 <= z < WORLD_HEIGHT_BLOCKS ==> spec_kind(#[trigger] self.block_at(x, y, z))
                        == AIR_BLOCK_KIND,
            decreases cz,
        {
            cz = cz - 1;
            cp.z = cz;
            if let Some(chunk) = self.get_chunk_pos(cp) {
                proof {
                    self.lemma_chunk_at_wf(cp.x, cp.y, cp.z);
                }
                if chunk.is_initialized() {
                    let mut lbz: usize = 16;
                    while lbz > 0
                        invariant
                            0 <= lbz <= 16,
                            0 <= cz < 64,
                            self.wf(),
                            cp.x == spec_chunk_of(x, y, 0).x,
                            cp.y == spec_chunk_of(x, y, 0).y,
                            cp.z == cz,
                            lbx == x as int % 16,
                            lby == y as int % 16,
                            self.chunk_at(cp.x, cp.y, cp.z) == Some(*chunk),
                            chunk.wf(),
                            chunk.blocks.len() > 0,
                            forall|z: i16|
                                cz * 16 + lbz <= z < WORLD_HEIGHT_BLOCKS ==> spec_kind(
                                    #[trigger] self.block_at(x, y, z),
                                ) == AIR_BLOCK_KIND,
                        decreases lbz,
                    {
                        lbz = lbz - 1;
                        let b = chunk.get_block(lbx as usize, lby as usize, lbz);
                        let ghost wz: i16 = (cz * 16 + lbz) as i16;
                        proof {
                            super::lemma_shr4(wz);
                            super::lemma_shr4(x);
                            super::lemma_shr4(y);
                            assert(self.block_at(x, y, wz) == b);
                        }
                        if b.kind() != AIR_BLOCK_KIND {
                            return cz * 16 + lbz as i16;
                        }
                    }
                } else {
                    proof {
                        assert forall|z: i16| cz * 16 <= z < cz * 16 + 16 implies spec_kind(#[trigger] self.block_at(x, y, z)) == AIR_BLOCK_KIND by {
                            super::lemma_shr4(z);
                        }
                    }
                }
            } else {
                proof {
                    assert forall|z: i16| cz * 16 <= z < cz * 16 + 16 implies spec_kind(#[trigger] self.block_at(x, y, z)) == AIR_BLOCK_KIND by {
                        super::lemma_shr4(z);
                    }
                }
            }
        }
        WORLD_HEIGHT_BLOCKS
    }
}

} // verus!
