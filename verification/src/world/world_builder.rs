//! Building the client's world from the columns the server sends: each column is stored,
//! lit once its neighbours are stored, and meshed once its neighbours are lit.

use super::light_chunk::{area_loaded, blocks_known, chunk_ready, col_fits, column_lit};
use super::worldhandler::{
    chunk_data_blocks, col_inner, column_decodable, decode_column, listed_ready, ready_columns, ready_for,
};
use crate::block::blockregistry::{BlockDef, BlockRegistry};
use crate::block::spec_kind;
use crate::chunk::chunk_buffer::{column_wf, spec_column_key, ChunkBuffer};
use crate::chunk::chunkcolumn::{status_propagated, status_stored};
use crate::chunk::{ChunkColumn, ChunkColumnPos, ChunkPos, ColumnStatus};
use crate::render::block_mesher::{
    chunk_faces, mesh_checks, meshable, texture_table, BlockFace,
};
use crate::render::worldmesher::{column_chunk, WorldMesher};
use vstd::prelude::*;

verus! {

/// Every column whose blocks are stored holds 64 initialized chunks and lies far enough
/// inside the world for light to spread around it.
pub open spec fn stored_full(buf: ChunkBuffer) -> bool {
    forall|k: u32|
        #[trigger] buf.columns@.contains_key(k) && status_stored(buf.columns@[k].spec_status()) ==> {
            &&& buf.columns@[k].chunks.len() == 64
            &&& forall|z: int| 0 <= z < 64 ==> (#[trigger] buf.columns@[k].chunks[z]).blocks.len() > 0
            &&& col_fits(buf.columns@[k].col)
        }
}

/// `new` is `old` with the status of the column at `col` set to `status`; nothing else changed.
pub open spec fn status_set(new: ChunkBuffer, old: ChunkBuffer, col: ChunkColumnPos, status: ColumnStatus) -> bool {
    &&& new.columns@.dom() == old.columns@.dom()
    &&& forall|k: u32|
        #[trigger] old.columns@.contains_key(k) ==> {
            &&& new.columns@[k].col == old.columns@[k].col
            &&& new.columns@[k].chunks == old.columns@[k].chunks
            &&& new.columns@[k].spec_status() == if k == spec_column_key(col.x, col.y) {
                status
            } else {
                old.columns@[k].spec_status()
            }
        }
}

/// Step `i` of lighting the columns `cols` in turn: in `states[i]` the whole column
/// `cols[i]` is lit, chunk by chunk from the bottom up, and then marked propagated, which
/// gives `states[i + 1]`.
pub open spec fn light_step(states: Seq<ChunkBuffer>, cols: Seq<ChunkColumnPos>, i: int, reg: Seq<BlockDef>) -> bool {
    exists|mid: ChunkBuffer|
        #[trigger] column_lit(mid, states[i], cols[i], reg, 64) && status_set(
            states[i + 1],
            mid,
            cols[i],
            ColumnStatus::Propagated,
        )
}

/// `new` is `old` after the columns `cols` were lit one after the other, each marked
/// propagated once lit.
pub open spec fn columns_lit(new: ChunkBuffer, old: ChunkBuffer, cols: Seq<ChunkColumnPos>, reg: Seq<BlockDef>) -> bool {
    exists|states: Seq<ChunkBuffer>|
        {
            &&& #[trigger] states.len() == cols.len() + 1
            &&& states[0].columns@ == old.columns@
            &&& states[cols.len() as int].columns@ == new.columns@
            &&& forall|i: int| 0 <= i < cols.len() ==> #[trigger] light_step(states, cols, i, reg)
        }
}

/// `new` is `old` after the columns of `copies` were lit one after the other, each marked
/// propagated once lit, and each copy is its column as it stood right after that.
pub open spec fn lit_copies(new: ChunkBuffer, old: ChunkBuffer, copies: Seq<ChunkColumn>, reg: Seq<BlockDef>) -> bool {
    exists|states: Seq<ChunkBuffer>|
        {
            &&& #[trigger] states.len() == copies.len() + 1
            &&& states[0].columns@ == old.columns@
            &&& states[copies.len() as int].columns@ == new.columns@
            &&& forall|i: int| 0 <= i < copies.len() ==> #[trigger] light_step(states, cols_of(copies), i, reg)
            &&& forall|i: int|
                0 <= i < copies.len() ==> (#[trigger] copies[i])@ == states[i + 1].column_at(
                    copies[i].col.x,
                    copies[i].col.y,
                )->0@
        }
}

/// The faces of a list of chunks, each with its lists of faces as sequences.
pub open spec fn faces_view(f: Seq<(ChunkPos, Vec<BlockFace>, Vec<BlockFace>)>) -> Seq<(ChunkPos, Seq<BlockFace>, Seq<BlockFace>)> {
    f.map_values(|e: (ChunkPos, Vec<BlockFace>, Vec<BlockFace>)| (e.0, e.1@, e.2@))
}

/// The visible faces of the first `n` chunks of column `c`, bottom up, as (chunk, opaque
/// faces, translucent faces), leaving out the chunks that show no face.
pub open spec fn column_faces(buf: ChunkBuffer, c: ChunkColumnPos, tex: Seq<Option<Seq<usize>>>, n: int) -> Seq<
    (ChunkPos, Seq<BlockFace>, Seq<BlockFace>),
>
    decreases n,
{
    if n <= 0 {
        Seq::empty()
    } else {
        let cp = column_chunk(c, n - 1);
        let f1 = chunk_faces(buf, cp, tex, 1);
        let f2 = chunk_faces(buf, cp, tex, 2);
        column_faces(buf, c, tex, n - 1) + if f1.len() > 0 || f2.len() > 0 {
            seq![(cp, f1, f2)]
        } else {
            Seq::empty()
        }
    }
}

/// The visible faces of all chunks of the columns `cols`, column after column.
pub open spec fn columns_faces(buf: ChunkBuffer, cols: Seq<ChunkColumnPos>, tex: Seq<Option<Seq<usize>>>) -> Seq<
    (ChunkPos, Seq<BlockFace>, Seq<BlockFace>),
>
    decreases cols.len(),
{
    if cols.len() == 0 {
        Seq::empty()
    } else {
        columns_faces(buf, cols.drop_last(), tex) + column_faces(buf, cols.last(), tex, 64)
    }
}

/// `a` and `b` hold the same chunks in the same columns; only statuses may differ.
pub open spec fn same_chunks(a: ChunkBuffer, b: ChunkBuffer) -> bool {
    &&& a.columns@.dom() == b.columns@.dom()
    &&& forall|k: u32|
        #[trigger] a.columns@.contains_key(k) ==> a.columns@[k].chunks == b.columns@[k].chunks
            && a.columns@[k].col == b.columns@[k].col
}

/// Lighting the ready columns of `start` in turn stopped short: some of them were lit, one
/// after the other, giving `new`, and the next ready column holds a block of a kind that
/// `reg` does not define.
pub open spec fn light_stopped(new: ChunkBuffer, start: ChunkBuffer, reg: Seq<BlockDef>) -> bool {
    exists|cols: Seq<ChunkColumnPos>, c: ChunkColumnPos|
        #![trigger columns_lit(new, start, cols, reg), listed_ready(start, c, false)]
        {
            &&& columns_lit(new, start, cols, reg)
            &&& forall|i: int| 0 <= i < cols.len() ==> listed_ready(start, #[trigger] cols[i], false)
            &&& listed_ready(start, c, false)
            &&& cols.push(c).no_duplicates()
            &&& !blocks_known(new, c, reg)
        }
}

/// Lighting the ready columns of `start` went through, giving `lit`, and meshing then
/// stopped before it marked anything, leaving `new` with the columns of `lit`: a column
/// ready for meshing in `lit` fails the meshing checks.
pub open spec fn mesh_stopped(
    new: ChunkBuffer,
    start: ChunkBuffer,
    reg: Seq<BlockDef>,
    textures: Seq<Option<Seq<usize>>>,
) -> bool {
    exists|lit: ChunkBuffer, cols: Seq<ChunkColumnPos>, c: ChunkColumnPos|
        #![trigger columns_lit(lit, start, cols, reg), listed_ready(lit, c, true)]
        {
            &&& lists_ready(cols, start, false)
            &&& columns_lit(lit, start, cols, reg)
            &&& moved_to(lit, start, cols, ColumnStatus::Propagated)
            &&& new.columns@ == lit.columns@
            &&& listed_ready(lit, c, true)
            &&& !column_mesh_checked(lit, c, textures)
        }
}

/// Every chunk of column `col` passes the checks of `BlockMesher::can_mesh`.
pub open spec fn column_mesh_checked(buf: ChunkBuffer, col: ChunkColumnPos, textures: Seq<Option<Seq<usize>>>) -> bool {
    forall|z: int| 0 <= z < 64 ==> mesh_checks(buf, #[trigger] column_chunk(col, z), textures)
}

/// Statuses only move on: every column of `old` is in `new` at the same position, stored
/// where it was stored and lit where it was lit.
pub open spec fn statuses_kept(new: ChunkBuffer, old: ChunkBuffer) -> bool {
    &&& old.columns@.dom().subset_of(new.columns@.dom())
    &&& forall|k: u32|
        #[trigger] old.columns@.contains_key(k) ==> {
            &&& new.columns@[k].col == old.columns@[k].col
            &&& status_stored(old.columns@[k].spec_status()) ==> status_stored(new.columns@[k].spec_status())
            &&& status_propagated(old.columns@[k].spec_status()) ==> status_propagated(
                new.columns@[k].spec_status(),
            )
        }
}

/// Statuses moving on is transitive.
proof fn lemma_statuses_trans(a: ChunkBuffer, b: ChunkBuffer, c: ChunkBuffer)
    requires
        statuses_kept(b, a),
        statuses_kept(c, b),
    ensures
        statuses_kept(c, a),
{
    assert forall|k: u32| #[trigger] a.columns@.contains_key(k) implies {
        &&& c.columns@[k].col == a.columns@[k].col
        &&& status_stored(a.columns@[k].spec_status()) ==> status_stored(c.columns@[k].spec_status())
        &&& status_propagated(a.columns@[k].spec_status()) ==> status_propagated(c.columns@[k].spec_status())
    } by {
        assert(b.columns@.contains_key(k));
    }
}

/// Holding the same chunks is transitive.
proof fn lemma_same_chunks_trans(a: ChunkBuffer, b: ChunkBuffer, c: ChunkBuffer)
    requires
        same_chunks(a, b),
        same_chunks(b, c),
    ensures
        same_chunks(a, c),
{
    assert forall|k: u32| #[trigger] a.columns@.contains_key(k) implies a.columns@[k].chunks == c.columns@[k].chunks
        && a.columns@[k].col == c.columns@[k].col by {
        assert(b.columns@.contains_key(k));
    }
}

/// A buffer has the same chunks as itself.
proof fn lemma_same_chunks_refl(a: ChunkBuffer)
    ensures
        same_chunks(a, a),
{
}

/// Stored columns stay full when the shape of the buffer stays.
proof fn lemma_full_shape(new: ChunkBuffer, old: ChunkBuffer)
    requires
        stored_full(old),
        new.same_shape(old),
    ensures
        stored_full(new),
        statuses_kept(new, old),
{
    assert forall|k: u32| #[trigger] new.columns@.contains_key(k) && status_stored(new.columns@[k].spec_status()) implies {
        &&& new.columns@[k].chunks.len() == 64
        &&& forall|z: int| 0 <= z < 64 ==> (#[trigger] new.columns@[k].chunks[z]).blocks.len() > 0
        &&& col_fits(new.columns@[k].col)
    } by {
        assert(old.columns@.contains_key(k));
        assert forall|z: int| 0 <= z < 64 implies (#[trigger] new.columns@[k].chunks[z]).blocks.len() > 0 by {
            assert(old.columns@[k].chunks[z].blocks.len() > 0);
        }
    }
}

/// Stored columns stay full when a stored column moves on to another stored status.
proof fn lemma_full_status(new: ChunkBuffer, old: ChunkBuffer, key: u32, status: ColumnStatus)
    requires
        stored_full(old),
        status_stored(status),
        old.columns@.contains_key(key) ==> status_stored(old.columns@[key].spec_status()),
        new.columns@.dom() == old.columns@.dom(),
        forall|k: u32|
            #![trigger new.columns@[k]]
            old.columns@.contains_key(k) ==> {
                &&& new.columns@[k].col == old.columns@[k].col
                &&& new.columns@[k].chunks == old.columns@[k].chunks
                &&& new.columns@[k].spec_status() == if k == key {
                    status
                } else {
                    old.columns@[k].spec_status()
                }
            },
    ensures
        stored_full(new),
        same_chunks(new, old),
{
    assert forall|k: u32| #[trigger] new.columns@.contains_key(k) && status_stored(new.columns@[k].spec_status()) implies {
        &&& new.columns@[k].chunks.len() == 64
        &&& forall|z: int| 0 <= z < 64 ==> (#[trigger] new.columns@[k].chunks[z]).blocks.len() > 0
        &&& col_fits(new.columns@[k].col)
    } by {
        assert(old.columns@.contains_key(k));
        assert(new.columns@[k].chunks == old.columns@[k].chunks);
    }
}

/// The nine columns around `col` (itself included) are stored (`propagated` false) or lit.
pub open spec fn around_ready(buf: ChunkBuffer, col: ChunkColumnPos, propagated: bool) -> bool {
    forall|k: int| 0 <= k < 9 ==> buf.neighbour_ready(col, k, propagated)
}

/// Readiness around a column stays while statuses only move on.
proof fn lemma_around_kept(new: ChunkBuffer, old: ChunkBuffer, col: ChunkColumnPos, propagated: bool)
    requires
        around_ready(old, col, propagated),
        statuses_kept(new, old),
    ensures
        around_ready(new, col, propagated),
{
    assert forall|k: int| 0 <= k < 9 implies new.neighbour_ready(col, k, propagated) by {
        assert(old.neighbour_ready(col, k, propagated));
        let key = spec_column_key((col.x + k / 3 - 1) as i16, (col.y + k % 3 - 1) as i16);
        assert(old.columns@.contains_key(key));
    }
}

/// The nine columns around a ready column are stored in full, so its area is loaded.
proof fn lemma_ready_area(buf: ChunkBuffer, col: ChunkColumnPos, propagated: bool)
    requires
        buf.wf(),
        stored_full(buf),
        forall|k: int| 0 <= k < 9 ==> buf.neighbour_ready(col, k, propagated),
        col_inner(col),
    ensures
        area_loaded(buf, col),
{
    assert forall|dx: int, dy: int, z: int|
        -1 <= dx <= 1 && -1 <= dy <= 1 && 0 <= z < 64 implies #[trigger] chunk_ready(buf, col.x + dx, col.y + dy, z) by {
        let k = (dx + 1) * 3 + dy + 1;
        assert(k / 3 - 1 == dx && k % 3 - 1 == dy);
        assert(buf.neighbour_ready(col, k, propagated));
        let key = spec_column_key((col.x + dx) as i16, (col.y + dy) as i16);
        assert(buf.columns@.contains_key(key));
        assert(buf.columns@[key].chunks[z].blocks.len() > 0);
    }
}

/// In a buffer whose stored columns are full, the neighbours of any column can be checked.
proof fn lemma_checkable(buf: ChunkBuffer, col: ChunkColumnPos, propagated: bool)
    requires
        stored_full(buf),
    ensures
        buf.neighbours_checkable(col, propagated),
{
    assert forall|k: int|
        0 <= k < 9 && (forall|j: int| 0 <= j < k ==> buf.neighbour_ready(col, j, propagated))
            && #[trigger] buf.neighbour_ready(col, k, propagated) implies buf.neighbour_column(col, k)->0.chunks.len() > 0 by {
        let key = spec_column_key((col.x + k / 3 - 1) as i16, (col.y + k % 3 - 1) as i16);
        assert(buf.columns@.contains_key(key));
    }
}

/// The positions of the given columns.
pub open spec fn cols_of(v: Seq<ChunkColumn>) -> Seq<ChunkColumnPos> {
    v.map_values(|c: ChunkColumn| c.col)
}

/// `cols` lists, each once, exactly the positions of the columns of `buf` that are ready for
/// the next stage.
pub open spec fn lists_ready(cols: Seq<ChunkColumnPos>, buf: ChunkBuffer, propagated: bool) -> bool {
    &&& cols.no_duplicates()
    &&& forall|i: int| 0 <= i < cols.len() ==> listed_ready(buf, #[trigger] cols[i], propagated)
    &&& forall|k: u32|
        #[trigger] buf.columns@.contains_key(k) && ready_for(buf, buf.columns@[k], propagated) ==> cols.contains(
            buf.columns@[k].col,
        )
}

/// `new` has the columns of `old` at the same positions, those at `cols` with status
/// `status` and the others with their old status.
pub open spec fn moved_to(new: ChunkBuffer, old: ChunkBuffer, cols: Seq<ChunkColumnPos>, status: ColumnStatus) -> bool {
    &&& new.columns@.dom() == old.columns@.dom()
    &&& forall|k: u32|
        #[trigger] old.columns@.contains_key(k) ==> new.columns@[k].col == old.columns@[k].col
            && new.columns@[k].spec_status() == if cols.contains(old.columns@[k].col) {
            status
        } else {
            old.columns@[k].spec_status()
        }
}

/// One more column moved to `status`: a column of a well formed buffer is stored under the
/// key of its position.
proof fn lemma_moved_step(
    new: ChunkBuffer,
    mid: ChunkBuffer,
    old: ChunkBuffer,
    cols: Seq<ChunkColumnPos>,
    c: ChunkColumnPos,
    status: ColumnStatus,
)
    requires
        old.wf(),
        moved_to(mid, old, cols, status),
        new.columns@.dom() == mid.columns@.dom(),
        forall|k: u32|
            #![trigger new.columns@[k]]
            mid.columns@.contains_key(k) ==> {
                &&& new.columns@[k].col == mid.columns@[k].col
                &&& new.columns@[k].spec_status() == if k == spec_column_key(c.x, c.y) {
                    status
                } else {
                    mid.columns@[k].spec_status()
                }
            },
    ensures
        moved_to(new, old, cols.push(c), status),
{
    assert forall|k: u32| #[trigger] old.columns@.contains_key(k) implies new.columns@[k].col == old.columns@[k].col
        && new.columns@[k].spec_status() == if cols.push(c).contains(old.columns@[k].col) {
        status
    } else {
        old.columns@[k].spec_status()
    } by {
        let p = old.columns@[k].col;
        crate::chunk::chunk_buffer::lemma_column_key_injective(p.x, p.y, c.x, c.y);
        if cols.contains(p) {
            let i = choose|i: int| 0 <= i < cols.len() && cols[i] == p;
            assert(cols.push(c)[i] == p);
        }
        if p == c {
            assert(cols.push(c)[cols.len() as int] == p);
        }
        if cols.push(c).contains(p) && p != c {
            let i = choose|i: int| 0 <= i < cols.push(c).len() && cols.push(c)[i] == p;
            assert(cols[i] == p);
        }
    }
}

/// The bytes of each piece of column data.
pub open spec fn data_view(v: Seq<Vec<u8>>) -> Seq<Seq<u8>> {
    v.map_values(|w: Vec<u8>| w@)
}

/// `new` is `old` with the column decoded from `data` stored at `col`, with status stored.
pub open spec fn decoded_into(new: ChunkBuffer, old: ChunkBuffer, col: ChunkColumnPos, data: Seq<Seq<u8>>) -> bool {
    let key = spec_column_key(col.x, col.y);
    &&& new.columns@.dom() == old.columns@.dom().insert(key)
    &&& new.columns@[key].col == col
    &&& new.columns@[key].spec_status() == ColumnStatus::Stored
    &&& new.columns@[key].chunks.len() == 64
    &&& forall|z: int|
        0 <= z < 64 ==> (#[trigger] new.columns@[key].chunks[z]).pos == (ChunkPos { x: col.x, y: col.y, z: z as i16 })
            && new.columns@[key].chunks[z].blocks@ == chunk_data_blocks(data[z])->0
    &&& forall|k: u32| #[trigger] old.columns@.contains_key(k) && k != key ==> new.columns@[k] == old.columns@[k]
}

/// What building did after a column arrived: the columns lit, each as it was right after
/// its lighting, the columns meshed, and the visible faces of each of their chunks that
/// has any.
pub struct BuildOutput {
    pub propagated: Vec<ChunkColumn>,
    pub meshed_columns: Vec<ChunkColumnPos>,
    pub meshed: Vec<(ChunkPos, Vec<BlockFace>, Vec<BlockFace>)>,
}

/// The buffer of columns that the client builds its world in, with the block definitions
/// and the mesher it lights and meshes them with.
pub struct WorldBuilder {
    buffer: ChunkBuffer,
    block_registry: BlockRegistry,
    mesher: WorldMesher,
}

impl WorldBuilder {
    /// The buffer of columns.
    pub closed spec fn buf(&self) -> ChunkBuffer {
        self.buffer
    }

    /// The block definitions that lighting uses.
    pub closed spec fn registry(&self) -> Seq<BlockDef> {
        self.block_registry.spec_blocks()
    }

    /// The texture numbers of each kind of block that meshing uses.
    pub closed spec fn textures(&self) -> Seq<Option<Seq<usize>>> {
        self.mesher.textures()
    }

    /// The buffer is well formed, its stored columns are full, and the mesher uses the
    /// textures of the registry.
    pub closed spec fn wf(&self) -> bool {
        &&& self.buffer.wf()
        &&& stored_full(self.buffer)
        &&& self.mesher.textures() == texture_table(self.block_registry.spec_texture_indices())
    }

    pub fn new(block_registry: BlockRegistry) -> (r: WorldBuilder)
        ensures
            r.wf(),
            r.buf().columns@ == Map::<u32, ChunkColumn>::empty(),
            r.textures() == texture_table(block_registry.spec_texture_indices()),
    {
        let mesher = WorldMesher::new(&block_registry);
        WorldBuilder { buffer: ChunkBuffer::new(), block_registry, mesher }
    }

    /// The buffer of columns.
    pub fn buffer(&self) -> (r: &ChunkBuffer)
        ensures
            *r == self.buf(),
    {
        &self.buffer
    }
    /// Light each column that is ready for it (stored, with the nine columns around it
    /// stored), one after the other, and mark it propagated; returns the columns as they
    /// were right after their lighting. `None` when the next column to light holds a block
    /// of a kind the registry does not define; the columns lit before it stay lit.
    fn light_ready(&mut self) -> (r: Option<Vec<ChunkColumn>>)
        requires
            old(self).wf(),
        ensures
            final(self).wf(),
            final(self).textures() == old(self).textures(),
            final(self).block_registry == old(self).block_registry,
            statuses_kept(final(self).buf(), old(self).buf()),
            r matches Some(v) ==> forall|i: int|
                0 <= i < v.len() ==> (#[trigger] v@[i]).spec_status() == ColumnStatus::Propagated
                    && (final(self).buf().column_at(v@[i].col.x, v@[i].col.y) matches Some(c)
                    && status_propagated(c.spec_status())),
            r matches Some(v) ==> lists_ready(cols_of(v@), old(self).buf(), false) && moved_to(
                final(self).buf(),
                old(self).buf(),
                cols_of(v@),
                ColumnStatus::Propagated,
            ),
            r matches Some(v) ==> columns_lit(final(self).buf(), old(self).buf(), cols_of(v@), old(self).registry()),
            r matches Some(v) ==> lit_copies(final(self).buf(), old(self).buf(), v@, old(self).registry()),
            r is None ==> light_stopped(final(self).buf(), old(self).buf(), old(self).registry()),
    {
        let ghost b0 = self.buffer;
        proof {
            assert forall|k: u32|
                #[trigger] self.buffer.columns@.contains_key(k) && self.buffer.columns@[k].spec_status()
                    == ColumnStatus::Stored implies col_inner(self.buffer.columns@[k].col)
                && self.buffer.neighbours_checkable(self.buffer.columns@[k].col, false) by {
                lemma_checkable(self.buffer, self.buffer.columns@[k].col, false);
            }
        }
        let to_light = ready_columns(&self.buffer, false);
        proof {
            assert forall|j: int| 0 <= j < to_light.len() implies #[trigger] around_ready(b0, to_light@[j], false)
                && col_inner(to_light@[j]) by {
                let k = choose|k: u32|
                    #[trigger] b0.columns@.contains_key(k) && b0.columns@[k].col == to_light@[j] && ready_for(
                        b0,
                        b0.columns@[k],
                        false,
                    );
                assert(ready_for(b0, b0.columns@[k], false));
            }
        }
        let ghost reg = self.block_registry.spec_blocks();
        let ghost mut states: Seq<ChunkBuffer> = seq![self.buffer];
        let mut lit: Vec<ChunkColumn> = Vec::new();
        let mut i: usize = 0;
        proof {
            assert(cols_of(lit@) =~= to_light@.subrange(0, 0));
            assert(moved_to(self.buffer, b0, to_light@.subrange(0, 0), ColumnStatus::Propagated));
        }
        while i < to_light.len()
            invariant
                i <= to_light.len(),
                self.wf(),
                self.textures() == old(self).textures(),
                self.block_registry == old(self).block_registry,
                b0 == old(self).buf(),
                statuses_kept(self.buffer, b0),
                forall|j: int| i <= j < to_light.len() ==> #[trigger] around_ready(b0, to_light@[j], false) && col_inner(
                    to_light@[j],
                ),
                forall|j: int|
                    0 <= j < lit.len() ==> (#[trigger] lit@[j]).spec_status() == ColumnStatus::Propagated && (
                    self.buffer.column_at(lit@[j].col.x, lit@[j].col.y) matches Some(c) && status_propagated(
                        c.spec_status(),
                    )),
                b0.wf(),
                cols_of(lit@) == to_light@.subrange(0, i as int),
                moved_to(self.buffer, b0, to_light@.subrange(0, i as int), ColumnStatus::Propagated),
                lists_ready(to_light@, b0, false),
                reg == self.block_registry.spec_blocks(),
                states.len() == i + 1,
                states[0] == b0,
                states[i as int] == self.buffer,
                forall|j: int|
                    0 <= j < lit.len() ==> (#[trigger] lit@[j])@ == states[j + 1].column_at(
                        lit@[j].col.x,
                        lit@[j].col.y,
                    )->0@,
                forall|j: int| 0 <= j < i ==> #[trigger] light_step(states, to_light@, j, reg),
            decreases to_light.len() - i,
        {
            let c = to_light[i];
            let ghost before = self.buffer;
            proof {
                assert(around_ready(b0, c, false) && col_inner(c));
                lemma_around_kept(before, b0, c, false);
                lemma_ready_area(before, c, false);
                let key = spec_column_key(c.x, c.y);
                assert(before.neighbour_ready(c, 4, false));
                assert(before.columns@.contains_key(key));
            }
            if !self.buffer.propagate_column_lights(c, &self.block_registry) {
                proof {
                    lemma_full_shape(self.buffer, before);
                    lemma_statuses_trans(b0, before, self.buffer);
                    let cols = to_light@.subrange(0, i as int);
                    assert(col_fits(c));
                    assert(area_loaded(before, c));
                    assert(!blocks_known(before, c, reg));
                    assert(self.buffer.columns@ == before.columns@);
                    let (wz, wi) = choose|z: int, i: int|
                        0 <= z < 64 && 0 <= i < before.chunk_at(c.x, c.y, z as i16)->0.blocks.len() && !(spec_kind(
                            #[trigger] before.chunk_at(c.x, c.y, z as i16)->0.blocks[i],
                        ) < reg.len());
                    assert(self.buffer.chunk_at(c.x, c.y, wz as i16) == before.chunk_at(c.x, c.y, wz as i16));
                    assert(!blocks_known(self.buffer, c, reg));
                    assert forall|j: int| 0 <= j < cols.len() implies #[trigger] light_step(states, cols, j, reg) by {
                        assert(light_step(states, to_light@, j, reg));
                        assert(cols[j] == to_light@[j]);
                    }
                    assert(columns_lit(self.buffer, b0, cols, reg));
                    assert forall|j: int| 0 <= j < cols.len() implies listed_ready(b0, #[trigger] cols[j], false) by {
                        assert(cols[j] == to_light@[j]);
                    }
                    assert(listed_ready(b0, to_light@[i as int], false));
                    assert(cols.push(c) =~= to_light@.subrange(0, i + 1));
                    assert(cols.push(c).no_duplicates()) by {
                        assert forall|a: int, b: int|
                            0 <= a < cols.push(c).len() && 0 <= b < cols.push(c).len() && a != b implies cols.push(c)[a]
                            != cols.push(c)[b] by {
                            assert(cols.push(c)[a] == to_light@[a]);
                            assert(cols.push(c)[b] == to_light@[b]);
                        }
                    }
                    assert(listed_ready(b0, c, false));
                    assert(columns_lit(self.buffer, b0, cols, reg));
                    assert(listed_ready(b0, c, false));
                    assert(light_stopped(self.buffer, b0, reg));
                }
                return None;
            }
            proof {
                lemma_full_shape(self.buffer, before);
                lemma_statuses_trans(b0, before, self.buffer);
            }
            let ghost mid = self.buffer;
            let ghost key = spec_column_key(c.x, c.y);
            proof {
                assert(mid.columns@.contains_key(key));
            }
            self.buffer.set_column_status(c, ColumnStatus::Propagated);
            proof {
                let ns = states.push(self.buffer);
                assert(status_set(self.buffer, mid, c, ColumnStatus::Propagated));
                assert(column_lit(mid, ns[i as int], to_light@[i as int], reg, 64));
                assert(light_step(ns, to_light@, i as int, reg));
                assert forall|j: int| 0 <= j < i + 1 implies #[trigger] light_step(ns, to_light@, j, reg) by {
                    if j < i {
                        assert(light_step(states, to_light@, j, reg));
                        assert(ns[j] == states[j]);
                        assert(ns[j + 1] == states[j + 1]);
                    }
                }
                states = ns;
                lemma_full_status(self.buffer, mid, key, ColumnStatus::Propagated);
                assert(statuses_kept(self.buffer, mid));
                lemma_statuses_trans(b0, mid, self.buffer);
                lemma_statuses_trans(before, mid, self.buffer);
                assert(moved_to(mid, b0, to_light@.subrange(0, i as int), ColumnStatus::Propagated)) by {
                    assert forall|k: u32| #[trigger] b0.columns@.contains_key(k) implies mid.columns@[k].col
                        == b0.columns@[k].col && mid.columns@[k].spec_status() == if to_light@.subrange(
                        0,
                        i as int,
                    ).contains(b0.columns@[k].col) {
                        ColumnStatus::Propagated
                    } else {
                        b0.columns@[k].spec_status()
                    } by {
                        assert(before.columns@.contains_key(k));
                    }
                }
                lemma_moved_step(self.buffer, mid, b0, to_light@.subrange(0, i as int), c, ColumnStatus::Propagated);
                assert(to_light@.subrange(0, i as int).push(c) =~= to_light@.subrange(0, i + 1));
                assert(self.buffer.columns@.contains_key(key));
            }
            let cl = self.buffer.get_column_clone(c.x, c.y).unwrap();
            proof {
                crate::chunk::chunk_buffer::lemma_column_key_injective(
                    self.buffer.columns@[key].col.x,
                    self.buffer.columns@[key].col.y,
                    c.x,
                    c.y,
                );
                assert(cl.col == c);
            }
            lit.push(cl);
            proof {
                assert(cols_of(lit@) =~= to_light@.subrange(0, i + 1));
            }
            proof {
                assert forall|j: int|
                    0 <= j < lit.len() implies (#[trigger] lit@[j]).spec_status() == ColumnStatus::Propagated && (
                    self.buffer.column_at(lit@[j].col.x, lit@[j].col.y) matches Some(cc) && status_propagated(
                        cc.spec_status(),
                    )) by {
                    if j < lit.len() - 1 {
                        let p = lit@[j].col;
                        let pk = spec_column_key(p.x, p.y);
                        assert(before.column_at(p.x, p.y) matches Some(cc) && status_propagated(cc.spec_status()));
                        assert(before.columns@.contains_key(pk));
                    } else {
                        assert(lit@[j]@ == self.buffer.column_at(c.x, c.y)->0@);
                    }
                }
                assert forall|j: int|
                    0 <= j < lit.len() implies (#[trigger] lit@[j])@ == states[j + 1].column_at(
                    lit@[j].col.x,
                    lit@[j].col.y,
                )->0@ by {
                    if j == lit.len() - 1 {
                        assert(lit@[j]@ == self.buffer.column_at(c.x, c.y)->0@);
                    }
                }
            }
            i += 1;
        }
        proof {
            assert(to_light@.subrange(0, to_light.len() as int) =~= to_light@);
            assert(cols_of(lit@) == to_light@);
            assert(states.len() == to_light@.len() + 1);
            assert(states.len() == lit@.len() + 1);
            assert(lit_copies(self.buffer, b0, lit@, reg));
        }
        Some(lit)
    }
    /// Mesh each column that is ready for it (lit, with the nine columns around it lit):
    /// the visible faces of each of their chunks that has any, column after column and
    /// bottom up, then mark them meshed; returns the meshed columns and those faces. `None`,
    /// with nothing marked, exactly when a chunk of a column ready for meshing fails the
    /// checks of `BlockMesher::can_mesh`.
    fn mesh_ready(&mut self) -> (r: Option<(Vec<ChunkColumnPos>, Vec<(ChunkPos, Vec<BlockFace>, Vec<BlockFace>)>)>)
        requires
            old(self).wf(),
        ensures
            final(self).wf(),
            final(self).textures() == old(self).textures(),
            final(self).block_registry == old(self).block_registry,
            statuses_kept(final(self).buf(), old(self).buf()),
            same_chunks(final(self).buf(), old(self).buf()),
            r matches Some((cols, _)) ==> forall|i: int|
                0 <= i < cols.len() ==> (final(self).buf().column_at((#[trigger] cols@[i]).x, cols@[i].y) matches Some(c)
                    && c.spec_status() == ColumnStatus::Meshed),
            r matches Some((cols, _)) ==> lists_ready(cols@, old(self).buf(), true) && moved_to(
                final(self).buf(),
                old(self).buf(),
                cols@,
                ColumnStatus::Meshed,
            ),
            r matches Some((cols, faces)) ==> faces_view(faces@) == columns_faces(
                old(self).buf(),
                cols@,
                old(self).textures(),
            ),
            (r is None) == exists|c: ChunkColumnPos|
                #[trigger] listed_ready(old(self).buf(), c, true) && !column_mesh_checked(
                    old(self).buf(),
                    c,
                    old(self).textures(),
                ),
            r is None ==> final(self).buf().columns@ == old(self).buf().columns@,
    {
        let ghost b0 = self.buffer;
        let ghost tex = self.textures();
        proof {
            assert forall|k: u32|
                #[trigger] self.buffer.columns@.contains_key(k) && self.buffer.columns@[k].spec_status()
                    == ColumnStatus::Propagated implies col_inner(self.buffer.columns@[k].col)
                && self.buffer.neighbours_checkable(self.buffer.columns@[k].col, true) by {
                lemma_checkable(self.buffer, self.buffer.columns@[k].col, true);
            }
        }
        let to_mesh = ready_columns(&self.buffer, true);
        let mut faces: Vec<(ChunkPos, Vec<BlockFace>, Vec<BlockFace>)> = Vec::new();
        let mut i: usize = 0;
        proof {
            assert(to_mesh@.subrange(0, 0) =~= Seq::<ChunkColumnPos>::empty());
            assert(faces_view(faces@) =~= columns_faces(b0, to_mesh@.subrange(0, 0), tex));
        }
        while i < to_mesh.len()
            invariant
                i <= to_mesh.len(),
                self.wf(),
                self.buffer == b0,
                self.textures() == tex,
                tex == old(self).textures(),
                b0 == old(self).buf(),
                lists_ready(to_mesh@, b0, true),
                forall|j: int| 0 <= j < i ==> column_mesh_checked(b0, #[trigger] to_mesh@[j], tex),
                faces_view(faces@) == columns_faces(b0, to_mesh@.subrange(0, i as int), tex),
            decreases to_mesh.len() - i,
        {
            let c = to_mesh[i];
            if !self.mesher.can_mesh_column(&c, &self.buffer) {
                proof {
                    assert(listed_ready(b0, to_mesh@[i as int], true));
                    assert(listed_ready(b0, c, true) && !column_mesh_checked(b0, c, tex));
                }
                return None;
            }
            let ghost before = faces_view(faces@);
            let mut z: usize = 0;
            proof {
                assert(faces_view(faces@) =~= before + column_faces(b0, c, tex, 0));
            }
            while z < 64
                invariant
                    z <= 64,
                    self.buffer == b0,
                    self.wf(),
                    self.textures() == tex,
                    tex == self.mesher.textures(),
                    forall|zz: int| 0 <= zz < 64 ==> meshable(b0, #[trigger] column_chunk(c, zz), tex),
                    faces_view(faces@) == before + column_faces(b0, c, tex, z as int),
                decreases 64 - z,
            {
                let cp = ChunkPos::new(c.x, c.y, z as i16);
                assert(cp == column_chunk(c, z as int));
                let (opaque, translucent) = self.mesher.mesh_chunk(cp, &self.buffer);
                let ghost prev = faces@;
                if opaque.len() > 0 || translucent.len() > 0 {
                    faces.push((cp, opaque, translucent));
                    proof {
                        assert(faces@ == prev.push((cp, opaque, translucent)));
                        assert(faces_view(faces@) =~= faces_view(prev).push((cp, opaque@, translucent@)));
                    }
                }
                proof {
                    assert(faces_view(faces@) =~= before + column_faces(b0, c, tex, z + 1));
                }
                z += 1;
            }
            proof {
                assert(to_mesh@.subrange(0, i + 1).drop_last() =~= to_mesh@.subrange(0, i as int));
                assert(to_mesh@.subrange(0, i + 1).last() == c);
                assert(faces_view(faces@) =~= columns_faces(b0, to_mesh@.subrange(0, i + 1), tex));
            }
            i += 1;
        }
        proof {
            assert(to_mesh@.subrange(0, to_mesh.len() as int) =~= to_mesh@);
            assert forall|c: ChunkColumnPos| #[trigger] listed_ready(b0, c, true) implies column_mesh_checked(b0, c, tex) by {
                let k = choose|k: u32|
                    #[trigger] b0.columns@.contains_key(k) && b0.columns@[k].col == c && ready_for(b0, b0.columns@[k], true);
                assert(to_mesh@.contains(c));
                let j = choose|j: int| 0 <= j < to_mesh@.len() && to_mesh@[j] == c;
                assert(column_mesh_checked(b0, to_mesh@[j], tex));
            }
        }
        let mut j: usize = 0;
        proof {
            assert(to_mesh@.subrange(0, 0) =~= Seq::<ChunkColumnPos>::empty());
            assert(moved_to(self.buffer, b0, to_mesh@.subrange(0, 0), ColumnStatus::Meshed));
            lemma_same_chunks_refl(self.buffer);
            assert(statuses_kept(self.buffer, b0)) by {
                assert(b0.columns@.dom().subset_of(self.buffer.columns@.dom()));
            }
        }
        while j < to_mesh.len()
            invariant
                j <= to_mesh.len(),
                self.wf(),
                self.textures() == tex,
                self.block_registry == old(self).block_registry,
                b0 == old(self).buf(),
                b0.wf(),
                statuses_kept(self.buffer, b0),
                same_chunks(self.buffer, b0),
                lists_ready(to_mesh@, b0, true),
                forall|jj: int| 0 <= jj < to_mesh.len() ==> #[trigger] around_ready(b0, to_mesh@[jj], true),
                moved_to(self.buffer, b0, to_mesh@.subrange(0, j as int), ColumnStatus::Meshed),
                forall|jj: int|
                    0 <= jj < j ==> (self.buffer.column_at((#[trigger] to_mesh@[jj]).x, to_mesh@[jj].y) matches Some(cc)
                        && cc.spec_status() == ColumnStatus::Meshed),
            decreases to_mesh.len() - j,
        {
            let c = to_mesh[j];
            let ghost mid = self.buffer;
            let ghost key = spec_column_key(c.x, c.y);
            self.buffer.set_column_status(c, ColumnStatus::Meshed);
            proof {
                assert(around_ready(b0, to_mesh@[j as int], true));
                assert(b0.neighbour_ready(c, 4, true));
                assert(b0.columns@.contains_key(key));
                assert(mid.columns@.contains_key(key));
                lemma_full_status(self.buffer, mid, key, ColumnStatus::Meshed);
                assert(statuses_kept(self.buffer, mid));
                lemma_statuses_trans(b0, mid, self.buffer);
                lemma_same_chunks_trans(self.buffer, mid, b0);
                assert forall|jj: int|
                    0 <= jj < j + 1 implies (self.buffer.column_at((#[trigger] to_mesh@[jj]).x, to_mesh@[jj].y) matches Some(cc)
                        && cc.spec_status() == ColumnStatus::Meshed) by {
                    let p = to_mesh@[jj];
                    assert(mid.columns@.contains_key(spec_column_key(p.x, p.y)));
                }
                lemma_moved_step(self.buffer, mid, b0, to_mesh@.subrange(0, j as int), c, ColumnStatus::Meshed);
                assert(to_mesh@.subrange(0, j as int).push(c) =~= to_mesh@.subrange(0, j + 1));
            }
            j += 1;
        }
        proof {
            assert(to_mesh@.subrange(0, to_mesh.len() as int) =~= to_mesh@);
        }
        Some((to_mesh, faces))
    }

    /// Take a column that the server sent as `block_data`: store it decoded, then light
    /// each column that is ready for lighting, one after the other, then mesh each column
    /// that is ready for meshing, which changes statuses only. `None`, with nothing stored,
    /// when the data is not one whole chunk for each of the 64 or the column lies at the
    /// edge of the world. Otherwise `None` only when lighting reaches a column that holds a
    /// block of a kind the registry does not define, or meshing reaches a column with a
    /// chunk that fails the checks of `BlockMesher::can_mesh`.
    pub fn receive_column(&mut self, col: ChunkColumnPos, block_data: &Vec<Vec<u8>>) -> (r: Option<BuildOutput>)
        requires
            old(self).wf(),
        ensures
            final(self).wf(),
            final(self).textures() == old(self).textures(),
            final(self).registry() == old(self).registry(),
            !(column_decodable(block_data@.map_values(|v: Vec<u8>| v@)) && col_fits(col)) ==> r is None
                && final(self).buf().columns@ == old(self).buf().columns@,
            r is None && column_decodable(block_data@.map_values(|v: Vec<u8>| v@)) && col_fits(col) ==> exists|
                s1: ChunkBuffer,
            |
                #[trigger] decoded_into(s1, old(self).buf(), col, data_view(block_data@)) && statuses_kept(
                    final(self).buf(),
                    s1,
                ) && (light_stopped(final(self).buf(), s1, old(self).registry()) || mesh_stopped(
                    final(self).buf(),
                    s1,
                    old(self).registry(),
                    old(self).textures(),
                )),
            r matches Some(out) ==> {
                &&& column_decodable(block_data@.map_values(|v: Vec<u8>| v@))
                &&& col_fits(col)
                &&& (final(self).buf().column_at(col.x, col.y) matches Some(c) && status_stored(c.spec_status()))
                &&& forall|i: int|
                    0 <= i < out.propagated.len() ==> (#[trigger] out.propagated@[i]).spec_status()
                        == ColumnStatus::Propagated && (final(self).buf().column_at(
                        out.propagated@[i].col.x,
                        out.propagated@[i].col.y,
                    ) matches Some(c) && status_propagated(c.spec_status()))
                &&& forall|i: int|
                    0 <= i < out.meshed_columns.len() ==> (final(self).buf().column_at(
                        (#[trigger] out.meshed_columns@[i]).x,
                        out.meshed_columns@[i].y,
                    ) matches Some(c) && c.spec_status() == ColumnStatus::Meshed)
                &&& exists|s1: ChunkBuffer, s2: ChunkBuffer|
                    #![trigger decoded_into(s1, old(self).buf(), col, data_view(block_data@)), moved_to(s2, s1, cols_of(out.propagated@), ColumnStatus::Propagated)]
                    {
                        &&& decoded_into(s1, old(self).buf(), col, data_view(block_data@))
                        &&& lists_ready(cols_of(out.propagated@), s1, false)
                        &&& moved_to(s2, s1, cols_of(out.propagated@), ColumnStatus::Propagated)
                        &&& columns_lit(s2, s1, cols_of(out.propagated@), old(self).registry())
                        &&& lit_copies(s2, s1, out.propagated@, old(self).registry())
                        &&& lists_ready(out.meshed_columns@, s2, true)
                        &&& moved_to(final(self).buf(), s2, out.meshed_columns@, ColumnStatus::Meshed)
                        &&& same_chunks(final(self).buf(), s2)
                        &&& faces_view(out.meshed@) == columns_faces(s2, out.meshed_columns@, final(self).textures())
                    }
            },
    {
        if !(-2047 <= col.x && col.x <= 2046 && -2047 <= col.y && col.y <= 2046) {
            return None;
        }
        let column = match decode_column(col, block_data) {
            Some(c) => c,
            None => {
                return None;
            },
        };
        let ghost b0 = self.buffer;
        let ghost key = spec_column_key(col.x, col.y);
        let ghost gc = column;
        self.buffer.store_column(column);
        proof {
            assert forall|k: u32|
                #[trigger] self.buffer.columns@.contains_key(k) && status_stored(self.buffer.columns@[k].spec_status()) implies {
                &&& self.buffer.columns@[k].chunks.len() == 64
                &&& forall|z: int| 0 <= z < 64 ==> (#[trigger] self.buffer.columns@[k].chunks[z]).blocks.len() > 0
                &&& col_fits(self.buffer.columns@[k].col)
            } by {
                if k != key {
                    assert(b0.columns@.contains_key(k));
                } else {
                    let d = block_data@.map_values(|v: Vec<u8>| v@);
                    assert forall|z: int| 0 <= z < 64 implies (#[trigger] self.buffer.columns@[k].chunks[z]).blocks.len() > 0 by {
                        assert(d[z] == block_data@[z]@);
                        assert(chunk_data_blocks(d[z]) is Some);
                        assert(gc.chunks@[z].blocks@ == chunk_data_blocks(block_data@[z]@)->0);
                    }
                }
            }
        }
        let ghost b1 = self.buffer;
        let ghost data = data_view(block_data@);
        proof {
            assert forall|z: int| 0 <= z < 64 implies (#[trigger] b1.columns@[key].chunks[z]).pos == (ChunkPos {
                x: col.x,
                y: col.y,
                z: z as i16,
            }) && b1.columns@[key].chunks[z].blocks@ == chunk_data_blocks(data[z])->0 by {
                assert(data[z] == block_data@[z]@);
                assert(crate::chunk::chunk_buffer::chunk_wf_at(gc.chunks[z], col, z));
            }
            assert(b1.columns@.dom() =~= b0.columns@.dom().insert(key));
            assert(decoded_into(b1, b0, col, data));
        }
        let propagated = match self.light_ready() {
            Some(v) => v,
            None => {
                proof {
                    assert(b0 == old(self).buf());
                    assert(data == data_view(block_data@));
                    assert(decoded_into(b1, b0, col, data) && statuses_kept(self.buffer, b1));
                }
                return None;
            },
        };
        let ghost b2 = self.buffer;
        let (meshed_columns, meshed) = match self.mesh_ready() {
            Some(x) => x,
            None => {
                proof {
                    lemma_statuses_trans(b1, b2, self.buffer);
                    assert(b0 == old(self).buf());
                    assert(data == data_view(block_data@));
                    let c = choose|c: ChunkColumnPos|
                        #[trigger] listed_ready(b2, c, true) && !column_mesh_checked(b2, c, self.textures());
                    assert(columns_lit(b2, b1, cols_of(propagated@), old(self).registry()));
                    assert(listed_ready(b2, c, true));
                    assert(mesh_stopped(self.buffer, b1, old(self).registry(), old(self).textures()));
                    assert(decoded_into(b1, b0, col, data) && statuses_kept(self.buffer, b1));
                }
                return None;
            },
        };
        proof {
            lemma_statuses_trans(b1, b2, self.buffer);
            assert(b1.columns@.contains_key(key));
            assert forall|i: int|
                0 <= i < propagated.len() implies (#[trigger] propagated@[i]).spec_status() == ColumnStatus::Propagated
                && (self.buffer.column_at(propagated@[i].col.x, propagated@[i].col.y) matches Some(c)
                && status_propagated(c.spec_status())) by {
                let p = propagated@[i].col;
                assert(b2.column_at(p.x, p.y) matches Some(c) && status_propagated(c.spec_status()));
                assert(b2.columns@.contains_key(spec_column_key(p.x, p.y)));
            }
            assert(decoded_into(b1, b0, col, data) && moved_to(b2, b1, cols_of(propagated@), ColumnStatus::Propagated));
            assert(lists_ready(cols_of(propagated@), b1, false));
            assert(lists_ready(meshed_columns@, b2, true));
            assert(moved_to(self.buffer, b2, meshed_columns@, ColumnStatus::Meshed));
            assert(columns_lit(b2, b1, cols_of(propagated@), old(self).registry()));
            assert(lit_copies(b2, b1, propagated@, old(self).registry()));
            assert(same_chunks(self.buffer, b2));
            assert(faces_view(meshed@) == columns_faces(b2, meshed_columns@, self.textures()));
            assert(b0 == old(self).buf());
            assert(data == data_view(block_data@));
        }
        Some(BuildOutput { propagated, meshed_columns, meshed })
    }
}

} // verus!
