//! The client's view of the world: the buffer of columns it holds, which columns to request
//! from the server next, and editing blocks with their light.

use super::light::{chunk_of, keeps_shape, loaded_around, neighbour, propagated};
use super::light_edit::{
    block_set, bright_neighbours, lemma_loaded_kept, source_dirty, source_removal,
};
use super::light_removal::removal_done;
use super::world_sum::Pos;
use crate::block::blockregistry::{with_flags, BlockDef, BlockRegistry};
use crate::block::{
    spec_kind, spec_light, spec_solid, spec_transparent, spec_with_light, Block, BlockTrait, LightBlock,
    AIR_BLOCK, WATER_BLOCK_KIND,
};
use crate::chunk::spec_chunk_coord;
use crate::chunk::chunk_pos_set::ChunkPosSet;
use crate::chunk::chunk_buffer::chunk_wf_at;
use crate::chunk::Chunk;
use crate::comms::rle::{parse_rle, rle_check, rle_decodable, rle_decode_from};
use crate::comms::messages::{ClientMessage, ServerMessage};
use crate::comms::CommsError;
use crate::inventory::{held, Inventory};
use crate::chunk::chunkpos::{spec_chunk_of, ChunkPos};
use crate::chunk::chunk_buffer::{column_wf, spec_column_key, ChunkBuffer};
use crate::chunk::chunkpos::{dist_fits_i16, spec_dist_squared};
use crate::chunk::{ChunkColumn, ChunkColumnPos, ColumnStatus};
use std::collections::VecDeque;
use vstd::prelude::*;
use vstd::std_specs::iter::IteratorSpec;

verus! {

/// Whether the column at `c` has been requested: it is in the buffer with a status past new.
pub open spec fn requested(buf: ChunkBuffer, c: ChunkColumnPos) -> bool {
    match buf.column_at(c.x, c.y) {
        Some(column) => column.spec_status() != ColumnStatus::New,
        None => false,
    }
}

/// Neither coordinate of `c` is at the end of the `i16` range, so it has four neighbours.
pub open spec fn col_inner(c: ChunkColumnPos) -> bool {
    &&& i16::MIN < c.x < i16::MAX
    &&& i16::MIN < c.y < i16::MAX
}

/// `s` without the occurrences of `c`, in order.
pub open spec fn without(s: Seq<ChunkColumnPos>, c: ChunkColumnPos) -> Seq<ChunkColumnPos>
    decreases s.len(),
{
    if s.len() == 0 {
        Seq::empty()
    } else {
        without(s.drop_last(), c) + if s.last() != c {
            seq![s.last()]
        } else {
            Seq::empty()
        }
    }
}

/// `n` as a one-element sequence when it has not been requested, else empty.
pub open spec fn if_unrequested(buf: ChunkBuffer, n: ChunkColumnPos) -> Seq<ChunkColumnPos> {
    if requested(buf, n) {
        Seq::empty()
    } else {
        seq![n]
    }
}

/// The neighbours of `c` on the four sides (x + 1, x - 1, y + 1, y - 1) that have not been
/// requested, in that order.
pub open spec fn new_candidates(buf: ChunkBuffer, c: ChunkColumnPos) -> Seq<ChunkColumnPos> {
    if_unrequested(buf, ChunkColumnPos { x: (c.x + 1) as i16, y: c.y })
        + if_unrequested(buf, ChunkColumnPos { x: (c.x - 1) as i16, y: c.y })
        + if_unrequested(buf, ChunkColumnPos { x: c.x, y: (c.y + 1) as i16 })
        + if_unrequested(buf, ChunkColumnPos { x: c.x, y: (c.y - 1) as i16 })
}

/// `new` is `old` with an empty column marked requested at `c`.
pub open spec fn marked_requested(new: ChunkBuffer, old: ChunkBuffer, c: ChunkColumnPos) -> bool {
    &&& new.columns@.dom() == old.columns@.dom().insert(spec_column_key(c.x, c.y))
    &&& new.columns@[spec_column_key(c.x, c.y)].col == c
    &&& new.columns@[spec_column_key(c.x, c.y)].spec_status() == ColumnStatus::Requested
    &&& new.columns@[spec_column_key(c.x, c.y)].chunks@.len() == 0
    &&& forall|k: u32|
        #![trigger new.columns@[k]]
        k != spec_column_key(c.x, c.y) && old.columns@.contains_key(k) ==> new.columns@[k]
            == old.columns@[k]
}

/// The column at offset (dx, dy) from `center`.
pub open spec fn offset_col(center: ChunkColumnPos, dx: int, dy: int) -> ChunkColumnPos {
    ChunkColumnPos { x: (center.x + dx) as i16, y: (center.y + dy) as i16 }
}

/// (dx, dy) lies in the square of radius `p`.
pub open spec fn in_square(p: int, dx: int, dy: int) -> bool {
    -p <= dx <= p && -p <= dy <= p
}

/// Every column of the square of radius `p` around `center` that comes before offset
/// (dx, dy), x offsets first, has been requested.
pub open spec fn requested_before(buf: ChunkBuffer, center: ChunkColumnPos, p: int, dx: int, dy: int) -> bool {
    forall|a: int, b: int|
        in_square(p, a, b) && (a < dx || (a == dx && b < dy)) ==> #[trigger] requested(
            buf,
            offset_col(center, a, b),
        )
}

/// The square of radius `p` around `center` can be walked: its bounds and its columns'
/// neighbours fit in an `i16`.
pub open spec fn square_fits(center: ChunkColumnPos, p: int) -> bool {
    &&& i16::MIN < p < i16::MAX
    &&& p >= 0 ==> {
        &&& i16::MIN < center.x - p
        &&& center.x + p < i16::MAX
        &&& i16::MIN < center.y - p
        &&& center.y + p < i16::MAX
    }
}

/// Candidate `c` is within `range` columns of `center`, measured as the `i16` the squared
/// range gives.
pub open spec fn in_range(c: ChunkColumnPos, center: ChunkColumnPos, range: usize) -> bool {
    spec_dist_squared(c.x as int, c.y as int, 0, center.x as int, center.y as int, 0) <= (range
        * range) as i16
}

/// The frustum test can turn `c` down: there is a test and `false` is one of its answers
/// for `c`.
pub open spec fn rejected<F: Fn(&ChunkColumnPos) -> bool>(frustum: Option<&F>, c: ChunkColumnPos) -> bool {
    match frustum {
        Some(f) => call_ensures(*f, (&c,), false),
        None => false,
    }
}

/// The frustum test lets `c` pass: there is none, or `true` is one of its answers for `c`.
pub open spec fn accepted<F: Fn(&ChunkColumnPos) -> bool>(frustum: Option<&F>, c: ChunkColumnPos) -> bool {
    match frustum {
        Some(f) => call_ensures(*f, (&c,), true),
        None => true,
    }
}

/// The block that placing `block` puts in the world: lit at the light its definition gives,
/// when that is not zero.
pub open spec fn placed_block(reg: Seq<BlockDef>, block: Block) -> Block {
    let l = reg[spec_kind(block) as int].light;
    if l > 0 {
        spec_with_light(block, l)
    } else {
        block
    }
}

/// The replaced block carries light to take away: its definition gives light or it is lit.
pub open spec fn removes_light(reg: Seq<BlockDef>, old_block: Block) -> bool {
    reg[spec_kind(old_block) as int].light > 0 || spec_light(old_block) > 0
}

/// The first step of an edit at `w`: the block there becomes `nb`; when the replaced block
/// carried light, that light is taken away and light from other sources flows back.
pub open spec fn edit_placed(
    m1: ChunkBuffer,
    old: ChunkBuffer,
    w: Pos,
    old_block: Block,
    nb: Block,
    reg: Seq<BlockDef>,
    d0: Set<ChunkPos>,
    d1: Set<ChunkPos>,
) -> bool {
    if removes_light(reg, old_block) {
        exists|a: ChunkBuffer, mid: ChunkBuffer, pq: Seq<Pos>, dmid: Set<ChunkPos>|
            {
                &&& block_set(a, old, w, nb)
                &&& #[trigger] removal_done(
                    mid,
                    a,
                    false,
                    source_removal(w, spec_light(old_block)),
                    pq,
                    source_dirty(d0, w, spec_light(old_block)),
                    dmid,
                )
                &&& propagated(m1, mid, false, pq, dmid, d1)
            }
    } else {
        block_set(m1, old, w, nb) && d1 == d0
    }
}

/// The second step of an edit at `w`: a lit new block spreads its light; a transparent one
/// lets its bright neighbours spread theirs into it; otherwise nothing changes.
pub open spec fn edit_lit(m2: ChunkBuffer, m1: ChunkBuffer, w: Pos, nb: Block, d1: Set<ChunkPos>, d2: Set<ChunkPos>) -> bool {
    if spec_light(nb) > 0 {
        propagated(m2, m1, false, seq![w], d1, d2)
    } else if spec_transparent(nb) {
        propagated(m2, m1, false, bright_neighbours(m1, w), d1, d2)
    } else {
        m2 == m1 && d2 == d1
    }
}

/// The chunks to mesh again after block `w` changed: its own chunk, and the neighbouring
/// chunk on each axis where the block lies on that chunk's face.
pub open spec fn remesh_chunks(w: Pos) -> Set<ChunkPos> {
    let cp = spec_chunk_of(w.0, w.1, w.2);
    let lx = w.0 as int % 16;
    let ly = w.1 as int % 16;
    let lz = w.2 as int % 16;
    let sx = if lx == 0 {
        set![ChunkPos { x: (cp.x - 1) as i16, y: cp.y, z: cp.z }]
    } else if lx == 15 {
        set![ChunkPos { x: (cp.x + 1) as i16, y: cp.y, z: cp.z }]
    } else {
        Set::empty()
    };
    let sy = if ly == 0 {
        set![ChunkPos { x: cp.x, y: (cp.y - 1) as i16, z: cp.z }]
    } else if ly == 15 {
        set![ChunkPos { x: cp.x, y: (cp.y + 1) as i16, z: cp.z }]
    } else {
        Set::empty()
    };
    let sz = if lz == 0 {
        set![ChunkPos { x: cp.x, y: cp.y, z: (cp.z - 1) as i16 }]
    } else if lz == 15 {
        set![ChunkPos { x: cp.x, y: cp.y, z: (cp.z + 1) as i16 }]
    } else {
        Set::empty()
    };
    set![cp] + sx + sy + sz
}

/// The chunks marked for remeshing after block `w` changed are exactly the chunks that
/// hold `w` or one of its six face neighbours: the chunk on the far side of every chunk
/// face that `w` lies on, above and below as on the four other sides.
pub proof fn lemma_remesh_neighbours(w: Pos)
    requires
        i16::MIN < w.0 < i16::MAX,
        i16::MIN < w.1 < i16::MAX,
        i16::MIN < w.2 < i16::MAX,
    ensures
        remesh_chunks(w).contains(chunk_of(w)),
        forall|d: int| 0 <= d < 6 ==> remesh_chunks(w).contains(#[trigger] chunk_of(neighbour(w, d))),
        forall|c: ChunkPos|
            #[trigger] remesh_chunks(w).contains(c) ==> c == chunk_of(w) || exists|d: int|
                0 <= d < 6 && c == #[trigger] chunk_of(neighbour(w, d)),
{
    let cp = chunk_of(w);
    assert forall|d: int| 0 <= d < 6 implies remesh_chunks(w).contains(#[trigger] chunk_of(neighbour(w, d))) by {
        let n = neighbour(w, d);
        assert(chunk_of(n) == spec_chunk_of(n.0, n.1, n.2));
    }
    assert forall|c: ChunkPos| #[trigger] remesh_chunks(w).contains(c) implies c == chunk_of(w) || exists|d: int|
        0 <= d < 6 && c == #[trigger] chunk_of(neighbour(w, d)) by {
        if c != cp {
            if c.x != cp.x {
                if w.0 as int % 16 == 0 {
                    assert(c == chunk_of(neighbour(w, 1)));
                } else {
                    assert(c == chunk_of(neighbour(w, 0)));
                }
            } else if c.y != cp.y {
                if w.1 as int % 16 == 0 {
                    assert(c == chunk_of(neighbour(w, 3)));
                } else {
                    assert(c == chunk_of(neighbour(w, 2)));
                }
            } else {
                if w.2 as int % 16 == 0 {
                    assert(c == chunk_of(neighbour(w, 5)));
                } else {
                    assert(c == chunk_of(neighbour(w, 4)));
                }
            }
        }
    }
}

/// What an edit at `w` needs loaded around it: room to take away the light of the replaced
/// block, to spread the light of a lit new block, and to let light flow into a transparent one.
pub open spec fn edit_loaded(buf: ChunkBuffer, w: Pos, reg: Seq<BlockDef>, old_block: Block, nb: Block) -> bool {
    &&& removes_light(reg, old_block) && spec_light(old_block) != 0 ==> loaded_around(buf, w, 32)
    &&& spec_light(nb) > 0 ==> loaded_around(buf, w, 16)
    &&& spec_light(nb) == 0 && spec_transparent(nb) ==> loaded_around(buf, w, 17)
}

/// The blocks that chunk data `s` decodes to, when it is the run-length encoding of a
/// whole chunk: one block for a solid chunk or 4096 for a normal one.
pub open spec fn chunk_data_blocks(s: Seq<u8>) -> Option<Seq<Block>> {
    if rle_decodable(s) {
        match parse_rle(s) {
            Ok((v, _)) => if v.len() == 1 || v.len() == 4096 {
                Some(v)
            } else {
                None
            },
            Err(_) => None,
        }
    } else {
        None
    }
}

/// The data of a column: one piece of whole-chunk data for each of its 64 chunks.
pub open spec fn column_decodable(data: Seq<Seq<u8>>) -> bool {
    &&& data.len() == 64
    &&& forall|z: int| 0 <= z < 64 ==> (#[trigger] chunk_data_blocks(data[z])) is Some
}

/// Column `c` is ready for the next stage: for light (`propagated` false) it is stored and
/// all nine columns around it (itself included) are stored; for meshing it is propagated
/// and all nine are propagated.
pub open spec fn ready_for(buf: ChunkBuffer, c: ChunkColumn, propagated: bool) -> bool {
    &&& c.spec_status() == if propagated {
        ColumnStatus::Propagated
    } else {
        ColumnStatus::Stored
    }
    &&& forall|k: int| 0 <= k < 9 ==> buf.neighbour_ready(c.col, k, propagated)
}

/// What a ray stops at in world block (x, y, z): the block there, when its chunk is loaded
/// and initialized and the block is solid, or is water and water stops the ray.
pub open spec fn ray_stops_at(buf: ChunkBuffer, x: i16, y: i16, z: i16, hit_water: bool) -> Option<Block> {
    let b = buf.block_at(x, y, z);
    if buf.block_loaded(x, y, z) && (spec_solid(b) || (hit_water && spec_kind(b) == WATER_BLOCK_KIND)) {
        Some(b)
    } else {
        None
    }
}

/// Whether candidate `c` lies inside the `i16` range and its distance from `center` fits an
/// `i16`, as `WorldHandler::get_next_request` needs of every candidate.
pub fn candidate_fits(c: ChunkColumnPos, center: ChunkColumnPos) -> (r: bool)
    ensures
        r == (col_inner(c) && dist_fits_i16(c.x as int, c.y as int, 0, center.x as int, center.y as int, 0)),
{
    if c.x == i16::MIN || c.x == i16::MAX || c.y == i16::MIN || c.y == i16::MAX {
        return false;
    }
    let dx: i64 = center.x as i64 - c.x as i64;
    let dy: i64 = center.y as i64 - c.y as i64;
    if dx < -32768 || dx > 32767 || dy < -32768 || dy > 32767 {
        return false;
    }
    assert(dx * dx <= 0x4000_0000) by (nonlinear_arith)
        requires
            -32768 <= dx <= 32767,
    ;
    assert(dy * dy <= 0x4000_0000) by (nonlinear_arith)
        requires
            -32768 <= dy <= 32767,
    ;
    assert(dx * dx >= 0) by (nonlinear_arith);
    assert(dy * dy >= 0) by (nonlinear_arith);
    let dx2 = dx * dx;
    let dy2 = dy * dy;
    dx2 <= 32767 && dy2 <= 32767 && dx2 + dy2 <= 32767
}

/// The column of world block column (wbx, wby).
pub open spec fn block_column(wbx: i16, wby: i16) -> ChunkColumnPos {
    ChunkColumnPos { x: spec_chunk_coord(wbx as int) as i16, y: spec_chunk_coord(wby as int) as i16 }
}

/// The nine columns around the column of (wbx, wby) are stored.
pub open spec fn around_stored(buf: ChunkBuffer, wbx: i16, wby: i16) -> bool {
    forall|k: int| 0 <= k < 9 ==> buf.neighbour_ready(block_column(wbx, wby), k, false)
}

/// The kind of `selected` with the flags its definition gives it.
pub open spec fn flagged(reg: Seq<BlockDef>, selected: Block) -> Block {
    with_flags(spec_kind(selected), reg[spec_kind(selected) as int])
}

/// Placing `selected` at a block of column (wbx, wby) goes ahead: the columns around are
/// stored, no body is in the way and the inventory holds a block of its kind.
pub open spec fn place_allowed(buf: ChunkBuffer, inv: Map<Block, u32>, selected: Block, wbx: i16, wby: i16, occupied: bool) -> bool {
    &&& around_stored(buf, wbx, wby)
    &&& !occupied
    &&& held(inv, spec_kind(selected)) > 0
}

/// What setting `block` at `w` asks of the buffer: its kind is defined and, where its chunk
/// is loaded and the kind changes, the replaced kind is defined and the edit has room.
pub open spec fn edit_allowed(buf: ChunkBuffer, reg: Seq<BlockDef>, w: Pos, block: Block) -> bool {
    &&& spec_kind(block) < reg.len()
    &&& buf.block_loaded(w.0, w.1, w.2) ==> spec_kind(buf.block_at(w.0, w.1, w.2)) < reg.len()
    &&& buf.block_loaded(w.0, w.1, w.2) && spec_kind(buf.block_at(w.0, w.1, w.2)) != spec_kind(block) ==> edit_loaded(
        buf,
        w,
        reg,
        buf.block_at(w.0, w.1, w.2),
        placed_block(reg, block),
    )
}

/// `new` and the dirty set `d` are what setting `block` at `w` in `old` gives, as
/// `WorldHandler::set_block_add_dirty` sets it: nothing changes where the chunk is not
/// loaded or the kind stays; otherwise the block is placed, then lit.
pub open spec fn block_edited(
    new: ChunkBuffer,
    old: ChunkBuffer,
    w: Pos,
    block: Block,
    reg: Seq<BlockDef>,
    d0: Set<ChunkPos>,
    d: Set<ChunkPos>,
) -> bool {
    if !old.block_loaded(w.0, w.1, w.2) || spec_kind(old.block_at(w.0, w.1, w.2)) == spec_kind(block) {
        new == old && d == d0
    } else {
        exists|m1: ChunkBuffer, d1: Set<ChunkPos>, d2: Set<ChunkPos>|
            {
                &&& #[trigger] edit_placed(m1, old, w, old.block_at(w.0, w.1, w.2), placed_block(reg, block), reg, d0, d1)
                &&& #[trigger] edit_lit(new, m1, w, placed_block(reg, block), d1, d2)
                &&& d == d2.union(remesh_chunks(w))
            }
    }
}

/// The client's world: the buffer of columns, how far around the centre column to load, and
/// the columns that are candidates for the next request.
pub struct WorldHandler {
    pub chunks: ChunkBuffer,
    pub render_range: usize,
    pub prio_render_range: i16,
    pub center_col: ChunkColumnPos,
    block_registry: BlockRegistry,
    request_candidates: VecDeque<ChunkColumnPos>,
}

impl WorldHandler {
    /// The buffer of columns.
    pub closed spec fn buf(&self) -> ChunkBuffer {
        self.chunks
    }

    /// How far around the centre column columns are requested.
    pub closed spec fn range(&self) -> usize {
        self.render_range
    }

    /// How far around the centre column columns are requested first.
    pub closed spec fn prio_range(&self) -> i16 {
        self.prio_render_range
    }

    /// The column the buffer is centred on.
    pub closed spec fn center(&self) -> ChunkColumnPos {
        self.center_col
    }

    /// The block definitions the handler edits blocks with.
    pub closed spec fn registry(&self) -> Seq<BlockDef> {
        self.block_registry.spec_blocks()
    }

    /// The columns waiting to be requested, in the order they became candidates.
    pub closed spec fn candidates(&self) -> Seq<ChunkColumnPos> {
        self.request_candidates@
    }

    /// The handler of an empty buffer centred on `starting_column`, with no candidates and
    /// the columns within 4 of the centre requested first.
    pub fn new(render_range: usize, starting_column: ChunkColumnPos, block_registry: BlockRegistry) -> (r: WorldHandler)
        ensures
            r.buf().columns@ == Map::<u32, ChunkColumn>::empty(),
            r.buf().wf(),
            r.range() == render_range,
            r.prio_range() == 4,
            r.center() == starting_column,
            r.registry() == block_registry.spec_blocks(),
            r.candidates() == Seq::<ChunkColumnPos>::empty(),
    {
        WorldHandler {
            render_range,
            prio_render_range: 4,
            center_col: starting_column,
            chunks: ChunkBuffer::new(),
            block_registry,
            request_candidates: VecDeque::new(),
        }
    }

    pub fn set_buffer_position(&mut self, center_col: ChunkColumnPos)
        ensures
            final(self).center() == center_col,
            final(self).buf() == old(self).buf(),
            final(self).range() == old(self).range(),
            final(self).prio_range() == old(self).prio_range(),
            final(self).registry() == old(self).registry(),
            final(self).candidates() == old(self).candidates(),
    {
        self.center_col = center_col;
    }

    /// Record a status the column builder reported for `col`, if the column is in the buffer.
    pub fn receive_status(&mut self, col: ChunkColumnPos, status: ColumnStatus)
        requires
            old(self).buf().wf(),
        ensures
            final(self).buf().wf(),
            match old(self).buf().column_at(col.x, col.y) {
                Some(c) => {
                    &&& final(self).buf().columns@.dom() == old(self).buf().columns@.dom()
                    &&& final(self).buf().columns@[spec_column_key(col.x, col.y)].spec_status()
                        == status
                    &&& final(self).buf().columns@[spec_column_key(col.x, col.y)].col == c.col
                    &&& final(self).buf().columns@[spec_column_key(col.x, col.y)].chunks
                        == c.chunks
                    &&& forall|k: u32|
                        k != spec_column_key(col.x, col.y) && old(self).buf().columns@.contains_key(k)
                            ==> #[trigger] final(self).buf().columns@[k]
                            == old(self).buf().columns@[k]
                },
                None => final(self).buf().columns@ == old(self).buf().columns@,
            },
            final(self).range() == old(self).range(),
            final(self).prio_range() == old(self).prio_range(),
            final(self).center() == old(self).center(),
            final(self).registry() == old(self).registry(),
            final(self).candidates() == old(self).candidates(),
    {
        let ghost old_chunks = self.chunks;
        if let Some(column) = self.chunks.get_mut_column(col.x, col.y) {
            column.set_status(status);
        }
        proof {
            if old_chunks.column_at(col.x, col.y) is Some {
                assert forall|k: u32| #[trigger] self.chunks.columns@.contains_key(k) implies {
                    let column = self.chunks.columns@[k];
                    &&& k == spec_column_key(column.col.x, column.col.y)
                    &&& column_wf(column)
                } by {
                    assert(old_chunks.columns@.contains_key(k));
                }
                assert(self.chunks.columns@.dom() =~= old_chunks.columns@.dom());
            }
        }
    }

    /// Store a column in the buffer, replacing any column stored at its position.
    pub fn store_column(&mut self, column: ChunkColumn)
        requires
            old(self).buf().wf(),
            column_wf(column),
        ensures
            final(self).buf().wf(),
            final(self).buf().columns@ == old(self).buf().columns@.insert(
                spec_column_key(column.col.x, column.col.y),
                column,
            ),
            final(self).range() == old(self).range(),
            final(self).prio_range() == old(self).prio_range(),
            final(self).center() == old(self).center(),
            final(self).registry() == old(self).registry(),
            final(self).candidates() == old(self).candidates(),
    {
        self.chunks.store_column(column);
    }

    /// The block that stops a ray passing through world block (wbx, wby, wbz), if any: a
    /// solid block of a loaded, initialized chunk, or water where `hit_water` is set.
    pub fn ray_hit_block(&self, wbx: i16, wby: i16, wbz: i16, hit_water: bool) -> (r: Option<Block>)
        requires
            self.buf().wf(),
        ensures
            r == ray_stops_at(self.buf(), wbx, wby, wbz, hit_water),
    {
        let cp = ChunkPos::from_world_block_coords(wbx, wby, wbz);
        let loaded = match self.chunks.get_chunk_pos(cp) {
            Some(chunk) => chunk.is_initialized(),
            None => false,
        };
        if !loaded {
            return None;
        }
        let b = self.chunks.get_block(wbx, wby, wbz);
        if b.is_solid() || (hit_water && b.kind() == Block::water_block()) {
            Some(b)
        } else {
            None
        }
    }

    /// Whether `get_next_request` can run on the handler as it stands: the near square
    /// around the centre fits the `i16` range, every candidate fits as `candidate_fits`
    /// checks it, and the square of the render range fits a `usize`.
    pub fn can_request(&self) -> (r: bool)
        ensures
            r == (square_fits(self.center(), self.prio_range() as int) && (forall|i: int|
                0 <= i < self.candidates().len() ==> {
                    let c = #[trigger] self.candidates()[i];
                    &&& col_inner(c)
                    &&& dist_fits_i16(c.x as int, c.y as int, 0, self.center().x as int, self.center().y as int, 0)
                }) && self.range() * self.range() <= usize::MAX),
    {
        let p = self.prio_render_range;
        if p == i16::MIN || p == i16::MAX {
            return false;
        }
        if p >= 0 {
            let cx = self.center_col.x as i32;
            let cy = self.center_col.y as i32;
            let pp = p as i32;
            if !(-32768 < cx - pp && cx + pp < 32767 && -32768 < cy - pp && cy + pp < 32767) {
                return false;
            }
        }
        if self.render_range.checked_mul(self.render_range).is_none() {
            assert(self.range() * self.range() > usize::MAX);
            return false;
        }
        let mut i: usize = 0;
        while i < self.request_candidates.len()
            invariant
                i <= self.request_candidates@.len(),
                forall|j: int|
                    0 <= j < i ==> {
                        let c = #[trigger] self.request_candidates@[j];
                        &&& col_inner(c)
                        &&& dist_fits_i16(c.x as int, c.y as int, 0, self.center_col.x as int, self.center_col.y as int, 0)
                    },
            decreases self.request_candidates@.len() - i,
        {
            if !candidate_fits(self.request_candidates[i], self.center_col) {
                proof {
                    let c = self.candidates()[i as int];
                    assert(!(col_inner(c) && dist_fits_i16(
                        c.x as int,
                        c.y as int,
                        0,
                        self.center().x as int,
                        self.center().y as int,
                        0,
                    )));
                }
                return false;
            }
            i += 1;
        }
        true
    }

    /// Drop the column at `col` from the buffer.
    pub fn remove_column(&mut self, col: &ChunkColumnPos)
        requires
            old(self).buf().wf(),
        ensures
            final(self).buf().wf(),
            final(self).buf().columns@ == old(self).buf().columns@.remove(
                spec_column_key(col.x, col.y),
            ),
            final(self).range() == old(self).range(),
            final(self).prio_range() == old(self).prio_range(),
            final(self).center() == old(self).center(),
            final(self).registry() == old(self).registry(),
            final(self).candidates() == old(self).candidates(),
    {
        let key = crate::chunk::chunk_buffer::column_key(col.x, col.y);
        self.chunks.columns.remove(&key);
    }

    /// Queue `col` as a candidate for requesting unless it has been requested.
    fn try_add_candidate(&mut self, col: &ChunkColumnPos)
        ensures
            final(self).candidates() == old(self).candidates() + if_unrequested(old(self).buf(), *col),
            final(self).buf() == old(self).buf(),
            final(self).range() == old(self).range(),
            final(self).prio_range() == old(self).prio_range(),
            final(self).center() == old(self).center(),
            final(self).registry() == old(self).registry(),
    {
        if !self.chunks.is_column_requested(col) {
            self.request_candidates.push_back(*col);
        }
        proof {
            assert(self.candidates() =~= old(self).candidates() + if_unrequested(old(self).buf(), *col));
        }
    }

    /// Mark the column at `col` as requested (i.e. awaiting receive from the server): it
    /// stops being a candidate, its unrequested neighbours become candidates, and an empty
    /// column marked requested takes its place in the buffer.
    fn set_column_requested(&mut self, col: &ChunkColumnPos)
        requires
            old(self).buf().wf(),
            col_inner(*col),
        ensures
            final(self).buf().wf(),
            marked_requested(final(self).buf(), old(self).buf(), *col),
            final(self).candidates() == without(old(self).candidates(), *col) + new_candidates(
                old(self).buf(),
                *col,
            ),
            final(self).range() == old(self).range(),
            final(self).prio_range() == old(self).prio_range(),
            final(self).center() == old(self).center(),
            final(self).registry() == old(self).registry(),
    {
        let ghost old_cands = self.candidates();
        let mut kept: VecDeque<ChunkColumnPos> = VecDeque::new();
        let mut i: usize = 0;
        while i < self.request_candidates.len()
            invariant
                i <= self.request_candidates.len(),
                self.request_candidates@ == old_cands,
                kept@ == without(old_cands.subrange(0, i as int), *col),
            decreases self.request_candidates.len() - i,
        {
            let c = self.request_candidates[i];
            if c != *col {
                kept.push_back(c);
            }
            proof {
                assert(old_cands.subrange(0, i + 1).drop_last() =~= old_cands.subrange(0, i as int));
                assert(kept@ =~= without(old_cands.subrange(0, i + 1), *col));
            }
            i += 1;
        }
        proof {
            assert(old_cands.subrange(0, old_cands.len() as int) =~= old_cands);
        }
        self.request_candidates = kept;
        let ghost mid = self.candidates();
        self.try_add_candidate(&col.xp());
        self.try_add_candidate(&col.xm());
        self.try_add_candidate(&col.yp());
        self.try_add_candidate(&col.ym());
        proof {
            assert(self.candidates() =~= mid + new_candidates(old(self).buf(), *col));
        }
        let ghost before = self.chunks;
        self.chunks.store_column(ChunkColumn::new(*col, ColumnStatus::Requested, Vec::new()));
        proof {
            assert(self.chunks.columns@.dom() =~= before.columns@.dom().insert(
                spec_column_key(col.x, col.y),
            ));
        }
    }
    /// The next column to request from the server, marked requested: the first column of
    /// the square of radius `prio_render_range` around the centre (x offsets first) that has
    /// not been requested; when all have been, the first candidate within `render_range`
    /// that the frustum test lets pass. `None`, with nothing changed, when there is none.
    pub fn get_next_request<F: Fn(&ChunkColumnPos) -> bool>(&mut self, frustum: Option<&F>) -> (r: Option<ChunkColumnPos>)
        requires
            old(self).buf().wf(),
            square_fits(old(self).center(), old(self).prio_range() as int),
            forall|i: int|
                0 <= i < old(self).candidates().len() ==> {
                    let c = #[trigger] old(self).candidates()[i];
                    &&& col_inner(c)
                    &&& dist_fits_i16(c.x as int, c.y as int, 0, old(self).center().x as int, old(self).center().y as int, 0)
                },
            old(self).range() * old(self).range() <= usize::MAX,
            frustum matches Some(f) ==> forall|c: &ChunkColumnPos| f.requires((c,)),
        ensures
            final(self).buf().wf(),
            final(self).range() == old(self).range(),
            final(self).prio_range() == old(self).prio_range(),
            final(self).center() == old(self).center(),
            final(self).registry() == old(self).registry(),
            match r {
                Some(c) => {
                    &&& marked_requested(final(self).buf(), old(self).buf(), c)
                    &&& final(self).candidates() == without(old(self).candidates(), c) + new_candidates(
                        old(self).buf(),
                        c,
                    )
                    &&& ((exists|a: int, b: int|
                        in_square(old(self).prio_range() as int, a, b) && !requested(
                            old(self).buf(),
                            #[trigger] offset_col(old(self).center(), a, b),
                        )) ==> exists|a: int, b: int|
                        in_square(old(self).prio_range() as int, a, b) && c == #[trigger] offset_col(
                            old(self).center(),
                            a,
                            b,
                        ) && !requested(old(self).buf(), c) && requested_before(
                            old(self).buf(),
                            old(self).center(),
                            old(self).prio_range() as int,
                            a,
                            b,
                        ))
                    &&& ((forall|a: int, b: int|
                        in_square(old(self).prio_range() as int, a, b) ==> requested(
                            old(self).buf(),
                            #[trigger] offset_col(old(self).center(), a, b),
                        )) ==> exists|i: int|
                        0 <= i < old(self).candidates().len() && #[trigger] old(self).candidates()[i] == c
                            && in_range(c, old(self).center(), old(self).range()) && accepted(
                            frustum,
                            c,
                        ) && forall|j: int|
                            0 <= j < i && in_range(
                                #[trigger] old(self).candidates()[j],
                                old(self).center(),
                                old(self).range(),
                            ) ==> rejected(frustum, old(self).candidates()[j]))
                },
                None => {
                    &&& final(self).buf().columns@ == old(self).buf().columns@
                    &&& final(self).candidates() == old(self).candidates()
                    &&& forall|a: int, b: int|
                        in_square(old(self).prio_range() as int, a, b) ==> requested(
                            old(self).buf(),
                            #[trigger] offset_col(old(self).center(), a, b),
                        )
                    &&& forall|j: int|
                        0 <= j < old(self).candidates().len() && in_range(
                            #[trigger] old(self).candidates()[j],
                            old(self).center(),
                            old(self).range(),
                        ) ==> rejected(frustum, old(self).candidates()[j])
                },
            },
    {
        let ghost buf = self.chunks;
        let ghost s0 = *self;
        let ghost p = self.prio_render_range as int;
        // Prioritize nearby columns
        let center_col = self.center_col;
        let prio = self.prio_render_range;
        let mut dx: i16 = -prio;
        while dx < prio + 1
            invariant
                *self == s0,
                s0 == *old(self),
                self.chunks == buf,
                self.center_col == center_col,
                self.prio_render_range == prio,
                p == prio,
                buf.wf(),
                square_fits(center_col, p),
                -p <= dx,
                p < 0 || dx <= p + 1,
                requested_before(buf, center_col, p, dx as int, -p),
            decreases p + 1 - dx,
        {
            let mut dy: i16 = -prio;
            while dy < prio + 1
                invariant
                    *self == s0,
                    s0 == *old(self),
                    self.chunks == buf,
                    self.center_col == center_col,
                    self.prio_render_range == prio,
                    p == prio,
                    buf.wf(),
                    square_fits(center_col, p),
                    -p <= dx <= p,
                    -p <= dy,
                    dy <= p + 1,
                    requested_before(buf, center_col, p, dx as int, dy as int),
                decreases p + 1 - dy,
            {
                let col = ChunkColumnPos::new(center_col.x + dx, center_col.y + dy);
                assert(col == offset_col(center_col, dx as int, dy as int));
                if !self.chunks.is_column_requested(&col) {
                    self.set_column_requested(&col);
                    return Some(col);
                }
                dy = dy + 1;
            }
            assert forall|a: int, b: int|
                in_square(p, a, b) && (a < dx + 1 || (a == dx + 1 && b < -p)) implies #[trigger] requested(
                buf,
                offset_col(center_col, a, b),
            ) by {
                if a == dx {
                    assert(a == dx && b < dy);
                }
            }
            dx = dx + 1;
        }
        assert forall|a: int, b: int| in_square(p, a, b) implies #[trigger] requested(
            buf,
            offset_col(center_col, a, b),
        ) by {
            assert(a < dx);
        }
        // Check the rest that are not too far and in the horizontal camera frustum
        let dst_sq = (self.render_range * self.render_range) as i16;
        let ghost cands = self.request_candidates@;
        assert forall|k: int| 0 <= k < cands.len() implies {
            let c = #[trigger] cands[k];
            &&& col_inner(c)
            &&& dist_fits_i16(c.x as int, c.y as int, 0, center_col.x as int, center_col.y as int, 0)
        } by {
            assert(cands[k] == old(self).candidates()[k]);
        }
        let mut col_opt: Option<ChunkColumnPos> = None;
        let mut i: usize = 0;
        while i < self.request_candidates.len()
            invariant_except_break
                col_opt is None,
                forall|j: int|
                    0 <= j < i && in_range(#[trigger] cands[j], center_col, self.render_range) ==> rejected(
                        frustum,
                        cands[j],
                    ),
            invariant
                *self == s0,
                self.chunks == buf,
                self.request_candidates@ == cands,
                self.center_col == center_col,
                dst_sq == (self.render_range * self.render_range) as i16,
                i <= cands.len(),
                forall|k: int|
                    0 <= k < cands.len() ==> {
                        let c = #[trigger] cands[k];
                        &&& col_inner(c)
                        &&& dist_fits_i16(c.x as int, c.y as int, 0, center_col.x as int, center_col.y as int, 0)
                    },
                frustum matches Some(f) ==> forall|c: &ChunkColumnPos| f.requires((c,)),
            ensures
                *self == s0,
                self.chunks == buf,
                self.request_candidates@ == cands,
                match col_opt {
                    Some(c) => exists|k: int|
                        0 <= k < cands.len() && #[trigger] cands[k] == c && in_range(c, center_col, self.render_range)
                            && accepted(frustum, c) && forall|j: int|
                            0 <= j < k && in_range(#[trigger] cands[j], center_col, self.render_range)
                                ==> rejected(frustum, cands[j]),
                    None => forall|j: int|
                        0 <= j < cands.len() && in_range(#[trigger] cands[j], center_col, self.render_range)
                            ==> rejected(frustum, cands[j]),
                },
            decreases cands.len() - i,
        {
            let candidate = self.request_candidates[i];
            assert(candidate == cands[i as int]);
            if candidate.dist_squared_from(&center_col) <= dst_sq {
                match frustum {
                    Some(f) => {
                        if f(&candidate) {
                            col_opt = Some(candidate);
                            break;
                        }
                    },
                    None => {
                        col_opt = Some(candidate);
                        break;
                    },
                }
            }
            i += 1;
        }
        if let Some(col) = col_opt {
            let ghost k = choose|k: int|
                0 <= k < cands.len() && #[trigger] cands[k] == col && in_range(col, center_col, self.render_range)
                    && accepted(frustum, col) && forall|j: int|
                    0 <= j < k && in_range(#[trigger] cands[j], center_col, self.render_range)
                        ==> rejected(frustum, cands[j]);
            assert(col_inner(cands[k]));
            self.set_column_requested(&col);
        }
        col_opt
    }
    /// Set a block in the buffer and add any chunks that need meshing to the dirty chunks
    /// set. Nothing happens where the block's chunk is not loaded and initialized, or where
    /// the block there is of the same kind. Otherwise the new block, lit at its definition's
    /// light, replaces the old one (taking away the old one's light if it carried any), then
    /// its own light spreads, or light flows into it if it is transparent; its chunk and the
    /// chunks whose face it lies on are marked dirty.
    #[verifier::spinoff_prover]
    #[verifier::rlimit(40)]
    pub fn set_block_add_dirty(&mut self, wbx: i16, wby: i16, wbz: i16, block: Block, dirty_chunks: &mut ChunkPosSet)
        requires
            old(self).buf().wf(),
            old(dirty_chunks).wf(),
            spec_kind(block) < old(self).registry().len(),
            old(self).buf().block_loaded(wbx, wby, wbz) ==> spec_kind(old(self).buf().block_at(wbx, wby, wbz))
                < old(self).registry().len(),
            old(self).buf().block_loaded(wbx, wby, wbz) && spec_kind(old(self).buf().block_at(wbx, wby, wbz))
                != spec_kind(block) ==> edit_loaded(
                old(self).buf(),
                (wbx, wby, wbz),
                old(self).registry(),
                old(self).buf().block_at(wbx, wby, wbz),
                placed_block(old(self).registry(), block),
            ),
        ensures
            final(self).buf().wf(),
            final(dirty_chunks).wf(),
            final(self).range() == old(self).range(),
            final(self).prio_range() == old(self).prio_range(),
            final(self).center() == old(self).center(),
            final(self).registry() == old(self).registry(),
            final(self).candidates() == old(self).candidates(),
            !old(self).buf().block_loaded(wbx, wby, wbz) || spec_kind(old(self).buf().block_at(wbx, wby, wbz))
                == spec_kind(block) ==> {
                &&& final(self).buf() == old(self).buf()
                &&& final(dirty_chunks)@ == old(dirty_chunks)@
            },
            old(self).buf().block_loaded(wbx, wby, wbz) && spec_kind(old(self).buf().block_at(wbx, wby, wbz))
                != spec_kind(block) ==> exists|m1: ChunkBuffer, d1: Set<ChunkPos>, d2: Set<ChunkPos>|
                {
                    &&& #[trigger] edit_placed(
                        m1,
                        old(self).buf(),
                        (wbx, wby, wbz),
                        old(self).buf().block_at(wbx, wby, wbz),
                        placed_block(old(self).registry(), block),
                        old(self).registry(),
                        old(dirty_chunks)@,
                        d1,
                    )
                    &&& #[trigger] edit_lit(
                        final(self).buf(),
                        m1,
                        (wbx, wby, wbz),
                        placed_block(old(self).registry(), block),
                        d1,
                        d2,
                    )
                    &&& final(dirty_chunks)@ == d2.union(remesh_chunks((wbx, wby, wbz)))
                },
            old(self).buf().block_loaded(wbx, wby, wbz) && spec_kind(old(self).buf().block_at(wbx, wby, wbz))
                != spec_kind(block) && i16::MIN < wbx < i16::MAX && i16::MIN < wby < i16::MAX && i16::MIN < wbz
                < i16::MAX ==> {
                &&& final(dirty_chunks)@.contains(chunk_of((wbx, wby, wbz)))
                &&& forall|d: int|
                    0 <= d < 6 ==> final(dirty_chunks)@.contains(#[trigger] chunk_of(neighbour((wbx, wby, wbz), d)))
            },
    {
        let ghost old_buf = self.chunks;
        let ghost reg = self.block_registry.spec_blocks();
        let ghost w: Pos = (wbx, wby, wbz);
        let ghost d0 = dirty_chunks@;
        // Get and check the chunk and block
        let chunk_pos = ChunkPos::from_world_block_coords(wbx, wby, wbz);
        let loaded = match self.chunks.get_chunk_pos(chunk_pos) {
            Some(chunk) => chunk.is_initialized(),
            None => false,
        };
        if !loaded {
            return;
        }
        let old_block = self.chunks.get_block(wbx, wby, wbz);
        let mut new_block = block;
        if old_block.kind() == new_block.kind() {
            // No need to do anything if the block does not change
            return;
        }
        let new_block_light = self.block_registry.get(new_block).light;
        if new_block_light > 0 {
            new_block.set_light(new_block_light);
        }
        assert(new_block == placed_block(reg, block));
        proof {
            crate::chunk::lemma_shr4(wbx);
            crate::chunk::lemma_shr4(wby);
            crate::chunk::lemma_shr4(wbz);
        }
        let x_rel = wbx - chunk_pos.x * 16;
        let y_rel = wby - chunk_pos.y * 16;
        let z_rel = wbz - chunk_pos.z * 16;
        // If a light emitting block is removed, the propagated light should also be removed.
        let old_block_light = self.block_registry.get(old_block).light;
        if old_block_light > 0 || old_block.get_light() > 0 {
            self.chunks.remove_block_and_light(wbx, wby, wbz, old_block.get_light(), new_block, dirty_chunks);
        } else {
            self.chunks.set_block(wbx, wby, wbz, new_block);
            proof {
                assert(block_set(self.chunks, old_buf, w, new_block));
            }
        }
        let ghost m1 = self.chunks;
        let ghost d1 = dirty_chunks@;
        assert(edit_placed(m1, old_buf, w, old_block, new_block, reg, d0, d1));
        assert(keeps_shape(m1, old_buf));
        if new_block.get_light() > 0 {
            // Propagate light from this block outward
            proof {
                lemma_loaded_kept(m1, old_buf, w, 16);
            }
            self.chunks.propagate_light(wbx, wby, wbz, dirty_chunks);
        } else if new_block.is_transparent() {
            // Propagate light from other sources after this light block was removed
            proof {
                lemma_loaded_kept(m1, old_buf, w, 17);
            }
            self.chunks.propagate_light_after_removal(wbx, wby, wbz, dirty_chunks);
        }
        let ghost d2 = dirty_chunks@;
        assert(edit_lit(self.chunks, m1, w, new_block, d1, d2));
        // Determine which chunks need remeshing
        dirty_chunks.insert(chunk_pos);
        if x_rel == 0 {
            dirty_chunks.insert(ChunkPos::new(chunk_pos.x - 1, chunk_pos.y, chunk_pos.z));
        } else if x_rel == 15 {
            dirty_chunks.insert(ChunkPos::new(chunk_pos.x + 1, chunk_pos.y, chunk_pos.z));
        }
        if y_rel == 0 {
            dirty_chunks.insert(ChunkPos::new(chunk_pos.x, chunk_pos.y - 1, chunk_pos.z));
        } else if y_rel == 15 {
            dirty_chunks.insert(ChunkPos::new(chunk_pos.x, chunk_pos.y + 1, chunk_pos.z));
        }
        if z_rel == 0 {
            dirty_chunks.insert(ChunkPos::new(chunk_pos.x, chunk_pos.y, chunk_pos.z - 1));
        } else if z_rel == 15 {
            dirty_chunks.insert(ChunkPos::new(chunk_pos.x, chunk_pos.y, chunk_pos.z + 1));
        }
        proof {
            assert(dirty_chunks@ =~= d2.union(remesh_chunks(w)));
            assert(keeps_shape(self.chunks, m1));
            assert(old(self).buf() == old_buf);
            assert(old(self).registry() == reg);
            assert(edit_placed(
                m1,
                old(self).buf(),
                (wbx, wby, wbz),
                old(self).buf().block_at(wbx, wby, wbz),
                placed_block(old(self).registry(), block),
                old(self).registry(),
                old(dirty_chunks)@,
                d1,
            ));
            assert(edit_lit(self.buf(), m1, (wbx, wby, wbz), placed_block(old(self).registry(), block), d1, d2));
            if i16::MIN < wbx < i16::MAX && i16::MIN < wby < i16::MAX && i16::MIN < wbz < i16::MAX {
                lemma_remesh_neighbours(w);
            }
        }
    }

    /// The player places `selected` at (wbx, wby, wbz): only where the nine columns around
    /// the block's column are stored, no body stands in the way (`occupied`, which the
    /// caller measures) and the inventory holds a block of its kind. Then one block of the
    /// kind leaves the inventory, the kind with the flags of its definition is set as
    /// `set_block_add_dirty` sets it, and the message telling the server is returned.
    pub fn place_block(
        &mut self,
        inventory: &mut Inventory,
        registry: &BlockRegistry,
        selected: Block,
        wbx: i16,
        wby: i16,
        wbz: i16,
        occupied: bool,
        dirty_chunks: &mut ChunkPosSet,
    ) -> (r: Option<ClientMessage>)
        requires
            old(self).buf().wf(),
            old(dirty_chunks).wf(),
            registry.spec_blocks() == old(self).registry(),
            spec_kind(selected) < old(self).registry().len(),
            old(self).buf().neighbours_checkable(block_column(wbx, wby), false),
            place_allowed(old(self).buf(), old(inventory)@, selected, wbx, wby, occupied) ==> edit_allowed(
                old(self).buf(),
                old(self).registry(),
                (wbx, wby, wbz),
                flagged(old(self).registry(), selected),
            ),
        ensures
            final(self).buf().wf(),
            final(dirty_chunks).wf(),
            final(self).range() == old(self).range(),
            final(self).prio_range() == old(self).prio_range(),
            final(self).center() == old(self).center(),
            final(self).registry() == old(self).registry(),
            final(self).candidates() == old(self).candidates(),
            if place_allowed(old(self).buf(), old(inventory)@, selected, wbx, wby, occupied) {
                &&& r == Some(ClientMessage::SetBlock { wbx, wby, wbz, block: spec_kind(selected) })
                &&& final(inventory)@ == old(inventory)@.insert(
                    spec_kind(selected),
                    (held(old(inventory)@, spec_kind(selected)) - 1) as u32,
                )
                &&& block_edited(
                    final(self).buf(),
                    old(self).buf(),
                    (wbx, wby, wbz),
                    flagged(old(self).registry(), selected),
                    old(self).registry(),
                    old(dirty_chunks)@,
                    final(dirty_chunks)@,
                )
            } else {
                &&& r is None
                &&& final(inventory)@ == old(inventory)@
                &&& final(self).buf() == old(self).buf()
                &&& final(dirty_chunks)@ == old(dirty_chunks)@
            },
    {
        let col = ChunkColumnPos::from_world_block_coords(wbx, wby);
        proof {
            crate::chunk::lemma_shr4(wbx);
            crate::chunk::lemma_shr4(wby);
            assert(col == block_column(wbx, wby));
        }
        if !self.chunks.are_all_neighbours_stored(col) || occupied {
            return None;
        }
        let kind = selected.kind();
        if inventory.count(kind) == 0 {
            return None;
        }
        inventory.remove(kind, 1);
        assert(spec_kind(kind) == kind) by (bit_vector)
            requires
                kind < 0x1000,
        ;
        let block = registry.set_block_flags(kind);
        self.set_block_add_dirty(wbx, wby, wbz, block, dirty_chunks);
        Some(ClientMessage::SetBlock { wbx, wby, wbz, block: kind })
    }

    /// Apply a message from the server to the world while the game runs: a block that was
    /// set elsewhere is set here, with the flags of its kind's definition, as
    /// `set_block_add_dirty` sets it. Returns whether the message was for the world; the
    /// messages about players are the caller's. Columns come through the world builder and
    /// the sign-in confirmation only at the start, so neither is taken here.
    pub fn apply_server_message(&mut self, message: &ServerMessage, dirty_chunks: &mut ChunkPosSet) -> (r: bool)
        requires
            old(self).buf().wf(),
            old(dirty_chunks).wf(),
            !(message is ChunkColumn),
            !(message is SignInConfirm),
            *message matches ServerMessage::SetBlock { wbx, wby, wbz, block } ==> {
                &&& spec_kind(block) < old(self).registry().len()
                &&& edit_allowed(old(self).buf(), old(self).registry(), (wbx, wby, wbz), flagged(old(self).registry(), block))
            },
        ensures
            final(self).buf().wf(),
            final(dirty_chunks).wf(),
            final(self).range() == old(self).range(),
            final(self).prio_range() == old(self).prio_range(),
            final(self).center() == old(self).center(),
            final(self).registry() == old(self).registry(),
            final(self).candidates() == old(self).candidates(),
            r == message is SetBlock,
            match *message {
                ServerMessage::SetBlock { wbx, wby, wbz, block } => block_edited(
                    final(self).buf(),
                    old(self).buf(),
                    (wbx, wby, wbz),
                    flagged(old(self).registry(), block),
                    old(self).registry(),
                    old(dirty_chunks)@,
                    final(dirty_chunks)@,
                ),
                _ => final(self).buf() == old(self).buf() && final(dirty_chunks)@ == old(dirty_chunks)@,
            },
    {
        match message {
            ServerMessage::SetBlock { wbx, wby, wbz, block } => {
                let kind = block.kind();
                assert(spec_kind(kind) == kind) by (bit_vector)
                    requires
                        kind < 0x1000,
                ;
                let flagged_block = self.block_registry.set_block_flags(kind);
                self.set_block_add_dirty(*wbx, *wby, *wbz, flagged_block, dirty_chunks);
                true
            },
            _ => false,
        }
    }

    /// The player digs out the block at (wbx, wby, wbz): only where the nine columns around
    /// the block's column are stored. Then a block of its kind goes into the inventory, air
    /// is set in its place as `set_block_add_dirty` sets it, and the message telling the
    /// server is returned.
    pub fn dig_block(
        &mut self,
        inventory: &mut Inventory,
        wbx: i16,
        wby: i16,
        wbz: i16,
        dirty_chunks: &mut ChunkPosSet,
    ) -> (r: Option<ClientMessage>)
        requires
            old(self).buf().wf(),
            old(dirty_chunks).wf(),
            old(self).buf().neighbours_checkable(block_column(wbx, wby), false),
            around_stored(old(self).buf(), wbx, wby) ==> {
                &&& held(old(inventory)@, spec_kind(old(self).buf().block_at(wbx, wby, wbz))) + 1 <= u32::MAX
                &&& edit_allowed(old(self).buf(), old(self).registry(), (wbx, wby, wbz), AIR_BLOCK)
            },
        ensures
            final(self).buf().wf(),
            final(dirty_chunks).wf(),
            final(self).range() == old(self).range(),
            final(self).prio_range() == old(self).prio_range(),
            final(self).center() == old(self).center(),
            final(self).registry() == old(self).registry(),
            final(self).candidates() == old(self).candidates(),
            if around_stored(old(self).buf(), wbx, wby) {
                let kind = spec_kind(old(self).buf().block_at(wbx, wby, wbz));
                &&& r == Some(ClientMessage::SetBlock { wbx, wby, wbz, block: AIR_BLOCK })
                &&& final(inventory)@ == old(inventory)@.insert(kind, (held(old(inventory)@, kind) + 1) as u32)
                &&& block_edited(
                    final(self).buf(),
                    old(self).buf(),
                    (wbx, wby, wbz),
                    AIR_BLOCK,
                    old(self).registry(),
                    old(dirty_chunks)@,
                    final(dirty_chunks)@,
                )
            } else {
                &&& r is None
                &&& final(inventory)@ == old(inventory)@
                &&& final(self).buf() == old(self).buf()
                &&& final(dirty_chunks)@ == old(dirty_chunks)@
            },
    {
        let col = ChunkColumnPos::from_world_block_coords(wbx, wby);
        proof {
            crate::chunk::lemma_shr4(wbx);
            crate::chunk::lemma_shr4(wby);
            assert(col == block_column(wbx, wby));
        }
        let block = self.chunks.get_block(wbx, wby, wbz);
        if !self.chunks.are_all_neighbours_stored(col) {
            return None;
        }
        inventory.add(block.kind(), 1);
        self.set_block_add_dirty(wbx, wby, wbz, AIR_BLOCK, dirty_chunks);
        Some(ClientMessage::SetBlock { wbx, wby, wbz, block: AIR_BLOCK })
    }
}

/// The column at `col` that the server sent as `block_data`, stored: each chunk decoded from
/// its data, bottom up. `None` where the data is not one whole chunk for each of the 64.
pub fn decode_column(col: ChunkColumnPos, block_data: &Vec<Vec<u8>>) -> (r: Option<ChunkColumn>)
    ensures
        r is Some <==> column_decodable(block_data@.map_values(|v: Vec<u8>| v@)),
        match r {
            Some(c) => {
                &&& c.col == col
                &&& c.spec_status() == ColumnStatus::Stored
                &&& column_wf(c)
                &&& c.chunks.len() == 64
                &&& forall|z: int|
                    0 <= z < 64 ==> (#[trigger] c.chunks@[z]).blocks@ == chunk_data_blocks(
                        block_data@[z]@,
                    )->0
            },
            None => true,
        },
{
    let ghost data = block_data@.map_values(|v: Vec<u8>| v@);
    if block_data.len() != 64 {
        return None;
    }
    let mut chunks: Vec<Chunk> = Vec::new();
    let mut z: usize = 0;
    while z < 64
        invariant
            z <= 64,
            block_data.len() == 64,
            data == block_data@.map_values(|v: Vec<u8>| v@),
            chunks.len() == z,
            forall|j: int| 0 <= j < z ==> (#[trigger] chunk_data_blocks(data[j])) is Some,
            forall|j: int|
                0 <= j < z ==> chunk_wf_at(#[trigger] chunks@[j], col, j) && chunks@[j].blocks@
                    == chunk_data_blocks(block_data@[j]@)->0,
        decreases 64 - z,
    {
        let bytes = &block_data[z];
        assert(data[z as int] == bytes@);
        proof {
            assert(bytes@.skip(0) =~= bytes@);
        }
        if !rle_check(bytes.as_slice(), 0) {
            assert(chunk_data_blocks(data[z as int]) is None);
            return None;
        }
        let blocks = match rle_decode_from(bytes.as_slice(), 0) {
            Ok((v, _)) => v,
            Err(_) => {
                assert(chunk_data_blocks(data[z as int]) is None);
                return None;
            },
        };
        if blocks.len() != 1 && blocks.len() != 4096 {
            assert(chunk_data_blocks(data[z as int]) is None);
            return None;
        }
        chunks.push(Chunk { pos: ChunkPos::new(col.x, col.y, z as i16), blocks });
        z += 1;
    }
    let column = ChunkColumn::new(col, ColumnStatus::Stored, chunks);
    proof {
        assert forall|j: int| 0 <= j < column.chunks.len() implies chunk_wf_at(
            #[trigger] column.chunks[j],
            column.col,
            j,
        ) by {
            assert(column.chunks[j] == chunks@[j]);
        }
    }
    Some(column)
}

/// Some column of the buffer at `c` is ready for the next stage.
pub open spec fn listed_ready(buf: ChunkBuffer, c: ChunkColumnPos, propagated: bool) -> bool {
    exists|k: u32|
        #[trigger] buf.columns@.contains_key(k) && buf.columns@[k].col == c && ready_for(
            buf,
            buf.columns@[k],
            propagated,
        )
}

/// Column position `c` is the position of one of the first `n` columns handed out.
spec fn handed_out(sq: Seq<(&u32, &ChunkColumn)>, n: int, c: ChunkColumnPos) -> bool {
    exists|j: int| 0 <= j < n && (#[trigger] sq[j]).1.col == c
}

/// The positions of the columns of the buffer that are ready for the next stage, each
/// once, in the order the map hands them out.
pub fn ready_columns(buffer: &ChunkBuffer, propagated: bool) -> (r: Vec<ChunkColumnPos>)
    requires
        buffer.wf(),
        forall|k: u32|
            #[trigger] buffer.columns@.contains_key(k) && buffer.columns@[k].spec_status() == (if propagated {
                ColumnStatus::Propagated
            } else {
                ColumnStatus::Stored
            }) ==> col_inner(buffer.columns@[k].col) && buffer.neighbours_checkable(
                buffer.columns@[k].col,
                propagated,
            ),
    ensures
        r@.no_duplicates(),
        forall|i: int| 0 <= i < r.len() ==> listed_ready(*buffer, #[trigger] r@[i], propagated),
        forall|k: u32|
            #[trigger] buffer.columns@.contains_key(k) && ready_for(*buffer, buffer.columns@[k], propagated)
                ==> r@.contains(buffer.columns@[k].col),
{
    let mut result: Vec<ChunkColumnPos> = Vec::new();
    let wanted = if propagated {
        ColumnStatus::Propagated
    } else {
        ColumnStatus::Stored
    };
    proof {
        vstd::std_specs::hash::axiom_spec_hash_map_iter(&buffer.columns);
    }
    let ghost sq = IteratorSpec::remaining(&vstd::std_specs::hash::spec_hash_map_iter(&buffer.columns));
    let ghost mut n: int = 0;
    for pair in it: buffer.columns.iter()
        invariant
            sq == it.seq(),
            n == it.index(),
            0 <= n <= sq.len(),
            buffer.wf(),
            wanted == (if propagated {
                ColumnStatus::Propagated
            } else {
                ColumnStatus::Stored
            }),
            forall|k: u32|
                #[trigger] buffer.columns@.contains_key(k) && buffer.columns@[k].spec_status() == wanted
                    ==> col_inner(buffer.columns@[k].col) && buffer.neighbours_checkable(
                    buffer.columns@[k].col,
                    propagated,
                ),
            sq.no_duplicates(),
            forall|i: int|
                0 <= i < sq.len() ==> buffer.columns@.contains_key(*(#[trigger] sq[i]).0)
                    && buffer.columns@[*sq[i].0] == *sq[i].1,
            forall|k: u32| #[trigger] buffer.columns@.contains_key(k) ==> sq.contains((&k, &buffer.columns@[k])),
            result@.no_duplicates(),
            forall|i: int| 0 <= i < result.len() ==> listed_ready(*buffer, #[trigger] result@[i], propagated),
            forall|i: int| 0 <= i < result.len() ==> handed_out(sq, n, #[trigger] result@[i]),
            forall|i: int|
                0 <= i < n && ready_for(*buffer, *(#[trigger] sq[i]).1, propagated) ==> result@.contains(sq[i].1.col),
    {
        let (key, column) = pair;
        let ghost j = n;
        assert(sq[j] == pair);
        let ghost before = result@;
        assert(buffer.columns@.contains_key(*key) && buffer.columns@[*key] == *column);
        let mut ready = false;
        if column.status() == wanted {
            ready = if propagated {
                buffer.are_all_neighbours_propagated(column.col)
            } else {
                buffer.are_all_neighbours_stored(column.col)
            };
        }
        assert(ready == ready_for(*buffer, *column, propagated));
        if ready {
            proof {
                assert(listed_ready(*buffer, column.col, propagated));
                assert forall|i: int| 0 <= i < before.len() implies before[i] != column.col by {
                    assert(handed_out(sq, n, before[i]));
                    let jj = choose|jj: int| 0 <= jj < n && (#[trigger] sq[jj]).1.col == before[i];
                    let kk = *sq[jj].0;
                    assert(buffer.columns@[kk] == *sq[jj].1);
                    if before[i] == column.col {
                        assert(kk == spec_column_key(column.col.x, column.col.y));
                        assert(*key == spec_column_key(column.col.x, column.col.y));
                        assert(sq[jj] == sq[j]);
                    }
                }
            }
            result.push(column.col);
        }
        proof {
            assert forall|i: int| 0 <= i < result.len() implies handed_out(sq, n + 1, #[trigger] result@[i]) by {
                if i < before.len() {
                    assert(result@[i] == before[i]);
                    assert(handed_out(sq, n, before[i]));
                    let jj = choose|jj: int| 0 <= jj < n && (#[trigger] sq[jj]).1.col == before[i];
                    assert(0 <= jj < n + 1 && sq[jj].1.col == result@[i]);
                } else {
                    assert(sq[j].1.col == result@[i]);
                }
            }
            assert forall|i: int| 0 <= i < result.len() implies listed_ready(*buffer, #[trigger] result@[i], propagated) by {
                if i < before.len() {
                    assert(result@[i] == before[i]);
                }
            }
            assert forall|i: int|
                0 <= i < n + 1 && ready_for(*buffer, *(#[trigger] sq[i]).1, propagated) implies result@.contains(sq[i].1.col) by {
                if i < n {
                    let w = choose|w: int| 0 <= w < before.len() && before[w] == sq[i].1.col;
                    assert(result@[w] == before[w]);
                } else {
                    assert(result@[result.len() - 1] == column.col);
                }
            }
            n = n + 1;
        }
    }
    proof {
        assert forall|k: u32|
            #[trigger] buffer.columns@.contains_key(k) && ready_for(*buffer, buffer.columns@[k], propagated)
                implies result@.contains(buffer.columns@[k].col) by {
            let i = sq.index_of((&k, &buffer.columns@[k]));
            assert(sq[i] == (&k, &buffer.columns@[k]));
        }
    }
    result
}

} // verus!
