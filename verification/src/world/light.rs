//! Flood-fill propagation and removal of block light and sunlight through the
//! transparent blocks of the chunk buffer.

use super::world_sum::{lemma_world_sum_ext, lemma_world_sum_point, world_sum, Pos};
use crate::block::{
    lemma_with_light, lemma_with_sunlight, spec_light, spec_sunlight, spec_transparent,
    spec_with_light, spec_with_sunlight, without_light, without_sunlight, Block, BlockTrait,
    LightBlock,
};
use crate::chunk::chunk_buffer::ChunkBuffer;
use crate::chunk::chunk_pos_set::ChunkPosSet;
use crate::chunk::chunkpos::{spec_chunk_of, ChunkPos};
use vstd::prelude::*;

verus! {

pub const MAX_LIGHT_LEVEL: u8 = 15;

/// The sunlight (`sun`) or block light level of a block.
pub open spec fn spec_level(b: Block, sun: bool) -> u8 {
    if sun {
        spec_sunlight(b)
    } else {
        spec_light(b)
    }
}

/// A block with its sunlight (`sun`) or block light level replaced.
pub open spec fn spec_with_level(b: Block, l: u8, sun: bool) -> Block {
    if sun {
        spec_with_sunlight(b, l)
    } else {
        spec_with_light(b, l)
    }
}

/// Everything of a block but its sunlight (`sun`) or block light level.
pub open spec fn without_level(b: Block, sun: bool) -> Block {
    if sun {
        without_sunlight(b)
    } else {
        without_light(b)
    }
}

/// The light level of the block at `p`.
pub open spec fn level_at(buf: ChunkBuffer, p: Pos, sun: bool) -> u8 {
    spec_level(buf.block_at(p.0, p.1, p.2), sun)
}

/// Whether light passes through the block at `p`.
pub open spec fn transparent_at(buf: ChunkBuffer, p: Pos) -> bool {
    spec_transparent(buf.block_at(p.0, p.1, p.2))
}

/// The light missing below the maximum level, summed over the world.
pub open spec fn deficit(buf: ChunkBuffer, sun: bool) -> nat {
    world_sum(|p: Pos| (15 - level_at(buf, p, sun)) as nat)
}

/// The chunk that holds block `p`.
pub open spec fn chunk_of(p: Pos) -> ChunkPos {
    spec_chunk_of(p.0, p.1, p.2)
}

/// Setting the block light or the sunlight reads back, keeps the rest of the block and
/// leaves the other level alone.
pub proof fn lemma_level(b: Block, l: u8, sun: bool)
    ensures
        l < 16 ==> spec_level(spec_with_level(b, l, sun), sun) == l,
        without_level(spec_with_level(b, l, sun), sun) == without_level(b, sun),
        spec_transparent(spec_with_level(b, l, sun)) == spec_transparent(b),
        spec_level(b, sun) < 16,
        spec_level(spec_with_level(b, l, sun), !sun) == spec_level(b, !sun),
{
    lemma_with_light(b, l);
    lemma_with_sunlight(b, l);
}

pub(crate) fn get_level(b: Block, sun: bool) -> (r: u8)
    ensures
        r == spec_level(b, sun),
        r < 16,
{
    if sun {
        b.get_sunlight()
    } else {
        b.get_light()
    }
}

pub(crate) fn with_level(b: Block, l: u8, sun: bool) -> (r: Block)
    ensures
        r == spec_with_level(b, l, sun),
{
    let mut r = b;
    if sun {
        r.set_sunlight(l);
    } else {
        r.set_light(l);
    }
    r
}

/// `new` is `old` with the light level at `q` raised to `l` and nothing else changed.
pub open spec fn raised_at(new: ChunkBuffer, old: ChunkBuffer, q: Pos, l: u8, sun: bool) -> bool {
    &&& new.block_at(q.0, q.1, q.2) == spec_with_level(old.block_at(q.0, q.1, q.2), l, sun)
    &&& forall|x: i16, y: i16, z: i16|
        #![trigger new.block_at(x, y, z)]
        (x, y, z) != q ==> new.block_at(x, y, z) == old.block_at(x, y, z)
}

/// The shape of the buffer (columns, statuses, chunks and their initialization) is kept.
pub open spec fn keeps_shape(new: ChunkBuffer, old: ChunkBuffer) -> bool {
    &&& new.wf()
    &&& new.same_shape(old)
    &&& forall|x: i16, y: i16, z: i16|
        #![trigger new.block_loaded(x, y, z)]
        new.block_loaded(x, y, z) == old.block_loaded(x, y, z)
}

/// Raise the light at (x, y, z) to one below `level` if it is transparent and at least
/// two below `level`; record its chunk as dirty and queue it.
fn raise_step(
    chunks: &mut ChunkBuffer,
    x: i16,
    y: i16,
    z: i16,
    level: u8,
    sun: bool,
    dirty_chunks: &mut ChunkPosSet,
    queue: &mut Vec<Pos>,
)
    requires
        old(chunks).wf(),
        old(dirty_chunks).wf(),
        level <= 15,
        old(chunks).block_loaded(x, y, z),
    ensures
        keeps_shape(*final(chunks), *old(chunks)),
        final(dirty_chunks).wf(),
        ({
            let b0 = old(chunks).block_at(x, y, z);
            let raised = spec_transparent(b0) && spec_level(b0, sun) + 2 <= level;
            &&& raised ==> {
                &&& raised_at(*final(chunks), *old(chunks), (x, y, z), (level - 1) as u8, sun)
                &&& final(dirty_chunks)@ == old(dirty_chunks)@.insert(spec_chunk_of(x, y, z))
                &&& final(queue)@ == old(queue)@.push((x, y, z))
                &&& deficit(*final(chunks), sun) < deficit(*old(chunks), sun)
            }
            &&& !raised ==> {
                &&& final(chunks).columns@ == old(chunks).columns@
                &&& final(dirty_chunks)@ == old(dirty_chunks)@
                &&& final(queue)@ == old(queue)@
            }
        }),
{
    let block = chunks.get_block(x, y, z);
    let cur = get_level(block, sun);
    if block.is_transparent() && cur + 2 <= level {
        let b = with_level(block, level - 1, sun);
        let ghost old_chunks = *chunks;
        chunks.set_block(x, y, z, b);
        proof {
            lemma_level(block, (level - 1) as u8, sun);
            let f = |p: Pos| (15 - level_at(old_chunks, p, sun)) as nat;
            let g = |p: Pos| (15 - level_at(*chunks, p, sun)) as nat;
            assert forall|p: Pos| p != (x, y, z) implies #[trigger] f(p) == g(p) by {
                assert(chunks.block_at(p.0, p.1, p.2) == old_chunks.block_at(p.0, p.1, p.2));
            }
            lemma_world_sum_point(f, g, (x, y, z));
        }
        dirty_chunks.insert(ChunkPos::from_world_block_coords(x, y, z));
        queue.push((x, y, z));
    }
}

/// Helper for propagating block light one block: raises (x, y, z) to one below
/// `light_level` when it lies within the world height, is transparent and is darker by two.
pub fn light_helper(
    chunks: &mut ChunkBuffer,
    x: i16,
    y: i16,
    z: i16,
    light_level: u8,
    dirty_chunks: &mut ChunkPosSet,
    queue: &mut Vec<Pos>,
)
    requires
        old(chunks).wf(),
        old(dirty_chunks).wf(),
        light_level <= 15,
        0 <= z < 1024 ==> old(chunks).block_loaded(x, y, z),
    ensures
        keeps_shape(*final(chunks), *old(chunks)),
        final(dirty_chunks).wf(),
        ({
            let b0 = old(chunks).block_at(x, y, z);
            let raised = 0 <= z < 1024 && spec_transparent(b0) && spec_light(b0) + 2 <= light_level;
            &&& raised ==> {
                &&& raised_at(*final(chunks), *old(chunks), (x, y, z), (light_level - 1) as u8, false)
                &&& final(dirty_chunks)@ == old(dirty_chunks)@.insert(spec_chunk_of(x, y, z))
                &&& final(queue)@ == old(queue)@.push((x, y, z))
                &&& deficit(*final(chunks), false) < deficit(*old(chunks), false)
            }
            &&& !raised ==> {
                &&& final(chunks).columns@ == old(chunks).columns@
                &&& final(dirty_chunks)@ == old(dirty_chunks)@
                &&& final(queue)@ == old(queue)@
            }
        }),
{
    let cp = ChunkPos::from_world_block_coords(x, y, z);
    proof {
        crate::chunk::lemma_shr4(z);
    }
    if cp.z < 0 || cp.z >= 64 {
        return;
    }
    raise_step(chunks, x, y, z, light_level, false, dirty_chunks, queue);
}

/// Helper for propagating sunlight one block: raises (x, y, z) to one below
/// `light_level` when it is transparent and darker by two.
pub fn sunlight_helper(
    chunks: &mut ChunkBuffer,
    x: i16,
    y: i16,
    z: i16,
    light_level: u8,
    dirty_chunks: &mut ChunkPosSet,
    queue: &mut Vec<Pos>,
)
    requires
        old(chunks).wf(),
        old(dirty_chunks).wf(),
        light_level <= 15,
        old(chunks).block_loaded(x, y, z),
    ensures
        keeps_shape(*final(chunks), *old(chunks)),
        final(dirty_chunks).wf(),
        ({
            let b0 = old(chunks).block_at(x, y, z);
            let raised = spec_transparent(b0) && spec_sunlight(b0) + 2 <= light_level;
            &&& raised ==> {
                &&& raised_at(*final(chunks), *old(chunks), (x, y, z), (light_level - 1) as u8, true)
                &&& final(dirty_chunks)@ == old(dirty_chunks)@.insert(spec_chunk_of(x, y, z))
                &&& final(queue)@ == old(queue)@.push((x, y, z))
                &&& deficit(*final(chunks), true) < deficit(*old(chunks), true)
            }
            &&& !raised ==> {
                &&& final(chunks).columns@ == old(chunks).columns@
                &&& final(dirty_chunks)@ == old(dirty_chunks)@
                &&& final(queue)@ == old(queue)@
            }
        }),
{
    raise_step(chunks, x, y, z, light_level, true, dirty_chunks, queue);
}

/// The `d`-th face neighbour of `p`, in the order +x, -x, +y, -y, +z, -z.
pub open spec fn neighbour(p: Pos, d: int) -> Pos {
    if d == 0 {
        ((p.0 + 1) as i16, p.1, p.2)
    } else if d == 1 {
        ((p.0 - 1) as i16, p.1, p.2)
    } else if d == 2 {
        (p.0, (p.1 + 1) as i16, p.2)
    } else if d == 3 {
        (p.0, (p.1 - 1) as i16, p.2)
    } else if d == 4 {
        (p.0, p.1, (p.2 + 1) as i16)
    } else {
        (p.0, p.1, (p.2 - 1) as i16)
    }
}

/// Whether light spreads from `p` to its `d`-th neighbour at all: block light spreads to
/// neighbours within the world height, sunlight to every neighbour but the one below the
/// bottom layer and the one above the top layer.
pub open spec fn spreads_to(p: Pos, d: int, sun: bool) -> bool {
    if sun {
        (d != 5 || p.2 > 0) && (d != 4 || p.2 < 1023)
    } else {
        0 <= neighbour(p, d).2 < 1024
    }
}

/// The `d`-th neighbour of `p`, if light spreads there and it is transparent, is lit to at
/// least one below `l`.
pub open spec fn lit_from(cur: ChunkBuffer, p: Pos, d: int, l: u8, sun: bool) -> bool {
    spreads_to(p, d, sun) && transparent_at(cur, neighbour(p, d)) ==> level_at(
        cur,
        neighbour(p, d),
        sun,
    ) + 2 > l
}

/// The first `k` neighbours of `p` are lit from level `l`.
pub open spec fn lit_upto(cur: ChunkBuffer, p: Pos, k: int, l: u8, sun: bool) -> bool {
    forall|d: int| 0 <= d < k ==> #[trigger] lit_from(cur, p, d, l, sun)
}

/// Light at `p` has been passed on: every neighbour it spreads to that light passes
/// through has at most one level less. Sunlight is passed on from every layer of the world.
pub open spec fn passes_on(cur: ChunkBuffer, p: Pos, sun: bool) -> bool {
    (sun ==> 0 <= p.2 < 1024) ==> lit_upto(cur, p, 6, level_at(cur, p, sun), sun)
}

/// Manhattan distance between two positions.
pub open spec fn dist(a: Pos, b: Pos) -> int {
    let dx = a.0 - b.0;
    let dy = a.1 - b.1;
    let dz = a.2 - b.2;
    (if dx < 0 { -dx } else { dx }) + (if dy < 0 { -dy } else { dy }) + (if dz < 0 { -dz } else { dz })
}

/// A neighbour is one step further from `s` at most, and is not the block itself.
pub proof fn lemma_neighbour_dist(p: Pos, d: int, s: Pos)
    requires
        0 <= d < 6,
        i16::MIN < p.0 < i16::MAX,
        i16::MIN < p.1 < i16::MAX,
        i16::MIN < p.2 < i16::MAX,
    ensures
        dist(neighbour(p, d), s) <= dist(p, s) + 1,
        neighbour(p, d) != p,
{
}

/// Within distance `r` of `s` coordinates stay in the `i16` range, and every block within
/// the world height is loaded.
pub open spec fn loaded_around(buf: ChunkBuffer, s: Pos, r: int) -> bool {
    &&& i16::MIN + r <= s.0 <= i16::MAX - r
    &&& i16::MIN + r <= s.1 <= i16::MAX - r
    &&& i16::MIN + r <= s.2 <= i16::MAX - r
    &&& forall|x: i16, y: i16, z: i16|
        #![trigger buf.block_loaded(x, y, z)]
        dist((x, y, z), s) <= r && 0 <= z < 1024 ==> buf.block_loaded(x, y, z)
}

/// The state while light spreads from `p` at level `l` to its first `k` neighbours,
/// starting from buffer `old` with queue `q0` and dirty set `dirty0`.
pub open spec fn spread_state(
    cur: ChunkBuffer,
    old: ChunkBuffer,
    p: Pos,
    l: u8,
    k: int,
    sun: bool,
    q0: Seq<Pos>,
    q: Seq<Pos>,
    dirty0: Set<ChunkPos>,
    dirty: Set<ChunkPos>,
) -> bool {
    &&& keeps_shape(cur, old)
    &&& q.len() >= q0.len()
    &&& q.subrange(0, q0.len() as int) == q0
    &&& forall|i: int|
        q0.len() <= i < q.len() ==> level_at(cur, #[trigger] q[i], sun) == l - 1 && level_at(
            old,
            q[i],
            sun,
        ) < l - 1
    &&& forall|x: i16, y: i16, z: i16|
        #![trigger cur.block_at(x, y, z)]
        {
            &&& without_level(cur.block_at(x, y, z), sun) == without_level(old.block_at(x, y, z), sun)
            &&& spec_transparent(cur.block_at(x, y, z)) == spec_transparent(old.block_at(x, y, z))
            &&& spec_level(cur.block_at(x, y, z), !sun) == spec_level(old.block_at(x, y, z), !sun)
            &&& level_at(cur, (x, y, z), sun) >= level_at(old, (x, y, z), sun)
            &&& level_at(cur, (x, y, z), sun) != level_at(old, (x, y, z), sun) ==> {
                &&& q.contains((x, y, z))
                &&& dirty.contains(chunk_of((x, y, z)))
                &&& level_at(cur, (x, y, z), sun) == l - 1
                &&& exists|d: int| 0 <= d < k && (x, y, z) == #[trigger] neighbour(p, d)
                &&& cur.block_loaded(x, y, z)
            }
        }
    &&& dirty0.subset_of(dirty)
    &&& lit_upto(cur, p, k, l, sun)
    &&& level_at(cur, p, sun) == l
    &&& 7 * deficit(cur, sun) + q.len() <= 7 * deficit(old, sun) + q0.len()
}

/// One raise step of the spread, at the `k`-th neighbour, moves the spread state on by one.
proof fn lemma_spread_step(
    prev: ChunkBuffer,
    next: ChunkBuffer,
    old: ChunkBuffer,
    p: Pos,
    l: u8,
    k: int,
    sun: bool,
    q0: Seq<Pos>,
    qa: Seq<Pos>,
    qb: Seq<Pos>,
    dirty0: Set<ChunkPos>,
    da: Set<ChunkPos>,
    db: Set<ChunkPos>,
)
    requires
        0 <= k < 6,
        l <= 15,
        i16::MIN < p.0 < i16::MAX,
        i16::MIN < p.1 < i16::MAX,
        i16::MIN < p.2 < i16::MAX,
        spread_state(prev, old, p, l, k, sun, q0, qa, dirty0, da),
        keeps_shape(next, prev),
        ({
            let n = neighbour(p, k);
            let b0 = prev.block_at(n.0, n.1, n.2);
            let raised = spreads_to(p, k, sun) && spec_transparent(b0) && spec_level(b0, sun) + 2 <= l;
            &&& raised ==> {
                &&& raised_at(next, prev, n, (l - 1) as u8, sun)
                &&& db == da.insert(chunk_of(n))
                &&& qb == qa.push(n)
                &&& deficit(next, sun) < deficit(prev, sun)
                &&& prev.block_loaded(n.0, n.1, n.2)
            }
            &&& !raised ==> {
                &&& next.columns@ == prev.columns@
                &&& db == da
                &&& qb == qa
            }
        }),
    ensures
        spread_state(next, old, p, l, k + 1, sun, q0, qb, dirty0, db),
{
    let n = neighbour(p, k);
    let b0 = prev.block_at(n.0, n.1, n.2);
    let raised = spreads_to(p, k, sun) && spec_transparent(b0) && spec_level(b0, sun) + 2 <= l;
    lemma_neighbour_dist(p, k, p);
    if raised {
        lemma_level(b0, (l - 1) as u8, sun);
        assert(next.same_shape(old));
        assert forall|x: i16, y: i16, z: i16|
            #![trigger next.block_loaded(x, y, z)]
            next.block_loaded(x, y, z) == old.block_loaded(x, y, z) by {
            assert(prev.block_loaded(x, y, z) == old.block_loaded(x, y, z));
        }
        assert forall|i: int| q0.len() <= i < qb.len() implies level_at(next, #[trigger] qb[i], sun) == l - 1 && level_at(old, qb[i], sun) < l - 1 by {
            if i < qa.len() {
                let e = qa[i];
                assert(qb[i] == e);
                assert(level_at(prev, e, sun) == l - 1);
                if e != n {
                    assert(next.block_at(e.0, e.1, e.2) == prev.block_at(e.0, e.1, e.2));
                }
            } else {
                assert(qb[i] == n);
                assert(old.block_at(n.0, n.1, n.2) == old.block_at(n.0, n.1, n.2));
                assert(prev.block_at(n.0, n.1, n.2) == prev.block_at(n.0, n.1, n.2));
            }
        }
        assert(qb.subrange(0, q0.len() as int) =~= q0) by {
            assert(qa.subrange(0, q0.len() as int) =~= q0);
        }
        assert forall|x: i16, y: i16, z: i16|
            #![trigger next.block_at(x, y, z)]
            {
                &&& without_level(next.block_at(x, y, z), sun) == without_level(old.block_at(x, y, z), sun)
                &&& spec_level(next.block_at(x, y, z), !sun) == spec_level(old.block_at(x, y, z), !sun)
                &&& level_at(next, (x, y, z), sun) >= level_at(old, (x, y, z), sun)
                &&& level_at(next, (x, y, z), sun) != level_at(old, (x, y, z), sun) ==> {
                    &&& qb.contains((x, y, z))
                    &&& db.contains(chunk_of((x, y, z)))
                    &&& level_at(next, (x, y, z), sun) == l - 1
                    &&& exists|d: int| 0 <= d < k + 1 && (x, y, z) == #[trigger] neighbour(p, d)
                    &&& next.block_loaded(x, y, z)
                }
                &&& spec_transparent(next.block_at(x, y, z)) == spec_transparent(old.block_at(x, y, z))
            } by {
            assert(prev.block_at(x, y, z) == prev.block_at(x, y, z));
            assert(prev.block_loaded(x, y, z) == next.block_loaded(x, y, z));
            if (x, y, z) == n {
                assert(qb[qb.len() - 1] == n);
            } else {
                assert(next.block_at(x, y, z) == prev.block_at(x, y, z));
                if level_at(next, (x, y, z), sun) != level_at(old, (x, y, z), sun) {
                    assert(qa.contains((x, y, z)));
                    let j = choose|j: int| 0 <= j < qa.len() && qa[j] == (x, y, z);
                    assert(qb[j] == (x, y, z));
                    let d = choose|d: int| 0 <= d < k && (x, y, z) == #[trigger] neighbour(p, d);
                    assert(0 <= d < k + 1 && (x, y, z) == neighbour(p, d));
                }
            }
        }
        assert forall|d: int| 0 <= d < k + 1 implies #[trigger] lit_from(next, p, d, l, sun) by {
            if d < k {
                assert(lit_from(prev, p, d, l, sun));
                let m = neighbour(p, d);
                if m != n {
                    assert(next.block_at(m.0, m.1, m.2) == prev.block_at(m.0, m.1, m.2));
                } else {
                    lemma_level(prev.block_at(m.0, m.1, m.2), (l - 1) as u8, sun);
                }
            }
        }
        assert(next.block_at(p.0, p.1, p.2) == prev.block_at(p.0, p.1, p.2));
    } else {
        assert(next.block_at(n.0, n.1, n.2) == prev.block_at(n.0, n.1, n.2));
        assert forall|x: i16, y: i16, z: i16|
            #![trigger next.block_loaded(x, y, z)]
            next.block_loaded(x, y, z) == old.block_loaded(x, y, z) by {
            assert(prev.block_loaded(x, y, z) == old.block_loaded(x, y, z));
        }
        assert forall|x: i16, y: i16, z: i16|
            #![trigger next.block_at(x, y, z)]
            next.block_at(x, y, z) == prev.block_at(x, y, z) by {
        }
        assert forall|d: int| 0 <= d < k + 1 implies #[trigger] lit_from(next, p, d, l, sun) by {
            if d < k {
                assert(lit_from(prev, p, d, l, sun));
            }
            let m = neighbour(p, d);
            assert(next.block_at(m.0, m.1, m.2) == prev.block_at(m.0, m.1, m.2));
        }
        assert forall|x: i16, y: i16, z: i16|
            #![trigger next.block_at(x, y, z)]
            level_at(next, (x, y, z), sun) != level_at(old, (x, y, z), sun) implies
                exists|d: int| 0 <= d < k + 1 && (x, y, z) == #[trigger] neighbour(p, d) by {
            let d = choose|d: int| 0 <= d < k && (x, y, z) == #[trigger] neighbour(p, d);
            assert(0 <= d < k + 1 && (x, y, z) == neighbour(p, d));
        }
        assert(next.block_at(p.0, p.1, p.2) == prev.block_at(p.0, p.1, p.2));
        let f = |q: Pos| (15 - level_at(prev, q, sun)) as nat;
        let g = |q: Pos| (15 - level_at(next, q, sun)) as nat;
        assert forall|q: Pos| #[trigger] f(q) == g(q) by {
            assert(next.block_at(q.0, q.1, q.2) == prev.block_at(q.0, q.1, q.2));
        }
        lemma_world_sum_ext(f, g);
    }
}

/// Every neighbour of `p` that light spreads to is loaded.
pub open spec fn neighbours_loaded(buf: ChunkBuffer, p: Pos, sun: bool) -> bool {
    forall|d: int|
        #![trigger spreads_to(p, d, sun)]
        0 <= d < 6 && spreads_to(p, d, sun) ==> buf.block_loaded(
            neighbour(p, d).0,
            neighbour(p, d).1,
            neighbour(p, d).2,
        )
}

/// A buffer in its own shape, before any spread.
proof fn lemma_spread_start(
    cur: ChunkBuffer,
    p: Pos,
    l: u8,
    sun: bool,
    q0: Seq<Pos>,
    dirty0: Set<ChunkPos>,
)
    requires
        cur.wf(),
        level_at(cur, p, sun) == l,
    ensures
        spread_state(cur, cur, p, l, 0, sun, q0, q0, dirty0, dirty0),
{
    assert(q0.subrange(0, q0.len() as int) =~= q0);
    assert(cur.columns@.dom() =~= cur.columns@.dom());
}

/// Spread block light from (x, y, z), lit at level `l`, to its six neighbours.
fn spread_light(
    chunks: &mut ChunkBuffer,
    x: i16,
    y: i16,
    z: i16,
    l: u8,
    dirty_chunks: &mut ChunkPosSet,
    queue: &mut Vec<Pos>,
)
    requires
        old(chunks).wf(),
        old(dirty_chunks).wf(),
        l <= 15,
        level_at(*old(chunks), (x, y, z), false) == l,
        i16::MIN < x < i16::MAX,
        i16::MIN < y < i16::MAX,
        i16::MIN < z < i16::MAX,
        neighbours_loaded(*old(chunks), (x, y, z), false),
    ensures
        final(dirty_chunks).wf(),
        spread_state(
            *final(chunks),
            *old(chunks),
            (x, y, z),
            l,
            6,
            false,
            old(queue)@,
            final(queue)@,
            old(dirty_chunks)@,
            final(dirty_chunks)@,
        ),
{
    let ghost p = (x, y, z);
    let ghost c0 = *chunks;
    let ghost q0 = queue@;
    let ghost d0 = dirty_chunks@;
    proof {
        lemma_spread_start(c0, p, l, false, q0, d0);
    }
    let ghost (ca, qa, da) = (*chunks, queue@, dirty_chunks@);
    proof {
        assert(neighbour(p, 0) == ((x + 1) as i16, y, z));
        assert(spreads_to(p, 0, false) ==> c0.block_loaded(neighbour(p, 0).0, neighbour(p, 0).1, neighbour(p, 0).2));
    }
    light_helper(chunks, x + 1, y, z, l, dirty_chunks, queue);
    proof { lemma_spread_step(ca, *chunks, c0, p, l, 0, false, q0, qa, queue@, d0, da, dirty_chunks@); }
    let ghost (ca, qa, da) = (*chunks, queue@, dirty_chunks@);
    proof {
        assert(neighbour(p, 1) == ((x - 1) as i16, y, z));
        assert(spreads_to(p, 1, false) ==> c0.block_loaded(neighbour(p, 1).0, neighbour(p, 1).1, neighbour(p, 1).2));
    }
    light_helper(chunks, x - 1, y, z, l, dirty_chunks, queue);
    proof { lemma_spread_step(ca, *chunks, c0, p, l, 1, false, q0, qa, queue@, d0, da, dirty_chunks@); }
    let ghost (ca, qa, da) = (*chunks, queue@, dirty_chunks@);
    proof {
        assert(neighbour(p, 2) == (x, (y + 1) as i16, z));
        assert(spreads_to(p, 2, false) ==> c0.block_loaded(neighbour(p, 2).0, neighbour(p, 2).1, neighbour(p, 2).2));
    }
    light_helper(chunks, x, y + 1, z, l, dirty_chunks, queue);
    proof { lemma_spread_step(ca, *chunks, c0, p, l, 2, false, q0, qa, queue@, d0, da, dirty_chunks@); }
    let ghost (ca, qa, da) = (*chunks, queue@, dirty_chunks@);
    proof {
        assert(neighbour(p, 3) == (x, (y - 1) as i16, z));
        assert(spreads_to(p, 3, false) ==> c0.block_loaded(neighbour(p, 3).0, neighbour(p, 3).1, neighbour(p, 3).2));
    }
    light_helper(chunks, x, y - 1, z, l, dirty_chunks, queue);
    proof { lemma_spread_step(ca, *chunks, c0, p, l, 3, false, q0, qa, queue@, d0, da, dirty_chunks@); }
    let ghost (ca, qa, da) = (*chunks, queue@, dirty_chunks@);
    proof {
        assert(neighbour(p, 4) == (x, y, (z + 1) as i16));
        assert(spreads_to(p, 4, false) ==> c0.block_loaded(neighbour(p, 4).0, neighbour(p, 4).1, neighbour(p, 4).2));
    }
    light_helper(chunks, x, y, z + 1, l, dirty_chunks, queue);
    proof { lemma_spread_step(ca, *chunks, c0, p, l, 4, false, q0, qa, queue@, d0, da, dirty_chunks@); }
    let ghost (ca, qa, da) = (*chunks, queue@, dirty_chunks@);
    proof {
        assert(neighbour(p, 5) == (x, y, (z - 1) as i16));
        assert(spreads_to(p, 5, false) ==> c0.block_loaded(neighbour(p, 5).0, neighbour(p, 5).1, neighbour(p, 5).2));
    }
    light_helper(chunks, x, y, z - 1, l, dirty_chunks, queue);
    proof { lemma_spread_step(ca, *chunks, c0, p, l, 5, false, q0, qa, queue@, d0, da, dirty_chunks@); }
}

/// Light at every settled position is still queued or has been passed on.
pub open spec fn settled_ok(cur: ChunkBuffer, settled: Set<Pos>, q: Seq<Pos>, sun: bool) -> bool {
    forall|t: Pos| #[trigger] settled.contains(t) ==> q.contains(t) || passes_on(cur, t, sun)
}

/// A queued position can be read: block light positions are always loaded, sunlight
/// positions within the world height.
pub open spec fn entry_ok(cur: ChunkBuffer, e: Pos, sun: bool) -> bool {
    (sun ==> 0 <= e.2 < 1024) ==> cur.block_loaded(e.0, e.1, e.2)
}

/// Each queued position lies near a start: its distance to that start and its level
/// add up to at most the maximum level.
pub open spec fn near_ok(
    cur: ChunkBuffer,
    starts: Seq<Pos>,
    q: Seq<Pos>,
    near: Map<Pos, int>,
    sun: bool,
) -> bool {
    forall|i: int|
        0 <= i < q.len() ==> {
            let e = #[trigger] q[i];
            &&& near.contains_key(e)
            &&& 0 <= near[e] < starts.len()
            &&& dist(e, starts[near[e]]) + level_at(cur, e, sun) <= 15
            &&& entry_ok(cur, e, sun)
        }
}

/// `cur` differs from `old` only by raised light levels, each at a settled position in
/// a dirty chunk.
pub open spec fn frame_ok(
    cur: ChunkBuffer,
    old: ChunkBuffer,
    sun: bool,
    settled: Set<Pos>,
    dirty: Set<ChunkPos>,
) -> bool {
    forall|x: i16, y: i16, z: i16|
        #![trigger cur.block_at(x, y, z)]
        {
            &&& without_level(cur.block_at(x, y, z), sun) == without_level(old.block_at(x, y, z), sun)
            &&& spec_transparent(cur.block_at(x, y, z)) == spec_transparent(old.block_at(x, y, z))
            &&& spec_level(cur.block_at(x, y, z), !sun) == spec_level(old.block_at(x, y, z), !sun)
            &&& level_at(cur, (x, y, z), sun) >= level_at(old, (x, y, z), sun)
            &&& level_at(cur, (x, y, z), sun) != level_at(old, (x, y, z), sun) ==> {
                &&& dirty.contains(chunk_of((x, y, z)))
                &&& settled.contains((x, y, z))
            }
        }
}

/// The invariant of the propagation queue.
pub open spec fn queue_inv(
    cur: ChunkBuffer,
    old: ChunkBuffer,
    sun: bool,
    starts: Seq<Pos>,
    q: Seq<Pos>,
    near: Map<Pos, int>,
    settled: Set<Pos>,
    dirty0: Set<ChunkPos>,
    dirty: Set<ChunkPos>,
) -> bool {
    &&& keeps_shape(cur, old)
    &&& frame_ok(cur, old, sun, settled, dirty)
    &&& dirty0.subset_of(dirty)
    &&& near_ok(cur, starts, q, near, sun)
    &&& forall|j: int| 0 <= j < starts.len() ==> settled.contains(#[trigger] starts[j])
    &&& settled_ok(cur, settled, q, sun)
}

/// Every start lies well inside the `i16` range with its surroundings loaded.
pub open spec fn starts_loaded(buf: ChunkBuffer, starts: Seq<Pos>, r: int) -> bool {
    forall|j: int| 0 <= j < starts.len() ==> loaded_around(buf, #[trigger] starts[j], r)
}

/// Passing light on is kept when no light level falls, no transparency changes, and the
/// level at the position itself stays.
proof fn lemma_passes_mono(a: ChunkBuffer, b: ChunkBuffer, t: Pos, sun: bool)
    requires
        passes_on(a, t, sun),
        level_at(b, t, sun) == level_at(a, t, sun),
        forall|x: i16, y: i16, z: i16|
            #![trigger b.block_at(x, y, z)]
            level_at(b, (x, y, z), sun) >= level_at(a, (x, y, z), sun) && spec_transparent(
                b.block_at(x, y, z),
            ) == spec_transparent(a.block_at(x, y, z)),
    ensures
        passes_on(b, t, sun),
{
    if sun ==> 0 <= t.2 < 1024 {
        assert forall|d: int| 0 <= d < 6 implies #[trigger] lit_from(b, t, d, level_at(b, t, sun), sun) by {
            assert(lit_from(a, t, d, level_at(a, t, sun), sun));
            let m = neighbour(t, d);
            assert(b.block_at(m.0, m.1, m.2) == b.block_at(m.0, m.1, m.2));
        }
    }
}

/// The start of the queue loop.
proof fn lemma_queue_start(cur: ChunkBuffer, sun: bool, starts: Seq<Pos>, dirty0: Set<ChunkPos>)
    -> (r: (Map<Pos, int>, Set<Pos>))
    requires
        cur.wf(),
        forall|j: int| 0 <= j < starts.len() ==> entry_ok(cur, #[trigger] starts[j], sun),
    ensures
        queue_inv(cur, cur, sun, starts, starts, r.0, r.1, dirty0, dirty0),
{
    let near = Map::new(
        |p: Pos| starts.contains(p),
        |p: Pos| choose|j: int| 0 <= j < starts.len() && starts[j] == p,
    );
    let settled = starts.to_set();
    assert(cur.columns@.dom() =~= cur.columns@.dom());
    assert forall|i: int| 0 <= i < starts.len() implies {
        let e = #[trigger] starts[i];
        &&& near.contains_key(e)
        &&& 0 <= near[e] < starts.len()
        &&& dist(e, starts[near[e]]) + level_at(cur, e, sun) <= 15
        &&& entry_ok(cur, e, sun)
    } by {
        let e = starts[i];
        assert(starts.contains(e));
        let j = near[e];
        assert(starts[j] == e);
        lemma_level(cur.block_at(e.0, e.1, e.2), 0, sun);
    }
    assert forall|t: Pos| #[trigger] settled.contains(t) implies starts.contains(t) || passes_on(cur, t, sun) by {
    }
    assert forall|j: int| 0 <= j < starts.len() implies settled.contains(#[trigger] starts[j]) by {
        assert(starts.contains(starts[j]));
    }
    (near, settled)
}

/// A popped position can spread its light: its neighbours are loaded and its coordinates
/// leave room for one step.
proof fn lemma_pop_ready(
    cur: ChunkBuffer,
    old: ChunkBuffer,
    sun: bool,
    starts: Seq<Pos>,
    q: Seq<Pos>,
    near: Map<Pos, int>,
    i: int,
)
    requires
        keeps_shape(cur, old),
        near_ok(cur, starts, q, near, sun),
        starts_loaded(old, starts, 16),
        0 <= i < q.len(),
    ensures
        ({
            let p = q[i];
            &&& i16::MIN < p.0 < i16::MAX
            &&& i16::MIN < p.1 < i16::MAX
            &&& i16::MIN < p.2 < i16::MAX
            &&& (sun ==> 0 <= p.2 < 1024) ==> neighbours_loaded(cur, p, sun)
        }),
{
    let p = q[i];
    let s = starts[near[p]];
    assert(loaded_around(old, s, 16));
    if sun ==> 0 <= p.2 < 1024 {
        assert forall|d: int|
            #![trigger spreads_to(p, d, sun)]
            0 <= d < 6 && spreads_to(p, d, sun) implies cur.block_loaded(
                neighbour(p, d).0,
                neighbour(p, d).1,
                neighbour(p, d).2,
            ) by {
            lemma_neighbour_dist(p, d, s);
            let m = neighbour(p, d);
            assert(old.block_loaded(m.0, m.1, m.2));
        }
    }
}

/// The light levels that one spread from `p` changed, relative to the buffer `mid`.
pub open spec fn spread_frame(
    new: ChunkBuffer,
    mid: ChunkBuffer,
    p: Pos,
    l: u8,
    sun: bool,
    q: Seq<Pos>,
    dirty: Set<ChunkPos>,
) -> bool {
    forall|x: i16, y: i16, z: i16|
        #![trigger new.block_at(x, y, z)]
        {
            &&& without_level(new.block_at(x, y, z), sun) == without_level(mid.block_at(x, y, z), sun)
            &&& spec_transparent(new.block_at(x, y, z)) == spec_transparent(mid.block_at(x, y, z))
            &&& spec_level(new.block_at(x, y, z), !sun) == spec_level(mid.block_at(x, y, z), !sun)
            &&& level_at(new, (x, y, z), sun) >= level_at(mid, (x, y, z), sun)
            &&& level_at(new, (x, y, z), sun) != level_at(mid, (x, y, z), sun) ==> {
                &&& q.contains((x, y, z))
                &&& dirty.contains(chunk_of((x, y, z)))
                &&& level_at(new, (x, y, z), sun) == l - 1
                &&& exists|d: int| 0 <= d < 6 && (x, y, z) == #[trigger] neighbour(p, d)
                &&& new.block_loaded(x, y, z)
            }
        }
}

proof fn lemma_step_frame(
    mid: ChunkBuffer,
    new: ChunkBuffer,
    old: ChunkBuffer,
    sun: bool,
    p: Pos,
    l: u8,
    settled: Set<Pos>,
    settled2: Set<Pos>,
    dmid: Set<ChunkPos>,
    qnew: Seq<Pos>,
    dnew: Set<ChunkPos>,
)
    requires
        frame_ok(mid, old, sun, settled, dmid),
        spread_frame(new, mid, p, l, sun, qnew, dnew),
        dmid.subset_of(dnew),
        settled.subset_of(settled2),
        forall|t: Pos| level_at(new, t, sun) != level_at(mid, t, sun) ==> #[trigger] settled2.contains(t),
    ensures
        frame_ok(new, old, sun, settled2, dnew),
{
    assert forall|x: i16, y: i16, z: i16|
        #![trigger new.block_at(x, y, z)]
        {
            &&& without_level(new.block_at(x, y, z), sun) == without_level(old.block_at(x, y, z), sun)
            &&& spec_transparent(new.block_at(x, y, z)) == spec_transparent(old.block_at(x, y, z))
            &&& spec_level(new.block_at(x, y, z), !sun) == spec_level(old.block_at(x, y, z), !sun)
            &&& level_at(new, (x, y, z), sun) >= level_at(old, (x, y, z), sun)
            &&& level_at(new, (x, y, z), sun) != level_at(old, (x, y, z), sun) ==> {
                &&& dnew.contains(chunk_of((x, y, z)))
                &&& settled2.contains((x, y, z))
            }
        } by {
        assert(mid.block_at(x, y, z) == mid.block_at(x, y, z));
        if level_at(new, (x, y, z), sun) != level_at(mid, (x, y, z), sun) {
            assert(settled2.contains((x, y, z)));
        }
    }
}

proof fn lemma_step_near(
    mid: ChunkBuffer,
    new: ChunkBuffer,
    sun: bool,
    starts: Seq<Pos>,
    q: Seq<Pos>,
    near: Map<Pos, int>,
    near2: Map<Pos, int>,
    qnew: Seq<Pos>,
    dnew: Set<ChunkPos>,
)
    requires
        near_ok(mid, starts, q, near, sun),
        q.len() > 0,
        i16::MIN < q.last().0 < i16::MAX,
        i16::MIN < q.last().1 < i16::MAX,
        i16::MIN < q.last().2 < i16::MAX,
        spread_frame(new, mid, q.last(), level_at(mid, q.last(), sun), sun, qnew, dnew),
        qnew.len() >= q.len() - 1,
        qnew.subrange(0, q.len() - 1) == q.drop_last(),
        forall|i: int|
            q.len() - 1 <= i < qnew.len() ==> level_at(new, #[trigger] qnew[i], sun) == level_at(mid, q.last(), sun) - 1
                && level_at(mid, qnew[i], sun) < level_at(mid, q.last(), sun) - 1,
        forall|x: i16, y: i16, z: i16|
            #![trigger new.block_loaded(x, y, z)]
            new.block_loaded(x, y, z) == mid.block_loaded(x, y, z),
        forall|t: Pos| #[trigger] near2.contains_key(t) == (near.contains_key(t) || level_at(new, t, sun) != level_at(mid, t, sun)),
        forall|t: Pos| #[trigger] near2.contains_key(t) ==> near2[t] == if level_at(new, t, sun) != level_at(mid, t, sun) { near[q.last()] } else { near[t] },
    ensures
        near_ok(new, starts, qnew, near2, sun),
{
    let p = q.last();
    let w = near[p];
    assert(q[q.len() - 1] == p);
    assert forall|i: int| 0 <= i < qnew.len() implies {
        let e = #[trigger] qnew[i];
        &&& near2.contains_key(e)
        &&& 0 <= near2[e] < starts.len()
        &&& dist(e, starts[near2[e]]) + level_at(new, e, sun) <= 15
        &&& entry_ok(new, e, sun)
    } by {
        let e = qnew[i];
        assert(mid.block_at(e.0, e.1, e.2) == mid.block_at(e.0, e.1, e.2));
        assert(new.block_at(e.0, e.1, e.2) == new.block_at(e.0, e.1, e.2));
        assert(mid.block_loaded(e.0, e.1, e.2) == new.block_loaded(e.0, e.1, e.2));
        if i < q.len() - 1 {
            assert(qnew[i] == q.drop_last()[i]);
            assert(q[i] == e);
        }
        assert(e == (e.0, e.1, e.2));
        assert(near_ok(mid, starts, q, near, sun));
        let pe = q[q.len() - 1];
        assert(near.contains_key(pe) && 0 <= near[pe] < starts.len() && dist(pe, starts[near[pe]]) + level_at(mid, pe, sun) <= 15);
        if level_at(new, e, sun) != level_at(mid, e, sun) {
            assert(exists|d: int| 0 <= d < 6 && (e.0, e.1, e.2) == #[trigger] neighbour(p, d));
            let d = choose|d: int| 0 <= d < 6 && (e.0, e.1, e.2) == #[trigger] neighbour(p, d);
            lemma_neighbour_dist(p, d, starts[w]);
            assert(near2.contains_key(e));
            assert(near2[e] == w);
            assert(level_at(new, e, sun) == level_at(mid, p, sun) - 1);
        } else {
            assert(i < q.len() - 1);
            assert(near.contains_key(e));
            assert(near2.contains_key(e));
            assert(near2[e] == near[e]);
        }
    }
}

proof fn lemma_step_settled(
    mid: ChunkBuffer,
    new: ChunkBuffer,
    sun: bool,
    q: Seq<Pos>,
    settled: Set<Pos>,
    settled2: Set<Pos>,
    qnew: Seq<Pos>,
    dnew: Set<ChunkPos>,
)
    requires
        settled_ok(mid, settled, q, sun),
        q.len() > 0,
        passes_on(new, q.last(), sun),
        spread_frame(new, mid, q.last(), level_at(mid, q.last(), sun), sun, qnew, dnew),
        qnew.len() >= q.len() - 1,
        qnew.subrange(0, q.len() - 1) == q.drop_last(),
        forall|t: Pos| #[trigger] settled2.contains(t) ==> settled.contains(t) || t == q.last() || level_at(new, t, sun) != level_at(mid, t, sun),
    ensures
        settled_ok(new, settled2, qnew, sun),
{
    let p = q.last();
    assert forall|t: Pos| #[trigger] settled2.contains(t) implies qnew.contains(t) || passes_on(new, t, sun) by {
        assert(new.block_at(t.0, t.1, t.2) == new.block_at(t.0, t.1, t.2));
        assert(mid.block_at(t.0, t.1, t.2) == mid.block_at(t.0, t.1, t.2));
        if t == p {
        } else if level_at(new, t, sun) != level_at(mid, t, sun) {
        } else {
            assert(settled.contains(t));
            if q.contains(t) {
                let j = choose|j: int| 0 <= j < q.len() && q[j] == t;
                assert(j < q.len() - 1);
                assert(qnew[j] == q.drop_last()[j]);
            } else {
                assert(passes_on(mid, t, sun));
                assert forall|x: i16, y: i16, z: i16|
                    #![trigger new.block_at(x, y, z)]
                    level_at(new, (x, y, z), sun) >= level_at(mid, (x, y, z), sun) && spec_transparent(
                        new.block_at(x, y, z),
                    ) == spec_transparent(mid.block_at(x, y, z)) by {
                    assert(mid.block_at(x, y, z) == mid.block_at(x, y, z));
                }
                lemma_passes_mono(mid, new, t, sun);
            }
        }
    }
}

/// One spread from the popped position keeps the queue invariant.
proof fn lemma_queue_step(
    mid: ChunkBuffer,
    new: ChunkBuffer,
    old: ChunkBuffer,
    sun: bool,
    starts: Seq<Pos>,
    q: Seq<Pos>,
    near: Map<Pos, int>,
    settled: Set<Pos>,
    dirty0: Set<ChunkPos>,
    dmid: Set<ChunkPos>,
    qnew: Seq<Pos>,
    dnew: Set<ChunkPos>,
) -> (r: (Map<Pos, int>, Set<Pos>))
    requires
        queue_inv(mid, old, sun, starts, q, near, settled, dirty0, dmid),
        q.len() > 0,
        sun ==> 0 <= q.last().2 < 1024,
        i16::MIN < q.last().0 < i16::MAX,
        i16::MIN < q.last().1 < i16::MAX,
        i16::MIN < q.last().2 < i16::MAX,
        spread_state(
            new,
            mid,
            q.last(),
            level_at(mid, q.last(), sun),
            6,
            sun,
            q.drop_last(),
            qnew,
            dmid,
            dnew,
        ),
    ensures
        queue_inv(new, old, sun, starts, qnew, r.0, r.1, dirty0, dnew),
{
    let p = q.last();
    let l = level_at(mid, p, sun);
    let w = near[p];
    assert(q[q.len() - 1] == p);
    let near2 = Map::new(
        |t: Pos| near.contains_key(t) || level_at(new, t, sun) != level_at(mid, t, sun),
        |t: Pos| if level_at(new, t, sun) != level_at(mid, t, sun) { w } else { near[t] },
    );
    let settled2 = settled.union(Set::new(|t: Pos| level_at(new, t, sun) != level_at(mid, t, sun))).insert(p);
    assert(new.same_shape(old));
    assert forall|x: i16, y: i16, z: i16|
        #![trigger new.block_loaded(x, y, z)]
        new.block_loaded(x, y, z) == old.block_loaded(x, y, z) by {
        assert(mid.block_loaded(x, y, z) == old.block_loaded(x, y, z));
    }
    assert(spread_frame(new, mid, p, l, sun, qnew, dnew));
    lemma_step_frame(mid, new, old, sun, p, l, settled, settled2, dmid, qnew, dnew);
    lemma_step_near(mid, new, sun, starts, q, near, near2, qnew, dnew);
    assert(passes_on(new, p, sun));
    lemma_step_settled(mid, new, sun, q, settled, settled2, qnew, dnew);
    assert forall|j: int| 0 <= j < starts.len() implies settled2.contains(#[trigger] starts[j]) by {
        assert(settled.contains(starts[j]));
    }
    (near2, settled2)
}

/// What propagating light from `starts` achieves: only light levels rise, every raised
/// block lies in a dirty chunk and has passed its light on, and so has every start.
pub open spec fn propagated(
    new: ChunkBuffer,
    old: ChunkBuffer,
    sun: bool,
    starts: Seq<Pos>,
    dirty0: Set<ChunkPos>,
    dirty: Set<ChunkPos>,
) -> bool {
    &&& keeps_shape(new, old)
    &&& dirty0.subset_of(dirty)
    &&& forall|x: i16, y: i16, z: i16|
        #![trigger new.block_at(x, y, z)]
        {
            &&& without_level(new.block_at(x, y, z), sun) == without_level(old.block_at(x, y, z), sun)
            &&& spec_transparent(new.block_at(x, y, z)) == spec_transparent(old.block_at(x, y, z))
            &&& spec_level(new.block_at(x, y, z), !sun) == spec_level(old.block_at(x, y, z), !sun)
            &&& level_at(new, (x, y, z), sun) >= level_at(old, (x, y, z), sun)
            &&& level_at(new, (x, y, z), sun) != level_at(old, (x, y, z), sun) ==> {
                &&& dirty.contains(chunk_of((x, y, z)))
                &&& passes_on(new, (x, y, z), sun)
            }
        }
    &&& forall|j: int| 0 <= j < starts.len() ==> passes_on(new, #[trigger] starts[j], sun)
}

/// With the queue empty, the queue invariant is the result of propagation.
proof fn lemma_queue_done(
    cur: ChunkBuffer,
    old: ChunkBuffer,
    sun: bool,
    starts: Seq<Pos>,
    near: Map<Pos, int>,
    settled: Set<Pos>,
    dirty0: Set<ChunkPos>,
    dirty: Set<ChunkPos>,
)
    requires
        queue_inv(cur, old, sun, starts, Seq::<Pos>::empty(), near, settled, dirty0, dirty),
    ensures
        propagated(cur, old, sun, starts, dirty0, dirty),
{
    assert forall|t: Pos| #[trigger] settled.contains(t) implies passes_on(cur, t, sun) by {
        assert(!Seq::<Pos>::empty().contains(t));
    }
    assert forall|x: i16, y: i16, z: i16|
        #![trigger cur.block_at(x, y, z)]
        level_at(cur, (x, y, z), sun) != level_at(old, (x, y, z), sun) implies passes_on(cur, (x, y, z), sun) by {
        assert(settled.contains((x, y, z)));
    }
    assert forall|j: int| 0 <= j < starts.len() implies passes_on(cur, #[trigger] starts[j], sun) by {
        assert(settled.contains(starts[j]));
    }
}

/// Spread sunlight from (x, y, z), lit at level `l`, to its neighbours (not below the bottom).
fn spread_sunlight(
    chunks: &mut ChunkBuffer,
    x: i16,
    y: i16,
    z: i16,
    l: u8,
    dirty_chunks: &mut ChunkPosSet,
    queue: &mut Vec<Pos>,
)
    requires
        old(chunks).wf(),
        old(dirty_chunks).wf(),
        l <= 15,
        level_at(*old(chunks), (x, y, z), true) == l,
        i16::MIN < x < i16::MAX,
        i16::MIN < y < i16::MAX,
        0 <= z < 1024,
        neighbours_loaded(*old(chunks), (x, y, z), true),
    ensures
        final(dirty_chunks).wf(),
        spread_state(
            *final(chunks),
            *old(chunks),
            (x, y, z),
            l,
            6,
            true,
            old(queue)@,
            final(queue)@,
            old(dirty_chunks)@,
            final(dirty_chunks)@,
        ),
{
    let ghost p = (x, y, z);
    let ghost c0 = *chunks;
    let ghost q0 = queue@;
    let ghost d0 = dirty_chunks@;
    proof {
        lemma_spread_start(c0, p, l, true, q0, d0);
    }
    let ghost (ca, qa, da) = (*chunks, queue@, dirty_chunks@);
    proof {
        assert(neighbour(p, 0) == ((x + 1) as i16, y, z));
        assert(spreads_to(p, 0, true) ==> c0.block_loaded(neighbour(p, 0).0, neighbour(p, 0).1, neighbour(p, 0).2));
    }
    sunlight_helper(chunks, x + 1, y, z, l, dirty_chunks, queue);
    proof { lemma_spread_step(ca, *chunks, c0, p, l, 0, true, q0, qa, queue@, d0, da, dirty_chunks@); }
    let ghost (ca, qa, da) = (*chunks, queue@, dirty_chunks@);
    proof {
        assert(neighbour(p, 1) == ((x - 1) as i16, y, z));
        assert(spreads_to(p, 1, true) ==> c0.block_loaded(neighbour(p, 1).0, neighbour(p, 1).1, neighbour(p, 1).2));
    }
    sunlight_helper(chunks, x - 1, y, z, l, dirty_chunks, queue);
    proof { lemma_spread_step(ca, *chunks, c0, p, l, 1, true, q0, qa, queue@, d0, da, dirty_chunks@); }
    let ghost (ca, qa, da) = (*chunks, queue@, dirty_chunks@);
    proof {
        assert(neighbour(p, 2) == (x, (y + 1) as i16, z));
        assert(spreads_to(p, 2, true) ==> c0.block_loaded(neighbour(p, 2).0, neighbour(p, 2).1, neighbour(p, 2).2));
    }
    sunlight_helper(chunks, x, y + 1, z, l, dirty_chunks, queue);
    proof { lemma_spread_step(ca, *chunks, c0, p, l, 2, true, q0, qa, queue@, d0, da, dirty_chunks@); }
    let ghost (ca, qa, da) = (*chunks, queue@, dirty_chunks@);
    proof {
        assert(neighbour(p, 3) == (x, (y - 1) as i16, z));
        assert(spreads_to(p, 3, true) ==> c0.block_loaded(neighbour(p, 3).0, neighbour(p, 3).1, neighbour(p, 3).2));
    }
    sunlight_helper(chunks, x, y - 1, z, l, dirty_chunks, queue);
    proof { lemma_spread_step(ca, *chunks, c0, p, l, 3, true, q0, qa, queue@, d0, da, dirty_chunks@); }
    let ghost (ca, qa, da) = (*chunks, queue@, dirty_chunks@);
    proof {
        assert(neighbour(p, 4) == (x, y, (z + 1) as i16));
        assert(spreads_to(p, 4, true) ==> c0.block_loaded(neighbour(p, 4).0, neighbour(p, 4).1, neighbour(p, 4).2));
        assert(ca.columns@.dom() =~= ca.columns@.dom());
    }
    if z < 1023 {
        sunlight_helper(chunks, x, y, z + 1, l, dirty_chunks, queue);
    }
    proof { lemma_spread_step(ca, *chunks, c0, p, l, 4, true, q0, qa, queue@, d0, da, dirty_chunks@); }
    let ghost (ca, qa, da) = (*chunks, queue@, dirty_chunks@);
    proof {
        assert(neighbour(p, 5) == (x, y, (z - 1) as i16));
        assert(spreads_to(p, 5, true) ==> c0.block_loaded(neighbour(p, 5).0, neighbour(p, 5).1, neighbour(p, 5).2));
        assert(ca.columns@.dom() =~= ca.columns@.dom());
    }
    if z > 0 {
        sunlight_helper(chunks, x, y, z - 1, l, dirty_chunks, queue);
    }
    proof { lemma_spread_step(ca, *chunks, c0, p, l, 5, true, q0, qa, queue@, d0, da, dirty_chunks@); }
}

/// Popping a sunlight position outside the world height changes nothing and keeps the
/// queue invariant.
proof fn lemma_queue_skip(
    cur: ChunkBuffer,
    old: ChunkBuffer,
    starts: Seq<Pos>,
    q: Seq<Pos>,
    near: Map<Pos, int>,
    settled: Set<Pos>,
    dirty0: Set<ChunkPos>,
    dirty: Set<ChunkPos>,
)
    requires
        queue_inv(cur, old, true, starts, q, near, settled, dirty0, dirty),
        q.len() > 0,
        !(0 <= q.last().2 < 1024),
    ensures
        queue_inv(cur, old, true, starts, q.drop_last(), near, settled, dirty0, dirty),
{
    let qp = q.drop_last();
    assert forall|i: int| 0 <= i < qp.len() implies {
        let e = #[trigger] qp[i];
        &&& near.contains_key(e)
        &&& 0 <= near[e] < starts.len()
        &&& dist(e, starts[near[e]]) + level_at(cur, e, true) <= 15
        &&& entry_ok(cur, e, true)
    } by {
        assert(qp[i] == q[i]);
    }
    assert forall|t: Pos| #[trigger] settled.contains(t) implies qp.contains(t) || passes_on(cur, t, true) by {
        if q.contains(t) && t != q.last() {
            let j = choose|j: int| 0 <= j < q.len() && q[j] == t;
            assert(j != q.len() - 1);
            assert(qp[j] == t);
        }
    }
}

/// Propagation from `s1` and then from `s2` is propagation from both.
pub proof fn lemma_propagated_compose(
    a: ChunkBuffer,
    b: ChunkBuffer,
    c: ChunkBuffer,
    sun: bool,
    s1: Seq<Pos>,
    s2: Seq<Pos>,
    da: Set<ChunkPos>,
    db: Set<ChunkPos>,
    dc: Set<ChunkPos>,
)
    requires
        propagated(b, a, sun, s1, da, db),
        propagated(c, b, sun, s2, db, dc),
    ensures
        propagated(c, a, sun, s1 + s2, da, dc),
{
    assert(c.same_shape(a));
    assert forall|x: i16, y: i16, z: i16|
        #![trigger c.block_loaded(x, y, z)]
        c.block_loaded(x, y, z) == a.block_loaded(x, y, z) by {
        assert(b.block_loaded(x, y, z) == a.block_loaded(x, y, z));
    }
    assert forall|x: i16, y: i16, z: i16|
        #![trigger c.block_at(x, y, z)]
        level_at(c, (x, y, z), sun) >= level_at(b, (x, y, z), sun) && spec_transparent(
            c.block_at(x, y, z),
        ) == spec_transparent(b.block_at(x, y, z)) by {
        assert(b.block_at(x, y, z) == b.block_at(x, y, z));
    }
    assert forall|x: i16, y: i16, z: i16|
        #![trigger c.block_at(x, y, z)]
        {
            &&& without_level(c.block_at(x, y, z), sun) == without_level(a.block_at(x, y, z), sun)
            &&& spec_transparent(c.block_at(x, y, z)) == spec_transparent(a.block_at(x, y, z))
            &&& spec_level(c.block_at(x, y, z), !sun) == spec_level(a.block_at(x, y, z), !sun)
            &&& level_at(c, (x, y, z), sun) >= level_at(a, (x, y, z), sun)
            &&& level_at(c, (x, y, z), sun) != level_at(a, (x, y, z), sun) ==> {
                &&& dc.contains(chunk_of((x, y, z)))
                &&& passes_on(c, (x, y, z), sun)
            }
        } by {
        assert(b.block_at(x, y, z) == b.block_at(x, y, z));
        if level_at(c, (x, y, z), sun) != level_at(a, (x, y, z), sun) && level_at(c, (x, y, z), sun)
            == level_at(b, (x, y, z), sun) {
            lemma_passes_mono(b, c, (x, y, z), sun);
        }
    }
    assert forall|j: int| 0 <= j < (s1 + s2).len() implies passes_on(c, #[trigger] (s1 + s2)[j], sun) by {
        if j < s1.len() {
            let t = s1[j];
            assert((s1 + s2)[j] == t);
            assert(passes_on(b, t, sun));
            assert(b.block_at(t.0, t.1, t.2) == b.block_at(t.0, t.1, t.2));
            assert(c.block_at(t.0, t.1, t.2) == c.block_at(t.0, t.1, t.2));
            if level_at(c, t, sun) == level_at(b, t, sun) {
                lemma_passes_mono(b, c, t, sun);
            }
        } else {
            assert((s1 + s2)[j] == s2[j - s1.len()]);
        }
    }
}

/// Nothing propagated from nothing.
pub proof fn lemma_propagated_none(a: ChunkBuffer, sun: bool, d: Set<ChunkPos>)
    requires
        a.wf(),
    ensures
        propagated(a, a, sun, Seq::empty(), d, d),
{
    assert(a.columns@.dom() =~= a.columns@.dom());
}

impl ChunkBuffer {
    /// Propagate light from the blocks in `start_queue` outwards, flood-fill style: every
    /// transparent neighbour darker by two or more gets one level less than the block it
    /// is lit from, and spreads on in turn.
    pub fn propagate_light_queue(&mut self, start_queue: Vec<Pos>, dirty_chunks: &mut ChunkPosSet)
        requires
            old(self).wf(),
            old(dirty_chunks).wf(),
            starts_loaded(*old(self), start_queue@, 16),
            forall|j: int|
                0 <= j < start_queue.len() ==> old(self).block_loaded(
                    (#[trigger] start_queue@[j]).0,
                    start_queue@[j].1,
                    start_queue@[j].2,
                ),
        ensures
            final(dirty_chunks).wf(),
            propagated(*final(self), *old(self), false, start_queue@, old(dirty_chunks)@, final(dirty_chunks)@),
    {
        let ghost old_self = *self;
        let ghost starts = start_queue@;
        let ghost d0 = dirty_chunks@;
        let mut queue = start_queue;
        let ghost r = lemma_queue_start(*self, false, starts, d0);
        let ghost mut near = r.0;
        let ghost mut settled = r.1;
        while queue.len() > 0
            invariant
                self.wf(),
                dirty_chunks.wf(),
                starts_loaded(old_self, starts, 16),
                queue_inv(*self, old_self, false, starts, queue@, near, settled, d0, dirty_chunks@),
            decreases 7 * deficit(*self, false) + queue.len(),
        {
            let ghost q = queue@;
            let ghost mid = *self;
            let ghost dmid = dirty_chunks@;
            proof {
                lemma_pop_ready(mid, old_self, false, starts, q, near, q.len() - 1);
                assert(q.last() == q[q.len() - 1]);
            }
            let (x, y, z) = queue.pop().unwrap();
            proof {
                assert(queue@ == q.drop_last());
            }
            let l = self.get_block(x, y, z).get_light();
            spread_light(self, x, y, z, l, dirty_chunks, &mut queue);
            proof {
                let r = lemma_queue_step(mid, *self, old_self, false, starts, q, near, settled, d0, dmid, queue@, dirty_chunks@);
                near = r.0;
                settled = r.1;
            }
        }
        proof {
            assert(queue@ =~= Seq::<Pos>::empty());
            lemma_queue_done(*self, old_self, false, starts, near, settled, d0, dirty_chunks@);
        }
    }

    /// Propagate sunlight from the sunlit blocks in `start_queue` outward, flood-fill style.
    pub fn propagate_sunlight_queue(&mut self, start_queue: Vec<Pos>, dirty_chunks: &mut ChunkPosSet)
        requires
            old(self).wf(),
            old(dirty_chunks).wf(),
            starts_loaded(*old(self), start_queue@, 16),
        ensures
            final(dirty_chunks).wf(),
            propagated(*final(self), *old(self), true, start_queue@, old(dirty_chunks)@, final(dirty_chunks)@),
    {
        let ghost old_self = *self;
        let ghost starts = start_queue@;
        let ghost d0 = dirty_chunks@;
        proof {
            assert forall|j: int| 0 <= j < starts.len() implies entry_ok(old_self, #[trigger] starts[j], true) by {
                let s = starts[j];
                assert(loaded_around(old_self, s, 16));
                assert(dist((s.0, s.1, s.2), s) == 0);
            }
        }
        let mut queue = start_queue;
        let ghost r = lemma_queue_start(*self, true, starts, d0);
        let ghost mut near = r.0;
        let ghost mut settled = r.1;
        while queue.len() > 0
            invariant
                self.wf(),
                dirty_chunks.wf(),
                starts_loaded(old_self, starts, 16),
                queue_inv(*self, old_self, true, starts, queue@, near, settled, d0, dirty_chunks@),
            decreases 7 * deficit(*self, true) + queue.len(),
        {
            let ghost q = queue@;
            let ghost mid = *self;
            let ghost dmid = dirty_chunks@;
            proof {
                lemma_pop_ready(mid, old_self, true, starts, q, near, q.len() - 1);
                assert(q.last() == q[q.len() - 1]);
            }
            let (x, y, z) = queue.pop().unwrap();
            proof {
                assert(queue@ == q.drop_last());
            }
            if z >= 0 && z < 1024 {
                let l = self.get_block(x, y, z).get_sunlight();
                spread_sunlight(self, x, y, z, l, dirty_chunks, &mut queue);
                proof {
                    let r = lemma_queue_step(mid, *self, old_self, true, starts, q, near, settled, d0, dmid, queue@, dirty_chunks@);
                    near = r.0;
                    settled = r.1;
                }
            } else {
                proof {
                    lemma_queue_skip(mid, old_self, starts, q, near, settled, d0, dmid);
                }
            }
        }
        proof {
            assert(queue@ =~= Seq::<Pos>::empty());
            lemma_queue_done(*self, old_self, true, starts, near, settled, d0, dirty_chunks@);
        }
    }

    /// Propagate block light outwards from (wbx, wby, wbz).
    pub fn propagate_light(&mut self, wbx: i16, wby: i16, wbz: i16, dirty_chunks: &mut ChunkPosSet)
        requires
            old(self).wf(),
            old(dirty_chunks).wf(),
            loaded_around(*old(self), (wbx, wby, wbz), 16),
            old(self).block_loaded(wbx, wby, wbz),
        ensures
            final(dirty_chunks).wf(),
            propagated(*final(self), *old(self), false, seq![(wbx, wby, wbz)], old(dirty_chunks)@, final(dirty_chunks)@),
    {
        let mut queue = Vec::new();
        queue.push((wbx, wby, wbz));
        proof {
            assert(queue@ =~= seq![(wbx, wby, wbz)]);
        }
        self.propagate_light_queue(queue, dirty_chunks);
    }
}

} // verus!
