//! Removal of light that was propagated from a source, flood-fill style, and the
//! re-propagation of light from the other sources around it.

use super::light::{
    propagated, chunk_of, dist, get_level, keeps_shape, lemma_level, level_at, neighbour, spec_level,
    transparent_at, with_level, without_level,
};
use super::world_sum::{lemma_world_sum_ext, lemma_world_sum_point, world_sum, Pos};
use crate::block::{lemma_air, spec_transparent, Block, BlockTrait};
use crate::chunk::chunk_buffer::ChunkBuffer;
use crate::chunk::chunk_pos_set::ChunkPosSet;
use crate::chunk::chunkpos::{spec_chunk_of, ChunkPos};
use std::collections::VecDeque;
use vstd::prelude::*;

verus! {

/// A queued removal: a position and the light level that was removed there.
pub type Removal = (i16, i16, i16, u8);

/// The position of a removal.
pub open spec fn rpos(e: Removal) -> Pos {
    (e.0, e.1, e.2)
}

/// The light levels summed over the world.
pub open spec fn lit(buf: ChunkBuffer, sun: bool) -> nat {
    world_sum(|p: Pos| level_at(buf, p, sun) as nat)
}

/// Whether a lit neighbour at level `l` next to a removal of level `lv` is a source to
/// propagate from again: brighter for sunlight, at least as bright for block light.
pub open spec fn refills(l: u8, lv: u8, sun: bool) -> bool {
    if sun {
        l > lv
    } else {
        l >= lv
    }
}

/// `new` is `old` with the light level at `q` set to zero and nothing else changed.
pub open spec fn zeroed_at(new: ChunkBuffer, old: ChunkBuffer, q: Pos, sun: bool) -> bool {
    &&& new.block_at(q.0, q.1, q.2) == super::light::spec_with_level(old.block_at(q.0, q.1, q.2), 0, sun)
    &&& forall|x: i16, y: i16, z: i16|
        #![trigger new.block_at(x, y, z)]
        (x, y, z) != q ==> new.block_at(x, y, z) == old.block_at(x, y, z)
}

/// Remove the light at (x, y, z) if it is transparent and dimmer than `level` (then queue it
/// with its old level), or queue it for propagation if it is a source of light again.
fn remove_step(
    chunks: &mut ChunkBuffer,
    x: i16,
    y: i16,
    z: i16,
    level: u8,
    sun: bool,
    dirty_chunks: &mut ChunkPosSet,
    queue: &mut VecDeque<Removal>,
    propagate_queue: &mut Vec<Pos>,
)
    requires
        old(chunks).wf(),
        old(dirty_chunks).wf(),
    ensures
        keeps_shape(*final(chunks), *old(chunks)),
        final(dirty_chunks).wf(),
        ({
            let b0 = old(chunks).block_at(x, y, z);
            let l0 = spec_level(b0, sun);
            let removed = spec_transparent(b0) && l0 != 0 && l0 < level;
            let refill = spec_transparent(b0) && !(l0 != 0 && l0 < level) && refills(l0, level, sun);
            &&& removed ==> {
                &&& zeroed_at(*final(chunks), *old(chunks), (x, y, z), sun)
                &&& final(dirty_chunks)@ == old(dirty_chunks)@.insert(spec_chunk_of(x, y, z))
                &&& final(queue)@ == old(queue)@.push((x, y, z, l0))
                &&& lit(*final(chunks), sun) < lit(*old(chunks), sun)
                &&& final(propagate_queue)@ == old(propagate_queue)@
            }
            &&& !removed ==> {
                &&& final(chunks).columns@ == old(chunks).columns@
                &&& final(dirty_chunks)@ == old(dirty_chunks)@
                &&& final(queue)@ == old(queue)@
                &&& final(propagate_queue)@ == if refill {
                    old(propagate_queue)@.push((x, y, z))
                } else {
                    old(propagate_queue)@
                }
            }
        }),
{
    let block = chunks.get_block(x, y, z);
    if block.is_transparent() {
        let cur = get_level(block, sun);
        if cur != 0 && cur < level {
            proof {
                lemma_air();
                lemma_level(block, 0, sun);
            }
            let b = with_level(block, 0, sun);
            let ghost old_chunks = *chunks;
            chunks.set_block(x, y, z, b);
            proof {
                let f = |p: Pos| level_at(old_chunks, p, sun) as nat;
                let g = |p: Pos| level_at(*chunks, p, sun) as nat;
                assert forall|p: Pos| p != (x, y, z) implies #[trigger] f(p) == g(p) by {
                    assert(chunks.block_at(p.0, p.1, p.2) == old_chunks.block_at(p.0, p.1, p.2));
                }
                lemma_world_sum_point(f, g, (x, y, z));
            }
            dirty_chunks.insert(ChunkPos::from_world_block_coords(x, y, z));
            queue.push_back((x, y, z, cur));
        } else if (if sun {
            cur > level
        } else {
            cur >= level
        }) {
            propagate_queue.push((x, y, z));
        }
    }
}

impl ChunkBuffer {
    /// Remove block light at (wbx, wby, wbz) if it came from a removed light of `light_level`,
    /// or queue the block as a source of light to propagate again.
    pub fn light_removal_helper(
        &mut self,
        wbx: i16,
        wby: i16,
        wbz: i16,
        light_level: u8,
        dirty_chunks: &mut ChunkPosSet,
        queue: &mut VecDeque<Removal>,
        propagate_queue: &mut Vec<Pos>,
    )
        requires
            old(self).wf(),
            old(dirty_chunks).wf(),
        ensures
            keeps_shape(*final(self), *old(self)),
            final(dirty_chunks).wf(),
            ({
                let b0 = old(self).block_at(wbx, wby, wbz);
                let l0 = spec_level(b0, false);
                let removed = spec_transparent(b0) && l0 != 0 && l0 < light_level;
                let refill = spec_transparent(b0) && !(l0 != 0 && l0 < light_level) && l0 >= light_level;
                &&& removed ==> {
                    &&& zeroed_at(*final(self), *old(self), (wbx, wby, wbz), false)
                    &&& final(dirty_chunks)@ == old(dirty_chunks)@.insert(spec_chunk_of(wbx, wby, wbz))
                    &&& final(queue)@ == old(queue)@.push((wbx, wby, wbz, l0))
                    &&& lit(*final(self), false) < lit(*old(self), false)
                    &&& final(propagate_queue)@ == old(propagate_queue)@
                }
                &&& !removed ==> {
                    &&& final(self).columns@ == old(self).columns@
                    &&& final(dirty_chunks)@ == old(dirty_chunks)@
                    &&& final(queue)@ == old(queue)@
                    &&& final(propagate_queue)@ == if refill {
                        old(propagate_queue)@.push((wbx, wby, wbz))
                    } else {
                        old(propagate_queue)@
                    }
                }
            }),
    {
        remove_step(self, wbx, wby, wbz, light_level, false, dirty_chunks, queue, propagate_queue);
    }
}

/// Remove sunlight at (wbx, wby, wbz) if it came from removed sunlight of `sunlight_level`,
/// or queue the block as a source of sunlight to propagate again. Blocks outside the world
/// height are left alone.
pub fn sunlight_removal_helper(
    chunks: &mut ChunkBuffer,
    wbx: i16,
    wby: i16,
    wbz: i16,
    sunlight_level: u8,
    dirty_chunks: &mut ChunkPosSet,
    queue: &mut VecDeque<Removal>,
    propagate_queue: &mut Vec<Pos>,
)
    requires
        old(chunks).wf(),
        old(dirty_chunks).wf(),
        0 <= wbz < 1024 ==> old(chunks).block_loaded(wbx, wby, wbz),
    ensures
        keeps_shape(*final(chunks), *old(chunks)),
        final(dirty_chunks).wf(),
        ({
            let b0 = old(chunks).block_at(wbx, wby, wbz);
            let l0 = spec_level(b0, true);
            let inside = 0 <= wbz < 1024;
            let removed = inside && spec_transparent(b0) && l0 != 0 && l0 < sunlight_level;
            let refill = inside && spec_transparent(b0) && !(l0 != 0 && l0 < sunlight_level) && l0 > sunlight_level;
            &&& removed ==> {
                &&& zeroed_at(*final(chunks), *old(chunks), (wbx, wby, wbz), true)
                &&& final(dirty_chunks)@ == old(dirty_chunks)@.insert(spec_chunk_of(wbx, wby, wbz))
                &&& final(queue)@ == old(queue)@.push((wbx, wby, wbz, l0))
                &&& lit(*final(chunks), true) < lit(*old(chunks), true)
                &&& final(propagate_queue)@ == old(propagate_queue)@
            }
            &&& !removed ==> {
                &&& final(chunks).columns@ == old(chunks).columns@
                &&& final(dirty_chunks)@ == old(dirty_chunks)@
                &&& final(queue)@ == old(queue)@
                &&& final(propagate_queue)@ == if refill {
                    old(propagate_queue)@.push((wbx, wby, wbz))
                } else {
                    old(propagate_queue)@
                }
            }
        }),
{
    let cp = ChunkPos::from_world_block_coords(wbx, wby, wbz);
    proof {
        crate::chunk::lemma_shr4(wbz);
    }
    if cp.z < 0 || cp.z >= 64 {
        return;
    }
    remove_step(chunks, wbx, wby, wbz, sunlight_level, true, dirty_chunks, queue, propagate_queue);
}

/// Whether the removal reaches the `d`-th neighbour of `p`: sunlight removal stays within
/// the world height, block light removal reaches every neighbour.
pub open spec fn rem_spreads(p: Pos, d: int, sun: bool) -> bool {
    sun ==> 0 <= neighbour(p, d).2 < 1024
}

/// After removing level `lv` at `p`, its `d`-th neighbour, if reached and transparent, is
/// dark or at least as bright as `lv`, and queued for propagation when it refills.
pub open spec fn rem_cond(cur: ChunkBuffer, p: Pos, d: int, lv: u8, sun: bool, pq: Seq<Pos>) -> bool {
    let q = neighbour(p, d);
    rem_spreads(p, d, sun) && transparent_at(cur, q) ==> {
        &&& (level_at(cur, q, sun) == 0 || level_at(cur, q, sun) >= lv)
        &&& (refills(level_at(cur, q, sun), lv, sun) ==> pq.contains(q))
    }
}

/// The neighbour direction handled at step `j` of a removal: -x, +x, -y, +y, then -z, +z
/// for block light and +z, -z for sunlight.
pub open spec fn rem_dir(j: int, sun: bool) -> int {
    if j == 0 {
        1
    } else if j == 1 {
        0
    } else if j == 2 {
        3
    } else if j == 3 {
        2
    } else if j == 4 {
        if sun {
            4
        } else {
            5
        }
    } else {
        if sun {
            5
        } else {
            4
        }
    }
}

/// The neighbours of `p` handled in the first `k` steps satisfy the removal condition for
/// level `lv`.
pub open spec fn rem_upto(cur: ChunkBuffer, p: Pos, k: int, lv: u8, sun: bool, pq: Seq<Pos>) -> bool {
    forall|j: int| 0 <= j < k ==> #[trigger] rem_cond(cur, p, rem_dir(j, sun), lv, sun, pq)
}

/// Every neighbour of `p` satisfies the removal condition for level `lv`.
pub open spec fn rem_passes(cur: ChunkBuffer, p: Pos, lv: u8, sun: bool, pq: Seq<Pos>) -> bool {
    forall|d: int| 0 <= d < 6 ==> #[trigger] rem_cond(cur, p, d, lv, sun, pq)
}

proof fn lemma_rem_all(cur: ChunkBuffer, p: Pos, lv: u8, sun: bool, pq: Seq<Pos>)
    requires
        rem_upto(cur, p, 6, lv, sun, pq),
    ensures
        rem_passes(cur, p, lv, sun, pq),
{
    assert forall|d: int| 0 <= d < 6 implies #[trigger] rem_cond(cur, p, d, lv, sun, pq) by {
        let j = if d == 0 {
            1int
        } else if d == 1 {
            0int
        } else if d == 2 {
            3int
        } else if d == 3 {
            2int
        } else if d == 4 {
            if sun {
                4int
            } else {
                5int
            }
        } else {
            if sun {
                5int
            } else {
                4int
            }
        };
        assert(rem_dir(j, sun) == d);
        assert(rem_cond(cur, p, rem_dir(j, sun), lv, sun, pq));
    }
}

/// The state while level `lv` is removed at `p` from its first `k` neighbours.
pub open spec fn rem_state(
    cur: ChunkBuffer,
    mid: ChunkBuffer,
    p: Pos,
    lv: u8,
    k: int,
    sun: bool,
    q0: Seq<Removal>,
    q: Seq<Removal>,
    pq0: Seq<Pos>,
    pq: Seq<Pos>,
    dirty0: Set<ChunkPos>,
    dirty: Set<ChunkPos>,
) -> bool {
    &&& keeps_shape(cur, mid)
    &&& q.len() >= q0.len()
    &&& q.subrange(0, q0.len() as int) == q0
    &&& forall|i: int|
        q0.len() <= i < q.len() ==> {
            let e = #[trigger] q[i];
            &&& e.3 == level_at(mid, rpos(e), sun)
            &&& 0 < e.3 < lv
            &&& level_at(cur, rpos(e), sun) == 0
            &&& exists|d: int| 0 <= d < 6 && rpos(e) == #[trigger] neighbour(p, d)
        }
    &&& pq.len() >= pq0.len()
    &&& pq.subrange(0, pq0.len() as int) == pq0
    &&& forall|i: int|
        pq0.len() <= i < pq.len() ==> exists|d: int| 0 <= d < 6 && #[trigger] pq[i] == #[trigger] neighbour(p, d)
    &&& (sun || lv > 0) ==> forall|i: int|
        pq0.len() <= i < pq.len() ==> mid.block_loaded((#[trigger] pq[i]).0, pq[i].1, pq[i].2)
    &&& forall|x: i16, y: i16, z: i16|
        #![trigger cur.block_at(x, y, z)]
        {
            &&& without_level(cur.block_at(x, y, z), sun) == without_level(mid.block_at(x, y, z), sun)
            &&& spec_transparent(cur.block_at(x, y, z)) == spec_transparent(mid.block_at(x, y, z))
            &&& spec_level(cur.block_at(x, y, z), !sun) == spec_level(mid.block_at(x, y, z), !sun)
            &&& level_at(cur, (x, y, z), sun) == level_at(mid, (x, y, z), sun) || {
                &&& level_at(cur, (x, y, z), sun) == 0
                &&& 0 < level_at(mid, (x, y, z), sun) < lv
                &&& q.contains((x, y, z, level_at(mid, (x, y, z), sun)))
                &&& dirty.contains(chunk_of((x, y, z)))
            }
        }
    &&& dirty0.subset_of(dirty)
    &&& rem_upto(cur, p, k, lv, sun, pq)
    &&& 7 * lit(cur, sun) + q.len() <= 7 * lit(mid, sun) + q0.len()
}

/// The removal condition holds on after further levels drop to zero.
proof fn lemma_rem_cond_mono(a: ChunkBuffer, b: ChunkBuffer, p: Pos, d: int, lv: u8, sun: bool, pqa: Seq<Pos>, pqb: Seq<Pos>)
    requires
        rem_cond(a, p, d, lv, sun, pqa),
        forall|i: int| 0 <= i < pqa.len() ==> pqb.contains(#[trigger] pqa[i]),
        transparent_at(b, neighbour(p, d)) == transparent_at(a, neighbour(p, d)),
        level_at(b, neighbour(p, d), sun) == level_at(a, neighbour(p, d), sun) || level_at(b, neighbour(p, d), sun) == 0,
    ensures
        rem_cond(b, p, d, lv, sun, pqb),
{
    let q = neighbour(p, d);
    if rem_spreads(p, d, sun) && transparent_at(b, q) && refills(level_at(b, q, sun), lv, sun) {
        assert(pqa.contains(q));
        let i = choose|i: int| 0 <= i < pqa.len() && pqa[i] == q;
        assert(pqb.contains(pqa[i]));
    }
}

/// Before any neighbour is handled.
proof fn lemma_rem_start(cur: ChunkBuffer, p: Pos, lv: u8, sun: bool, q0: Seq<Removal>, pq0: Seq<Pos>, dirty0: Set<ChunkPos>)
    requires
        cur.wf(),
    ensures
        rem_state(cur, cur, p, lv, 0, sun, q0, q0, pq0, pq0, dirty0, dirty0),
{
    assert(q0.subrange(0, q0.len() as int) =~= q0);
    assert(pq0.subrange(0, pq0.len() as int) =~= pq0);
    assert(cur.columns@.dom() =~= cur.columns@.dom());
}

/// One removal step, at the `k`-th neighbour, moves the removal state on by one.
proof fn lemma_rem_step(
    prev: ChunkBuffer,
    next: ChunkBuffer,
    mid: ChunkBuffer,
    p: Pos,
    lv: u8,
    k: int,
    sun: bool,
    q0: Seq<Removal>,
    qa: Seq<Removal>,
    qb: Seq<Removal>,
    pq0: Seq<Pos>,
    pqa: Seq<Pos>,
    pqb: Seq<Pos>,
    dirty0: Set<ChunkPos>,
    da: Set<ChunkPos>,
    db: Set<ChunkPos>,
)
    requires
        0 <= k < 6,
        i16::MIN < p.0 < i16::MAX,
        i16::MIN < p.1 < i16::MAX,
        i16::MIN < p.2 < i16::MAX,
        rem_state(prev, mid, p, lv, k, sun, q0, qa, pq0, pqa, dirty0, da),
        keeps_shape(next, prev),
        ({
            let n = neighbour(p, rem_dir(k, sun));
            let b0 = prev.block_at(n.0, n.1, n.2);
            let l0 = spec_level(b0, sun);
            let act = rem_spreads(p, rem_dir(k, sun), sun);
            let removed = act && spec_transparent(b0) && l0 != 0 && l0 < lv;
            let refill = act && spec_transparent(b0) && !(l0 != 0 && l0 < lv) && refills(l0, lv, sun);
            &&& removed ==> {
                &&& zeroed_at(next, prev, n, sun)
                &&& db == da.insert(chunk_of(n))
                &&& qb == qa.push((n.0, n.1, n.2, l0))
                &&& lit(next, sun) < lit(prev, sun)
                &&& pqb == pqa
            }
            &&& !removed ==> {
                &&& next.columns@ == prev.columns@
                &&& db == da
                &&& qb == qa
                &&& pqb == if refill { pqa.push(n) } else { pqa }
            }
        }),
    ensures
        rem_state(next, mid, p, lv, k + 1, sun, q0, qb, pq0, pqb, dirty0, db),
{
    let kd = rem_dir(k, sun);
    let n = neighbour(p, kd);
    let b0 = prev.block_at(n.0, n.1, n.2);
    let l0 = spec_level(b0, sun);
    let act = rem_spreads(p, kd, sun);
    let removed = act && spec_transparent(b0) && l0 != 0 && l0 < lv;
    lemma_level(b0, 0, sun);
    assert(next.same_shape(mid));
    assert forall|x: i16, y: i16, z: i16|
        #![trigger next.block_loaded(x, y, z)]
        next.block_loaded(x, y, z) == mid.block_loaded(x, y, z) by {
        assert(prev.block_loaded(x, y, z) == mid.block_loaded(x, y, z));
    }
    assert(qb.subrange(0, q0.len() as int) =~= q0) by {
        assert(qa.subrange(0, q0.len() as int) =~= q0);
    }
    assert(pqb.subrange(0, pq0.len() as int) =~= pq0) by {
        assert(pqa.subrange(0, pq0.len() as int) =~= pq0);
    }
    assert forall|x: i16, y: i16, z: i16|
        #![trigger next.block_at(x, y, z)]
        next.block_at(x, y, z) == prev.block_at(x, y, z) || ((x, y, z) == n && removed) by {
    }
    // the queue entries
    assert forall|i: int| q0.len() <= i < qb.len() implies {
        let e = #[trigger] qb[i];
        &&& e.3 == level_at(mid, rpos(e), sun)
        &&& 0 < e.3 < lv
        &&& level_at(next, rpos(e), sun) == 0
        &&& exists|d: int| 0 <= d < 6 && rpos(e) == #[trigger] neighbour(p, d)
    } by {
        let e = qb[i];
        let r = rpos(e);
        assert(next.block_at(r.0, r.1, r.2) == next.block_at(r.0, r.1, r.2));
        assert(prev.block_at(r.0, r.1, r.2) == prev.block_at(r.0, r.1, r.2));
        assert(mid.block_at(r.0, r.1, r.2) == mid.block_at(r.0, r.1, r.2));
        if i < qa.len() {
            assert(qb[i] == qa[i]);
            let d = choose|d: int| 0 <= d < 6 && rpos(e) == #[trigger] neighbour(p, d);
            assert(0 <= d < 6 && rpos(e) == neighbour(p, d));
        } else {
            assert(removed && e == (n.0, n.1, n.2, l0));
            assert(mid.block_at(n.0, n.1, n.2) == mid.block_at(n.0, n.1, n.2));
            assert(prev.block_at(n.0, n.1, n.2) == prev.block_at(n.0, n.1, n.2));
            if level_at(prev, n, sun) != level_at(mid, n, sun) {
                assert(level_at(prev, n, sun) == 0);
            }
            assert(rpos(e) == neighbour(p, kd));
        }
    }
    assert forall|i: int| pq0.len() <= i < pqb.len() implies exists|d: int| 0 <= d < 6 && #[trigger] pqb[i] == #[trigger] neighbour(p, d) by {
        if i < pqa.len() {
            assert(pqb[i] == pqa[i]);
            let d = choose|d: int| 0 <= d < 6 && #[trigger] pqa[i] == #[trigger] neighbour(p, d);
            assert(0 <= d < 6 && pqb[i] == neighbour(p, d));
        } else {
            assert(pqb[i] == neighbour(p, kd));
        }
    }
    if sun || lv > 0 {
        lemma_air();
        assert forall|i: int| pq0.len() <= i < pqb.len() implies mid.block_loaded((#[trigger] pqb[i]).0, pqb[i].1, pqb[i].2) by {
            if i < pqa.len() {
                assert(pqb[i] == pqa[i]);
            } else {
                assert(pqb[i] == n);
                assert(prev.block_loaded(n.0, n.1, n.2) == mid.block_loaded(n.0, n.1, n.2));
            }
        }
    }
    assert forall|x: i16, y: i16, z: i16|
        #![trigger next.block_at(x, y, z)]
        {
            &&& without_level(next.block_at(x, y, z), sun) == without_level(mid.block_at(x, y, z), sun)
            &&& spec_transparent(next.block_at(x, y, z)) == spec_transparent(mid.block_at(x, y, z))
            &&& spec_level(next.block_at(x, y, z), !sun) == spec_level(mid.block_at(x, y, z), !sun)
            &&& level_at(next, (x, y, z), sun) == level_at(mid, (x, y, z), sun) || {
                &&& level_at(next, (x, y, z), sun) == 0
                &&& 0 < level_at(mid, (x, y, z), sun) < lv
                &&& qb.contains((x, y, z, level_at(mid, (x, y, z), sun)))
                &&& db.contains(chunk_of((x, y, z)))
            }
        } by {
        assert(prev.block_at(x, y, z) == prev.block_at(x, y, z));
        assert(mid.block_at(x, y, z) == mid.block_at(x, y, z));
        if (x, y, z) == n && removed {
            assert(qb[qb.len() - 1] == (n.0, n.1, n.2, l0));
            if level_at(prev, n, sun) != level_at(mid, n, sun) {
                assert(level_at(prev, n, sun) == 0);
            }
        } else {
            if level_at(next, (x, y, z), sun) != level_at(mid, (x, y, z), sun) {
                let e = (x, y, z, level_at(mid, (x, y, z), sun));
                assert(qa.contains(e));
                let j = choose|j: int| 0 <= j < qa.len() && qa[j] == e;
                assert(qb[j] == e);
            }
        }
    }
    // the removal condition
    assert forall|j: int| 0 <= j < k + 1 implies #[trigger] rem_cond(next, p, rem_dir(j, sun), lv, sun, pqb) by {
        let d = rem_dir(j, sun);
        let m = neighbour(p, d);
        assert(next.block_at(m.0, m.1, m.2) == next.block_at(m.0, m.1, m.2));
        assert(prev.block_at(m.0, m.1, m.2) == prev.block_at(m.0, m.1, m.2));
        if j < k {
            assert(rem_cond(prev, p, rem_dir(j, sun), lv, sun, pqa));
            assert forall|i: int| 0 <= i < pqa.len() implies pqb.contains(#[trigger] pqa[i]) by {
                if pqb == pqa.push(n) {
                    assert(pqb[i] == pqa[i]);
                } else {
                    assert(pqb[i] == pqa[i]);
                }
            }
            lemma_rem_cond_mono(prev, next, p, d, lv, sun, pqa, pqb);
        } else {
            if rem_spreads(p, d, sun) && transparent_at(next, m) && refills(level_at(next, m, sun), lv, sun) && !removed {
                assert(pqb[pqb.len() - 1] == m);
            }
        }
    }
    if !removed {
        let f = |q: Pos| level_at(prev, q, sun) as nat;
        let g = |q: Pos| level_at(next, q, sun) as nat;
        assert forall|q: Pos| #[trigger] f(q) == g(q) by {
            assert(next.block_at(q.0, q.1, q.2) == prev.block_at(q.0, q.1, q.2));
        }
        lemma_world_sum_ext(f, g);
    }
}

/// Every neighbour that sunlight removal reaches from `p` is loaded.
pub open spec fn rem_neighbours_loaded(buf: ChunkBuffer, p: Pos) -> bool {
    forall|d: int|
        #![trigger rem_spreads(p, d, true)]
        0 <= d < 6 && rem_spreads(p, d, true) ==> buf.block_loaded(
            neighbour(p, d).0,
            neighbour(p, d).1,
            neighbour(p, d).2,
        )
}

/// Remove level `lv` at (x, y, z) from its six neighbours: -x, +x, -y, +y, then for
/// sunlight +z, -z and for block light -z, +z.
fn rem_spread(
    chunks: &mut ChunkBuffer,
    x: i16,
    y: i16,
    z: i16,
    lv: u8,
    sun: bool,
    dirty_chunks: &mut ChunkPosSet,
    queue: &mut VecDeque<Removal>,
    propagate_queue: &mut Vec<Pos>,
)
    requires
        old(chunks).wf(),
        old(dirty_chunks).wf(),
        i16::MIN < x < i16::MAX,
        i16::MIN < y < i16::MAX,
        i16::MIN < z < i16::MAX,
        sun ==> rem_neighbours_loaded(*old(chunks), (x, y, z)),
    ensures
        final(dirty_chunks).wf(),
        rem_state(
            *final(chunks),
            *old(chunks),
            (x, y, z),
            lv,
            6,
            sun,
            old(queue)@,
            final(queue)@,
            old(propagate_queue)@,
            final(propagate_queue)@,
            old(dirty_chunks)@,
            final(dirty_chunks)@,
        ),
{
    let ghost p = (x, y, z);
    let ghost c0 = *chunks;
    let ghost q0 = queue@;
    let ghost pq0 = propagate_queue@;
    let ghost d0 = dirty_chunks@;
    proof {
        lemma_rem_start(c0, p, lv, sun, q0, pq0, d0);
    }
    let ghost (ca, qa, pqa, da) = (*chunks, queue@, propagate_queue@, dirty_chunks@);
    if sun {
        proof {
            assert(neighbour(p, rem_dir(0, sun)) == ((x - 1) as i16, y, z));
            assert(rem_spreads(p, rem_dir(0, sun), true) ==> c0.block_loaded(neighbour(p, rem_dir(0, sun)).0, neighbour(p, rem_dir(0, sun)).1, neighbour(p, rem_dir(0, sun)).2));
        }
        sunlight_removal_helper(chunks, x - 1, y, z, lv, dirty_chunks, queue, propagate_queue);
    } else {
        proof {
            assert(neighbour(p, rem_dir(0, sun)) == ((x - 1) as i16, y, z));
        }
        chunks.light_removal_helper(x - 1, y, z, lv, dirty_chunks, queue, propagate_queue);
    }
    proof {
        lemma_rem_step(ca, *chunks, c0, p, lv, 0, sun, q0, qa, queue@, pq0, pqa, propagate_queue@, d0, da, dirty_chunks@);
    }
    let ghost (ca, qa, pqa, da) = (*chunks, queue@, propagate_queue@, dirty_chunks@);
    if sun {
        proof {
            assert(neighbour(p, rem_dir(1, sun)) == ((x + 1) as i16, y, z));
            assert(rem_spreads(p, rem_dir(1, sun), true) ==> c0.block_loaded(neighbour(p, rem_dir(1, sun)).0, neighbour(p, rem_dir(1, sun)).1, neighbour(p, rem_dir(1, sun)).2));
        }
        sunlight_removal_helper(chunks, x + 1, y, z, lv, dirty_chunks, queue, propagate_queue);
    } else {
        proof {
            assert(neighbour(p, rem_dir(1, sun)) == ((x + 1) as i16, y, z));
        }
        chunks.light_removal_helper(x + 1, y, z, lv, dirty_chunks, queue, propagate_queue);
    }
    proof {
        lemma_rem_step(ca, *chunks, c0, p, lv, 1, sun, q0, qa, queue@, pq0, pqa, propagate_queue@, d0, da, dirty_chunks@);
    }
    let ghost (ca, qa, pqa, da) = (*chunks, queue@, propagate_queue@, dirty_chunks@);
    if sun {
        proof {
            assert(neighbour(p, rem_dir(2, sun)) == (x, (y - 1) as i16, z));
            assert(rem_spreads(p, rem_dir(2, sun), true) ==> c0.block_loaded(neighbour(p, rem_dir(2, sun)).0, neighbour(p, rem_dir(2, sun)).1, neighbour(p, rem_dir(2, sun)).2));
        }
        sunlight_removal_helper(chunks, x, y - 1, z, lv, dirty_chunks, queue, propagate_queue);
    } else {
        proof {
            assert(neighbour(p, rem_dir(2, sun)) == (x, (y - 1) as i16, z));
        }
        chunks.light_removal_helper(x, y - 1, z, lv, dirty_chunks, queue, propagate_queue);
    }
    proof {
        lemma_rem_step(ca, *chunks, c0, p, lv, 2, sun, q0, qa, queue@, pq0, pqa, propagate_queue@, d0, da, dirty_chunks@);
    }
    let ghost (ca, qa, pqa, da) = (*chunks, queue@, propagate_queue@, dirty_chunks@);
    if sun {
        proof {
            assert(neighbour(p, rem_dir(3, sun)) == (x, (y + 1) as i16, z));
            assert(rem_spreads(p, rem_dir(3, sun), true) ==> c0.block_loaded(neighbour(p, rem_dir(3, sun)).0, neighbour(p, rem_dir(3, sun)).1, neighbour(p, rem_dir(3, sun)).2));
        }
        sunlight_removal_helper(chunks, x, y + 1, z, lv, dirty_chunks, queue, propagate_queue);
    } else {
        proof {
            assert(neighbour(p, rem_dir(3, sun)) == (x, (y + 1) as i16, z));
        }
        chunks.light_removal_helper(x, y + 1, z, lv, dirty_chunks, queue, propagate_queue);
    }
    proof {
        lemma_rem_step(ca, *chunks, c0, p, lv, 3, sun, q0, qa, queue@, pq0, pqa, propagate_queue@, d0, da, dirty_chunks@);
    }
    let ghost (ca, qa, pqa, da) = (*chunks, queue@, propagate_queue@, dirty_chunks@);
    if sun {
        proof {
            assert(neighbour(p, rem_dir(4, sun)) == (x, y, (z + 1) as i16));
            assert(rem_spreads(p, rem_dir(4, sun), true) ==> c0.block_loaded(neighbour(p, rem_dir(4, sun)).0, neighbour(p, rem_dir(4, sun)).1, neighbour(p, rem_dir(4, sun)).2));
        }
        sunlight_removal_helper(chunks, x, y, z + 1, lv, dirty_chunks, queue, propagate_queue);
    } else {
        proof {
            assert(neighbour(p, rem_dir(4, sun)) == (x, y, (z - 1) as i16));
        }
        chunks.light_removal_helper(x, y, z - 1, lv, dirty_chunks, queue, propagate_queue);
    }
    proof {
        lemma_rem_step(ca, *chunks, c0, p, lv, 4, sun, q0, qa, queue@, pq0, pqa, propagate_queue@, d0, da, dirty_chunks@);
    }
    let ghost (ca, qa, pqa, da) = (*chunks, queue@, propagate_queue@, dirty_chunks@);
    if sun {
        proof {
            assert(neighbour(p, rem_dir(5, sun)) == (x, y, (z - 1) as i16));
            assert(rem_spreads(p, rem_dir(5, sun), true) ==> c0.block_loaded(neighbour(p, rem_dir(5, sun)).0, neighbour(p, rem_dir(5, sun)).1, neighbour(p, rem_dir(5, sun)).2));
        }
        sunlight_removal_helper(chunks, x, y, z - 1, lv, dirty_chunks, queue, propagate_queue);
    } else {
        proof {
            assert(neighbour(p, rem_dir(5, sun)) == (x, y, (z + 1) as i16));
        }
        chunks.light_removal_helper(x, y, z + 1, lv, dirty_chunks, queue, propagate_queue);
    }
    proof {
        lemma_rem_step(ca, *chunks, c0, p, lv, 5, sun, q0, qa, queue@, pq0, pqa, propagate_queue@, d0, da, dirty_chunks@);
    }
}

/// A removal level, capped at 16.
pub open spec fn min16(l: u8) -> int {
    if l >= 16 {
        16
    } else {
        l as int
    }
}

/// The invariant of a removal queue.
pub open spec fn rem_inv(
    cur: ChunkBuffer,
    old: ChunkBuffer,
    sun: bool,
    starts: Seq<Removal>,
    q: Seq<Removal>,
    done: Set<Removal>,
    near: Map<Removal, int>,
    pq: Seq<Pos>,
    pnear: Map<Pos, int>,
    dirty0: Set<ChunkPos>,
    dirty: Set<ChunkPos>,
) -> bool {
    &&& keeps_shape(cur, old)
    &&& forall|x: i16, y: i16, z: i16|
        #![trigger cur.block_at(x, y, z)]
        {
            &&& without_level(cur.block_at(x, y, z), sun) == without_level(old.block_at(x, y, z), sun)
            &&& spec_transparent(cur.block_at(x, y, z)) == spec_transparent(old.block_at(x, y, z))
            &&& spec_level(cur.block_at(x, y, z), !sun) == spec_level(old.block_at(x, y, z), !sun)
            &&& level_at(cur, (x, y, z), sun) == level_at(old, (x, y, z), sun) || {
                &&& level_at(cur, (x, y, z), sun) == 0
                &&& 0 < level_at(old, (x, y, z), sun)
                &&& dirty.contains(chunk_of((x, y, z)))
                &&& (done.contains((x, y, z, level_at(old, (x, y, z), sun))) || q.contains(
                    (x, y, z, level_at(old, (x, y, z), sun)),
                ))
            }
        }
    &&& dirty0.subset_of(dirty)
    &&& forall|j: int| 0 <= j < starts.len() ==> done.contains(#[trigger] starts[j]) || q.contains(starts[j])
    &&& forall|e: Removal| #[trigger] done.contains(e) ==> rem_passes(cur, rpos(e), e.3, sun, pq)
    &&& forall|i: int|
        0 <= i < q.len() ==> {
            let e = #[trigger] q[i];
            &&& near.contains_key(e)
            &&& 0 <= near[e] < starts.len()
            &&& dist(rpos(e), rpos(starts[near[e]])) + min16(e.3) <= 16
            &&& dist(rpos(e), rpos(starts[near[e]])) <= 15
        }
    &&& forall|i: int|
        0 <= i < pq.len() ==> {
            let t = #[trigger] pq[i];
            &&& pnear.contains_key(t)
            &&& 0 <= pnear[t] < starts.len()
            &&& dist(t, rpos(starts[pnear[t]])) <= 16
        }
    &&& !sun && starts_lit(starts) ==> forall|i: int| 0 <= i < q.len() ==> (#[trigger] q[i]).3 > 0
    &&& (sun || starts_lit(starts)) ==> forall|i: int|
        0 <= i < pq.len() ==> cur.block_loaded((#[trigger] pq[i]).0, pq[i].1, pq[i].2)
}

/// Every removal start removes some light.
pub open spec fn starts_lit(starts: Seq<Removal>) -> bool {
    forall|j: int| 0 <= j < starts.len() ==> (#[trigger] starts[j]).3 > 0
}

/// Every removal start lies well inside the `i16` range with its surroundings loaded.
pub open spec fn rem_starts_loaded(buf: ChunkBuffer, starts: Seq<Removal>, r: int) -> bool {
    forall|j: int| 0 <= j < starts.len() ==> super::light::loaded_around(buf, rpos(#[trigger] starts[j]), r)
}

proof fn lemma_rem_queue_start(cur: ChunkBuffer, sun: bool, starts: Seq<Removal>, dirty0: Set<ChunkPos>)
    -> (r: (Map<Removal, int>, Map<Pos, int>))
    requires
        cur.wf(),
    ensures
        rem_inv(cur, cur, sun, starts, starts, Set::empty(), r.0, Seq::empty(), r.1, dirty0, dirty0),
{
    let near = Map::new(
        |e: Removal| starts.contains(e),
        |e: Removal| choose|j: int| 0 <= j < starts.len() && starts[j] == e,
    );
    assert(cur.columns@.dom() =~= cur.columns@.dom());
    assert forall|i: int| 0 <= i < starts.len() implies {
        let e = #[trigger] starts[i];
        &&& near.contains_key(e)
        &&& 0 <= near[e] < starts.len()
        &&& dist(rpos(e), rpos(starts[near[e]])) + min16(e.3) <= 16
        &&& dist(rpos(e), rpos(starts[near[e]])) <= 15
    } by {
        let e = starts[i];
        assert(starts.contains(e));
        assert(starts[near[e]] == e);
    }
    assert forall|j: int| 0 <= j < starts.len() implies Set::<Removal>::empty().contains(#[trigger] starts[j]) || starts.contains(starts[j]) by {
        assert(starts.contains(starts[j]));
    }
    (near, Map::empty())
}

proof fn lemma_rem_pop_ready(
    cur: ChunkBuffer,
    old: ChunkBuffer,
    sun: bool,
    starts: Seq<Removal>,
    q: Seq<Removal>,
    near: Map<Removal, int>,
)
    requires
        keeps_shape(cur, old),
        q.len() > 0,
        forall|i: int|
            0 <= i < q.len() ==> {
                let e = #[trigger] q[i];
                &&& near.contains_key(e)
                &&& 0 <= near[e] < starts.len()
                &&& dist(rpos(e), rpos(starts[near[e]])) <= 15
            },
        rem_starts_loaded(old, starts, 32),
    ensures
        i16::MIN < q[0].0 < i16::MAX,
        i16::MIN < q[0].1 < i16::MAX,
        i16::MIN < q[0].2 < i16::MAX,
        rem_neighbours_loaded(cur, rpos(q[0])),
{
    let e = q[0];
    let p = rpos(e);
    let s = rpos(starts[near[e]]);
    assert(super::light::loaded_around(old, s, 32));
    assert forall|d: int|
        #![trigger rem_spreads(p, d, true)]
        0 <= d < 6 && rem_spreads(p, d, true) implies cur.block_loaded(
            neighbour(p, d).0,
            neighbour(p, d).1,
            neighbour(p, d).2,
        ) by {
        super::light::lemma_neighbour_dist(p, d, s);
        let m = neighbour(p, d);
        assert(old.block_loaded(m.0, m.1, m.2));
    }
}

/// One processed removal keeps the removal invariant.
proof fn lemma_rem_queue_step(
    mid: ChunkBuffer,
    new: ChunkBuffer,
    old: ChunkBuffer,
    sun: bool,
    starts: Seq<Removal>,
    q: Seq<Removal>,
    done: Set<Removal>,
    near: Map<Removal, int>,
    pq: Seq<Pos>,
    pnear: Map<Pos, int>,
    dirty0: Set<ChunkPos>,
    dmid: Set<ChunkPos>,
    qnew: Seq<Removal>,
    pqnew: Seq<Pos>,
    dnew: Set<ChunkPos>,
) -> (r: (Set<Removal>, Map<Removal, int>, Map<Pos, int>))
    requires
        rem_inv(mid, old, sun, starts, q, done, near, pq, pnear, dirty0, dmid),
        q.len() > 0,
        i16::MIN < q[0].0 < i16::MAX,
        i16::MIN < q[0].1 < i16::MAX,
        i16::MIN < q[0].2 < i16::MAX,
        rem_state(new, mid, rpos(q[0]), q[0].3, 6, sun, q.subrange(1, q.len() as int), qnew, pq, pqnew, dmid, dnew),
    ensures
        rem_inv(new, old, sun, starts, qnew, r.0, r.1, pqnew, r.2, dirty0, dnew),
{
    let e = q[0];
    let p = rpos(e);
    let w = near[e];
    let qp = q.subrange(1, q.len() as int);
    let done2 = done.insert(e);
    let near2 = Map::new(
        |f: Removal| near.contains_key(f) || qnew.contains(f),
        |f: Removal| if near.contains_key(f) && !(exists|i: int| qp.len() <= i < qnew.len() && qnew[i] == f) { near[f] } else { w },
    );
    let pnear2 = Map::new(
        |t: Pos| pnear.contains_key(t) || pqnew.contains(t),
        |t: Pos| if pnear.contains_key(t) && !(exists|i: int| pq.len() <= i < pqnew.len() && pqnew[i] == t) { pnear[t] } else { w },
    );
    assert(new.same_shape(old));
    assert forall|x: i16, y: i16, z: i16|
        #![trigger new.block_loaded(x, y, z)]
        new.block_loaded(x, y, z) == old.block_loaded(x, y, z) by {
        assert(mid.block_loaded(x, y, z) == old.block_loaded(x, y, z));
    }
    // frame
    assert forall|x: i16, y: i16, z: i16|
        #![trigger new.block_at(x, y, z)]
        {
            &&& without_level(new.block_at(x, y, z), sun) == without_level(old.block_at(x, y, z), sun)
            &&& spec_transparent(new.block_at(x, y, z)) == spec_transparent(old.block_at(x, y, z))
            &&& spec_level(new.block_at(x, y, z), !sun) == spec_level(old.block_at(x, y, z), !sun)
            &&& level_at(new, (x, y, z), sun) == level_at(old, (x, y, z), sun) || {
                &&& level_at(new, (x, y, z), sun) == 0
                &&& 0 < level_at(old, (x, y, z), sun)
                &&& dnew.contains(chunk_of((x, y, z)))
                &&& (done2.contains((x, y, z, level_at(old, (x, y, z), sun))) || qnew.contains(
                    (x, y, z, level_at(old, (x, y, z), sun)),
                ))
            }
        } by {
        assert(mid.block_at(x, y, z) == mid.block_at(x, y, z));
        let f = (x, y, z, level_at(old, (x, y, z), sun));
        if level_at(new, (x, y, z), sun) != level_at(mid, (x, y, z), sun) {
            assert(level_at(mid, (x, y, z), sun) == level_at(old, (x, y, z), sun));
        } else if level_at(new, (x, y, z), sun) != level_at(old, (x, y, z), sun) {
            if q.contains(f) && !done2.contains(f) {
                let j = choose|j: int| 0 <= j < q.len() && q[j] == f;
                assert(j != 0);
                assert(qp[j - 1] == f);
                assert(qnew.subrange(0, qp.len() as int) == qp);
                assert(qnew[j - 1] == f);
            }
        }
    }
    // starts
    assert forall|j: int| 0 <= j < starts.len() implies done2.contains(#[trigger] starts[j]) || qnew.contains(starts[j]) by {
        let f = starts[j];
        if q.contains(f) && f != e {
            let i = choose|i: int| 0 <= i < q.len() && q[i] == f;
            assert(i != 0);
            assert(qp[i - 1] == f);
            assert(qnew.subrange(0, qp.len() as int) == qp);
            assert(qnew[i - 1] == f);
        }
    }
    // processed removals
    lemma_rem_all(new, p, e.3, sun, pqnew);
    assert forall|f: Removal| #[trigger] done2.contains(f) implies rem_passes(new, rpos(f), f.3, sun, pqnew) by {
        if f != e {
            assert(rem_passes(mid, rpos(f), f.3, sun, pq));
            assert forall|d: int| 0 <= d < 6 implies #[trigger] rem_cond(new, rpos(f), d, f.3, sun, pqnew) by {
                assert(rem_cond(mid, rpos(f), d, f.3, sun, pq));
                let m = neighbour(rpos(f), d);
                assert(new.block_at(m.0, m.1, m.2) == new.block_at(m.0, m.1, m.2));
                assert(mid.block_at(m.0, m.1, m.2) == mid.block_at(m.0, m.1, m.2));
                assert forall|i: int| 0 <= i < pq.len() implies pqnew.contains(#[trigger] pq[i]) by {
                    assert(pqnew.subrange(0, pq.len() as int) == pq);
                    assert(pqnew[i] == pq[i]);
                }
                lemma_rem_cond_mono(mid, new, rpos(f), d, f.3, sun, pq, pqnew);
            }
        }
    }
    // queue distances
    assert(q[0] == e);
    assert forall|i: int| 0 <= i < qnew.len() implies {
        let f = #[trigger] qnew[i];
        &&& near2.contains_key(f)
        &&& 0 <= near2[f] < starts.len()
        &&& dist(rpos(f), rpos(starts[near2[f]])) + min16(f.3) <= 16
        &&& dist(rpos(f), rpos(starts[near2[f]])) <= 15
    } by {
        let f = qnew[i];
        assert(qnew.contains(f));
        assert(near2.contains_key(f));
        if exists|k: int| qp.len() <= k < qnew.len() && qnew[k] == f {
            let k = choose|k: int| qp.len() <= k < qnew.len() && qnew[k] == f;
            assert(near2[f] == w);
            let d = choose|d: int| 0 <= d < 6 && rpos(qnew[k]) == #[trigger] neighbour(p, d);
            super::light::lemma_neighbour_dist(p, d, rpos(starts[w]));
            let rf = rpos(f);
            lemma_level(mid.block_at(rf.0, rf.1, rf.2), 0, sun);
            assert(near.contains_key(e) && 0 <= near[e] < starts.len());
            assert(dist(p, rpos(starts[w])) + min16(e.3) <= 16);
            assert(0 < f.3 < e.3);
        } else {
            assert(i < qp.len());
            assert(qnew.subrange(0, qp.len() as int) == qp);
            assert(qnew[i] == qp[i]);
            assert(q[i + 1] == f);
            assert(near.contains_key(f));
            assert(near2[f] == near[f]);
        }
    }
    // propagation queue distances
    assert forall|i: int| 0 <= i < pqnew.len() implies {
        let t = #[trigger] pqnew[i];
        &&& pnear2.contains_key(t)
        &&& 0 <= pnear2[t] < starts.len()
        &&& dist(t, rpos(starts[pnear2[t]])) <= 16
    } by {
        let t = pqnew[i];
        assert(pqnew.contains(t));
        assert(pnear2.contains_key(t));
        if exists|k: int| pq.len() <= k < pqnew.len() && pqnew[k] == t {
            let k = choose|k: int| pq.len() <= k < pqnew.len() && pqnew[k] == t;
            assert(pnear2[t] == w);
            let d = choose|d: int| 0 <= d < 6 && #[trigger] pqnew[k] == #[trigger] neighbour(p, d);
            super::light::lemma_neighbour_dist(p, d, rpos(starts[w]));
        } else {
            assert(i < pq.len());
            assert(pqnew.subrange(0, pq.len() as int) == pq);
            assert(pqnew[i] == pq[i]);
            assert(pnear.contains_key(t));
            assert(pnear2[t] == pnear[t]);
        }
    }
    if !sun && starts_lit(starts) {
        assert forall|i: int| 0 <= i < qnew.len() implies (#[trigger] qnew[i]).3 > 0 by {
            if i < qp.len() {
                assert(qnew.subrange(0, qp.len() as int) == qp);
                assert(qnew[i] == qp[i]);
                assert(q[i + 1] == qnew[i]);
            }
        }
    }
    if sun || starts_lit(starts) {
        assert(sun || q[0].3 > 0);
        assert forall|i: int| 0 <= i < pqnew.len() implies new.block_loaded((#[trigger] pqnew[i]).0, pqnew[i].1, pqnew[i].2) by {
            let t = pqnew[i];
            if i < pq.len() {
                assert(pqnew.subrange(0, pq.len() as int) == pq);
                assert(pqnew[i] == pq[i]);
            }
            assert(mid.block_loaded(t.0, t.1, t.2));
            assert(new.block_loaded(t.0, t.1, t.2) == mid.block_loaded(t.0, t.1, t.2));
        }
    }
    (done2, near2, pnear2)
}

/// Whether `t` lies within distance `r` of one of the removal starts.
pub open spec fn near_start(t: Pos, starts: Seq<Removal>, r: int) -> bool {
    exists|j: int| 0 <= j < starts.len() && #[trigger] dist(t, rpos(starts[j])) <= r
}

/// What removing light from the `starts` achieves: only light levels change, each to zero,
/// in a dirty chunk; around every removed level (at the starts and at every darkened
/// block) no transparent neighbour keeps a level between zero and it, and every neighbour
/// that is a source again stands in `pq`, near a start.
pub open spec fn removal_done(
    new: ChunkBuffer,
    old: ChunkBuffer,
    sun: bool,
    starts: Seq<Removal>,
    pq: Seq<Pos>,
    dirty0: Set<ChunkPos>,
    dirty: Set<ChunkPos>,
) -> bool {
    &&& keeps_shape(new, old)
    &&& dirty0.subset_of(dirty)
    &&& forall|x: i16, y: i16, z: i16|
        #![trigger new.block_at(x, y, z)]
        {
            &&& without_level(new.block_at(x, y, z), sun) == without_level(old.block_at(x, y, z), sun)
            &&& spec_transparent(new.block_at(x, y, z)) == spec_transparent(old.block_at(x, y, z))
            &&& spec_level(new.block_at(x, y, z), !sun) == spec_level(old.block_at(x, y, z), !sun)
            &&& level_at(new, (x, y, z), sun) == level_at(old, (x, y, z), sun) || {
                &&& level_at(new, (x, y, z), sun) == 0
                &&& dirty.contains(chunk_of((x, y, z)))
                &&& rem_passes(new, (x, y, z), level_at(old, (x, y, z), sun), sun, pq)
            }
        }
    &&& forall|j: int| 0 <= j < starts.len() ==> rem_passes(new, rpos(#[trigger] starts[j]), starts[j].3, sun, pq)
    &&& forall|i: int| 0 <= i < pq.len() ==> near_start(#[trigger] pq[i], starts, 16)
    &&& (sun || starts_lit(starts)) ==> forall|i: int|
        0 <= i < pq.len() ==> new.block_loaded((#[trigger] pq[i]).0, pq[i].1, pq[i].2)
}

proof fn lemma_rem_done(
    cur: ChunkBuffer,
    old: ChunkBuffer,
    sun: bool,
    starts: Seq<Removal>,
    done: Set<Removal>,
    near: Map<Removal, int>,
    pq: Seq<Pos>,
    pnear: Map<Pos, int>,
    dirty0: Set<ChunkPos>,
    dirty: Set<ChunkPos>,
)
    requires
        rem_inv(cur, old, sun, starts, Seq::empty(), done, near, pq, pnear, dirty0, dirty),
    ensures
        removal_done(cur, old, sun, starts, pq, dirty0, dirty),
{
    assert forall|x: i16, y: i16, z: i16|
        #![trigger cur.block_at(x, y, z)]
        level_at(cur, (x, y, z), sun) != level_at(old, (x, y, z), sun) implies rem_passes(cur, (x, y, z), level_at(old, (x, y, z), sun), sun, pq) by {
        let f = (x, y, z, level_at(old, (x, y, z), sun));
        assert(!Seq::<Removal>::empty().contains(f));
        assert(done.contains(f));
        assert(rpos(f) == (x, y, z));
    }
    assert forall|j: int| 0 <= j < starts.len() implies rem_passes(cur, rpos(#[trigger] starts[j]), starts[j].3, sun, pq) by {
        assert(!Seq::<Removal>::empty().contains(starts[j]));
        assert(done.contains(starts[j]));
    }
    assert forall|i: int| 0 <= i < pq.len() implies near_start(#[trigger] pq[i], starts, 16) by {
        let t = pq[i];
        assert(0 <= pnear[t] < starts.len() && dist(pq[i], rpos(starts[pnear[t]])) <= 16);
    }
}

/// Remove the light levels of `start_queue` and all light that came from them; return the
/// blocks around the removed light that are sources to propagate from again.
pub(crate) fn remove_queue(
    chunks: &mut ChunkBuffer,
    start_queue: Vec<Removal>,
    sun: bool,
    dirty_chunks: &mut ChunkPosSet,
) -> (propagate_queue: Vec<Pos>)
    requires
        old(chunks).wf(),
        old(dirty_chunks).wf(),
        rem_starts_loaded(*old(chunks), start_queue@, 32),
    ensures
        final(dirty_chunks).wf(),
        removal_done(*final(chunks), *old(chunks), sun, start_queue@, propagate_queue@, old(dirty_chunks)@, final(dirty_chunks)@),
{
    let mut queue: VecDeque<Removal> = VecDeque::new();
    let mut i: usize = 0;
    while i < start_queue.len()
        invariant
            i <= start_queue.len(),
            queue@ == start_queue@.subrange(0, i as int),
        decreases start_queue.len() - i,
    {
        queue.push_back(start_queue[i]);
        i = i + 1;
        proof {
            assert(queue@ =~= start_queue@.subrange(0, i as int));
        }
    }
    proof {
        assert(queue@ =~= start_queue@);
    }
    drain_removals(chunks, queue, sun, dirty_chunks)
}

/// Remove the light levels queued in `queue` and all light that came from them, front first;
/// return the blocks around the removed light that are sources to propagate from again.
pub(crate) fn drain_removals(
    chunks: &mut ChunkBuffer,
    queue: VecDeque<Removal>,
    sun: bool,
    dirty_chunks: &mut ChunkPosSet,
) -> (propagate_queue: Vec<Pos>)
    requires
        old(chunks).wf(),
        old(dirty_chunks).wf(),
        rem_starts_loaded(*old(chunks), queue@, 32),
    ensures
        final(dirty_chunks).wf(),
        removal_done(*final(chunks), *old(chunks), sun, queue@, propagate_queue@, old(dirty_chunks)@, final(dirty_chunks)@),
{
    let ghost old_chunks = *chunks;
    let ghost starts = queue@;
    let ghost d0 = dirty_chunks@;
    let mut queue = queue;
    let mut propagate_queue: Vec<Pos> = Vec::new();
    let ghost r = lemma_rem_queue_start(*chunks, sun, starts, d0);
    let ghost mut done: Set<Removal> = Set::empty();
    let ghost mut near = r.0;
    let ghost mut pnear = r.1;
    proof {
        assert(propagate_queue@ =~= Seq::<Pos>::empty());
    }
    // Remove all light from this source
    while queue.len() > 0
        invariant
            chunks.wf(),
            dirty_chunks.wf(),
            rem_starts_loaded(old_chunks, starts, 32),
            rem_inv(*chunks, old_chunks, sun, starts, queue@, done, near, propagate_queue@, pnear, d0, dirty_chunks@),
        decreases 7 * lit(*chunks, sun) + queue.len(),
    {
        let ghost q = queue@;
        let ghost mid = *chunks;
        let ghost dmid = dirty_chunks@;
        let ghost pqmid = propagate_queue@;
        proof {
            lemma_rem_pop_ready(mid, old_chunks, sun, starts, q, near);
        }
        let (wbx, wby, wbz, level) = queue.pop_front().unwrap();
        proof {
            assert(queue@ =~= q.subrange(1, q.len() as int));
        }
        rem_spread(chunks, wbx, wby, wbz, level, sun, dirty_chunks, &mut queue, &mut propagate_queue);
        proof {
            let r = lemma_rem_queue_step(mid, *chunks, old_chunks, sun, starts, q, done, near, pqmid, pnear, d0, dmid, queue@, propagate_queue@, dirty_chunks@);
            done = r.0;
            near = r.1;
            pnear = r.2;
        }
    }
    proof {
        assert(queue@ =~= Seq::<Removal>::empty());
        lemma_rem_done(*chunks, old_chunks, sun, starts, done, near, propagate_queue@, pnear, d0, dirty_chunks@);
    }
    propagate_queue
}

/// Blocks near the removal starts have their surroundings loaded, as the starts have theirs
/// loaded twice as far.
pub(crate) proof fn lemma_refill_loaded(mid: ChunkBuffer, old: ChunkBuffer, starts: Seq<Removal>, pq: Seq<Pos>)
    requires
        keeps_shape(mid, old),
        rem_starts_loaded(old, starts, 32),
        forall|i: int| 0 <= i < pq.len() ==> near_start(#[trigger] pq[i], starts, 16),
    ensures
        super::light::starts_loaded(mid, pq, 16),
{
    assert forall|i: int| 0 <= i < pq.len() implies super::light::loaded_around(mid, #[trigger] pq[i], 16) by {
        let t = pq[i];
        assert(near_start(t, starts, 16));
        let j = choose|j: int| 0 <= j < starts.len() && #[trigger] dist(t, rpos(starts[j])) <= 16;
        let s = rpos(starts[j]);
        assert(super::light::loaded_around(old, s, 32));
        assert forall|x: i16, y: i16, z: i16|
            #![trigger mid.block_loaded(x, y, z)]
            dist((x, y, z), t) <= 16 && 0 <= z < 1024 implies mid.block_loaded(x, y, z) by {
            assert(dist((x, y, z), s) <= 32);
            assert(old.block_loaded(x, y, z));
        }
    }
}

/// Remove sunlight previously propagated from the blocks in this queue, then propagate
/// sunlight back in from the neighbouring sources.
pub fn remove_sunlight_queue(
    chunks: &mut ChunkBuffer,
    start_queue: Vec<Removal>,
    dirty_chunks: &mut ChunkPosSet,
)
    requires
        old(chunks).wf(),
        old(dirty_chunks).wf(),
        rem_starts_loaded(*old(chunks), start_queue@, 32),
    ensures
        final(dirty_chunks).wf(),
        exists|mid: ChunkBuffer, pq: Seq<Pos>, dmid: Set<ChunkPos>|
            removal_done(mid, *old(chunks), true, start_queue@, pq, old(dirty_chunks)@, dmid)
                && propagated(*final(chunks), mid, true, pq, dmid, final(dirty_chunks)@),
{
    let ghost old_chunks = *chunks;
    let ghost starts = start_queue@;
    let propagate_queue = remove_queue(chunks, start_queue, true, dirty_chunks);
    let ghost mid = *chunks;
    let ghost pq = propagate_queue@;
    let ghost dmid = dirty_chunks@;
    proof {
        lemma_refill_loaded(mid, old_chunks, starts, pq);
    }
    // Propagate back sunlight from adjacent blocks
    chunks.propagate_sunlight_queue(propagate_queue, dirty_chunks);
    proof {
        assert(removal_done(mid, old_chunks, true, starts, pq, old(dirty_chunks)@, dmid));
        assert(propagated(*chunks, mid, true, pq, dmid, dirty_chunks@));
    }
}

} // verus!
