//! Light updates around an edited block: removing a light source, letting sunlight in
//! where a block was taken away, and taking it away where one was put.

use super::light::{
    MAX_LIGHT_LEVEL, chunk_of, lit_from, passes_on, spreads_to, lemma_propagated_compose, lemma_propagated_none, dist, keeps_shape, level_at, loaded_around, neighbour, propagated, starts_loaded,
    transparent_at,
};
use super::light_removal::{
    drain_removals, lemma_refill_loaded, rem_starts_loaded, removal_done, remove_sunlight_queue,
    rpos, starts_lit, Removal,
};
use super::world_sum::Pos;
use crate::block::{
    lemma_air, spec_light, spec_transparent, spec_with_light, spec_with_sunlight, Block,
    BlockTrait, LightBlock, AIR_BLOCK,
};
use crate::chunk::chunk_buffer::ChunkBuffer;
use crate::chunk::chunk_pos_set::ChunkPosSet;
use crate::chunk::chunkpos::{spec_chunk_of, ChunkPos};
use std::collections::VecDeque;
use vstd::prelude::*;

verus! {

/// The `d`-th neighbour of `p` as a one-element queue when its block light is above two.
pub open spec fn bright_at(buf: ChunkBuffer, p: Pos, d: int) -> Seq<Pos> {
    if level_at(buf, neighbour(p, d), false) > 2 {
        seq![neighbour(p, d)]
    } else {
        Seq::empty()
    }
}

/// The neighbours of `p` whose block light is above two, in the order +x, -x, +y, -y, +z, -z.
pub open spec fn bright_neighbours(buf: ChunkBuffer, p: Pos) -> Seq<Pos> {
    bright_at(buf, p, 0) + bright_at(buf, p, 1) + bright_at(buf, p, 2) + bright_at(buf, p, 3)
        + bright_at(buf, p, 4) + bright_at(buf, p, 5)
}

/// What is loaded around `p` at distance `r + 1` is loaded around each neighbour at `r`.
pub proof fn lemma_loaded_neighbour(buf: ChunkBuffer, p: Pos, d: int, r: int)
    requires
        loaded_around(buf, p, r + 1),
        0 <= d < 6,
        r >= 0,
    ensures
        loaded_around(buf, neighbour(p, d), r),
{
    let n = neighbour(p, d);
    assert forall|x: i16, y: i16, z: i16|
        #![trigger buf.block_loaded(x, y, z)]
        dist((x, y, z), n) <= r && 0 <= z < 1024 implies buf.block_loaded(x, y, z) by {
        assert(dist((x, y, z), p) <= r + 1);
    }
}

/// Starts of block light propagation with their surroundings loaded.
pub open spec fn light_starts_ok(buf: ChunkBuffer, s: Seq<Pos>) -> bool {
    &&& starts_loaded(buf, s, 16)
    &&& forall|j: int| 0 <= j < s.len() ==> buf.block_loaded((#[trigger] s[j]).0, s[j].1, s[j].2)
}

proof fn lemma_light_starts_concat(buf: ChunkBuffer, a: Seq<Pos>, b: Seq<Pos>)
    requires
        light_starts_ok(buf, a),
        light_starts_ok(buf, b),
    ensures
        light_starts_ok(buf, a + b),
{
    assert forall|j: int| 0 <= j < (a + b).len() implies loaded_around(buf, #[trigger] (a + b)[j], 16) && buf.block_loaded((a + b)[j].0, (a + b)[j].1, (a + b)[j].2) by {
        if j < a.len() {
            assert((a + b)[j] == a[j]);
        } else {
            assert((a + b)[j] == b[j - a.len()]);
        }
    }
}

/// The bright neighbours of a block with its surroundings loaded are loaded themselves,
/// with theirs.
proof fn lemma_bright_loaded(buf: ChunkBuffer, p: Pos)
    requires
        loaded_around(buf, p, 17),
    ensures
        light_starts_ok(buf, bright_neighbours(buf, p)),
{
    lemma_air();
    assert forall|d: int| 0 <= d < 6 implies light_starts_ok(buf, #[trigger] bright_at(buf, p, d)) by {
        if level_at(buf, neighbour(p, d), false) > 2 {
            lemma_loaded_neighbour(buf, p, d, 16);
            let s = bright_at(buf, p, d);
            assert(s[0] == neighbour(p, d));
        }
    }
    let s0 = bright_at(buf, p, 0);
    let s1 = bright_at(buf, p, 1);
    let s2 = bright_at(buf, p, 2);
    let s3 = bright_at(buf, p, 3);
    let s4 = bright_at(buf, p, 4);
    let s5 = bright_at(buf, p, 5);
    lemma_light_starts_concat(buf, s0, s1);
    lemma_light_starts_concat(buf, s0 + s1, s2);
    lemma_light_starts_concat(buf, s0 + s1 + s2, s3);
    lemma_light_starts_concat(buf, s0 + s1 + s2 + s3, s4);
    lemma_light_starts_concat(buf, s0 + s1 + s2 + s3 + s4, s5);
}

/// The side of a block facing its neighbour on side `d`.
pub open spec fn back_side(d: int) -> int {
    if d % 2 == 0 {
        d + 1
    } else {
        d - 1
    }
}

/// Light that spread from the neighbour on side `d` of a transparent block reaches the
/// block: its level ends at most one below the neighbour's.
proof fn lemma_passed_into(new: ChunkBuffer, old: ChunkBuffer, p: Pos, d: int, sun: bool)
    requires
        0 <= d < 6,
        i16::MIN < p.0 < i16::MAX,
        i16::MIN < p.1 < i16::MAX,
        0 <= p.2 < 1024,
        0 <= neighbour(p, d).2 < 1024,
        transparent_at(old, p),
        forall|x: i16, y: i16, z: i16|
            #![trigger new.block_at(x, y, z)]
            spec_transparent(new.block_at(x, y, z)) == spec_transparent(old.block_at(x, y, z)),
        passes_on(new, neighbour(p, d), sun),
    ensures
        level_at(new, neighbour(p, d), sun) <= level_at(new, p, sun) + 1,
{
    let q = neighbour(p, d);
    let e = back_side(d);
    assert(neighbour(q, e) == p);
    assert(spreads_to(q, e, sun));
    assert(transparent_at(new, p)) by {
        assert(spec_transparent(new.block_at(p.0, p.1, p.2)) == spec_transparent(old.block_at(p.0, p.1, p.2)));
    }
    assert(lit_from(new, q, e, level_at(new, q, sun), sun));
}

/// Sunlight let into a transparent block with no full sunlight above it comes in from every
/// side: afterwards the block's sunlight is at most one below that of each of its six
/// neighbours, whichever side the light comes from.
pub proof fn lemma_sunlight_in_from_all_sides(
    new: ChunkBuffer,
    old: ChunkBuffer,
    p: Pos,
    d0: Set<ChunkPos>,
    d1: Set<ChunkPos>,
)
    requires
        i16::MIN < p.0 < i16::MAX,
        i16::MIN < p.1 < i16::MAX,
        0 <= p.2 < 1024,
        transparent_at(old, p),
        propagated(new, old, true, six_neighbours(p), d0, d1),
    ensures
        forall|d: int|
            0 <= d < 6 && 0 <= #[trigger] neighbour(p, d).2 < 1024 ==> level_at(new, neighbour(p, d), true)
                <= level_at(new, p, true) + 1,
{
    assert forall|d: int| 0 <= d < 6 && 0 <= #[trigger] neighbour(p, d).2 < 1024 implies level_at(
        new,
        neighbour(p, d),
        true,
    ) <= level_at(new, p, true) + 1 by {
        assert(six_neighbours(p)[d] == neighbour(p, d));
        assert(passes_on(new, six_neighbours(p)[d], true));
        lemma_passed_into(new, old, p, d, true);
    }
}

/// Block light flows back into a transparent block where light was taken away from every
/// neighbour lit above level two: afterwards the block's light is at most one below that of
/// each of them, the one below as much as the others.
pub proof fn lemma_light_in_from_bright_sides(
    new: ChunkBuffer,
    old: ChunkBuffer,
    p: Pos,
    d0: Set<ChunkPos>,
    d1: Set<ChunkPos>,
)
    requires
        i16::MIN < p.0 < i16::MAX,
        i16::MIN < p.1 < i16::MAX,
        0 <= p.2 < 1024,
        transparent_at(old, p),
        propagated(new, old, false, bright_neighbours(old, p), d0, d1),
    ensures
        forall|d: int|
            0 <= d < 6 && 0 <= #[trigger] neighbour(p, d).2 < 1024 && level_at(old, neighbour(p, d), false) > 2
                ==> level_at(new, neighbour(p, d), false) <= level_at(new, p, false) + 1,
{
    assert forall|d: int|
        0 <= d < 6 && 0 <= #[trigger] neighbour(p, d).2 < 1024 && level_at(old, neighbour(p, d), false) > 2 implies level_at(
        new,
        neighbour(p, d),
        false,
    ) <= level_at(new, p, false) + 1 by {
        lemma_bright_listed(old, p, d);
        let all = bright_neighbours(old, p);
        let i = choose|i: int| 0 <= i < all.len() && all[i] == neighbour(p, d);
        assert(passes_on(new, all[i], false));
        lemma_passed_into(new, old, p, d, false);
    }
}

/// A sequence holds what either part of it holds.
proof fn lemma_contains_add(a: Seq<Pos>, b: Seq<Pos>, x: Pos)
    requires
        a.contains(x) || b.contains(x),
    ensures
        (a + b).contains(x),
{
    if a.contains(x) {
        let i = choose|i: int| 0 <= i < a.len() && a[i] == x;
        assert((a + b)[i] == x);
    } else {
        let i = choose|i: int| 0 <= i < b.len() && b[i] == x;
        assert((a + b)[a.len() + i] == x);
    }
}

/// Every neighbour lit above level two is listed among the bright neighbours.
proof fn lemma_bright_listed(buf: ChunkBuffer, p: Pos, d: int)
    requires
        0 <= d < 6,
        level_at(buf, neighbour(p, d), false) > 2,
    ensures
        bright_neighbours(buf, p).contains(neighbour(p, d)),
{
    let q = neighbour(p, d);
    let s0 = bright_at(buf, p, 0);
    let s1 = bright_at(buf, p, 1);
    let s2 = bright_at(buf, p, 2);
    let s3 = bright_at(buf, p, 3);
    let s4 = bright_at(buf, p, 4);
    let s5 = bright_at(buf, p, 5);
    assert(bright_at(buf, p, d)[0] == q);
    assert(bright_at(buf, p, d).contains(q));
    if d <= 1 {
        lemma_contains_add(s0, s1, q);
    }
    if d <= 2 {
        lemma_contains_add(s0 + s1, s2, q);
    }
    if d <= 3 {
        lemma_contains_add(s0 + s1 + s2, s3, q);
    }
    if d <= 4 {
        lemma_contains_add(s0 + s1 + s2 + s3, s4, q);
    }
    lemma_contains_add(s0 + s1 + s2 + s3 + s4, s5, q);
}

impl ChunkBuffer {
    /// After light was removed at (wbx, wby, wbz), propagate block light again from its
    /// neighbours that are lit above level two.
    pub fn propagate_light_after_removal(
        &mut self,
        wbx: i16,
        wby: i16,
        wbz: i16,
        dirty_chunks: &mut ChunkPosSet,
    )
        requires
            old(self).wf(),
            old(dirty_chunks).wf(),
            loaded_around(*old(self), (wbx, wby, wbz), 17),
        ensures
            final(dirty_chunks).wf(),
            propagated(
                *final(self),
                *old(self),
                false,
                bright_neighbours(*old(self), (wbx, wby, wbz)),
                old(dirty_chunks)@,
                final(dirty_chunks)@,
            ),
            transparent_at(*old(self), (wbx, wby, wbz)) && 0 <= wbz < 1024 ==> forall|d: int|
                0 <= d < 6 && 0 <= #[trigger] neighbour((wbx, wby, wbz), d).2 < 1024 && level_at(
                    *old(self),
                    neighbour((wbx, wby, wbz), d),
                    false,
                ) > 2 ==> level_at(*final(self), neighbour((wbx, wby, wbz), d), false) <= level_at(
                    *final(self),
                    (wbx, wby, wbz),
                    false,
                ) + 1,
    {
        let ghost p = (wbx, wby, wbz);
        let ghost old_self = *self;
        let ghost d_start = dirty_chunks@;
        let mut queue: Vec<Pos> = Vec::new();
        if self.get_block(wbx + 1, wby, wbz).get_light() > 2 {
            queue.push((wbx + 1, wby, wbz));
        }
        proof {
            assert(neighbour(p, 0) == ((wbx + 1) as i16, wby, wbz));
            assert(queue@ =~= bright_at(old_self, p, 0));
        }
        if self.get_block(wbx - 1, wby, wbz).get_light() > 2 {
            queue.push((wbx - 1, wby, wbz));
        }
        proof {
            assert(neighbour(p, 1) == ((wbx - 1) as i16, wby, wbz));
            assert(queue@ =~= bright_at(old_self, p, 0) + bright_at(old_self, p, 1));
        }
        if self.get_block(wbx, wby + 1, wbz).get_light() > 2 {
            queue.push((wbx, wby + 1, wbz));
        }
        proof {
            assert(neighbour(p, 2) == (wbx, (wby + 1) as i16, wbz));
            assert(queue@ =~= bright_at(old_self, p, 0) + bright_at(old_self, p, 1) + bright_at(
                old_self,
                p,
                2,
            ));
        }
        if self.get_block(wbx, wby - 1, wbz).get_light() > 2 {
            queue.push((wbx, wby - 1, wbz));
        }
        proof {
            assert(neighbour(p, 3) == (wbx, (wby - 1) as i16, wbz));
            assert(queue@ =~= bright_at(old_self, p, 0) + bright_at(old_self, p, 1) + bright_at(
                old_self,
                p,
                2,
            ) + bright_at(old_self, p, 3));
        }
        if self.get_block(wbx, wby, wbz + 1).get_light() > 2 {
            queue.push((wbx, wby, wbz + 1));
        }
        proof {
            assert(neighbour(p, 4) == (wbx, wby, (wbz + 1) as i16));
            assert(queue@ =~= bright_at(old_self, p, 0) + bright_at(old_self, p, 1) + bright_at(
                old_self,
                p,
                2,
            ) + bright_at(old_self, p, 3) + bright_at(old_self, p, 4));
        }
        if self.get_block(wbx, wby, wbz - 1).get_light() > 2 {
            queue.push((wbx, wby, wbz - 1));
        }
        proof {
            assert(neighbour(p, 5) == (wbx, wby, (wbz - 1) as i16));
            assert(queue@ =~= bright_neighbours(old_self, p));
            lemma_bright_loaded(old_self, p);
        }
        self.propagate_light_queue(queue, dirty_chunks);
        proof {
            if transparent_at(old_self, p) && 0 <= wbz < 1024 {
                lemma_light_in_from_bright_sides(*self, old_self, p, d_start, dirty_chunks@);
            }
        }
    }
}

/// Whether block (x, y, c) lies in the sunlight beam that falls from height `top`: within
/// the world's bottom and with every block from it up to `top` transparent.
pub open spec fn in_beam(buf: ChunkBuffer, x: i16, y: i16, top: int, c: int) -> bool {
    &&& 0 <= c <= top
    &&& forall|c2: i16| c <= c2 <= top ==> #[trigger] transparent_at(buf, (x, y, c2))
}

/// The positions of the beam from height `z` down, top first.
pub open spec fn beam_from(buf: ChunkBuffer, x: i16, y: i16, z: int) -> Seq<Pos>
    decreases z + 1,
{
    if z < 0 || z > i16::MAX || !transparent_at(buf, (x, y, z as i16)) {
        Seq::empty()
    } else {
        seq![(x, y, z as i16)] + beam_from(buf, x, y, z - 1)
    }
}

/// The positions of the beam from height `z` down, each with its sunlight level.
pub open spec fn beam_removals(buf: ChunkBuffer, x: i16, y: i16, z: int) -> Seq<Removal>
    decreases z + 1,
{
    if z < 0 || z > i16::MAX || !transparent_at(buf, (x, y, z as i16)) {
        Seq::empty()
    } else {
        seq![(x, y, z as i16, level_at(buf, (x, y, z as i16), true))] + beam_removals(buf, x, y, z - 1)
    }
}

/// The chunks of the beam from `top`.
pub open spec fn beam_chunks(buf: ChunkBuffer, x: i16, y: i16, top: int) -> Set<ChunkPos> {
    Set::new(|cp: ChunkPos| exists|c: i16| in_beam(buf, x, y, top, c as int) && #[trigger] chunk_of((x, y, c)) == cp)
}

/// `new` is `old` with the sunlight of every loaded block in the beam from `top` set to `l`.
pub open spec fn beam_set(new: ChunkBuffer, old: ChunkBuffer, x: i16, y: i16, top: int, l: u8) -> bool {
    &&& keeps_shape(new, old)
    &&& forall|a: i16, b: i16, c: i16|
        #![trigger new.block_at(a, b, c)]
        new.block_at(a, b, c) == if a == x && b == y && in_beam(old, x, y, top, c as int) && old.block_loaded(a, b, c) {
            spec_with_sunlight(old.block_at(a, b, c), l)
        } else {
            old.block_at(a, b, c)
        }
}

/// The chunks of the blocks at (x, y) with heights in (lo, hi].
pub open spec fn span_chunks(x: i16, y: i16, lo: int, hi: int) -> Set<ChunkPos> {
    Set::new(|cp: ChunkPos| exists|c: i16| lo < c <= hi && #[trigger] chunk_of((x, y, c)) == cp)
}

/// A chunk at height 64 or above is never loaded.
proof fn lemma_above_world(buf: ChunkBuffer, x: i16, y: i16, z: i16)
    requires
        buf.wf(),
        z >= 1024,
    ensures
        buf.chunk_at(spec_chunk_of(x, y, z).x, spec_chunk_of(x, y, z).y, spec_chunk_of(x, y, z).z) is None,
{
    crate::chunk::lemma_shr4(z);
    let cp = spec_chunk_of(x, y, z);
    let k = crate::chunk::chunk_buffer::spec_column_key(cp.x, cp.y);
    if buf.columns@.contains_key(k) {
        assert(crate::chunk::chunk_buffer::column_wf(buf.columns@[k]));
    }
}

impl ChunkBuffer {
    /// Set the sunlight of the beam falling from `top` at (x, y) to `level`, down to the first
    /// opaque block or the bottom of the world. Returns the beam's positions, and each with
    /// the sunlight it had.
    fn light_beam(&mut self, x: i16, y: i16, top: i16, level: u8, dirty_chunks: &mut ChunkPosSet) -> (r: (
        Vec<Pos>,
        Vec<Removal>,
    ))
        requires
            old(self).wf(),
            old(dirty_chunks).wf(),
            forall|c: i16|
                in_beam(*old(self), x, y, top as int, c as int) && c < 1024 ==> #[trigger] old(self).block_loaded(x, y, c),
        ensures
            final(self).wf(),
            final(dirty_chunks).wf(),
            beam_set(*final(self), *old(self), x, y, top as int, level),
            r.0@ == beam_from(*old(self), x, y, top as int),
            r.1@ == beam_removals(*old(self), x, y, top as int),
            final(dirty_chunks)@ == old(dirty_chunks)@.union(beam_chunks(*old(self), x, y, top as int)),
    {
        let ghost old_self = *self;
        let ghost d0 = dirty_chunks@;
        let mut positions: Vec<Pos> = Vec::new();
        let mut removals: Vec<Removal> = Vec::new();
        let mut z: i16 = top;
        proof {
            assert(dirty_chunks@ =~= d0.union(span_chunks(x, y, z as int, top as int)));
            assert(positions@ + beam_from(old_self, x, y, z as int) =~= beam_from(old_self, x, y, top as int));
            assert(removals@ + beam_removals(old_self, x, y, z as int) =~= beam_removals(old_self, x, y, top as int));
            assert(old_self.columns@.dom() =~= old_self.columns@.dom());
        }
        while z >= 0 && self.get_block(x, y, z).is_transparent()
            invariant
                self.wf(),
                dirty_chunks.wf(),
                old_self.wf(),
                z <= top,
                z >= -1 || z == top,
                keeps_shape(*self, old_self),
                forall|c: i16|
                    in_beam(old_self, x, y, top as int, c as int) && c < 1024 ==> #[trigger] old_self.block_loaded(x, y, c),
                forall|c: i16| z < c <= top ==> #[trigger] transparent_at(old_self, (x, y, c)),
                forall|a: i16, b: i16, c: i16|
                    #![trigger self.block_at(a, b, c)]
                    self.block_at(a, b, c) == if a == x && b == y && z < c <= top && old_self.block_loaded(a, b, c) {
                        spec_with_sunlight(old_self.block_at(a, b, c), level)
                    } else {
                        old_self.block_at(a, b, c)
                    },
                positions@ + beam_from(old_self, x, y, z as int) == beam_from(old_self, x, y, top as int),
                removals@ + beam_removals(old_self, x, y, z as int) == beam_removals(old_self, x, y, top as int),
                dirty_chunks@ == d0.union(span_chunks(x, y, z as int, top as int)),
            decreases z + 1,
        {
            let ghost cur = *self;
            let mut block = self.get_block(x, y, z);
            let old_sunlight = block.get_sunlight();
            proof {
                assert(block == old_self.block_at(x, y, z));
                assert(in_beam(old_self, x, y, top as int, z as int));
                if z >= 1024 {
                    lemma_above_world(cur, x, y, z);
                } else {
                    assert(old_self.block_loaded(x, y, z));
                    assert(cur.block_loaded(x, y, z));
                }
                crate::chunk::lemma_shr4(x);
                crate::chunk::lemma_shr4(y);
                crate::chunk::lemma_shr4(z);
            }
            block.set_sunlight(level);
            self.set_block(x, y, z, block);
            dirty_chunks.insert(ChunkPos::from_world_block_coords(x, y, z));
            positions.push((x, y, z));
            removals.push((x, y, z, old_sunlight));
            proof {
                let ghost p = (x, y, z);
                assert(beam_from(old_self, x, y, z as int) == seq![p] + beam_from(old_self, x, y, z - 1));
                assert(positions@ + beam_from(old_self, x, y, z - 1) =~= (positions@.drop_last()) + (seq![p] + beam_from(old_self, x, y, z - 1)));
                assert(beam_removals(old_self, x, y, z as int) == seq![(x, y, z, old_sunlight)] + beam_removals(old_self, x, y, z - 1));
                assert(removals@ + beam_removals(old_self, x, y, z - 1) =~= (removals@.drop_last()) + (seq![(x, y, z, old_sunlight)] + beam_removals(old_self, x, y, z - 1)));
                assert(dirty_chunks@ =~= d0.union(span_chunks(x, y, z - 1, top as int))) by {
                    assert forall|cp: ChunkPos| span_chunks(x, y, z - 1, top as int).contains(cp) implies
                        span_chunks(x, y, z as int, top as int).insert(spec_chunk_of(x, y, z)).contains(cp) by {
                        let c = choose|c: i16| z - 1 < c <= top && #[trigger] chunk_of((x, y, c)) == cp;
                        if c != z {
                            assert(z < c <= top && chunk_of((x, y, c)) == cp);
                        }
                    }
                    assert(span_chunks(x, y, z - 1, top as int).contains(chunk_of((x, y, z))));
                }
                assert forall|a: i16, b: i16, c: i16|
                    #![trigger self.block_at(a, b, c)]
                    self.block_at(a, b, c) == if a == x && b == y && z - 1 < c <= top && old_self.block_loaded(a, b, c) {
                        spec_with_sunlight(old_self.block_at(a, b, c), level)
                    } else {
                        old_self.block_at(a, b, c)
                    } by {
                    assert(cur.block_at(a, b, c) == cur.block_at(a, b, c));
                }
                assert(self.same_shape(old_self));
                assert forall|a: i16, b: i16, c: i16|
                    #![trigger self.block_loaded(a, b, c)]
                    self.block_loaded(a, b, c) == old_self.block_loaded(a, b, c) by {
                    assert(cur.block_loaded(a, b, c) == old_self.block_loaded(a, b, c));
                }
            }
            z = z - 1;
        }
        proof {
            assert(self.block_at(x, y, z) == old_self.block_at(x, y, z));
            assert(beam_from(old_self, x, y, z as int) =~= Seq::<Pos>::empty());
            assert(beam_removals(old_self, x, y, z as int) =~= Seq::<Removal>::empty());
            assert(positions@ =~= positions@ + Seq::<Pos>::empty());
            assert(removals@ =~= removals@ + Seq::<Removal>::empty());
            assert forall|c: int| #![trigger in_beam(old_self, x, y, top as int, c)] in_beam(old_self, x, y, top as int, c) <==> z < c <= top by {
                if z < c <= top {
                    assert forall|c2: i16| c <= c2 <= top implies #[trigger] transparent_at(old_self, (x, y, c2)) by {}
                }
                if in_beam(old_self, x, y, top as int, c) && c <= z {
                    assert(transparent_at(old_self, (x, y, z)));
                }
            }
            assert(span_chunks(x, y, z as int, top as int) =~= beam_chunks(old_self, x, y, top as int)) by {
                assert forall|cp: ChunkPos| beam_chunks(old_self, x, y, top as int).contains(cp) implies span_chunks(x, y, z as int, top as int).contains(cp) by {
                    let c = choose|c: i16| in_beam(old_self, x, y, top as int, c as int) && #[trigger] chunk_of((x, y, c)) == cp;
                    assert(in_beam(old_self, x, y, top as int, c as int));
                }
                assert forall|cp: ChunkPos| span_chunks(x, y, z as int, top as int).contains(cp) implies beam_chunks(old_self, x, y, top as int).contains(cp) by {
                    let c = choose|c: i16| z < c <= top && #[trigger] chunk_of((x, y, c)) == cp;
                    assert(in_beam(old_self, x, y, top as int, c as int));
                }
            }
        }
        (positions, removals)
    }
}

/// The six face neighbours of `p`, in the order +x, -x, +y, -y, +z, -z.
pub open spec fn six_neighbours(p: Pos) -> Seq<Pos> {
    seq![neighbour(p, 0), neighbour(p, 1), neighbour(p, 2), neighbour(p, 3), neighbour(p, 4), neighbour(p, 5)]
}

/// The beam from `z` down lists, top first, the blocks at (x, y) of the beam from `z`.
proof fn lemma_beam_from(buf: ChunkBuffer, x: i16, y: i16, z: int)
    requires
        z <= i16::MAX,
    ensures
        beam_from(buf, x, y, z).len() == beam_removals(buf, x, y, z).len(),
        forall|j: int|
            0 <= j < beam_from(buf, x, y, z).len() ==> {
                &&& #[trigger] beam_from(buf, x, y, z)[j] == (x, y, (z - j) as i16)
                &&& in_beam(buf, x, y, z, z - j)
                &&& beam_removals(buf, x, y, z)[j] == (x, y, (z - j) as i16, level_at(buf, (x, y, (z - j) as i16), true))
            },
    decreases z + 1,
{
    if z < 0 || !transparent_at(buf, (x, y, z as i16)) {
    } else {
        lemma_beam_from(buf, x, y, z - 1);
        let s = beam_from(buf, x, y, z);
        let t = beam_from(buf, x, y, z - 1);
        let rs = beam_removals(buf, x, y, z);
        let rt = beam_removals(buf, x, y, z - 1);
        assert forall|j: int| 0 <= j < s.len() implies {
            &&& #[trigger] s[j] == (x, y, (z - j) as i16)
            &&& in_beam(buf, x, y, z, z - j)
            &&& rs[j] == (x, y, (z - j) as i16, level_at(buf, (x, y, (z - j) as i16), true))
        } by {
            if j > 0 {
                assert(s[j] == t[j - 1]);
                assert(rs[j] == rt[j - 1]);
                assert(in_beam(buf, x, y, z - 1, z - 1 - (j - 1)));
                assert forall|c2: i16| z - j <= c2 <= z implies #[trigger] transparent_at(buf, (x, y, c2)) by {
                    if c2 < z {
                        assert(z - 1 - (j - 1) <= c2 <= z - 1);
                    }
                }
            } else {
                assert forall|c2: i16| z <= c2 <= z implies #[trigger] transparent_at(buf, (x, y, c2)) by {
                    assert(c2 == z as i16);
                }
            }
        }
    }
}

/// What is loaded stays loaded when only blocks change.
pub proof fn lemma_loaded_kept(new: ChunkBuffer, old: ChunkBuffer, s: Pos, r: int)
    requires
        keeps_shape(new, old),
        loaded_around(old, s, r),
    ensures
        loaded_around(new, s, r),
{
    assert forall|x: i16, y: i16, z: i16|
        #![trigger new.block_loaded(x, y, z)]
        dist((x, y, z), s) <= r && 0 <= z < 1024 implies new.block_loaded(x, y, z) by {
        assert(old.block_loaded(x, y, z));
    }
}

impl ChunkBuffer {
    /// Propagate sunlight into (wbx, wby, wbz) after the block there was removed: when the
    /// block above is in full sunlight the beam falls down through the transparent blocks
    /// below and spreads to the sides; otherwise the neighbours spread their sunlight in.
    pub fn propagate_sunlight_if_needed(
        &mut self,
        wbx: i16,
        wby: i16,
        wbz: i16,
        dirty_chunks: &mut ChunkPosSet,
    )
        requires
            old(self).wf(),
            old(dirty_chunks).wf(),
            loaded_around(*old(self), (wbx, wby, wbz), 17),
            level_at(*old(self), (wbx, wby, (wbz + 1) as i16), true) == 15 ==> forall|c: i16|
                in_beam(*old(self), wbx, wby, wbz as int, c as int) ==> #[trigger] loaded_around(
                    *old(self),
                    (wbx, wby, c),
                    16,
                ),
        ensures
            final(dirty_chunks).wf(),
            !transparent_at(*old(self), (wbx, wby, wbz)) ==> {
                &&& final(self).columns@ == old(self).columns@
                &&& final(dirty_chunks)@ == old(dirty_chunks)@
            },
            transparent_at(*old(self), (wbx, wby, wbz)) && level_at(*old(self), (wbx, wby, (wbz + 1) as i16), true) == 15
                ==> exists|mid: ChunkBuffer|
                {
                    &&& beam_set(mid, *old(self), wbx, wby, wbz as int, 15)
                    &&& propagated(
                        *final(self),
                        mid,
                        true,
                        beam_from(*old(self), wbx, wby, wbz as int),
                        old(dirty_chunks)@.union(beam_chunks(*old(self), wbx, wby, wbz as int)),
                        final(dirty_chunks)@,
                    )
                },
            transparent_at(*old(self), (wbx, wby, wbz)) && level_at(*old(self), (wbx, wby, (wbz + 1) as i16), true) != 15
                ==> propagated(
                *final(self),
                *old(self),
                true,
                six_neighbours((wbx, wby, wbz)),
                old(dirty_chunks)@,
                final(dirty_chunks)@,
            ),
            transparent_at(*old(self), (wbx, wby, wbz)) && level_at(*old(self), (wbx, wby, (wbz + 1) as i16), true) != 15
                && 0 <= wbz < 1024 ==> forall|d: int|
                0 <= d < 6 && 0 <= #[trigger] neighbour((wbx, wby, wbz), d).2 < 1024 ==> level_at(
                    *final(self),
                    neighbour((wbx, wby, wbz), d),
                    true,
                ) <= level_at(*final(self), (wbx, wby, wbz), true) + 1,
    {
        let ghost old_self = *self;
        let ghost p = (wbx, wby, wbz);
        let ghost d_start = dirty_chunks@;
        let this_block = self.get_block(wbx, wby, wbz);
        if this_block.is_opaque() {
            // No sunlight propagation through opaque blocks
            return;
        }
        let sunlight_top = self.get_block(wbx, wby, wbz + 1).get_sunlight();
        let mut propagate_queue: Vec<Pos> = Vec::new();
        if sunlight_top == MAX_LIGHT_LEVEL {
            // This block is removed and sunlight can beam down from above.
            proof {
                assert forall|c: i16|
                    in_beam(old_self, wbx, wby, wbz as int, c as int) && c < 1024 implies #[trigger] old_self.block_loaded(wbx, wby, c) by {
                    assert(loaded_around(old_self, (wbx, wby, c), 16));
                    assert(dist((wbx, wby, c), (wbx, wby, c)) == 0);
                }
            }
            let (positions, _removals) = self.light_beam(wbx, wby, wbz, MAX_LIGHT_LEVEL, dirty_chunks);
            propagate_queue = positions;
            proof {
                lemma_beam_from(old_self, wbx, wby, wbz as int);
                let s = beam_from(old_self, wbx, wby, wbz as int);
                assert forall|j: int| 0 <= j < s.len() implies loaded_around(*self, #[trigger] s[j], 16) by {
                    assert(s[j] == (wbx, wby, (wbz - j) as i16));
                    assert(in_beam(old_self, wbx, wby, wbz as int, wbz - j));
                    assert(loaded_around(old_self, (wbx, wby, (wbz - j) as i16), 16));
                    lemma_loaded_kept(*self, old_self, s[j], 16);
                }
            }
        } else {
            // This block is removed, and neighbours may have sunlight to propagate into here.
            propagate_queue.push((wbx + 1, wby, wbz));
            propagate_queue.push((wbx - 1, wby, wbz));
            propagate_queue.push((wbx, wby + 1, wbz));
            propagate_queue.push((wbx, wby - 1, wbz));
            propagate_queue.push((wbx, wby, wbz + 1));
            propagate_queue.push((wbx, wby, wbz - 1));
            proof {
                assert(propagate_queue@ =~= six_neighbours(p));
                assert forall|j: int| 0 <= j < 6 implies loaded_around(*self, #[trigger] six_neighbours(p)[j], 16) by {
                    lemma_loaded_neighbour(old_self, p, j, 16);
                }
            }
        }
        let ghost mid = *self;
        // Now propagate sunlight from the downward beam to the sides
        self.propagate_sunlight_queue(propagate_queue, dirty_chunks);
        proof {
            if sunlight_top == MAX_LIGHT_LEVEL {
                assert(beam_set(mid, old_self, wbx, wby, wbz as int, 15));
            } else if 0 <= wbz < 1024 {
                lemma_sunlight_in_from_all_sides(*self, old_self, p, d_start, dirty_chunks@);
            }
        }
    }

    /// Remove sunlight from (wbx, wby, wbz), where a block was placed, and all sunlight
    /// propagated from it; when it was in full sunlight the beam below it goes dark too.
    pub fn remove_sunlight_if_needed(
        &mut self,
        wbx: i16,
        wby: i16,
        wbz: i16,
        old_block_sunlight: u8,
        dirty_chunks: &mut ChunkPosSet,
    )
        requires
            old(self).wf(),
            old(dirty_chunks).wf(),
            loaded_around(*old(self), (wbx, wby, wbz), 32),
            old_block_sunlight == 15 ==> forall|c: i16|
                in_beam(*old(self), wbx, wby, wbz - 1, c as int) ==> #[trigger] loaded_around(
                    *old(self),
                    (wbx, wby, c),
                    32,
                ),
        ensures
            final(dirty_chunks).wf(),
            old_block_sunlight == 15 ==> exists|m1: ChunkBuffer, mid: ChunkBuffer, pq: Seq<Pos>, dmid: Set<ChunkPos>|
                {
                    &&& beam_set(m1, *old(self), wbx, wby, wbz - 1, 0)
                    &&& #[trigger] removal_done(
                        mid,
                        m1,
                        true,
                        seq![(wbx, wby, wbz, old_block_sunlight)] + beam_removals(*old(self), wbx, wby, wbz - 1),
                        pq,
                        old(dirty_chunks)@.union(beam_chunks(*old(self), wbx, wby, wbz - 1)),
                        dmid,
                    )
                    &&& propagated(*final(self), mid, true, pq, dmid, final(dirty_chunks)@)
                },
            old_block_sunlight != 15 ==> exists|mid: ChunkBuffer, pq: Seq<Pos>, dmid: Set<ChunkPos>|
                {
                    &&& #[trigger] removal_done(
                        mid,
                        *old(self),
                        true,
                        seq![(wbx, wby, wbz, old_block_sunlight)],
                        pq,
                        old(dirty_chunks)@,
                        dmid,
                    )
                    &&& propagated(*final(self), mid, true, pq, dmid, final(dirty_chunks)@)
                },
    {
        let ghost old_self = *self;
        let ghost d0 = dirty_chunks@;
        let mut queue: Vec<Removal> = Vec::new();
        queue.push((wbx, wby, wbz, old_block_sunlight));
        if old_block_sunlight == MAX_LIGHT_LEVEL {
            // The old block was in direct sunlight, remove propagation downwards
            proof {
                assert forall|c: i16|
                    in_beam(old_self, wbx, wby, wbz - 1, c as int) && c < 1024 implies #[trigger] old_self.block_loaded(wbx, wby, c) by {
                    assert(loaded_around(old_self, (wbx, wby, c), 32));
                    assert(dist((wbx, wby, c), (wbx, wby, c)) == 0);
                }
            }
            let (_positions, mut removals) = self.light_beam(wbx, wby, wbz - 1, 0, dirty_chunks);
            queue.append(&mut removals);
            proof {
                let ghost m1 = *self;
                lemma_beam_from(old_self, wbx, wby, wbz - 1);
                let s = queue@;
                let rs = beam_removals(old_self, wbx, wby, wbz - 1);
                assert forall|j: int| 0 <= j < s.len() implies loaded_around(m1, rpos(#[trigger] s[j]), 32) by {
                    if j == 0 {
                        lemma_loaded_kept(m1, old_self, (wbx, wby, wbz), 32);
                    } else {
                        assert(s[j] == rs[j - 1]);
                        assert(beam_from(old_self, wbx, wby, wbz - 1)[j - 1] == (wbx, wby, (wbz - 1 - (j - 1)) as i16));
                        assert(in_beam(old_self, wbx, wby, wbz - 1, wbz - 1 - (j - 1)));
                        assert(loaded_around(old_self, (wbx, wby, (wbz - 1 - (j - 1)) as i16), 32));
                        lemma_loaded_kept(m1, old_self, rpos(s[j]), 32);
                    }
                }
                assert(rem_starts_loaded(m1, s, 32));
            }
        } else {
            proof {
                assert(loaded_around(old_self, rpos(queue@[0]), 32));
            }
        }
        remove_sunlight_queue(self, queue, dirty_chunks);
    }
}

/// `new` is `old` with the block at `q` replaced by `b` and nothing else changed.
pub open spec fn block_set(new: ChunkBuffer, old: ChunkBuffer, q: Pos, b: Block) -> bool {
    &&& keeps_shape(new, old)
    &&& forall|x: i16, y: i16, z: i16|
        #![trigger new.block_at(x, y, z)]
        new.block_at(x, y, z) == if (x, y, z) == q {
            b
        } else {
            old.block_at(x, y, z)
        }
}

/// The light to remove where a light source of level `l` stood at `q`: the level as a block
/// stores it, when that is not zero.
pub open spec fn source_removal(q: Pos, l: u8) -> Seq<Removal> {
    if l % 16 != 0 {
        seq![(q.0, q.1, q.2, (l % 16) as u8)]
    } else {
        Seq::empty()
    }
}

/// The dirty chunks once the light of a source of level `l` at `q` was taken out of it.
pub open spec fn source_dirty(d: Set<ChunkPos>, q: Pos, l: u8) -> Set<ChunkPos> {
    if l % 16 != 0 {
        d.insert(chunk_of(q))
    } else {
        d
    }
}

/// An air block lit at level `l` stores the level modulo 16; unlit again it is plain air.
proof fn lemma_lit_air(l: u8)
    by (bit_vector)
    ensures
        spec_light(spec_with_light(AIR_BLOCK, l)) == l % 16,
        spec_transparent(spec_with_light(AIR_BLOCK, l)),
        spec_with_light(spec_with_light(AIR_BLOCK, l), 0) == AIR_BLOCK,
        l % 16 == 0 ==> spec_with_light(AIR_BLOCK, l) == AIR_BLOCK,
{
}

/// Keeping the shape is transitive.
proof fn lemma_keeps_shape_trans(a: ChunkBuffer, b: ChunkBuffer, c: ChunkBuffer)
    requires
        keeps_shape(b, a),
        keeps_shape(c, b),
    ensures
        keeps_shape(c, a),
{
    assert forall|x: i16, y: i16, z: i16|
        #![trigger c.block_loaded(x, y, z)]
        c.block_loaded(x, y, z) == a.block_loaded(x, y, z) by {
        assert(b.block_loaded(x, y, z) == a.block_loaded(x, y, z));
    }
}

impl ChunkBuffer {
    /// Replace the light source at (wbx, wby, wbz), of level `light_level`, by `new_block`:
    /// remove all light that came from it, then propagate light back in from the other
    /// sources around the darkened blocks, one after the other.
    pub fn remove_block_and_light(
        &mut self,
        wbx: i16,
        wby: i16,
        wbz: i16,
        light_level: u8,
        new_block: Block,
        dirty_chunks: &mut ChunkPosSet,
    )
        requires
            old(self).wf(),
            old(dirty_chunks).wf(),
            light_level < 255,
            old(self).block_loaded(wbx, wby, wbz),
            light_level % 16 != 0 ==> loaded_around(*old(self), (wbx, wby, wbz), 32),
        ensures
            final(dirty_chunks).wf(),
            keeps_shape(*final(self), *old(self)),
            exists|m1: ChunkBuffer, mid: ChunkBuffer, pq: Seq<Pos>, dmid: Set<ChunkPos>|
                {
                    &&& block_set(m1, *old(self), (wbx, wby, wbz), new_block)
                    &&& #[trigger] removal_done(
                        mid,
                        m1,
                        false,
                        source_removal((wbx, wby, wbz), light_level),
                        pq,
                        source_dirty(old(dirty_chunks)@, (wbx, wby, wbz), light_level),
                        dmid,
                    )
                    &&& propagated(*final(self), mid, false, pq, dmid, final(dirty_chunks)@)
                },
    {
        let ghost old_self = *self;
        let ghost d0 = dirty_chunks@;
        let ghost w = (wbx, wby, wbz);
        let mut queue: VecDeque<Removal> = VecDeque::new();
        let mut propagate_queue: Vec<Pos> = Vec::new();
        let mut empty_block = Block::empty_block();
        empty_block.set_light(light_level);
        proof {
            lemma_lit_air(light_level);
            crate::chunk::lemma_shr4(wbx);
            crate::chunk::lemma_shr4(wby);
            crate::chunk::lemma_shr4(wbz);
        }
        self.set_block(wbx, wby, wbz, empty_block);
        let ghost s1 = *self;
        proof {
            assert(s1.block_at(wbx, wby, wbz) == spec_with_light(AIR_BLOCK, light_level));
        }
        // First enqueue neighbours
        self.light_removal_helper(wbx, wby, wbz, light_level + 1, dirty_chunks, &mut queue, &mut propagate_queue);
        let ghost s2 = *self;
        proof {
            assert(s2.block_at(wbx, wby, wbz) == AIR_BLOCK);
            assert(queue@ =~= source_removal(w, light_level));
            assert(dirty_chunks@ == source_dirty(d0, w, light_level));
            assert(propagate_queue@ =~= Seq::<Pos>::empty());
            assert(s2.block_loaded(wbx, wby, wbz));
        }
        // Now remove the light block
        self.set_block(wbx, wby, wbz, new_block);
        let ghost m1 = *self;
        proof {
            lemma_keeps_shape_trans(old_self, s1, s2);
            lemma_keeps_shape_trans(old_self, s2, m1);
            assert forall|x: i16, y: i16, z: i16|
                #![trigger m1.block_at(x, y, z)]
                m1.block_at(x, y, z) == if (x, y, z) == w { new_block } else { old_self.block_at(x, y, z) } by {
                if (x, y, z) == w {
                    assert(m1.block_at(x, y, z) == new_block);
                } else {
                    assert(s1.block_at(x, y, z) == old_self.block_at(x, y, z));
                    assert(s2.block_at(x, y, z) == s1.block_at(x, y, z));
                    assert(m1.block_at(x, y, z) == s2.block_at(x, y, z));
                }
            }
            if light_level % 16 != 0 {
                lemma_loaded_kept(m1, old_self, w, 32);
                assert(rpos(queue@[0]) == w);
            }
            assert(rem_starts_loaded(m1, queue@, 32));
        }
        // Remove all light from this source
        let ghost d1 = dirty_chunks@;
        let pq = drain_removals(self, queue, false, dirty_chunks);
        let ghost mid = *self;
        let ghost dmid = dirty_chunks@;
        proof {
            assert(starts_lit(source_removal(w, light_level)));
            lemma_refill_loaded(mid, m1, source_removal(w, light_level), pq@);
            lemma_propagated_none(mid, false, dmid);
            assert(pq@.take(0) =~= Seq::<Pos>::empty());
        }
        // Propagate back light from other sources
        let mut i: usize = 0;
        while i < pq.len()
            invariant
                i <= pq.len(),
                self.wf(),
                dirty_chunks.wf(),
                mid.wf(),
                starts_loaded(mid, pq@, 16),
                forall|j: int| 0 <= j < pq.len() ==> mid.block_loaded((#[trigger] pq@[j]).0, pq@[j].1, pq@[j].2),
                propagated(*self, mid, false, pq@.take(i as int), dmid, dirty_chunks@),
            decreases pq.len() - i,
        {
            let (x, y, z) = pq[i];
            let ghost cur = *self;
            let ghost dcur = dirty_chunks@;
            proof {
                lemma_loaded_kept(cur, mid, pq@[i as int], 16);
                assert(mid.block_loaded(x, y, z));
                assert(cur.block_loaded(x, y, z));
            }
            self.propagate_light(x, y, z, dirty_chunks);
            proof {
                lemma_propagated_compose(mid, cur, *self, false, pq@.take(i as int), seq![(x, y, z)], dmid, dcur, dirty_chunks@);
                assert(pq@.take(i as int) + seq![(x, y, z)] =~= pq@.take(i + 1));
            }
            i = i + 1;
        }
        proof {
            assert(pq@.take(pq.len() as int) =~= pq@);
            assert(block_set(m1, old_self, w, new_block));
            assert(removal_done(mid, m1, false, source_removal(w, light_level), pq@, source_dirty(d0, w, light_level), dmid));
            lemma_keeps_shape_trans(old_self, m1, mid);
            lemma_keeps_shape_trans(old_self, mid, *self);
        }
    }
}

} // verus!
