//! Lighting a newly generated chunk: its light blocks are lit and spread their light,
//! and its blocks in full sunlight spread theirs.

use super::light::{
    chunk_of, keeps_shape, lemma_propagated_compose, lemma_propagated_none, level_at,
    loaded_around, propagated, starts_loaded, MAX_LIGHT_LEVEL,
};
use super::light_edit::lemma_loaded_kept;
use super::world_sum::Pos;
use crate::block::blockregistry::{BlockDef, BlockRegistry};
use crate::block::{spec_kind, spec_with_light, Block, BlockTrait, LightBlock};
use crate::chunk::chunk_buffer::ChunkBuffer;
use crate::chunk::chunk_pos_set::ChunkPosSet;
use crate::chunk::chunkpos::{spec_chunk_of, ChunkPos};
use crate::chunk::ChunkColumnPos;
use super::light::{dist, without_level};
use crate::block::{without_light, without_sunlight};
use vstd::prelude::*;

verus! {

/// The `k`-th block of chunk `cp`, counting z fastest, then y, then x.
pub open spec fn chunk_block(cp: ChunkPos, k: int) -> Pos {
    ((cp.x * 16 + k / 256) as i16, (cp.y * 16 + (k / 16) % 16) as i16, (cp.z * 16 + k % 16) as i16)
}

/// The place of block `p` in the counting of its chunk's blocks.
pub open spec fn local_index(p: Pos) -> int {
    (p.0 % 16) * 256 + (p.1 % 16) * 16 + p.2 % 16
}

/// Chunk coordinates whose blocks' world coordinates fit in an `i16`.
pub open spec fn chunk_pos_fits(cp: ChunkPos) -> bool {
    &&& -2048 <= cp.x <= 2047
    &&& -2048 <= cp.y <= 2047
    &&& -2048 <= cp.z <= 2047
}

/// The light that the definition of the block at `p` gives it.
pub open spec fn seed_light(buf: ChunkBuffer, reg: Seq<BlockDef>, p: Pos) -> u8 {
    reg[spec_kind(buf.block_at(p.0, p.1, p.2)) as int].light
}

/// The light blocks among the first `k` blocks of chunk `cp`, in counting order.
pub open spec fn chunk_lights(buf: ChunkBuffer, cp: ChunkPos, reg: Seq<BlockDef>, k: int) -> Seq<Pos>
    decreases k,
{
    if k <= 0 {
        Seq::empty()
    } else {
        chunk_lights(buf, cp, reg, k - 1) + if seed_light(buf, reg, chunk_block(cp, k - 1)) > 0 {
            seq![chunk_block(cp, k - 1)]
        } else {
            Seq::empty()
        }
    }
}

/// The blocks in full sunlight, other than light blocks, among the first `k` blocks of chunk
/// `cp`, in counting order.
pub open spec fn chunk_sunlit(buf: ChunkBuffer, cp: ChunkPos, reg: Seq<BlockDef>, k: int) -> Seq<Pos>
    decreases k,
{
    if k <= 0 {
        Seq::empty()
    } else {
        chunk_sunlit(buf, cp, reg, k - 1) + if seed_light(buf, reg, chunk_block(cp, k - 1)) == 0
            && level_at(buf, chunk_block(cp, k - 1), true) == 15 {
            seq![chunk_block(cp, k - 1)]
        } else {
            Seq::empty()
        }
    }
}

/// `new` is `old` with each of the first `k` blocks of chunk `cp` that its definition gives
/// light lit at that level.
pub open spec fn chunk_seeded(new: ChunkBuffer, old: ChunkBuffer, cp: ChunkPos, reg: Seq<BlockDef>, k: int) -> bool {
    &&& keeps_shape(new, old)
    &&& forall|a: i16, b: i16, c: i16|
        #![trigger new.block_at(a, b, c)]
        new.block_at(a, b, c) == if chunk_of((a, b, c)) == cp && local_index((a, b, c)) < k && seed_light(
            old,
            reg,
            (a, b, c),
        ) > 0 {
            spec_with_light(old.block_at(a, b, c), seed_light(old, reg, (a, b, c)))
        } else {
            old.block_at(a, b, c)
        }
}

/// The `k`-th block of a chunk lies in that chunk, at place `k`, and places are unique.
pub proof fn lemma_chunk_block(cp: ChunkPos, k: int)
    requires
        chunk_pos_fits(cp),
        0 <= k < 4096,
    ensures
        chunk_of(chunk_block(cp, k)) == cp,
        local_index(chunk_block(cp, k)) == k,
        forall|p: Pos| chunk_of(p) == cp && local_index(p) == k ==> p == chunk_block(cp, k),
{
    let p = chunk_block(cp, k);
    crate::chunk::lemma_shr4(p.0);
    crate::chunk::lemma_shr4(p.1);
    crate::chunk::lemma_shr4(p.2);
    assert forall|q: Pos| chunk_of(q) == cp && local_index(q) == k implies q == p by {
        crate::chunk::lemma_shr4(q.0);
        crate::chunk::lemma_shr4(q.1);
        crate::chunk::lemma_shr4(q.2);
    }
}

impl ChunkBuffer {
    /// Light a newly generated normal chunk: each block its definition gives light is lit
    /// at that level and spreads its light, one after the other; then the blocks in full
    /// sunlight spread their sunlight. Nothing happens to a chunk that is not normal.
    pub fn propagate_chunk_light_and_sunlight(
        &mut self,
        cp: ChunkPos,
        dirty_chunks: &mut ChunkPosSet,
        block_registry: &BlockRegistry,
    )
        requires
            old(self).wf(),
            old(dirty_chunks).wf(),
            old(self).chunk_at(cp.x, cp.y, cp.z) is Some,
            chunk_pos_fits(cp),
            old(self).chunk_at(cp.x, cp.y, cp.z)->0.blocks.len() > 1 ==> forall|k: int|
                0 <= k < 4096 ==> {
                    let p = #[trigger] chunk_block(cp, k);
                    &&& spec_kind(old(self).block_at(p.0, p.1, p.2)) < block_registry.spec_blocks().len()
                    &&& (seed_light(*old(self), block_registry.spec_blocks(), p) > 0 || level_at(
                        *old(self),
                        p,
                        true,
                    ) == 15) ==> loaded_around(*old(self), p, 16)
                },
        ensures
            final(dirty_chunks).wf(),
            old(self).chunk_at(cp.x, cp.y, cp.z)->0.blocks.len() <= 1 ==> {
                &&& final(self).columns@ == old(self).columns@
                &&& final(dirty_chunks)@ == old(dirty_chunks)@
            },
            old(self).chunk_at(cp.x, cp.y, cp.z)->0.blocks.len() > 1 ==> exists|m1: ChunkBuffer, m2: ChunkBuffer, d2: Set<ChunkPos>|
                {
                    &&& chunk_seeded(m1, *old(self), cp, block_registry.spec_blocks(), 4096)
                    &&& #[trigger] propagated(
                        m2,
                        m1,
                        false,
                        chunk_lights(*old(self), cp, block_registry.spec_blocks(), 4096),
                        old(dirty_chunks)@,
                        d2,
                    )
                    &&& propagated(
                        *final(self),
                        m2,
                        true,
                        chunk_sunlit(*old(self), cp, block_registry.spec_blocks(), 4096),
                        d2,
                        final(dirty_chunks)@,
                    )
                },
    {
        let ghost old_self = *self;
        let ghost reg = block_registry.spec_blocks();
        let ghost d0 = dirty_chunks@;
        let chunk = self.get_chunk_pos(cp).unwrap();
        if !chunk.is_normal() {
            return;
        }
        proof {
            old_self.lemma_chunk_at_wf(cp.x, cp.y, cp.z);
        }
        let mut lights: Vec<Pos> = Vec::new();
        let mut sunlight_queue: Vec<Pos> = Vec::new();
        let mut k: usize = 0;
        proof {
            assert(self.columns@.dom() =~= old_self.columns@.dom());
            assert(lights@ =~= chunk_lights(old_self, cp, reg, 0));
            assert(sunlight_queue@ =~= chunk_sunlit(old_self, cp, reg, 0));
        }
        while k < 4096
            invariant
                k <= 4096,
                self.wf(),
                old_self.wf(),
                chunk_pos_fits(cp),
                reg == block_registry.spec_blocks(),
                old_self.chunk_at(cp.x, cp.y, cp.z) is Some,
                old_self.chunk_at(cp.x, cp.y, cp.z)->0.blocks.len() == 4096,
                old_self.chunk_at(cp.x, cp.y, cp.z)->0.pos == cp,
                forall|j: int|
                    0 <= j < 4096 ==> spec_kind(old_self.block_at(#[trigger] chunk_block(cp, j).0, chunk_block(cp, j).1, chunk_block(cp, j).2)) < reg.len(),
                chunk_seeded(*self, old_self, cp, reg, k as int),
                lights@ == chunk_lights(old_self, cp, reg, k as int),
                sunlight_queue@ == chunk_sunlit(old_self, cp, reg, k as int),
                dirty_chunks@ == d0,
                dirty_chunks.wf(),
            decreases 4096 - k,
        {
            let ghost cur = *self;
            let lbx = k / 256;
            let lby = (k / 16) % 16;
            let lbz = k % 16;
            let wbx = cp.x * 16 + lbx as i16;
            let wby = cp.y * 16 + lby as i16;
            let wbz = cp.z * 16 + lbz as i16;
            let ghost p = (wbx, wby, wbz);
            proof {
                assert(p == chunk_block(cp, k as int));
                lemma_chunk_block(cp, k as int);
                crate::chunk::lemma_shr4(wbx);
                crate::chunk::lemma_shr4(wby);
                crate::chunk::lemma_shr4(wbz);
                assert(cur.block_at(wbx, wby, wbz) == old_self.block_at(wbx, wby, wbz));
            }
            let mut block = self.get_block(wbx, wby, wbz);
            let kind = block.kind();
            proof {
                assert(spec_kind(kind) == spec_kind(block)) by (bit_vector)
                    requires
                        kind == spec_kind(block),
                ;
            }
            let block_def = block_registry.get(kind);
            if block_def.light > 0 {
                block.set_light(block_def.light);
                self.set_block(wbx, wby, wbz, block);
                lights.push((wbx, wby, wbz));
            } else if block.get_sunlight() == MAX_LIGHT_LEVEL {
                sunlight_queue.push((wbx, wby, wbz));
            }
            proof {
                assert(lights@ =~= chunk_lights(old_self, cp, reg, k + 1));
                assert(sunlight_queue@ =~= chunk_sunlit(old_self, cp, reg, k + 1));
                assert forall|a: i16, b: i16, c: i16|
                    #![trigger self.block_at(a, b, c)]
                    self.block_at(a, b, c) == if chunk_of((a, b, c)) == cp && local_index((a, b, c)) < k + 1 && seed_light(
                        old_self,
                        reg,
                        (a, b, c),
                    ) > 0 {
                        spec_with_light(old_self.block_at(a, b, c), seed_light(old_self, reg, (a, b, c)))
                    } else {
                        old_self.block_at(a, b, c)
                    } by {
                    assert(cur.block_at(a, b, c) == cur.block_at(a, b, c));
                    if (a, b, c) != p && chunk_of((a, b, c)) == cp && local_index((a, b, c)) == k {
                        assert((a, b, c) == chunk_block(cp, k as int));
                    }
                }
                assert(self.same_shape(old_self));
                assert forall|a: i16, b: i16, c: i16|
                    #![trigger self.block_loaded(a, b, c)]
                    self.block_loaded(a, b, c) == old_self.block_loaded(a, b, c) by {
                    assert(cur.block_loaded(a, b, c) == old_self.block_loaded(a, b, c));
                }
            }
            k += 1;
        }
        let ghost m1 = *self;
        let ghost all_lights = lights@;
        proof {
            lemma_propagated_none(m1, false, d0);
            assert(all_lights.take(0) =~= Seq::<Pos>::empty());
            assert forall|j: int| 0 <= j < all_lights.len() implies loaded_around(m1, #[trigger] all_lights[j], 16) && m1.block_loaded(all_lights[j].0, all_lights[j].1, all_lights[j].2) by {
                lemma_chunk_lights(old_self, cp, reg, 4096, j);
                let k = choose|k: int| 0 <= k < 4096 && all_lights[j] == chunk_block(cp, k) && seed_light(old_self, reg, chunk_block(cp, k)) > 0;
                lemma_chunk_block(cp, k);
                let p = all_lights[j];
                lemma_loaded_kept(m1, old_self, p, 16);
                crate::chunk::lemma_shr4(p.0);
                crate::chunk::lemma_shr4(p.1);
                crate::chunk::lemma_shr4(p.2);
                assert(old_self.block_loaded(p.0, p.1, p.2));
            }
        }
        let mut i: usize = 0;
        while i < lights.len()
            invariant
                i <= lights.len(),
                self.wf(),
                dirty_chunks.wf(),
                m1.wf(),
                lights@ == all_lights,
                forall|j: int| 0 <= j < all_lights.len() ==> loaded_around(m1, #[trigger] all_lights[j], 16) && m1.block_loaded(all_lights[j].0, all_lights[j].1, all_lights[j].2),
                propagated(*self, m1, false, all_lights.take(i as int), d0, dirty_chunks@),
            decreases lights.len() - i,
        {
            let (x, y, z) = lights[i];
            let ghost cur = *self;
            let ghost dcur = dirty_chunks@;
            proof {
                lemma_loaded_kept(cur, m1, all_lights[i as int], 16);
                assert(cur.block_loaded(x, y, z));
            }
            self.propagate_light(x, y, z, dirty_chunks);
            proof {
                lemma_propagated_compose(m1, cur, *self, false, all_lights.take(i as int), seq![(x, y, z)], d0, dcur, dirty_chunks@);
                assert(all_lights.take(i as int) + seq![(x, y, z)] =~= all_lights.take(i + 1));
            }
            i += 1;
        }
        let ghost m2 = *self;
        let ghost d2 = dirty_chunks@;
        proof {
            assert(all_lights.take(all_lights.len() as int) =~= all_lights);
            let s = sunlight_queue@;
            assert forall|j: int| 0 <= j < s.len() implies loaded_around(m2, #[trigger] s[j], 16) by {
                lemma_chunk_sunlit(old_self, cp, reg, 4096, j);
                let k = choose|k: int| 0 <= k < 4096 && s[j] == chunk_block(cp, k) && seed_light(old_self, reg, chunk_block(cp, k)) == 0 && level_at(old_self, chunk_block(cp, k), true) == 15;
                lemma_loaded_kept(m2, old_self, s[j], 16);
            }
        }
        self.propagate_sunlight_queue(sunlight_queue, dirty_chunks);
        proof {
            assert(chunk_seeded(m1, old_self, cp, reg, 4096));
            assert(propagated(m2, m1, false, chunk_lights(old_self, cp, reg, 4096), d0, d2));
        }
    }
}

/// Each light among the first `k` blocks of a chunk is one of its blocks that its definition
/// gives light.
proof fn lemma_chunk_lights(buf: ChunkBuffer, cp: ChunkPos, reg: Seq<BlockDef>, k: int, j: int)
    requires
        0 <= j < chunk_lights(buf, cp, reg, k).len(),
    ensures
        exists|i: int| 0 <= i < k && chunk_lights(buf, cp, reg, k)[j] == chunk_block(cp, i) && seed_light(buf, reg, chunk_block(cp, i)) > 0,
    decreases k,
{
    if k > 0 {
        let prev = chunk_lights(buf, cp, reg, k - 1);
        if j < prev.len() {
            lemma_chunk_lights(buf, cp, reg, k - 1, j);
            let i = choose|i: int| 0 <= i < k - 1 && prev[j] == chunk_block(cp, i) && seed_light(buf, reg, chunk_block(cp, i)) > 0;
            assert(chunk_lights(buf, cp, reg, k)[j] == prev[j]);
        } else {
            assert(chunk_lights(buf, cp, reg, k)[j] == chunk_block(cp, k - 1));
        }
    }
}

/// Each sunlit block among the first `k` blocks of a chunk is one of its blocks in full
/// sunlight that its definition gives no light.
proof fn lemma_chunk_sunlit(buf: ChunkBuffer, cp: ChunkPos, reg: Seq<BlockDef>, k: int, j: int)
    requires
        0 <= j < chunk_sunlit(buf, cp, reg, k).len(),
    ensures
        exists|i: int|
            0 <= i < k && chunk_sunlit(buf, cp, reg, k)[j] == chunk_block(cp, i) && seed_light(buf, reg, chunk_block(cp, i)) == 0
                && level_at(buf, chunk_block(cp, i), true) == 15,
    decreases k,
{
    if k > 0 {
        let prev = chunk_sunlit(buf, cp, reg, k - 1);
        if j < prev.len() {
            lemma_chunk_sunlit(buf, cp, reg, k - 1, j);
            let i = choose|i: int|
                0 <= i < k - 1 && prev[j] == chunk_block(cp, i) && seed_light(buf, reg, chunk_block(cp, i)) == 0 && level_at(
                    buf,
                    chunk_block(cp, i),
                    true,
                ) == 15;
            assert(chunk_sunlit(buf, cp, reg, k)[j] == prev[j]);
        } else {
            assert(chunk_sunlit(buf, cp, reg, k)[j] == chunk_block(cp, k - 1));
        }
    }
}

/// All 64 chunks of the nine columns around `col` (itself included) are loaded and
/// initialized.
pub open spec fn area_loaded(buf: ChunkBuffer, col: ChunkColumnPos) -> bool {
    forall|dx: int, dy: int, z: int|
        -1 <= dx <= 1 && -1 <= dy <= 1 && 0 <= z < 64 ==> #[trigger] chunk_ready(buf, col.x + dx, col.y + dy, z)
}

/// The chunk at (cx, cy, cz) is loaded and initialized.
pub open spec fn chunk_ready(buf: ChunkBuffer, cx: int, cy: int, cz: int) -> bool {
    buf.chunk_at(cx as i16, cy as i16, cz as i16) matches Some(c) && c.blocks.len() > 0
}

/// Column `col` lies far enough inside the world for light to spread from any of its blocks.
pub open spec fn col_fits(col: ChunkColumnPos) -> bool {
    &&& -2047 <= col.x <= 2046
    &&& -2047 <= col.y <= 2046
}

/// Block `p` lies in column `col`, within the height of the world.
pub open spec fn in_column(p: Pos, col: ChunkColumnPos) -> bool {
    &&& chunk_of(p).x == col.x
    &&& chunk_of(p).y == col.y
    &&& 0 <= p.2 < 1024
}

/// Every block of column `col` is of a kind that `reg` defines.
pub open spec fn kinds_known(buf: ChunkBuffer, col: ChunkColumnPos, reg: Seq<BlockDef>) -> bool {
    forall|x: i16, y: i16, z: i16|
        in_column((x, y, z), col) ==> spec_kind(#[trigger] buf.block_at(x, y, z)) < reg.len()
}

/// Every block stored in the 64 chunks of column `col` is of a kind that `reg` defines.
pub open spec fn blocks_known(buf: ChunkBuffer, col: ChunkColumnPos, reg: Seq<BlockDef>) -> bool {
    forall|z: int, i: int|
        0 <= z < 64 && 0 <= i < buf.chunk_at(col.x, col.y, z as i16)->0.blocks.len() ==> spec_kind(
            #[trigger] buf.chunk_at(col.x, col.y, z as i16)->0.blocks[i],
        ) < reg.len()
}

/// `new` is `old` after chunk `cp` was lit as a newly generated chunk, with a fresh dirty
/// set: nothing changes for a chunk that is not normal; otherwise its light blocks are lit
/// and spread their light, then its blocks in full sunlight spread theirs.
pub open spec fn chunk_lit(new: ChunkBuffer, old: ChunkBuffer, cp: ChunkPos, reg: Seq<BlockDef>) -> bool {
    if old.chunk_at(cp.x, cp.y, cp.z)->0.blocks.len() <= 1 {
        new.columns@ == old.columns@
    } else {
        exists|m1: ChunkBuffer, m2: ChunkBuffer, d2: Set<ChunkPos>, d3: Set<ChunkPos>|
            {
                &&& chunk_seeded(m1, old, cp, reg, 4096)
                &&& #[trigger] propagated(
                    m2,
                    m1,
                    false,
                    chunk_lights(old, cp, reg, 4096),
                    Set::empty(),
                    d2,
                )
                &&& #[trigger] propagated(new, m2, true, chunk_sunlit(old, cp, reg, 4096), d2, d3)
            }
    }
}

/// Chunk `i` of column `col` was lit from state `i` to state `i + 1`.
pub open spec fn lit_step(states: Seq<ChunkBuffer>, i: int, col: ChunkColumnPos, reg: Seq<BlockDef>) -> bool {
    chunk_lit(states[i + 1], states[i], ChunkPos { x: col.x, y: col.y, z: i as i16 }, reg)
}

/// `new` is `old` after the first `n` chunks of column `col` were lit, bottom up, one
/// after the other.
pub open spec fn column_lit(new: ChunkBuffer, old: ChunkBuffer, col: ChunkColumnPos, reg: Seq<BlockDef>, n: int) -> bool {
    exists|states: Seq<ChunkBuffer>|
        {
            &&& #[trigger] states.len() == n + 1
            &&& states[0] == old
            &&& states[n] == new
            &&& forall|i: int| 0 <= i < n ==> #[trigger] lit_step(states, i, col, reg)
        }
}

/// Known block kinds stay known when blocks are only lit.
proof fn lemma_seeded_kinds(new: ChunkBuffer, old: ChunkBuffer, cp: ChunkPos, reg: Seq<BlockDef>, col: ChunkColumnPos)
    requires
        kinds_known(old, col, reg),
        chunk_seeded(new, old, cp, reg, 4096),
    ensures
        kinds_known(new, col, reg),
{
    assert forall|x: i16, y: i16, z: i16| in_column((x, y, z), col) implies spec_kind(#[trigger] new.block_at(x, y, z)) < reg.len() by {
        let b = old.block_at(x, y, z);
        crate::block::lemma_with_light(b, seed_light(old, reg, (x, y, z)));
    }
}

/// Light can spread 16 blocks from any block of a column whose area is loaded.
proof fn lemma_area_loaded_around(buf: ChunkBuffer, col: ChunkColumnPos, p: Pos)
    requires
        area_loaded(buf, col),
        col_fits(col),
        in_column(p, col),
    ensures
        loaded_around(buf, p, 16),
{
    crate::chunk::lemma_shr4(p.0);
    crate::chunk::lemma_shr4(p.1);
    assert forall|x: i16, y: i16, z: i16|
        #![trigger buf.block_loaded(x, y, z)]
        dist((x, y, z), p) <= 16 && 0 <= z < 1024 implies buf.block_loaded(x, y, z) by {
        crate::chunk::lemma_shr4(x);
        crate::chunk::lemma_shr4(y);
        crate::chunk::lemma_shr4(z);
        let cp = spec_chunk_of(x, y, z);
        let dx = cp.x - col.x;
        let dy = cp.y - col.y;
        assert(-1 <= dx <= 1 && -1 <= dy <= 1);
        assert(chunk_ready(buf, col.x + dx, col.y + dy, cp.z as int));
    }
}

/// Kinds and what is loaded stay when only light levels change.
proof fn lemma_light_only_kinds(new: ChunkBuffer, old: ChunkBuffer, col: ChunkColumnPos, reg: Seq<BlockDef>, sun: bool)
    requires
        kinds_known(old, col, reg),
        forall|x: i16, y: i16, z: i16|
            #![trigger new.block_at(x, y, z)]
            without_level(new.block_at(x, y, z), sun) == without_level(old.block_at(x, y, z), sun),
    ensures
        kinds_known(new, col, reg),
{
    assert forall|x: i16, y: i16, z: i16| in_column((x, y, z), col) implies spec_kind(#[trigger] new.block_at(x, y, z)) < reg.len() by {
        let a = new.block_at(x, y, z);
        let b = old.block_at(x, y, z);
        assert(without_level(a, sun) == without_level(b, sun));
        if sun {
            assert(without_sunlight(a) == without_sunlight(b) ==> spec_kind(a) == spec_kind(b)) by (bit_vector);
        } else {
            assert(without_light(a) == without_light(b) ==> spec_kind(a) == spec_kind(b)) by (bit_vector);
        }
    }
}

/// The area around a column stays loaded when the shape of the buffer stays.
proof fn lemma_area_kept(new: ChunkBuffer, old: ChunkBuffer, col: ChunkColumnPos)
    requires
        area_loaded(old, col),
        new.same_shape(old),
    ensures
        area_loaded(new, col),
{
    assert forall|dx: int, dy: int, z: int|
        -1 <= dx <= 1 && -1 <= dy <= 1 && 0 <= z < 64 implies #[trigger] chunk_ready(new, col.x + dx, col.y + dy, z) by {
        let k = crate::chunk::chunk_buffer::spec_column_key((col.x + dx) as i16, (col.y + dy) as i16);
        assert(chunk_ready(old, col.x + dx, col.y + dy, z));
        assert(old.columns@.contains_key(k));
        assert(new.columns@.contains_key(k));
        assert(new.columns@[k].chunks[z].blocks.len() > 0);
    }
}

impl ChunkBuffer {
    /// Whether all 64 chunks of the nine columns around `col` are loaded and initialized.
    pub fn is_area_loaded(&self, col: ChunkColumnPos) -> (r: bool)
        requires
            col_fits(col),
        ensures
            r == area_loaded(*self, col),
    {
        let mut dx: i16 = -1;
        while dx < 2
            invariant
                -1 <= dx <= 2,
                col_fits(col),
                forall|a: int, b: int, z: int|
                    -1 <= a < dx && -1 <= b <= 1 && 0 <= z < 64 ==> #[trigger] chunk_ready(*self, col.x + a, col.y + b, z),
            decreases 2 - dx,
        {
            let mut dy: i16 = -1;
            while dy < 2
                invariant
                    -1 <= dx <= 1,
                    -1 <= dy <= 2,
                    col_fits(col),
                    forall|a: int, b: int, z: int|
                        (-1 <= a < dx && -1 <= b <= 1 || a == dx && -1 <= b < dy) && 0 <= z < 64
                            ==> #[trigger] chunk_ready(*self, col.x + a, col.y + b, z),
                decreases 2 - dy,
            {
                let mut z: i16 = 0;
                while z < 64
                    invariant
                        -1 <= dx <= 1,
                        -1 <= dy <= 1,
                        0 <= z <= 64,
                        col_fits(col),
                        forall|a: int, b: int, c: int|
                            (-1 <= a < dx && -1 <= b <= 1 || a == dx && -1 <= b < dy || a == dx && b == dy && c < z)
                                && 0 <= c < 64 ==> #[trigger] chunk_ready(*self, col.x + a, col.y + b, c),
                    decreases 64 - z,
                {
                    match self.get_chunk(col.x + dx, col.y + dy, z) {
                        Some(chunk) => {
                            if !chunk.is_initialized() {
                                assert(!(chunk_ready(*self, col.x + dx, col.y + dy, z as int)));
                                return false;
                            }
                        },
                        None => {
                            assert(!(chunk_ready(*self, col.x + dx, col.y + dy, z as int)));
                            return false;
                        },
                    }
                    z = z + 1;
                }
                dy = dy + 1;
            }
            dx = dx + 1;
        }
        true
    }
}

impl ChunkBuffer {
    /// Whether every block stored in the 64 chunks of column `col`, whose area is loaded, is
    /// of a kind that the registry defines.
    pub fn are_kinds_known(&self, col: ChunkColumnPos, block_registry: &BlockRegistry) -> (r: bool)
        requires
            col_fits(col),
            area_loaded(*self, col),
        ensures
            r == blocks_known(*self, col, block_registry.spec_blocks()),
    {
        let count = block_registry.all_blocks().len();
        let mut z: i16 = 0;
        while z < 64
            invariant
                0 <= z <= 64,
                col_fits(col),
                area_loaded(*self, col),
                count == block_registry.spec_blocks().len(),
                forall|zz: int, i: int|
                    0 <= zz < z && 0 <= i < self.chunk_at(col.x, col.y, zz as i16)->0.blocks.len() ==> spec_kind(
                        #[trigger] self.chunk_at(col.x, col.y, zz as i16)->0.blocks[i],
                    ) < count,
            decreases 64 - z,
        {
            assert(chunk_ready(*self, col.x + 0, col.y + 0, z as int));
            let chunk = self.get_chunk(col.x, col.y, z).unwrap();
            let mut i: usize = 0;
            while i < chunk.blocks.len()
                invariant
                    0 <= z < 64,
                    i <= chunk.blocks.len(),
                    self.chunk_at(col.x, col.y, z) == Some(*chunk),
                    count == block_registry.spec_blocks().len(),
                    forall|j: int| 0 <= j < i ==> spec_kind(#[trigger] chunk.blocks[j]) < count,
                decreases chunk.blocks.len() - i,
            {
                if chunk.blocks[i].kind() as usize >= count {
                    assert(spec_kind(self.chunk_at(col.x, col.y, z as int as i16)->0.blocks[i as int]) >= count);
                    return false;
                }
                i += 1;
            }
            z += 1;
        }
        true
    }

    /// Light a newly stored column, chunk by chunk from the bottom up, each as a newly
    /// generated chunk is lit. Nothing happens, and the result is false, unless the column
    /// lies inside the world away from its edge, the 64 chunks of the nine columns around it
    /// are loaded and initialized, and its blocks are of kinds the registry defines.
    pub fn propagate_column_lights(&mut self, col: ChunkColumnPos, block_registry: &BlockRegistry) -> (r: bool)
        requires
            old(self).wf(),
        ensures
            final(self).wf(),
            r == (col_fits(col) && area_loaded(*old(self), col) && blocks_known(
                *old(self),
                col,
                block_registry.spec_blocks(),
            )),
            final(self).same_shape(*old(self)),
            !r ==> final(self).columns@ == old(self).columns@,
            r ==> column_lit(*final(self), *old(self), col, block_registry.spec_blocks(), 64),
    {
        let ghost reg = block_registry.spec_blocks();
        assert(self.same_shape(*self));
        if !(-2047 <= col.x && col.x <= 2046 && -2047 <= col.y && col.y <= 2046) {
            return false;
        }
        if !self.is_area_loaded(col) {
            return false;
        }
        if !self.are_kinds_known(col, block_registry) {
            return false;
        }
        let ghost old_self = *self;
        proof {
            assert forall|x: i16, y: i16, z: i16| in_column((x, y, z), col) implies spec_kind(
                #[trigger] old_self.block_at(x, y, z),
            ) < reg.len() by {
                crate::chunk::lemma_shr4(z);
                let cz = spec_chunk_of(x, y, z).z;
                assert(chunk_ready(old_self, col.x + 0, col.y + 0, cz as int));
                old_self.lemma_chunk_at_wf(col.x, col.y, cz);
                crate::chunk::lemma_shr4(x);
                crate::chunk::lemma_shr4(y);
                let c = old_self.chunk_at(col.x, col.y, cz)->0;
                if c.blocks.len() != 1 {
                    assert(0 <= crate::chunk::chunk::spec_index(x as int % 16, y as int % 16, z as int % 16) < 4096);
                }
            }
            assert(column_lit(*self, old_self, col, reg, 0)) by {
                let st = seq![old_self];
                assert(st.len() == 0 + 1 && st[0] == old_self);
            }
        }
        let ghost mut states: Seq<ChunkBuffer> = seq![old_self];
        let mut z: i16 = 0;
        while z < 64
            invariant
                0 <= z <= 64,
                self.wf(),
                col_fits(col),
                area_loaded(*self, col),
                kinds_known(*self, col, reg),
                reg == block_registry.spec_blocks(),
                states.len() == z + 1,
                states[0] == old_self,
                states[z as int] == *self,
                forall|i: int| 0 <= i < z ==> #[trigger] lit_step(states, i, col, reg),
                self.same_shape(old_self),
            decreases 64 - z,
        {
            let cp = ChunkPos::new(col.x, col.y, z);
            let mut dirty = ChunkPosSet::new();
            let ghost cur = *self;
            proof {
                assert(chunk_ready(cur, col.x + 0, col.y + 0, z as int));
                assert forall|k: int| 0 <= k < 4096 implies {
                    let p = #[trigger] chunk_block(cp, k);
                    &&& spec_kind(cur.block_at(p.0, p.1, p.2)) < reg.len()
                    &&& loaded_around(cur, p, 16)
                } by {
                    lemma_chunk_block(cp, k);
                    let p = chunk_block(cp, k);
                    assert(in_column(p, col));
                    lemma_area_loaded_around(cur, col, p);
                }
            }
            self.propagate_chunk_light_and_sunlight(cp, &mut dirty, block_registry);
            proof {
                if cur.chunk_at(cp.x, cp.y, cp.z)->0.blocks.len() > 1 {
                    let (m1, m2, d2, d3) = choose|m1: ChunkBuffer, m2: ChunkBuffer, d2: Set<ChunkPos>, d3: Set<ChunkPos>|
                        {
                            &&& chunk_seeded(m1, cur, cp, reg, 4096)
                            &&& #[trigger] propagated(m2, m1, false, chunk_lights(cur, cp, reg, 4096), Set::empty(), d2)
                            &&& #[trigger] propagated(*self, m2, true, chunk_sunlit(cur, cp, reg, 4096), d2, d3)
                        };
                    lemma_area_kept(m1, cur, col);
                    lemma_area_kept(m2, m1, col);
                    lemma_area_kept(*self, m2, col);
                    lemma_seeded_kinds(m1, cur, cp, reg, col);
                    lemma_light_only_kinds(m2, m1, col, reg, false);
                    lemma_light_only_kinds(*self, m2, col, reg, true);
                    assert(chunk_lit(*self, cur, cp, reg));
                    ChunkBuffer::lemma_same_shape_trans(cur, m1, m2);
                    ChunkBuffer::lemma_same_shape_trans(cur, m2, *self);
                    ChunkBuffer::lemma_same_shape_trans(old_self, cur, *self);
                } else {
                    assert(chunk_lit(*self, cur, cp, reg));
                    assert forall|dx: int, dy: int, zz: int|
                        -1 <= dx <= 1 && -1 <= dy <= 1 && 0 <= zz < 64 implies #[trigger] chunk_ready(
                        *self,
                        col.x + dx,
                        col.y + dy,
                        zz,
                    ) by {
                        assert(chunk_ready(cur, col.x + dx, col.y + dy, zz));
                    }
                    assert forall|x: i16, y: i16, zz: i16| in_column((x, y, zz), col) implies spec_kind(
                        #[trigger] self.block_at(x, y, zz),
                    ) < reg.len() by {
                        assert(cur.block_at(x, y, zz) == self.block_at(x, y, zz));
                    }
                    assert(self.same_shape(old_self));
                }
                assert(cp == ChunkPos { x: col.x, y: col.y, z: ((z + 1) - 1) as i16 });
                let ns = states.push(*self);
                assert forall|i: int| 0 <= i < z + 1 implies #[trigger] lit_step(ns, i, col, reg) by {
                    assert(ns[i] == states[i]);
                    if i < z {
                        assert(ns[i + 1] == states[i + 1]);
                        assert(lit_step(states, i, col, reg));
                    }
                }
                states = ns;
            }
            z += 1;
        }
        assert(column_lit(*self, old_self, col, reg, 64));
        true
    }
}

} // verus!
