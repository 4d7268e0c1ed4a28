//! Sunlight falling into a newly loaded column of chunks, from the top of the world down.
//!
//! Each of the 16x16 vertical lines of the column carries a sunlight level, 15 at the top.
//! Going down layer by layer, a transparent block under a lit line takes its level, and
//! water halves the level below it; anything else darkens the line. A solid transparent
//! chunk is lit whole and leaves the levels alone. The fall stops at a solid opaque chunk
//! or at a layer where no line is lit.

use super::light::MAX_LIGHT_LEVEL;
use crate::block::{
    spec_kind, spec_transparent, spec_with_sunlight, Block, BlockTrait, LightBlock,
    WATER_BLOCK_KIND,
};
use crate::chunk::chunk::{spec_index, Chunk};
use crate::chunk::chunk_buffer::{spec_column_key, ChunkBuffer};
use crate::chunk::chunkcolumn::ChunkColumnPos;
use vstd::prelude::*;

verus! {

/// The block of line `i` (x is `i / 16`, y is `i % 16`) at local height `z` of a normal chunk.
pub open spec fn line_block(bs: Seq<Block>, i: int, z: int) -> Block {
    bs[spec_index(i / 16, i % 16, z)]
}

/// Whether line `i`, lit at `m[i]`, lights its block at local height `z`.
pub open spec fn lights_block(bs: Seq<Block>, m: Seq<u8>, i: int, z: int) -> bool {
    m[i] >= 1 && spec_transparent(line_block(bs, i, z))
}

/// The sunlight levels of the lines below local height `z` of a normal chunk.
pub open spec fn layer_step(bs: Seq<Block>, m: Seq<u8>, z: int) -> Seq<u8> {
    Seq::new(
        256,
        |i: int|
            if lights_block(bs, m, i, z) {
                if spec_kind(line_block(bs, i, z)) == WATER_BLOCK_KIND {
                    (m[i] / 2) as u8
                } else {
                    m[i]
                }
            } else {
                0u8
            },
    )
}

/// No line lights its block at local height `z`.
pub open spec fn layer_dark(bs: Seq<Block>, m: Seq<u8>, z: int) -> bool {
    forall|i: int| 0 <= i < 256 ==> !#[trigger] lights_block(bs, m, i, z)
}

/// Full sunlight on every line.
pub open spec fn full_sun() -> Seq<u8> {
    Seq::new(256, |_i: int| 15u8)
}

/// Before world layer `l` of the column whose chunks hold `cs`: whether the fall has
/// stopped, and the sunlight level of each line.
pub open spec fn sun_state(cs: Seq<Seq<Block>>, l: int) -> (bool, Seq<u8>)
    decreases 1023 - l,
{
    if l >= 1023 {
        (false, full_sun())
    } else {
        let (st, m) = sun_state(cs, l + 1);
        let p = l + 1;
        let bs = cs[p / 16];
        if st {
            (true, m)
        } else if bs.len() == 1 {
            (!spec_transparent(bs[0]), m)
        } else {
            (layer_dark(bs, m, p % 16), layer_step(bs, m, p % 16))
        }
    }
}

/// A block of line `i` as the fall leaves it, given the state before its layer.
pub open spec fn sunlit_block(b: Block, st: bool, m: Seq<u8>, i: int) -> Block {
    if !st && m[i] >= 1 && spec_transparent(b) {
        spec_with_sunlight(b, m[i])
    } else {
        b
    }
}

/// Chunk `c` of the column as the fall leaves it: a solid transparent chunk reached by the
/// fall is in full sunlight, and each block of a normal chunk is lit by its line.
pub open spec fn chunk_sunlit(nbs: Seq<Block>, cs: Seq<Seq<Block>>, c: int) -> bool {
    let bs = cs[c];
    if bs.len() == 1 {
        nbs == if !sun_state(cs, 16 * c + 15).0 && spec_transparent(bs[0]) {
            seq![spec_with_sunlight(bs[0], 15)]
        } else {
            bs
        }
    } else {
        &&& nbs.len() == bs.len()
        &&& forall|x: int, y: int, z: int|
            0 <= x < 16 && 0 <= y < 16 && 0 <= z < 16 ==> #[trigger] nbs[spec_index(x, y, z)]
                == sunlit_block(
                bs[spec_index(x, y, z)],
                sun_state(cs, 16 * c + z).0,
                sun_state(cs, 16 * c + z).1,
                x * 16 + y,
            )
    }
}

/// Once the fall has stopped it stays stopped, with the levels it had.
proof fn lemma_stopped(cs: Seq<Seq<Block>>, l: int, k: int)
    requires
        k <= l <= 1023,
        sun_state(cs, l).0,
    ensures
        sun_state(cs, k) == sun_state(cs, l),
    decreases l - k,
{
    if k < l {
        lemma_stopped(cs, l, k + 1);
    }
}

/// The blocks of a column's chunks, chunk by chunk.
pub open spec fn column_blocks(buf: ChunkBuffer, col: ChunkColumnPos) -> Seq<Seq<Block>> {
    buf.column_at(col.x, col.y)->0.chunks@.map_values(|c: Chunk| c.blocks@)
}

/// Light the local layers from `15` down of a normal chunk that is chunk `c` of the column
/// whose chunks hold `cs`, with the line levels `map` the fall brings to its top. Returns
/// whether the fall goes on below the chunk; then `map` holds the levels below it.
fn light_chunk_layers(chunk: &mut Chunk, map: &mut Vec<u8>, Ghost(cs): Ghost<Seq<Seq<Block>>>, Ghost(c): Ghost<int>) -> (lit: bool)
    requires
        0 <= c < 64,
        cs.len() == 64,
        old(chunk).blocks@ == cs[c],
        old(chunk).blocks.len() == 4096,
        !sun_state(cs, 16 * c + 15).0,
        old(map)@ == sun_state(cs, 16 * c + 15).1,
        old(map)@.len() == 256,
    ensures
        final(chunk).pos == old(chunk).pos,
        chunk_sunlit(final(chunk).blocks@, cs, c),
        lit == !sun_state(cs, 16 * c - 1).0,
        lit ==> final(map)@ == sun_state(cs, 16 * c - 1).1,
{
    let ghost bs = cs[c];
    let mut z: usize = 16;
    while z > 0
        invariant
            0 <= c < 64,
            cs.len() == 64,
            bs == cs[c],
            bs.len() == 4096,
            chunk.pos == old(chunk).pos,
            z <= 16,
            chunk.blocks.len() == 4096,
            !sun_state(cs, 16 * c + z - 1).0,
            map@ == sun_state(cs, 16 * c + z - 1).1,
            map@.len() == 256,
            forall|x: int, y: int, zz: int|
                0 <= x < 16 && 0 <= y < 16 && 0 <= zz < 16 ==> #[trigger] chunk.blocks@[spec_index(x, y, zz)]
                    == if zz >= z {
                    sunlit_block(bs[spec_index(x, y, zz)], sun_state(cs, 16 * c + zz).0, sun_state(cs, 16 * c + zz).1, x * 16 + y)
                } else {
                    bs[spec_index(x, y, zz)]
                },
        decreases z,
    {
        z = z - 1;
        let ghost l = 16 * c + z;
        let ghost m = map@;
        proof {
            assert(sun_state(cs, l) == (false, m));
            assert((l + 1) / 16 == c && (l + 1) % 16 == z + 1 || z == 15);
        }
        let mut has_light = false;
        let mut x: usize = 0;
        while x < 16
            invariant
                0 <= c < 64,
                cs.len() == 64,
                bs == cs[c],
                bs.len() == 4096,
                chunk.pos == old(chunk).pos,
                z < 16,
                l == 16 * c + z,
                m == sun_state(cs, l).1,
                !sun_state(cs, l).0,
                m.len() == 256,
                x <= 16,
                chunk.blocks.len() == 4096,
                map@.len() == 256,
                forall|i: int| 0 <= i < 256 ==> #[trigger] map@[i] == if i < 16 * x { layer_step(bs, m, z as int)[i] } else { m[i] },
                has_light == exists|i: int| 0 <= i < 16 * x && #[trigger] lights_block(bs, m, i, z as int),
                forall|xx: int, y: int, zz: int|
                    0 <= xx < 16 && 0 <= y < 16 && 0 <= zz < 16 ==> #[trigger] chunk.blocks@[spec_index(xx, y, zz)]
                        == if zz > z || (zz == z && xx < x) {
                        sunlit_block(bs[spec_index(xx, y, zz)], sun_state(cs, 16 * c + zz).0, sun_state(cs, 16 * c + zz).1, xx * 16 + y)
                    } else {
                        bs[spec_index(xx, y, zz)]
                    },
            decreases 16 - x,
        {
            let mut y: usize = 0;
            while y < 16
                invariant
                    0 <= c < 64,
                    cs.len() == 64,
                    bs == cs[c],
                    bs.len() == 4096,
                    chunk.pos == old(chunk).pos,
                    z < 16,
                    l == 16 * c + z,
                    m == sun_state(cs, l).1,
                    !sun_state(cs, l).0,
                    m.len() == 256,
                    x < 16,
                    y <= 16,
                    chunk.blocks.len() == 4096,
                    map@.len() == 256,
                    forall|i: int| 0 <= i < 256 ==> #[trigger] map@[i] == if i < 16 * x + y { layer_step(bs, m, z as int)[i] } else { m[i] },
                    has_light == exists|i: int| 0 <= i < 16 * x + y && #[trigger] lights_block(bs, m, i, z as int),
                    forall|xx: int, yy: int, zz: int|
                        0 <= xx < 16 && 0 <= yy < 16 && 0 <= zz < 16 ==> #[trigger] chunk.blocks@[spec_index(xx, yy, zz)]
                            == if zz > z || (zz == z && (xx < x || (xx == x && yy < y))) {
                            sunlit_block(bs[spec_index(xx, yy, zz)], sun_state(cs, 16 * c + zz).0, sun_state(cs, 16 * c + zz).1, xx * 16 + yy)
                        } else {
                            bs[spec_index(xx, yy, zz)]
                        },
                decreases 16 - y,
            {
                let ghost i = 16 * x + y;
                proof {
                    crate::chunk::chunk::lemma_raw_index(x, y, z);
                }
                let mut block = chunk.get_block(x, y, z);
                proof {
                    assert(block == bs[spec_index(x as int, y as int, z as int)]);
                    assert(i / 16 == x && i % 16 == y);
                    assert(line_block(bs, i, z as int) == block);
                }
                let light_above = map[x * 16 + y];
                if light_above >= 1 && block.is_transparent() {
                    block.set_sunlight(light_above);
                    chunk.set_block_unchecked(x, y, z, block);
                    has_light = true;
                    if block.kind() == Block::water_block() {
                        map.set(x * 16 + y, light_above / 2);
                    }
                } else {
                    map.set(x * 16 + y, 0);
                }
                proof {
                    assert(lights_block(bs, m, i, z as int) == (light_above >= 1 && spec_transparent(line_block(bs, i, z as int))));
                    assert forall|j: int| 0 <= j < 256 implies #[trigger] map@[j] == if j < 16 * x + y + 1 { layer_step(bs, m, z as int)[j] } else { m[j] } by {}
                    assert forall|xx: int, yy: int, zz: int|
                        0 <= xx < 16 && 0 <= yy < 16 && 0 <= zz < 16 implies #[trigger] chunk.blocks@[spec_index(xx, yy, zz)]
                            == if zz > z || (zz == z && (xx < x || (xx == x && yy < y + 1))) {
                            sunlit_block(bs[spec_index(xx, yy, zz)], sun_state(cs, 16 * c + zz).0, sun_state(cs, 16 * c + zz).1, xx * 16 + yy)
                        } else {
                            bs[spec_index(xx, yy, zz)]
                        } by {
                        if spec_index(xx, yy, zz) == spec_index(x as int, y as int, z as int) {
                            crate::chunk::chunk::lemma_index_injective(xx, yy, zz, x as int, y as int, z as int);
                        }
                    }
                    if has_light {
                        assert(exists|j: int| 0 <= j < 16 * x + y + 1 && #[trigger] lights_block(bs, m, j, z as int)) by {
                            if !lights_block(bs, m, i, z as int) {
                                let j = choose|j: int| 0 <= j < 16 * x + y && #[trigger] lights_block(bs, m, j, z as int);
                                assert(0 <= j < 16 * x + y + 1);
                            }
                        }
                    }
                }
                y += 1;
            }
            x += 1;
        }
        proof {
            let p = l;
            assert(sun_state(cs, l - 1) == (layer_dark(bs, m, z as int), layer_step(bs, m, z as int))) by {
                assert(p / 16 == c && p % 16 == z);
            }
            assert(map@ =~= layer_step(bs, m, z as int));
            if !has_light {
                assert(layer_dark(bs, m, z as int));
            } else {
                let j = choose|j: int| 0 <= j < 256 && #[trigger] lights_block(bs, m, j, z as int);
                assert(!layer_dark(bs, m, z as int));
            }
        }
        if !has_light {
            // No sunlight passes through here, so no point in propagating
            proof {
                assert forall|xx: int, yy: int, zz: int|
                    0 <= xx < 16 && 0 <= yy < 16 && 0 <= zz < 16 implies #[trigger] chunk.blocks@[spec_index(xx, yy, zz)]
                        == sunlit_block(bs[spec_index(xx, yy, zz)], sun_state(cs, 16 * c + zz).0, sun_state(cs, 16 * c + zz).1, xx * 16 + yy) by {
                    if zz < z {
                        lemma_stopped(cs, l - 1, 16 * c + zz);
                    }
                }
                lemma_stopped(cs, l - 1, 16 * c - 1);
            }
            return false;
        }
    }
    true
}

/// A solid transparent chunk that the fall reaches passes it on unchanged.
proof fn lemma_solid_pass(cs: Seq<Seq<Block>>, c: int, z: int)
    requires
        0 <= c < 64,
        cs.len() == 64,
        cs[c].len() == 1,
        spec_transparent(cs[c][0]),
        !sun_state(cs, 16 * c + 15).0,
        -1 <= z <= 15,
    ensures
        sun_state(cs, 16 * c + z) == sun_state(cs, 16 * c + 15),
    decreases 15 - z,
{
    if z < 15 {
        lemma_solid_pass(cs, c, z + 1);
        assert((16 * c + z + 1) / 16 == c);
    }
}

/// A chunk below where the fall stopped is left as it was.
proof fn lemma_below_stop(cs: Seq<Seq<Block>>, c: int, l: int)
    requires
        0 <= c < 64,
        cs.len() == 64,
        16 * c + 15 <= l <= 1023,
        sun_state(cs, l).0,
        cs[c].len() == 1 || cs[c].len() == 4096,
    ensures
        chunk_sunlit(cs[c], cs, c),
{
    lemma_stopped(cs, l, 16 * c + 15);
    assert forall|x: int, y: int, z: int|
        0 <= x < 16 && 0 <= y < 16 && 0 <= z < 16 implies #[trigger] cs[c][spec_index(x, y, z)] == sunlit_block(
            cs[c][spec_index(x, y, z)],
            sun_state(cs, 16 * c + z).0,
            sun_state(cs, 16 * c + z).1,
            x * 16 + y,
        ) by {
        lemma_stopped(cs, l, 16 * c + z);
    }
}

/// The chunk blocks of a column after one of its chunks is replaced.
proof fn lemma_replaced_column(new: ChunkBuffer, old: ChunkBuffer, col: ChunkColumnPos, cz: int, c: Chunk)
    requires
        new.replaces_chunk(old, col.x, col.y, cz as i16, c),
        0 <= cz < 64,
    ensures
        new.column_at(col.x, col.y) is Some,
        column_blocks(new, col) == column_blocks(old, col).update(cz, c.blocks@),
{
    assert(column_blocks(new, col) =~= column_blocks(old, col).update(cz, c.blocks@));
}

impl ChunkBuffer {
    /// Let sunlight fall into the column `col` from the top of the world down, as the fall
    /// is described above.
    pub fn propagate_column_sunlight(&mut self, col: ChunkColumnPos)
        requires
            old(self).wf(),
            old(self).column_at(col.x, col.y) is Some,
            old(self).column_at(col.x, col.y)->0.chunks.len() == 64,
            forall|c: int| 0 <= c < 64 ==> (#[trigger] old(self).column_at(col.x, col.y)->0.chunks[c]).blocks.len() > 0,
        ensures
            final(self).wf(),
            final(self).same_shape(*old(self)),
            forall|k: u32| #[trigger] old(self).columns@.contains_key(k) && k != spec_column_key(col.x, col.y) ==> final(self).columns@[k] == old(self).columns@[k],
            forall|c: int| 0 <= c < 64 ==> chunk_sunlit(#[trigger] column_blocks(*final(self), col)[c], column_blocks(*old(self), col), c),
    {
        let ghost old_self = *self;
        let ghost cs = column_blocks(old_self, col);
        let mut sunlight_map: Vec<u8> = Vec::new();
        let mut n: usize = 0;
        while n < 256
            invariant
                n <= 256,
                sunlight_map@ == full_sun().take(n as int),
            decreases 256 - n,
        {
            sunlight_map.push(MAX_LIGHT_LEVEL);
            n += 1;
            proof {
                assert(sunlight_map@ =~= full_sun().take(n as int));
            }
        }
        proof {
            assert(sunlight_map@ =~= full_sun());
            assert(sun_state(cs, 1023) == (false, full_sun()));
        }
        let mut lcz: usize = 64;
        while lcz > 0
            invariant
                lcz <= 64,
                old_self == *old(self),
                self.wf(),
                self.same_shape(old_self),
                old_self.wf(),
                cs == column_blocks(old_self, col),
                cs.len() == 64,
                old_self.column_at(col.x, col.y) is Some,
                forall|c: int| 0 <= c < 64 ==> (#[trigger] old_self.column_at(col.x, col.y)->0.chunks[c]).blocks.len() > 0,
                forall|k: u32| #[trigger] old_self.columns@.contains_key(k) && k != spec_column_key(col.x, col.y) ==> self.columns@[k] == old_self.columns@[k],
                self.column_at(col.x, col.y) is Some,
                column_blocks(*self, col).len() == 64,
                forall|c: int| 0 <= c < lcz ==> #[trigger] column_blocks(*self, col)[c] == cs[c],
                forall|c: int| lcz <= c < 64 ==> chunk_sunlit(#[trigger] column_blocks(*self, col)[c], cs, c),
                !sun_state(cs, 16 * lcz - 1).0,
                sunlight_map@ == sun_state(cs, 16 * lcz - 1).1,
                sunlight_map@.len() == 256,
            decreases lcz,
        {
            lcz = lcz - 1;
            let ghost cur = *self;
            let ghost cz = lcz as int;
            let chunk = self.get_chunk(col.x, col.y, lcz as i16).unwrap();
            proof {
                cur.lemma_chunk_at_wf(col.x, col.y, lcz as i16);
                assert(column_blocks(cur, col)[cz] == cs[cz]);
                assert(chunk.blocks@ == cs[cz]);
                assert(old_self.column_at(col.x, col.y)->0.chunks[cz].blocks.len() > 0);
                assert(cs[cz].len() > 0);
                assert(16 * (cz + 1) - 1 == 16 * cz + 15);
            }
            let ghost mut newc: Option<Chunk> = None;
            if chunk.is_solid() {
                let mut block = chunk.get_block(0, 0, 0);
                if block.is_opaque() {
                    // Completely solid chunk, we are done propagating
                    proof {
                        assert(sun_state(cs, 16 * cz + 14).0) by {
                            assert((16 * cz + 15) / 16 == cz);
                        }
                        assert forall|c: int| 0 <= c < 64 implies chunk_sunlit(#[trigger] column_blocks(*self, col)[c], cs, c) by {
                            if c < cz {
                                lemma_below_stop(cs, c, 16 * cz + 14);
                            } else if c == cz {
                                assert(column_blocks(*self, col)[c] == cs[c]);
                            }
                        }
                    }
                    return;
                }
                // Entire chunk is lit
                block.set_sunlight(MAX_LIGHT_LEVEL);
                proof {
                    crate::chunk::chunk::lemma_raw_index(0, 0, 0);
                }
                if let Some(c) = self.get_mut_chunk(col.x, col.y, lcz as i16) {
                    c.set_block_unchecked(0, 0, 0, block);
                    proof {
                        newc = Some(*c);
                    }
                }
                proof {
                    let nc = newc->0;
                    assert(nc.blocks@ =~= seq![spec_with_sunlight(cs[cz][0], 15)]);
                    ChunkBuffer::lemma_replace_chunk(*self, cur, crate::chunk::ChunkPos { x: col.x, y: col.y, z: lcz as i16 }, nc);
                    lemma_replaced_column(*self, cur, col, cz, nc);
                    lemma_solid_pass(cs, cz, -1);
                    assert(chunk_sunlit(nc.blocks@, cs, cz));
                }
            } else {
                let mut local = chunk.clone();
                let lit = light_chunk_layers(&mut local, &mut sunlight_map, Ghost(cs), Ghost(lcz as int));
                if let Some(c) = self.get_mut_chunk(col.x, col.y, lcz as i16) {
                    *c = local;
                    proof {
                        newc = Some(*c);
                    }
                }
                proof {
                    let nc = newc->0;
                    ChunkBuffer::lemma_replace_chunk(*self, cur, crate::chunk::ChunkPos { x: col.x, y: col.y, z: lcz as i16 }, nc);
                    lemma_replaced_column(*self, cur, col, cz, nc);
                }
                if !lit {
                    // No sunlight passes through here, so no point in propagating
                    proof {
                        assert forall|c: int| 0 <= c < 64 implies chunk_sunlit(#[trigger] column_blocks(*self, col)[c], cs, c) by {
                            if c < cz {
                                lemma_below_stop(cs, c, 16 * cz - 1);
                            }
                        }
                    }
                    return;
                }
            }
            proof {
                assert(self.same_shape(old_self));
                assert forall|k: u32| #[trigger] old_self.columns@.contains_key(k) && k != spec_column_key(col.x, col.y) implies self.columns@[k] == old_self.columns@[k] by {
                    assert(cur.columns@.contains_key(k));
                }
            }
        }
    }
}

} // verus!
