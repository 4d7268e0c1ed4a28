use super::{lemma_shr4, lemma_shr9, spec_chunk_coord, REGION_SIZE_BLOCKS};
use vstd::prelude::*;

verus! {

/// The position of a chunk, in chunks.
#[derive(PartialEq, Eq, Structural, Hash, Debug, Copy, Clone)]
pub struct ChunkPos {
    pub x: i16,
    pub y: i16,
    pub z: i16,
}

/// The chunk that holds world block (x, y, z).
pub open spec fn spec_chunk_of(x: i16, y: i16, z: i16) -> ChunkPos {
    ChunkPos {
        x: spec_chunk_coord(x as int) as i16,
        y: spec_chunk_coord(y as int) as i16,
        z: spec_chunk_coord(z as int) as i16,
    }
}

/// Squared distance between the points (ax, ay, az) and (bx, by, bz).
pub open spec fn spec_dist_squared(ax: int, ay: int, az: int, bx: int, by: int, bz: int) -> int {
    (bx - ax) * (bx - ax) + (by - ay) * (by - ay) + (bz - az) * (bz - az)
}

/// The three coordinate differences and their squared sum all fit in an `i16`.
pub open spec fn dist_fits_i16(ax: int, ay: int, az: int, bx: int, by: int, bz: int) -> bool {
    &&& i16::MIN <= bx - ax <= i16::MAX
    &&& i16::MIN <= by - ay <= i16::MAX
    &&& i16::MIN <= bz - az <= i16::MAX
    &&& (bx - ax) * (bx - ax) <= i16::MAX
    &&& (by - ay) * (by - ay) <= i16::MAX
    &&& (bz - az) * (bz - az) <= i16::MAX
    &&& spec_dist_squared(ax, ay, az, bx, by, bz) <= i16::MAX
}

/// A square is never negative.
pub proof fn lemma_square_nonneg(d: int)
    ensures
        d * d >= 0,
{
    assert(d * d >= 0) by (nonlinear_arith);
}

impl ChunkPos {
    pub fn zero() -> (r: ChunkPos)
        ensures
            r == (ChunkPos { x: 0, y: 0, z: 0 }),
    {
        ChunkPos { x: 0, y: 0, z: 0 }
    }

    pub fn new(x: i16, y: i16, z: i16) -> (r: ChunkPos)
        ensures
            r == (ChunkPos { x, y, z }),
    {
        ChunkPos { x, y, z }
    }

    /// The chunk that holds world block (wbx, wby, wbz).
    pub fn from_world_block_coords(wbx: i16, wby: i16, wbz: i16) -> (r: ChunkPos)
        ensures
            r == spec_chunk_of(wbx, wby, wbz),
            -2048 <= r.x <= 2047,
            -2048 <= r.y <= 2047,
            -2048 <= r.z <= 2047,
    {
        proof {
            lemma_shr4(wbx);
            lemma_shr4(wby);
            lemma_shr4(wbz);
        }
        ChunkPos { x: wbx >> 4, y: wby >> 4, z: wbz >> 4 }
    }

    pub fn dist_squared_from(&self, other: &ChunkPos) -> (r: i16)
        requires
            dist_fits_i16(
                self.x as int,
                self.y as int,
                self.z as int,
                other.x as int,
                other.y as int,
                other.z as int,
            ),
        ensures
            r == spec_dist_squared(
                self.x as int,
                self.y as int,
                self.z as int,
                other.x as int,
                other.y as int,
                other.z as int,
            ),
    {
        let dx = other.x - self.x;
        let dy = other.y - self.y;
        let dz = other.z - self.z;
        proof {
            lemma_square_nonneg(dx as int);
            lemma_square_nonneg(dy as int);
            lemma_square_nonneg(dz as int);
        }
        dx * dx + dy * dy + dz * dz
    }

    pub fn xp(&self) -> (r: ChunkPos)
        requires
            self.x < i16::MAX,
        ensures
            r == (ChunkPos { x: (self.x + 1) as i16, ..*self }),
    {
        ChunkPos { x: self.x + 1, y: self.y, z: self.z }
    }

    pub fn xm(&self) -> (r: ChunkPos)
        requires
            self.x > i16::MIN,
        ensures
            r == (ChunkPos { x: (self.x - 1) as i16, ..*self }),
    {
        ChunkPos { x: self.x - 1, y: self.y, z: self.z }
    }

    pub fn yp(&self) -> (r: ChunkPos)
        requires
            self.y < i16::MAX,
        ensures
            r == (ChunkPos { y: (self.y + 1) as i16, ..*self }),
    {
        ChunkPos { x: self.x, y: self.y + 1, z: self.z }
    }

    pub fn ym(&self) -> (r: ChunkPos)
        requires
            self.y > i16::MIN,
        ensures
            r == (ChunkPos { y: (self.y - 1) as i16, ..*self }),
    {
        ChunkPos { x: self.x, y: self.y - 1, z: self.z }
    }

    pub fn zp(&self) -> (r: ChunkPos)
        requires
            self.z < i16::MAX,
        ensures
            r == (ChunkPos { z: (self.z + 1) as i16, ..*self }),
    {
        ChunkPos { x: self.x, y: self.y, z: self.z + 1 }
    }

    pub fn zm(&self) -> (r: ChunkPos)
        requires
            self.z > i16::MIN,
        ensures
            r == (ChunkPos { z: (self.z - 1) as i16, ..*self }),
    {
        ChunkPos { x: self.x, y: self.y, z: self.z - 1 }
    }
}

/// The position of a square region of 512 by 512 blocks, in regions.
#[derive(PartialEq, Eq, Structural, Hash, Debug, Copy, Clone)]
pub struct ChunkRegionPos {
    pub x: i16,
    pub y: i16,
}

impl ChunkRegionPos {
    pub fn new(x: i16, y: i16) -> (r: Self)
        ensures
            r == (ChunkRegionPos { x, y }),
    {
        ChunkRegionPos { x, y }
    }

    /// The region that holds world block column (wx, wy).
    pub fn from_world_pos(wx: i16, wy: i16) -> (r: Self)
        ensures
            r.x == (wx as int) / (REGION_SIZE_BLOCKS as int),
            r.y == (wy as int) / (REGION_SIZE_BLOCKS as int),
    {
        proof {
            lemma_shr9(wx);
            lemma_shr9(wy);
        }
        ChunkRegionPos { x: wx >> 9, y: wy >> 9 }
    }

    pub fn world_x(&self) -> (r: i16)
        requires
            i16::MIN <= self.x * REGION_SIZE_BLOCKS <= i16::MAX,
        ensures
            r == self.x * REGION_SIZE_BLOCKS,
    {
        self.x * REGION_SIZE_BLOCKS
    }

    pub fn world_y(&self) -> (r: i16)
        requires
            i16::MIN <= self.y * REGION_SIZE_BLOCKS <= i16::MAX,
        ensures
            r == self.y * REGION_SIZE_BLOCKS,
    {
        self.y * REGION_SIZE_BLOCKS
    }

    /// Whether world block column (wx, wy) lies in this region.
    pub fn contains_world_pos(&self, wx: i16, wy: i16) -> (r: bool)
        ensures
            r == (self.x == (wx as int) / (REGION_SIZE_BLOCKS as int) && self.y == (wy as int) / (
            REGION_SIZE_BLOCKS as int)),
            r == (self.x * REGION_SIZE_BLOCKS <= wx < self.x * REGION_SIZE_BLOCKS
                + REGION_SIZE_BLOCKS && self.y * REGION_SIZE_BLOCKS <= wy < self.y
                * REGION_SIZE_BLOCKS + REGION_SIZE_BLOCKS),
    {
        let region = ChunkRegionPos::from_world_pos(wx, wy);
        *self == region
    }
}

} // verus!
