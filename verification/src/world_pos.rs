//! Positions of blocks in the world.

use crate::chunk::chunkpos::{dist_fits_i16, lemma_square_nonneg, spec_dist_squared};
use vstd::prelude::*;

verus! {

/// The position of a block in the world.
#[derive(PartialEq, Eq, Structural, Hash, Debug, Copy, Clone)]
pub struct WorldPos {
    pub x: i16,
    pub y: i16,
    pub z: i16,
}

impl WorldPos {
    pub fn zero() -> (r: Self)
        ensures
            r == (WorldPos { x: 0, y: 0, z: 0 }),
    {
        WorldPos { x: 0, y: 0, z: 0 }
    }

    pub fn new(x: i16, y: i16, z: i16) -> (r: WorldPos)
        ensures
            r == (WorldPos { x, y, z }),
    {
        WorldPos { x, y, z }
    }

    /// The squared distance between two positions.
    pub fn dist_squared_from(&self, other: &WorldPos) -> (r: i16)
        requires
            dist_fits_i16(
                self.x as int,
                self.y as int,
                self.z as int,
                other.x as int,
                other.y as int,
                other.z as int,
            ),
        ensures
            r == spec_dist_squared(
                self.x as int,
                self.y as int,
                self.z as int,
                other.x as int,
                other.y as int,
                other.z as int,
            ),
    {
        let dx = other.x - self.x;
        let dy = other.y - self.y;
        let dz = other.z - self.z;
        proof {
            lemma_square_nonneg(dx as int);
            lemma_square_nonneg(dy as int);
            lemma_square_nonneg(dz as int);
        }
        dx * dx + dy * dy + dz * dz
    }
}

} // verus!
