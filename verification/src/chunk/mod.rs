//! Chunks of 16x16x16 blocks, columns of chunks, their positions, and the
//! buffer of loaded columns.

pub mod chunk;
pub mod chunk_buffer;
pub mod chunk_pos_set;
pub mod chunkcolumn;
pub mod chunkpos;

pub use chunk::Chunk;
pub use chunkcolumn::ChunkColumn;
pub use chunkcolumn::ChunkColumnPos;
pub use chunkcolumn::ColumnStatus;
pub use chunkpos::ChunkPos;
pub use chunkpos::ChunkRegionPos;

use vstd::prelude::*;

verus! {

pub const WORLD_HEIGHT_CHUNKS: usize = 64;
pub const WORLD_HEIGHT_BLOCKS: i16 = 1024;
pub const CHUNK_SIZE: usize = 16;
pub const PADDED_CHUNK_SIZE: usize = 18;
pub const BIT_SHIFT_Y: usize = 4;
pub const BIT_SHIFT_X: usize = 8;
/// How many columns a player moves before the column buffer scrolls.
pub const COLUMN_SCROLL_STEP: i16 = 2;
pub const REGION_SIZE_BLOCKS: i16 = 512;
/// The number of blocks in a chunk.
pub const CHUNK_VOLUME: usize = 4096;

/// The chunk coordinate that holds world block coordinate `w`: `w` divided by 16, rounded down.
pub open spec fn spec_chunk_coord(w: int) -> int {
    w / 16
}

/// The coordinate of world block coordinate `w` inside its chunk.
pub open spec fn spec_local_coord(w: int) -> int {
    w % 16
}

/// An arithmetic shift right by four rounds down a division by 16.
pub proof fn lemma_shr4(v: i16)
    ensures
        (v >> 4u32) as int == spec_chunk_coord(v as int),
        -2048 <= (v >> 4u32) <= 2047,
        v as int - 16 * ((v >> 4u32) as int) == spec_local_coord(v as int),
{
    assert(16 * ((v >> 4u32) as int) <= v as int && (v as int) < 16 * ((v >> 4u32) as int) + 16
        && -2048 <= (v >> 4u32) <= 2047) by (bit_vector);
}

/// An arithmetic shift right by nine rounds down a division by 512.
pub proof fn lemma_shr9(v: i16)
    ensures
        (v >> 9u32) as int == (v as int) / 512,
        -64 <= (v >> 9u32) <= 63,
{
    assert(512 * ((v >> 9u32) as int) <= v as int && (v as int) < 512 * ((v >> 9u32) as int)
        + 512 && -64 <= (v >> 9u32) <= 63) by (bit_vector);
}

} // verus!
