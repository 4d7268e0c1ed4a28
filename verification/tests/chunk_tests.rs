use yab_world::block::{Block, BlockTrait, AIR_BLOCK, BEDROCK_BLOCK};
use yab_world::chunk::chunk_buffer::ChunkBuffer;
use yab_world::chunk::chunk_pos_set::ChunkPosSet;
use yab_world::chunk::{Chunk, ChunkColumn, ChunkColumnPos, ChunkPos, ChunkRegionPos, ColumnStatus};

#[test]
fn from_world_block_coords() {
    assert_eq!(
        ChunkPos::from_world_block_coords(-132, -132, -132),
        ChunkPos::new(-9, -9, -9)
    );

    assert_eq!(
        ChunkPos::from_world_block_coords(-16, -16, -16),
        ChunkPos::new(-1, -1, -1)
    );

    assert_eq!(
        ChunkPos::from_world_block_coords(0, 0, 0),
        ChunkPos::new(0, 0, 0)
    );

    assert_eq!(
        ChunkPos::from_world_block_coords(1, 1, 1),
        ChunkPos::new(0, 0, 0)
    );

    assert_eq!(
        ChunkPos::from_world_block_coords(16, 16, 16),
        ChunkPos::new(1, 1, 1)
    );
}

#[test]
fn column_and_region_positions() {
    let col = ChunkColumnPos::from_world_block_coords(-1, 17);
    assert_eq!(col, ChunkColumnPos::new(-1, 1));
    assert_eq!(col.xp(), ChunkColumnPos::new(0, 1));
    assert_eq!(col.ym(), ChunkColumnPos::new(-1, 0));
    assert_eq!(ChunkColumnPos::from_chunk_pos(ChunkPos::new(3, 4, 5)), ChunkColumnPos::new(3, 4));
    assert_eq!(ChunkColumnPos::new(1, 2).dist_squared_from(&ChunkColumnPos::new(4, 6)), 25);
    assert_eq!(ChunkPos::new(1, 2, 3).dist_squared_from(&ChunkPos::new(2, 4, 6)), 14);
    assert_eq!(ChunkPos::zero().zp(), ChunkPos::new(0, 0, 1));
    let region = ChunkRegionPos::from_world_pos(-1, 600);
    assert_eq!(region, ChunkRegionPos::new(-1, 1));
    assert_eq!(region.world_x(), -512);
    assert_eq!(region.world_y(), 512);
    assert!(region.contains_world_pos(-512, 1023));
    assert!(!region.contains_world_pos(0, 600));
}

#[test]
fn solid_chunk_becomes_normal_when_a_block_differs() {
    let pos = ChunkPos::new(0, 0, 0);
    let mut chunk = Chunk::new_solid(pos, AIR_BLOCK);
    assert!(chunk.is_solid());
    chunk.set_block(1, 2, 3, AIR_BLOCK);
    assert!(chunk.is_solid());
    chunk.set_block(1, 2, 3, BEDROCK_BLOCK);
    assert!(chunk.is_normal());
    assert_eq!(chunk.get_block(1, 2, 3), BEDROCK_BLOCK);
    assert_eq!(chunk.get_block(3, 2, 1), AIR_BLOCK);
    chunk.set_block_world(15, 15, 15, BEDROCK_BLOCK);
    assert_eq!(chunk.get_block_world(15, 15, 15), BEDROCK_BLOCK);
    chunk.clear();
    assert!(!chunk.is_initialized());
    let uninit = Chunk::new_uninitialized(pos);
    assert!(!uninit.is_initialized());
}

fn column(x: i16, y: i16, status: ColumnStatus) -> ChunkColumn {
    let mut chunks = Vec::new();
    for z in 0..64 {
        let block: Block = if z == 0 { BEDROCK_BLOCK } else { AIR_BLOCK };
        chunks.push(Chunk::new_solid(ChunkPos::new(x, y, z), block));
    }
    ChunkColumn::new(ChunkColumnPos::new(x, y), status, chunks)
}

#[test]
fn chunk_buffer_blocks() {
    let mut buffer = ChunkBuffer::new();
    assert!(!buffer.is_column_loaded(&ChunkColumnPos::new(0, 0)));
    buffer.store_column(column(0, 0, ColumnStatus::Stored));
    assert!(buffer.is_column_loaded(&ChunkColumnPos::new(0, 0)));
    assert!(buffer.is_column_requested(&ChunkColumnPos::new(0, 0)));
    assert_eq!(buffer.get_block(3, 4, 5), BEDROCK_BLOCK);
    assert_eq!(buffer.get_block(3, 4, 16), AIR_BLOCK);
    assert_eq!(buffer.get_block(-1, 4, 5), AIR_BLOCK);
    assert_eq!(buffer.get_top_z(3, 4), 15);
    buffer.set_block(3, 4, 100, BEDROCK_BLOCK);
    assert_eq!(buffer.get_block(3, 4, 100), BEDROCK_BLOCK);
    assert_eq!(buffer.get_top_z(3, 4), 100);
    assert!(buffer.get_chunk(0, 0, 6).unwrap().is_normal());
    assert!(buffer.get_chunk(0, 0, 64).is_none());
    // Nothing happens where no column is loaded
    buffer.set_block(-5, 4, 100, BEDROCK_BLOCK);
    assert_eq!(buffer.get_block(-5, 4, 100), AIR_BLOCK);
    assert_eq!(buffer.get_top_z(-5, 4), 1024);
}

#[test]
fn chunk_buffer_neighbours() {
    let mut buffer = ChunkBuffer::new();
    for x in -1..2 {
        for y in -1..2 {
            buffer.store_column(column(x, y, ColumnStatus::Stored));
        }
    }
    let center = ChunkColumnPos::new(0, 0);
    assert!(buffer.are_all_neighbours_stored(center));
    assert!(!buffer.are_all_neighbours_propagated(center));
    assert!(!buffer.are_all_neighbours_stored(ChunkColumnPos::new(1, 1)));
    buffer.get_mut_column(0, 0).unwrap().set_status(ColumnStatus::New);
    assert!(!buffer.are_all_neighbours_stored(center));
    assert!(!buffer.is_column_requested(&center));
    let copy = buffer.get_column_clone(1, 0).unwrap();
    assert_eq!(copy.col, ChunkColumnPos::new(1, 0));
    assert!(copy.is_stored());
}

#[test]
fn chunk_pos_set() {
    let mut set = ChunkPosSet::new();
    assert!(set.is_empty());
    set.insert(ChunkPos::new(-1, 2, -3));
    set.insert(ChunkPos::new(-1, 2, -3));
    set.insert(ChunkPos::new(0, 0, 0));
    assert_eq!(set.len(), 2);
    assert!(set.contains(ChunkPos::new(-1, 2, -3)));
    assert!(!set.contains(ChunkPos::new(1, 2, 3)));
    set.clear();
    assert!(set.is_empty());
}
