use yab_world::block::blockregistry::{BlockDef, BlockRegistry};
use yab_world::block::{Block, LightBlock, AIR_BLOCK, BEDROCK_BLOCK};
use yab_world::chunk::chunk_buffer::ChunkBuffer;
use yab_world::chunk::chunk_pos_set::ChunkPosSet;
use yab_world::chunk::{Chunk, ChunkColumn, ChunkColumnPos, ChunkPos, ColumnStatus};

/// A 5x5 area of columns around the origin: bedrock in the bottom chunk, air above.
fn world() -> ChunkBuffer {
    let mut buffer = ChunkBuffer::new();
    for x in -2..3 {
        for y in -2..3 {
            let mut chunks = Vec::new();
            for z in 0..64 {
                let block: Block = if z == 0 { BEDROCK_BLOCK } else { AIR_BLOCK };
                chunks.push(Chunk::new_solid(ChunkPos::new(x, y, z), block));
            }
            buffer.store_column(ChunkColumn::new(ChunkColumnPos::new(x, y), ColumnStatus::Stored, chunks));
        }
    }
    buffer
}

fn light_at(buffer: &ChunkBuffer, x: i16, y: i16, z: i16) -> u8 {
    buffer.get_block(x, y, z).get_light()
}

fn sunlight_at(buffer: &ChunkBuffer, x: i16, y: i16, z: i16) -> u8 {
    buffer.get_block(x, y, z).get_sunlight()
}

fn place_light(buffer: &mut ChunkBuffer, x: i16, y: i16, z: i16, level: u8, dirty: &mut ChunkPosSet) {
    let mut lamp = AIR_BLOCK;
    lamp.set_light(level);
    buffer.set_block(x, y, z, lamp);
    buffer.propagate_light(x, y, z, dirty);
}

#[test]
fn light_falls_off_by_one_per_step() {
    let mut buffer = world();
    let mut dirty = ChunkPosSet::new();
    place_light(&mut buffer, 8, 8, 40, 15, &mut dirty);
    assert_eq!(light_at(&buffer, 8, 8, 40), 15);
    assert_eq!(light_at(&buffer, 9, 8, 40), 14);
    assert_eq!(light_at(&buffer, 8, 8, 45), 10);
    assert_eq!(light_at(&buffer, 10, 10, 40), 11);
    assert_eq!(light_at(&buffer, 22, 8, 40), 1);
    assert_eq!(light_at(&buffer, 23, 8, 40), 0);
    assert_eq!(light_at(&buffer, 8, -6, 40), 1);
    assert!(dirty.contains(ChunkPos::new(0, 0, 2)));
    assert!(dirty.contains(ChunkPos::new(1, 0, 2)));
    assert!(dirty.contains(ChunkPos::new(0, -1, 2)));
    assert!(!dirty.contains(ChunkPos::new(2, 2, 2)));
}

#[test]
fn light_stops_at_opaque_blocks() {
    let mut buffer = world();
    let mut dirty = ChunkPosSet::new();
    // A wall of bedrock at x = 10, y in 5..12, z in 37..44, beside the light
    for y in 5..12 {
        for z in 37..44 {
            buffer.set_block(10, y, z, BEDROCK_BLOCK);
        }
    }
    place_light(&mut buffer, 8, 8, 40, 15, &mut dirty);
    assert_eq!(light_at(&buffer, 9, 8, 40), 14);
    assert_eq!(light_at(&buffer, 10, 8, 40), 0);
    // Around the wall the light takes the long way: four steps aside, three across, four back
    assert_eq!(light_at(&buffer, 11, 8, 40), 4);
}

#[test]
fn removing_a_light_removes_its_light() {
    let mut buffer = world();
    let mut dirty = ChunkPosSet::new();
    place_light(&mut buffer, 8, 8, 40, 15, &mut dirty);
    let mut dirty = ChunkPosSet::new();
    buffer.remove_block_and_light(8, 8, 40, 15, AIR_BLOCK, &mut dirty);
    assert_eq!(buffer.get_block(8, 8, 40), AIR_BLOCK);
    assert_eq!(light_at(&buffer, 9, 8, 40), 0);
    assert_eq!(light_at(&buffer, 8, 8, 45), 0);
    assert_eq!(light_at(&buffer, 22, 8, 40), 0);
    assert!(dirty.contains(ChunkPos::new(0, 0, 2)));
    assert!(dirty.contains(ChunkPos::new(1, 0, 2)));
}

#[test]
fn removing_one_light_lets_the_other_shine_in() {
    let mut buffer = world();
    let mut dirty = ChunkPosSet::new();
    place_light(&mut buffer, 8, 8, 40, 15, &mut dirty);
    place_light(&mut buffer, 12, 8, 40, 15, &mut dirty);
    assert_eq!(light_at(&buffer, 10, 8, 40), 13);
    buffer.remove_block_and_light(8, 8, 40, 15, BEDROCK_BLOCK, &mut dirty);
    assert_eq!(buffer.get_block(8, 8, 40), BEDROCK_BLOCK);
    assert_eq!(light_at(&buffer, 12, 8, 40), 15);
    assert_eq!(light_at(&buffer, 10, 8, 40), 13);
    assert_eq!(light_at(&buffer, 7, 8, 40), 8);
    assert_eq!(light_at(&buffer, 4, 8, 40), 5);
}

#[test]
fn light_after_removal_comes_from_bright_neighbours() {
    let mut buffer = world();
    let mut dirty = ChunkPosSet::new();
    place_light(&mut buffer, 8, 8, 40, 15, &mut dirty);
    // Darken one block by hand, then let its neighbours light it again
    buffer.set_block(9, 8, 40, AIR_BLOCK);
    buffer.propagate_light_after_removal(9, 8, 40, &mut dirty);
    assert_eq!(light_at(&buffer, 9, 8, 40), 14);
}

#[test]
fn column_sunlight_falls_to_the_ground() {
    let mut buffer = world();
    let water: Block = 0x2002;
    buffer.set_block(3, 4, 50, water);
    buffer.propagate_column_sunlight(ChunkColumnPos::new(0, 0));
    assert_eq!(sunlight_at(&buffer, 3, 4, 1000), 15);
    assert_eq!(sunlight_at(&buffer, 3, 4, 51), 15);
    assert_eq!(sunlight_at(&buffer, 3, 4, 50), 15);
    // Water halves the sunlight below it, down to the end of its chunk
    assert_eq!(sunlight_at(&buffer, 3, 4, 49), 7);
    assert_eq!(sunlight_at(&buffer, 3, 4, 48), 7);
    assert_eq!(sunlight_at(&buffer, 2, 4, 49), 15);
    // A solid air chunk is lit whole
    assert_eq!(sunlight_at(&buffer, 3, 4, 47), 15);
    // The bedrock chunk stops the fall
    assert_eq!(sunlight_at(&buffer, 3, 4, 5), 0);
    // Other columns are untouched
    assert_eq!(sunlight_at(&buffer, 20, 4, 100), 0);
}

fn sunlit_world() -> ChunkBuffer {
    let mut buffer = world();
    for x in -2..3 {
        for y in -2..3 {
            buffer.propagate_column_sunlight(ChunkColumnPos::new(x, y));
        }
    }
    buffer
}

#[test]
fn placing_and_removing_a_roof() {
    let mut buffer = sunlit_world();
    let mut dirty = ChunkPosSet::new();
    assert_eq!(sunlight_at(&buffer, 8, 8, 50), 15);
    // Place an opaque block: the beam below it goes dark
    let old_sunlight = sunlight_at(&buffer, 8, 8, 100);
    buffer.set_block(8, 8, 100, BEDROCK_BLOCK);
    buffer.remove_sunlight_if_needed(8, 8, 100, old_sunlight, &mut dirty);
    assert_eq!(sunlight_at(&buffer, 8, 8, 99), 0);
    assert_eq!(sunlight_at(&buffer, 8, 8, 50), 0);
    assert_eq!(sunlight_at(&buffer, 9, 8, 50), 15);
    assert!(dirty.contains(ChunkPos::new(0, 0, 3)));
    // Take it away again: the sunlight beams down again
    buffer.set_block(8, 8, 100, AIR_BLOCK);
    buffer.propagate_sunlight_if_needed(8, 8, 100, &mut dirty);
    assert_eq!(sunlight_at(&buffer, 8, 8, 100), 15);
    assert_eq!(sunlight_at(&buffer, 8, 8, 50), 15);
    assert_eq!(sunlight_at(&buffer, 8, 8, 16), 15);
}

#[test]
fn sunlight_spreads_sideways_under_a_roof() {
    let mut buffer = sunlit_world();
    let mut dirty = ChunkPosSet::new();
    // A roof over (8, 8) at height 40, then sunlight spreads in below it from the side
    buffer.set_block(8, 8, 40, BEDROCK_BLOCK);
    let mut below: Block = AIR_BLOCK;
    below.set_sunlight(0);
    buffer.set_block(8, 8, 39, below);
    buffer.propagate_sunlight_if_needed(8, 8, 39, &mut dirty);
    assert_eq!(sunlight_at(&buffer, 8, 8, 39), 14);
}

#[test]
fn new_chunk_lights_its_lamps() {
    let mut blocks = BlockRegistry::default().all_blocks().clone();
    blocks.push(BlockDef {
        code: "lamp".to_string(),
        name: "Lamp".to_string(),
        textures: Vec::new(),
        solid: false,
        transparent: true,
        buildable: true,
        light: 12,
    });
    let registry = BlockRegistry::from_blocks(blocks);
    let mut buffer = world();
    let lamp: Block = 7 | 0x2000;
    buffer.set_block(5, 5, 50, lamp);
    let mut dirty = ChunkPosSet::new();
    buffer.propagate_chunk_light_and_sunlight(ChunkPos::new(0, 0, 3), &mut dirty, &registry);
    assert_eq!(light_at(&buffer, 5, 5, 50), 12);
    assert_eq!(light_at(&buffer, 6, 5, 50), 11);
    assert_eq!(light_at(&buffer, 5, 5, 44), 6);
    assert!(dirty.contains(ChunkPos::new(0, 0, 3)));
    // A solid chunk is left alone
    let mut dirty = ChunkPosSet::new();
    buffer.propagate_chunk_light_and_sunlight(ChunkPos::new(0, 0, 10), &mut dirty, &registry);
    assert!(dirty.is_empty());
}

#[test]
fn sunlight_spreads_from_any_height() {
    let mut buffer = world();
    let mut dirty = ChunkPosSet::new();
    let mut sunlit: Block = AIR_BLOCK;
    sunlit.set_sunlight(15);
    buffer.set_block(8, 8, 100, sunlit);
    buffer.propagate_sunlight_queue(vec![(8, 8, 100)], &mut dirty);
    assert_eq!(sunlight_at(&buffer, 9, 8, 100), 14);
    assert_eq!(sunlight_at(&buffer, 8, 8, 101), 14);
    assert_eq!(sunlight_at(&buffer, 8, 8, 99), 14);
    assert_eq!(sunlight_at(&buffer, 10, 8, 100), 13);
    assert!(dirty.contains(ChunkPos::new(0, 0, 6)));
}
