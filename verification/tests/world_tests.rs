use yab_world::world::world_builder::WorldBuilder;
use yab_world::block::blockregistry::{BlockDef, BlockRegistry};
use yab_world::block::{Block, BlockTrait, LightBlock, AIR_BLOCK, BEDROCK_BLOCK};
use yab_world::chunk::chunk_buffer::ChunkBuffer;
use yab_world::chunk::chunk_pos_set::ChunkPosSet;
use yab_world::chunk::{Chunk, ChunkColumn, ChunkColumnPos, ChunkPos, ColumnStatus};
use yab_world::client_config::validated_render_range;
use yab_world::comms::messages::{ClientMessage, ServerMessage};
use yab_world::inventory::Inventory;
use yab_world::comms::rle::rle_encode_to;
use yab_world::world::worldhandler::{candidate_fits, decode_column, ready_columns, WorldHandler};

/// A square of columns from -r to r around the origin: bedrock in the bottom chunk, air above.
fn columns(r: i16, status: ColumnStatus) -> ChunkBuffer {
    let mut buffer = ChunkBuffer::new();
    for x in -r..r + 1 {
        for y in -r..r + 1 {
            let mut chunks = Vec::new();
            for z in 0..64 {
                let block: Block = if z == 0 { BEDROCK_BLOCK } else { AIR_BLOCK };
                chunks.push(Chunk::new_solid(ChunkPos::new(x, y, z), block));
            }
            buffer.store_column(ChunkColumn::new(ChunkColumnPos::new(x, y), status, chunks));
        }
    }
    buffer
}

/// A handler over a 5x5 area of stored columns.
fn handler(registry: BlockRegistry) -> WorldHandler {
    let mut world = WorldHandler::new(16, ChunkColumnPos::new(0, 0), registry);
    world.chunks = columns(2, ColumnStatus::Stored);
    world
}

fn lamp_registry() -> BlockRegistry {
    let def = |code: &str, solid: bool, transparent: bool, light: u8| BlockDef {
        code: code.to_string(),
        name: code.to_string(),
        textures: Vec::new(),
        solid,
        transparent,
        buildable: true,
        light,
    };
    BlockRegistry::from_blocks(vec![
        def("air", false, true, 0),
        def("bedrock", true, false, 0),
        def("lamp", true, false, 12),
    ])
}

#[test]
fn a_new_handler_is_empty() {
    let world = WorldHandler::new(16, ChunkColumnPos::new(3, -2), BlockRegistry::default());
    assert_eq!(world.render_range, 16);
    assert_eq!(world.prio_render_range, 4);
    assert_eq!(world.center_col, ChunkColumnPos::new(3, -2));
    assert!(world.chunks.columns.is_empty());
}

#[test]
fn requests_start_in_the_corner_of_the_near_square() {
    let mut world = WorldHandler::new(16, ChunkColumnPos::new(0, 0), BlockRegistry::default());
    let none: Option<&fn(&ChunkColumnPos) -> bool> = None;
    assert_eq!(world.get_next_request(none), Some(ChunkColumnPos::new(-4, -4)));
    assert!(world.chunks.is_column_requested(&ChunkColumnPos::new(-4, -4)));
    let column = world.chunks.get_column(-4, -4).unwrap();
    assert_eq!(column.status(), ColumnStatus::Requested);
    assert!(column.chunks.is_empty());
    assert_eq!(world.get_next_request(none), Some(ChunkColumnPos::new(-4, -3)));
    assert_eq!(world.get_next_request(none), Some(ChunkColumnPos::new(-4, -2)));
}

#[test]
fn after_the_near_square_the_candidates_follow() {
    let mut world = WorldHandler::new(16, ChunkColumnPos::new(0, 0), BlockRegistry::default());
    let none: Option<&fn(&ChunkColumnPos) -> bool> = None;
    let mut last = None;
    for _ in 0..81 {
        last = world.get_next_request(none);
    }
    assert_eq!(last, Some(ChunkColumnPos::new(4, 4)));
    assert_eq!(world.get_next_request(none), Some(ChunkColumnPos::new(-5, -4)));
    assert_eq!(world.get_next_request(none), Some(ChunkColumnPos::new(-4, -5)));
    assert_eq!(world.get_next_request(none), Some(ChunkColumnPos::new(-5, -3)));
}

#[test]
fn the_frustum_test_chooses_among_the_candidates() {
    let mut world = WorldHandler::new(16, ChunkColumnPos::new(0, 0), BlockRegistry::default());
    let none: Option<&fn(&ChunkColumnPos) -> bool> = None;
    for _ in 0..81 {
        world.get_next_request(none);
    }
    let east = |c: &ChunkColumnPos| c.x > 0;
    assert_eq!(world.get_next_request(Some(&east)), Some(ChunkColumnPos::new(1, -5)));
    let nowhere = |_c: &ChunkColumnPos| false;
    assert_eq!(world.get_next_request(Some(&nowhere)), None);
}

#[test]
fn far_candidates_are_not_requested() {
    let mut world = WorldHandler::new(4, ChunkColumnPos::new(0, 0), BlockRegistry::default());
    world.prio_render_range = 0;
    let none: Option<&fn(&ChunkColumnPos) -> bool> = None;
    assert_eq!(world.get_next_request(none), Some(ChunkColumnPos::new(0, 0)));
    // Walk outward until the range of 4 columns is exhausted
    let mut count = 1;
    while world.get_next_request(none).is_some() {
        count += 1;
    }
    // All columns within distance 4 of the centre: 49 of them
    assert_eq!(count, 49);
    // Moving the centre brings new candidates within range
    world.set_buffer_position(ChunkColumnPos::new(1, 0));
    assert_eq!(world.get_next_request(none), Some(ChunkColumnPos::new(5, 0)));
}

#[test]
fn statuses_are_recorded_for_loaded_columns() {
    let mut world = handler(BlockRegistry::default());
    world.receive_status(ChunkColumnPos::new(1, 1), ColumnStatus::Meshed);
    assert_eq!(world.chunks.get_column(1, 1).unwrap().status(), ColumnStatus::Meshed);
    world.receive_status(ChunkColumnPos::new(9, 9), ColumnStatus::Meshed);
    assert!(world.chunks.get_column(9, 9).is_none());
    world.remove_column(&ChunkColumnPos::new(1, 1));
    assert!(world.chunks.get_column(1, 1).is_none());
}

#[test]
fn placing_a_block_marks_its_chunk_dirty() {
    let registry = BlockRegistry::default();
    let stone = registry.set_block_flags(3);
    let mut world = handler(registry);
    let mut dirty = ChunkPosSet::new();
    world.set_block_add_dirty(5, 5, 37, stone, &mut dirty);
    assert_eq!(world.chunks.get_block(5, 5, 37), stone);
    assert_eq!(dirty.len(), 1);
    assert!(dirty.contains(ChunkPos::new(0, 0, 2)));
}

#[test]
fn a_block_on_chunk_faces_marks_the_neighbours_dirty() {
    let registry = BlockRegistry::default();
    let stone = registry.set_block_flags(3);
    let mut world = handler(registry);
    let mut dirty = ChunkPosSet::new();
    world.set_block_add_dirty(0, 15, 32, stone, &mut dirty);
    assert_eq!(dirty.len(), 4);
    assert!(dirty.contains(ChunkPos::new(0, 0, 2)));
    assert!(dirty.contains(ChunkPos::new(-1, 0, 2)));
    assert!(dirty.contains(ChunkPos::new(0, 1, 2)));
    assert!(dirty.contains(ChunkPos::new(0, 0, 1)));
}

#[test]
fn placing_the_same_kind_changes_nothing() {
    let registry = BlockRegistry::default();
    let mut world = handler(registry);
    let mut dirty = ChunkPosSet::new();
    world.set_block_add_dirty(5, 5, 37, AIR_BLOCK, &mut dirty);
    assert!(dirty.is_empty());
    // Nor does placing where no chunk is loaded
    world.set_block_add_dirty(500, 5, 37, BEDROCK_BLOCK, &mut dirty);
    assert!(dirty.is_empty());
}

#[test]
fn a_placed_lamp_lights_up_and_its_removal_darkens() {
    let registry = lamp_registry();
    let lamp = registry.set_block_flags(2);
    let mut world = handler(registry);
    let mut dirty = ChunkPosSet::new();
    world.set_block_add_dirty(8, 8, 40, lamp, &mut dirty);
    assert_eq!(world.chunks.get_block(8, 8, 40).get_light(), 12);
    assert_eq!(world.chunks.get_block(9, 8, 40).get_light(), 11);
    assert_eq!(world.chunks.get_block(8, 8, 45).get_light(), 7);
    let mut dirty = ChunkPosSet::new();
    world.set_block_add_dirty(8, 8, 40, AIR_BLOCK, &mut dirty);
    assert_eq!(world.chunks.get_block(8, 8, 40), AIR_BLOCK);
    assert_eq!(world.chunks.get_block(9, 8, 40).get_light(), 0);
    assert_eq!(world.chunks.get_block(8, 8, 45).get_light(), 0);
    assert!(dirty.contains(ChunkPos::new(0, 0, 2)));
}

#[test]
fn removing_a_wall_lets_light_flow_in() {
    let registry = lamp_registry();
    let lamp = registry.set_block_flags(2);
    let mut world = handler(registry);
    let mut dirty = ChunkPosSet::new();
    world.set_block_add_dirty(10, 8, 40, BEDROCK_BLOCK, &mut dirty);
    world.set_block_add_dirty(8, 8, 40, lamp, &mut dirty);
    assert_eq!(world.chunks.get_block(10, 8, 40).get_light(), 0);
    world.set_block_add_dirty(10, 8, 40, AIR_BLOCK, &mut dirty);
    assert_eq!(world.chunks.get_block(10, 8, 40).get_light(), 10);
}

fn encoded_column(blocks: &Vec<Vec<Block>>) -> Vec<Vec<u8>> {
    let mut data = Vec::new();
    for chunk in blocks {
        let mut bytes = Vec::new();
        rle_encode_to(chunk, &mut bytes).unwrap();
        data.push(bytes);
    }
    data
}

#[test]
fn a_column_is_decoded_chunk_by_chunk() {
    let mut blocks: Vec<Vec<Block>> = Vec::new();
    for z in 0..64 {
        if z == 3 {
            let mut chunk = vec![AIR_BLOCK; 4096];
            chunk[17] = BEDROCK_BLOCK;
            blocks.push(chunk);
        } else {
            blocks.push(vec![if z == 0 { BEDROCK_BLOCK } else { AIR_BLOCK }]);
        }
    }
    let column = decode_column(ChunkColumnPos::new(2, -7), &encoded_column(&blocks)).unwrap();
    assert_eq!(column.col, ChunkColumnPos::new(2, -7));
    assert_eq!(column.status(), ColumnStatus::Stored);
    assert_eq!(column.chunks.len(), 64);
    for z in 0..64 {
        assert_eq!(column.chunks[z].pos, ChunkPos::new(2, -7, z as i16));
        assert_eq!(column.chunks[z].blocks, blocks[z]);
    }
}

#[test]
fn bad_column_data_is_refused() {
    let blocks: Vec<Vec<Block>> = (0..64).map(|_| vec![AIR_BLOCK]).collect();
    let mut data = encoded_column(&blocks);
    // A chunk of two blocks is no chunk
    data[5] = Vec::new();
    rle_encode_to(&vec![AIR_BLOCK, AIR_BLOCK], &mut data[5]).unwrap();
    assert!(decode_column(ChunkColumnPos::new(0, 0), &data).is_none());
    // Truncated data
    let mut data = encoded_column(&blocks);
    data[9].pop();
    assert!(decode_column(ChunkColumnPos::new(0, 0), &data).is_none());
    // Too few chunks
    let mut data = encoded_column(&blocks);
    data.pop();
    assert!(decode_column(ChunkColumnPos::new(0, 0), &data).is_none());
}

#[test]
fn only_surrounded_columns_are_ready() {
    let buffer = columns(1, ColumnStatus::Stored);
    assert_eq!(ready_columns(&buffer, false), vec![ChunkColumnPos::new(0, 0)]);
    assert!(ready_columns(&buffer, true).is_empty());
    let buffer = columns(2, ColumnStatus::Propagated);
    let mut ready = ready_columns(&buffer, true);
    ready.sort_by_key(|c| (c.x, c.y));
    let mut expected = Vec::new();
    for x in -1..2 {
        for y in -1..2 {
            expected.push(ChunkColumnPos::new(x, y));
        }
    }
    assert_eq!(ready, expected);
    assert!(ready_columns(&buffer, false).is_empty());
}

#[test]
fn a_stored_column_is_lit_when_its_area_is_loaded() {
    let registry = lamp_registry();
    let lamp = registry.set_block_flags(2);
    let mut buffer = columns(2, ColumnStatus::Stored);
    buffer.set_block(8, 8, 40, lamp);
    assert_eq!(buffer.get_block(8, 8, 40).get_light(), 0);
    assert!(buffer.propagate_column_lights(ChunkColumnPos::new(0, 0), &registry));
    assert_eq!(buffer.get_block(8, 8, 40).get_light(), 12);
    assert_eq!(buffer.get_block(8, 9, 40).get_light(), 11);
    // A column at the edge of the loaded area cannot be lit
    assert!(!buffer.propagate_column_lights(ChunkColumnPos::new(2, 0), &registry));
    assert!(buffer.is_area_loaded(ChunkColumnPos::new(1, 1)));
    assert!(!buffer.is_area_loaded(ChunkColumnPos::new(2, 1)));
}

#[test]
fn unknown_kinds_stop_the_lighting() {
    let registry = lamp_registry();
    let mut buffer = columns(2, ColumnStatus::Stored);
    buffer.set_block(8, 8, 40, 7);
    assert!(!buffer.are_kinds_known(ChunkColumnPos::new(0, 0), &registry));
    assert!(!buffer.propagate_column_lights(ChunkColumnPos::new(0, 0), &registry));
    assert!(buffer.are_kinds_known(ChunkColumnPos::new(1, 0), &registry));
}

#[test]
fn stored_columns_are_told_apart() {
    let mut buffer = columns(0, ColumnStatus::Stored);
    buffer.store_column(ChunkColumn::new(ChunkColumnPos::new(1, 0), ColumnStatus::Requested, Vec::new()));
    assert!(buffer.is_column_stored(&ChunkColumnPos::new(0, 0)));
    assert!(!buffer.is_column_stored(&ChunkColumnPos::new(1, 0)));
    assert!(!buffer.is_column_stored(&ChunkColumnPos::new(2, 0)));
}

#[test]
fn render_ranges_are_validated() {
    assert_eq!(validated_render_range(4), 16);
    assert_eq!(validated_render_range(5), 5);
    assert_eq!(validated_render_range(256), 256);
    assert_eq!(validated_render_range(257), 16);
    assert_eq!(validated_render_range(0), 16);
}

#[test]
fn a_lamp_kind_has_its_flags() {
    let registry = lamp_registry();
    let lamp = registry.set_block_flags(2);
    assert!(lamp.is_solid());
    assert!(lamp.is_opaque());
    assert_eq!(lamp.kind(), 2);
}

fn plain_column_data() -> Vec<Vec<u8>> {
    let blocks: Vec<Vec<Block>> = (0..64).map(|z| vec![if z == 0 { BEDROCK_BLOCK } else { AIR_BLOCK }]).collect();
    encoded_column(&blocks)
}

#[test]
fn columns_are_lit_and_meshed_once_their_neighbours_are() {
    let mut builder = WorldBuilder::new(BlockRegistry::default());
    let data = plain_column_data();
    let mut propagated = Vec::new();
    let mut meshed_columns = Vec::new();
    let mut meshed = Vec::new();
    for x in -2..3 {
        for y in -2..3 {
            let out = builder.receive_column(ChunkColumnPos::new(x, y), &data).unwrap();
            for column in out.propagated {
                assert_eq!(column.status(), ColumnStatus::Propagated);
                propagated.push(column.col);
            }
            meshed_columns.extend(out.meshed_columns);
            meshed.extend(out.meshed);
        }
    }
    propagated.sort_by_key(|c| (c.x, c.y));
    let mut inner = Vec::new();
    for x in -1..2 {
        for y in -1..2 {
            inner.push(ChunkColumnPos::new(x, y));
        }
    }
    assert_eq!(propagated, inner);
    assert_eq!(meshed_columns, vec![ChunkColumnPos::new(0, 0)]);
    assert_eq!(meshed.len(), 1);
    let (cp, opaque, translucent) = &meshed[0];
    assert_eq!(*cp, ChunkPos::new(0, 0, 1));
    assert_eq!(opaque.len(), 256);
    assert!(translucent.is_empty());
    let buffer = builder.buffer();
    assert_eq!(buffer.get_column(0, 0).unwrap().status(), ColumnStatus::Meshed);
    assert_eq!(buffer.get_column(1, 1).unwrap().status(), ColumnStatus::Propagated);
    assert_eq!(buffer.get_column(2, 2).unwrap().status(), ColumnStatus::Stored);
}

#[test]
fn a_builder_refuses_bad_columns() {
    let mut builder = WorldBuilder::new(BlockRegistry::default());
    let mut data = plain_column_data();
    assert!(builder.receive_column(ChunkColumnPos::new(2047, 0), &data).is_none());
    data.pop();
    assert!(builder.receive_column(ChunkColumnPos::new(0, 0), &data).is_none());
    assert!(builder.buffer().columns.is_empty());
}

#[test]
fn a_builder_stops_at_unknown_kinds() {
    let mut builder = WorldBuilder::new(BlockRegistry::default());
    let data = plain_column_data();
    let mut odd: Vec<Vec<Block>> = (0..64).map(|_| vec![AIR_BLOCK]).collect();
    odd[3] = vec![99];
    let odd_data = encoded_column(&odd);
    for x in -1..2 {
        for y in -1..2 {
            if x == 0 && y == 0 {
                continue;
            }
            assert!(builder.receive_column(ChunkColumnPos::new(x, y), &data).is_some());
        }
    }
    // The centre column is ready for light as soon as it arrives, but holds kind 99
    assert!(builder.receive_column(ChunkColumnPos::new(0, 0), &odd_data).is_none());
}

#[test]
fn rays_stop_at_solid_blocks_and_optionally_water() {
    let mut world = handler(BlockRegistry::default());
    assert_eq!(world.ray_hit_block(3, 3, 5, false), Some(BEDROCK_BLOCK));
    assert_eq!(world.ray_hit_block(3, 3, 20, false), None);
    assert_eq!(world.ray_hit_block(300, 3, 5, false), None);
    let water: Block = Block::water_block();
    world.chunks.set_block(3, 3, 20, water);
    assert_eq!(world.ray_hit_block(3, 3, 20, false), None);
    assert_eq!(world.ray_hit_block(3, 3, 20, true), Some(water));
}

#[test]
fn a_built_column_is_lit_by_its_lamps() {
    let registry = lamp_registry();
    let lamp = registry.set_block_flags(2);
    let mut builder = WorldBuilder::new(registry);
    let plain = plain_column_data();
    let mut blocks: Vec<Vec<Block>> = (0..64).map(|z| vec![if z == 0 { BEDROCK_BLOCK } else { AIR_BLOCK }]).collect();
    let mut lamp_chunk = vec![AIR_BLOCK; 4096];
    lamp_chunk[8 * 256 + 8 * 16 + 8] = lamp;
    blocks[2] = lamp_chunk;
    let lamp_data = encoded_column(&blocks);
    for x in -1..2 {
        for y in -1..2 {
            let data = if x == 0 && y == 0 { &lamp_data } else { &plain };
            assert!(builder.receive_column(ChunkColumnPos::new(x, y), data).is_some());
        }
    }
    let buffer = builder.buffer();
    assert_eq!(buffer.get_column(0, 0).unwrap().status(), ColumnStatus::Propagated);
    assert_eq!(buffer.get_block(8, 8, 40).kind(), 2);
    assert_eq!(buffer.get_block(8, 8, 40).get_light(), 12);
    assert_eq!(buffer.get_block(9, 8, 40).get_light(), 11);
    assert_eq!(buffer.get_block(8, 8, 45).get_light(), 7);
}

#[test]
fn requests_can_be_made_from_a_new_handler() {
    let mut world = WorldHandler::new(16, ChunkColumnPos::new(0, 0), BlockRegistry::default());
    assert!(world.can_request());
    let none: Option<&fn(&ChunkColumnPos) -> bool> = None;
    for _ in 0..100 {
        world.get_next_request(none);
    }
    assert!(world.can_request());
    // Near the edge of the i16 range the near square no longer fits
    let edge = WorldHandler::new(16, ChunkColumnPos::new(32766, 0), BlockRegistry::default());
    assert!(!edge.can_request());
}

#[test]
fn candidates_fit_near_the_centre_only() {
    assert!(candidate_fits(ChunkColumnPos::new(3, 4), ChunkColumnPos::new(0, 0)));
    assert!(candidate_fits(ChunkColumnPos::new(-100, 50), ChunkColumnPos::new(0, 0)));
    assert!(!candidate_fits(ChunkColumnPos::new(200, 0), ChunkColumnPos::new(0, 0)));
    assert!(!candidate_fits(ChunkColumnPos::new(i16::MAX, 0), ChunkColumnPos::new(i16::MAX - 1, 0)));
}

#[test]
fn placing_takes_from_the_inventory_and_digging_gives_back() {
    let registry = BlockRegistry::default();
    let stone = registry.set_block_flags(3);
    let mut world = handler(registry.clone());
    let mut inventory = Inventory::new();
    inventory.add(3, 2);
    let mut dirty = ChunkPosSet::new();
    let placed = world.place_block(&mut inventory, &registry, 3, 5, 5, 37, false, &mut dirty);
    assert_eq!(placed, Some(ClientMessage::SetBlock { wbx: 5, wby: 5, wbz: 37, block: 3 }));
    assert_eq!(world.chunks.get_block(5, 5, 37), stone);
    assert_eq!(inventory.count(3), 1);
    assert!(dirty.contains(ChunkPos::new(0, 0, 2)));
    // A body in the way, or none of the kind held: nothing happens
    assert_eq!(world.place_block(&mut inventory, &registry, 3, 6, 5, 37, true, &mut dirty), None);
    assert_eq!(world.place_block(&mut inventory, &registry, 1, 6, 5, 37, false, &mut dirty), None);
    assert_eq!(world.chunks.get_block(6, 5, 37), AIR_BLOCK);
    assert_eq!(inventory.count(3), 1);
    let dug = world.dig_block(&mut inventory, 5, 5, 37, &mut dirty);
    assert_eq!(dug, Some(ClientMessage::SetBlock { wbx: 5, wby: 5, wbz: 37, block: AIR_BLOCK }));
    assert_eq!(world.chunks.get_block(5, 5, 37), AIR_BLOCK);
    assert_eq!(inventory.count(3), 2);
    // Where the columns around are not all stored nothing is dug
    assert_eq!(world.dig_block(&mut inventory, 40, 5, 5, &mut dirty), None);
    assert_eq!(world.chunks.get_block(40, 5, 5), BEDROCK_BLOCK);
}

#[test]
fn blocks_set_elsewhere_are_set_here_with_their_flags() {
    let registry = BlockRegistry::default();
    let stone = registry.set_block_flags(3);
    let mut world = handler(registry);
    let mut dirty = ChunkPosSet::new();
    let message = ServerMessage::SetBlock { wbx: 5, wby: 5, wbz: 37, block: 3 };
    assert!(world.apply_server_message(&message, &mut dirty));
    assert_eq!(world.chunks.get_block(5, 5, 37), stone);
    assert!(dirty.contains(ChunkPos::new(0, 0, 2)));
    let mut dirty = ChunkPosSet::new();
    assert!(!world.apply_server_message(&ServerMessage::PlayerDespawn { player_id: 4 }, &mut dirty));
    assert!(dirty.is_empty());
}
