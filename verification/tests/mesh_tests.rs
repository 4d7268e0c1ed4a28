use yab_world::block::blockregistry::BlockDef;
use yab_world::block::blockregistry::BlockRegistry;
use yab_world::block::{Block, AIR_BLOCK, BEDROCK_BLOCK};
use yab_world::chunk::chunk_buffer::ChunkBuffer;
use yab_world::chunk::{Chunk, ChunkColumn, ChunkColumnPos, ChunkPos, ColumnStatus};
use yab_world::render::block_mesher::{BlockFace, BlockMesher};
use yab_world::render::worldmesher::WorldMesher;

/// A 3x3 area of columns around the origin: air everywhere, with `bottom` in chunk 0.
fn world(bottom: Block) -> ChunkBuffer {
    let mut buffer = ChunkBuffer::new();
    for x in -1..2 {
        for y in -1..2 {
            let mut chunks = Vec::new();
            for z in 0..64 {
                let block: Block = if z == 0 { bottom } else { AIR_BLOCK };
                chunks.push(Chunk::new_solid(ChunkPos::new(x, y, z), block));
            }
            buffer.store_column(ChunkColumn::new(ChunkColumnPos::new(x, y), ColumnStatus::Stored, chunks));
        }
    }
    buffer
}

fn face(x: i16, y: i16, z: i16, texture: usize, face: usize) -> BlockFace {
    BlockFace { x, y, z, texture, light: 0, face }
}

#[test]
fn a_stone_in_air_shows_six_faces() {
    let registry = BlockRegistry::default();
    let stone = registry.set_block_flags(3);
    let mut buffer = world(BEDROCK_BLOCK);
    buffer.set_block(5, 5, 37, stone);
    let mesher = BlockMesher::new(&registry);
    let (opaque, translucent) = mesher.mesh_chunk(ChunkPos::new(0, 0, 2), &buffer);
    // The faces are drawn on the air around the stone, facing it, in block order
    assert_eq!(
        opaque,
        vec![
            face(4, 5, 37, 2, 0),
            face(5, 4, 37, 2, 2),
            face(5, 5, 36, 2, 4),
            face(5, 5, 38, 2, 5),
            face(5, 6, 37, 2, 3),
            face(6, 5, 37, 2, 1),
        ]
    );
    assert!(translucent.is_empty());
}

#[test]
fn water_in_air_shows_translucent_faces() {
    let registry = BlockRegistry::default();
    let water = registry.set_block_flags(2);
    let mut buffer = world(BEDROCK_BLOCK);
    buffer.set_block(5, 5, 37, water);
    let mesher = BlockMesher::new(&registry);
    let (opaque, translucent) = mesher.mesh_chunk(ChunkPos::new(0, 0, 2), &buffer);
    assert!(opaque.is_empty());
    assert_eq!(translucent.len(), 6);
    assert_eq!(translucent[0], face(4, 5, 37, 1, 0));
    assert_eq!(translucent[5], face(6, 5, 37, 1, 1));
}

#[test]
fn faces_towards_the_chunk_below() {
    let registry = BlockRegistry::default();
    let buffer = world(BEDROCK_BLOCK);
    let mesher = BlockMesher::new(&registry);
    let (opaque, translucent) = mesher.mesh_chunk(ChunkPos::new(0, 0, 1), &buffer);
    // Every block of the bottom layer of chunk 1 sees the bedrock of chunk 0
    assert_eq!(opaque.len(), 256);
    assert!(opaque.iter().all(|f| f.z == 16 && f.face == 5 && f.texture == 0));
    assert_eq!(opaque[0], face(0, 0, 16, 0, 5));
    assert_eq!(opaque[255], face(15, 15, 16, 0, 5));
    assert!(translucent.is_empty());
    // A solid bedrock chunk shows nothing itself
    let (opaque, translucent) = mesher.mesh_chunk(ChunkPos::new(0, 0, 0), &buffer);
    assert!(opaque.is_empty());
    assert!(translucent.is_empty());
}

#[test]
fn below_the_world_is_bedrock_and_above_it_air() {
    let registry = BlockRegistry::default();
    let buffer = world(AIR_BLOCK);
    let mesher = BlockMesher::new(&registry);
    let (opaque, _) = mesher.mesh_chunk(ChunkPos::new(0, 0, 0), &buffer);
    assert_eq!(opaque.len(), 256);
    assert!(opaque.iter().all(|f| f.z == 0 && f.face == 5 && f.texture == 0));
    let (opaque, translucent) = mesher.mesh_chunk(ChunkPos::new(0, 0, 63), &buffer);
    assert!(opaque.is_empty());
    assert!(translucent.is_empty());
}

#[test]
fn grass_shows_its_own_texture_on_each_side() {
    let registry = BlockRegistry::default();
    let grass = registry.set_block_flags(6);
    let mut buffer = world(BEDROCK_BLOCK);
    buffer.set_block(5, 5, 37, grass);
    let mesher = BlockMesher::new(&registry);
    let (opaque, _) = mesher.mesh_chunk(ChunkPos::new(0, 0, 2), &buffer);
    // The face below the grass shows its bottom (dirt), the face above its top
    assert_eq!(opaque[2], face(5, 5, 36, 3, 4));
    assert_eq!(opaque[3], face(5, 5, 38, 6, 5));
    assert_eq!(opaque[0], face(4, 5, 37, 5, 0));
}

#[test]
fn a_lit_block_passes_its_light_to_the_face() {
    let registry = BlockRegistry::default();
    let stone = registry.set_block_flags(3);
    let mut buffer = world(BEDROCK_BLOCK);
    buffer.set_block(5, 5, 37, stone);
    // Light in the air block next to the stone
    buffer.set_block(4, 5, 37, AIR_BLOCK | (9 << 28));
    let mesher = BlockMesher::new(&registry);
    let (opaque, _) = mesher.mesh_chunk(ChunkPos::new(0, 0, 2), &buffer);
    assert_eq!(opaque[0], BlockFace { x: 4, y: 5, z: 37, texture: 2, light: 9, face: 0 });
}

#[test]
fn a_column_is_meshed_chunk_by_chunk() {
    let registry = BlockRegistry::default();
    let buffer = world(BEDROCK_BLOCK);
    let mesher = WorldMesher::new(&registry);
    let column = mesher.mesh_column(&ChunkColumnPos::new(0, 0), &buffer);
    assert_eq!(column.len(), 64);
    assert!(column[0].0.is_empty());
    assert_eq!(column[1].0.len(), 256);
    assert!(column[2].0.is_empty());
    assert_eq!(column[1], mesher.mesh_chunk(ChunkPos::new(0, 0, 1), &buffer));
}

#[test]
fn meshability_is_checked() {
    let registry = BlockRegistry::default();
    let buffer = world(BEDROCK_BLOCK);
    let mesher = BlockMesher::new(&registry);
    assert!(mesher.can_mesh(ChunkPos::new(0, 0, 1), &buffer));
    // The neighbour at x + 1 of an edge column is missing
    assert!(!mesher.can_mesh(ChunkPos::new(1, 0, 1), &buffer));
    // No chunk there at all
    assert!(!mesher.can_mesh(ChunkPos::new(0, 0, 64), &buffer));
    let world_mesher = WorldMesher::new(&registry);
    assert!(world_mesher.can_mesh_column(&ChunkColumnPos::new(0, 0), &buffer));
    assert!(!world_mesher.can_mesh_column(&ChunkColumnPos::new(-1, 0), &buffer));
}

#[test]
fn blocks_without_textures_cannot_be_meshed() {
    let def = |code: &str, textures: Vec<String>, solid: bool, transparent: bool| BlockDef {
        code: code.to_string(),
        name: code.to_string(),
        textures,
        solid,
        transparent,
        buildable: true,
        light: 0,
    };
    let six = |t: &str| (0..6).map(|_| t.to_string()).collect::<Vec<String>>();
    let registry = BlockRegistry::from_blocks(vec![
        def("air", Vec::new(), false, true),
        def("bedrock", six("bedrock"), true, false),
        def("ghost", Vec::new(), true, false),
    ]);
    let ghost = registry.set_block_flags(2);
    let mut buffer = world(BEDROCK_BLOCK);
    let mesher = BlockMesher::new(&registry);
    assert!(mesher.can_mesh(ChunkPos::new(0, 0, 2), &buffer));
    buffer.set_block(5, 5, 37, ghost);
    assert!(!mesher.can_mesh(ChunkPos::new(0, 0, 2), &buffer));
}
