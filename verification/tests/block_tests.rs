use yab_world::block::{
    Block, BlockTrait, LightBlock, AIR_BLOCK, AIR_BLOCK_KIND, BEDROCK_BLOCK, ROCK_BLOCK_KIND,
    WATER_BLOCK_KIND,
};

#[test]
fn get_light() {
    let block: Block = 0xF0000000;
    assert_eq!(block.get_light(), 15);
}

#[test]
fn set_get_light() {
    let mut block: Block = Block::rock_block();
    assert_eq!(block.get_light(), 0);
    block.set_light(14);
    block.set_sunlight(15);
    assert_eq!(block.get_light(), 14);
    assert_eq!(block.get_sunlight(), 15);
    assert_eq!(block.kind(), Block::rock_block());
    block.set_light(7);
    assert_eq!(block.get_light(), 7);
    assert_eq!(block.get_sunlight(), 15);
    assert_eq!(block.kind(), Block::rock_block());
}

#[test]
fn light_bits_leave_the_rest_alone() {
    let mut block: Block = 0x0000_2005;
    block.set_sunlight(9);
    assert_eq!(block, 0x0900_2005);
    block.set_light(3);
    assert_eq!(block, 0x3900_2005);
    assert_eq!(block.get_sunlight(), 9);
    assert_eq!(block.kind(), 5);
    assert!(block.is_transparent());
    block.set_sunlight(0);
    block.set_light(0);
    assert_eq!(block, 0x0000_2005);
}

#[test]
fn flags_of_air_and_bedrock() {
    assert_eq!(AIR_BLOCK.kind(), AIR_BLOCK_KIND);
    assert!(AIR_BLOCK.is_transparent());
    assert!(!AIR_BLOCK.is_opaque());
    assert!(AIR_BLOCK.is_passable());
    assert!(AIR_BLOCK.is_empty());
    assert!(!AIR_BLOCK.is_translucent());
    assert!(BEDROCK_BLOCK.is_solid());
    assert!(BEDROCK_BLOCK.is_opaque());
    assert!(!BEDROCK_BLOCK.is_empty());
    assert_eq!(Block::empty_block(), AIR_BLOCK);
    assert_eq!(Block::water_block(), WATER_BLOCK_KIND);
    assert_eq!(Block::rock_block(), ROCK_BLOCK_KIND);
}

#[test]
fn toggles_flip_one_flag() {
    let mut block: Block = Block::water_block();
    assert!(!block.is_transparent());
    block.toggle_transparency();
    assert!(block.is_transparent());
    assert!(block.is_translucent());
    assert_eq!(block, 0x2002);
    block.toggle_solidity();
    assert!(block.is_solid());
    assert_eq!(block, 0x3002);
    assert_eq!(block.kind(), WATER_BLOCK_KIND);
    block.toggle_transparency();
    block.toggle_solidity();
    assert_eq!(block, WATER_BLOCK_KIND);
}
