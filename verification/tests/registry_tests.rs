use std::collections::HashSet;
use yab_world::block::blockregistry::BlockRegistry;
use yab_world::block::{AIR_BLOCK, AIR_BLOCK_KIND};
use yab_world::in_game::pop;
use yab_world::inventory::Inventory;
use yab_world::label::Label;
use yab_world::resource::ResourceRegistry;
use yab_world::world_definition::WorldList;
use yab_world::world_pos::WorldPos;
use yab_world::world_type::GeneratorType;

#[test]
fn default_block_registry() {
    let registry = BlockRegistry::default();
    assert_eq!(registry.all_blocks().len(), 7);
    assert_eq!(registry.all_blocks()[0].code, "air");
    assert_eq!(registry.all_blocks()[6].name, "Grass");
    assert_eq!(registry.block_from_code("stone"), 0x1003);
    assert_eq!(registry.block_from_code("water"), 0x2002);
    assert_eq!(registry.block_from_code("air"), AIR_BLOCK);
    assert_eq!(registry.block_from_code("unknown"), AIR_BLOCK);
    assert_eq!(registry.block_kind_from_code("grass"), 6);
    assert_eq!(registry.block_kind_from_code("unknown"), AIR_BLOCK_KIND);
    assert_eq!(registry.set_block_flags(0xF000_0005), 0x1005);
    assert_eq!(registry.get(0x2002).code, "water");
    assert!(registry.get(3).solid);
}

#[test]
fn block_registry_textures() {
    let registry = BlockRegistry::default();
    let names: Vec<&str> = registry.texture_names().iter().map(|s| s.as_str()).collect();
    assert_eq!(
        names,
        vec!["bedrock", "water", "stone", "dirt", "sand", "grass_block_side", "grass_block_top"]
    );
    let indices = registry.block_texture_indices();
    assert_eq!(indices.len(), 7);
    assert_eq!(indices[0], None);
    assert_eq!(indices[1], Some(vec![0, 0, 0, 0, 0, 0]));
    assert_eq!(indices[6], Some(vec![5, 5, 5, 5, 6, 3]));
    let empty = BlockRegistry::empty();
    assert!(empty.all_blocks().is_empty());
    assert!(empty.texture_names().is_empty());
}

#[test]
fn default_resource_registry() {
    let registry = ResourceRegistry::default();
    assert_eq!(registry.resources().len(), 3);
    assert_eq!(registry.get_def(0).name, "Common");
    assert_eq!(registry.get_def(1).name, "Iron");
    assert_eq!(registry.get_def(2).resource, 2);
    assert!(ResourceRegistry::empty().resources().is_empty());
}

#[test]
fn inventory_counts() {
    let mut inventory = Inventory::new();
    assert_eq!(inventory.count(3), 0);
    inventory.add(3, 10);
    inventory.add(3, 5);
    inventory.add(4, 1);
    assert_eq!(inventory.count(3), 15);
    inventory.remove(3, 15);
    assert_eq!(inventory.count(3), 0);
    assert_eq!(inventory.blocks().len(), 2);
    inventory.remove(9, 0);
    assert_eq!(inventory.blocks().len(), 3);
}

#[test]
fn inventory_roundtrip() {
    let mut inventory = Inventory::new();
    inventory.add(0, 123);
    inventory.add(1, 54);
    inventory.add(4, 99);
    let mut buf = Vec::new();
    inventory.write_to(&mut buf).unwrap();
    assert_eq!(buf.len(), 4 + 3 * 8);
    assert_eq!(&buf[0..4], &[3, 0, 0, 0]);
    assert!(Inventory::check_decodable(&buf, 0));
    let (out, end) = Inventory::read_from(&buf, 0).unwrap();
    assert_eq!(end, buf.len());
    assert_eq!(out, inventory);
    // Entries for the same block add up
    let bytes = [2, 0, 0, 0, 7, 0, 0, 0, 1, 0, 0, 0, 7, 0, 0, 0, 2, 0, 0, 0];
    let (sum, _) = Inventory::read_from(&bytes, 0).unwrap();
    assert_eq!(sum.count(7), 3);
}

#[test]
fn world_paths_and_positions() {
    assert_eq!(WorldList::new().get_world_path(42), "worlds/world_42");
    assert_eq!(WorldList::new().get_world_path(0), "worlds/world_0");
    assert_eq!(WorldList::new().get_world_path(1907), "worlds/world_1907");
    assert_eq!(WorldList::new().get_world_path(u32::MAX), "worlds/world_4294967295");
    assert_eq!(WorldPos::new(1, 2, 3).dist_squared_from(&WorldPos::new(2, 4, 6)), 14);
    assert_eq!(WorldPos::zero(), WorldPos::new(0, 0, 0));
    assert!(GeneratorType::Flat != GeneratorType::Alien);
}

#[test]
fn pop_takes_each_element_once() {
    let mut set: HashSet<u32> = HashSet::new();
    set.insert(1);
    set.insert(2);
    set.insert(3);
    let mut seen = Vec::new();
    while let Some(e) = pop(&mut set) {
        seen.push(e);
    }
    seen.sort();
    assert_eq!(seen, vec![1, 2, 3]);
    assert!(set.is_empty());
    assert_eq!(pop(&mut set), None);
}

#[test]
fn label_text() {
    let label = Label::new("hello".to_string());
    assert_eq!(label.text(), "hello");
}
