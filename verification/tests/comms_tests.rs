use yab_world::chunk::ChunkColumnPos;
use yab_world::comms::messages::{
    client_message_decodable, server_message_decodable, ClientMessage, ServerMessage,
};
use yab_world::comms::rle::{rle_check, rle_decode_from, rle_encode_to};
use yab_world::comms::wire::{
    check_str_valid, read_i16, read_string, read_u16, read_u32, read_u8, write_i16, write_string,
    write_u16, write_u32, write_u8,
};
use yab_world::comms::CommsError;
use yab_world::inventory::Inventory;
use yab_world::block::blockregistry::BlockRegistry;
use yab_world::resource::ResourceRegistry;
use serde_json::Value;

/// The default block registry as JSON, each definition an object of its fields.
fn default_block_registry_json() -> String {
    let blocks: Vec<Value> = BlockRegistry::default()
        .all_blocks()
        .iter()
        .map(|b| {
            let mut m = serde_json::Map::new();
            m.insert("code".to_string(), Value::from(b.code.clone()));
            m.insert("name".to_string(), Value::from(b.name.clone()));
            m.insert("textures".to_string(), Value::from(b.textures.clone()));
            m.insert("solid".to_string(), Value::from(b.solid));
            m.insert("transparent".to_string(), Value::from(b.transparent));
            m.insert("buildable".to_string(), Value::from(b.buildable));
            m.insert("light".to_string(), Value::from(b.light));
            Value::Object(m)
        })
        .collect();
    Value::Array(blocks).to_string()
}

/// The default resource registry as JSON: its resources keyed by number.
fn default_resource_registry_json() -> String {
    let mut resources = serde_json::Map::new();
    for (resource, def) in ResourceRegistry::default().resources() {
        let mut m = serde_json::Map::new();
        m.insert("resource".to_string(), Value::from(def.resource));
        m.insert("name".to_string(), Value::from(def.name.clone()));
        resources.insert(resource.to_string(), Value::Object(m));
    }
    let mut registry = serde_json::Map::new();
    registry.insert("resources".to_string(), Value::Object(resources));
    Value::Object(registry).to_string()
}

// Serialize and deserialize a message and compare the result with the message
fn test_client(message: ClientMessage) {
    let mut buf: Vec<u8> = Vec::new();
    message.clone().serialize_into_writer(&mut buf).unwrap();
    assert!(client_message_decodable(buf.as_slice()));
    let (message_out, used) = ClientMessage::deserialize_from_reader(buf.as_slice()).unwrap();
    assert_eq!(used, buf.len());
    assert_eq!(message, message_out);
}

fn test_server(message: ServerMessage) {
    let mut buf: Vec<u8> = Vec::new();
    message.serialize_into_writer(&mut buf).unwrap();
    assert!(server_message_decodable(buf.as_slice()));
    let (message_out, used) = ServerMessage::deserialize_from_reader(buf.as_slice()).unwrap();
    assert_eq!(used, buf.len());
    assert_eq!(message, message_out);
}

#[test]
fn sign_in() {
    test_client(ClientMessage::SignIn {
        username: "my user".to_string(),
    });
}

#[test]
fn sign_out() {
    test_client(ClientMessage::SignOut {});
}

#[test]
fn messages_position_update() {
    test_client(ClientMessage::PositionUpdate {
        x: 123.0f32.to_bits(),
        y: 456.0f32.to_bits(),
        z: 789.0f32.to_bits(),
        yaw: 1.23f32.to_bits(),
        pitch: 5.67f32.to_bits(),
    });
    test_server(ServerMessage::PositionUpdate {
        x: 123.0f32.to_bits(),
        y: 456.0f32.to_bits(),
        z: (-789.0f32).to_bits(),
        yaw: 1.434f32.to_bits(),
        pitch: 4.552f32.to_bits(),
        player_id: 5,
    });
}

#[test]
fn subscribe() {
    let mut columns = Vec::new();
    for i in 0..100 {
        columns.push(ChunkColumnPos {
            x: -5 + i,
            y: 5 - i,
        });
    }
    test_client(ClientMessage::Subscribe { columns });
}

#[test]
fn unsubscribe() {
    let mut columns = Vec::new();
    for i in 0..100 {
        columns.push(ChunkColumnPos {
            x: -5 + i,
            y: 5 - i,
        });
    }
    test_client(ClientMessage::Unsubscribe { columns });
}

#[test]
fn messages_set_block() {
    test_client(ClientMessage::SetBlock {
        wbx: 123,
        wby: -456,
        wbz: 5,
        block: 9,
    });
    test_server(ServerMessage::SetBlock {
        wbx: 123,
        wby: -456,
        wbz: 5,
        block: 9,
    });
}

#[test]
fn sign_in_confirm() {
    let mut inventory = Inventory::new();
    inventory.add(0, 123);
    inventory.add(1, 54);
    inventory.add(4, 99);
    test_server(ServerMessage::SignInConfirm {
        player_id: 3,
        x: 123.0f32.to_bits(),
        y: 456.0f32.to_bits(),
        z: (-891.0f32).to_bits(),
        yaw: 1.23f32.to_bits(),
        pitch: (-1.234f32).to_bits(),
        inventory,
        gametime: 1.23f32.to_bits(),
        block_registry: default_block_registry_json(),
        resource_registry: default_resource_registry_json(),
    });
}

#[test]
fn chunk() {
    let mut block_data = Vec::new();
    for _ in 0..64 {
        let mut blocks = Vec::new();
        blocks.push(1);
        block_data.push(blocks);
    }
    test_server(ServerMessage::ChunkColumn {
        col: ChunkColumnPos::new(1, 2),
        block_data,
    });
}

#[test]
fn player_spawn() {
    test_server(ServerMessage::PlayerSpawn {
        x: 123.0f32.to_bits(),
        y: 456.0f32.to_bits(),
        z: (-789.0f32).to_bits(),
        yaw: 1.23f32.to_bits(),
        pitch: 3.434f32.to_bits(),
        player_id: 5,
        username: String::from("other user"),
    });
}

#[test]
fn player_despawn() {
    test_server(ServerMessage::PlayerDespawn { player_id: 123 });
}

#[test]
fn set_block_bytes() {
    let mut buf = Vec::new();
    ClientMessage::SetBlock { wbx: 123, wby: -456, wbz: 5, block: 9 }
        .serialize_into_writer(&mut buf)
        .unwrap();
    assert_eq!(buf, vec![5, 123, 0, 0x38, 0xFE, 5, 0, 9, 0, 0, 0]);
    let mut buf = Vec::new();
    ClientMessage::SignIn { username: "ab".to_string() }.serialize_into_writer(&mut buf).unwrap();
    assert_eq!(buf, vec![0, 2, 0, b'a', b'b']);
}

#[test]
fn bad_messages() {
    assert_eq!(
        ClientMessage::deserialize_from_reader(&[9]).unwrap_err(),
        CommsError::ProtocolError
    );
    assert_eq!(
        ClientMessage::deserialize_from_reader(&[]).unwrap_err(),
        CommsError::Disconnected
    );
    assert_eq!(
        ClientMessage::deserialize_from_reader(&[2, 1, 2, 3]).unwrap_err(),
        CommsError::Disconnected
    );
    assert_eq!(
        ServerMessage::deserialize_from_reader(&[6]).unwrap_err(),
        CommsError::ProtocolError
    );
    assert_eq!(
        ServerMessage::deserialize_from_reader(&[3]).unwrap_err(),
        CommsError::Disconnected
    );
    // A truncated column message
    assert_eq!(
        ServerMessage::deserialize_from_reader(&[0, 1, 0, 2, 0, 1, 0]).unwrap_err(),
        CommsError::Disconnected
    );
    assert_eq!(CommsError::Disconnected.describe(), "Disconnected");
    assert_eq!(CommsError::ProtocolError.describe(), "Protocol error");
}

#[test]
fn undecodable_messages() {
    // A username that is not UTF-8
    assert!(!client_message_decodable(&[0, 2, 0, 0xFF, 0xFE]));
    assert!(client_message_decodable(&[0, 2, 0, b'o', b'k']));
    // The same column twice in an unsubscription
    assert!(!client_message_decodable(&[4, 2, 0, 1, 0, 2, 0, 1, 0, 2, 0]));
    assert!(client_message_decodable(&[4, 2, 0, 1, 0, 2, 0, 2, 0, 1, 0]));
    // Inventory counts that overflow when added
    let mut bytes = vec![5u8];
    bytes.extend_from_slice(&[0u8; 21]);
    bytes.extend_from_slice(&[2, 0, 0, 0]);
    bytes.extend_from_slice(&[1, 0, 0, 0, 0xFF, 0xFF, 0xFF, 0xFF]);
    bytes.extend_from_slice(&[1, 0, 0, 0, 1, 0, 0, 0]);
    assert!(!server_message_decodable(&bytes));
}

#[test]
fn wire_primitives() {
    let mut buf = Vec::new();
    write_u8(&mut buf, 7);
    write_u16(&mut buf, 0x1234);
    write_i16(&mut buf, -2);
    write_u32(&mut buf, 0x01020304);
    write_string(&mut buf, &"héllo".to_string());
    assert_eq!(&buf[0..9], &[7, 0x34, 0x12, 0xFE, 0xFF, 4, 3, 2, 1]);
    assert_eq!(&buf[9..11], &[6, 0]);
    assert_eq!(read_u8(&buf, 0).unwrap(), (7, 1));
    assert_eq!(read_u16(&buf, 1).unwrap(), (0x1234, 3));
    assert_eq!(read_i16(&buf, 3).unwrap(), (-2, 5));
    assert_eq!(read_u32(&buf, 5).unwrap(), (0x01020304, 9));
    assert!(check_str_valid(&buf, 9));
    let (s, end) = read_string(&buf, 9).unwrap();
    assert_eq!(s, "héllo");
    assert_eq!(end, buf.len());
    assert_eq!(read_u32(&buf, 15).unwrap_err(), CommsError::Disconnected);
}

#[test]
fn rle_roundtrip() {
    let blocks: Vec<u32> = vec![7, 7, 7, 2];
    let mut buf = Vec::new();
    rle_encode_to(&blocks, &mut buf).unwrap();
    assert_eq!(buf, vec![4, 0, 3, 0, 7, 0, 0, 0, 1, 0, 2, 0, 0, 0]);
    assert!(rle_check(&buf, 0));
    let (out, end) = rle_decode_from(&buf, 0).unwrap();
    assert_eq!(out, blocks);
    assert_eq!(end, buf.len());

    let solid: Vec<u32> = vec![5];
    let mut buf = Vec::new();
    rle_encode_to(&solid, &mut buf).unwrap();
    assert_eq!(buf, vec![1, 0, 5, 0, 0, 0]);
    assert_eq!(rle_decode_from(&buf, 0).unwrap(), (solid, 6));

    let mut many: Vec<u32> = Vec::new();
    for i in 0..4096u32 {
        many.push(i / 100);
    }
    let mut buf = Vec::new();
    rle_encode_to(&many, &mut buf).unwrap();
    assert_eq!(buf.len(), 2 + 41 * 6);
    assert_eq!(rle_decode_from(&buf, 0).unwrap().0, many);
}

#[test]
fn rle_bad_input() {
    // No blocks at all
    assert!(!rle_check(&[0, 0], 0));
    // Runs that add up to more than the count
    assert!(!rle_check(&[2, 0, 3, 0, 1, 0, 0, 0], 0));
    // Runs cut short
    assert!(rle_check(&[3, 0, 1, 0, 1, 0], 0));
    assert_eq!(rle_decode_from(&[3, 0, 1, 0, 1, 0], 0).unwrap_err(), CommsError::Disconnected);
}

#[test]
fn messages_that_fit_the_encoding() {
    assert!(ClientMessage::SignIn { username: "Player".to_string() }.fits());
    assert!(!ClientMessage::SignIn { username: "é".repeat(40000) }.fits());
    assert!(ClientMessage::SignIn { username: "e".repeat(65534) }.fits());
    assert!(!ClientMessage::Subscribe { columns: vec![ChunkColumnPos::new(0, 0); 65535] }.fits());
    assert!(ClientMessage::SignOut {}.fits());
    let column = |n: usize, len: usize| ServerMessage::ChunkColumn {
        col: ChunkColumnPos::new(1, 2),
        block_data: (0..n).map(|_| vec![0u8; len]).collect(),
    };
    assert!(column(64, 6).fits());
    assert!(!column(63, 6).fits());
    assert!(!column(64, 65535).fits());
    assert!(ServerMessage::PlayerDespawn { player_id: 3 }.fits());
    assert!(!ServerMessage::PlayerSpawn {
        x: 0,
        y: 0,
        z: 0,
        yaw: 0,
        pitch: 0,
        player_id: 1,
        username: "x".repeat(70000),
    }
    .fits());
}
