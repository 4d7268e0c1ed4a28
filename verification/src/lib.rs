//! Core logic of a voxel block world: blocks and their flag and light bits,
//! chunks and the chunk buffer, light propagation, the byte protocol that
//! client and server exchange, and the registries and inventories of a game.

pub mod block;
pub mod chunk;
pub mod client_config;
pub mod comms;
pub mod in_game;
pub mod inventory;
pub mod label;
pub mod physics;
pub mod render;
pub mod resource;
pub mod start_game;
pub mod world;
pub mod world_definition;
pub mod world_pos;
pub mod world_type;
