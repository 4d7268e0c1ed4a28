//! World logic on the buffer of loaded chunks: light propagation.

pub mod light;
pub mod light_chunk;
pub mod light_column;
pub mod light_edit;
pub mod light_removal;
pub mod world_sum;
pub mod worldhandler;
pub mod world_builder;
