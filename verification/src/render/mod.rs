//! Meshing chunks: the visible faces of their blocks.

pub mod block_mesher;
pub mod worldmesher;
