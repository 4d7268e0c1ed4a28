//! The wire protocol between clients and the server: little-endian primitives,
//! run-length encoded block data, and the messages each side sends.

pub mod messages;
pub mod rle;
pub mod wire;

use vstd::prelude::*;

verus! {

pub const DEFAULT_TCP_PORT: u32 = 34254;

/// Why reading or sending a message failed.
#[derive(PartialEq, Eq, Structural, Debug, Copy, Clone)]
pub enum CommsError {
    /// The connection ended, or the bytes ran out before the message did.
    Disconnected,
    /// The bytes are not a message of the protocol.
    ProtocolError,
}

impl CommsError {
    /// A short description of the error.
    pub fn describe(&self) -> (r: &'static str)
        ensures
            self == CommsError::Disconnected ==> r@ == "Disconnected"@,
            self == CommsError::ProtocolError ==> r@ == "Protocol error"@,
    {
        match self {
            CommsError::Disconnected => "Disconnected",
            CommsError::ProtocolError => "Protocol error",
        }
    }
}

} // verus!
