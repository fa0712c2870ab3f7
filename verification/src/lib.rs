//! A simplified TCP-like protocol over UDP: the wire format of segments and
//! the decisions a connection takes on segments, user requests and timeouts.

pub mod segment;
pub mod connection;
pub mod handshake;
pub mod stream;
pub mod gate;
