//! What the routing core shares with the network layer: its errors and
//! the one-byte tags of the remote calls.

pub mod errors;
pub mod rpc;
