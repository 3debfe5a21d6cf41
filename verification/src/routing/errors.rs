//! Failures of the routing table and of its buckets.

use crate::network::errors::NetworkError;
use vstd::prelude::*;

verus! {

/// Why a peer could not be recorded.
#[derive(Debug, Clone, Copy, PartialEq, Eq, Structural)]
pub enum EntryError {
    PingTimeout,
    Unreachable,
}

/// Why a bucket refused an operation.
#[derive(Debug, Clone, Copy, PartialEq, Eq, Structural)]
pub enum BucketError {
    NodeNotFound,
}

/// Why the routing table refused an operation.
#[derive(Debug, Clone, Copy, PartialEq, Eq, Structural)]
pub enum RoutingError {
    SelfNode,
    BucketError(BucketError),
    NetworkError(NetworkError),
}

} // verus!
