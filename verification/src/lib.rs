//! A Kademlia-style routing core: 256-bit identifiers, k-buckets and the
//! routing table that answers closest-peer queries.

use vstd::prelude::*;

pub mod math;
pub mod network;
pub mod node;
pub mod routing;
pub mod structures;

verus! {

/// How many peers a lookup asks for.
pub const ALPHA: usize = 4;

/// Capacity of the large buckets.
pub const KUSIZE: usize = 32;

/// The buckets up to this index hold `1 << index` entries.
pub const SMALL_BUCKET_COUNT: usize = 4;

/// One bucket per bit of an identifier.
pub const N_BUCKETS: usize = 256;

/// How far the distance is shifted right before the latency weighs on it.
pub const DISTANCE_WEIGHT_SHIFT: u32 = 10;

/// How many times a peer is probed before it is given up.
pub const PING_MAX_RETRY: usize = 3;

/// Deadline of one probe, and the latency at which the penalty saturates, in milliseconds.
pub const T_MAX_MS: u64 = 800;

/// Pause between two probes of the same peer, in milliseconds.
pub const PING_INTERVAL_MS: u64 = 200;

} // verus!
