//! Peers, buckets and the routing table.

pub mod entry;
pub mod errors;
pub mod id;
pub mod kbucket;
pub mod order;
pub mod prober;
pub mod rank;
pub mod table;
