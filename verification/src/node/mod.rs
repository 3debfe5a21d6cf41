//! What a node is built from.

pub mod builder;
