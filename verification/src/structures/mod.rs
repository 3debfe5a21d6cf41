//! Small containers and array algorithms used to rank peers.

pub mod array;
pub mod select;
pub mod vecdeque;
