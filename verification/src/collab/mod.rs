//! Working on documents together.

pub mod access;
pub mod crdt;
pub mod law;
pub mod page_sync;
pub mod tree_sync;
