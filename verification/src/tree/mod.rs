//! Documents as trees of blocks, changed by operations.

pub mod block;
pub mod doc;
pub mod edit;
pub mod history;
pub mod law;
pub mod space;
