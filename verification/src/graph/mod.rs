//! Flow charts and mind maps: nodes and edges, walks, export and layout.

pub mod cover;
pub mod cycle;
pub mod deep;
pub mod export;
pub mod index;
pub mod law;
pub mod layout;
pub mod model;
pub mod order;
pub mod store;
pub mod walk;
