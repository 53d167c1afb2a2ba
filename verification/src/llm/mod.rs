//! Retrieval and the language model.

pub mod embed;
pub mod engine;
pub mod law;
pub mod rag;
pub mod retry;
pub mod unit;
