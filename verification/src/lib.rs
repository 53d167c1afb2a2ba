//! A verified wiki engine: block trees, pages, tables, graphs, access control,
//! retrieval plumbing and the workflow decisions built on top of them.

pub mod assoc;
pub mod collab;
pub mod config;
pub mod error;
pub mod float;
pub mod graph;
pub mod ids;
pub mod json;
pub mod json_law;
pub mod llm;
pub mod memory;
pub mod memory_law;
pub mod page;
pub mod seqs;
pub mod sort;
pub mod storage;
pub mod table;
pub mod text;
pub mod text_law;
pub mod time;
pub mod tree;
pub mod workflow;
