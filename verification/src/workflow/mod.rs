//! Taking in sources, answering with write-back, and auditing.

pub mod audit;
pub mod ingest;
pub mod law;
pub mod lint;
pub mod query;
pub mod reply;
