//! Pages: documents whose source is Markdown, as lists of blocks.

pub mod block;
pub mod doc;
pub mod edit;
pub mod law;
pub mod markdown;
pub mod reach;
pub mod registry;
pub mod source;
pub mod space;
pub mod validate;
