//! Tables: columns, rows, views and the columns that a language model fills.

pub mod fill;
pub mod law;
pub mod model;
pub mod view;
