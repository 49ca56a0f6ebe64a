//! Building documents from markup.

pub mod sink;
pub mod trees;
