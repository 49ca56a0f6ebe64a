//! The render document: a mirror of the node tree that layout and painting
//! work on.
//!
//! The renderer owns its own tree. This module decides what that tree must
//! look like, which operations bring it there, and which node of the document
//! each of its nodes stands for.

pub mod agreement;
pub mod children;
pub mod document;
pub mod drawn;
pub mod ends;
pub mod finds;
pub mod finish;
pub mod forgets;
pub mod insertion;
pub mod lookup;
pub mod maps;
pub mod names;
pub mod plan;
pub mod render;
pub mod spots;
pub mod summary;
pub mod sync;
pub mod validate;
pub mod walks;
