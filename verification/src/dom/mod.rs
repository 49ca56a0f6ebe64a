//! The document object model.

pub mod attributes;
pub mod composition;
pub mod display;
pub mod hosts;
pub mod kept;
pub mod layers;
pub mod node;
pub mod routes;
pub mod shadow;
pub mod svg;
pub mod walks;
pub mod written;
