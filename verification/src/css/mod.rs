//! Style rules, the cascade and what selector matching reads of an element.

pub mod ast;
pub mod cascade;
pub mod dom_styles;
pub mod languages;
pub mod selectors_impl;
pub mod winners;
