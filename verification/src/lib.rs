//! Document model, custom elements and render mirroring of the Aurora browser engine.

pub mod blitz_document;
pub mod css;
pub mod dom;
pub mod fetch;
pub mod html;
pub mod js;
pub mod js_engine;
pub mod order;
pub mod text;
pub mod texts;
