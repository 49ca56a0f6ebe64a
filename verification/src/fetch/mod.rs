//! Fetching of resources.

pub mod http;
pub mod requests;
