//! The script-facing side of the document: tree mutation, queries and custom
//! elements.

pub mod acyclic;
pub mod base64;
pub mod clone;
pub mod contexts;
pub mod custom_elements;
pub mod dispatch;
pub mod effects;
pub mod element_names;
pub mod ends;
pub mod forms;
pub mod lifecycle;
pub mod lists;
pub mod matches;
pub mod moves;
pub mod mutation;
pub mod neighbours;
pub mod network;
pub mod nodes;
pub mod places;
pub mod placements;
pub mod placing;
pub mod query;
pub mod reactions;
pub mod registry;
pub mod rounds;
pub mod scripts;
pub mod searches;
pub mod storage;
pub mod timers;
pub mod visits;
pub mod wrapper;
