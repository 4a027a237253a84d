//! The core of an archetype-based entity-component-system store.
//!
//! Entities are grouped by the set of component types that they hold.
//! Each group, an archetype, keeps one column of values per component
//! type, and an entity occupies the same row in every column. Values are
//! kept as bytes, component types are named by ids, and every operation
//! states in its contract what it does to the views of the store.

pub mod archetype;
pub mod bitset;
pub mod bundle;
pub mod command;
pub mod component;
pub mod entity;
pub mod event;
pub mod filter;
pub mod graph;
pub mod graph_spec;
pub mod hashing;
pub mod int_map;
pub mod iter;
pub mod laws;
pub mod moves;
pub mod query;
pub mod resource;
pub mod sparse_map;
pub mod storage;
pub mod system;
pub mod tracking;
pub mod util;
pub mod world;
