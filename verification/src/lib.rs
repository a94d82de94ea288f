//! Builds a forest of procedure files and the symbols they define.
//!
//! A procedure file defines symbols and pulls in other procedure files by
//! name. [`builder::ForestBuilder`] walks a list of such files and gathers,
//! under one root, a tree for each of them; the caller reads the files it asks
//! for. [`query::render_subtree`] writes out one of those trees.

pub mod builder;
pub mod error;
pub mod order;
pub mod node;
pub mod pattern;
pub mod query;
