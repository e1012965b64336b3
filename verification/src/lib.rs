//! An in-memory property-graph store.
//!
//! The store holds labeled nodes and labeled directed relationships, each
//! keyed by a caller-supplied `u32` identifier and carrying a string-keyed
//! property map. It answers point lookups, adjacency queries, and
//! property-equality scans. A small command parser turns one-line text
//! commands into store operations for a surrounding interactive shell.

pub mod parser;
pub mod props;
pub mod store;
pub mod text;

pub use props::PropertyMap;
pub use store::{GraphDatabase, Node, Relationship};
