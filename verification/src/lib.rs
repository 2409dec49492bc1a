//! Flattening of hierarchical data into an indented, connector-annotated list.
//!
//! The core is a depth-first walk driven through three pull operations
//! (descend to the first child, advance to the next sibling, ascend to the
//! next uncle) that builds an ordered sequence of (item, depth, connector)
//! records, retroactively correcting connectors already emitted once a later
//! sibling is discovered.

pub mod digits;
pub mod document_statistics;
pub mod dump;
pub mod explorer;
pub mod scene_tree;
pub mod spec_tree;
pub mod tree;
