//! Planning for a directory flattener.
//!
//! The library decides; it never touches a file system. A caller walks a
//! directory tree, hands the entries over as plain values, and receives the
//! list of relocations to perform and the order in which directories are to be
//! inspected for removal.
//!
//! A path is the list of its components below the root: a file directly in
//! the root has one component, a nested file has two or more.

pub mod collect;
pub mod failure;
pub mod filters;
pub mod flatten;
pub mod names;
pub mod plan;
pub mod prune;
