//! Finds groups of byte-identical files among the regular files of one or
//! more directory trees.
//!
//! The library holds the decisions of the search: which roots to scan, what
//! to do with each entry met on the way, which records are hard links of one
//! another, and which records form a group of duplicates. Touching the file
//! system is left to the caller, who reports what it found as plain values.

pub mod error;
pub mod record;
pub mod group;
pub mod scope;
pub mod walk;
pub mod links;
pub mod size;
pub mod digest;
