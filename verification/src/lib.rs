//! Dependency mapper for C/C++ source trees.
//!
//! The crate builds a directed graph of textual inclusion relations between
//! the files of a project, keeps a table of content digests that ignores
//! comment-only edits in header files, and answers reverse-reachability
//! queries: given a set of changed files, which translation units must be
//! rebuilt.
//!
//! All path and file content values are byte strings (`Vec<u8>`); reading
//! directories and files from disk is left to the embedding program, which
//! hands the library plain values.

pub mod digest;
pub mod dot;
pub mod graph;
pub mod impact;
pub mod laws;
pub mod order;
pub mod parse;
pub mod relevant;
pub mod resolve;
pub mod scan;
pub mod serial;
pub mod strip;
