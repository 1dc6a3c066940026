//! Helpers for debugging output.

pub mod tree_writer;
