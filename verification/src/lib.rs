//! Walks a directory tree, filters what it finds, and shows what is left as a tree.
//!
//! The walk itself is left to the caller. This library decides which entries of
//! a listing survive, searches file contents, assembles the surviving entries
//! into a tree, rolls sizes up, aligns and sorts the tree, and writes it out.

pub mod aggregate;
pub mod args;
pub mod arrange;
pub mod assemble;
pub mod dir;
pub mod export;
pub mod format;
pub mod ignorer;
pub mod legacy;
pub mod pattern;
pub mod render;
pub mod snippet;
pub mod sort;
pub mod tally;
pub mod tcolor;
pub mod text;
pub mod tree;
