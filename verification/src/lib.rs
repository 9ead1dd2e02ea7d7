//! An in-memory snapshot of a hierarchical file tree, addressed by paths.
//!
//! [`file_system`] holds labels, paths and the labelled directory tree with
//! its merge; [`file_system::directory`] holds the directory built on the
//! keyed forest of [`tree`].

pub mod file_system;
pub mod tree;
