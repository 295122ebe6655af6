//! A small, local version-control engine: it records the line-level
//! differences between snapshots of a directory tree as a log of commits and
//! rebuilds any revision by replaying that log.
//!
//! The library reads no file. A snapshot is handed to it as a [`tree::FileTree`],
//! and the walk over a directory is run by [`utils::Walk`] one listing at a
//! time. [`align`] lays the lines of two texts side by side, [`patch`] reads
//! an edit script off such an alignment and applies it, [`commit`] records
//! what has changed between two snapshots, and [`repository`] keeps the log
//! and replays it. [`rcv`] and [`dirs`] hold the list of the repositories that
//! are known on a machine.

pub mod align;
pub mod commit;
pub mod dirs;
pub mod patch;
pub mod rcv;
pub mod repository;
pub mod seqs;
pub mod text;
pub mod tree;
pub mod utils;
