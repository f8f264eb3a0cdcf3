//! Per-command memory accounting from the `/proc` pseudo-filesystem.
//!
//! The crate holds the decisions of a memory reporter as functions on plain
//! values: which directory entries name a process, what a process is called,
//! what its memory figures are, and how the figures of equally named
//! processes are merged, ordered and totalled. Reading the pseudo-files is
//! left to the caller.

pub mod aggregate;
pub mod bytes;
pub mod compare;
pub mod digits;
pub mod identity;
pub mod layout;
pub mod lines;
pub mod merge;
pub mod names;
pub mod number;
pub mod pids;
pub mod smaps;
pub mod snapshot;
pub mod sort;
pub mod stat;
pub mod unique;
pub mod usage;
