//! Plans and schedules collision-free batch renames of the files found in
//! the leaf directories of a tree.
//!
//! Every matched file gets a new name derived from the last two segments of
//! its directory and a sequential index. A rename runs in two passes, first
//! to a reserved staging name and then to the final name, so that a final
//! name that is still taken by another file of the batch is never
//! overwritten.

pub mod args;
pub mod guarantees;
pub mod listing;
pub mod names;
pub mod order;
pub mod print;
pub mod protocol;
pub mod state;
pub mod text;
