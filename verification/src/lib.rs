//! Partitioning-and-placement engine for a one-shot, non-recursive
//! folder splitter.
//!
//! Given a flat snapshot of a directory's entries, the library decides how
//! to group them into buckets under a chosen policy (by count, by extension,
//! by cumulative size, or by a file timestamp), names the destination
//! subdirectories deterministically, and drives the transfer of each entry
//! into its bucket without ever losing or duplicating one.  All filesystem
//! access stays outside the library: callers hand in plain entry snapshots
//! and perform the actions the placement driver asks for.

pub mod assign;
pub mod date;
pub mod entry;
pub mod ext;
pub mod laws;
pub mod lex;
pub mod place;
pub mod sort;
pub mod text;
pub mod validate;
