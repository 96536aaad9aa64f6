//! Snapshot-based change detection for a directory tree.
//!
//! The library classifies an in-memory picture of a directory tree into
//! hashable entries and empty-directory leaves, fingerprints file contents,
//! persists the result as a path-sorted snapshot, and reports the symmetric
//! difference against the most recent prior snapshot.

pub mod bytes;
pub mod diff;
pub mod hash;
pub mod scan;
pub mod store;
