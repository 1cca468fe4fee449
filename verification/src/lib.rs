//! Duplicate-file detection engine.
//!
//! Files are grouped by a normalized filename (copy suffixes such as " 2" or
//! " (1)" stripped) together with their byte size; candidate duplicates are
//! then confirmed or rejected by comparing 64-bit content hashes.

pub mod classify;
pub mod groups;
pub mod hashing;
pub mod record;
pub mod report;
