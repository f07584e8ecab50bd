//! Bounded-memory shuffler for files of fixed-size binary records.
//!
//! The input is a byte stream whose length is an exact multiple of the
//! record size. It is split into partitions, each partition is shuffled
//! in memory with a Fisher-Yates pass, and the partitions are then merged
//! back into one stream by repeatedly drawing from a partition with
//! probability proportional to its remaining record count. Every record
//! of the input appears exactly once in the output.

pub mod driver;
pub mod error;
pub mod layout;
pub mod merge;
pub mod records;
pub mod shuffle;
pub mod tempfiles;
pub mod rng;
