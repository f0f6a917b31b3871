//! Merged readers over sorted runs.

pub mod merge;
