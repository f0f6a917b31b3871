//! On-disk sorted tables.

pub mod sstable;
