//! Core of an embedded log-structured merge-tree storage engine.
//!
//! Writes land in an in-memory multi-version table ordered by
//! `(key ascending, timestamp descending)`; flushes turn that table into
//! immutable columnar batches and level-0 sorted tables; compaction merges
//! overlapping runs into the next level while a version records which
//! tables exist at which level.

pub mod compaction;
pub mod entry;
pub mod key;
pub mod fs;
pub mod inmem;
pub mod ondisk;
pub mod option;
pub mod record;
pub mod scope;
pub mod wal;
pub mod stream;
pub mod version;

use vstd::prelude::*;

verus! {

/// Number of levels a version tracks; the top two never act as a
/// compaction source because there is no level to build into above them.
pub const MAX_LEVEL: usize = 7;

} // verus!
