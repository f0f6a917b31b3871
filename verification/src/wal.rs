//! The write-ahead log, as the sequence of records appended to it.
//!
//! The codec that turns records into bytes is the host's; the library
//! holds the log as values and states what replaying it yields: the same
//! map of `(key, timestamp)` to record that the in-memory table holds.

use vstd::prelude::*;

use crate::entry::{entries_map, Entry, EntryV};
use crate::key::Timestamp;
use crate::record::DynRecordV;

verus! {

/// How a record was chunked across WAL entries; an oversize record is
/// split and reassembled on replay.
#[derive(Clone, Copy, Debug, PartialEq, Eq, Structural)]
pub enum LogType {
    Full,
    FirstChunk,
    MiddleChunk,
    LastChunk,
}

/// One WAL record: the log kind and the row it carries.
#[derive(Debug)]
pub struct WalEntry {
    pub log_ty: LogType,
    pub row: Entry,
}

pub struct WalEntryV {
    pub log_ty: LogType,
    pub row: EntryV,
}

impl View for WalEntry {
    type V = WalEntryV;

    open spec fn view(&self) -> WalEntryV {
        WalEntryV { log_ty: self.log_ty, row: self.row@ }
    }
}

impl Clone for WalEntry {
    fn clone(&self) -> (res: Self)
        ensures
            res@ == self@,
    {
        WalEntry { log_ty: self.log_ty, row: self.row.clone() }
    }
}

/// The rows a log carries, in append order.
pub open spec fn log_rows(log: Seq<WalEntryV>) -> Seq<EntryV> {
    log.map_values(|w: WalEntryV| w.row)
}

/// What replaying a log yields: each row inserted in order, a later
/// write of the same `(key, timestamp)` replacing the earlier.
pub open spec fn replay_map(log: Seq<WalEntryV>) -> Map<
    (Seq<u8>, Timestamp),
    Option<DynRecordV>,
> {
    entries_map(log_rows(log))
}

/// Appending to the log inserts the appended row into its replay.
pub proof fn lemma_replay_push(log: Seq<WalEntryV>, w: WalEntryV)
    ensures
        replay_map(log.push(w)) == replay_map(log).insert((w.row.key, w.row.ts), w.row.value),
{
    assert(log_rows(log.push(w)).drop_last() =~= log_rows(log));
    assert(log_rows(log.push(w)).last() == w.row);
    assert(entries_map(log_rows(log.push(w))) == entries_map(log_rows(log)).insert(
        (w.row.key, w.row.ts),
        w.row.value,
    ));
}

} // verus!
