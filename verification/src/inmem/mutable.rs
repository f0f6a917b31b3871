//! The mutable table: an ordered multi-version map from
//! `(key, timestamp)` to an optional record, fed by `insert` and
//! `remove` and read at a chosen timestamp.
//!
//! Entries are held sorted by `(key ascending, timestamp descending)`,
//! so a point read is "first entry at or after `(key, read_ts)`". When
//! the write-ahead log is enabled every write is recorded there first,
//! and replaying the log rebuilds the table's content exactly.

use vstd::prelude::*;

use crate::entry::{
    entries_map, entries_sorted, lemma_entries_map_at, lemma_entries_map_dom,
    lemma_entries_map_insert, lemma_entries_map_update, lemma_sorted_unique, rows_view, Entry,
    EntryV, KeyBound, KeyBoundV,
};
use crate::fs::{generate_file_id, FileId};
use crate::key::{
    lemma_ts_key_eq, lemma_ts_key_le_lt_trans, lemma_ts_key_lt_le_trans, lemma_ts_key_lt_trans,
    ts_key_le, ts_key_lt, Timestamp, EPOCH,
};
use crate::option::{DbOption, TriggerType};
use crate::record::{
    key_of_val_spec, record_key_spec, record_matches_schema, record_size_spec, DynRecord,
    DynRecordV, DynSchema, DynVal,
};
use crate::wal::{replay_map, LogType, WalEntry, WalEntryV};

verus! {

/// The WAL of one mutable generation: its file id and what was appended.
pub struct WalState {
    pub file_id: FileId,
    pub log: Vec<WalEntry>,
}

/// Whether the trigger asks for a freeze after `len` appends amounting
/// to `size` bytes.
pub open spec fn trigger_exceeded_spec(t: TriggerType, len: nat, size: nat) -> bool {
    match t {
        TriggerType::Length(n) => len >= n,
        TriggerType::SizeOfMemory(n) => size >= n,
    }
}

/// Bytes one row accounts for under the memory trigger.
pub open spec fn entry_size_spec(e: EntryV) -> nat {
    (e.key.len() + 5 + match e.value {
        Some(r) => record_size_spec(r),
        None => 0,
    }) as nat
}

/// The mutable table.
pub struct Mutable {
    entries: Vec<Entry>,
    wal: Option<WalState>,
    trigger_type: TriggerType,
    appended: usize,
    size: usize,
    schema: DynSchema,
}

impl View for Mutable {
    type V = Seq<EntryV>;

    closed spec fn view(&self) -> Seq<EntryV> {
        rows_view(self.entries)
    }
}

impl Mutable {
    /// The table's content: each `(key, timestamp)` pair written, with
    /// the record written there (`None` for a removal).
    pub closed spec fn map_view(&self) -> Map<(Seq<u8>, Timestamp), Option<DynRecordV>> {
        entries_map(self@)
    }

    pub closed spec fn wal_log_view(&self) -> Option<Seq<WalEntryV>> {
        match self.wal {
            Some(w) => Some(w.log@.map_values(|e: WalEntry| e@)),
            None => None,
        }
    }

    pub closed spec fn wal_id_view(&self) -> Option<FileId> {
        match self.wal {
            Some(w) => Some(w.file_id),
            None => None,
        }
    }

    pub closed spec fn schema_view(&self) -> crate::record::DynSchemaV {
        self.schema@
    }

    pub closed spec fn trigger_ty(&self) -> TriggerType {
        self.trigger_type
    }

    pub closed spec fn appended_count(&self) -> nat {
        self.appended as nat
    }

    pub closed spec fn mem_size(&self) -> nat {
        self.size as nat
    }

    /// Entries sorted and unique, every row well formed and matching the
    /// schema.
    pub closed spec fn wf(&self) -> bool {
        &&& entries_sorted(self@)
        &&& forall|i: int| 0 <= i < self@.len() ==> (#[trigger] self@[i]).wf()
        &&& forall|i: int|
            0 <= i < self@.len() ==> match (#[trigger] self@[i]).value {
                Some(r) => record_matches_schema(r, self.schema@) && r.columns[
                    r.primary_key_index].val == self@[i].key_val,
                None => true,
            }
        &&& forall|i: int|
            0 <= i < self@.len() ==> crate::record::val_matches_type(
                (#[trigger] self@[i]).key_val,
                self.schema@.descs[self.schema@.primary_key_index].datatype,
            )
        &&& self.schema.wf()
    }

    /// The table's content is the map its rows spell out.
    pub proof fn lemma_map_view(&self)
        ensures
            self.map_view() == entries_map(self@),
    {
    }

    /// The log replays to the table's content. Holds from birth and is
    /// kept by every logged append; only an unlogged append on a table
    /// with a WAL can break it.
    pub open spec fn wal_consistent(&self) -> bool {
        match self.wal_log_view() {
            Some(log) => replay_map(log) == self.map_view(),
            None => true,
        }
    }

    /// A fresh table under `schema`; with `use_wal` it opens a log under
    /// a fresh file id.
    pub fn new(option: &DbOption, schema: DynSchema) -> (r: Mutable)
        requires
            schema.wf(),
        ensures
            r.wf(),
            r@.len() == 0,
            r.map_view() == Map::<(Seq<u8>, Timestamp), Option<DynRecordV>>::empty(),
            r.wal_log_view() is Some <==> option.use_wal,
            r.wal_consistent(),
            r.appended_count() == 0,
            r.mem_size() == 0,
            r.trigger_ty() == option.trigger_type,
            r.schema_view() == schema@,
    {
        let wal = if option.use_wal {
            Some(WalState { file_id: generate_file_id(), log: Vec::new() })
        } else {
            None
        };
        let r = Mutable {
            entries: Vec::new(),
            wal,
            trigger_type: option.trigger_type,
            appended: 0,
            size: 0,
            schema,
        };
        proof {
            assert(r@ =~= Seq::<EntryV>::empty());
            if r.wal_log_view() is Some {
                assert(r.wal_log_view()->Some_0 =~= Seq::<WalEntryV>::empty());
                assert(crate::wal::log_rows(r.wal_log_view()->Some_0) =~= Seq::<EntryV>::empty());
            }
        }
        r
    }

    /// Drop the table, handing back the WAL file id so the host can
    /// delete the file.
    pub fn destroy(self) -> (r: Option<FileId>)
        ensures
            r == self.wal_id_view(),
    {
        match self.wal {
            Some(w) => Some(w.file_id),
            None => None,
        }
    }

    pub fn is_empty(&self) -> (r: bool)
        ensures
            r == (self@.len() == 0),
    {
        self.entries.len() == 0
    }

    pub fn len(&self) -> (r: usize)
        ensures
            r == self@.len(),
    {
        self.entries.len()
    }

    /// The WAL state, for the host to persist.
    pub fn wal_state(&self) -> (r: &Option<WalState>)
        ensures
            match r {
                Some(w) => self.wal_log_view() == Some(
                    w.log@.map_values(|e: WalEntry| e@),
                ) && self.wal_id_view() == Some(w.file_id),
                None => self.wal_log_view() is None,
            },
    {
        &self.wal
    }
}

/// `min(a + b, usize::MAX)`.
fn sat_add(a: usize, b: usize) -> (r: usize)
    ensures
        r == if a + b <= usize::MAX {
            a + b
        } else {
            usize::MAX as int
        },
{
    if a <= usize::MAX - b {
        a + b
    } else {
        usize::MAX
    }
}

/// Whether `(k, t)` is at or past the lower end of a scan. An inclusive
/// bound starts at `(key, read_ts)`, an exclusive one just past
/// `(key, EPOCH)` — the last slot of that key.
pub open spec fn scan_lower_ok(b: KeyBoundV, read_ts: Timestamp, k: Seq<u8>, t: Timestamp) -> bool {
    match b {
        KeyBoundV::Included(v) => ts_key_le(key_of_val_spec(v), read_ts, k, t),
        KeyBoundV::Excluded(v) => ts_key_lt(key_of_val_spec(v), EPOCH, k, t),
        KeyBoundV::Unbounded => true,
    }
}

/// Whether `(k, t)` is at or before the upper end of a scan. An
/// inclusive bound ends at `(key, EPOCH)`, an exclusive one before
/// `(key, read_ts)`.
pub open spec fn scan_upper_ok(b: KeyBoundV, read_ts: Timestamp, k: Seq<u8>, t: Timestamp) -> bool {
    match b {
        KeyBoundV::Included(v) => ts_key_le(k, t, key_of_val_spec(v), EPOCH),
        KeyBoundV::Excluded(v) => ts_key_lt(k, t, key_of_val_spec(v), read_ts),
        KeyBoundV::Unbounded => true,
    }
}

impl Mutable {
    /// Append one write: the WAL first, when one is open and a log kind
    /// is given, then the ordered map, where a write of an existing
    /// `(key, timestamp)` replaces. Returns whether the freeze trigger
    /// is now exceeded.
    #[verifier::rlimit(100)]
    #[verifier::spinoff_prover]
    pub fn append(
        &mut self,
        log_ty: Option<LogType>,
        key_val: DynVal,
        ts: Timestamp,
        value: Option<DynRecord>,
    ) -> (r: bool)
        requires
            old(self).wf(),
            !key_val.is_null(),
            key_val.matches_type(
                old(self).schema_view().descs[old(self).schema_view().primary_key_index].datatype,
            ),
            match value {
                Some(rec) => rec.wf() && record_matches_schema(rec@, old(self).schema_view())
                    && rec@.columns[rec@.primary_key_index].val == key_val@,
                None => true,
            },
        ensures
            final(self).wf(),
            final(self).map_view() == old(self).map_view().insert(
                (key_of_val_spec(key_val@), ts),
                match value {
                    Some(rec) => Some(rec@),
                    None => None::<DynRecordV>,
                },
            ),
            final(self).schema_view() == old(self).schema_view(),
            final(self).trigger_ty() == old(self).trigger_ty(),
            final(self).wal_id_view() == old(self).wal_id_view(),
            final(self).wal_log_view() == match (old(self).wal_log_view(), log_ty) {
                (Some(log), Some(k)) => Some(
                    log.push(
                        WalEntryV {
                            log_ty: k,
                            row: EntryV {
                                key: key_of_val_spec(key_val@),
                                key_val: key_val@,
                                ts: ts,
                                value: match value {
                                    Some(rec) => Some(rec@),
                                    None => None::<DynRecordV>,
                                },
                            },
                        },
                    ),
                ),
                (Some(log), None) => Some(log),
                (None, _) => None::<Seq<WalEntryV>>,
            },
            (old(self).wal_consistent() && (log_ty is Some || old(self).wal_log_view() is None))
                ==> final(self).wal_consistent(),
            r == trigger_exceeded_spec(
                old(self).trigger_ty(),
                final(self).appended_count(),
                final(self).mem_size(),
            ),
            final(self).appended_count() == if old(self).appended_count() + 1 <= usize::MAX {
                old(self).appended_count() + 1
            } else {
                old(self).appended_count()
            },
    {
        let e = Entry::new(key_val, ts, value);
        let ghost old_log_view = self.wal_log_view();
        if let Some(k) = log_ty {
            let we = WalEntry { log_ty: k, row: e.clone() };
            match &mut self.wal {
                Some(w) => {
                    w.log.push(we);
                },
                None => {},
            }
        }
        proof {
            assert(rows_view(self.entries) == old(self)@);
            match (old_log_view, log_ty) {
                (Some(log), Some(k)) => {
                    assert(self.wal_log_view()->Some_0 =~= log.push(
                        WalEntryV { log_ty: k, row: e@ },
                    ));
                },
                _ => {},
            }
        }
        // Trigger accounting.
        let vsz = match &e.value {
            Some(rec) => rec.byte_size(),
            None => 0,
        };
        let esz = sat_add(sat_add(e.key.len(), 5), vsz);
        if self.appended < usize::MAX {
            self.appended = self.appended + 1;
        }
        self.size = sat_add(self.size, esz);
        let exceeded = match self.trigger_type {
            TriggerType::Length(n) => self.appended >= n,
            TriggerType::SizeOfMemory(n) => self.size >= n,
        };
        // The ordered insert.
        let ghost old_rows = rows_view(self.entries);
        let pos = lower_bound(&self.entries, &e.key, e.ts);
        let ghost ev = e@;
        proof {
            lemma_sorted_unique(old_rows);
        }
        if pos < self.entries.len() && crate::entry::entry_key_cmp(&self.entries[pos], &e.key, e.ts)
            == 0 {
            proof {
                assert(old_rows[pos as int] == self.entries@[pos as int]@);
                lemma_ts_key_eq(old_rows[pos as int].key, old_rows[pos as int].ts, ev.key, ev.ts);
            }
            self.entries.remove(pos);
            self.entries.insert(pos, e);
            proof {
                let new_rows = rows_view(self.entries);
                assert(new_rows =~= old_rows.update(pos as int, ev)) by {
                    assert forall|i: int| 0 <= i < new_rows.len() implies new_rows[i]
                        == old_rows.update(pos as int, ev)[i] by {
                        assert(new_rows[i] == self.entries@[i]@);
                        if i != pos {
                            assert(self.entries@[i] == old(self).entries@[i]);
                            assert(old_rows[i] == old(self).entries@[i]@);
                        }
                    }
                }
                lemma_entries_map_update(old_rows, pos as int, ev);
                assert(entries_sorted(new_rows)) by {
                    assert forall|i: int, j: int| 0 <= i < j < new_rows.len() implies ts_key_lt(
                        #[trigger] new_rows[i].key,
                        new_rows[i].ts,
                        #[trigger] new_rows[j].key,
                        new_rows[j].ts,
                    ) by {
                        assert(new_rows[i].key == old_rows[i].key && new_rows[i].ts
                            == old_rows[i].ts);
                        assert(new_rows[j].key == old_rows[j].key && new_rows[j].ts
                            == old_rows[j].ts);
                    }
                }
            }
        } else {
            proof {
                if pos < old_rows.len() {
                    assert(old_rows[pos as int] == self.entries@[pos as int]@);
                    lemma_ts_key_eq(
                        old_rows[pos as int].key,
                        old_rows[pos as int].ts,
                        ev.key,
                        ev.ts,
                    );
                    lemma_ts_key_eq(
                        ev.key,
                        ev.ts,
                        old_rows[pos as int].key,
                        old_rows[pos as int].ts,
                    );
                    crate::key::lemma_ts_key_total(
                        old_rows[pos as int].key,
                        old_rows[pos as int].ts,
                        ev.key,
                        ev.ts,
                    );
                    assert(ts_key_lt(ev.key, ev.ts, old_rows[pos as int].key, old_rows[
                        pos as int].ts));
                }
                assert forall|i: int| 0 <= i < old_rows.len() implies !(#[trigger] old_rows[i].key
                    == ev.key && old_rows[i].ts == ev.ts) by {
                    lemma_ts_key_eq(old_rows[i].key, old_rows[i].ts, ev.key, ev.ts);
                    if i < pos {
                    } else {
                        if i > pos {
                            lemma_ts_key_lt_trans(
                                ev.key,
                                ev.ts,
                                old_rows[pos as int].key,
                                old_rows[pos as int].ts,
                                old_rows[i].key,
                                old_rows[i].ts,
                            );
                        }
                    }
                }
            }
            self.entries.insert(pos, e);
            proof {
                let new_rows = rows_view(self.entries);
                assert(new_rows =~= old_rows.insert(pos as int, ev)) by {
                    assert forall|i: int| 0 <= i < new_rows.len() implies new_rows[i]
                        == old_rows.insert(pos as int, ev)[i] by {
                        assert(new_rows[i] == self.entries@[i]@);
                        if i < pos {
                            assert(self.entries@[i] == old(self).entries@[i]);
                            assert(old_rows[i] == old(self).entries@[i]@);
                        } else if i > pos {
                            assert(self.entries@[i] == old(self).entries@[i - 1]);
                            assert(old_rows[i - 1] == old(self).entries@[i - 1]@);
                        }
                    }
                }
                lemma_entries_map_insert(old_rows, pos as int, ev);
                assert(entries_sorted(rows_view(self.entries))) by {
                    let new_rows = rows_view(self.entries);
                    assert forall|i: int, j: int| 0 <= i < j < new_rows.len() implies ts_key_lt(
                        #[trigger] new_rows[i].key,
                        new_rows[i].ts,
                        #[trigger] new_rows[j].key,
                        new_rows[j].ts,
                    ) by {
                        if i == pos {
                            assert(new_rows[j] == old_rows[j - 1]);
                            if j - 1 > pos {
                                lemma_ts_key_lt_trans(
                                    ev.key,
                                    ev.ts,
                                    old_rows[pos as int].key,
                                    old_rows[pos as int].ts,
                                    old_rows[j - 1].key,
                                    old_rows[j - 1].ts,
                                );
                            }
                        } else if j == pos {
                            assert(new_rows[i] == old_rows[i]);
                        } else if i < pos && j > pos {
                            assert(new_rows[i] == old_rows[i]);
                            assert(new_rows[j] == old_rows[j - 1]);
                            if j - 1 == pos {
                                lemma_ts_key_lt_trans(
                                    old_rows[i].key,
                                    old_rows[i].ts,
                                    ev.key,
                                    ev.ts,
                                    old_rows[pos as int].key,
                                    old_rows[pos as int].ts,
                                );
                            }
                        }
                    }
                }
            }
        }
        proof {
            if old(self).wal_consistent() && (log_ty is Some || old(self).wal_log_view() is None) {
                match (old_log_view, log_ty) {
                    (Some(log), Some(k)) => {
                        crate::wal::lemma_replay_push(log, WalEntryV { log_ty: k, row: ev });
                    },
                    _ => {},
                }
            }
        }
        exceeded
    }

    /// Record a write of `record` at `ts`: its key is the record's
    /// primary-key cell.
    pub fn insert(&mut self, log_ty: LogType, record: DynRecord, ts: Timestamp) -> (r: bool)
        requires
            old(self).wf(),
            record.wf(),
            record_matches_schema(record@, old(self).schema_view()),
        ensures
            final(self).wf(),
            final(self).map_view() == old(self).map_view().insert(
                (record_key_spec(record@), ts),
                Some(record@),
            ),
            final(self).schema_view() == old(self).schema_view(),
            final(self).trigger_ty() == old(self).trigger_ty(),
            final(self).wal_id_view() == old(self).wal_id_view(),
            old(self).wal_consistent() ==> final(self).wal_consistent(),
            final(self).wal_log_view() is Some <==> old(self).wal_log_view() is Some,
            r == trigger_exceeded_spec(
                old(self).trigger_ty(),
                final(self).appended_count(),
                final(self).mem_size(),
            ),
    {
        let key_val = record.columns[record.primary_key_index].val.clone();
        self.append(Some(log_ty), key_val, ts, Some(record))
    }

    /// Record a removal of `key_val` at `ts`: a tombstone that shadows
    /// older values of the key.
    pub fn remove(&mut self, log_ty: LogType, key_val: DynVal, ts: Timestamp) -> (r: bool)
        requires
            old(self).wf(),
            !key_val.is_null(),
            key_val.matches_type(
                old(self).schema_view().descs[old(self).schema_view().primary_key_index].datatype,
            ),
        ensures
            final(self).wf(),
            final(self).map_view() == old(self).map_view().insert(
                (key_of_val_spec(key_val@), ts),
                None::<DynRecordV>,
            ),
            final(self).schema_view() == old(self).schema_view(),
            final(self).trigger_ty() == old(self).trigger_ty(),
            final(self).wal_id_view() == old(self).wal_id_view(),
            old(self).wal_consistent() ==> final(self).wal_consistent(),
            final(self).wal_log_view() is Some <==> old(self).wal_log_view() is Some,
            r == trigger_exceeded_spec(
                old(self).trigger_ty(),
                final(self).appended_count(),
                final(self).mem_size(),
            ),
    {
        self.append(Some(log_ty), key_val, ts, None)
    }

    /// The newest entry for `key` at or before `read_ts`: the MVCC point
    /// read. `None` means the key has no entry visible at `read_ts`.
    pub fn get(&self, key: &DynVal, read_ts: Timestamp) -> (r: Option<&Entry>)
        requires
            self.wf(),
            !key.is_null(),
        ensures
            match r {
                Some(e) => {
                    &&& e@.key == key_of_val_spec(key@)
                    &&& e@.ts <= read_ts
                    &&& self.map_view().dom().contains((key_of_val_spec(key@), e@.ts))
                    &&& self.map_view()[(key_of_val_spec(key@), e@.ts)] == e@.value
                    &&& forall|t: Timestamp|
                        #[trigger] self.map_view().dom().contains((key_of_val_spec(key@), t)) && t
                            <= read_ts ==> t <= e@.ts
                },
                None => forall|t: Timestamp|
                    t <= read_ts ==> !(#[trigger] self.map_view().dom().contains(
                        (key_of_val_spec(key@), t),
                    )),
            },
    {
        let kb = key.to_key_bytes();
        let ghost sv = self@;
        let pos = lower_bound(&self.entries, &kb, read_ts);
        proof {
            lemma_sorted_unique(sv);
        }
        if pos < self.entries.len() {
            let e = &self.entries[pos];
            proof {
                assert(sv[pos as int] == self.entries@[pos as int]@);
            }
            if crate::key::key_cmp(&e.key, &kb) == 0 {
                proof {
                    crate::key::lemma_key_cmp_eq(e@.key, kb@);
                    lemma_entries_map_at(sv, pos as int);
                    assert forall|t: Timestamp|
                        #[trigger] self.map_view().dom().contains((kb@, t)) && t
                            <= read_ts implies t <= e@.ts by {
                        lemma_entries_map_dom(sv, kb@, t);
                        let j = choose|j: int|
                            0 <= j < sv.len() && sv[j].key == kb@ && sv[j].ts == t;
                        if j < pos {
                            assert(ts_key_lt(sv[j].key, sv[j].ts, kb@, read_ts));
                            crate::key::lemma_key_cmp_eq(sv[j].key, kb@);
                        } else if j > pos {
                            assert(ts_key_lt(sv[pos as int].key, sv[pos as int].ts, sv[j].key, sv[
                                j].ts));
                            crate::key::lemma_key_cmp_eq(sv[pos as int].key, sv[j].key);
                        }
                    }
                }
                return Some(e);
            }
            proof {
                crate::key::lemma_key_cmp_eq(e@.key, kb@);
                assert forall|t: Timestamp| t <= read_ts implies !(
                #[trigger] self.map_view().dom().contains((kb@, t))) by {
                    if self.map_view().dom().contains((kb@, t)) {
                        lemma_entries_map_dom(sv, kb@, t);
                        let j = choose|j: int|
                            0 <= j < sv.len() && sv[j].key == kb@ && sv[j].ts == t;
                        if j < pos {
                            crate::key::lemma_key_cmp_eq(sv[j].key, kb@);
                        } else if j == pos {
                        } else {
                            // The probe and row `j` share the key, so the
                            // row between them does too.
                            assert(ts_key_le(kb@, read_ts, sv[pos as int].key, sv[pos as int].ts));
                            assert(ts_key_lt(sv[pos as int].key, sv[pos as int].ts, sv[j].key, sv[
                                j].ts));
                            crate::key::lemma_key_cmp_range(kb@, sv[pos as int].key);
                            crate::key::lemma_key_cmp_range(sv[pos as int].key, sv[j].key);
                            crate::key::lemma_key_cmp_antisym(sv[pos as int].key, sv[j].key);
                            crate::key::lemma_key_le_trans(sv[j].key, kb@, sv[pos as int].key);
                            crate::key::lemma_key_cmp_eq(sv[j].key, kb@);
                            crate::key::lemma_key_cmp_eq(kb@, sv[pos as int].key);
                            crate::key::lemma_key_total(kb@, sv[pos as int].key);
                            crate::key::lemma_key_le_lt_trans(
                                kb@,
                                sv[pos as int].key,
                                sv[j].key,
                            );
                            crate::key::lemma_key_lt_le_trans(
                                sv[pos as int].key,
                                sv[j].key,
                                kb@,
                            );
                            crate::key::lemma_key_lt_trans(
                                sv[pos as int].key,
                                kb@,
                                sv[pos as int].key,
                            );
                            crate::key::lemma_key_cmp_eq(
                                sv[pos as int].key,
                                sv[pos as int].key,
                            );
                        }
                    }
                }
            }
            return None;
        }
        proof {
            assert forall|t: Timestamp| t <= read_ts implies !(
            #[trigger] self.map_view().dom().contains((kb@, t))) by {
                if self.map_view().dom().contains((kb@, t)) {
                    lemma_entries_map_dom(sv, kb@, t);
                    let j = choose|j: int| 0 <= j < sv.len() && sv[j].key == kb@ && sv[j].ts == t;
                    crate::key::lemma_key_cmp_eq(sv[j].key, kb@);
                }
            }
        }
        None
    }

    /// Whether any entry for `key` is newer than `ts`; an optimistic
    /// commit at `ts` must abort when one is.
    pub fn check_conflict(&self, key: &DynVal, ts: Timestamp) -> (r: bool)
        requires
            self.wf(),
            !key.is_null(),
        ensures
            r == exists|t: Timestamp|
                #[trigger] self.map_view().dom().contains((key_of_val_spec(key@), t)) && t > ts,
    {
        let kb = key.to_key_bytes();
        let ghost sv = self@;
        let pos = lower_bound(&self.entries, &kb, Timestamp::MAX);
        proof {
            lemma_sorted_unique(sv);
        }
        if pos < self.entries.len() {
            let e = &self.entries[pos];
            proof {
                assert(sv[pos as int] == self.entries@[pos as int]@);
            }
            if crate::key::key_cmp(&e.key, &kb) == 0 && e.ts > ts {
                proof {
                    crate::key::lemma_key_cmp_eq(e@.key, kb@);
                    lemma_entries_map_at(sv, pos as int);
                    assert(self.map_view().dom().contains((kb@, e@.ts)) && e@.ts > ts);
                }
                return true;
            }
            proof {
                crate::key::lemma_key_cmp_eq(sv[pos as int].key, kb@);
                lemma_no_conflict(sv, pos as int, kb@, ts, self.map_view());
            }
            return false;
        }
        proof {
            assert forall|t: Timestamp| !(#[trigger] self.map_view().dom().contains((kb@, t))
                && t > ts) by {
                if self.map_view().dom().contains((kb@, t)) {
                    lemma_entries_map_dom(sv, kb@, t);
                    let j = choose|j: int| 0 <= j < sv.len() && sv[j].key == kb@ && sv[j].ts == t;
                    assert(ts_key_lt(sv[j].key, sv[j].ts, kb@, Timestamp::MAX));
                    crate::key::lemma_key_cmp_eq(sv[j].key, kb@);
                }
            }
        }
        false
    }

    /// Entries between the bounds, in table order. An inclusive lower
    /// bound starts at `(key, read_ts)` and an exclusive one after
    /// `(key, EPOCH)`; an inclusive upper bound ends at `(key, EPOCH)`
    /// and an exclusive one before `(key, read_ts)` — which, under the
    /// descending-timestamp order, clips only the boundary keys by the
    /// read timestamp.
    pub fn scan(&self, lower: &KeyBound, upper: &KeyBound, read_ts: Timestamp) -> (r: Vec<Entry>)
        requires
            self.wf(),
            lower.wf(),
            upper.wf(),
        ensures
            entries_sorted(rows_view(r)),
            forall|i: int|
                0 <= i < rows_view(r).len() ==> {
                    &&& scan_lower_ok(
                        lower@,
                        read_ts,
                        (#[trigger] rows_view(r)[i]).key,
                        rows_view(r)[i].ts,
                    )
                    &&& scan_upper_ok(upper@, read_ts, rows_view(r)[i].key, rows_view(r)[i].ts)
                    &&& self.map_view().dom().contains(
                        (rows_view(r)[i].key, rows_view(r)[i].ts),
                    )
                    &&& self.map_view()[(rows_view(r)[i].key, rows_view(r)[i].ts)] == rows_view(
                        r,
                    )[i].value
                },
            forall|j: int|
                0 <= j < self@.len() && scan_lower_ok(
                    lower@,
                    read_ts,
                    (#[trigger] self@[j]).key,
                    self@[j].ts,
                ) && scan_upper_ok(upper@, read_ts, self@[j].key, self@[j].ts) ==> exists|i: int|
                    0 <= i < rows_view(r).len() && #[trigger] rows_view(r)[i] == self@[j],
    {
        let ghost sv = self@;
        proof {
            lemma_sorted_unique(sv);
        }
        let start = match lower {
            KeyBound::Unbounded => 0,
            KeyBound::Included(v) => {
                let kb = v.to_key_bytes();
                lower_bound(&self.entries, &kb, read_ts)
            },
            KeyBound::Excluded(v) => {
                let kb = v.to_key_bytes();
                upper_bound(&self.entries, &kb, EPOCH)
            },
        };
        proof {
            assert forall|j: int| 0 <= j < start implies !scan_lower_ok(
                lower@,
                read_ts,
                (#[trigger] sv[j]).key,
                sv[j].ts,
            ) by {
                match lower@ {
                    KeyBoundV::Included(v) => {
                        crate::key::lemma_ts_key_antisym(
                            sv[j].key,
                            sv[j].ts,
                            key_of_val_spec(v),
                            read_ts,
                        );
                    },
                    KeyBoundV::Excluded(v) => {
                        crate::key::lemma_ts_key_antisym(
                            sv[j].key,
                            sv[j].ts,
                            key_of_val_spec(v),
                            EPOCH,
                        );
                    },
                    KeyBoundV::Unbounded => {},
                }
            }
            assert forall|j: int| start <= j < sv.len() implies scan_lower_ok(
                lower@,
                read_ts,
                (#[trigger] sv[j]).key,
                sv[j].ts,
            ) by {
                match lower@ {
                    KeyBoundV::Included(v) => {
                        if j > start {
                            lemma_ts_key_le_lt_trans(
                                key_of_val_spec(v),
                                read_ts,
                                sv[start as int].key,
                                sv[start as int].ts,
                                sv[j].key,
                                sv[j].ts,
                            );
                        }
                    },
                    KeyBoundV::Excluded(v) => {
                        if j > start {
                            lemma_ts_key_lt_trans(
                                key_of_val_spec(v),
                                EPOCH,
                                sv[start as int].key,
                                sv[start as int].ts,
                                sv[j].key,
                                sv[j].ts,
                            );
                        }
                    },
                    KeyBoundV::Unbounded => {},
                }
            }
        }
        let end = match upper {
            KeyBound::Unbounded => self.entries.len(),
            KeyBound::Included(v) => {
                let kb = v.to_key_bytes();
                upper_bound(&self.entries, &kb, EPOCH)
            },
            KeyBound::Excluded(v) => {
                let kb = v.to_key_bytes();
                lower_bound(&self.entries, &kb, read_ts)
            },
        };
        proof {
            assert forall|j: int| 0 <= j < end implies scan_upper_ok(
                upper@,
                read_ts,
                (#[trigger] sv[j]).key,
                sv[j].ts,
            ) by {
                match upper@ {
                    KeyBoundV::Included(v) => {},
                    KeyBoundV::Excluded(v) => {},
                    KeyBoundV::Unbounded => {},
                }
            }
            assert forall|j: int| end <= j < sv.len() implies !scan_upper_ok(
                upper@,
                read_ts,
                (#[trigger] sv[j]).key,
                sv[j].ts,
            ) by {
                match upper@ {
                    KeyBoundV::Included(v) => {
                        crate::key::lemma_ts_key_antisym(
                            key_of_val_spec(v),
                            EPOCH,
                            sv[j].key,
                            sv[j].ts,
                        );
                        if j > end {
                            lemma_ts_key_lt_le_trans(
                                key_of_val_spec(v),
                                EPOCH,
                                sv[end as int].key,
                                sv[end as int].ts,
                                sv[j].key,
                                sv[j].ts,
                            );
                        }
                    },
                    KeyBoundV::Excluded(v) => {
                        crate::key::lemma_ts_key_antisym(
                            key_of_val_spec(v),
                            read_ts,
                            sv[j].key,
                            sv[j].ts,
                        );
                        if j > end {
                            lemma_ts_key_le_lt_trans(
                                key_of_val_spec(v),
                                read_ts,
                                sv[end as int].key,
                                sv[end as int].ts,
                                sv[j].key,
                                sv[j].ts,
                            );
                        }
                    },
                    KeyBoundV::Unbounded => {},
                }
            }
        }
        let mut out: Vec<Entry> = Vec::new();
        let mut i: usize = start;
        while i < end
            invariant
                start <= i,
                end <= self.entries@.len(),
                i <= end || i == start,
                sv == self@,
                out@.len() == i - start,
                forall|t: int|
                    0 <= t < out@.len() ==> (#[trigger] out@[t])@ == sv[start + t],
            decreases self.entries@.len() - i,
        {
            proof {
                assert(sv[i as int] == self.entries@[i as int]@);
            }
            out.push(self.entries[i].clone());
            i = i + 1;
        }
        proof {
            let rv = rows_view(out);
            assert(rv.len() == out@.len());
            assert forall|t: int| 0 <= t < rv.len() implies rv[t] == sv[start + t] by {
                assert(rv[t] == out@[t]@);
            }
            assert forall|a: int, b: int| 0 <= a < b < rv.len() implies ts_key_lt(
                #[trigger] rv[a].key,
                rv[a].ts,
                #[trigger] rv[b].key,
                rv[b].ts,
            ) by {
                assert(rv[a] == sv[start + a]);
                assert(rv[b] == sv[start + b]);
            }
            assert forall|t: int| 0 <= t < rv.len() implies self.map_view().dom().contains(
                ((#[trigger] rv[t]).key, rv[t].ts),
            ) && self.map_view()[(rv[t].key, rv[t].ts)] == rv[t].value by {
                lemma_entries_map_at(sv, start + t);
            }
            assert forall|j: int|
                0 <= j < sv.len() && scan_lower_ok(
                    lower@,
                    read_ts,
                    (#[trigger] sv[j]).key,
                    sv[j].ts,
                ) && scan_upper_ok(upper@, read_ts, sv[j].key, sv[j].ts) implies exists|t: int|
                0 <= t < rv.len() && #[trigger] rv[t] == sv[j] by {
                assert(j >= start);
                assert(j < end);
                assert(rv[j - start] == sv[j]);
            }
        }
        out
    }

    /// Freeze the table: flush nothing more to the WAL, hand back its
    /// file id, and return the rows as an immutable columnar snapshot
    /// carrying exactly the table's entries.
    pub fn into_immutable(self) -> (r: (Option<FileId>, crate::inmem::immutable::Immutable))
        requires
            self.wf(),
        ensures
            r.1.wf(),
            r.1@ == self@,
            r.0 == self.wal_id_view(),
    {
        let Mutable { entries, wal, trigger_type: _, appended: _, size: _, schema } = self;
        let file_id = match wal {
            Some(w) => Some(w.file_id),
            None => None,
        };
        let ghost rows = rows_view(entries);
        let ghost schema_v = schema@;
        let mut b = crate::record::array::DynRecordImmutableArrays::builder(schema);
        proof {
            assert(crate::record::array::arrays_rows(b@) =~= rows.take(0));
        }
        let mut i: usize = 0;
        while i < entries.len()
            invariant
                i <= entries@.len(),
                rows == rows_view(entries),
                b.wf(),
                b.schema_view() == schema_v,
                crate::record::array::arrays_rows(b@) == rows.take(i as int),
                forall|j: int| 0 <= j < rows.len() ==> (#[trigger] rows[j]).wf(),
                forall|j: int|
                    0 <= j < rows.len() ==> match (#[trigger] rows[j]).value {
                        Some(r) => record_matches_schema(r, schema_v) && r.columns[
                            r.primary_key_index].val == rows[j].key_val,
                        None => true,
                    },
                forall|j: int|
                    0 <= j < rows.len() ==> crate::record::val_matches_type(
                        (#[trigger] rows[j]).key_val,
                        schema_v.descs[schema_v.primary_key_index].datatype,
                    ),
            decreases entries@.len() - i,
        {
            proof {
                assert(rows[i as int] == entries@[i as int]@);
            }
            b.push(entries[i].clone());
            proof {
                assert(rows.take(i + 1) =~= rows.take(i as int).push(rows[i as int]));
            }
            i = i + 1;
        }
        let arrays = b.finish();
        proof {
            assert(rows.take(entries@.len() as int) =~= rows);
        }
        let imm = crate::inmem::immutable::Immutable::new(entries, arrays);
        (file_id, imm)
    }

    /// Rebuild a table from a recovered log: its content is exactly what
    /// the log replays to.
    pub fn recover(option: &DbOption, schema: DynSchema, log: &Vec<WalEntry>) -> (r: Mutable)
        requires
            schema.wf(),
            forall|i: int|
                0 <= i < log@.len() ==> {
                    let row = (#[trigger] log@[i])@.row;
                    &&& row.wf()
                    &&& row.key_val == log@[i].row.key_val@
                    &&& match row.value {
                        Some(rec) => record_matches_schema(rec, schema@),
                        None => true,
                    }
                },
            forall|i: int|
                0 <= i < log@.len() ==> !((#[trigger] log@[i]).row.key_val@ is Null)
                    && log@[i].row.key_val.matches_type(
                    schema@.descs[schema@.primary_key_index].datatype,
                ),
            forall|i: int|
                0 <= i < log@.len() ==> match (#[trigger] log@[i]).row.value {
                    Some(rec) => rec.wf() && rec@.columns[rec@.primary_key_index].val == log@[
                        i].row.key_val@,
                    None => true,
                },
        ensures
            r.wf(),
            r.map_view() == replay_map(log@.map_values(|w: WalEntry| w@)),
            r.schema_view() == schema@,
    {
        let mut m = Mutable::new(option, schema);
        let ghost logv = log@.map_values(|w: WalEntry| w@);
        proof {
            assert(crate::wal::log_rows(logv.subrange(0, 0)) =~= Seq::<EntryV>::empty());
            assert(replay_map(logv.subrange(0, 0)) =~= m.map_view());
        }
        let mut i: usize = 0;
        while i < log.len()
            invariant
                i <= log@.len(),
                logv == log@.map_values(|w: WalEntry| w@),
                m.wf(),
                m.schema_view() == schema@,
                m.map_view() == replay_map(logv.subrange(0, i as int)),
                forall|j: int|
                    0 <= j < log@.len() ==> {
                        let row = (#[trigger] log@[j])@.row;
                        &&& row.wf()
                        &&& match row.value {
                            Some(rec) => record_matches_schema(rec, schema@),
                            None => true,
                        }
                    },
                forall|j: int|
                    0 <= j < log@.len() ==> !((#[trigger] log@[j]).row.key_val@ is Null)
                        && log@[j].row.key_val.matches_type(
                        schema@.descs[schema@.primary_key_index].datatype,
                    ),
                forall|j: int|
                    0 <= j < log@.len() ==> match (#[trigger] log@[j]).row.value {
                        Some(rec) => rec.wf() && rec@.columns[rec@.primary_key_index].val == log@[
                            j].row.key_val@,
                        None => true,
                    },
            decreases log@.len() - i,
        {
            let w = &log[i];
            let key_val = w.row.key_val.clone();
            let value = match &w.row.value {
                Some(rec) => Some(rec.clone()),
                None => None,
            };
            proof {
                assert(log@[i as int]@ == logv[i as int]);
            }
            let _ = m.append(None, key_val, w.row.ts, value);
            proof {
                let row = logv[i as int].row;
                assert(row.key == key_of_val_spec(row.key_val));
                assert(logv.subrange(0, i + 1) =~= logv.subrange(0, i as int).push(
                    logv[i as int],
                ));
                crate::wal::lemma_replay_push(logv.subrange(0, i as int), logv[i as int]);
            }
            i = i + 1;
        }
        proof {
            assert(logv.subrange(0, log@.len() as int) =~= logv);
        }
        m
    }
}

/// When the first entry at or past `(key, MAX)` is not a newer entry of
/// `key`, no entry of `key` is newer than `ts`.
proof fn lemma_no_conflict(
    sv: Seq<EntryV>,
    pos: int,
    kb: Seq<u8>,
    ts: Timestamp,
    m: Map<(Seq<u8>, Timestamp), Option<DynRecordV>>,
)
    requires
        entries_sorted(sv),
        m == entries_map(sv),
        0 <= pos < sv.len(),
        forall|j: int| 0 <= j < pos ==> ts_key_lt(#[trigger] sv[j].key, sv[j].ts, kb, Timestamp::MAX),
        ts_key_le(kb, Timestamp::MAX, sv[pos].key, sv[pos].ts),
        !(sv[pos].key == kb && sv[pos].ts > ts),
    ensures
        !exists|t: Timestamp| #[trigger] m.dom().contains((kb, t)) && t > ts,
{
    lemma_sorted_unique(sv);
    assert forall|t: Timestamp| !(#[trigger] m.dom().contains((kb, t)) && t > ts) by {
        if m.dom().contains((kb, t)) && t > ts {
            lemma_entries_map_dom(sv, kb, t);
            let j = choose|j: int| 0 <= j < sv.len() && sv[j].key == kb && sv[j].ts == t;
            if j < pos {
                crate::key::lemma_key_cmp_eq(sv[j].key, kb);
            } else if j == pos {
                if sv[pos].key == kb {
                    // Row pos is the newest entry of the key, yet it is
                    // not newer than ts; row j equals it.
                } else {
                    crate::key::lemma_key_cmp_eq(sv[j].key, kb);
                }
            } else {
                assert(ts_key_lt(sv[pos].key, sv[pos].ts, sv[j].key, sv[j].ts));
                if sv[pos].key == kb {
                    // Then row pos has the largest timestamp of the key,
                    // so t <= sv[pos].ts; since row pos is not newer than
                    // ts, neither is row j.
                    crate::key::lemma_key_cmp_eq(sv[pos].key, sv[j].key);
                    assert(sv[pos].ts >= sv[j].ts || sv[pos].key != sv[j].key);
                    assert(ts_key_le(kb, Timestamp::MAX, sv[pos].key, sv[pos].ts));
                    crate::key::lemma_key_cmp_eq(kb, sv[pos].key);
                    assert(sv[pos].ts <= Timestamp::MAX);
                    assert(sv[pos].ts <= ts);
                    assert(sv[j].ts <= sv[pos].ts);
                } else {
                    // The key of row pos sits strictly between two copies
                    // of kb in the order, so it equals kb: contradiction.
                    crate::key::lemma_key_cmp_eq(kb, sv[pos].key);
                    crate::key::lemma_key_cmp_eq(sv[pos].key, sv[j].key);
                    crate::key::lemma_key_cmp_antisym(kb, sv[pos].key);
                    crate::key::lemma_key_le_lt_trans(kb, sv[pos].key, sv[j].key);
                    crate::key::lemma_key_lt_le_trans(sv[pos].key, sv[j].key, kb);
                    crate::key::lemma_key_lt_trans(sv[pos].key, kb, sv[pos].key);
                    crate::key::lemma_key_cmp_eq(sv[pos].key, sv[pos].key);
                }
            }
        }
    }
}

/// First index whose entry is at or past `(key, ts)` in the
/// `(key ascending, timestamp descending)` order.
fn lower_bound(entries: &Vec<Entry>, key: &Vec<u8>, ts: Timestamp) -> (r: usize)
    requires
        entries_sorted(rows_view(*entries)),
    ensures
        r <= entries@.len(),
        forall|j: int|
            0 <= j < r ==> ts_key_lt(
                (#[trigger] rows_view(*entries)[j]).key,
                rows_view(*entries)[j].ts,
                key@,
                ts,
            ),
        r < entries@.len() ==> ts_key_le(
            key@,
            ts,
            rows_view(*entries)[r as int].key,
            rows_view(*entries)[r as int].ts,
        ),
{
    let ghost sv = rows_view(*entries);
    let mut lo: usize = 0;
    let mut hi: usize = entries.len();
    while lo < hi
        invariant
            lo <= hi <= sv.len(),
            sv == rows_view(*entries),
            entries_sorted(sv),
            forall|j: int| 0 <= j < lo ==> ts_key_lt(#[trigger] sv[j].key, sv[j].ts, key@, ts),
            forall|j: int| hi <= j < sv.len() ==> ts_key_le(key@, ts, #[trigger] sv[j].key, sv[j].ts),
        decreases hi - lo,
    {
        let mid = lo + (hi - lo) / 2;
        proof {
            assert(sv[mid as int] == entries@[mid as int]@);
        }
        let c = crate::entry::entry_key_cmp(&entries[mid], key, ts);
        if c < 0 {
            proof {
                assert forall|j: int| 0 <= j < mid + 1 implies ts_key_lt(
                    #[trigger] sv[j].key,
                    sv[j].ts,
                    key@,
                    ts,
                ) by {
                    if j < mid {
                        lemma_ts_key_lt_trans(
                            sv[j].key,
                            sv[j].ts,
                            sv[mid as int].key,
                            sv[mid as int].ts,
                            key@,
                            ts,
                        );
                    }
                }
            }
            lo = mid + 1;
        } else {
            proof {
                lemma_ts_key_eq(sv[mid as int].key, sv[mid as int].ts, key@, ts);
                crate::key::lemma_ts_key_total(sv[mid as int].key, sv[mid as int].ts, key@, ts);
                assert(ts_key_le(key@, ts, sv[mid as int].key, sv[mid as int].ts));
                assert forall|j: int| mid <= j < sv.len() implies ts_key_le(
                    key@,
                    ts,
                    #[trigger] sv[j].key,
                    sv[j].ts,
                ) by {
                    if j > mid {
                        lemma_ts_key_le_lt_trans(
                            key@,
                            ts,
                            sv[mid as int].key,
                            sv[mid as int].ts,
                            sv[j].key,
                            sv[j].ts,
                        );
                    }
                }
            }
            hi = mid;
        }
    }
    lo
}

/// First index whose entry is strictly past `(key, ts)`.
fn upper_bound(entries: &Vec<Entry>, key: &Vec<u8>, ts: Timestamp) -> (r: usize)
    requires
        entries_sorted(rows_view(*entries)),
    ensures
        r <= entries@.len(),
        forall|j: int|
            0 <= j < r ==> ts_key_le(
                (#[trigger] rows_view(*entries)[j]).key,
                rows_view(*entries)[j].ts,
                key@,
                ts,
            ),
        r < entries@.len() ==> ts_key_lt(
            key@,
            ts,
            rows_view(*entries)[r as int].key,
            rows_view(*entries)[r as int].ts,
        ),
{
    let ghost sv = rows_view(*entries);
    let mut lo: usize = 0;
    let mut hi: usize = entries.len();
    while lo < hi
        invariant
            lo <= hi <= sv.len(),
            sv == rows_view(*entries),
            entries_sorted(sv),
            forall|j: int| 0 <= j < lo ==> ts_key_le(#[trigger] sv[j].key, sv[j].ts, key@, ts),
            forall|j: int| hi <= j < sv.len() ==> ts_key_lt(key@, ts, #[trigger] sv[j].key, sv[j].ts),
        decreases hi - lo,
    {
        let mid = lo + (hi - lo) / 2;
        proof {
            assert(sv[mid as int] == entries@[mid as int]@);
        }
        let c = crate::entry::entry_key_cmp(&entries[mid], key, ts);
        if c <= 0 {
            proof {
                assert forall|j: int| 0 <= j < mid + 1 implies ts_key_le(
                    #[trigger] sv[j].key,
                    sv[j].ts,
                    key@,
                    ts,
                ) by {
                    if j < mid {
                        lemma_ts_key_lt_le_trans(
                            sv[j].key,
                            sv[j].ts,
                            sv[mid as int].key,
                            sv[mid as int].ts,
                            key@,
                            ts,
                        );
                    }
                }
            }
            lo = mid + 1;
        } else {
            proof {
                lemma_ts_key_eq(sv[mid as int].key, sv[mid as int].ts, key@, ts);
                crate::key::lemma_ts_key_total(sv[mid as int].key, sv[mid as int].ts, key@, ts);
                assert(ts_key_lt(key@, ts, sv[mid as int].key, sv[mid as int].ts));
                assert forall|j: int| mid <= j < sv.len() implies ts_key_lt(
                    key@,
                    ts,
                    #[trigger] sv[j].key,
                    sv[j].ts,
                ) by {
                    if j > mid {
                        lemma_ts_key_lt_le_trans(
                            key@,
                            ts,
                            sv[mid as int].key,
                            sv[mid as int].ts,
                            sv[j].key,
                            sv[j].ts,
                        );
                    }
                }
            }
            hi = mid;
        }
    }
    lo
}

} // verus!
