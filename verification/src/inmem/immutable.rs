//! The immutable snapshot of a mutable table: the same sorted rows,
//! kept both as rows (for scans and merges) and as a columnar batch
//! (for the on-disk writer), with the two forms proved equal.

use vstd::prelude::*;

use crate::entry::{entries_sorted, rows_view, Entry, EntryV, project_entry};
use crate::record::array::{arrays_rows, arrays_wf, DynRecordImmutableArrays};
use crate::record::{DynRecord, ProjectionMask};

verus! {

/// A frozen table: row form and columnar form of the same data.
pub struct Immutable {
    entries: Vec<Entry>,
    arrays: DynRecordImmutableArrays,
}

impl View for Immutable {
    type V = Seq<EntryV>;

    closed spec fn view(&self) -> Seq<EntryV> {
        rows_view(self.entries)
    }
}

impl Immutable {
    /// Sorted rows, and a columnar batch that reads back as exactly
    /// those rows.
    pub closed spec fn wf(&self) -> bool {
        &&& entries_sorted(self@)
        &&& arrays_wf(self.arrays@)
        &&& arrays_rows(self.arrays@) == self@
    }

    /// Wrap rows and their columnar form; the two must agree.
    pub fn new(entries: Vec<Entry>, arrays: DynRecordImmutableArrays) -> (r: Immutable)
        requires
            entries_sorted(rows_view(entries)),
            arrays_wf(arrays@),
            arrays_rows(arrays@) == rows_view(entries),
        ensures
            r.wf(),
            r@ == rows_view(entries),
    {
        Immutable { entries, arrays }
    }

    pub fn len(&self) -> (r: usize)
        ensures
            r == self@.len(),
    {
        self.entries.len()
    }

    /// A well-formed snapshot's rows are sorted.
    pub proof fn lemma_wf_sorted(&self)
        requires
            self.wf(),
        ensures
            entries_sorted(self@),
    {
    }

    /// The rows, for scans and merges.
    pub fn entries(&self) -> (r: &Vec<Entry>)
        ensures
            rows_view(*r) == self@,
    {
        &self.entries
    }

    /// The columnar batch, ready for the on-disk writer.
    pub fn as_record_batch(&self) -> (r: &DynRecordImmutableArrays)
        requires
            self.wf(),
        ensures
            arrays_rows(r@) == self@,
    {
        &self.arrays
    }

    /// The closed key interval this snapshot covers: its first and last
    /// keys, or nothing when it is empty.
    pub fn scope(&self) -> (r: Option<(Vec<u8>, Vec<u8>)>)
        requires
            self.wf(),
        ensures
            match r {
                Some((mn, mx)) => self@.len() > 0 && mn@ == self@.first().key && mx@
                    == self@.last().key,
                None => self@.len() == 0,
            },
    {
        if self.entries.len() == 0 {
            return None;
        }
        let mn = self.entries[0].key.clone();
        let mx = self.entries[self.entries.len() - 1].key.clone();
        proof {
            assert(self@.first() == self.entries@[0]@);
            assert(self@.last() == self.entries@[self.entries@.len() - 1]@);
            assert(mn@ =~= self@.first().key);
            assert(mx@ =~= self@.last().key);
        }
        Some((mn, mx))
    }

    /// Row `offset` under a projection: `None` past the end, `Some(None)`
    /// for a tombstone, else the record with unprojected columns absent.
    pub fn get(&self, offset: u32, projection_mask: &ProjectionMask) -> (r: Option<
        Option<DynRecord>,
    >)
        ensures
            match r {
                None => offset >= self@.len(),
                Some(None) => offset < self@.len() && self@[offset as int].value is None,
                Some(Some(rec)) => offset < self@.len() && self@[offset as int].value is Some
                    && Some(rec@) == project_entry(self@[offset as int], projection_mask@).value,
            },
    {
        if (offset as usize) >= self.entries.len() {
            return None;
        }
        let e = &self.entries[offset as usize];
        proof {
            assert(self@[offset as int] == self.entries@[offset as int]@);
        }
        match &e.value {
            None => Some(None),
            Some(rec) => {
                let projected = crate::record::project_record_exec(rec, projection_mask);
                Some(Some(projected))
            },
        }
    }
}

} // verus!
