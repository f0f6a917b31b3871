//! One on-disk sorted table, as the rows its file decodes to.
//!
//! The host reads and writes the columnar file; the library holds the
//! decoded rows and answers point and range reads over them with time
//! travel, projection, order and a row limit. A scan's result is pinned
//! exactly: the rows in range and at or before the read timestamp,
//! projected, reversed on demand, and capped by the limit.

use vstd::prelude::*;

use crate::entry::{project_entry, rows_view, Entry, EntryV, KeyBound, KeyBoundV};
use crate::fs::FileId;
use crate::key::{key_le, key_lt, Timestamp};
use crate::option::Order;
use crate::record::{key_of_val_spec, DynVal, ProjectionMask};

verus! {

/// Which file a table lives in, and at which level.
#[derive(Debug, PartialEq, Eq)]
pub struct SsTableID {
    file_id: FileId,
    level: usize,
}

impl Clone for SsTableID {
    fn clone(&self) -> (res: Self)
        ensures
            res == *self,
    {
        SsTableID { file_id: self.file_id, level: self.level }
    }
}

impl SsTableID {
    pub closed spec fn file_id_spec(&self) -> FileId {
        self.file_id
    }

    pub closed spec fn level_spec(&self) -> int {
        self.level as int
    }

    pub fn new(file_id: FileId, level: usize) -> (r: SsTableID)
        ensures
            r.file_id_spec() == file_id,
            r.level_spec() == level as int,
    {
        SsTableID { file_id, level }
    }

    pub fn file_id(&self) -> (r: FileId)
        ensures
            r == self.file_id_spec(),
    {
        self.file_id
    }

    pub fn level(&self) -> (r: usize)
        ensures
            r as int == self.level_spec(),
    {
        self.level
    }
}

/// The rows of one on-disk table, sorted by
/// `(key ascending, timestamp descending)`.
pub struct SsTable {
    entries: Vec<Entry>,
}

impl View for SsTable {
    type V = Seq<EntryV>;

    closed spec fn view(&self) -> Seq<EntryV> {
        rows_view(self.entries)
    }
}

/// Whether a row lies in the scan's key range and at or before its read
/// timestamp.
pub open spec fn sst_range_pred(
    lower: KeyBoundV,
    upper: KeyBoundV,
    read_ts: Timestamp,
    e: EntryV,
) -> bool {
    &&& match lower {
        KeyBoundV::Included(v) => key_le(key_of_val_spec(v), e.key),
        KeyBoundV::Excluded(v) => key_lt(key_of_val_spec(v), e.key),
        KeyBoundV::Unbounded => true,
    }
    &&& match upper {
        KeyBoundV::Included(v) => key_le(e.key, key_of_val_spec(v)),
        KeyBoundV::Excluded(v) => key_lt(e.key, key_of_val_spec(v)),
        KeyBoundV::Unbounded => true,
    }
    &&& e.ts <= read_ts
}

/// What a scan returns: the rows passing the range and timestamp
/// filter, projected, in reverse for a descending scan, and capped by
/// the limit after the filter.
pub open spec fn scan_result_spec(
    s: Seq<EntryV>,
    lower: KeyBoundV,
    upper: KeyBoundV,
    read_ts: Timestamp,
    limit: Option<usize>,
    mask: Seq<bool>,
    order: Option<Order>,
) -> Seq<EntryV> {
    let filtered = s.filter(|e: EntryV| sst_range_pred(lower, upper, read_ts, e)).map_values(
        |e: EntryV| project_entry(e, mask),
    );
    let ordered = if order == Some(Order::Desc) {
        filtered.reverse()
    } else {
        filtered
    };
    match limit {
        Some(l) => ordered.take(
            if l <= ordered.len() {
                l as int
            } else {
                ordered.len() as int
            },
        ),
        None => ordered,
    }
}

/// A reverse scan is the exact inverse of the forward scan over the
/// same rows, bounds, projection and read timestamp.
pub proof fn lemma_reverse_scan_inverts(
    s: Seq<EntryV>,
    lower: KeyBoundV,
    upper: KeyBoundV,
    read_ts: Timestamp,
    mask: Seq<bool>,
)
    ensures
        scan_result_spec(s, lower, upper, read_ts, None, mask, Some(Order::Desc))
            == scan_result_spec(s, lower, upper, read_ts, None, mask, None).reverse(),
{
}

proof fn lemma_filter_push(s: Seq<EntryV>, e: EntryV, pred: spec_fn(EntryV) -> bool)
    ensures
        s.push(e).filter(pred) == if pred(e) {
            s.filter(pred).push(e)
        } else {
            s.filter(pred)
        },
{
    reveal(Seq::filter);
    assert(s.push(e).drop_last() =~= s);
    assert(s.push(e).last() == e);
}

impl SsTable {
    pub closed spec fn wf(&self) -> bool {
        crate::entry::entries_sorted(self@)
    }

    /// Wrap the decoded rows of one table file.
    pub fn new(entries: Vec<Entry>) -> (r: SsTable)
        requires
            crate::entry::entries_sorted(rows_view(entries)),
        ensures
            r.wf(),
            r@ == rows_view(entries),
    {
        SsTable { entries }
    }

    pub fn len(&self) -> (r: usize)
        ensures
            r == self@.len(),
    {
        self.entries.len()
    }

    /// A well-formed table's rows are sorted.
    pub proof fn lemma_wf_sorted(&self)
        requires
            self.wf(),
        ensures
            crate::entry::entries_sorted(self@),
    {
    }

    /// The rows, for merges.
    pub fn entries(&self) -> (r: &Vec<Entry>)
        ensures
            rows_view(*r) == self@,
    {
        &self.entries
    }

    /// Range read: rows whose key lies between the bounds and whose
    /// timestamp is at or before `read_ts`, projected; descending order
    /// reverses them; `limit` caps the rows that come out.
    pub fn scan(
        &self,
        lower: &KeyBound,
        upper: &KeyBound,
        read_ts: Timestamp,
        limit: Option<usize>,
        projection_mask: &ProjectionMask,
        order: Option<Order>,
    ) -> (r: Vec<Entry>)
        requires
            self.wf(),
            lower.wf(),
            upper.wf(),
        ensures
            rows_view(r) == scan_result_spec(
                self@,
                lower@,
                upper@,
                read_ts,
                limit,
                projection_mask@,
                order,
            ),
    {
        let ghost sv = self@;
        let ghost pred = |e: EntryV| sst_range_pred(lower@, upper@, read_ts, e);
        let lower_key: Option<Vec<u8>> = match lower {
            KeyBound::Included(v) => Some(v.to_key_bytes()),
            KeyBound::Excluded(v) => Some(v.to_key_bytes()),
            KeyBound::Unbounded => None,
        };
        let upper_key: Option<Vec<u8>> = match upper {
            KeyBound::Included(v) => Some(v.to_key_bytes()),
            KeyBound::Excluded(v) => Some(v.to_key_bytes()),
            KeyBound::Unbounded => None,
        };
        let mut picked: Vec<Entry> = Vec::new();
        proof {
            assert(sv.take(0) =~= Seq::<EntryV>::empty());
            reveal(Seq::filter);
            assert(sv.take(0).filter(pred) =~= Seq::<EntryV>::empty());
            assert(rows_view(picked) =~= sv.take(0).filter(pred).map_values(
                |e: EntryV| project_entry(e, projection_mask@),
            ));
        }
        let mut i: usize = 0;
        while i < self.entries.len()
            invariant
                i <= self.entries@.len(),
                sv == self@,
                pred == (|e: EntryV| sst_range_pred(lower@, upper@, read_ts, e)),
                match (lower, &lower_key) {
                    (KeyBound::Included(v), Some(k)) => k@ == key_of_val_spec(v@),
                    (KeyBound::Excluded(v), Some(k)) => k@ == key_of_val_spec(v@),
                    (KeyBound::Unbounded, None) => true,
                    _ => false,
                },
                match (upper, &upper_key) {
                    (KeyBound::Included(v), Some(k)) => k@ == key_of_val_spec(v@),
                    (KeyBound::Excluded(v), Some(k)) => k@ == key_of_val_spec(v@),
                    (KeyBound::Unbounded, None) => true,
                    _ => false,
                },
                rows_view(picked) == sv.take(i as int).filter(pred).map_values(
                    |e: EntryV| project_entry(e, projection_mask@),
                ),
            decreases self.entries@.len() - i,
        {
            let e = &self.entries[i];
            proof {
                assert(sv[i as int] == self.entries@[i as int]@);
            }
            let in_lower = match (lower, &lower_key) {
                (KeyBound::Included(_), Some(k)) => crate::key::key_cmp(k, &e.key) <= 0,
                (KeyBound::Excluded(_), Some(k)) => crate::key::key_cmp(k, &e.key) < 0,
                _ => true,
            };
            let in_upper = match (upper, &upper_key) {
                (KeyBound::Included(_), Some(k)) => crate::key::key_cmp(&e.key, k) <= 0,
                (KeyBound::Excluded(_), Some(k)) => crate::key::key_cmp(&e.key, k) < 0,
                _ => true,
            };
            let matches_row = in_lower && in_upper && e.ts <= read_ts;
            proof {
                assert(matches_row == pred(sv[i as int]));
                lemma_filter_push(sv.take(i as int), sv[i as int], pred);
                assert(sv.take(i + 1) =~= sv.take(i as int).push(sv[i as int]));
            }
            if matches_row {
                let projected = match &e.value {
                    Some(rec) => {
                        let p = crate::record::project_record_exec(rec, projection_mask);
                        Entry {
                            key: e.key.clone(),
                            key_val: e.key_val.clone(),
                            ts: e.ts,
                            value: Some(p),
                        }
                    },
                    None => e.clone(),
                };
                proof {
                    assert(projected@ == project_entry(sv[i as int], projection_mask@));
                }
                let ghost prev = rows_view(picked);
                picked.push(projected);
                proof {
                    let ghost f = |e: EntryV| project_entry(e, projection_mask@);
                    assert(rows_view(picked) =~= prev.push(projected@));
                    assert(sv.take(i + 1).filter(pred) == sv.take(i as int).filter(pred).push(
                        sv[i as int],
                    ));
                    assert(sv.take(i as int).filter(pred).push(sv[i as int]).map_values(f)
                        =~= sv.take(i as int).filter(pred).map_values(f).push(f(sv[i as int])));
                    assert(rows_view(picked) =~= sv.take(i + 1).filter(pred).map_values(f));
                }
            } else {
                proof {
                    assert(rows_view(picked) =~= sv.take(i + 1).filter(pred).map_values(
                        |e: EntryV| project_entry(e, projection_mask@),
                    ));
                }
            }
            i = i + 1;
        }
        proof {
            assert(sv.take(sv.len() as int) =~= sv);
        }
        let mut out: Vec<Entry> = if order == Some(Order::Desc) {
            let mut rev: Vec<Entry> = Vec::new();
            let mut j: usize = picked.len();
            while j > 0
                invariant
                    j <= picked@.len(),
                    rev@.len() == picked@.len() - j,
                    forall|t: int|
                        0 <= t < rev@.len() ==> (#[trigger] rev@[t])@ == picked@[picked@.len() - 1
                            - t]@,
                decreases j,
            {
                j = j - 1;
                rev.push(picked[j].clone());
            }
            proof {
                assert(rows_view(rev) =~= rows_view(picked).reverse());
            }
            rev
        } else {
            picked
        };
        if let Some(l) = limit {
            if out.len() > l {
                out.truncate(l);
            }
        }
        proof {
            assert(rows_view(out) =~= scan_result_spec(
                sv,
                lower@,
                upper@,
                read_ts,
                limit,
                projection_mask@,
                order,
            ));
        }
        out
    }

    /// Point read: the newest projected row of `key` at or before
    /// `read_ts` — a bounded scan of one row.
    pub fn get(&self, key: &DynVal, read_ts: Timestamp, projection_mask: &ProjectionMask) -> (r:
        Option<Entry>)
        requires
            self.wf(),
            !key.is_null(),
        ensures
            match r {
                Some(e) => scan_result_spec(
                    self@,
                    KeyBoundV::Included(key@),
                    KeyBoundV::Included(key@),
                    read_ts,
                    Some(1),
                    projection_mask@,
                    None,
                ).len() == 1 && e@ == scan_result_spec(
                    self@,
                    KeyBoundV::Included(key@),
                    KeyBoundV::Included(key@),
                    read_ts,
                    Some(1),
                    projection_mask@,
                    None,
                )[0],
                None => scan_result_spec(
                    self@,
                    KeyBoundV::Included(key@),
                    KeyBoundV::Included(key@),
                    read_ts,
                    Some(1),
                    projection_mask@,
                    None,
                ).len() == 0,
            },
    {
        let lower = KeyBound::Included(key.clone());
        let upper = KeyBound::Included(key.clone());
        let mut rows = self.scan(&lower, &upper, read_ts, Some(1), projection_mask, None);
        let ghost rv = rows_view(rows);
        if rows.len() == 0 {
            None
        } else {
            let e = rows.remove(0);
            proof {
                assert(e@ == rv[0]);
            }
            Some(e)
        }
    }
}

} // verus!
