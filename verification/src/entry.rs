//! Table rows: a timestamped key with an optional record.
//!
//! `value == None` is a tombstone: the key was removed at that timestamp.
//! Sequences of entries sorted by `(key ascending, timestamp descending)`
//! are the common currency of the in-memory table, the on-disk tables and
//! the merge machinery; their content is abstracted as a map from
//! `(key, timestamp)` to the optional record.

use vstd::prelude::*;

use crate::key::{ts_key_lt, Timestamp};
use crate::record::{key_of_val_spec, DynRecord, DynRecordV, DynVal, ValV, Value, ValueDesc};

verus! {

/// One row: key bytes, the primary-key value they encode, the write
/// timestamp, and a record or tombstone.
#[derive(Debug, PartialEq, Eq)]
pub struct Entry {
    pub key: Vec<u8>,
    pub key_val: DynVal,
    pub ts: Timestamp,
    pub value: Option<DynRecord>,
}

pub struct EntryV {
    pub key: Seq<u8>,
    pub key_val: ValV,
    pub ts: Timestamp,
    pub value: Option<DynRecordV>,
}

impl View for Entry {
    type V = EntryV;

    open spec fn view(&self) -> EntryV {
        EntryV {
            key: self.key@,
            key_val: self.key_val@,
            ts: self.ts,
            value: match self.value {
                Some(r) => Some(r@),
                None => None,
            },
        }
    }
}

impl EntryV {
    /// The key bytes are the encoding of a present primary-key value.
    pub open spec fn wf(&self) -> bool {
        self.key == key_of_val_spec(self.key_val) && !(self.key_val is Null)
    }
}

impl Clone for ValueDesc {
    fn clone(&self) -> (res: Self)
        ensures
            res@ == self@,
    {
        let r = ValueDesc {
            name: self.name.clone(),
            datatype: self.datatype,
            is_nullable: self.is_nullable,
        };
        proof {
            assert(r@.name =~= self@.name);
        }
        r
    }
}

impl Clone for DynVal {
    fn clone(&self) -> (res: Self)
        ensures
            res@ == self@,
    {
        match self {
            DynVal::UInt8(x) => DynVal::UInt8(*x),
            DynVal::UInt16(x) => DynVal::UInt16(*x),
            DynVal::UInt32(x) => DynVal::UInt32(*x),
            DynVal::UInt64(x) => DynVal::UInt64(*x),
            DynVal::Int8(x) => DynVal::Int8(*x),
            DynVal::Int16(x) => DynVal::Int16(*x),
            DynVal::Int32(x) => DynVal::Int32(*x),
            DynVal::Int64(x) => DynVal::Int64(*x),
            DynVal::Utf8(s) => {
                let t = s.clone();
                proof {
                    assert(t@ =~= s@);
                }
                DynVal::Utf8(t)
            },
            DynVal::Boolean(b) => DynVal::Boolean(*b),
            DynVal::Bytes(s) => {
                let t = s.clone();
                proof {
                    assert(t@ =~= s@);
                }
                DynVal::Bytes(t)
            },
            DynVal::Null => DynVal::Null,
        }
    }
}

impl Clone for Value {
    fn clone(&self) -> (res: Self)
        ensures
            res@ == self@,
    {
        Value { desc: self.desc.clone(), val: self.val.clone() }
    }
}

impl Clone for crate::record::DynSchema {
    fn clone(&self) -> (res: Self)
        ensures
            res@ == self@,
    {
        let mut descs: Vec<ValueDesc> = Vec::new();
        let mut i: usize = 0;
        while i < self.descs.len()
            invariant
                i <= self.descs@.len(),
                descs@.len() == i,
                forall|j: int| 0 <= j < i ==> descs@[j]@ == self.descs@[j]@,
            decreases self.descs@.len() - i,
        {
            descs.push(self.descs[i].clone());
            i = i + 1;
        }
        let r = crate::record::DynSchema { descs, primary_key_index: self.primary_key_index };
        proof {
            assert(r@.descs =~= self@.descs);
        }
        r
    }
}

impl Clone for DynRecord {
    fn clone(&self) -> (res: Self)
        ensures
            res@ == self@,
    {
        let mut columns: Vec<Value> = Vec::new();
        let mut i: usize = 0;
        while i < self.columns.len()
            invariant
                i <= self.columns@.len(),
                columns@.len() == i,
                forall|j: int| 0 <= j < i ==> columns@[j]@ == self.columns@[j]@,
            decreases self.columns@.len() - i,
        {
            columns.push(self.columns[i].clone());
            i = i + 1;
        }
        let r = DynRecord { columns, primary_key_index: self.primary_key_index };
        proof {
            assert(r@.columns =~= self@.columns);
        }
        r
    }
}

impl Clone for Entry {
    fn clone(&self) -> (res: Self)
        ensures
            res@ == self@,
    {
        let key = self.key.clone();
        let value = match &self.value {
            Some(r) => Some(r.clone()),
            None => None,
        };
        let r = Entry { key, key_val: self.key_val.clone(), ts: self.ts, value };
        proof {
            assert(r@.key =~= self@.key);
        }
        r
    }
}

impl Entry {
    /// Build a row from its primary-key value; the key bytes are derived,
    /// so the row is well formed by construction.
    pub fn new(key_val: DynVal, ts: Timestamp, value: Option<DynRecord>) -> (r: Entry)
        requires
            !key_val.is_null(),
        ensures
            r@.wf(),
            r@.key == key_of_val_spec(key_val@),
            r@.key_val == key_val@,
            r@.ts == ts,
            r@.value == match value {
                Some(v) => Some(v@),
                None => None::<DynRecordV>,
            },
    {
        let key = key_val.to_key_bytes();
        Entry { key, key_val, ts, value }
    }
}

/// A row under a projection: the record projected, a tombstone kept.
pub open spec fn project_entry(e: EntryV, m: Seq<bool>) -> EntryV {
    EntryV {
        key: e.key,
        key_val: e.key_val,
        ts: e.ts,
        value: match e.value {
            Some(r) => Some(crate::record::project_record(r, m)),
            None => None,
        },
    }
}

/// The rows of a vector, as mathematical values.
pub open spec fn rows_view(v: Vec<Entry>) -> Seq<EntryV> {
    v@.map_values(|e: Entry| e@)
}

/// Compare a row's position to `(key, ts)` under the table order.
pub fn entry_key_cmp(e: &Entry, key: &Vec<u8>, ts: Timestamp) -> (r: i8)
    ensures
        r as int == crate::key::ts_key_cmp_spec(e@.key, e@.ts, key@, ts),
{
    let c = crate::key::key_cmp(&e.key, key);
    if c != 0 {
        c
    } else if e.ts > ts {
        -1
    } else if e.ts < ts {
        1
    } else {
        0
    }
}

/// One end of a key range.
#[derive(Debug, PartialEq, Eq)]
pub enum KeyBound {
    Included(DynVal),
    Excluded(DynVal),
    Unbounded,
}

pub enum KeyBoundV {
    Included(ValV),
    Excluded(ValV),
    Unbounded,
}

impl View for KeyBound {
    type V = KeyBoundV;

    open spec fn view(&self) -> KeyBoundV {
        match self {
            KeyBound::Included(v) => KeyBoundV::Included(v@),
            KeyBound::Excluded(v) => KeyBoundV::Excluded(v@),
            KeyBound::Unbounded => KeyBoundV::Unbounded,
        }
    }
}

impl KeyBound {
    /// A bound's key, when it has one, is a present value.
    pub open spec fn wf(&self) -> bool {
        match self {
            KeyBound::Included(v) => !v.is_null(),
            KeyBound::Excluded(v) => !v.is_null(),
            KeyBound::Unbounded => true,
        }
    }
}

/// Strictly increasing under `(key ascending, timestamp descending)`;
/// strictness makes every `(key, timestamp)` pair unique.
pub open spec fn entries_sorted(s: Seq<EntryV>) -> bool {
    forall|i: int, j: int|
        0 <= i < j < s.len() ==> ts_key_lt(
            #[trigger] s[i].key,
            s[i].ts,
            #[trigger] s[j].key,
            s[j].ts,
        )
}

/// The content of a run of entries as a map; a later occurrence of the
/// same `(key, timestamp)` replaces an earlier one, as an insert replaces.
pub open spec fn entries_map(s: Seq<EntryV>) -> Map<(Seq<u8>, Timestamp), Option<DynRecordV>>
    decreases s.len(),
{
    if s.len() == 0 {
        Map::empty()
    } else {
        entries_map(s.drop_last()).insert((s.last().key, s.last().ts), s.last().value)
    }
}

/// Appending a row inserts its pair.
pub proof fn lemma_entries_map_push(s: Seq<EntryV>, e: EntryV)
    ensures
        entries_map(s.push(e)) == entries_map(s).insert((e.key, e.ts), e.value),
{
    assert(s.push(e).drop_last() =~= s);
    assert(s.push(e).last() == e);
}

/// A pair is in the map exactly when some entry carries it.
pub proof fn lemma_entries_map_dom(s: Seq<EntryV>, k: Seq<u8>, t: Timestamp)
    ensures
        entries_map(s).dom().contains((k, t)) <==> exists|i: int|
            0 <= i < s.len() && s[i].key == k && s[i].ts == t,
    decreases s.len(),
{
    if s.len() > 0 {
        lemma_entries_map_dom(s.drop_last(), k, t);
        if entries_map(s).dom().contains((k, t)) {
            if s.last().key == k && s.last().ts == t {
                assert(s[s.len() - 1].key == k && s[s.len() - 1].ts == t);
            } else {
                let i = choose|i: int|
                    0 <= i < s.drop_last().len() && s.drop_last()[i].key == k
                        && s.drop_last()[i].ts == t;
                assert(s[i].key == k && s[i].ts == t);
            }
        }
        if exists|i: int| 0 <= i < s.len() && s[i].key == k && s[i].ts == t {
            let i = choose|i: int| 0 <= i < s.len() && s[i].key == k && s[i].ts == t;
            if i < s.len() - 1 {
                assert(s.drop_last()[i].key == k && s.drop_last()[i].ts == t);
            }
        }
    }
}

/// In a sequence whose pairs are unique, the map's value at a pair is the
/// value of the entry that carries it.
pub proof fn lemma_entries_map_at(s: Seq<EntryV>, i: int)
    requires
        0 <= i < s.len(),
        forall|a: int, b: int|
            0 <= a < b < s.len() ==> !(#[trigger] s[a].key == #[trigger] s[b].key && s[a].ts
                == s[b].ts),
    ensures
        entries_map(s).dom().contains((s[i].key, s[i].ts)),
        entries_map(s)[(s[i].key, s[i].ts)] == s[i].value,
    decreases s.len(),
{
    lemma_entries_map_dom(s, s[i].key, s[i].ts);
    if s.len() > 0 && i < s.len() - 1 {
        assert(forall|a: int, b: int|
            0 <= a < b < s.drop_last().len() ==> !(#[trigger] s.drop_last()[a].key
                == #[trigger] s.drop_last()[b].key && s.drop_last()[a].ts == s.drop_last()[b].ts));
        lemma_entries_map_at(s.drop_last(), i);
        assert(!(s[i].key == s.last().key && s[i].ts == s.last().ts));
    }
}

pub open spec fn pairs_unique(s: Seq<EntryV>) -> bool {
    forall|a: int, b: int|
        0 <= a < b < s.len() ==> !(#[trigger] s[a].key == #[trigger] s[b].key && s[a].ts
            == s[b].ts)
}

/// Inserting a row whose pair is fresh inserts its pair into the map.
pub proof fn lemma_entries_map_insert(s: Seq<EntryV>, p: int, e: EntryV)
    requires
        0 <= p <= s.len(),
        pairs_unique(s),
        forall|i: int| 0 <= i < s.len() ==> !(#[trigger] s[i].key == e.key && s[i].ts == e.ts),
    ensures
        entries_map(s.insert(p, e)) == entries_map(s).insert((e.key, e.ts), e.value),
{
    let s2 = s.insert(p, e);
    assert(pairs_unique(s2)) by {
        assert forall|a: int, b: int| 0 <= a < b < s2.len() implies !(#[trigger] s2[a].key
            == #[trigger] s2[b].key && s2[a].ts == s2[b].ts) by {
            let oa: int = if a < p {
                a
            } else {
                a - 1
            };
            let ob: int = if b < p {
                b
            } else {
                b - 1
            };
            if a != p && b != p {
                assert(s2[a] == s[oa]);
                assert(s2[b] == s[ob]);
            } else if a == p {
                assert(s2[b] == s[ob]);
            } else {
                assert(s2[a] == s[oa]);
            }
        }
    }
    let m1 = entries_map(s2);
    let m2 = entries_map(s).insert((e.key, e.ts), e.value);
    assert(m1 =~= m2) by {
        assert forall|kt: (Seq<u8>, Timestamp)| #[trigger]
            m1.dom().contains(kt) implies m2.dom().contains(kt) && m1[kt] == m2[kt] by {
            lemma_entries_map_dom(s2, kt.0, kt.1);
            let i = choose|i: int| 0 <= i < s2.len() && s2[i].key == kt.0 && s2[i].ts == kt.1;
            lemma_entries_map_at(s2, i);
            if i == p {
                assert(m1[kt] == e.value);
            } else {
                let oi: int = if i < p {
                    i
                } else {
                    i - 1
                };
                assert(s2[i] == s[oi]);
                lemma_entries_map_dom(s, kt.0, kt.1);
                lemma_entries_map_at(s, oi);
                assert(!(kt.0 == e.key && kt.1 == e.ts));
            }
        }
        assert forall|kt: (Seq<u8>, Timestamp)| #[trigger]
            m2.dom().contains(kt) implies m1.dom().contains(kt) by {
            if kt.0 == e.key && kt.1 == e.ts {
                assert(s2[p] == e);
                lemma_entries_map_dom(s2, kt.0, kt.1);
            } else {
                lemma_entries_map_dom(s, kt.0, kt.1);
                let i = choose|i: int| 0 <= i < s.len() && s[i].key == kt.0 && s[i].ts == kt.1;
                let ni: int = if i < p {
                    i
                } else {
                    i + 1
                };
                assert(s2[ni] == s[i]);
                lemma_entries_map_dom(s2, kt.0, kt.1);
            }
        }
    }
}

/// Overwriting a row with one carrying the same pair updates the map at
/// that pair.
pub proof fn lemma_entries_map_update(s: Seq<EntryV>, p: int, e: EntryV)
    requires
        0 <= p < s.len(),
        pairs_unique(s),
        s[p].key == e.key,
        s[p].ts == e.ts,
    ensures
        entries_map(s.update(p, e)) == entries_map(s).insert((e.key, e.ts), e.value),
{
    let s2 = s.update(p, e);
    assert(pairs_unique(s2)) by {
        assert forall|a: int, b: int| 0 <= a < b < s2.len() implies !(#[trigger] s2[a].key
            == #[trigger] s2[b].key && s2[a].ts == s2[b].ts) by {
            assert(s2[a].key == s[a].key && s2[a].ts == s[a].ts);
            assert(s2[b].key == s[b].key && s2[b].ts == s[b].ts);
        }
    }
    let m1 = entries_map(s2);
    let m2 = entries_map(s).insert((e.key, e.ts), e.value);
    assert(m1 =~= m2) by {
        assert forall|kt: (Seq<u8>, Timestamp)| #[trigger]
            m1.dom().contains(kt) implies m2.dom().contains(kt) && m1[kt] == m2[kt] by {
            lemma_entries_map_dom(s2, kt.0, kt.1);
            let i = choose|i: int| 0 <= i < s2.len() && s2[i].key == kt.0 && s2[i].ts == kt.1;
            lemma_entries_map_at(s2, i);
            if i == p {
                assert(m1[kt] == e.value);
            } else {
                assert(s2[i] == s[i]);
                lemma_entries_map_dom(s, kt.0, kt.1);
                lemma_entries_map_at(s, i);
                assert(!(kt.0 == e.key && kt.1 == e.ts)) by {
                    if kt.0 == e.key && kt.1 == e.ts {
                        assert(s[i].key == s[p].key && s[i].ts == s[p].ts);
                    }
                }
            }
        }
        assert forall|kt: (Seq<u8>, Timestamp)| #[trigger]
            m2.dom().contains(kt) implies m1.dom().contains(kt) by {
            if kt.0 == e.key && kt.1 == e.ts {
                assert(s2[p] == e);
                lemma_entries_map_dom(s2, kt.0, kt.1);
            } else {
                lemma_entries_map_dom(s, kt.0, kt.1);
                let i = choose|i: int| 0 <= i < s.len() && s[i].key == kt.0 && s[i].ts == kt.1;
                assert(s2[i] == s[i]);
                lemma_entries_map_dom(s2, kt.0, kt.1);
            }
        }
    }
}

/// Sorted entries have unique `(key, timestamp)` pairs.
pub proof fn lemma_sorted_unique(s: Seq<EntryV>)
    requires
        entries_sorted(s),
    ensures
        forall|a: int, b: int|
            0 <= a < b < s.len() ==> !(#[trigger] s[a].key == #[trigger] s[b].key && s[a].ts
                == s[b].ts),
{
    assert forall|a: int, b: int| 0 <= a < b < s.len() implies !(#[trigger] s[a].key
        == #[trigger] s[b].key && s[a].ts == s[b].ts) by {
        crate::key::lemma_ts_key_eq(s[a].key, s[a].ts, s[b].key, s[b].ts);
    }
}

} // verus!
