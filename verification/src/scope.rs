//! The key range an on-disk table covers.

use vstd::prelude::*;

use crate::fs::FileId;
use crate::key::{key_le, key_cmp, key_cmp_spec};

verus! {

/// Closed key interval of one table, its file id, and — for a level-0
/// table born from a flush — the WAL files whose data it subsumes.
#[derive(Debug, PartialEq, Eq)]
pub struct Scope {
    pub min: Vec<u8>,
    pub max: Vec<u8>,
    pub gen: FileId,
    pub wal_ids: Option<Vec<FileId>>,
}

pub struct ScopeV {
    pub min: Seq<u8>,
    pub max: Seq<u8>,
    pub gen: FileId,
    pub wal_ids: Option<Seq<FileId>>,
}

impl View for Scope {
    type V = ScopeV;

    open spec fn view(&self) -> ScopeV {
        ScopeV {
            min: self.min@,
            max: self.max@,
            gen: self.gen,
            wal_ids: match &self.wal_ids {
                Some(ids) => Some(ids@),
                None => None,
            },
        }
    }
}

impl Clone for Scope {
    fn clone(&self) -> (res: Self)
        ensures
            res@ == self@,
    {
        let r = Scope {
            min: self.min.clone(),
            max: self.max.clone(),
            gen: self.gen,
            wal_ids: match &self.wal_ids {
                Some(ids) => Some(ids.clone()),
                None => None,
            },
        };
        proof {
            assert(r@.min =~= self@.min);
            assert(r@.max =~= self@.max);
            match &self.wal_ids {
                Some(ids) => {
                    assert(r@.wal_ids->Some_0 =~= ids@);
                },
                None => {},
            }
        }
        r
    }
}

impl ScopeV {
    /// A scope is well formed when its interval is not empty.
    pub open spec fn wf(&self) -> bool {
        key_le(self.min, self.max)
    }

    pub open spec fn contains_spec(&self, key: Seq<u8>) -> bool {
        key_le(self.min, key) && key_le(key, self.max)
    }
}

impl Scope {
    /// Whether `key` lies inside this scope's closed interval.
    pub fn contains(&self, key: &Vec<u8>) -> (r: bool)
        ensures
            r == self@.contains_spec(key@),
    {
        key_cmp(&self.min, key) <= 0 && key_cmp(key, &self.max) <= 0
    }
}

} // verus!
