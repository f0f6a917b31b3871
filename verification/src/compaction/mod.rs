//! Compaction: turning the in-memory queue into level-0 tables (minor)
//! and merging overlapping runs into the next level (major).
//!
//! The host performs the file I/O; the compactor works over an
//! in-memory store of decoded tables and emits the version edits and
//! new tables for the host to persist.
//!
//! A minor compaction folds the frozen batches into one sorted merge
//! rather than concatenating them in arrival order: a table is sorted
//! by definition here, and the merge keeps every distinct
//! `(key, timestamp)` pair, the newest batch winning an exact clash.

use vstd::prelude::*;

use crate::entry::{entries_map, entries_sorted, rows_view, Entry, EntryV};
use crate::fs::{generate_file_id, FileId};
use crate::inmem::immutable::Immutable;
use crate::inmem::mutable::Mutable;
use crate::key::{key_le, key_lt, Timestamp};
use crate::ondisk::sstable::SsTable;
use crate::option::DbOption;
use crate::record::DynSchema;
use crate::scope::Scope;
use crate::stream::merge::{merge_all, merged_map, sources_view};
use crate::version::edits_view;
use crate::version::{Version, VersionEdit, VersionEditV, VersionError, VersionV};
use crate::MAX_LEVEL;

verus! {

/// What the write path asks of the compactor: freeze the mutable, or
/// flush everything now.
#[derive(Debug, PartialEq, Eq)]
pub enum CompactTask {
    Freeze,
    Flush,
}

/// Why a compaction failed. The first five stand for faults of the
/// host's storage and codec layers; `EmptyLevel` means a level the
/// version promised to be populated held nothing.
#[derive(Debug, PartialEq, Eq)]
pub enum CompactionError {
    Io,
    Parquet,
    Fusio,
    Version(VersionError),
    Logger,
    ChannelClose,
    Commit,
    EmptyLevel,
}

/// The decoded on-disk tables, by file id: the compactor's view of the
/// level filesystems.
pub struct SstStore {
    pub tables: Vec<(FileId, SsTable)>,
}

/// The rows of the first table under `gen`, when the store holds one.
pub open spec fn store_rows(tables: Seq<(FileId, SsTable)>, gen: FileId) -> Option<Seq<EntryV>>
    decreases tables.len(),
{
    if tables.len() == 0 {
        None
    } else if tables[0].0 == gen {
        Some(tables[0].1@)
    } else {
        store_rows(tables.skip(1), gen)
    }
}

impl SstStore {
    pub open spec fn wf(&self) -> bool {
        forall|i: int| 0 <= i < self.tables@.len() ==> (#[trigger] self.tables@[i]).1.wf()
    }

    pub open spec fn contains_gen(&self, gen: FileId) -> bool {
        exists|i: int| 0 <= i < self.tables@.len() && (#[trigger] self.tables@[i]).0 == gen
    }

    pub fn new() -> (r: SstStore)
        ensures
            r.wf(),
            r.tables@.len() == 0,
    {
        SstStore { tables: Vec::new() }
    }

    /// The table of one file, when the store holds it: the first one
    /// written under that id.
    pub fn get(&self, gen: FileId) -> (r: Option<&SsTable>)
        requires
            self.wf(),
        ensures
            match r {
                Some(t) => t.wf() && store_rows(self.tables@, gen) == Some(t@),
                None => !self.contains_gen(gen) && store_rows(self.tables@, gen) is None,
            },
    {
        let mut i: usize = 0;
        proof {
            assert(self.tables@.skip(0) =~= self.tables@);
        }
        while i < self.tables.len()
            invariant
                i <= self.tables@.len(),
                self.wf(),
                forall|t: int| 0 <= t < i ==> (#[trigger] self.tables@[t]).0 != gen,
                store_rows(self.tables@, gen) == store_rows(self.tables@.skip(i as int), gen),
            decreases self.tables@.len() - i,
        {
            if self.tables[i].0 == gen {
                proof {
                    assert(self.tables@.skip(i as int)[0] == self.tables@[i as int]);
                }
                return Some(&self.tables[i].1);
            }
            proof {
                assert(self.tables@.skip(i as int)[0] == self.tables@[i as int]);
                assert(self.tables@.skip(i as int).skip(1) =~= self.tables@.skip(i + 1));
            }
            i = i + 1;
        }
        proof {
            assert(self.tables@.skip(self.tables@.len() as int).len() == 0);
        }
        None
    }

    pub fn insert(&mut self, gen: FileId, table: SsTable)
        requires
            old(self).wf(),
            table.wf(),
        ensures
            final(self).wf(),
            final(self).contains_gen(gen),
            final(self).tables@ == old(self).tables@.push((gen, table)),
    {
        self.tables.push((gen, table));
        proof {
            assert forall|i: int| 0 <= i < self.tables@.len() implies (
            #[trigger] self.tables@[i]).1.wf() by {
                if i < old(self).tables@.len() {
                    assert(self.tables@[i] == old(self).tables@[i]);
                }
            }
            assert((self.tables@[self.tables@.len() - 1]).0 == gen);
        }
    }
}

/// The in-memory root of the write path: the current mutable, the queue
/// of frozen tables awaiting a flush, and the WAL files recovered at
/// startup whose data the next level-0 table must subsume.
pub struct DbStorage {
    pub mutable: Mutable,
    pub immutables: Vec<(Option<FileId>, Immutable)>,
    pub recover_wal_ids: Option<Vec<FileId>>,
}

impl DbStorage {
    pub open spec fn wf(&self) -> bool {
        &&& self.mutable.wf()
        &&& forall|i: int| 0 <= i < self.immutables@.len() ==> (#[trigger] self.immutables@[i]).1.wf()
    }
}

/// The batches of a flush queue, as rows.
pub open spec fn batch_views(batches: Vec<(Option<FileId>, Immutable)>) -> Seq<Seq<EntryV>> {
    batches@.map_values(|p: (Option<FileId>, Immutable)| p.1@)
}

/// The flush queue as values: each batch's WAL id and rows.
pub open spec fn queue_view(v: Vec<(Option<FileId>, Immutable)>) -> Seq<
    (Option<FileId>, Seq<EntryV>),
> {
    v@.map_values(|p: (Option<FileId>, Immutable)| (p.0, p.1@))
}

/// The recovered WAL ids, as values.
pub open spec fn ids_view(o: Option<Vec<FileId>>) -> Option<Seq<FileId>> {
    match o {
        Some(ids) => Some(ids@),
        None => None,
    }
}

/// Whether a round flushes the queue: a manual flush with anything
/// queued, or a queue grown past its threshold.
pub open spec fn flush_due_spec(opt: DbOption, is_manual: bool, qlen: int) -> bool {
    (is_manual && qlen > 0) || qlen > opt.immutable_chunk_max_num
}

/// How many of the queue's oldest batches one flush consumes.
pub open spec fn chunk_num_spec(opt: DbOption, is_manual: bool, qlen: int) -> int {
    if is_manual {
        qlen
    } else if opt.immutable_chunk_num as int <= qlen {
        opt.immutable_chunk_num as int
    } else {
        qlen
    }
}

/// The queue after the rotation step: the old queue with the old
/// mutable frozen at its end, when it held anything.
pub open spec fn rotated_queue_spec(st: DbStorage) -> Seq<(Option<FileId>, Seq<EntryV>)> {
    if st.mutable@.len() > 0 {
        queue_view(st.immutables).push((st.mutable.wal_id_view(), st.mutable@))
    } else {
        queue_view(st.immutables)
    }
}

/// Whether a round reaches the flush step at all: a round that rotated
/// nothing and was not asked to flush returns at once.
pub open spec fn round_flushes_spec(opt: DbOption, is_manual: bool, st: DbStorage) -> bool {
    (is_manual || st.mutable@.len() > 0) && flush_due_spec(
        opt,
        is_manual,
        rotated_queue_spec(st).len() as int,
    )
}

/// `m` is the smallest first key over the nonempty batches.
pub open spec fn is_min_first_key(m: Seq<u8>, bs: Seq<Seq<EntryV>>) -> bool {
    &&& exists|b: int| 0 <= b < bs.len() && (#[trigger] bs[b]).len() > 0 && m == bs[b].first().key
    &&& forall|b: int| 0 <= b < bs.len() && (#[trigger] bs[b]).len() > 0 ==> key_le(m, bs[b].first().key)
}

/// `m` is the largest last key over the nonempty batches.
pub open spec fn is_max_last_key(m: Seq<u8>, bs: Seq<Seq<EntryV>>) -> bool {
    &&& exists|b: int| 0 <= b < bs.len() && (#[trigger] bs[b]).len() > 0 && m == bs[b].last().key
    &&& forall|b: int| 0 <= b < bs.len() && (#[trigger] bs[b]).len() > 0 ==> key_le(bs[b].last().key, m)
}

/// Table `t` of the store holds every `(key, timestamp)` pair of `m`,
/// with `m`'s value.
pub open spec fn table_covers(
    tables: Seq<(FileId, SsTable)>,
    t: int,
    m: Map<(Seq<u8>, crate::key::Timestamp), Option<crate::record::DynRecordV>>,
) -> bool {
    0 <= t < tables.len() && forall|kt: (Seq<u8>, crate::key::Timestamp)| #[trigger]
        m.dom().contains(kt) ==> entries_map(tables[t].1@).dom().contains(kt) && entries_map(
            tables[t].1@,
        )[kt] == m[kt]
}

/// Table `t` of the store holds every `(key, timestamp)` pair written
/// in the first `n` batches of the queue.
pub open spec fn queue_covered(
    tables: Seq<(FileId, SsTable)>,
    t: int,
    q: Seq<(Option<FileId>, Seq<EntryV>)>,
    n: int,
) -> bool {
    0 <= t < tables.len() && forall|b: int, kt: (Seq<u8>, crate::key::Timestamp)|
        0 <= b < n && #[trigger] entries_map((#[trigger] q[b]).1).dom().contains(kt)
            ==> entries_map(tables[t].1@).dom().contains(kt)
}

/// The WAL ids the batches carry, in queue order.
pub open spec fn batch_wal_ids(batches: Vec<(Option<FileId>, Immutable)>) -> Seq<FileId> {
    batches@.map_values(|p: (Option<FileId>, Immutable)| p.0).filter(
        |o: Option<FileId>| o is Some,
    ).map_values(|o: Option<FileId>| o->0)
}

/// `min(a + b, usize::MAX)`.
fn sat_add(a: usize, b: usize) -> (r: usize)
    ensures
        r == if a + b <= usize::MAX {
            a + b
        } else {
            usize::MAX as int
        },
{
    if a <= usize::MAX - b {
        a + b
    } else {
        usize::MAX
    }
}

proof fn lemma_filter_push_generic<A>(s: Seq<A>, e: A, pred: spec_fn(A) -> bool)
    ensures
        s.push(e).filter(pred) == if pred(e) {
            s.filter(pred).push(e)
        } else {
            s.filter(pred)
        },
{
    reveal(Seq::filter);
    assert(s.push(e).drop_last() =~= s);
    assert(s.push(e).last() == e);
}

/// The compactor: the options and the record schema it builds tables
/// under.
pub struct Compactor {
    pub option: DbOption,
    pub record_schema: DynSchema,
}

impl Compactor {
    pub fn new(option: DbOption, record_schema: DynSchema) -> (r: Compactor)
        ensures
            r.option == option,
            r.record_schema@ == record_schema@,
    {
        Compactor { option, record_schema }
    }
}

impl Compactor {
    /// Minor compaction: fold the frozen batches into one new level-0
    /// table. Its scope is the least and greatest key over the batches'
    /// scopes; its WAL ids are the recovered ids followed by the
    /// batches' ids; its content is the batches merged, the newest batch
    /// winning a clash. `None` when there was nothing to fold;
    /// `EmptyLevel` when every batch was empty.
    pub fn minor_compaction(
        option: &DbOption,
        recover_wal_ids: Option<Vec<FileId>>,
        batches: &Vec<(Option<FileId>, Immutable)>,
    ) -> (r: Result<Option<(Scope, SsTable)>, CompactionError>)
        requires
            forall|i: int| 0 <= i < batches@.len() ==> (#[trigger] batches@[i]).1.wf(),
        ensures
            match r {
                Ok(None) => batches@.len() == 0,
                Ok(Some((scope, table))) => {
                    &&& batches@.len() > 0
                    &&& table.wf()
                    &&& entries_map(table@) == merged_map(batch_views(*batches).reverse())
                    &&& is_min_first_key(scope@.min, batch_views(*batches))
                    &&& is_max_last_key(scope@.max, batch_views(*batches))
                    &&& scope@.wal_ids == Some(
                        (match recover_wal_ids {
                            Some(ids) => ids@,
                            None => Seq::<FileId>::empty(),
                        }) + batch_wal_ids(*batches),
                    )
                },
                Err(e) => e == CompactionError::EmptyLevel && batches@.len() > 0 && forall|b: int|
                    0 <= b < batch_views(*batches).len() ==> (#[trigger] batch_views(
                        *batches,
                    )[b]).len() == 0,
            },
    {
        if batches.len() == 0 {
            return Ok(None);
        }
        let ghost bvs = batch_views(*batches);
        // The scope: least and greatest key across the batches.
        let mut min: Option<Vec<u8>> = None;
        let mut max: Option<Vec<u8>> = None;
        let mut wal_ids: Vec<FileId> = match recover_wal_ids {
            Some(ids) => ids,
            None => Vec::new(),
        };
        let ghost recover_seq = wal_ids@;
        let ghost id_opts = batches@.map_values(|p: (Option<FileId>, Immutable)| p.0);
        let ghost id_pred = |o: Option<FileId>| o is Some;
        proof {
            assert(id_opts.take(0) =~= Seq::<Option<FileId>>::empty());
            reveal(Seq::filter);
            assert(wal_ids@ =~= recover_seq + id_opts.take(0).filter(id_pred).map_values(
                |o: Option<FileId>| o->0,
            ));
        }
        let mut i: usize = 0;
        while i < batches.len()
            invariant
                i <= batches@.len(),
                bvs == batch_views(*batches),
                id_opts == batches@.map_values(|p: (Option<FileId>, Immutable)| p.0),
                id_pred == (|o: Option<FileId>| o is Some),
                forall|t: int| 0 <= t < batches@.len() ==> (#[trigger] batches@[t]).1.wf(),
                wal_ids@ == recover_seq + id_opts.take(i as int).filter(id_pred).map_values(
                    |o: Option<FileId>| o->0,
                ),
                match min {
                    Some(m) => is_min_first_key(m@, bvs.take(i as int)),
                    None => forall|b: int|
                        0 <= b < i ==> (#[trigger] bvs[b]).len() == 0,
                },
                match max {
                    Some(m) => is_max_last_key(m@, bvs.take(i as int)),
                    None => forall|b: int|
                        0 <= b < i ==> (#[trigger] bvs[b]).len() == 0,
                },
                min is Some <==> max is Some,
            decreases batches@.len() - i,
        {
            proof {
                assert(bvs[i as int] == batches@[i as int].1@);
                assert(id_opts[i as int] == batches@[i as int].0);
            }
            let batch = &batches[i].1;
            match batch.scope() {
                Some((bmin, bmax)) => {
                    let new_min = match &min {
                        Some(m) => {
                            if crate::key::key_cmp(&bmin, m) < 0 {
                                bmin
                            } else {
                                let c = m.clone();
                                proof {
                                    assert(c@ =~= m@);
                                }
                                c
                            }
                        },
                        None => bmin,
                    };
                    let new_max = match &max {
                        Some(m) => {
                            if crate::key::key_cmp(m, &bmax) < 0 {
                                bmax
                            } else {
                                let c = m.clone();
                                proof {
                                    assert(c@ =~= m@);
                                }
                                c
                            }
                        },
                        None => bmax,
                    };
                    proof {
                        let tb = bvs.take(i + 1);
                        assert(tb[i as int] == bvs[i as int]);
                        assert forall|b: int|
                            0 <= b < tb.len() && (#[trigger] tb[b]).len() > 0 implies key_le(
                            new_min@,
                            tb[b].first().key,
                        ) by {
                            if b < i {
                                assert(tb[b] == bvs.take(i as int)[b]);
                                match min {
                                    Some(m) => {
                                        if key_lt(new_min@, m@) {
                                            crate::key::lemma_key_lt_le_trans(
                                                new_min@,
                                                m@,
                                                tb[b].first().key,
                                            );
                                        }
                                    },
                                    None => {},
                                }
                            } else {
                                match min {
                                    Some(m) => {
                                        crate::key::lemma_key_cmp_antisym(bmin@, m@);
                                    },
                                    None => {},
                                }
                                crate::key::lemma_key_cmp_eq(new_min@, new_min@);
                            }
                        }
                        assert(exists|b: int|
                            0 <= b < tb.len() && (#[trigger] tb[b]).len() > 0 && new_min@
                                == tb[b].first().key) by {
                            if new_min@ == bmin@ {
                                assert(tb[i as int].len() > 0 && new_min@ == tb[
                                    i as int].first().key);
                            } else {
                                let m0 = choose|b: int|
                                    0 <= b < bvs.take(i as int).len() && (#[trigger] bvs.take(
                                        i as int,
                                    )[b]).len() > 0 && min->0@ == bvs.take(i as int)[
                                        b].first().key;
                                assert(tb[m0] == bvs.take(i as int)[m0]);
                                assert(tb[m0].len() > 0 && new_min@ == tb[m0].first().key);
                            }
                        }
                        assert(is_min_first_key(new_min@, tb));
                        assert forall|b: int|
                            0 <= b < tb.len() && (#[trigger] tb[b]).len() > 0 implies key_le(
                            tb[b].last().key,
                            new_max@,
                        ) by {
                            if b < i {
                                assert(tb[b] == bvs.take(i as int)[b]);
                                match max {
                                    Some(m) => {
                                        if key_lt(m@, new_max@) {
                                            crate::key::lemma_key_le_lt_trans(
                                                tb[b].last().key,
                                                m@,
                                                new_max@,
                                            );
                                        }
                                    },
                                    None => {},
                                }
                            } else {
                                match max {
                                    Some(m) => {
                                        crate::key::lemma_key_cmp_antisym(m@, bmax@);
                                    },
                                    None => {},
                                }
                                crate::key::lemma_key_cmp_eq(new_max@, new_max@);
                            }
                        }
                        assert(exists|b: int|
                            0 <= b < tb.len() && (#[trigger] tb[b]).len() > 0 && new_max@
                                == tb[b].last().key) by {
                            if new_max@ == bmax@ {
                                assert(tb[i as int].len() > 0 && new_max@ == tb[
                                    i as int].last().key);
                            } else {
                                let m0 = choose|b: int|
                                    0 <= b < bvs.take(i as int).len() && (#[trigger] bvs.take(
                                        i as int,
                                    )[b]).len() > 0 && max->0@ == bvs.take(i as int)[b].last().key;
                                assert(tb[m0] == bvs.take(i as int)[m0]);
                                assert(tb[m0].len() > 0 && new_max@ == tb[m0].last().key);
                            }
                        }
                        assert(is_max_last_key(new_max@, tb));
                    }
                    min = Some(new_min);
                    max = Some(new_max);
                },
                None => {
                    proof {
                        let tb = bvs.take(i + 1);
                        assert(tb[i as int] == bvs[i as int]);
                        match &min {
                            Some(m) => {
                                assert forall|b: int|
                                    0 <= b < tb.len() && (#[trigger] tb[b]).len()
                                        > 0 implies key_le(m@, tb[b].first().key) by {
                                    assert(tb[b] == bvs.take(i as int)[b]);
                                }
                                let m0 = choose|b: int|
                                    0 <= b < bvs.take(i as int).len() && (#[trigger] bvs.take(
                                        i as int,
                                    )[b]).len() > 0 && m@ == bvs.take(i as int)[b].first().key;
                                assert(tb[m0] == bvs.take(i as int)[m0]);
                                assert(is_min_first_key(m@, tb));
                            },
                            None => {},
                        }
                        match &max {
                            Some(m) => {
                                assert forall|b: int|
                                    0 <= b < tb.len() && (#[trigger] tb[b]).len()
                                        > 0 implies key_le(tb[b].last().key, m@) by {
                                    assert(tb[b] == bvs.take(i as int)[b]);
                                }
                                let m0 = choose|b: int|
                                    0 <= b < bvs.take(i as int).len() && (#[trigger] bvs.take(
                                        i as int,
                                    )[b]).len() > 0 && m@ == bvs.take(i as int)[b].last().key;
                                assert(tb[m0] == bvs.take(i as int)[m0]);
                                assert(is_max_last_key(m@, tb));
                            },
                            None => {},
                        }
                    }
                },
            }
            let id = batches[i].0;
            proof {
                lemma_filter_push_generic(id_opts.take(i as int), id_opts[i as int], id_pred);
                assert(id_opts.take(i + 1) =~= id_opts.take(i as int).push(id_opts[i as int]));
            }
            if let Some(fid) = id {
                wal_ids.push(fid);
                proof {
                    assert(wal_ids@ =~= recover_seq + id_opts.take(i + 1).filter(
                        id_pred,
                    ).map_values(|o: Option<FileId>| o->0));
                }
            } else {
                proof {
                    assert(wal_ids@ =~= recover_seq + id_opts.take(i + 1).filter(
                        id_pred,
                    ).map_values(|o: Option<FileId>| o->0));
                }
            }
            i = i + 1;
        }
        proof {
            assert(bvs.take(bvs.len() as int) =~= bvs);
            assert(id_opts.take(id_opts.len() as int) =~= id_opts);
        }
        let (mn, mx) = match (min, max) {
            (Some(mn), Some(mx)) => (mn, mx),
            _ => {
                return Err(CompactionError::EmptyLevel);
            },
        };
        // The content: the batches merged, newest first so newer rows
        // shadow older ones.
        let mut sources: Vec<Vec<Entry>> = Vec::new();
        let mut k: usize = batches.len();
        while k > 0
            invariant
                k <= batches@.len(),
                bvs == batch_views(*batches),
                forall|t: int| 0 <= t < batches@.len() ==> (#[trigger] batches@[t]).1.wf(),
                sources_view(sources).len() == batches@.len() - k,
                forall|t: int|
                    0 <= t < sources_view(sources).len() ==> #[trigger] sources_view(sources)[t]
                        == bvs[batches@.len() - 1 - t],
            decreases k,
        {
            k = k - 1;
            proof {
                assert(bvs[k as int] == batches@[k as int].1@);
            }
            let mut src: Vec<Entry> = Vec::new();
            let rows = batches[k].1.entries();
            let mut t: usize = 0;
            while t < rows.len()
                invariant
                    t <= rows@.len(),
                    src@.len() == t,
                    forall|u: int| 0 <= u < t ==> (#[trigger] src@[u])@ == rows@[u]@,
                decreases rows@.len() - t,
            {
                src.push(rows[t].clone());
                t = t + 1;
            }
            proof {
                assert(rows_view(src) =~= rows_view(*rows));
            }
            let ghost pre_view = sources_view(sources);
            let ghost pre_seq = sources@;
            sources.push(src);
            proof {
                assert forall|t2: int|
                    0 <= t2 < sources_view(sources).len() implies #[trigger] sources_view(
                    sources,
                )[t2] == bvs[batches@.len() - 1 - t2] by {
                    assert(sources_view(sources)[t2] == rows_view(sources@[t2]));
                    if t2 < sources_view(sources).len() - 1 {
                        assert(sources@[t2] == pre_seq[t2]);
                        assert(pre_view[t2] == rows_view(pre_seq[t2]));
                    } else {
                        assert(sources@[t2] == src);
                        assert(rows_view(src) == bvs[k as int]);
                    }
                }
            }
        }
        proof {
            assert(sources_view(sources) =~= bvs.reverse());
            assert forall|t: int| 0 <= t < sources_view(sources).len() implies entries_sorted(
                #[trigger] sources_view(sources)[t],
            ) by {
                let b = batches@.len() - 1 - t;
                assert(sources_view(sources)[t] == bvs[b]);
                assert(bvs[b] == batches@[b].1@);
                batches@[b].1.lemma_wf_sorted();
            }
        }
        let merged = merge_all(sources);
        let table = SsTable::new(merged);
        let gen = generate_file_id();
        let scope = Scope { min: mn, max: mx, gen, wal_ids: Some(wal_ids) };
        Ok(Some((scope, table)))
    }
}

/// `sel` is the run of `lvl`'s scopes starting at `lo`.
pub open spec fn contiguous_selection(
    sel: Seq<crate::scope::ScopeV>,
    lvl: Seq<crate::scope::ScopeV>,
    lo: int,
) -> bool {
    0 <= lo && lo + sel.len() <= lvl.len() && sel == lvl.subrange(lo, lo + sel.len())
}

/// `sel` is some contiguous run of `lvl`'s scopes.
pub open spec fn is_level_run(sel: Seq<crate::scope::ScopeV>, lvl: Seq<crate::scope::ScopeV>) -> bool {
    exists|lo: int| contiguous_selection(sel, lvl, lo)
}

/// `p` is the lower-bound search position for `k` on `lvl`: everything
/// before it ends below `k`, and the scope at it (when any) reaches `k`.
pub open spec fn search_pos_spec(lvl: Seq<crate::scope::ScopeV>, k: Seq<u8>, p: int) -> bool {
    &&& 0 <= p <= lvl.len()
    &&& forall|i: int| 0 <= i < p ==> key_lt((#[trigger] lvl[i]).max, k)
    &&& (p < lvl.len() ==> key_le(k, lvl[p].max))
}

/// Whether a scope touches the window `[mn, mx]` at either end.
pub open spec fn touches_spec(s: crate::scope::ScopeV, mn: Seq<u8>, mx: Seq<u8>) -> bool {
    s.contains_spec(mn) || s.contains_spec(mx)
}

/// How many consecutive scopes of `lvl`, from `at`, touch the window —
/// counting at most `cap` of them.
pub open spec fn touch_run_spec(
    lvl: Seq<crate::scope::ScopeV>,
    at: int,
    mn: Seq<u8>,
    mx: Seq<u8>,
    cap: int,
) -> int
    decreases lvl.len() - at when 0 <= at <= lvl.len()
{
    if cap <= 0 || at >= lvl.len() || !touches_spec(lvl[at], mn, mx) {
        0
    } else {
        1 + touch_run_spec(lvl, at + 1, mn, mx, cap - 1)
    }
}

proof fn lemma_touch_run_value(
    lvl: Seq<crate::scope::ScopeV>,
    p: int,
    q: int,
    mn: Seq<u8>,
    mx: Seq<u8>,
    cap: int,
)
    requires
        0 <= p <= q <= lvl.len(),
        q - p <= cap,
        forall|i: int| p <= i < q ==> touches_spec(#[trigger] lvl[i], mn, mx),
        q == lvl.len() || q - p == cap || !touches_spec(lvl[q], mn, mx),
    ensures
        touch_run_spec(lvl, p, mn, mx, cap) == q - p,
    decreases q - p,
{
    if p < q {
        assert(touches_spec(lvl[p], mn, mx));
        lemma_touch_run_value(lvl, p + 1, q, mn, mx, cap - 1);
    }
}

/// `m` is the least `min` over the scopes of `sel`.
pub open spec fn is_min_scope_min(m: Seq<u8>, sel: Seq<crate::scope::ScopeV>) -> bool {
    &&& exists|i: int| 0 <= i < sel.len() && m == (#[trigger] sel[i]).min
    &&& forall|i: int| 0 <= i < sel.len() ==> key_le(m, (#[trigger] sel[i]).min)
}

/// `m` is the greatest `max` over the scopes of `sel`.
pub open spec fn is_max_scope_max(m: Seq<u8>, sel: Seq<crate::scope::ScopeV>) -> bool {
    &&& exists|i: int| 0 <= i < sel.len() && m == (#[trigger] sel[i]).max
    &&& forall|i: int| 0 <= i < sel.len() ==> key_le((#[trigger] sel[i]).max, m)
}

/// What `this_level_scopes` picks, given the search position `p`: the
/// touching run from `p` capped by the selection cap; or, when that run
/// is empty, the level's oldest tables, as many as the fallback count
/// and the cap allow.
pub open spec fn this_selection_spec(
    lvl: Seq<crate::scope::ScopeV>,
    mn: Seq<u8>,
    mx: Seq<u8>,
    opt: DbOption,
    p: int,
    sel: Seq<crate::scope::ScopeV>,
    start: int,
    end: int,
) -> bool {
    let n = touch_run_spec(lvl, p, mn, mx, opt.major_l_selection_table_max_num as int);
    if n > 0 {
        &&& sel == lvl.subrange(p, p + n)
        &&& start == p
        &&& end == p + n - 1
    } else {
        let c0 = if opt.major_default_oldest_table_num <= lvl.len() {
            opt.major_default_oldest_table_num as int
        } else {
            lvl.len() as int
        };
        let taken = if c0 <= opt.major_l_selection_table_max_num {
            c0
        } else {
            opt.major_l_selection_table_max_num as int
        };
        &&& sel == lvl.subrange(0, taken)
        &&& start == 0
        &&& end == c0 - 1
    }
}

/// What `next_level_scopes` picks on a populated next level: inside the
/// search window for the refined ends, exactly the scopes containing
/// one of them.
pub open spec fn next_selection_spec(
    lvl: Seq<crate::scope::ScopeV>,
    rmn: Seq<u8>,
    rmx: Seq<u8>,
    sel: Seq<crate::scope::ScopeV>,
    start: int,
    end: int,
) -> bool {
    &&& search_pos_spec(lvl, rmn, start)
    &&& search_pos_spec(lvl, rmx, end)
    &&& {
        let lim = if end + 1 <= lvl.len() {
            end + 1
        } else {
            lvl.len() as int
        };
        sel == if start <= lim {
            lvl.subrange(start, lim).filter(|s: crate::scope::ScopeV| touches_spec(s, rmn, rmx))
        } else {
            Seq::<crate::scope::ScopeV>::empty()
        }
    }
}

/// The rows of a batch of new tables, oldest first.
pub open spec fn outputs_rows(v: Vec<(FileId, SsTable)>) -> Seq<Seq<EntryV>> {
    v@.map_values(|p: (FileId, SsTable)| p.1@)
}

/// Growing the store never hides an existing file.
pub proof fn lemma_store_rows_extend(
    t1: Seq<(FileId, SsTable)>,
    t2: Seq<(FileId, SsTable)>,
    gen: FileId,
)
    requires
        store_rows(t1, gen) is Some,
    ensures
        store_rows(t1 + t2, gen) == store_rows(t1, gen),
    decreases t1.len(),
{
    assert(t1.len() > 0);
    assert((t1 + t2)[0] == t1[0]);
    if t1[0].0 == gen {
    } else {
        assert((t1 + t2).skip(1) =~= t1.skip(1) + t2);
        lemma_store_rows_extend(t1.skip(1), t2, gen);
    }
}

/// Every file a version names is readable from the store — the version
/// invariant the compactor relies on.
pub open spec fn version_gens_present(v: VersionV, tables: Seq<(FileId, SsTable)>) -> bool {
    forall|l: int, i: int|
        0 <= l < v.level_slice.len() && 0 <= i < v.level_slice[l].len() ==> store_rows(
            tables,
            (#[trigger] v.level_slice[l][i]).gen,
        ) is Some
}

/// Every selected table present in the store.
pub open spec fn scopes_present(
    tables: Seq<(FileId, SsTable)>,
    sel: Seq<crate::scope::ScopeV>,
) -> bool {
    forall|i: int| 0 <= i < sel.len() ==> store_rows(tables, (#[trigger] sel[i]).gen) is Some
}

/// The selected tables' rows, in selection order.
pub open spec fn scopes_rows(
    tables: Seq<(FileId, SsTable)>,
    sel: Seq<crate::scope::ScopeV>,
) -> Seq<Seq<EntryV>> {
    sel.map_values(|sc: crate::scope::ScopeV| store_rows(tables, sc.gen)->Some_0)
}

/// One round's new tables against its merge sources: the concatenation
/// of their rows is sorted across table boundaries and carries exactly
/// the merged content; no table is empty.
pub open spec fn tables_content_rel(
    nt: Seq<(FileId, SsTable)>,
    sources: Seq<Seq<EntryV>>,
) -> bool {
    &&& entries_sorted(nt.map_values(|p: (FileId, SsTable)| p.1@).flatten_alt())
    &&& entries_map(nt.map_values(|p: (FileId, SsTable)| p.1@).flatten_alt()) == merged_map(
        sources,
    )
    &&& forall|k: int| 0 <= k < nt.len() ==> (#[trigger] nt[k]).1@.len() > 0 && nt[k].1.wf()
}

/// One `Add` edit per new table, its scope the table's first and last
/// keys.
pub open spec fn adds_of(nt: Seq<(FileId, SsTable)>, lvl: int) -> Seq<VersionEditV> {
    nt.map_values(
        |p: (FileId, SsTable)|
            (crate::version::VersionEditV::Add {
                level: lvl as u8,
                scope: crate::scope::ScopeV {
                    min: p.1@.first().key,
                    max: p.1@.last().key,
                    gen: p.0,
                    wal_ids: None,
                },
            }),
    )
}

/// One `Remove` edit per consumed scope, in selection order.
pub open spec fn removes_of(sel: Seq<crate::scope::ScopeV>, lvl: int) -> Seq<VersionEditV> {
    sel.map_values(
        |sc: crate::scope::ScopeV|
            (crate::version::VersionEditV::Remove { level: lvl as u8, gen: sc.gen }),
    )
}

/// One deferred deletion per consumed scope, in selection order.
pub open spec fn del_pairs(sel: Seq<crate::scope::ScopeV>, lvl: int) -> Seq<(FileId, int)> {
    sel.map_values(|sc: crate::scope::ScopeV| (sc.gen, lvl))
}

/// Deferred deletions, as values.
pub open spec fn dels_view(v: Vec<(FileId, usize)>) -> Seq<(FileId, int)> {
    v@.map_values(|p: (FileId, usize)| (p.0, p.1 as int))
}

/// The accounted bytes of a run of rows, saturating at `usize::MAX` —
/// the builder size that drives rolling to a new table.
pub open spec fn rows_size_spec(s: Seq<EntryV>) -> nat
    decreases s.len(),
{
    if s.len() == 0 {
        0
    } else {
        let rest = rows_size_spec(s.drop_last());
        if rest + crate::inmem::mutable::entry_size_spec(s.last()) <= usize::MAX {
            (rest + crate::inmem::mutable::entry_size_spec(s.last())) as nat
        } else {
            usize::MAX as nat
        }
    }
}

proof fn lemma_rows_size_bound(s: Seq<EntryV>)
    ensures
        rows_size_spec(s) <= usize::MAX,
    decreases s.len(),
{
    if s.len() > 0 {
        lemma_rows_size_bound(s.drop_last());
    }
}

/// The witness of one major round: what it selected on its level and
/// the next, the refined window, and the tables it built.
pub struct RoundPick {
    pub sel_l: Seq<crate::scope::ScopeV>,
    pub sel_ll: Seq<crate::scope::ScopeV>,
    pub rmn: Seq<u8>,
    pub rmx: Seq<u8>,
    pub new_tables: Seq<(FileId, SsTable)>,
}

/// Whether a witness fits one round's inputs: its selections follow the
/// selection rules, every selected table stands in the store, and the
/// new tables carry exactly the merge of the selected content — the
/// selected key range rewritten without gaps.
pub open spec fn round_ok(
    v: VersionV,
    opt: DbOption,
    level: int,
    mn: Seq<u8>,
    mx: Seq<u8>,
    tables: Seq<(FileId, SsTable)>,
    w: RoundPick,
) -> bool {
    &&& w.sel_l.len() > 0
    &&& is_level_run(w.sel_l, v.level_slice[level])
    &&& (crate::version::level_wf(v.level_slice[level]) ==> exists|p: int, st: int, en: int|
        search_pos_spec(v.level_slice[level], mn, p) && #[trigger] this_selection_spec(
            v.level_slice[level],
            mn,
            mx,
            opt,
            p,
            w.sel_l,
            st,
            en,
        ))
    &&& (if v.level_slice[level + 1].len() == 0 {
        w.sel_ll.len() == 0 && w.rmn == mn && w.rmx == mx
    } else {
        &&& is_min_scope_min(w.rmn, w.sel_l)
        &&& is_max_scope_max(w.rmx, w.sel_l)
        &&& exists|st: int, en: int| #[trigger]
            next_selection_spec(v.level_slice[level + 1], w.rmn, w.rmx, w.sel_ll, st, en)
    })
    &&& scopes_present(tables, w.sel_l)
    &&& scopes_present(tables, w.sel_ll)
    &&& tables_content_rel(
        w.new_tables,
        scopes_rows(tables, w.sel_l) + scopes_rows(tables, w.sel_ll),
    )
}

/// The edits one round appends: the `Add`s for its new tables, then the
/// `Remove`s for its level's selection, then those for the next level's.
pub open spec fn round_edits_of(w: RoundPick, level: int) -> Seq<VersionEditV> {
    adds_of(w.new_tables, level + 1) + removes_of(w.sel_l, level) + removes_of(
        w.sel_ll,
        level + 1,
    )
}

/// The deferred deletions one round appends: one per `Remove`, in the
/// same order.
pub open spec fn round_dels_of(w: RoundPick, level: int) -> Seq<(FileId, int)> {
    del_pairs(w.sel_l, level) + del_pairs(w.sel_ll, level + 1)
}

/// The whole run of major rounds from `level` up: nothing when the level
/// is at the top or within its budget; otherwise one round's worth of
/// edits, deletions and tables, followed by the run from the next level
/// over the refined window and the grown store.
pub open spec fn major_trace_spec(
    v: VersionV,
    opt: DbOption,
    level: int,
    mn: Seq<u8>,
    mx: Seq<u8>,
    tables: Seq<(FileId, SsTable)>,
    edits: Seq<VersionEditV>,
    dels: Seq<(FileId, int)>,
    added: Seq<(FileId, SsTable)>,
) -> bool
    decreases MAX_LEVEL - level,
        when 0 <= level <= MAX_LEVEL - 2
{
    if level >= MAX_LEVEL - 2 || v.level_slice[level].len() < crate::option::major_threshold_spec(
        opt,
        level as nat,
    ) {
        edits.len() == 0 && dels.len() == 0 && added.len() == 0
    } else {
        exists|w: RoundPick|
            {
                let re = round_edits_of(w, level);
                let rd = round_dels_of(w, level);
                &&& #[trigger] round_ok(v, opt, level, mn, mx, tables, w)
                &&& re.len() <= edits.len() && edits.take(re.len() as int) == re
                &&& rd.len() <= dels.len() && dels.take(rd.len() as int) == rd
                &&& w.new_tables.len() <= added.len() && added.take(w.new_tables.len() as int)
                    == w.new_tables
                &&& major_trace_spec(
                    v,
                    opt,
                    level + 1,
                    w.rmn,
                    w.rmx,
                    tables + w.new_tables,
                    edits.skip(re.len() as int),
                    dels.skip(rd.len() as int),
                    added.skip(w.new_tables.len() as int),
                )
            }
    }
}

impl Compactor {
    /// A copy of a table's rows, to feed the merge.
    fn clone_rows(rows: &Vec<Entry>) -> (r: Vec<Entry>)
        ensures
            rows_view(r) == rows_view(*rows),
    {
        let mut out: Vec<Entry> = Vec::new();
        let mut t: usize = 0;
        while t < rows.len()
            invariant
                t <= rows@.len(),
                out@.len() == t,
                forall|u: int| 0 <= u < t ==> (#[trigger] out@[u])@ == rows@[u]@,
            decreases rows@.len() - t,
        {
            out.push(rows[t].clone());
            t = t + 1;
        }
        proof {
            assert(rows_view(out) =~= rows_view(*rows));
        }
        out
    }

    /// Whether a scope touches either end of the window.
    fn touches_window(s: &Scope, min: &Vec<u8>, max: &Vec<u8>) -> (r: bool)
        ensures
            r == touches_spec(s@, min@, max@),
    {
        s.contains(min) || s.contains(max)
    }

    /// Which tables of `level` one major round consumes: the consecutive
    /// scopes from the search position that touch `[min, max]`, up to
    /// the selection cap; when none touch, the level's oldest tables.
    /// On a well-formed level the selection is pinned exactly; on the
    /// unordered level 0 it is at least a nonempty contiguous run.
    pub fn this_level_scopes(
        version: &Version,
        min: &Vec<u8>,
        max: &Vec<u8>,
        level: usize,
        option: &DbOption,
    ) -> (r: (Vec<Scope>, usize, usize))
        requires
            version@.wf(),
            level < MAX_LEVEL,
            version@.level_slice[level as int].len() > 0,
            option.major_default_oldest_table_num >= 1,
            option.major_l_selection_table_max_num >= 1,
        ensures
            r.0@.len() > 0,
            is_level_run(crate::version::slice_view(r.0), version@.level_slice[level as int]),
            crate::version::level_wf(version@.level_slice[level as int]) ==> exists|p: int|
                #[trigger] search_pos_spec(version@.level_slice[level as int], min@, p)
                    && this_selection_spec(
                    version@.level_slice[level as int],
                    min@,
                    max@,
                    *option,
                    p,
                    crate::version::slice_view(r.0),
                    r.1 as int,
                    r.2 as int,
                ),
    {
        let scopes = &version.level_slice[level];
        let ghost lvl = version@.level_slice[level as int];
        proof {
            assert(lvl == crate::version::slice_view(*scopes));
        }
        let mut meet: Vec<Scope> = Vec::new();
        let start_l = crate::version::scope_search(min, scopes);
        let mut idx = start_l;
        while idx < scopes.len() && meet.len() < option.major_l_selection_table_max_num
            && Self::touches_window(&scopes[idx], min, max)
            invariant
                start_l <= idx <= scopes@.len(),
                lvl == crate::version::slice_view(*scopes),
                idx == start_l + meet@.len(),
                meet@.len() <= option.major_l_selection_table_max_num,
                crate::version::slice_view(meet) == lvl.subrange(start_l as int, idx as int),
                forall|i: int| start_l <= i < idx ==> touches_spec(#[trigger] lvl[i], min@, max@),
            decreases scopes@.len() - idx,
        {
            proof {
                assert(lvl[idx as int] == scopes@[idx as int]@);
            }
            let ghost pre = crate::version::slice_view(meet);
            meet.push(scopes[idx].clone());
            proof {
                assert(crate::version::slice_view(meet) =~= pre.push(lvl[idx as int]));
                assert(crate::version::slice_view(meet) =~= lvl.subrange(start_l as int, idx + 1));
            }
            idx = idx + 1;
        }
        let end_l = idx;
        proof {
            if crate::version::level_wf(lvl) {
                assert(search_pos_spec(lvl, min@, start_l as int));
            }
            lemma_touch_run_value(
                lvl,
                start_l as int,
                idx as int,
                min@,
                max@,
                option.major_l_selection_table_max_num as int,
            );
        }
        if meet.len() == 0 {
            let cap = if option.major_default_oldest_table_num <= scopes.len() {
                option.major_default_oldest_table_num
            } else {
                scopes.len()
            };
            let mut idx2: usize = 0;
            while idx2 < cap && meet.len() < option.major_l_selection_table_max_num
                invariant
                    idx2 <= cap <= scopes@.len(),
                    cap >= 1,
                    idx2 <= option.major_l_selection_table_max_num,
                    lvl == crate::version::slice_view(*scopes),
                    crate::version::slice_view(meet) == lvl.subrange(0, idx2 as int),
                    meet@.len() == idx2,
                decreases cap - idx2,
            {
                proof {
                    assert(lvl[idx2 as int] == scopes@[idx2 as int]@);
                }
                let ghost pre = crate::version::slice_view(meet);
                meet.push(scopes[idx2].clone());
                proof {
                    assert(crate::version::slice_view(meet) =~= pre.push(lvl[idx2 as int]));
                    assert(crate::version::slice_view(meet) =~= lvl.subrange(0, idx2 + 1));
                }
                idx2 = idx2 + 1;
            }
            proof {
                assert(contiguous_selection(crate::version::slice_view(meet), lvl, 0));
                assert(is_level_run(
                    crate::version::slice_view(meet),
                    version@.level_slice[level as int],
                ));
                if crate::version::level_wf(lvl) {
                    assert(this_selection_spec(
                        lvl,
                        min@,
                        max@,
                        *option,
                        start_l as int,
                        crate::version::slice_view(meet),
                        0,
                        cap - 1,
                    ));
                }
            }
            (meet, 0, cap - 1)
        } else {
            proof {
                assert(contiguous_selection(crate::version::slice_view(meet), lvl, start_l as int));
                assert(is_level_run(
                    crate::version::slice_view(meet),
                    version@.level_slice[level as int],
                ));
                if crate::version::level_wf(lvl) {
                    assert(this_selection_spec(
                        lvl,
                        min@,
                        max@,
                        *option,
                        start_l as int,
                        crate::version::slice_view(meet),
                        start_l as int,
                        end_l - 1,
                    ));
                }
            }
            (meet, start_l, end_l - 1)
        }
    }

    /// Which tables of the next level the round must rewrite: those
    /// inside the search window for the refined ends that contain one of
    /// them, the refined window being the least `min` and greatest `max`
    /// across the selected source tables.
    pub fn next_level_scopes(
        version: &Version,
        min: &Vec<u8>,
        max: &Vec<u8>,
        level: usize,
        meet_scopes_l: &Vec<Scope>,
    ) -> (r: Result<(Vec<Scope>, usize, usize, Vec<u8>, Vec<u8>), CompactionError>)
        requires
            version@.wf(),
            level + 1 < MAX_LEVEL,
        ensures
            match r {
                Ok((scopes, start, end, rmin, rmax)) => {
                    &&& forall|t: int|
                        0 <= t < scopes@.len() ==> version@.level_slice[level + 1].contains(
                            (#[trigger] scopes@[t])@,
                        )
                    &&& if version@.level_slice[level + 1].len() == 0 {
                        scopes@.len() == 0 && start == 0 && end == 0 && rmin@ == min@ && rmax@
                            == max@
                    } else {
                        &&& meet_scopes_l@.len() > 0
                        &&& is_min_scope_min(
                            rmin@,
                            crate::version::slice_view(*meet_scopes_l),
                        )
                        &&& is_max_scope_max(
                            rmax@,
                            crate::version::slice_view(*meet_scopes_l),
                        )
                        &&& next_selection_spec(
                            version@.level_slice[level + 1],
                            rmin@,
                            rmax@,
                            crate::version::slice_view(scopes),
                            start as int,
                            end as int,
                        )
                    }
                },
                Err(e) => e == CompactionError::EmptyLevel && meet_scopes_l@.len() == 0
                    && version@.level_slice[level + 1].len() > 0,
            },
    {
        let next = &version.level_slice[level + 1];
        let ghost lvl = version@.level_slice[level + 1];
        let ghost sel_l = crate::version::slice_view(*meet_scopes_l);
        proof {
            assert(lvl == crate::version::slice_view(*next));
        }
        if next.len() == 0 {
            return Ok((Vec::new(), 0, 0, min.clone(), max.clone()));
        }
        if meet_scopes_l.len() == 0 {
            return Err(CompactionError::EmptyLevel);
        }
        // Refine the window to the selection's actual extent.
        let mut rmin = meet_scopes_l[0].min.clone();
        let mut rmax = meet_scopes_l[0].max.clone();
        proof {
            assert(sel_l[0] == meet_scopes_l@[0]@);
            crate::key::lemma_key_cmp_eq(rmin@, rmin@);
            crate::key::lemma_key_cmp_eq(rmax@, rmax@);
            assert(is_min_scope_min(rmin@, sel_l.take(1))) by {
                assert(sel_l.take(1)[0] == sel_l[0]);
            }
            assert(is_max_scope_max(rmax@, sel_l.take(1))) by {
                assert(sel_l.take(1)[0] == sel_l[0]);
            }
        }
        let mut t: usize = 1;
        while t < meet_scopes_l.len()
            invariant
                1 <= t <= meet_scopes_l@.len(),
                sel_l == crate::version::slice_view(*meet_scopes_l),
                is_min_scope_min(rmin@, sel_l.take(t as int)),
                is_max_scope_max(rmax@, sel_l.take(t as int)),
            decreases meet_scopes_l@.len() - t,
        {
            proof {
                assert(sel_l[t as int] == meet_scopes_l@[t as int]@);
            }
            let ghost old_min = rmin@;
            let ghost old_max = rmax@;
            if crate::key::key_cmp(&meet_scopes_l[t].min, &rmin) < 0 {
                rmin = meet_scopes_l[t].min.clone();
            }
            if crate::key::key_cmp(&rmax, &meet_scopes_l[t].max) < 0 {
                rmax = meet_scopes_l[t].max.clone();
            }
            proof {
                let tk = sel_l.take(t + 1);
                assert(tk[t as int] == sel_l[t as int]);
                assert forall|i: int| 0 <= i < tk.len() implies key_le(
                    rmin@,
                    (#[trigger] tk[i]).min,
                ) by {
                    if i < t {
                        assert(tk[i] == sel_l.take(t as int)[i]);
                        if key_lt(rmin@, old_min) {
                            crate::key::lemma_key_lt_le_trans(rmin@, old_min, tk[i].min);
                        }
                    } else {
                        crate::key::lemma_key_cmp_antisym(sel_l[t as int].min, old_min);
                        crate::key::lemma_key_cmp_eq(rmin@, rmin@);
                    }
                }
                assert(exists|i: int| 0 <= i < tk.len() && rmin@ == (#[trigger] tk[i]).min) by {
                    if rmin@ == sel_l[t as int].min {
                        assert(rmin@ == tk[t as int].min);
                    } else {
                        let w = choose|i: int|
                            0 <= i < sel_l.take(t as int).len() && old_min == (#[trigger] sel_l.take(
                                t as int,
                            )[i]).min;
                        assert(tk[w] == sel_l.take(t as int)[w]);
                        assert(rmin@ == tk[w].min);
                    }
                }
                assert forall|i: int| 0 <= i < tk.len() implies key_le(
                    (#[trigger] tk[i]).max,
                    rmax@,
                ) by {
                    if i < t {
                        assert(tk[i] == sel_l.take(t as int)[i]);
                        if key_lt(old_max, rmax@) {
                            crate::key::lemma_key_le_lt_trans(tk[i].max, old_max, rmax@);
                        }
                    } else {
                        crate::key::lemma_key_cmp_antisym(old_max, sel_l[t as int].max);
                        crate::key::lemma_key_cmp_eq(rmax@, rmax@);
                    }
                }
                assert(exists|i: int| 0 <= i < tk.len() && rmax@ == (#[trigger] tk[i]).max) by {
                    if rmax@ == sel_l[t as int].max {
                        assert(rmax@ == tk[t as int].max);
                    } else {
                        let w = choose|i: int|
                            0 <= i < sel_l.take(t as int).len() && old_max == (#[trigger] sel_l.take(
                                t as int,
                            )[i]).max;
                        assert(tk[w] == sel_l.take(t as int)[w]);
                        assert(rmax@ == tk[w].max);
                    }
                }
            }
            t = t + 1;
        }
        proof {
            assert(sel_l.take(sel_l.len() as int) =~= sel_l);
        }
        let start_ll = crate::version::scope_search(&rmin, next);
        let end_ll = crate::version::scope_search(&rmax, next);
        proof {
            assert(crate::version::level_wf(lvl)) by {
                assert(forall|i: int| 0 <= i < lvl.len() ==> (#[trigger] lvl[i]).wf());
            }
            assert(search_pos_spec(lvl, rmin@, start_ll as int));
            assert(search_pos_spec(lvl, rmax@, end_ll as int));
        }
        let lim = if end_ll >= next.len() {
            next.len()
        } else {
            end_ll + 1
        };
        let ghost pred = |s: crate::scope::ScopeV| touches_spec(s, rmin@, rmax@);
        let mut meet: Vec<Scope> = Vec::new();
        proof {
            reveal(Seq::filter);
            assert(lvl.subrange(start_ll as int, start_ll as int) =~= Seq::<
                crate::scope::ScopeV,
            >::empty());
            assert(crate::version::slice_view(meet) =~= lvl.subrange(
                start_ll as int,
                start_ll as int,
            ).filter(pred));
        }
        let mut idx = start_ll;
        while idx < lim
            invariant
                start_ll <= idx <= next@.len(),
                lim <= next@.len(),
                idx <= lim || idx == start_ll,
                lvl == crate::version::slice_view(*next),
                pred == (|s: crate::scope::ScopeV| touches_spec(s, rmin@, rmax@)),
                crate::version::slice_view(meet) == lvl.subrange(
                    start_ll as int,
                    idx as int,
                ).filter(pred),
                forall|u: int| 0 <= u < meet@.len() ==> lvl.contains((#[trigger] meet@[u])@),
            decreases lim - idx,
        {
            proof {
                assert(lvl[idx as int] == next@[idx as int]@);
                lemma_filter_push_generic(
                    lvl.subrange(start_ll as int, idx as int),
                    lvl[idx as int],
                    pred,
                );
                assert(lvl.subrange(start_ll as int, idx + 1) =~= lvl.subrange(
                    start_ll as int,
                    idx as int,
                ).push(lvl[idx as int]));
            }
            let s = &next[idx];
            if Self::touches_window(s, &rmin, &rmax) {
                let ghost pre = meet@;
                meet.push(s.clone());
                proof {
                    assert(crate::version::slice_view(meet) =~= crate::version::slice_view(
                        *next,
                    ).subrange(start_ll as int, idx + 1).filter(pred));
                    assert forall|u: int| 0 <= u < meet@.len() implies lvl.contains(
                        (#[trigger] meet@[u])@,
                    ) by {
                        if u < pre.len() {
                            assert(meet@[u] == pre[u]);
                        } else {
                            assert(meet@[u]@ == lvl[idx as int]);
                        }
                    }
                }
            }
            idx = idx + 1;
        }
        proof {
            if start_ll <= lim {
                assert(idx == lim);
            } else {
                assert(idx == start_ll);
                reveal(Seq::filter);
                assert(lvl.subrange(start_ll as int, start_ll as int) =~= Seq::<
                    crate::scope::ScopeV,
                >::empty());
                assert(crate::version::slice_view(meet) =~= Seq::<crate::scope::ScopeV>::empty());
            }
            assert(next_selection_spec(
                lvl,
                rmin@,
                rmax@,
                crate::version::slice_view(meet),
                start_ll as int,
                end_ll as int,
            ));
        }
        Ok((meet, start_ll, end_ll, rmin, rmax))
    }

    /// Stream the merged sources into tables, rolling to a new one when
    /// the accumulated size passes `max_sst_file_size`, and record one
    /// `Add` edit per table. The new tables partition the merged rows:
    /// their concatenation is exactly the merge, sorted across table
    /// boundaries, and each table's scope runs from its first to its
    /// last key — the consumed key range is covered without gaps.
    #[verifier::rlimit(100)]
    pub fn build_tables(
        option: &DbOption,
        version_edits: &mut Vec<VersionEdit>,
        level: usize,
        sources: Vec<Vec<Entry>>,
        outputs: &mut Vec<(FileId, SsTable)>,
    ) -> (r: Result<(), CompactionError>)
        requires
            level < MAX_LEVEL,
            option.max_sst_file_size >= 1,
            forall|k: int|
                0 <= k < sources_view(sources).len() ==> entries_sorted(
                    #[trigger] sources_view(sources)[k],
                ),
        ensures
            r is Ok,
            forall|k: int|
                old(outputs)@.len() <= k < final(outputs)@.len() - 1 ==> rows_size_spec(
                    (#[trigger] final(outputs)@[k]).1@,
                ) >= option.max_sst_file_size,
            forall|k: int|
                old(outputs)@.len() <= k < final(outputs)@.len() ==> rows_size_spec(
                    (#[trigger] final(outputs)@[k]).1@.drop_last(),
                ) < option.max_sst_file_size,
            final(version_edits)@.len() == old(version_edits)@.len() + final(outputs)@.len() - old(
                outputs,
            )@.len(),
            final(outputs)@.len() >= old(outputs)@.len(),
            final(version_edits)@.subrange(0, old(version_edits)@.len() as int) == old(
                version_edits,
            )@,
            final(outputs)@.subrange(0, old(outputs)@.len() as int) == old(outputs)@,
            entries_sorted(
                outputs_rows(*final(outputs)).subrange(
                    old(outputs)@.len() as int,
                    final(outputs)@.len() as int,
                ).flatten_alt(),
            ),
            entries_map(
                outputs_rows(*final(outputs)).subrange(
                    old(outputs)@.len() as int,
                    final(outputs)@.len() as int,
                ).flatten_alt(),
            ) == merged_map(sources_view(sources)),
            forall|k: int|
                old(outputs)@.len() <= k < final(outputs)@.len() ==> {
                    &&& (#[trigger] final(outputs)@[k]).1.wf()
                    &&& final(outputs)@[k].1@.len() > 0
                    &&& final(version_edits)@[old(version_edits)@.len() + k - old(
                        outputs,
                    )@.len()]@ == (crate::version::VersionEditV::Add {
                        level: level as u8,
                        scope: crate::scope::ScopeV {
                            min: final(outputs)@[k].1@.first().key,
                            max: final(outputs)@[k].1@.last().key,
                            gen: final(outputs)@[k].0,
                            wal_ids: None,
                        },
                    })
                },
    {
        let merged = merge_all(sources);
        let ghost mv = rows_view(merged);
        let ghost ed0 = version_edits@;
        let ghost out0 = outputs@;
        let mut chunk: Vec<Entry> = Vec::new();
        let mut size: usize = 0;
        let mut i: usize = 0;
        proof {
            assert(outputs_rows(*outputs).subrange(out0.len() as int, outputs@.len() as int)
                =~= Seq::<Seq<EntryV>>::empty());
            assert(Seq::<Seq<EntryV>>::empty().flatten_alt() =~= Seq::<EntryV>::empty());
            assert(Seq::<EntryV>::empty() + rows_view(chunk) =~= mv.take(0));
        }
        while i < merged.len()
            invariant
                i <= mv.len(),
                mv == rows_view(merged),
                entries_sorted(mv),
                entries_map(mv) == merged_map(sources_view(sources)),
                level < MAX_LEVEL,
                version_edits@.len() == ed0.len() + outputs@.len() - out0.len(),
                outputs@.len() >= out0.len(),
                version_edits@.subrange(0, ed0.len() as int) == ed0,
                outputs@.subrange(0, out0.len() as int) == out0,
                outputs_rows(*outputs).subrange(
                    out0.len() as int,
                    outputs@.len() as int,
                ).flatten_alt() + rows_view(chunk) == mv.take(i as int),
                rows_view(chunk).len() == 0 ==> size == 0,
                size == rows_size_spec(rows_view(chunk)),
                size < option.max_sst_file_size,
                option.max_sst_file_size >= 1,
                forall|k: int|
                    out0.len() <= k < outputs@.len() ==> rows_size_spec(
                        (#[trigger] outputs@[k]).1@,
                    ) >= option.max_sst_file_size,
                forall|k: int|
                    out0.len() <= k < outputs@.len() ==> rows_size_spec(
                        (#[trigger] outputs@[k]).1@.drop_last(),
                    ) < option.max_sst_file_size,
                forall|k: int|
                    out0.len() <= k < outputs@.len() ==> {
                        &&& (#[trigger] outputs@[k]).1.wf()
                        &&& outputs@[k].1@.len() > 0
                        &&& version_edits@[ed0.len() + k - out0.len()]@
                            == (crate::version::VersionEditV::Add {
                            level: level as u8,
                            scope: crate::scope::ScopeV {
                                min: outputs@[k].1@.first().key,
                                max: outputs@[k].1@.last().key,
                                gen: outputs@[k].0,
                                wal_ids: None,
                            },
                        })
                    },
            decreases mv.len() - i,
        {
            proof {
                assert(mv[i as int] == merged@[i as int]@);
            }
            let e = merged[i].clone();
            let esz = {
                let vsz = match &e.value {
                    Some(rec) => rec.byte_size(),
                    None => 0,
                };
                sat_add(sat_add(e.key.len(), 5), vsz)
            };
            let ghost chunk_pre = rows_view(chunk);
            let ghost size_pre = size;
            chunk.push(e);
            size = sat_add(size, esz);
            proof {
                assert(rows_view(chunk) =~= chunk_pre.push(mv[i as int]));
                assert(mv.take(i + 1) =~= mv.take(i as int).push(mv[i as int]));
                assert(outputs_rows(*outputs).subrange(
                    out0.len() as int,
                    outputs@.len() as int,
                ).flatten_alt() + rows_view(chunk) =~= mv.take(i + 1));
                assert(size == rows_size_spec(rows_view(chunk))) by {
                    assert(rows_view(chunk).drop_last() =~= chunk_pre);
                    assert(rows_view(chunk).last() == mv[i as int]);
                    assert(esz as int == if crate::inmem::mutable::entry_size_spec(mv[i as int])
                        <= usize::MAX {
                        crate::inmem::mutable::entry_size_spec(mv[i as int]) as int
                    } else {
                        usize::MAX as int
                    });
                }
            }
            i = i + 1;
            if size >= option.max_sst_file_size {
                let ghost sub_pre = outputs_rows(*outputs).subrange(
                    out0.len() as int,
                    outputs@.len() as int,
                );
                let ghost chv = rows_view(chunk);
                let ghost ed_pre = version_edits@;
                let ghost out_pre = outputs@;
                proof {
                    assert forall|t: int| 0 <= t < chv.len() implies #[trigger] chv[t] == mv[
                        i - chv.len() + t] by {
                        assert((sub_pre.flatten_alt() + chv)[sub_pre.flatten_alt().len() + t]
                            == chv[t]);
                        assert(mv.take(i as int)[sub_pre.flatten_alt().len() + t] == mv[
                            sub_pre.flatten_alt().len() + t]);
                    }
                    // The rolled table crossed the threshold exactly at
                    // its last row.
                    assert(rows_size_spec(chv) >= option.max_sst_file_size);
                    assert(rows_size_spec(chv.drop_last()) < option.max_sst_file_size) by {
                        assert(chv.drop_last() =~= chunk_pre);
                        assert(size_pre == rows_size_spec(chunk_pre));
                    }
                }
                Self::emit_table(version_edits, outputs, level, chunk, Ghost(mv), Ghost(i as int));
                chunk = Vec::new();
                size = 0;
                proof {
                    let sub_now = outputs_rows(*outputs).subrange(
                        out0.len() as int,
                        outputs@.len() as int,
                    );
                    assert(sub_now.drop_last() =~= sub_pre) by {
                        assert forall|u: int| 0 <= u < sub_pre.len() implies sub_now[u]
                            == sub_pre[u] by {
                            assert(outputs@.subrange(0, out_pre.len() as int) == out_pre);
                            assert(outputs@[out0.len() + u] == outputs@.subrange(
                                0,
                                out_pre.len() as int,
                            )[out0.len() + u]);
                        }
                    }
                    assert(sub_now.last() == chv) by {
                        assert(sub_now.last() == outputs@[outputs@.len() - 1].1@);
                    }
                    assert(sub_now.flatten_alt() == sub_now.drop_last().flatten_alt()
                        + sub_now.last());
                    assert(rows_view(chunk) =~= Seq::<EntryV>::empty());
                    assert(outputs_rows(*outputs).subrange(
                        out0.len() as int,
                        outputs@.len() as int,
                    ).flatten_alt() + rows_view(chunk) =~= mv.take(i as int));
                    assert(version_edits@.subrange(0, ed0.len() as int) =~= ed0) by {
                        assert(version_edits@.subrange(0, ed_pre.len() as int) == ed_pre);
                        assert forall|u: int| 0 <= u < ed0.len() implies version_edits@[u]
                            == ed0[u] by {
                            assert(version_edits@[u] == version_edits@.subrange(
                                0,
                                ed_pre.len() as int,
                            )[u]);
                            assert(ed_pre[u] == ed_pre.subrange(0, ed0.len() as int)[u]);
                        }
                    }
                    assert(outputs@.subrange(0, out0.len() as int) =~= out0) by {
                        assert forall|u: int| 0 <= u < out0.len() implies outputs@[u]
                            == out0[u] by {
                            assert(outputs@[u] == outputs@.subrange(0, out_pre.len() as int)[u]);
                            assert(out_pre[u] == out_pre.subrange(0, out0.len() as int)[u]);
                        }
                    }
                    assert forall|k: int| out0.len() <= k < outputs@.len() implies {
                        &&& (#[trigger] outputs@[k]).1.wf()
                        &&& outputs@[k].1@.len() > 0
                        &&& version_edits@[ed0.len() + k - out0.len()]@
                            == (crate::version::VersionEditV::Add {
                            level: level as u8,
                            scope: crate::scope::ScopeV {
                                min: outputs@[k].1@.first().key,
                                max: outputs@[k].1@.last().key,
                                gen: outputs@[k].0,
                                wal_ids: None,
                            },
                        })
                    } by {
                        if k < out_pre.len() {
                            assert(outputs@[k] == outputs@.subrange(0, out_pre.len() as int)[k]);
                            assert(version_edits@[ed0.len() + k - out0.len()]
                                == version_edits@.subrange(0, ed_pre.len() as int)[ed0.len() + k
                                - out0.len()]);
                        }
                    }
                    assert forall|k: int|
                        out0.len() <= k < outputs@.len() implies rows_size_spec(
                        (#[trigger] outputs@[k]).1@,
                    ) >= option.max_sst_file_size && rows_size_spec(outputs@[k].1@.drop_last())
                        < option.max_sst_file_size by {
                        if k < out_pre.len() {
                            assert(outputs@[k] == outputs@.subrange(0, out_pre.len() as int)[k]);
                        } else {
                            assert(outputs@[k].1@ == chv);
                        }
                    }
                }
            }
        }
        proof {
            assert(mv.take(mv.len() as int) =~= mv);
        }
        if chunk.len() > 0 {
            let ghost sub_pre = outputs_rows(*outputs).subrange(
                out0.len() as int,
                outputs@.len() as int,
            );
            let ghost chv = rows_view(chunk);
            let ghost ed_pre = version_edits@;
            let ghost out_pre = outputs@;
            proof {
                assert forall|t: int| 0 <= t < chv.len() implies #[trigger] chv[t] == mv[mv.len()
                    - chv.len() + t] by {
                    assert((sub_pre.flatten_alt() + chv)[sub_pre.flatten_alt().len() + t]
                        == chv[t]);
                }
            }
            Self::emit_table(
                version_edits,
                outputs,
                level,
                chunk,
                Ghost(mv),
                Ghost(mv.len() as int),
            );
            proof {
                let sub_now = outputs_rows(*outputs).subrange(
                    out0.len() as int,
                    outputs@.len() as int,
                );
                assert(sub_now.drop_last() =~= sub_pre) by {
                    assert forall|u: int| 0 <= u < sub_pre.len() implies sub_now[u]
                        == sub_pre[u] by {
                        assert(outputs@.subrange(0, out_pre.len() as int) == out_pre);
                        assert(outputs@[out0.len() + u] == outputs@.subrange(
                            0,
                            out_pre.len() as int,
                        )[out0.len() + u]);
                    }
                }
                assert(sub_now.last() == chv) by {
                    assert(sub_now.last() == outputs@[outputs@.len() - 1].1@);
                }
                assert(sub_now.flatten_alt() == sub_now.drop_last().flatten_alt()
                    + sub_now.last());
                assert(sub_now.flatten_alt() =~= mv);
                assert(version_edits@.subrange(0, ed0.len() as int) =~= ed0) by {
                    assert(version_edits@.subrange(0, ed_pre.len() as int) == ed_pre);
                    assert forall|u: int| 0 <= u < ed0.len() implies version_edits@[u]
                        == ed0[u] by {
                        assert(version_edits@[u] == version_edits@.subrange(
                            0,
                            ed_pre.len() as int,
                        )[u]);
                        assert(ed_pre[u] == ed_pre.subrange(0, ed0.len() as int)[u]);
                    }
                }
                assert(outputs@.subrange(0, out0.len() as int) =~= out0) by {
                    assert forall|u: int| 0 <= u < out0.len() implies outputs@[u] == out0[u] by {
                        assert(outputs@[u] == outputs@.subrange(0, out_pre.len() as int)[u]);
                        assert(out_pre[u] == out_pre.subrange(0, out0.len() as int)[u]);
                    }
                }
                assert forall|k: int| out0.len() <= k < outputs@.len() implies {
                    &&& (#[trigger] outputs@[k]).1.wf()
                    &&& outputs@[k].1@.len() > 0
                    &&& version_edits@[ed0.len() + k - out0.len()]@
                        == (crate::version::VersionEditV::Add {
                        level: level as u8,
                        scope: crate::scope::ScopeV {
                            min: outputs@[k].1@.first().key,
                            max: outputs@[k].1@.last().key,
                            gen: outputs@[k].0,
                            wal_ids: None,
                        },
                    })
                } by {
                    if k < out_pre.len() {
                        assert(outputs@[k] == outputs@.subrange(0, out_pre.len() as int)[k]);
                        assert(version_edits@[ed0.len() + k - out0.len()]
                            == version_edits@.subrange(0, ed_pre.len() as int)[ed0.len() + k
                            - out0.len()]);
                    }
                }
                // The closing table stayed under the roll threshold up
                // to its last row; every earlier table crossed it.
                lemma_rows_size_bound(chv.drop_last());
                assert(rows_size_spec(chv.drop_last()) <= rows_size_spec(chv));
                assert forall|k: int|
                    out0.len() <= k < outputs@.len() - 1 implies rows_size_spec(
                    (#[trigger] outputs@[k]).1@,
                ) >= option.max_sst_file_size by {
                    assert(outputs@[k] == outputs@.subrange(0, out_pre.len() as int)[k]);
                }
                assert forall|k: int|
                    out0.len() <= k < outputs@.len() implies rows_size_spec(
                    (#[trigger] outputs@[k]).1@.drop_last(),
                ) < option.max_sst_file_size by {
                    if k < out_pre.len() {
                        assert(outputs@[k] == outputs@.subrange(0, out_pre.len() as int)[k]);
                    } else {
                        assert(outputs@[k].1@ == chv);
                    }
                }
            }
        } else {
            proof {
                assert(outputs_rows(*outputs).subrange(
                    out0.len() as int,
                    outputs@.len() as int,
                ).flatten_alt() + rows_view(chunk) == mv);
                assert(outputs_rows(*outputs).subrange(
                    out0.len() as int,
                    outputs@.len() as int,
                ).flatten_alt() =~= mv);
            }
        }
        Ok(())
    }

    /// Clone the rows of every selected table, this level's selection
    /// then the next's, as the merge sources — or fail when a selected
    /// file is missing from the store.
    fn collect_sources(
        store: &SstStore,
        meet_l: &Vec<Scope>,
        meet_ll: &Vec<Scope>,
    ) -> (r: Result<Vec<Vec<Entry>>, CompactionError>)
        requires
            store.wf(),
        ensures
            match r {
                Ok(sources) => {
                    &&& scopes_present(store.tables@, crate::version::slice_view(*meet_l))
                    &&& scopes_present(store.tables@, crate::version::slice_view(*meet_ll))
                    &&& sources_view(sources) == scopes_rows(
                        store.tables@,
                        crate::version::slice_view(*meet_l),
                    ) + scopes_rows(store.tables@, crate::version::slice_view(*meet_ll))
                    &&& forall|k: int|
                        0 <= k < sources_view(sources).len() ==> entries_sorted(
                            #[trigger] sources_view(sources)[k],
                        )
                },
                Err(e) => e == CompactionError::Io && !(scopes_present(
                    store.tables@,
                    crate::version::slice_view(*meet_l),
                ) && scopes_present(store.tables@, crate::version::slice_view(*meet_ll))),
            },
    {
        let ghost st0 = store.tables@;
        let ghost sel_l = crate::version::slice_view(*meet_l);
        let ghost sel_ll = crate::version::slice_view(*meet_ll);
        let mut sources: Vec<Vec<Entry>> = Vec::new();
        let mut t: usize = 0;
        while t < meet_l.len()
            invariant
                t <= meet_l@.len(),
                store.wf(),
                st0 == store.tables@,
                sel_l == crate::version::slice_view(*meet_l),
                sources_view(sources).len() == t,
                forall|k: int| 0 <= k < t ==> store_rows(st0, (#[trigger] sel_l[k]).gen) is Some,
                forall|k: int|
                    0 <= k < t ==> #[trigger] sources_view(sources)[k] == store_rows(
                        st0,
                        sel_l[k].gen,
                    )->Some_0,
                forall|k: int|
                    0 <= k < sources_view(sources).len() ==> entries_sorted(
                        #[trigger] sources_view(sources)[k],
                    ),
            decreases meet_l@.len() - t,
        {
            proof {
                assert(sel_l[t as int] == meet_l@[t as int]@);
            }
            match store.get(meet_l[t].gen) {
                Some(table) => {
                    let ghost pre = sources_view(sources);
                    let ghost pre_seq = sources@;
                    let rows = Self::clone_rows(table.entries());
                    proof {
                        table.lemma_wf_sorted();
                    }
                    sources.push(rows);
                    proof {
                        assert forall|k: int|
                            0 <= k < sources_view(sources).len() implies entries_sorted(
                            #[trigger] sources_view(sources)[k],
                        ) by {
                            assert(sources_view(sources)[k] == rows_view(sources@[k]));
                            if k < pre.len() {
                                assert(sources@[k] == pre_seq[k]);
                                assert(pre[k] == rows_view(pre_seq[k]));
                            }
                        }
                        assert forall|k: int|
                            0 <= k < t + 1 implies #[trigger] sources_view(sources)[k]
                            == store_rows(st0, sel_l[k].gen)->Some_0 by {
                            assert(sources_view(sources)[k] == rows_view(sources@[k]));
                            if k < pre.len() {
                                assert(sources@[k] == pre_seq[k]);
                                assert(pre[k] == rows_view(pre_seq[k]));
                            }
                        }
                    }
                    t = t + 1;
                },
                None => {
                    return Err(CompactionError::Io);
                },
            }
        }
        let ghost n_l = sel_l.len() as int;
        let mut t2: usize = 0;
        while t2 < meet_ll.len()
            invariant
                t2 <= meet_ll@.len(),
                store.wf(),
                st0 == store.tables@,
                sel_l == crate::version::slice_view(*meet_l),
                sel_ll == crate::version::slice_view(*meet_ll),
                n_l == sel_l.len() as int,
                sources_view(sources).len() == n_l + t2,
                forall|k: int| 0 <= k < n_l ==> store_rows(st0, (#[trigger] sel_l[k]).gen) is Some,
                forall|k: int|
                    0 <= k < n_l ==> #[trigger] sources_view(sources)[k] == store_rows(
                        st0,
                        sel_l[k].gen,
                    )->Some_0,
                forall|k: int| 0 <= k < t2 ==> store_rows(st0, (#[trigger] sel_ll[k]).gen) is Some,
                forall|k: int|
                    0 <= k < t2 ==> #[trigger] sources_view(sources)[n_l + k] == store_rows(
                        st0,
                        sel_ll[k].gen,
                    )->Some_0,
                forall|k: int|
                    0 <= k < sources_view(sources).len() ==> entries_sorted(
                        #[trigger] sources_view(sources)[k],
                    ),
            decreases meet_ll@.len() - t2,
        {
            proof {
                assert(sel_ll[t2 as int] == meet_ll@[t2 as int]@);
            }
            match store.get(meet_ll[t2].gen) {
                Some(table) => {
                    let ghost pre = sources_view(sources);
                    let ghost pre_seq = sources@;
                    let rows = Self::clone_rows(table.entries());
                    proof {
                        table.lemma_wf_sorted();
                    }
                    sources.push(rows);
                    proof {
                        assert forall|k: int|
                            0 <= k < sources_view(sources).len() implies entries_sorted(
                            #[trigger] sources_view(sources)[k],
                        ) by {
                            assert(sources_view(sources)[k] == rows_view(sources@[k]));
                            if k < pre.len() {
                                assert(sources@[k] == pre_seq[k]);
                                assert(pre[k] == rows_view(pre_seq[k]));
                            }
                        }
                        assert forall|k: int|
                            0 <= k < n_l implies #[trigger] sources_view(sources)[k]
                            == store_rows(st0, sel_l[k].gen)->Some_0 by {
                            assert(sources_view(sources)[k] == rows_view(sources@[k]));
                            assert(sources@[k] == pre_seq[k]);
                            assert(pre[k] == rows_view(pre_seq[k]));
                        }
                        assert forall|k: int|
                            0 <= k < t2 + 1 implies #[trigger] sources_view(sources)[n_l + k]
                            == store_rows(st0, sel_ll[k].gen)->Some_0 by {
                            assert(sources_view(sources)[n_l + k] == rows_view(sources@[n_l + k]));
                            if k < t2 {
                                assert(sources@[n_l + k] == pre_seq[n_l + k]);
                                assert(pre[n_l + k] == rows_view(pre_seq[n_l + k]));
                            }
                        }
                    }
                    t2 = t2 + 1;
                },
                None => {
                    return Err(CompactionError::Io);
                },
            }
        }
        proof {
            assert(sources_view(sources) =~= scopes_rows(st0, sel_l) + scopes_rows(st0, sel_ll))
                by {
                assert forall|k: int|
                    0 <= k < sources_view(sources).len() implies #[trigger] sources_view(
                    sources,
                )[k] == (scopes_rows(st0, sel_l) + scopes_rows(st0, sel_ll))[k] by {
                    if k < n_l {
                        assert(sources_view(sources)[k] == store_rows(st0, sel_l[k].gen)->Some_0);
                    } else {
                        let kk = k - n_l;
                        assert(sources_view(sources)[n_l + kk] == store_rows(
                            st0,
                            sel_ll[kk].gen,
                        )->Some_0);
                    }
                }
            }
        }
        Ok(sources)
    }

    /// Append one `Remove` edit and one deferred deletion per consumed
    /// scope, in selection order.
    fn append_removes(
        version_edits: &mut Vec<VersionEdit>,
        delete_gens: &mut Vec<(FileId, usize)>,
        scopes: &Vec<Scope>,
        lvl: usize,
    )
        requires
            lvl < MAX_LEVEL,
        ensures
            final(version_edits)@.len() == old(version_edits)@.len() + scopes@.len(),
            final(version_edits)@.subrange(0, old(version_edits)@.len() as int) == old(
                version_edits,
            )@,
            forall|k: int|
                0 <= k < scopes@.len() ==> #[trigger] final(version_edits)@[old(
                    version_edits,
                )@.len() + k]@ == (crate::version::VersionEditV::Remove {
                    level: lvl as u8,
                    gen: crate::version::slice_view(*scopes)[k].gen,
                }),
            final(delete_gens)@.len() == old(delete_gens)@.len() + scopes@.len(),
            final(delete_gens)@.subrange(0, old(delete_gens)@.len() as int) == old(delete_gens)@,
            forall|k: int|
                0 <= k < scopes@.len() ==> #[trigger] final(delete_gens)@[old(delete_gens)@.len()
                    + k] == (crate::version::slice_view(*scopes)[k].gen, lvl),
    {
        let ghost sel = crate::version::slice_view(*scopes);
        let mut d: usize = 0;
        while d < scopes.len()
            invariant
                d <= scopes@.len(),
                lvl < MAX_LEVEL,
                sel == crate::version::slice_view(*scopes),
                version_edits@.len() == old(version_edits)@.len() + d,
                version_edits@.subrange(0, old(version_edits)@.len() as int) == old(
                    version_edits,
                )@,
                forall|k: int|
                    0 <= k < d ==> #[trigger] version_edits@[old(version_edits)@.len() + k]@ == (
                    crate::version::VersionEditV::Remove {
                        level: lvl as u8,
                        gen: sel[k].gen,
                    }),
                delete_gens@.len() == old(delete_gens)@.len() + d,
                delete_gens@.subrange(0, old(delete_gens)@.len() as int) == old(delete_gens)@,
                forall|k: int|
                    0 <= k < d ==> #[trigger] delete_gens@[old(delete_gens)@.len() + k] == (
                        sel[k].gen,
                        lvl,
                    ),
            decreases scopes@.len() - d,
        {
            let ghost ve_pre = version_edits@;
            let ghost dg_pre = delete_gens@;
            proof {
                assert(sel[d as int] == scopes@[d as int]@);
            }
            version_edits.push(VersionEdit::Remove { level: lvl as u8, gen: scopes[d].gen });
            delete_gens.push((scopes[d].gen, lvl));
            proof {
                assert(version_edits@.subrange(0, old(version_edits)@.len() as int)
                    =~= ve_pre.subrange(0, old(version_edits)@.len() as int));
                assert(delete_gens@.subrange(0, old(delete_gens)@.len() as int)
                    =~= dg_pre.subrange(0, old(delete_gens)@.len() as int));
            }
            d = d + 1;
        }
    }

    /// Major compaction: while a level up to the second-highest holds
    /// at least as many tables as its budget, merge its selected tables
    /// with the overlapping tables of the next level into new next-level
    /// tables. On success the appended edits, deferred deletions and new
    /// tables follow `major_trace_spec` exactly: round by round, the
    /// `Add`s for the merged content, then one `Remove` and one deferred
    /// deletion per consumed scope.
    ///
    /// When level 0 is within its budget this is a no-op: no edit, no
    /// deletion, no new table.
    pub fn major_compaction(
        version: &Version,
        option: &DbOption,
        min: &Vec<u8>,
        max: &Vec<u8>,
        version_edits: &mut Vec<VersionEdit>,
        delete_gens: &mut Vec<(FileId, usize)>,
        store: &mut SstStore,
    ) -> (r: Result<(), CompactionError>)
        requires
            version@.wf(),
            option.wf_spec(),
            old(store).wf(),
        ensures
            final(store).wf(),
            final(store).tables@.len() >= old(store).tables@.len(),
            final(store).tables@.subrange(0, old(store).tables@.len() as int) == old(
                store,
            ).tables@,
            final(version_edits)@.len() >= old(version_edits)@.len(),
            final(version_edits)@.subrange(0, old(version_edits)@.len() as int) == old(
                version_edits,
            )@,
            final(delete_gens)@.len() >= old(delete_gens)@.len(),
            final(delete_gens)@.subrange(0, old(delete_gens)@.len() as int) == old(delete_gens)@,
            version@.level_slice[0].len() < crate::option::major_threshold_spec(*option, 0)
                ==> r is Ok && final(version_edits)@ == old(version_edits)@
                && final(delete_gens)@ == old(delete_gens)@ && *final(store) == *old(store),
            r is Ok ==> major_trace_spec(
                version@,
                *option,
                0,
                min@,
                max@,
                old(store).tables@,
                edits_view(*final(version_edits)).skip(old(version_edits)@.len() as int),
                dels_view(*final(delete_gens)).skip(old(delete_gens)@.len() as int),
                final(store).tables@.skip(old(store).tables@.len() as int),
            ),
            version_gens_present(version@, old(store).tables@) ==> r is Ok,
            r is Err ==> r == Err::<(), CompactionError>(CompactionError::Io),
    {
        Self::major_rec(version, option, 0, min, max, version_edits, delete_gens, store)
    }

    /// One major round at `level` and, recursively, the rounds above it.
    #[verifier::rlimit(100)]
    #[verifier::spinoff_prover]
    fn major_rec(
        version: &Version,
        option: &DbOption,
        level: usize,
        min: &Vec<u8>,
        max: &Vec<u8>,
        version_edits: &mut Vec<VersionEdit>,
        delete_gens: &mut Vec<(FileId, usize)>,
        store: &mut SstStore,
    ) -> (r: Result<(), CompactionError>)
        requires
            version@.wf(),
            option.wf_spec(),
            old(store).wf(),
            level <= MAX_LEVEL,
        ensures
            final(store).wf(),
            final(store).tables@.len() >= old(store).tables@.len(),
            final(store).tables@.subrange(0, old(store).tables@.len() as int) == old(
                store,
            ).tables@,
            final(version_edits)@.len() >= old(version_edits)@.len(),
            final(version_edits)@.subrange(0, old(version_edits)@.len() as int) == old(
                version_edits,
            )@,
            final(delete_gens)@.len() >= old(delete_gens)@.len(),
            final(delete_gens)@.subrange(0, old(delete_gens)@.len() as int) == old(delete_gens)@,
            (level < MAX_LEVEL && version@.level_slice[level as int].len()
                < crate::option::major_threshold_spec(*option, level as nat)) ==> r is Ok
                && final(version_edits)@ == old(version_edits)@
                && final(delete_gens)@ == old(delete_gens)@ && *final(store) == *old(store),
            (r is Ok && level <= MAX_LEVEL - 2) ==> major_trace_spec(
                version@,
                *option,
                level as int,
                min@,
                max@,
                old(store).tables@,
                edits_view(*final(version_edits)).skip(old(version_edits)@.len() as int),
                dels_view(*final(delete_gens)).skip(old(delete_gens)@.len() as int),
                final(store).tables@.skip(old(store).tables@.len() as int),
            ),
            version_gens_present(version@, old(store).tables@) ==> r is Ok,
            r is Err ==> r == Err::<(), CompactionError>(CompactionError::Io),
        decreases MAX_LEVEL - level,
    {
        let ghost st0 = store.tables@;
        let ghost ed0 = version_edits@;
        let ghost dg0 = delete_gens@;
        if level >= MAX_LEVEL - 2 {
            proof {
                assert(edits_view(*version_edits).skip(version_edits@.len() as int) =~= Seq::<
                    VersionEditV,
                >::empty());
                assert(dels_view(*delete_gens).skip(delete_gens@.len() as int) =~= Seq::<
                    (FileId, int),
                >::empty());
                assert(store.tables@.skip(store.tables@.len() as int) =~= Seq::<
                    (FileId, SsTable),
                >::empty());
            }
            return Ok(());
        }
        if !option.is_threshold_exceeded_major(version, level) {
            proof {
                assert(edits_view(*version_edits).skip(version_edits@.len() as int) =~= Seq::<
                    VersionEditV,
                >::empty());
                assert(dels_view(*delete_gens).skip(delete_gens@.len() as int) =~= Seq::<
                    (FileId, int),
                >::empty());
                assert(store.tables@.skip(store.tables@.len() as int) =~= Seq::<
                    (FileId, SsTable),
                >::empty());
            }
            return Ok(());
        }
        proof {
            crate::option::lemma_threshold_positive(*option, level as nat);
        }
        let (meet_l, start_l, end_l) = Self::this_level_scopes(version, min, max, level, option);
        let (meet_ll, start_ll, end_ll, new_min, new_max) = match Self::next_level_scopes(
            version,
            min,
            max,
            level,
            &meet_l,
        ) {
            Ok(t) => t,
            Err(e) => {
                proof {
                    // Unreachable: the source selection is never empty.
                    assert(meet_l@.len() > 0);
                    assert(false);
                }
                return Err(e);
            },
        };
        let ghost sel_l = crate::version::slice_view(meet_l);
        let ghost sel_ll = crate::version::slice_view(meet_ll);
        // Every selected table, this level's then the next's, is one
        // merge source; an earlier source shadows a later one.
        let sources = match Self::collect_sources(store, &meet_l, &meet_ll) {
            Ok(s) => s,
            Err(e) => {
                proof {
                    if version_gens_present(version@, st0) {
                        // Every selected scope is a version scope, so its
                        // file is present: this failure is impossible.
                        assert(scopes_present(st0, sel_l)) by {
                            assert forall|k: int| 0 <= k < sel_l.len() implies store_rows(
                                st0,
                                (#[trigger] sel_l[k]).gen,
                            ) is Some by {
                                let lo = choose|lo: int|
                                    contiguous_selection(
                                        sel_l,
                                        version@.level_slice[level as int],
                                        lo,
                                    );
                                assert(sel_l[k] == version@.level_slice[level as int][lo + k]);
                                assert(store_rows(
                                    st0,
                                    (version@.level_slice[level as int][lo + k]).gen,
                                ) is Some);
                            }
                        }
                        assert(scopes_present(st0, sel_ll)) by {
                            assert forall|k: int| 0 <= k < sel_ll.len() implies store_rows(
                                st0,
                                (#[trigger] sel_ll[k]).gen,
                            ) is Some by {
                                assert(version@.level_slice[level + 1].contains(sel_ll[k])) by {
                                    assert(sel_ll[k] == meet_ll@[k]@);
                                }
                                let ii = choose|ii: int|
                                    0 <= ii < version@.level_slice[level + 1].len() && #[trigger]
                                    version@.level_slice[level + 1][ii] == sel_ll[k];
                                assert(store_rows(
                                    st0,
                                    (version@.level_slice[level + 1][ii]).gen,
                                ) is Some);
                            }
                        }
                        assert(false);
                    }
                }
                return Err(e);
            },
        };
        let mut outputs: Vec<(FileId, SsTable)> = Vec::new();
        match Self::build_tables(option, version_edits, level + 1, sources, &mut outputs) {
            Ok(()) => {},
            Err(e) => {
                proof {
                    // Unreachable: building tables cannot fail.
                    assert(false);
                }
                return Err(e);
            },
        }
        let ghost out0 = outputs@;
        let ghost ed_adds = version_edits@;
        proof {
            assert(outputs_rows(outputs).subrange(0, out0.len() as int) =~= outputs_rows(outputs));
            assert(tables_content_rel(out0, scopes_rows(st0, sel_l) + scopes_rows(st0, sel_ll)))
                by {
                assert(out0.map_values(|pp: (FileId, SsTable)| pp.1@) =~= outputs_rows(outputs));
            }
            assert(edits_view(*version_edits).skip(ed0.len() as int) =~= adds_of(
                out0,
                level + 1,
            )) by {
                assert forall|k: int|
                    0 <= k < out0.len() implies #[trigger] edits_view(*version_edits)[ed0.len()
                    + k] == adds_of(out0, level + 1)[k] by {
                    assert(edits_view(*version_edits)[ed0.len() + k] == version_edits@[ed0.len()
                        + k]@);
                }
            }
        }
        // The new tables enter the store in build order.
        let mut outs = outputs;
        let ghost n_out = out0.len() as int;
        while outs.len() > 0
            invariant
                store.wf(),
                outs@.len() <= n_out,
                outs@ =~= out0.skip(n_out - outs@.len()),
                store.tables@ =~= st0 + out0.take(n_out - outs@.len()),
                n_out == out0.len() as int,
                forall|k: int| 0 <= k < out0.len() ==> (#[trigger] out0[k]).1.wf(),
            decreases outs@.len(),
        {
            let ghost st_pre = store.tables@;
            let ghost k_done = n_out - outs@.len();
            let (gen, table) = outs.remove(0);
            proof {
                assert(out0.skip(k_done)[0] == out0[k_done]);
                assert(outs@ =~= out0.skip(k_done + 1)) by {
                    assert(outs@ =~= out0.skip(k_done).skip(1));
                }
                assert(out0[k_done].1.wf());
            }
            store.insert(gen, table);
            proof {
                assert(store.tables@ =~= st0 + out0.take(k_done + 1)) by {
                    assert(store.tables@ == st_pre.push((gen, table)));
                    assert((gen, table) == out0[k_done]);
                }
            }
        }
        proof {
            assert(out0.take(n_out) =~= out0);
            assert(store.tables@ =~= st0 + out0);
        }
        // Consumed tables leave the version and queue for deletion.
        let ghost ed_mid = version_edits@;
        let ghost dg_mid = delete_gens@;
        proof {
            assert(ed_mid == ed_adds);
            assert(dg_mid == dg0);
        }
        Self::append_removes(version_edits, delete_gens, &meet_l, level);
        let ghost ed_rl = version_edits@;
        let ghost dg_rl = delete_gens@;
        Self::append_removes(version_edits, delete_gens, &meet_ll, level + 1);
        let ghost w = RoundPick { sel_l, sel_ll, rmn: new_min@, rmx: new_max@, new_tables: out0 };
        let ghost ed_round = version_edits@;
        let ghost dg_round = delete_gens@;
        proof {
            // The round's appended edits and deletions are exactly the
            // witness's.
            assert(edits_view(*version_edits).skip(ed0.len() as int) =~= round_edits_of(
                w,
                level as int,
            )) by {
                assert(ed_adds.len() == ed0.len() + out0.len());
                assert(ed_rl.len() == ed_adds.len() + sel_l.len());
                assert(ed_round.len() == ed_rl.len() + sel_ll.len());
                assert forall|k: int|
                    0 <= k < ed_round.len() - ed0.len() implies #[trigger] edits_view(
                    *version_edits,
                ).skip(ed0.len() as int)[k] == round_edits_of(w, level as int)[k] by {
                    assert(edits_view(*version_edits).skip(ed0.len() as int)[k] == edits_view(
                        *version_edits,
                    )[ed0.len() + k]);
                    assert(edits_view(*version_edits)[ed0.len() + k] == version_edits@[ed0.len()
                        + k]@);
                    if k < n_out {
                        assert(version_edits@[ed0.len() + k] == ed_mid[ed0.len() + k]) by {
                            assert(ed_rl[ed0.len() + k] == ed_rl.subrange(
                                0,
                                ed_mid.len() as int,
                            )[ed0.len() + k]);
                            assert(version_edits@[ed0.len() + k] == version_edits@.subrange(
                                0,
                                ed_rl.len() as int,
                            )[ed0.len() + k]);
                        }
                        assert(ed_mid[ed0.len() + k] == ed_adds[ed0.len() + k]);
                        assert(ed_adds[ed0.len() + k]@ == adds_of(out0, level + 1)[k]);
                    } else if k < n_out + sel_l.len() {
                        assert(version_edits@[ed0.len() + k] == ed_rl[ed0.len() + k]) by {
                            assert(version_edits@[ed0.len() + k] == version_edits@.subrange(
                                0,
                                ed_rl.len() as int,
                            )[ed0.len() + k]);
                        }
                        assert(ed_rl[ed_mid.len() + (k - n_out)]@ == (
                        crate::version::VersionEditV::Remove {
                            level: level as u8,
                            gen: sel_l[k - n_out].gen,
                        }));
                    } else {
                        assert(version_edits@[ed_rl.len() + (k - n_out - sel_l.len())]@ == (
                        crate::version::VersionEditV::Remove {
                            level: (level + 1) as u8,
                            gen: sel_ll[k - n_out - sel_l.len()].gen,
                        }));
                    }
                }
            }
            assert(dels_view(*delete_gens).skip(dg0.len() as int) =~= round_dels_of(
                w,
                level as int,
            )) by {
                assert(dg_rl.len() == dg0.len() + sel_l.len());
                assert(dg_round.len() == dg_rl.len() + sel_ll.len());
                assert forall|k: int|
                    0 <= k < dg_round.len() - dg0.len() implies #[trigger] dels_view(
                    *delete_gens,
                ).skip(dg0.len() as int)[k] == round_dels_of(w, level as int)[k] by {
                    assert(dels_view(*delete_gens).skip(dg0.len() as int)[k] == dels_view(
                        *delete_gens,
                    )[dg0.len() + k]);
                    assert(dels_view(*delete_gens)[dg0.len() + k] == (delete_gens@[dg0.len()
                        + k].0, delete_gens@[dg0.len() + k].1 as int));
                    if k < sel_l.len() {
                        assert(delete_gens@[dg0.len() + k] == dg_rl[dg0.len() + k]) by {
                            assert(delete_gens@[dg0.len() + k] == delete_gens@.subrange(
                                0,
                                dg_rl.len() as int,
                            )[dg0.len() + k]);
                        }
                        assert(dg_rl[dg_mid.len() + k] == (sel_l[k].gen, level));
                        assert(round_dels_of(w, level as int)[k] == del_pairs(
                            sel_l,
                            level as int,
                        )[k]);
                        assert(del_pairs(sel_l, level as int)[k] == (sel_l[k].gen, level as int));
                    } else {
                        let kk = k - sel_l.len() as int;
                        assert(delete_gens@[dg_rl.len() + kk] == (
                            sel_ll[kk].gen,
                            (level + 1) as usize,
                        ));
                        assert(round_dels_of(w, level as int)[k] == del_pairs(
                            sel_ll,
                            level + 1,
                        )[kk]);
                        assert(del_pairs(sel_ll, level + 1)[kk] == (sel_ll[kk].gen, level + 1));
                    }
                }
            }
        }
        let ghost pre_rec_edits = edits_view(*version_edits);
        let ghost pre_rec_dels = dels_view(*delete_gens);
        let ghost pre_rec_tables = store.tables@;
        match Self::major_rec(
            version,
            option,
            level + 1,
            &new_min,
            &new_max,
            version_edits,
            delete_gens,
            store,
        ) {
            Ok(()) => {},
            Err(e) => {
                proof {
                    if version_gens_present(version@, st0) {
                        assert(version_gens_present(version@, pre_rec_tables)) by {
                            assert forall|l: int, i: int|
                                0 <= l < version@.level_slice.len() && 0 <= i < version@
                                    .level_slice[l].len() implies store_rows(
                                pre_rec_tables,
                                (#[trigger] version@.level_slice[l][i]).gen,
                            ) is Some by {
                                lemma_store_rows_extend(
                                    st0,
                                    out0,
                                    version@.level_slice[l][i].gen,
                                );
                                assert(pre_rec_tables == st0 + out0);
                            }
                        }
                        assert(false);
                    }
                }
                return Err(e);
            },
        }
        proof {
            let re = round_edits_of(w, level as int);
            let rd = round_dels_of(w, level as int);
            let e_seg = edits_view(*version_edits).skip(ed0.len() as int);
            let d_seg = dels_view(*delete_gens).skip(dg0.len() as int);
            let t_seg = store.tables@.skip(st0.len() as int);
            // What stood before the recursion is still there in front.
            assert forall|i: int| 0 <= i < ed_round.len() implies #[trigger] version_edits@[i]
                == ed_round[i] by {
                assert(version_edits@[i] == version_edits@.subrange(0, ed_round.len() as int)[i]);
            }
            assert forall|i: int| 0 <= i < dg_round.len() implies #[trigger] delete_gens@[i]
                == dg_round[i] by {
                assert(delete_gens@[i] == delete_gens@.subrange(0, dg_round.len() as int)[i]);
            }
            assert forall|i: int| 0 <= i < pre_rec_tables.len() implies #[trigger] store.tables@[i]
                == pre_rec_tables[i] by {
                assert(store.tables@[i] == store.tables@.subrange(
                    0,
                    pre_rec_tables.len() as int,
                )[i]);
            }
            // The appended segments split into this round's part and the
            // recursion's tail.
            assert(e_seg.take(re.len() as int) =~= re) by {
                assert forall|k: int| 0 <= k < re.len() implies e_seg.take(re.len() as int)[k]
                    == re[k] by {
                    assert(edits_view(*version_edits)[ed0.len() + k] == version_edits@[ed0.len()
                        + k]@);
                    assert(pre_rec_edits[ed0.len() + k] == ed_round[ed0.len() + k]@);
                    assert(pre_rec_edits.skip(ed0.len() as int)[k] == pre_rec_edits[ed0.len()
                        + k]);
                }
            }
            assert(d_seg.take(rd.len() as int) =~= rd) by {
                assert forall|k: int| 0 <= k < rd.len() implies d_seg.take(rd.len() as int)[k]
                    == rd[k] by {
                    assert(dels_view(*delete_gens)[dg0.len() + k] == (delete_gens@[dg0.len()
                        + k].0, delete_gens@[dg0.len() + k].1 as int));
                    assert(pre_rec_dels[dg0.len() + k] == (dg_round[dg0.len() + k].0, dg_round[
                        dg0.len() + k].1 as int));
                    assert(pre_rec_dels.skip(dg0.len() as int)[k] == pre_rec_dels[dg0.len() + k]);
                }
            }
            assert(t_seg.take(out0.len() as int) =~= out0) by {
                assert forall|k: int| 0 <= k < out0.len() implies t_seg.take(out0.len() as int)[k]
                    == out0[k] by {
                    assert(pre_rec_tables[st0.len() + k] == (st0 + out0)[st0.len() + k]);
                }
            }
            // The recursion's own trace picks up past this round's part.
            assert(e_seg.skip(re.len() as int) =~= edits_view(*version_edits).skip(
                ed_round.len() as int,
            ));
            assert(d_seg.skip(rd.len() as int) =~= dels_view(*delete_gens).skip(
                dg_round.len() as int,
            ));
            assert(t_seg.skip(out0.len() as int) =~= store.tables@.skip(
                pre_rec_tables.len() as int,
            ));
            // The witness fits the round.
            assert(round_ok(version@, *option, level as int, min@, max@, st0, w)) by {
                let lvl_l = version@.level_slice[level as int];
                if crate::version::level_wf(lvl_l) {
                    let p = choose|p: int|
                        #[trigger] search_pos_spec(lvl_l, min@, p) && this_selection_spec(
                            lvl_l,
                            min@,
                            max@,
                            *option,
                            p,
                            sel_l,
                            start_l as int,
                            end_l as int,
                        );
                    assert(this_selection_spec(
                        lvl_l,
                        min@,
                        max@,
                        *option,
                        p,
                        w.sel_l,
                        start_l as int,
                        end_l as int,
                    ));
                }
                if version@.level_slice[level + 1].len() > 0 {
                    assert(next_selection_spec(
                        version@.level_slice[level + 1],
                        w.rmn,
                        w.rmx,
                        w.sel_ll,
                        start_ll as int,
                        end_ll as int,
                    ));
                }
            }
            assert(major_trace_spec(
                version@,
                *option,
                level as int,
                min@,
                max@,
                st0,
                e_seg,
                d_seg,
                t_seg,
            )) by {
                assert(round_ok(version@, *option, level as int, min@, max@, st0, w));
                assert(major_trace_spec(
                    version@,
                    *option,
                    level + 1,
                    w.rmn,
                    w.rmx,
                    st0 + out0,
                    e_seg.skip(re.len() as int),
                    d_seg.skip(rd.len() as int),
                    t_seg.skip(out0.len() as int),
                ));
            }
        }
        Ok(())
    }


    /// Put a consumed queue prefix and the taken recovered WAL ids
    /// back: a failed flush must leave no trace on the queue.
    fn restore_queue(
        storage: &mut DbStorage,
        excess: Vec<(Option<FileId>, Immutable)>,
        taken: Option<Vec<FileId>>,
    )
        requires
            old(storage).mutable.wf(),
            forall|i: int|
                0 <= i < old(storage).immutables@.len() ==> (#[trigger] old(
                    storage,
                ).immutables@[i]).1.wf(),
            forall|i: int| 0 <= i < excess@.len() ==> (#[trigger] excess@[i]).1.wf(),
        ensures
            final(storage).wf(),
            final(storage).mutable == old(storage).mutable,
            queue_view(final(storage).immutables) == queue_view(excess) + queue_view(
                old(storage).immutables,
            ),
            ids_view(final(storage).recover_wal_ids) == ids_view(taken),
    {
        let ghost ev = queue_view(excess);
        let ghost ewf = excess@;
        let mut q = excess;
        q.append(&mut storage.immutables);
        core::mem::swap(&mut storage.immutables, &mut q);
        storage.recover_wal_ids = taken;
        proof {
            assert(queue_view(storage.immutables) =~= ev + queue_view(old(storage).immutables))
                by {
                assert forall|i: int|
                    0 <= i < storage.immutables@.len() implies #[trigger] queue_view(
                    storage.immutables,
                )[i] == (ev + queue_view(old(storage).immutables))[i] by {
                    if i < ewf.len() {
                        assert(storage.immutables@[i] == ewf[i]);
                        assert(ev[i] == (ewf[i].0, ewf[i].1@));
                    } else {
                        assert(storage.immutables@[i] == old(storage).immutables@[i - ewf.len()]);
                    }
                }
            }
            assert forall|i: int| 0 <= i < storage.immutables@.len() implies (
            #[trigger] storage.immutables@[i]).1.wf() by {
                if i < ewf.len() {
                    assert(storage.immutables@[i] == ewf[i]);
                } else {
                    assert(storage.immutables@[i] == old(storage).immutables@[i - ewf.len()]);
                }
            }
        }
    }

    /// A copy of the recovered WAL ids.
    fn clone_ids(v: &Option<Vec<FileId>>) -> (r: Option<Vec<FileId>>)
        ensures
            ids_view(r) == ids_view(*v),
    {
        match v {
            Some(ids) => {
                let c = ids.clone();
                proof {
                    assert(c@ =~= ids@);
                }
                Some(c)
            },
            None => None,
        }
    }

    /// One round of the compaction task. A nonempty mutable rotates into
    /// the queue; the queue flushes when asked to or when it has grown
    /// past its threshold, consuming exactly its oldest `chunk_num`
    /// batches into one level-0 table and keeping the rest in order,
    /// running major compaction first when level 0 would overflow, and
    /// publishing the batch of edits atomically. An empty round changes
    /// nothing; a failed flush leaves the queue and the recovered WAL
    /// ids as the rotation put them.
    #[verifier::rlimit(100)]
    #[verifier::spinoff_prover]
    pub fn check_then_compaction(
        &self,
        storage: &mut DbStorage,
        version: &mut Version,
        store: &mut SstStore,
        is_manual: bool,
    ) -> (r: Result<(), CompactionError>)
        requires
            old(storage).wf(),
            old(version)@.wf(),
            old(store).wf(),
            self.option.wf_spec(),
            self.record_schema.wf(),
            old(storage).mutable.schema_view() == self.record_schema@,
            old(version).ts < Timestamp::MAX,
        ensures
            final(storage).wf(),
            final(version)@.wf(),
            final(store).wf(),
            final(storage).mutable.schema_view() == self.record_schema@,
            r is Ok ==> final(storage).mutable@.len() == 0,
            (r is Ok && is_manual) ==> final(storage).immutables@.len() == 0,
            (!is_manual && old(storage).mutable@.len() == 0) ==> r is Ok && *final(storage)
                == *old(storage) && *final(version) == *old(version) && *final(store) == *old(
                store,
            ),
            queue_view(final(storage).immutables) == (if r is Ok && round_flushes_spec(
                self.option,
                is_manual,
                *old(storage),
            ) {
                rotated_queue_spec(*old(storage)).skip(
                    chunk_num_spec(
                        self.option,
                        is_manual,
                        rotated_queue_spec(*old(storage)).len() as int,
                    ),
                )
            } else {
                rotated_queue_spec(*old(storage))
            }),
            (r is Ok && round_flushes_spec(self.option, is_manual, *old(storage)))
                ==> final(storage).recover_wal_ids is None,
            !(r is Ok && round_flushes_spec(self.option, is_manual, *old(storage))) ==> ids_view(
                final(storage).recover_wal_ids,
            ) == ids_view(old(storage).recover_wal_ids),
            (r is Ok && round_flushes_spec(self.option, is_manual, *old(storage))
                && chunk_num_spec(
                self.option,
                is_manual,
                rotated_queue_spec(*old(storage)).len() as int,
            ) > 0) ==> final(version).ts == old(version).ts + 1,
            (r is Ok && is_manual && old(storage).mutable@.len() > 0) ==> exists|t: int|
                table_covers(final(store).tables@, t, old(storage).mutable.map_view()),
            (r is Ok && round_flushes_spec(self.option, is_manual, *old(storage))
                && chunk_num_spec(
                self.option,
                is_manual,
                rotated_queue_spec(*old(storage)).len() as int,
            ) > 0) ==> exists|t: int|
                queue_covered(
                    final(store).tables@,
                    t,
                    rotated_queue_spec(*old(storage)),
                    chunk_num_spec(
                        self.option,
                        is_manual,
                        rotated_queue_spec(*old(storage)).len() as int,
                    ),
                ),
            r == Err::<(), CompactionError>(CompactionError::EmptyLevel) <==> (round_flushes_spec(
                self.option,
                is_manual,
                *old(storage),
            ) && chunk_num_spec(
                self.option,
                is_manual,
                rotated_queue_spec(*old(storage)).len() as int,
            ) > 0 && (forall|b: int|
                0 <= b < chunk_num_spec(
                    self.option,
                    is_manual,
                    rotated_queue_spec(*old(storage)).len() as int,
                ) ==> (#[trigger] rotated_queue_spec(*old(storage))[b]).1.len() == 0)),
            version_gens_present(old(version)@, old(store).tables@) ==> r != Err::<
                (),
                CompactionError,
            >(CompactionError::Io),
    {
        let ghost rq = rotated_queue_spec(*old(storage));
        if !storage.mutable.is_empty() {
            let mut full = Mutable::new(&self.option, self.record_schema.clone());
            core::mem::swap(&mut storage.mutable, &mut full);
            let (file_id, immutable) = full.into_immutable();
            storage.immutables.push((file_id, immutable));
            proof {
                assert forall|i: int| 0 <= i < storage.immutables@.len() implies (
                #[trigger] storage.immutables@[i]).1.wf() by {
                    if i < old(storage).immutables@.len() {
                        assert(storage.immutables@[i] == old(storage).immutables@[i]);
                    }
                }
                assert(queue_view(storage.immutables) =~= rq) by {
                    assert forall|i: int|
                        0 <= i < storage.immutables@.len() implies #[trigger] queue_view(
                        storage.immutables,
                    )[i] == rq[i] by {
                        if i < old(storage).immutables@.len() {
                            assert(storage.immutables@[i] == old(storage).immutables@[i]);
                        }
                    }
                }
            }
        } else if !is_manual {
            return Ok(());
        }
        proof {
            assert(queue_view(storage.immutables) == rq);
        }
        let queue_len = storage.immutables.len();
        proof {
            assert(queue_len == rq.len());
        }
        if (is_manual && queue_len > 0) || queue_len > self.option.immutable_chunk_max_num {
            let mut taken: Option<Vec<FileId>> = None;
            core::mem::swap(&mut storage.recover_wal_ids, &mut taken);
            let ids_backup = Self::clone_ids(&taken);
            let recover_wal_ids = taken;
            let chunk_num = if is_manual {
                queue_len
            } else {
                if self.option.immutable_chunk_num < queue_len {
                    self.option.immutable_chunk_num
                } else {
                    queue_len
                }
            };
            proof {
                assert(chunk_num == chunk_num_spec(self.option, is_manual, rq.len() as int));
            }
            // Split the queue: the oldest `chunk_num` batches flush, the
            // rest stay.
            let mut rest = storage.immutables.split_off(chunk_num);
            core::mem::swap(&mut storage.immutables, &mut rest);
            let excess = rest;
            proof {
                assert forall|i: int| 0 <= i < excess@.len() implies (
                #[trigger] excess@[i]).1.wf() by {}
                assert forall|i: int| 0 <= i < storage.immutables@.len() implies (
                #[trigger] storage.immutables@[i]).1.wf() by {}
                assert(queue_view(excess) =~= rq.take(chunk_num as int));
                assert(queue_view(storage.immutables) =~= rq.skip(chunk_num as int));
            }
            match Self::minor_compaction(&self.option, recover_wal_ids, &excess) {
                Ok(Some((scope, table))) => {
                    let mut version_edits: Vec<VersionEdit> = Vec::new();
                    let mut delete_gens: Vec<(FileId, usize)> = Vec::new();
                    let ghost tv = table@;
                    let ghost idx0 = store.tables@.len() as int;
                    proof {
                        // A batch held rows, so the consumed prefix was
                        // not all empty.
                        let b = choose|b: int|
                            0 <= b < batch_views(excess).len() && (#[trigger] batch_views(
                                excess,
                            )[b]).len() > 0 && scope@.min == batch_views(excess)[b].first().key;
                        assert(rq[b].1.len() > 0) by {
                            assert(queue_view(excess)[b] == rq.take(chunk_num as int)[b]);
                        }
                    }
                    proof {
                        // A manual flush consumed the whole queue, the
                        // rotated mutable last; every write of the old
                        // mutable survives into the merged table with
                        // its value, the mutable being the newest layer.
                        if is_manual && old(storage).mutable@.len() > 0 {
                            let bvs = batch_views(excess);
                            assert(bvs.reverse()[0] == bvs[bvs.len() - 1]);
                            assert(bvs[bvs.len() - 1] == old(storage).mutable@) by {
                                assert(queue_view(excess)[rq.len() - 1] == rq[rq.len() - 1]);
                            }
                            old(storage).mutable.lemma_map_view();
                            assert forall|kt: (Seq<u8>, crate::key::Timestamp)| #[trigger]
                                old(storage).mutable.map_view().dom().contains(
                                    kt,
                                ) implies entries_map(tv).dom().contains(kt) && entries_map(
                                tv,
                            )[kt] == old(storage).mutable.map_view()[kt] by {
                                crate::stream::merge::lemma_merged_contains_sources(
                                    bvs.reverse(),
                                    0,
                                    kt,
                                );
                            }
                        }
                        // Every write in every consumed batch reaches
                        // the new table.
                        let bvs = batch_views(excess);
                        assert forall|b: int, kt: (Seq<u8>, crate::key::Timestamp)|
                            0 <= b < chunk_num && #[trigger] entries_map(
                                (#[trigger] rq[b]).1,
                            ).dom().contains(kt) implies entries_map(tv).dom().contains(kt) by {
                            assert(rq[b].1 == bvs[b]) by {
                                assert(queue_view(excess)[b] == rq.take(chunk_num as int)[b]);
                            }
                            assert(bvs.reverse()[bvs.len() - 1 - b] == bvs[b]);
                            crate::stream::merge::lemma_merged_contains_sources(
                                bvs.reverse(),
                                bvs.len() - 1 - b,
                                kt,
                            );
                        }
                    }
                    store.insert(scope.gen, table);
                    let ghost st_call = store.tables@;
                    proof {
                        assert(store.tables@[idx0].1@ == tv);
                        if is_manual && old(storage).mutable@.len() > 0 {
                            assert(table_covers(
                                store.tables@,
                                idx0,
                                old(storage).mutable.map_view(),
                            ));
                        }
                        assert(queue_covered(store.tables@, idx0, rq, chunk_num as int));
                    }
                    if self.option.is_threshold_exceeded_major(version, 0) {
                        match Self::major_compaction(
                            version,
                            &self.option,
                            &scope.min,
                            &scope.max,
                            &mut version_edits,
                            &mut delete_gens,
                            store,
                        ) {
                            Ok(()) => {},
                            Err(e) => {
                                Self::restore_queue(storage, excess, ids_backup);
                                proof {
                                    assert(queue_view(storage.immutables) =~= rq) by {
                                        assert(rq.take(chunk_num as int) + rq.skip(
                                            chunk_num as int,
                                        ) =~= rq);
                                    }
                                    if version_gens_present(old(version)@, old(store).tables@) {
                                        // The store only grew, so every
                                        // version file was still there:
                                        // this failure is impossible.
                                        assert(st_call =~= old(store).tables@ + st_call.subrange(
                                            old(store).tables@.len() as int,
                                            st_call.len() as int,
                                        ));
                                        assert(version_gens_present(old(version)@, st_call)) by {
                                            assert forall|l: int, i: int|
                                                0 <= l < old(version)@.level_slice.len() && 0 <= i
                                                    < old(version)@.level_slice[l].len() implies
                                            store_rows(
                                                st_call,
                                                (#[trigger] old(
                                                    version,
                                                )@.level_slice[l][i]).gen,
                                            ) is Some by {
                                                lemma_store_rows_extend(
                                                    old(store).tables@,
                                                    st_call.subrange(
                                                        old(store).tables@.len() as int,
                                                        st_call.len() as int,
                                                    ),
                                                    old(version)@.level_slice[l][i].gen,
                                                );
                                            }
                                        }
                                        assert(false);
                                    }
                                }
                                return Err(e);
                            },
                        }
                    }
                    version_edits.insert(0, VersionEdit::Add { level: 0, scope });
                    let ts = version.increase_ts();
                    // Apply the batch with removals first, so a new
                    // table never transiently overlaps the tables it
                    // replaces; the timestamp edit closes the batch.
                    let mut ordered: Vec<VersionEdit> = Vec::new();
                    let mut p: usize = 0;
                    while p < version_edits.len()
                        invariant
                            p <= version_edits@.len(),
                        decreases version_edits@.len() - p,
                    {
                        if let VersionEdit::Remove { .. } = &version_edits[p] {
                            ordered.push(version_edits[p].clone());
                        }
                        p = p + 1;
                    }
                    let mut p2: usize = 0;
                    while p2 < version_edits.len()
                        invariant
                            p2 <= version_edits@.len(),
                        decreases version_edits@.len() - p2,
                    {
                        match &version_edits[p2] {
                            VersionEdit::Remove { .. } => {},
                            _ => {
                                ordered.push(version_edits[p2].clone());
                            },
                        }
                        p2 = p2 + 1;
                    }
                    ordered.push(VersionEdit::LatestTimeStamp { ts });
                    // `delete_gens` would go to the cleaner once no
                    // reader holds the superseded version; deletion of
                    // the files is the host's.
                    let ghost vpre = version@;
                    match version.apply_edits(&ordered) {
                        Ok(()) => {},
                        Err(e) => {
                            Self::restore_queue(storage, excess, ids_backup);
                            proof {
                                assert(queue_view(storage.immutables) =~= rq) by {
                                    assert(rq.take(chunk_num as int) + rq.skip(chunk_num as int)
                                        =~= rq);
                                }
                            }
                            return Err(CompactionError::Version(e));
                        },
                    }
                    proof {
                        let ov = crate::version::edits_view(ordered);
                        assert(ov.len() > 0);
                        assert(ov.last() == ordered@[ordered@.len() - 1]@);
                        assert(ov.last() == (crate::version::VersionEditV::LatestTimeStamp {
                            ts,
                        }));
                        crate::version::lemma_apply_batch_last_ts(vpre, ov, ts);
                        assert(version.ts == old(version).ts + 1);
                        assert(store.tables@[idx0] == store.tables@.subrange(
                            0,
                            idx0 + 1,
                        )[idx0]);
                        if is_manual && old(storage).mutable@.len() > 0 {
                            assert(table_covers(
                                store.tables@,
                                idx0,
                                old(storage).mutable.map_view(),
                            ));
                        }
                        assert(queue_covered(store.tables@, idx0, rq, chunk_num as int));
                    }
                },
                Ok(None) => {
                    proof {
                        assert(rq.skip(0) =~= rq);
                    }
                },
                Err(e) => {
                    Self::restore_queue(storage, excess, ids_backup);
                    proof {
                        assert(queue_view(storage.immutables) =~= rq) by {
                            assert(rq.take(chunk_num as int) + rq.skip(chunk_num as int) =~= rq);
                        }
                        // Every consumed batch was empty.
                        assert forall|b: int| 0 <= b < chunk_num implies (#[trigger] rq[b]).1.len()
                            == 0 by {
                            assert(batch_views(excess)[b].len() == 0);
                            assert(queue_view(excess)[b] == rq.take(chunk_num as int)[b]);
                        }
                        assert(chunk_num > 0);
                    }
                    return Err(e);
                },
            }
        }
        Ok(())
    }

    /// Roll the accumulated chunk into one new table with its `Add`
    /// edit.
    fn emit_table(
        version_edits: &mut Vec<VersionEdit>,
        outputs: &mut Vec<(FileId, SsTable)>,
        level: usize,
        chunk: Vec<Entry>,
        mv: Ghost<Seq<EntryV>>,
        upto: Ghost<int>,
    )
        requires
            level < MAX_LEVEL,
            chunk@.len() > 0,
            entries_sorted(mv@),
            0 <= upto@ <= mv@.len(),
            rows_view(chunk).len() <= upto@,
            forall|t: int|
                0 <= t < rows_view(chunk).len() ==> #[trigger] rows_view(chunk)[t] == mv@[upto@
                    - rows_view(chunk).len() + t],
        ensures
            final(outputs)@.len() == old(outputs)@.len() + 1,
            final(version_edits)@.len() == old(version_edits)@.len() + 1,
            final(outputs)@.subrange(0, old(outputs)@.len() as int) == old(outputs)@,
            final(version_edits)@.subrange(0, old(version_edits)@.len() as int) == old(
                version_edits,
            )@,
            final(outputs)@[old(outputs)@.len() as int].1@ == rows_view(chunk),
            final(outputs)@[old(outputs)@.len() as int].1.wf(),
            final(outputs)@[old(outputs)@.len() as int].1@.len() > 0,
            final(version_edits)@[old(version_edits)@.len() as int]@
                == (crate::version::VersionEditV::Add {
                level: level as u8,
                scope: crate::scope::ScopeV {
                    min: rows_view(chunk).first().key,
                    max: rows_view(chunk).last().key,
                    gen: final(outputs)@[old(outputs)@.len() as int].0,
                    wal_ids: None,
                },
            }),
    {
        let gen = generate_file_id();
        let mn = chunk[0].key.clone();
        let mx = chunk[chunk.len() - 1].key.clone();
        proof {
            assert(rows_view(chunk).first() == chunk@[0]@);
            assert(rows_view(chunk).last() == chunk@[chunk@.len() - 1]@);
            assert(mn@ =~= rows_view(chunk).first().key);
            assert(mx@ =~= rows_view(chunk).last().key);
            // The chunk is a contiguous piece of the sorted merge, so it
            // is sorted itself.
            assert forall|a: int, b: int|
                0 <= a < b < rows_view(chunk).len() implies crate::key::ts_key_lt(
                (#[trigger] rows_view(chunk)[a]).key,
                rows_view(chunk)[a].ts,
                (#[trigger] rows_view(chunk)[b]).key,
                rows_view(chunk)[b].ts,
            ) by {
                let base = upto@ - rows_view(chunk).len();
                assert(rows_view(chunk)[a] == mv@[base + a]);
                assert(rows_view(chunk)[b] == mv@[base + b]);
            }
        }
        let table = SsTable::new(chunk);
        version_edits.push(
            VersionEdit::Add {
                level: level as u8,
                scope: Scope { min: mn, max: mx, gen, wal_ids: None },
            },
        );
        outputs.push((gen, table));
        proof {
            assert(outputs@.subrange(0, old(outputs)@.len() as int) =~= old(outputs)@);
            assert(version_edits@.subrange(0, old(version_edits)@.len() as int) =~= old(
                version_edits,
            )@);
        }
    }
}

} // verus!
