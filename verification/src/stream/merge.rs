//! K-way merge of sorted runs under `(key ascending, timestamp
//! descending)`. On an equal `(key, timestamp)` across runs the run
//! earliest in the vector wins, so newer layers shadow older ones.

use vstd::prelude::*;

use crate::entry::{
    entries_map, entries_sorted, lemma_entries_map_dom, lemma_entries_map_push, rows_view, Entry,
    EntryV,
};
use crate::key::{
    lemma_ts_key_eq, lemma_ts_key_le_lt_trans, lemma_ts_key_lt_le_trans, lemma_ts_key_lt_trans,
    ts_key_le, ts_key_lt, Timestamp,
};
use crate::record::DynRecordV;

verus! {

/// The content of a stack of runs, the first run winning every clash.
pub open spec fn merged_map(ss: Seq<Seq<EntryV>>) -> Map<
    (Seq<u8>, Timestamp),
    Option<DynRecordV>,
>
    decreases ss.len(),
{
    if ss.len() == 0 {
        Map::empty()
    } else {
        merged_map(ss.skip(1)).union_prefer_right(entries_map(ss[0]))
    }
}

/// The runs of a vector of vectors, as mathematical values.
pub open spec fn sources_view(v: Vec<Vec<Entry>>) -> Seq<Seq<EntryV>> {
    v@.map_values(|s: Vec<Entry>| rows_view(s))
}

/// No write is lost by merging: every `(key, timestamp)` pair present
/// in any source run is present in the merged content, and a pair of
/// the first run keeps the first run's value.
pub proof fn lemma_merged_contains_sources(ss: Seq<Seq<EntryV>>, b: int, pair: (Seq<u8>, Timestamp))
    requires
        0 <= b < ss.len(),
        entries_map(ss[b]).dom().contains(pair),
    ensures
        merged_map(ss).dom().contains(pair),
        b == 0 ==> merged_map(ss)[pair] == entries_map(ss[0])[pair],
    decreases ss.len(),
{
    if b > 0 {
        assert(ss.skip(1)[b - 1] == ss[b]);
        lemma_merged_contains_sources(ss.skip(1), b - 1, pair);
    }
}

proof fn lemma_union_insert_right<K, V>(m1: Map<K, V>, m2: Map<K, V>, k: K, v: V)
    ensures
        m1.union_prefer_right(m2.insert(k, v)) == m1.union_prefer_right(m2).insert(k, v),
{
    assert(m1.union_prefer_right(m2.insert(k, v)) =~= m1.union_prefer_right(m2).insert(k, v));
}

proof fn lemma_union_insert_left<K, V>(m1: Map<K, V>, m2: Map<K, V>, k: K, v: V)
    requires
        !m2.dom().contains(k),
    ensures
        m1.insert(k, v).union_prefer_right(m2) == m1.union_prefer_right(m2).insert(k, v),
{
    assert(m1.insert(k, v).union_prefer_right(m2) =~= m1.union_prefer_right(m2).insert(k, v));
}

proof fn lemma_union_insert_left_shadowed<K, V>(m1: Map<K, V>, m2: Map<K, V>, k: K, v: V)
    requires
        m2.dom().contains(k),
    ensures
        m1.insert(k, v).union_prefer_right(m2) == m1.union_prefer_right(m2),
{
    assert(m1.insert(k, v).union_prefer_right(m2) =~= m1.union_prefer_right(m2));
}

/// Merge two sorted runs; `a` wins an equal `(key, timestamp)`. The
/// result is sorted, carries the union of both contents with `a`'s
/// value where they clash, and every row comes from one of the inputs.
pub fn merge_two(a: &Vec<Entry>, b: &Vec<Entry>) -> (r: Vec<Entry>)
    requires
        entries_sorted(rows_view(*a)),
        entries_sorted(rows_view(*b)),
    ensures
        entries_sorted(rows_view(r)),
        entries_map(rows_view(r)) == entries_map(rows_view(*b)).union_prefer_right(
            entries_map(rows_view(*a)),
        ),
        forall|t: int|
            0 <= t < rows_view(r).len() ==> rows_view(*a).contains(#[trigger] rows_view(r)[t])
                || rows_view(*b).contains(rows_view(r)[t]),
{
    let ghost av = rows_view(*a);
    let ghost bv = rows_view(*b);
    let mut out: Vec<Entry> = Vec::new();
    let mut i: usize = 0;
    let mut j: usize = 0;
    proof {
        assert(av.take(0) =~= Seq::<EntryV>::empty());
        assert(bv.take(0) =~= Seq::<EntryV>::empty());
        assert(rows_view(out) =~= Seq::<EntryV>::empty());
        assert(entries_map(rows_view(out)) =~= entries_map(bv.take(0)).union_prefer_right(
            entries_map(av.take(0)),
        ));
    }
    while i < a.len() || j < b.len()
        invariant
            i <= av.len(),
            j <= bv.len(),
            av == rows_view(*a),
            bv == rows_view(*b),
            entries_sorted(av),
            entries_sorted(bv),
            entries_sorted(rows_view(out)),
            entries_map(rows_view(out)) == entries_map(bv.take(j as int)).union_prefer_right(
                entries_map(av.take(i as int)),
            ),
            forall|t: int, k: int|
                0 <= t < i && j <= k < bv.len() ==> ts_key_lt(
                    (#[trigger] av[t]).key,
                    av[t].ts,
                    (#[trigger] bv[k]).key,
                    bv[k].ts,
                ),
            forall|t: int, k: int|
                0 <= t < j && i <= k < av.len() ==> ts_key_lt(
                    (#[trigger] bv[t]).key,
                    bv[t].ts,
                    (#[trigger] av[k]).key,
                    av[k].ts,
                ),
            forall|t: int, k: int|
                0 <= t < rows_view(out).len() && i <= k < av.len() ==> ts_key_lt(
                    (#[trigger] rows_view(out)[t]).key,
                    rows_view(out)[t].ts,
                    (#[trigger] av[k]).key,
                    av[k].ts,
                ),
            forall|t: int, k: int|
                0 <= t < rows_view(out).len() && j <= k < bv.len() ==> ts_key_lt(
                    (#[trigger] rows_view(out)[t]).key,
                    rows_view(out)[t].ts,
                    (#[trigger] bv[k]).key,
                    bv[k].ts,
                ),
            forall|t: int|
                0 <= t < rows_view(out).len() ==> av.contains(#[trigger] rows_view(out)[t])
                    || bv.contains(rows_view(out)[t]),
        decreases (av.len() - i) + (bv.len() - j),
    {
        let ghost prev = rows_view(out);
        let take_a = if j >= b.len() {
            true
        } else if i >= a.len() {
            false
        } else {
            crate::entry::entry_key_cmp(&a[i], &b[j].key, b[j].ts) <= 0
        };
        proof {
            if i < av.len() {
                assert(av[i as int] == a@[i as int]@);
            }
            if j < bv.len() {
                assert(bv[j as int] == b@[j as int]@);
            }
        }
        if take_a {
            let e = a[i].clone();
            let ghost ev = av[i as int];
            proof {
                // The pushed row stays above everything already out and
                // below everything still ahead.
                crate::entry::lemma_sorted_unique(av);
                assert forall|t: int|
                    0 <= t < av.take(i as int).len() implies !(#[trigger] av.take(
                    i as int,
                )[t].key == ev.key && av.take(i as int)[t].ts == ev.ts) by {
                    lemma_ts_key_eq(av[t].key, av[t].ts, ev.key, ev.ts);
                }
                lemma_entries_map_dom(av.take(i as int), ev.key, ev.ts);
                lemma_entries_map_push(av.take(i as int), ev);
                assert(av.take(i + 1) =~= av.take(i as int).push(ev));
                lemma_union_insert_right(
                    entries_map(bv.take(j as int)),
                    entries_map(av.take(i as int)),
                    (ev.key, ev.ts),
                    ev.value,
                );
                lemma_entries_map_push(prev, ev);
            }
            out.push(e);
            proof {
                assert(rows_view(out) =~= prev.push(ev));
            }
            i = i + 1;
            // An equal row of the older run is shadowed and consumed.
            let drop_b = j < b.len()
                && crate::entry::entry_key_cmp(&b[j], &a[i - 1].key, a[i - 1].ts) == 0;
            proof {
                if drop_b {
                    let bj = bv[j as int];
                    lemma_ts_key_eq(bj.key, bj.ts, ev.key, ev.ts);
                    assert(bj.key == ev.key && bj.ts == ev.ts);
                    lemma_entries_map_push(bv.take(j as int), bj);
                    assert(bv.take(j + 1) =~= bv.take(j as int).push(bj));
                    assert(entries_map(av.take(i as int)).dom().contains((bj.key, bj.ts))) by {
                        lemma_entries_map_dom(av.take(i as int), bj.key, bj.ts);
                        assert(av.take(i as int)[i - 1] == ev);
                    }
                    lemma_union_insert_left_shadowed(
                        entries_map(bv.take(j as int)),
                        entries_map(av.take(i as int)),
                        (bj.key, bj.ts),
                        bj.value,
                    );
                }
            }
            if drop_b {
                j = j + 1;
            }
            proof {
                assert(av.contains(ev)) by {
                    assert(av[i - 1] == ev);
                }
                assert forall|t: int, k: int|
                    0 <= t < rows_view(out).len() && i <= k < av.len() implies ts_key_lt(
                    (#[trigger] rows_view(out)[t]).key,
                    rows_view(out)[t].ts,
                    (#[trigger] av[k]).key,
                    av[k].ts,
                ) by {
                    if t < prev.len() {
                        assert(rows_view(out)[t] == prev[t]);
                    } else {
                        assert(rows_view(out)[t] == ev);
                    }
                }
                assert forall|t: int, k: int|
                    0 <= t < rows_view(out).len() && j <= k < bv.len() implies ts_key_lt(
                    (#[trigger] rows_view(out)[t]).key,
                    rows_view(out)[t].ts,
                    (#[trigger] bv[k]).key,
                    bv[k].ts,
                ) by {
                    if t < prev.len() {
                        assert(rows_view(out)[t] == prev[t]);
                    } else {
                        assert(rows_view(out)[t] == ev);
                        if drop_b {
                        } else {
                            // ev is at or before the old head of b, and
                            // strictly before since they differ.
                            assert(ts_key_le(ev.key, ev.ts, bv[j as int].key, bv[j as int].ts));
                            lemma_ts_key_eq(bv[j as int].key, bv[j as int].ts, ev.key, ev.ts);
                            lemma_ts_key_eq(ev.key, ev.ts, bv[j as int].key, bv[j as int].ts);
                            if k > j {
                                lemma_ts_key_lt_trans(
                                    ev.key,
                                    ev.ts,
                                    bv[j as int].key,
                                    bv[j as int].ts,
                                    bv[k].key,
                                    bv[k].ts,
                                );
                            }
                        }
                        if drop_b {
                            assert(bv[j - 1].key == ev.key && bv[j - 1].ts == ev.ts);
                            assert(ts_key_lt(bv[j - 1].key, bv[j - 1].ts, bv[k].key, bv[k].ts));
                        }
                    }
                }
                assert(entries_sorted(rows_view(out))) by {
                    assert forall|s: int, t: int|
                        0 <= s < t < rows_view(out).len() implies ts_key_lt(
                        (#[trigger] rows_view(out)[s]).key,
                        rows_view(out)[s].ts,
                        (#[trigger] rows_view(out)[t]).key,
                        rows_view(out)[t].ts,
                    ) by {
                        if t < prev.len() {
                            assert(rows_view(out)[s] == prev[s]);
                            assert(rows_view(out)[t] == prev[t]);
                        } else {
                            assert(rows_view(out)[s] == prev[s]);
                            assert(rows_view(out)[t] == ev);
                        }
                    }
                }
            }
        } else {
            let e = b[j].clone();
            let ghost ev = bv[j as int];
            proof {
                crate::entry::lemma_sorted_unique(bv);
                assert forall|t: int|
                    0 <= t < bv.take(j as int).len() implies !(#[trigger] bv.take(
                    j as int,
                )[t].key == ev.key && bv.take(j as int)[t].ts == ev.ts) by {
                    lemma_ts_key_eq(bv[t].key, bv[t].ts, ev.key, ev.ts);
                }
                // The pair is not among the consumed rows of `a` either:
                // those all lie strictly below it.
                assert(!entries_map(av.take(i as int)).dom().contains((ev.key, ev.ts))) by {
                    lemma_entries_map_dom(av.take(i as int), ev.key, ev.ts);
                    if exists|t: int|
                        0 <= t < av.take(i as int).len() && av.take(i as int)[t].key == ev.key
                            && av.take(i as int)[t].ts == ev.ts {
                        let t = choose|t: int|
                            0 <= t < av.take(i as int).len() && av.take(i as int)[t].key == ev.key
                                && av.take(i as int)[t].ts == ev.ts;
                        assert(ts_key_lt(av[t].key, av[t].ts, bv[j as int].key, bv[j as int].ts));
                        lemma_ts_key_eq(av[t].key, av[t].ts, ev.key, ev.ts);
                    }
                }
                lemma_entries_map_push(bv.take(j as int), ev);
                assert(bv.take(j + 1) =~= bv.take(j as int).push(ev));
                lemma_union_insert_left(
                    entries_map(bv.take(j as int)),
                    entries_map(av.take(i as int)),
                    (ev.key, ev.ts),
                    ev.value,
                );
                lemma_entries_map_push(prev, ev);
                // The head of `a`, when there is one, lies strictly
                // above the pushed row.
                if i < av.len() {
                    crate::key::lemma_ts_key_antisym(
                        av[i as int].key,
                        av[i as int].ts,
                        ev.key,
                        ev.ts,
                    );
                    assert(ts_key_lt(ev.key, ev.ts, av[i as int].key, av[i as int].ts));
                }
            }
            out.push(e);
            proof {
                assert(rows_view(out) =~= prev.push(ev));
            }
            j = j + 1;
            proof {
                assert(bv.contains(ev)) by {
                    assert(bv[j - 1] == ev);
                }
                assert forall|t: int, k: int|
                    0 <= t < rows_view(out).len() && i <= k < av.len() implies ts_key_lt(
                    (#[trigger] rows_view(out)[t]).key,
                    rows_view(out)[t].ts,
                    (#[trigger] av[k]).key,
                    av[k].ts,
                ) by {
                    if t < prev.len() {
                        assert(rows_view(out)[t] == prev[t]);
                    } else {
                        assert(rows_view(out)[t] == ev);
                        if k > i {
                            lemma_ts_key_lt_trans(
                                ev.key,
                                ev.ts,
                                av[i as int].key,
                                av[i as int].ts,
                                av[k].key,
                                av[k].ts,
                            );
                        }
                    }
                }
                assert forall|t: int, k: int|
                    0 <= t < rows_view(out).len() && j <= k < bv.len() implies ts_key_lt(
                    (#[trigger] rows_view(out)[t]).key,
                    rows_view(out)[t].ts,
                    (#[trigger] bv[k]).key,
                    bv[k].ts,
                ) by {
                    if t < prev.len() {
                        assert(rows_view(out)[t] == prev[t]);
                    } else {
                        assert(rows_view(out)[t] == ev);
                        assert(ts_key_lt(bv[j - 1].key, bv[j - 1].ts, bv[k].key, bv[k].ts));
                    }
                }
                assert(entries_sorted(rows_view(out))) by {
                    assert forall|s: int, t: int|
                        0 <= s < t < rows_view(out).len() implies ts_key_lt(
                        (#[trigger] rows_view(out)[s]).key,
                        rows_view(out)[s].ts,
                        (#[trigger] rows_view(out)[t]).key,
                        rows_view(out)[t].ts,
                    ) by {
                        if t < prev.len() {
                            assert(rows_view(out)[s] == prev[s]);
                            assert(rows_view(out)[t] == prev[t]);
                        } else {
                            assert(rows_view(out)[s] == prev[s]);
                            assert(rows_view(out)[t] == ev);
                        }
                    }
                }
            }
        }
    }
    proof {
        assert(av.take(av.len() as int) =~= av);
        assert(bv.take(bv.len() as int) =~= bv);
    }
    out
}

/// Merge any number of sorted runs; the run earliest in the vector wins
/// every clash of `(key, timestamp)`.
pub fn merge_all(sources: Vec<Vec<Entry>>) -> (r: Vec<Entry>)
    requires
        forall|k: int|
            0 <= k < sources_view(sources).len() ==> entries_sorted(
                #[trigger] sources_view(sources)[k],
            ),
    ensures
        entries_sorted(rows_view(r)),
        entries_map(rows_view(r)) == merged_map(sources_view(sources)),
        forall|t: int|
            0 <= t < rows_view(r).len() ==> exists|k: int|
                0 <= k < sources_view(sources).len() && sources_view(sources)[k].contains(
                    #[trigger] rows_view(r)[t],
                ),
{
    let ghost ssv = sources_view(sources);
    let mut rest = sources;
    let mut acc: Vec<Entry> = Vec::new();
    proof {
        assert(ssv.skip(ssv.len() as int) =~= Seq::<Seq<EntryV>>::empty());
        assert(rows_view(acc) =~= Seq::<EntryV>::empty());
        assert(entries_map(rows_view(acc)) =~= merged_map(ssv.skip(ssv.len() as int)));
    }
    while rest.len() > 0
        invariant
            rest@.len() <= ssv.len(),
            forall|k: int| 0 <= k < rest@.len() ==> rows_view(#[trigger] rest@[k]) == ssv[k],
            forall|k: int| 0 <= k < ssv.len() ==> entries_sorted(#[trigger] ssv[k]),
            entries_sorted(rows_view(acc)),
            entries_map(rows_view(acc)) == merged_map(ssv.skip(rest@.len() as int)),
            forall|t: int|
                0 <= t < rows_view(acc).len() ==> exists|k: int|
                    rest@.len() <= k < ssv.len() && ssv[k].contains(
                        #[trigger] rows_view(acc)[t],
                    ),
        decreases rest@.len(),
    {
        let ghost n = rest@.len() as int;
        let s = match rest.pop() {
            Some(s) => s,
            None => Vec::new(),
        };
        proof {
            assert(rows_view(s) == ssv[n - 1]);
        }
        let merged = merge_two(&s, &acc);
        proof {
            assert(ssv.skip(n - 1)[0] == ssv[n - 1]);
            assert(ssv.skip(n - 1).skip(1) =~= ssv.skip(n));
            assert(entries_map(rows_view(merged)) == merged_map(ssv.skip(n - 1)));
            assert forall|t: int| 0 <= t < rows_view(merged).len() implies exists|k: int|
                n - 1 <= k < ssv.len() && ssv[k].contains(#[trigger] rows_view(merged)[t]) by {
                if rows_view(s).contains(rows_view(merged)[t]) {
                    assert(ssv[n - 1].contains(rows_view(merged)[t]));
                } else {
                    assert(rows_view(acc).contains(rows_view(merged)[t]));
                    let u = choose|u: int|
                        0 <= u < rows_view(acc).len() && rows_view(acc)[u] == rows_view(merged)[t];
                    let k = choose|k: int|
                        n <= k < ssv.len() && ssv[k].contains(#[trigger] rows_view(acc)[u]);
                    assert(ssv[k].contains(rows_view(merged)[t]));
                }
            }
        }
        acc = merged;
    }
    proof {
        assert(ssv.skip(0) =~= ssv);
    }
    acc
}

} // verus!
