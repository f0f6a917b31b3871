//! Versions: which tables exist at which level, and the edits that
//! change that.
//!
//! A version holds one vector of scopes per level. Level 0 keeps arrival
//! order and may overlap; every level above is disjoint and sorted
//! ascending by `min`. Edits are applied to a copy and committed only
//! when every edit is sound, so a version is never left half changed.

use vstd::prelude::*;

use crate::fs::FileId;
use crate::key::{
    key_cmp, key_le, key_lt, lemma_key_le_lt_trans, lemma_key_lt_le_trans, lemma_key_lt_trans,
    Timestamp,
};
use crate::scope::{Scope, ScopeV};
use crate::MAX_LEVEL;

verus! {

/// One step of the manifest log.
#[derive(Debug, PartialEq, Eq)]
pub enum VersionEdit {
    Add { level: u8, scope: Scope },
    Remove { level: u8, gen: FileId },
    LatestTimeStamp { ts: Timestamp },
}

pub enum VersionEditV {
    Add { level: u8, scope: ScopeV },
    Remove { level: u8, gen: FileId },
    LatestTimeStamp { ts: Timestamp },
}

impl View for VersionEdit {
    type V = VersionEditV;

    open spec fn view(&self) -> VersionEditV {
        match self {
            VersionEdit::Add { level, scope } => VersionEditV::Add {
                level: *level,
                scope: scope@,
            },
            VersionEdit::Remove { level, gen } => VersionEditV::Remove {
                level: *level,
                gen: *gen,
            },
            VersionEdit::LatestTimeStamp { ts } => VersionEditV::LatestTimeStamp { ts: *ts },
        }
    }
}

impl Clone for VersionEdit {
    fn clone(&self) -> (res: Self)
        ensures
            res@ == self@,
    {
        match self {
            VersionEdit::Add { level, scope } => VersionEdit::Add {
                level: *level,
                scope: scope.clone(),
            },
            VersionEdit::Remove { level, gen } => VersionEdit::Remove {
                level: *level,
                gen: *gen,
            },
            VersionEdit::LatestTimeStamp { ts } => VersionEdit::LatestTimeStamp { ts: *ts },
        }
    }
}

/// Faults of the version machinery: an edit that would break the level
/// invariant. `AbsentGen` is the manifest-replay fault — an edit naming
/// a file no version ever held — which a host surfaces when it reads
/// the log back.
#[derive(Debug, PartialEq, Eq)]
pub enum VersionError {
    Invariant,
    AbsentGen,
}

/// The scopes of a level, as mathematical values.
pub open spec fn slice_view(v: Vec<Scope>) -> Seq<ScopeV> {
    v@.map_values(|s: Scope| s@)
}

/// A batch of edits, as mathematical values.
pub open spec fn edits_view(v: Vec<VersionEdit>) -> Seq<VersionEditV> {
    v@.map_values(|e: VersionEdit| e@)
}

/// Levels above zero: scopes strictly ordered, each below the next.
pub open spec fn level_sorted(s: Seq<ScopeV>) -> bool {
    forall|i: int, j: int|
        0 <= i < j < s.len() ==> key_lt(#[trigger] s[i].max, #[trigger] s[j].min)
}

pub open spec fn level_wf(s: Seq<ScopeV>) -> bool {
    level_sorted(s) && forall|i: int| 0 <= i < s.len() ==> (#[trigger] s[i]).wf()
}

/// A new scope fits a level when it overlaps none of its scopes.
pub open spec fn scope_fits_spec(s: Seq<ScopeV>, sc: ScopeV) -> bool {
    forall|i: int|
        0 <= i < s.len() ==> (key_lt(#[trigger] s[i].max, sc.min) || key_lt(sc.max, s[i].min))
}

/// `n` is `o` with `x` inserted at position `p`.
pub open spec fn seq_is_insert(n: Seq<ScopeV>, o: Seq<ScopeV>, p: int, x: ScopeV) -> bool {
    0 <= p <= o.len() && n == o.insert(p, x)
}

/// `n` is `o` with position `p` (which carried file `gen`) removed.
pub open spec fn seq_is_remove(n: Seq<ScopeV>, o: Seq<ScopeV>, p: int, gen: FileId) -> bool {
    0 <= p < o.len() && o[p].gen == gen && n == o.remove(p)
}

/// Snapshot of the per-level tables and the timestamp counter.
#[derive(Debug)]
pub struct Version {
    pub level_slice: Vec<Vec<Scope>>,
    pub ts: Timestamp,
}

pub struct VersionV {
    pub level_slice: Seq<Seq<ScopeV>>,
    pub ts: Timestamp,
}

impl View for Version {
    type V = VersionV;

    open spec fn view(&self) -> VersionV {
        VersionV {
            level_slice: self.level_slice@.map_values(|l: Vec<Scope>| slice_view(l)),
            ts: self.ts,
        }
    }
}

impl VersionV {
    /// The level invariant: every level present, scopes well formed, and
    /// every level above zero disjoint and sorted.
    pub open spec fn wf(&self) -> bool {
        &&& self.level_slice.len() == MAX_LEVEL
        &&& forall|l: int, i: int|
            0 <= l < self.level_slice.len() && 0 <= i < self.level_slice[l].len()
                ==> (#[trigger] self.level_slice[l][i]).wf()
        &&& forall|l: int|
            1 <= l < self.level_slice.len() ==> level_sorted(#[trigger] self.level_slice[l])
    }
}

/// What one edit does to a version: an `Add` inserts the scope at its
/// level (at the end for level 0), a `Remove` drops the entry carrying
/// the file, `LatestTimeStamp` sets the counter; all else stays.
pub open spec fn add_applied(o: VersionV, n: VersionV, level: u8, scope: ScopeV) -> bool {
    &&& n.ts == o.ts
    &&& n.level_slice.len() == o.level_slice.len()
    &&& level < o.level_slice.len()
    &&& forall|l: int|
        0 <= l < o.level_slice.len() && l != level as int ==> #[trigger] n.level_slice[l]
            == o.level_slice[l]
    &&& exists|p: int|
        seq_is_insert(n.level_slice[level as int], o.level_slice[level as int], p, scope)
    &&& (level == 0 ==> n.level_slice[0] == o.level_slice[0].push(scope))
}

pub open spec fn remove_applied(o: VersionV, n: VersionV, level: u8, gen: FileId) -> bool {
    &&& n.ts == o.ts
    &&& n.level_slice.len() == o.level_slice.len()
    &&& level < o.level_slice.len()
    &&& forall|l: int|
        0 <= l < o.level_slice.len() && l != level as int ==> #[trigger] n.level_slice[l]
            == o.level_slice[l]
    &&& ((exists|p: int|
        seq_is_remove(n.level_slice[level as int], o.level_slice[level as int], p, gen)) || (
    n.level_slice[level as int] == o.level_slice[level as int] && forall|i: int|
        0 <= i < o.level_slice[level as int].len() ==> (#[trigger] o.level_slice[level as int][
            i]).gen != gen))
}

/// Where a sorted insert puts a scope: past every scope ending below
/// its `min`.
pub open spec fn sorted_insert_pos(s: Seq<ScopeV>, mn: Seq<u8>) -> int
    decreases s.len(),
{
    if s.len() == 0 {
        0
    } else if key_lt(s[0].max, mn) {
        1 + sorted_insert_pos(s.skip(1), mn)
    } else {
        0
    }
}

/// The first position carrying `gen`; the length when none does.
pub open spec fn gen_pos(s: Seq<ScopeV>, gen: FileId) -> int
    decreases s.len(),
{
    if s.len() == 0 {
        0
    } else if s[0].gen == gen {
        0
    } else {
        1 + gen_pos(s.skip(1), gen)
    }
}

/// Whether one edit is sound against the state it meets: its level in
/// range, and an added scope a real interval that overlaps nothing on a
/// level above zero.
pub open spec fn edit_sound(v: VersionV, e: VersionEditV) -> bool {
    match e {
        VersionEditV::Add { level, scope } => {
            &&& level < MAX_LEVEL
            &&& key_le(scope.min, scope.max)
            &&& (level > 0 ==> scope_fits_spec(v.level_slice[level as int], scope))
        },
        VersionEditV::Remove { level, gen } => level < MAX_LEVEL,
        VersionEditV::LatestTimeStamp { ts } => true,
    }
}

/// The successor a sound edit yields, deterministically: `Add` appends
/// on level 0 and inserts at the sorted position above, `Remove` drops
/// the first entry carrying the file (nothing when none does),
/// `LatestTimeStamp` sets the counter.
pub open spec fn apply_edit_spec(v: VersionV, e: VersionEditV) -> VersionV {
    match e {
        VersionEditV::Add { level, scope } => {
            let lvl = v.level_slice[level as int];
            let p = if level == 0 {
                lvl.len() as int
            } else {
                sorted_insert_pos(lvl, scope.min)
            };
            VersionV {
                level_slice: v.level_slice.update(level as int, lvl.insert(p, scope)),
                ts: v.ts,
            }
        },
        VersionEditV::Remove { level, gen } => {
            let lvl = v.level_slice[level as int];
            let p = gen_pos(lvl, gen);
            VersionV {
                level_slice: v.level_slice.update(
                    level as int,
                    if p < lvl.len() {
                        lvl.remove(p)
                    } else {
                        lvl
                    },
                ),
                ts: v.ts,
            }
        },
        VersionEditV::LatestTimeStamp { ts } => VersionV { level_slice: v.level_slice, ts },
    }
}

/// Whether a whole batch is sound, each edit against the state the
/// preceding ones produce.
pub open spec fn batch_sound(v: VersionV, es: Seq<VersionEditV>) -> bool
    decreases es.len(),
{
    if es.len() == 0 {
        true
    } else {
        edit_sound(v, es[0]) && batch_sound(apply_edit_spec(v, es[0]), es.skip(1))
    }
}

/// What a batch yields when applied in order.
pub open spec fn apply_batch_spec(v: VersionV, es: Seq<VersionEditV>) -> VersionV
    decreases es.len(),
{
    if es.len() == 0 {
        v
    } else {
        apply_batch_spec(apply_edit_spec(v, es[0]), es.skip(1))
    }
}

proof fn lemma_sorted_insert_pos_value(s: Seq<ScopeV>, mn: Seq<u8>, p: int)
    requires
        0 <= p <= s.len(),
        forall|i: int| 0 <= i < p ==> key_lt((#[trigger] s[i]).max, mn),
        p < s.len() ==> !key_lt(s[p].max, mn),
    ensures
        sorted_insert_pos(s, mn) == p,
    decreases p,
{
    if p == 0 {
    } else {
        assert(key_lt(s[0].max, mn));
        assert forall|i: int| 0 <= i < p - 1 implies key_lt((#[trigger] s.skip(1)[i]).max, mn) by {
            assert(s.skip(1)[i] == s[i + 1]);
        }
        if p - 1 < s.skip(1).len() {
            assert(s.skip(1)[p - 1] == s[p]);
        }
        lemma_sorted_insert_pos_value(s.skip(1), mn, p - 1);
    }
}

proof fn lemma_gen_pos_value(s: Seq<ScopeV>, gen: FileId, p: int)
    requires
        0 <= p <= s.len(),
        forall|i: int| 0 <= i < p ==> (#[trigger] s[i]).gen != gen,
        p < s.len() ==> s[p].gen == gen,
    ensures
        gen_pos(s, gen) == p,
    decreases p,
{
    if p == 0 {
        if s.len() > 0 && s[0].gen != gen {
            // p == 0 with a mismatch at 0 happens only when p == len == 0.
        }
    } else {
        assert(s[0].gen != gen);
        assert forall|i: int| 0 <= i < p - 1 implies (#[trigger] s.skip(1)[i]).gen != gen by {
            assert(s.skip(1)[i] == s[i + 1]);
        }
        if p - 1 < s.skip(1).len() {
            assert(s.skip(1)[p - 1] == s[p]);
        }
        lemma_gen_pos_value(s.skip(1), gen, p - 1);
    }
}

proof fn lemma_batch_push(v: VersionV, es: Seq<VersionEditV>, e: VersionEditV)
    requires
        batch_sound(v, es),
    ensures
        batch_sound(v, es.push(e)) == edit_sound(apply_batch_spec(v, es), e),
        apply_batch_spec(v, es.push(e)) == apply_edit_spec(apply_batch_spec(v, es), e),
    decreases es.len(),
{
    if es.len() == 0 {
        assert(es.push(e)[0] == e);
        assert(es.push(e).skip(1) =~= Seq::<VersionEditV>::empty());
        assert(batch_sound(apply_edit_spec(v, e), Seq::<VersionEditV>::empty()));
        assert(batch_sound(v, es.push(e)) == edit_sound(v, e));
        assert(apply_batch_spec(v, es) == v);
        assert(apply_batch_spec(apply_edit_spec(v, e), Seq::<VersionEditV>::empty())
            == apply_edit_spec(v, e));
        assert(apply_batch_spec(v, es.push(e)) == apply_edit_spec(v, e));
    } else {
        assert(es.push(e)[0] == es[0]);
        assert(es.push(e).skip(1) =~= es.skip(1).push(e));
        lemma_batch_push(apply_edit_spec(v, es[0]), es.skip(1), e);
        assert(batch_sound(v, es.push(e)) == (edit_sound(v, es[0]) && batch_sound(
            apply_edit_spec(v, es[0]),
            es.skip(1).push(e),
        )));
        assert(apply_batch_spec(v, es.push(e)) == apply_batch_spec(
            apply_edit_spec(v, es[0]),
            es.skip(1).push(e),
        ));
        assert(apply_batch_spec(v, es) == apply_batch_spec(apply_edit_spec(v, es[0]), es.skip(1)));
    }
}

/// A batch ending in a timestamp edit leaves the counter at that value.
pub proof fn lemma_apply_batch_last_ts(v: VersionV, es: Seq<VersionEditV>, t: Timestamp)
    requires
        es.len() > 0,
        es.last() == (VersionEditV::LatestTimeStamp { ts: t }),
    ensures
        apply_batch_spec(v, es).ts == t,
    decreases es.len(),
{
    if es.len() == 1 {
        assert(es[0] == es.last());
        assert(es.skip(1) =~= Seq::<VersionEditV>::empty());
        assert(apply_batch_spec(apply_edit_spec(v, es[0]), es.skip(1)) == apply_edit_spec(
            v,
            es[0],
        ));
    } else {
        assert(es.skip(1).last() == es.last());
        lemma_apply_batch_last_ts(apply_edit_spec(v, es[0]), es.skip(1), t);
    }
}

proof fn lemma_batch_unsound_prefix(v: VersionV, es: Seq<VersionEditV>, i: int)
    requires
        0 <= i < es.len(),
        batch_sound(v, es.take(i)),
        !edit_sound(apply_batch_spec(v, es.take(i)), es[i]),
    ensures
        !batch_sound(v, es),
    decreases i,
{
    if i == 0 {
        assert(es.take(0) =~= Seq::<VersionEditV>::empty());
    } else {
        assert(es.take(i)[0] == es[0]);
        assert(es.take(i).skip(1) =~= es.skip(1).take(i - 1));
        assert(es.skip(1)[i - 1] == es[i]);
        lemma_batch_unsound_prefix(apply_edit_spec(v, es[0]), es.skip(1), i - 1);
    }
}

pub open spec fn ts_applied(o: VersionV, n: VersionV, ts: Timestamp) -> bool {
    &&& n.ts == ts
    &&& n.level_slice == o.level_slice
}

pub open spec fn edit_applied(o: VersionV, n: VersionV, e: VersionEditV) -> bool {
    match e {
        VersionEditV::Add { level, scope } => add_applied(o, n, level, scope),
        VersionEditV::Remove { level, gen } => remove_applied(o, n, level, gen),
        VersionEditV::LatestTimeStamp { ts } => ts_applied(o, n, ts),
    }
}

/// A batch of edits applied in order.
pub open spec fn edits_applied(o: VersionV, n: VersionV, es: Seq<VersionEditV>) -> bool
    decreases es.len(),
{
    if es.len() == 0 {
        n == o
    } else {
        exists|m: VersionV| #[trigger] edit_applied(o, m, es[0]) && edits_applied(m, n, es.skip(1))
    }
}

proof fn lemma_edits_applied_push(o: VersionV, m: VersionV, n: VersionV, es: Seq<VersionEditV>, e: VersionEditV)
    requires
        edits_applied(o, m, es),
        edit_applied(m, n, e),
    ensures
        edits_applied(o, n, es.push(e)),
    decreases es.len(),
{
    if es.len() == 0 {
        assert(es.push(e)[0] == e);
        assert(es.push(e).skip(1) =~= Seq::<VersionEditV>::empty());
        assert(edit_applied(o, n, es.push(e)[0]));
        assert(edits_applied(n, n, es.push(e).skip(1)));
    } else {
        let mid = choose|mid: VersionV|
            #[trigger] edit_applied(o, mid, es[0]) && edits_applied(mid, m, es.skip(1));
        lemma_edits_applied_push(mid, m, n, es.skip(1), e);
        assert(es.push(e)[0] == es[0]);
        assert(es.push(e).skip(1) =~= es.skip(1).push(e));
        assert(edit_applied(o, mid, es.push(e)[0]));
        assert(edits_applied(mid, n, es.push(e).skip(1)));
    }
}

/// In a well-formed level the `max` keys ascend strictly.
pub proof fn lemma_level_maxes_sorted(s: Seq<ScopeV>)
    requires
        level_wf(s),
    ensures
        forall|i: int, j: int|
            0 <= i < j < s.len() ==> key_lt(#[trigger] s[i].max, #[trigger] s[j].max),
{
    assert forall|i: int, j: int| 0 <= i < j < s.len() implies key_lt(
        #[trigger] s[i].max,
        #[trigger] s[j].max,
    ) by {
        lemma_key_lt_le_trans(s[i].max, s[j].min, s[j].max);
    }
}

/// Lower-bound binary search by `max`: the first scope whose `max` is at
/// or past the key. On a level that is not sorted only the bound on the
/// result holds.
pub fn scope_search(key: &Vec<u8>, scopes: &Vec<Scope>) -> (r: usize)
    ensures
        r <= scopes@.len(),
        level_wf(slice_view(*scopes)) ==> {
            &&& forall|i: int| 0 <= i < r ==> key_lt(#[trigger] slice_view(*scopes)[i].max, key@)
            &&& r < scopes@.len() ==> key_le(key@, slice_view(*scopes)[r as int].max)
        },
{
    let ghost sv = slice_view(*scopes);
    proof {
        if level_wf(sv) {
            lemma_level_maxes_sorted(sv);
        }
    }
    let mut lo: usize = 0;
    let mut hi: usize = scopes.len();
    while lo < hi
        invariant
            lo <= hi <= scopes@.len(),
            sv == slice_view(*scopes),
            level_wf(sv) ==> forall|i: int| 0 <= i < lo ==> key_lt(#[trigger] sv[i].max, key@),
            level_wf(sv) ==> forall|j: int|
                hi <= j < sv.len() ==> key_le(key@, #[trigger] sv[j].max),
        decreases hi - lo,
    {
        let mid = lo + (hi - lo) / 2;
        let c = key_cmp(&scopes[mid].max, key);
        proof {
            assert(sv[mid as int] == scopes@[mid as int]@);
        }
        if c < 0 {
            proof {
                if level_wf(sv) {
                    lemma_level_maxes_sorted(sv);
                    assert forall|i: int| 0 <= i < mid + 1 implies key_lt(
                        #[trigger] sv[i].max,
                        key@,
                    ) by {
                        if i < mid {
                            lemma_key_lt_trans(sv[i].max, sv[mid as int].max, key@);
                        }
                    }
                }
            }
            lo = mid + 1;
        } else {
            proof {
                if level_wf(sv) {
                    lemma_level_maxes_sorted(sv);
                    crate::key::lemma_key_cmp_antisym(sv[mid as int].max, key@);
                    assert(key_le(key@, sv[mid as int].max));
                    assert forall|j: int| mid <= j < sv.len() implies key_le(
                        key@,
                        #[trigger] sv[j].max,
                    ) by {
                        if j > mid {
                            lemma_key_le_lt_trans(key@, sv[mid as int].max, sv[j].max);
                        }
                    }
                }
            }
            hi = mid;
        }
    }
    lo
}

impl Version {
    /// A fresh version: every level empty, the timestamp counter at the
    /// earliest value.
    pub fn new() -> (r: Version)
        ensures
            r@.wf(),
            r@.ts == 0,
            r@.level_slice.len() == MAX_LEVEL,
            forall|l: int| 0 <= l < MAX_LEVEL ==> (#[trigger] r@.level_slice[l]).len() == 0,
    {
        let mut level_slice: Vec<Vec<Scope>> = Vec::new();
        let mut l: usize = 0;
        while l < MAX_LEVEL
            invariant
                l <= MAX_LEVEL,
                level_slice@.len() == l,
                forall|i: int| 0 <= i < l ==> (#[trigger] level_slice@[i])@.len() == 0,
            decreases MAX_LEVEL - l,
        {
            level_slice.push(Vec::new());
            l = l + 1;
        }
        Version { level_slice, ts: 0 }
    }

    /// Allocate the next timestamp.
    pub fn increase_ts(&mut self) -> (r: Timestamp)
        requires
            old(self).ts < Timestamp::MAX,
        ensures
            final(self).ts == old(self).ts + 1,
            r == final(self).ts,
            final(self).level_slice == old(self).level_slice,
    {
        self.ts = self.ts + 1;
        self.ts
    }

    /// Whether `scope` overlaps none of the scopes at `level`.
    pub fn scope_fits(&self, level: usize, scope: &Scope) -> (r: bool)
        requires
            level < self.level_slice@.len(),
        ensures
            r == scope_fits_spec(self@.level_slice[level as int], scope@),
    {
        let scopes = &self.level_slice[level];
        let ghost sv = self@.level_slice[level as int];
        let mut i: usize = 0;
        let mut ok = true;
        while i < scopes.len()
            invariant
                i <= scopes@.len(),
                sv == slice_view(*scopes),
                ok ==> forall|j: int|
                    0 <= j < i ==> (key_lt(#[trigger] sv[j].max, scope@.min) || key_lt(
                        scope@.max,
                        sv[j].min,
                    )),
                !ok ==> exists|j: int|
                    0 <= j < i && !(key_lt(#[trigger] sv[j].max, scope@.min) || key_lt(
                        scope@.max,
                        sv[j].min,
                    )),
            decreases scopes@.len() - i,
        {
            proof {
                assert(sv[i as int] == scopes@[i as int]@);
            }
            let left = key_cmp(&scopes[i].max, &scope.min) < 0;
            let right = key_cmp(&scope.max, &scopes[i].min) < 0;
            if !(left || right) {
                ok = false;
                proof {
                    assert(!(key_lt(sv[i as int].max, scope@.min) || key_lt(
                        scope@.max,
                        sv[i as int].min,
                    )));
                }
            }
            i = i + 1;
        }
        proof {
            if !ok {
                let j = choose|j: int|
                    0 <= j < scopes@.len() && !(key_lt(#[trigger] sv[j].max, scope@.min)
                        || key_lt(scope@.max, sv[j].min));
                assert(!scope_fits_spec(sv, scope@));
            }
        }
        ok
    }
}

/// Insert a scope into a sorted, disjoint level so it stays sorted and
/// disjoint.
fn insert_scope_sorted(scopes: &mut Vec<Scope>, sc: Scope)
    requires
        level_wf(slice_view(*old(scopes))),
        sc@.wf(),
        scope_fits_spec(slice_view(*old(scopes)), sc@),
    ensures
        level_wf(slice_view(*final(scopes))),
        exists|p: int| seq_is_insert(slice_view(*final(scopes)), slice_view(*old(scopes)), p, sc@),
        slice_view(*final(scopes)) == slice_view(*old(scopes)).insert(
            sorted_insert_pos(slice_view(*old(scopes)), sc@.min),
            sc@,
        ),
{
    let ghost old_sv = slice_view(*scopes);
    let mut p: usize = 0;
    while p < scopes.len() && key_cmp(&scopes[p].max, &sc.min) < 0
        invariant
            p <= scopes@.len(),
            slice_view(*scopes) == old_sv,
            scopes@.len() == old_sv.len(),
            sc@.wf(),
            level_wf(old_sv),
            scope_fits_spec(old_sv, sc@),
            forall|i: int| 0 <= i < p ==> key_lt(#[trigger] old_sv[i].max, sc@.min),
        decreases scopes@.len() - p,
    {
        proof {
            assert(old_sv[p as int] == scopes@[p as int]@);
        }
        p = p + 1;
    }
    proof {
        if p < old_sv.len() {
            assert(old_sv[p as int] == scopes@[p as int]@);
            assert(!key_lt(old_sv[p as int].max, sc@.min));
        }
        // Everything at or past the insertion point lies wholly above the
        // new scope: were a later scope below it, the level's own order
        // would be contradicted.
        assert forall|j: int| p <= j < old_sv.len() implies key_lt(
            sc@.max,
            #[trigger] old_sv[j].min,
        ) by {
            if j > p {
                if key_lt(old_sv[j].max, sc@.min) {
                    // Impossible: the level's order runs it around a cycle.
                    let a = old_sv[p as int].min;
                    assert(key_lt(sc@.max, a));
                    lemma_key_le_lt_trans(a, old_sv[p as int].max, old_sv[j].min);
                    lemma_key_lt_le_trans(a, old_sv[j].min, old_sv[j].max);
                    lemma_key_lt_trans(a, old_sv[j].max, sc@.min);
                    lemma_key_lt_le_trans(a, sc@.min, sc@.max);
                    lemma_key_lt_trans(a, sc@.max, a);
                    crate::key::lemma_key_cmp_eq(a, a);
                }
            }
        }
    }
    let ghost pp = p as int;
    scopes.insert(p, sc);
    proof {
        let new_sv = slice_view(*scopes);
        assert(new_sv =~= old_sv.insert(pp, sc@)) by {
            assert forall|i: int| 0 <= i < new_sv.len() implies new_sv[i] == old_sv.insert(
                pp,
                sc@,
            )[i] by {
                assert(new_sv[i] == scopes@[i]@);
                if i < pp {
                    assert(scopes@[i] == old(scopes)@[i]);
                    assert(old_sv[i] == old(scopes)@[i]@);
                } else if i == pp {
                    assert(scopes@[i] == sc);
                } else {
                    assert(scopes@[i] == old(scopes)@[i - 1]);
                    assert(old_sv[i - 1] == old(scopes)@[i - 1]@);
                }
            }
        }
        assert(seq_is_insert(new_sv, old_sv, pp, sc@));
        lemma_sorted_insert_pos_value(old_sv, sc@.min, pp);
        assert forall|i: int, j: int| 0 <= i < j < new_sv.len() implies key_lt(
            #[trigger] new_sv[i].max,
            #[trigger] new_sv[j].min,
        ) by {
            if i == pp {
                assert(new_sv[j] == old_sv[j - 1]);
            } else if j == pp {
                assert(new_sv[i] == old_sv[i]);
                assert(key_lt(old_sv[i].max, sc@.min));
            } else if i < pp && j > pp {
                assert(new_sv[i] == old_sv[i]);
                assert(new_sv[j] == old_sv[j - 1]);
            }
        }
        assert forall|i: int| 0 <= i < new_sv.len() implies (#[trigger] new_sv[i]).wf() by {
            if i < pp {
                assert(new_sv[i] == old_sv[i]);
            } else if i > pp {
                assert(new_sv[i] == old_sv[i - 1]);
            }
        }
    }
}

impl Clone for Version {
    fn clone(&self) -> (res: Self)
        ensures
            res@ == self@,
    {
        let mut level_slice: Vec<Vec<Scope>> = Vec::new();
        let mut l: usize = 0;
        while l < self.level_slice.len()
            invariant
                l <= self.level_slice@.len(),
                level_slice@.len() == l,
                forall|i: int|
                    0 <= i < l ==> slice_view(#[trigger] level_slice@[i]) == slice_view(
                        self.level_slice@[i],
                    ),
            decreases self.level_slice@.len() - l,
        {
            let src = &self.level_slice[l];
            let mut lvl: Vec<Scope> = Vec::new();
            let mut i: usize = 0;
            while i < src.len()
                invariant
                    i <= src@.len(),
                    lvl@.len() == i,
                    forall|j: int| 0 <= j < i ==> (#[trigger] lvl@[j])@ == src@[j]@,
                decreases src@.len() - i,
            {
                lvl.push(src[i].clone());
                i = i + 1;
            }
            proof {
                assert(slice_view(lvl) =~= slice_view(*src));
            }
            level_slice.push(lvl);
            l = l + 1;
        }
        let r = Version { level_slice, ts: self.ts };
        proof {
            assert(r@.level_slice =~= self@.level_slice);
        }
        r
    }
}

impl Version {
    /// Apply one edit in place. `Add` above level zero inserts at the
    /// sorted position and demands that the scope fits; `Remove` drops
    /// the entry carrying the named file.
    #[verifier::rlimit(50)]
    fn apply_edit(&mut self, edit: &VersionEdit) -> (r: Result<(), VersionError>)
        requires
            old(self)@.wf(),
        ensures
            r is Ok <==> edit_sound(old(self)@, edit@),
            r is Ok ==> final(self)@.wf() && edit_applied(old(self)@, final(self)@, edit@)
                && final(self)@ == apply_edit_spec(old(self)@, edit@),
            r is Err ==> *final(self) == *old(self),
    {
        match edit {
            VersionEdit::Add { level, scope } => {
                let lvl = *level as usize;
                if lvl >= MAX_LEVEL {
                    return Err(VersionError::Invariant);
                }
                if key_cmp(&scope.min, &scope.max) > 0 {
                    return Err(VersionError::Invariant);
                }
                if lvl > 0 && !self.scope_fits(lvl, scope) {
                    return Err(VersionError::Invariant);
                }
                let sc = scope.clone();
                if lvl == 0 {
                    let slot = &mut self.level_slice[0];
                    let ghost old_lvl = slice_view(*slot);
                    slot.push(sc);
                    proof {
                        assert(slice_view(*slot) =~= old_lvl.push(scope@));
                        assert(seq_is_insert(
                            slice_view(*slot),
                            old_lvl,
                            old_lvl.len() as int,
                            scope@,
                        )) by {
                            assert(old_lvl.push(scope@) =~= old_lvl.insert(
                                old_lvl.len() as int,
                                scope@,
                            ));
                        }
                        assert forall|l: int|
                            0 <= l < old(self)@.level_slice.len() && l != 0 implies #[trigger] self@
                            .level_slice[l] == old(self)@.level_slice[l] by {
                            assert(self.level_slice@[l] == old(self).level_slice@[l]);
                        }
                        assert(self@.level_slice[0] == slice_view(self.level_slice@[0]));
                        assert(old(self)@.level_slice[0] == slice_view(old(self).level_slice@[0]));
                        lemma_version_update_wf(old(self)@, self@, 0);
                        assert(add_applied(old(self)@, self@, *level, scope@));
                        assert(edit_applied(old(self)@, self@, edit@));
                        let spec_v = apply_edit_spec(old(self)@, edit@);
                        assert(old_lvl.push(scope@) =~= old_lvl.insert(old_lvl.len() as int, scope@));
                        assert(self@.level_slice =~= spec_v.level_slice);
                        assert(self@ == spec_v);
                        assert(edit_sound(old(self)@, edit@));
                    }
                    Ok(())
                } else {
                    proof {
                        assert(level_wf(old(self)@.level_slice[lvl as int])) by {
                            assert(forall|i: int|
                                0 <= i < old(self)@.level_slice[lvl as int].len() ==> (
                                #[trigger] old(self)@.level_slice[lvl as int][i]).wf());
                        }
                        assert(slice_view(self.level_slice@[lvl as int]) == self@.level_slice[
                            lvl as int]);
                    }
                    let slot = &mut self.level_slice[lvl];
                    insert_scope_sorted(slot, sc);
                    proof {
                        assert forall|l: int|
                            0 <= l < old(self)@.level_slice.len() && l != lvl as int implies
                        #[trigger] self@.level_slice[l] == old(self)@.level_slice[l] by {
                            assert(self.level_slice@[l] == old(self).level_slice@[l]);
                        }
                        assert(self@.level_slice[lvl as int] == slice_view(self.level_slice@[
                            lvl as int]));
                        assert(old(self)@.level_slice[lvl as int] == slice_view(old(
                            self,
                        ).level_slice@[lvl as int]));
                        assert(level_wf(self@.level_slice[lvl as int]));
                        lemma_version_update_wf(old(self)@, self@, lvl as int);
                        assert(add_applied(old(self)@, self@, *level, scope@));
                        assert(edit_applied(old(self)@, self@, edit@));
                        let spec_v = apply_edit_spec(old(self)@, edit@);
                        assert(self@.level_slice[lvl as int] == old(self)@.level_slice[
                            lvl as int].insert(
                            sorted_insert_pos(old(self)@.level_slice[lvl as int], scope@.min),
                            scope@,
                        ));
                        assert(self@.level_slice =~= spec_v.level_slice);
                        assert(self@ == spec_v);
                        assert(edit_sound(old(self)@, edit@));
                    }
                    Ok(())
                }
            },
            VersionEdit::Remove { level, gen } => {
                let lvl = *level as usize;
                if lvl >= MAX_LEVEL {
                    return Err(VersionError::Invariant);
                }
                let slot = &self.level_slice[lvl];
                let mut idx: usize = 0;
                while idx < slot.len() && slot[idx].gen != *gen
                    invariant
                        idx <= slot@.len(),
                        forall|i: int| 0 <= i < idx ==> (#[trigger] slot@[i]).gen != gen,
                    decreases slot@.len() - idx,
                {
                    idx = idx + 1;
                }
                if idx >= slot.len() {
                    // The file already left the version: removing it
                    // again changes nothing.
                    proof {
                        assert(self@.level_slice[lvl as int] == slice_view(self.level_slice@[
                            lvl as int]));
                        assert forall|i: int|
                            0 <= i < old(self)@.level_slice[lvl as int].len() implies (
                        #[trigger] old(self)@.level_slice[lvl as int][i]).gen != gen by {
                            assert(old(self)@.level_slice[lvl as int][i] == slot@[i]@);
                        }
                        assert(remove_applied(old(self)@, self@, *level, *gen));
                        assert(edit_applied(old(self)@, self@, edit@));
                        lemma_gen_pos_value(
                            old(self)@.level_slice[lvl as int],
                            *gen,
                            old(self)@.level_slice[lvl as int].len() as int,
                        );
                        let spec_v = apply_edit_spec(old(self)@, edit@);
                        assert(self@.level_slice =~= spec_v.level_slice) by {
                            assert(spec_v.level_slice =~= old(self)@.level_slice.update(
                                lvl as int,
                                old(self)@.level_slice[lvl as int],
                            ));
                        }
                        assert(self@ == spec_v);
                        assert(edit_sound(old(self)@, edit@));
                    }
                    return Ok(());
                }
                let ghost old_lvl = slice_view(self.level_slice@[lvl as int]);
                let slot = &mut self.level_slice[lvl];
                slot.remove(idx);
                proof {
                    let new_lvl = slice_view(self.level_slice@[lvl as int]);
                    assert(new_lvl =~= old_lvl.remove(idx as int)) by {
                        assert forall|i: int| 0 <= i < new_lvl.len() implies new_lvl[i]
                            == old_lvl.remove(idx as int)[i] by {
                            if i < idx {
                                assert(new_lvl[i] == self.level_slice@[lvl as int]@[i]@);
                                assert(old_lvl[i] == old(self).level_slice@[lvl as int]@[i]@);
                            } else {
                                assert(new_lvl[i] == self.level_slice@[lvl as int]@[i]@);
                                assert(old_lvl[i + 1] == old(self).level_slice@[lvl as int]@[i
                                    + 1]@);
                            }
                        }
                    }
                    assert(old_lvl[idx as int].gen == gen) by {
                        assert(old_lvl[idx as int] == old(self).level_slice@[lvl as int]@[
                            idx as int]@);
                    }
                    assert(seq_is_remove(new_lvl, old_lvl, idx as int, *gen));
                    if 1 <= lvl {
                        assert(level_sorted(old(self)@.level_slice[lvl as int]));
                        assert forall|i: int, j: int| 0 <= i < j < new_lvl.len() implies key_lt(
                            #[trigger] new_lvl[i].max,
                            #[trigger] new_lvl[j].min,
                        ) by {
                            let oi: int = if i < idx {
                                i
                            } else {
                                i + 1
                            };
                            let oj: int = if j < idx {
                                j
                            } else {
                                j + 1
                            };
                            assert(new_lvl[i] == old_lvl[oi]);
                            assert(new_lvl[j] == old_lvl[oj]);
                        }
                    }
                    assert forall|i: int| 0 <= i < new_lvl.len() implies (
                    #[trigger] new_lvl[i]).wf() by {
                        if i < idx {
                            assert(new_lvl[i] == old_lvl[i]);
                        } else {
                            assert(new_lvl[i] == old_lvl[i + 1]);
                        }
                    }
                    assert forall|l: int|
                        0 <= l < old(self)@.level_slice.len() && l != lvl as int implies #[trigger]
                    self@.level_slice[l] == old(self)@.level_slice[l] by {
                        assert(self.level_slice@[l] == old(self).level_slice@[l]);
                    }
                    assert(self@.level_slice[lvl as int] == new_lvl);
                    assert(old(self)@.level_slice[lvl as int] == old_lvl);
                    assert(seq_is_remove(
                        self@.level_slice[lvl as int],
                        old(self)@.level_slice[lvl as int],
                        idx as int,
                        *gen,
                    ));
                    lemma_version_update_wf(old(self)@, self@, lvl as int);
                    assert(seq_is_remove(
                        self@.level_slice[*level as int],
                        old(self)@.level_slice[*level as int],
                        idx as int,
                        *gen,
                    ));
                    assert(remove_applied(old(self)@, self@, *level, *gen));
                    assert(edit_applied(old(self)@, self@, edit@));
                    assert forall|i: int| 0 <= i < idx implies (#[trigger] old_lvl[i]).gen
                        != gen by {
                        assert(old_lvl[i] == old(self).level_slice@[lvl as int]@[i]@);
                    }
                    lemma_gen_pos_value(old_lvl, *gen, idx as int);
                    let spec_v = apply_edit_spec(old(self)@, edit@);
                    assert(self@.level_slice =~= spec_v.level_slice);
                    assert(self@ == spec_v);
                    assert(edit_sound(old(self)@, edit@));
                }
                Ok(())
            },
            VersionEdit::LatestTimeStamp { ts } => {
                self.ts = *ts;
                proof {
                    assert(self@.level_slice =~= old(self)@.level_slice);
                    assert(ts_applied(old(self)@, self@, *ts));
                    assert(edit_applied(old(self)@, self@, edit@));
                    assert(self@ == apply_edit_spec(old(self)@, edit@));
                }
                Ok(())
            },
        }
    }

    /// Apply a batch of edits atomically: all of them when every edit is
    /// sound against the state the preceding ones produce — then the
    /// result is exactly the batch's deterministic application — or none,
    /// leaving the version as it was.
    ///
    /// Every version this publishes is well formed: levels above zero
    /// stay disjoint and sorted ascending by `min`.
    pub fn apply_edits(&mut self, edits: &Vec<VersionEdit>) -> (r: Result<(), VersionError>)
        requires
            old(self)@.wf(),
        ensures
            final(self)@.wf(),
            r is Ok <==> batch_sound(old(self)@, edits_view(*edits)),
            r is Ok ==> final(self)@ == apply_batch_spec(old(self)@, edits_view(*edits))
                && edits_applied(old(self)@, final(self)@, edits_view(*edits)),
            r is Err ==> *final(self) == *old(self),
    {
        let mut staged = self.clone();
        let mut i: usize = 0;
        proof {
            assert(edits_view(*edits).subrange(0, 0) =~= Seq::<VersionEditV>::empty());
        }
        while i < edits.len()
            invariant
                i <= edits@.len(),
                staged@.wf(),
                old(self)@.wf(),
                self@ == old(self)@,
                *self == *old(self),
                edits_applied(old(self)@, staged@, edits_view(*edits).subrange(0, i as int)),
                batch_sound(old(self)@, edits_view(*edits).subrange(0, i as int)),
                staged@ == apply_batch_spec(
                    old(self)@,
                    edits_view(*edits).subrange(0, i as int),
                ),
            decreases edits@.len() - i,
        {
            let ghost pre = staged@;
            let ghost prefix = edits_view(*edits).subrange(0, i as int);
            let ghost e = edits_view(*edits)[i as int];
            match staged.apply_edit(&edits[i]) {
                Ok(()) => {},
                Err(err) => {
                    proof {
                        assert(edits_view(*edits)[i as int] == edits@[i as int]@);
                        assert(!edit_sound(pre, e));
                        assert(prefix =~= edits_view(*edits).take(i as int));
                        lemma_batch_unsound_prefix(old(self)@, edits_view(*edits), i as int);
                    }
                    return Err(err);
                },
            }
            proof {
                assert(edits_view(*edits)[i as int] == edits@[i as int]@);
                lemma_edits_applied_push(
                    old(self)@,
                    pre,
                    staged@,
                    edits_view(*edits).subrange(0, i as int),
                    edits_view(*edits)[i as int],
                );
                lemma_batch_push(old(self)@, prefix, e);
                assert(edits_view(*edits).subrange(0, i + 1) =~= edits_view(*edits).subrange(
                    0,
                    i as int,
                ).push(edits_view(*edits)[i as int]));
            }
            i = i + 1;
        }
        proof {
            assert(edits_view(*edits).subrange(0, edits@.len() as int) =~= edits_view(*edits));
        }
        *self = staged;
        Ok(())
    }
}

/// A version that changes in one level only, keeping that level well
/// formed, stays well formed.
proof fn lemma_version_update_wf(o: VersionV, n: VersionV, lvl: int)
    requires
        o.wf(),
        n.level_slice.len() == o.level_slice.len(),
        0 <= lvl < o.level_slice.len(),
        forall|l: int|
            0 <= l < o.level_slice.len() && l != lvl ==> #[trigger] n.level_slice[l]
                == o.level_slice[l],
        forall|i: int|
            0 <= i < n.level_slice[lvl].len() ==> (#[trigger] n.level_slice[lvl][i]).wf(),
        lvl >= 1 ==> level_sorted(n.level_slice[lvl]),
    ensures
        n.wf(),
{
    assert forall|l: int, i: int|
        0 <= l < n.level_slice.len() && 0 <= i < n.level_slice[l].len() implies (
    #[trigger] n.level_slice[l][i]).wf() by {
        if l != lvl {
            assert(n.level_slice[l] == o.level_slice[l]);
        }
    }
    assert forall|l: int| 1 <= l < n.level_slice.len() implies level_sorted(
        #[trigger] n.level_slice[l],
    ) by {
        if l != lvl {
            assert(n.level_slice[l] == o.level_slice[l]);
        }
    }
}

} // verus!
