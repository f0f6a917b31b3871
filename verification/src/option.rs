//! Engine options: flush batch sizes, level capacities, roll thresholds
//! and the write trigger.

use vstd::prelude::*;

use crate::version::Version;
use crate::MAX_LEVEL;

verus! {

/// Direction of a scan.
#[derive(Clone, Copy, Debug, PartialEq, Eq, Structural)]
pub enum Order {
    Asc,
    Desc,
}

/// When the in-memory table asks to be frozen: after a number of bytes,
/// or after a number of entries.
#[derive(Clone, Copy, Debug, PartialEq, Eq, Structural)]
pub enum TriggerType {
    SizeOfMemory(usize),
    Length(usize),
}

/// Tuning knobs of the engine; `wf_spec` bounds the level-capacity
/// factors so capacities stay computable exactly.
#[derive(Clone, Copy, Debug)]
pub struct DbOption {
    /// Number of immutable batches a normal flush consumes.
    pub immutable_chunk_num: usize,
    /// Queue length beyond which a flush is forced.
    pub immutable_chunk_max_num: usize,
    /// Base of the per-level table budget.
    pub major_threshold_with_sst_size: usize,
    /// Growth factor of the budget from one level to the next.
    pub level_sst_magnification: usize,
    /// How many of a level's oldest tables a compaction falls back to
    /// when nothing intersects its window.
    pub major_default_oldest_table_num: usize,
    /// Cap on how many tables one compaction selects on its source level.
    pub major_l_selection_table_max_num: usize,
    /// Builder size at which a major compaction rolls to a new table.
    pub max_sst_file_size: usize,
    /// Whether writes go to a write-ahead log first.
    pub use_wal: bool,
    /// The freeze trigger.
    pub trigger_type: TriggerType,
}

pub open spec fn pow_spec(b: nat, e: nat) -> nat
    decreases e,
{
    if e == 0 {
        1
    } else {
        b * pow_spec(b, (e - 1) as nat)
    }
}

/// The table budget of a level: threshold times magnification to the
/// level's power; a level at or beyond it is due for major compaction.
pub open spec fn major_threshold_spec(o: DbOption, level: nat) -> nat {
    (o.major_threshold_with_sst_size * pow_spec(o.level_sst_magnification as nat, level)) as nat
}

impl DbOption {
    pub open spec fn wf_spec(&self) -> bool {
        &&& 1 <= self.level_sst_magnification <= 1024
        &&& 1 <= self.major_threshold_with_sst_size <= 0x10_0000
        &&& 1 <= self.major_default_oldest_table_num
        &&& 1 <= self.major_l_selection_table_max_num
        &&& 1 <= self.max_sst_file_size
    }

    /// The defaults.
    pub fn new() -> (r: DbOption)
        ensures
            r.wf_spec(),
            r.use_wal,
    {
        DbOption {
            immutable_chunk_num: 3,
            immutable_chunk_max_num: 5,
            major_threshold_with_sst_size: 4,
            level_sst_magnification: 10,
            major_default_oldest_table_num: 3,
            major_l_selection_table_max_num: 4,
            max_sst_file_size: 256 * 1024 * 1024,
            use_wal: true,
            trigger_type: TriggerType::SizeOfMemory(64 * 1024 * 1024),
        }
    }

    /// Whether `level` holds at least as many tables as its budget.
    pub fn is_threshold_exceeded_major(&self, version: &Version, level: usize) -> (r: bool)
        requires
            self.wf_spec(),
            version@.wf(),
            level < MAX_LEVEL,
        ensures
            r == (version@.level_slice[level as int].len() >= major_threshold_spec(
                *self,
                level as nat,
            )),
    {
        let mut acc: u128 = self.major_threshold_with_sst_size as u128;
        let mut i: usize = 0;
        let mag = self.level_sst_magnification as u128;
        proof {
            assert(pow_spec(self.level_sst_magnification as nat, 0) == 1);
            assert(pow_spec(1024, 0) == 1);
        }
        while i < level
            invariant
                i <= level < MAX_LEVEL,
                1 <= mag <= 1024,
                acc == self.major_threshold_with_sst_size * pow_spec(
                    self.level_sst_magnification as nat,
                    i as nat,
                ),
                acc <= 0x10_0000 * pow_spec(1024, i as nat),
                mag == self.level_sst_magnification,
                self.major_threshold_with_sst_size <= 0x10_0000,
            decreases level - i,
        {
            proof {
                lemma_pow1024_bound(i as nat);
                assert(acc * mag <= 0x10_0000 * pow_spec(1024, i as nat) * 1024) by (nonlinear_arith)
                    requires
                        acc <= 0x10_0000 * pow_spec(1024, i as nat),
                        1 <= mag <= 1024,
                {}
                assert(0x10_0000 * pow_spec(1024, i as nat) * 1024 == 0x10_0000 * pow_spec(
                    1024,
                    (i + 1) as nat,
                )) by (nonlinear_arith)
                    requires
                        pow_spec(1024, (i + 1) as nat) == 1024 * pow_spec(1024, i as nat),
                {}
                assert(acc * mag == self.major_threshold_with_sst_size * pow_spec(
                    self.level_sst_magnification as nat,
                    (i + 1) as nat,
                )) by (nonlinear_arith)
                    requires
                        acc == self.major_threshold_with_sst_size * pow_spec(
                            self.level_sst_magnification as nat,
                            i as nat,
                        ),
                        mag == self.level_sst_magnification,
                        pow_spec(self.level_sst_magnification as nat, (i + 1) as nat)
                            == self.level_sst_magnification * pow_spec(
                            self.level_sst_magnification as nat,
                            i as nat,
                        ),
                {}
            }
            acc = acc * mag;
            i = i + 1;
        }
        let len = version.level_slice[level].len();
        (len as u128) >= acc
    }
}

/// A budget is never zero: the power of a positive base is positive.
pub proof fn lemma_threshold_positive(o: DbOption, level: nat)
    requires
        o.wf_spec(),
    ensures
        major_threshold_spec(o, level) >= 1,
{
    lemma_pow_pos(o.level_sst_magnification as nat, level);
    assert(o.major_threshold_with_sst_size * pow_spec(o.level_sst_magnification as nat, level)
        >= 1) by (nonlinear_arith)
        requires
            o.major_threshold_with_sst_size >= 1,
            pow_spec(o.level_sst_magnification as nat, level) >= 1,
    {}
}

proof fn lemma_pow_pos(b: nat, e: nat)
    requires
        b >= 1,
    ensures
        pow_spec(b, e) >= 1,
    decreases e,
{
    if e > 0 {
        lemma_pow_pos(b, (e - 1) as nat);
        assert(b * pow_spec(b, (e - 1) as nat) >= 1) by (nonlinear_arith)
            requires
                b >= 1,
                pow_spec(b, (e - 1) as nat) >= 1,
        {}
    }
}

proof fn lemma_pow1024_bound(i: nat)
    requires
        i <= 6,
    ensures
        0x10_0000 * pow_spec(1024, i) <= 0x1_0000_0000_0000_0000_0000,
    decreases i,
{
    assert(pow_spec(1024, 0) == 1);
    assert(pow_spec(1024, 1) == 1024 * pow_spec(1024, 0));
    assert(pow_spec(1024, 2) == 1024 * pow_spec(1024, 1));
    assert(pow_spec(1024, 3) == 1024 * pow_spec(1024, 2));
    assert(pow_spec(1024, 4) == 1024 * pow_spec(1024, 3));
    assert(pow_spec(1024, 5) == 1024 * pow_spec(1024, 4));
    assert(pow_spec(1024, 6) == 1024 * pow_spec(1024, 5));
    if i == 0 {
    } else if i == 1 {
    } else if i == 2 {
    } else if i == 3 {
    } else if i == 4 {
    } else if i == 5 {
    } else {
        assert(i == 6);
    }
}

} // verus!
