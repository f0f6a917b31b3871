//! Keys and their order.
//!
//! A key is a byte string; keys compare lexicographically. A timestamped
//! key pairs a key with a `u32` timestamp and orders by key ascending,
//! timestamp descending, so that for one key the newest entry comes first.

use vstd::prelude::*;

verus! {

/// Timestamps are sequence numbers handed out by the version set.
pub type Timestamp = u32;

/// The earliest timestamp; reserved, never allocated to a write.
pub const EPOCH: Timestamp = 0;

/// Three-way lexicographic comparison of byte strings:
/// negative when `a` comes first, zero when equal, positive when `b` comes first.
pub open spec fn key_cmp_spec(a: Seq<u8>, b: Seq<u8>) -> int
    decreases a.len(),
{
    if a.len() == 0 && b.len() == 0 {
        0
    } else if a.len() == 0 {
        -1
    } else if b.len() == 0 {
        1
    } else if a[0] < b[0] {
        -1
    } else if a[0] > b[0] {
        1
    } else {
        key_cmp_spec(a.skip(1), b.skip(1))
    }
}

pub open spec fn key_lt(a: Seq<u8>, b: Seq<u8>) -> bool {
    key_cmp_spec(a, b) < 0
}

pub open spec fn key_le(a: Seq<u8>, b: Seq<u8>) -> bool {
    key_cmp_spec(a, b) <= 0
}

pub proof fn lemma_key_cmp_range(a: Seq<u8>, b: Seq<u8>)
    ensures
        -1 <= key_cmp_spec(a, b) <= 1,
    decreases a.len(),
{
    if a.len() != 0 && b.len() != 0 && a[0] == b[0] {
        lemma_key_cmp_range(a.skip(1), b.skip(1));
    }
}

/// Comparison is zero exactly on equal sequences.
pub proof fn lemma_key_cmp_eq(a: Seq<u8>, b: Seq<u8>)
    ensures
        key_cmp_spec(a, b) == 0 <==> a == b,
    decreases a.len(),
{
    if a.len() == 0 && b.len() == 0 {
        assert(a =~= b);
    } else if a.len() != 0 && b.len() != 0 && a[0] == b[0] {
        lemma_key_cmp_eq(a.skip(1), b.skip(1));
        if key_cmp_spec(a, b) == 0 {
            assert(a.skip(1) == b.skip(1));
            assert forall|i: int| 0 <= i < a.len() implies a[i] == b[i] by {
                if i > 0 {
                    assert(a[i] == a.skip(1)[i - 1]);
                    assert(b[i] == b.skip(1)[i - 1]);
                }
            }
            assert(a =~= b);
        }
        if a == b {
            assert(a.skip(1) =~= b.skip(1));
        }
    }
}

/// Swapping the arguments flips the sign.
pub proof fn lemma_key_cmp_antisym(a: Seq<u8>, b: Seq<u8>)
    ensures
        key_cmp_spec(a, b) == -key_cmp_spec(b, a),
    decreases a.len(),
{
    if a.len() != 0 && b.len() != 0 && a[0] == b[0] {
        lemma_key_cmp_antisym(a.skip(1), b.skip(1));
    }
}

/// The order is transitive, stated for the non-strict form; together with
/// `lemma_key_cmp_eq` this yields the strict forms.
pub proof fn lemma_key_le_trans(a: Seq<u8>, b: Seq<u8>, c: Seq<u8>)
    requires
        key_le(a, b),
        key_le(b, c),
    ensures
        key_le(a, c),
    decreases a.len(),
{
    if a.len() == 0 {
    } else if b.len() == 0 {
    } else if c.len() == 0 {
    } else {
        if a[0] == b[0] && b[0] == c[0] {
            lemma_key_le_trans(a.skip(1), b.skip(1), c.skip(1));
        }
    }
}

pub proof fn lemma_key_lt_trans(a: Seq<u8>, b: Seq<u8>, c: Seq<u8>)
    requires
        key_lt(a, b),
        key_lt(b, c),
    ensures
        key_lt(a, c),
{
    lemma_key_le_trans(a, b, c);
    if key_cmp_spec(a, c) == 0 {
        lemma_key_cmp_eq(a, c);
        lemma_key_cmp_antisym(a, b);
        lemma_key_le_trans(b, c, a);
        lemma_key_cmp_eq(b, a);
    }
}

pub proof fn lemma_key_lt_le_trans(a: Seq<u8>, b: Seq<u8>, c: Seq<u8>)
    requires
        key_lt(a, b),
        key_le(b, c),
    ensures
        key_lt(a, c),
{
    if key_cmp_spec(b, c) == 0 {
        lemma_key_cmp_eq(b, c);
    } else {
        lemma_key_lt_trans(a, b, c);
    }
}

pub proof fn lemma_key_le_lt_trans(a: Seq<u8>, b: Seq<u8>, c: Seq<u8>)
    requires
        key_le(a, b),
        key_lt(b, c),
    ensures
        key_lt(a, c),
{
    if key_cmp_spec(a, b) == 0 {
        lemma_key_cmp_eq(a, b);
    } else {
        lemma_key_lt_trans(a, b, c);
    }
}

/// The order is total: of two keys one comes first, or they are equal.
pub proof fn lemma_key_total(a: Seq<u8>, b: Seq<u8>)
    ensures
        key_lt(a, b) || key_lt(b, a) || a == b,
{
    lemma_key_cmp_range(a, b);
    lemma_key_cmp_antisym(a, b);
    if key_cmp_spec(a, b) == 0 {
        lemma_key_cmp_eq(a, b);
    }
}

proof fn lemma_key_cmp_skip_step(a: Seq<u8>, b: Seq<u8>, i: int)
    requires
        0 <= i < a.len(),
        0 <= i < b.len(),
        a[i] == b[i],
    ensures
        key_cmp_spec(a.skip(i), b.skip(i)) == key_cmp_spec(a.skip(i + 1), b.skip(i + 1)),
{
    assert(a.skip(i).len() != 0);
    assert(b.skip(i).len() != 0);
    assert(a.skip(i)[0] == a[i]);
    assert(b.skip(i)[0] == b[i]);
    assert(a.skip(i).skip(1) =~= a.skip(i + 1));
    assert(b.skip(i).skip(1) =~= b.skip(i + 1));
}

/// Three-way comparison of two keys; the sign of the result is the
/// lexicographic order.
pub fn key_cmp(a: &Vec<u8>, b: &Vec<u8>) -> (r: i8)
    ensures
        r as int == key_cmp_spec(a@, b@),
{
    let a_len = a.len();
    let b_len = b.len();
    let n = if a_len < b_len { a_len } else { b_len };
    let mut i: usize = 0;
    proof {
        assert(a@.skip(0) =~= a@);
        assert(b@.skip(0) =~= b@);
    }
    while i < n
        invariant
            i <= n,
            n == if a_len < b_len { a_len } else { b_len },
            a_len == a@.len(),
            b_len == b@.len(),
            key_cmp_spec(a@, b@) == key_cmp_spec(a@.skip(i as int), b@.skip(i as int)),
        decreases n - i,
    {
        let x = a[i];
        let y = b[i];
        if x < y {
            proof {
                assert(a@.skip(i as int)[0] == x);
                assert(b@.skip(i as int)[0] == y);
            }
            return -1;
        }
        if x > y {
            proof {
                assert(a@.skip(i as int)[0] == x);
                assert(b@.skip(i as int)[0] == y);
            }
            return 1;
        }
        proof {
            lemma_key_cmp_skip_step(a@, b@, i as int);
        }
        i = i + 1;
    }
    if a_len < b_len {
        proof {
            assert(a@.skip(i as int).len() == 0);
            assert(b@.skip(i as int).len() != 0);
        }
        -1
    } else if a_len > b_len {
        proof {
            assert(a@.skip(i as int).len() != 0);
            assert(b@.skip(i as int).len() == 0);
        }
        1
    } else {
        proof {
            assert(a@.skip(i as int).len() == 0);
            assert(b@.skip(i as int).len() == 0);
        }
        0
    }
}

/// A key together with the timestamp at which it was written.
pub struct Timestamped {
    pub key: Vec<u8>,
    pub ts: Timestamp,
}

impl Timestamped {
    pub fn new(key: Vec<u8>, ts: Timestamp) -> (r: Timestamped)
        ensures
            r.key == key,
            r.ts == ts,
    {
        Timestamped { key, ts }
    }
}

/// Order of timestamped keys: key ascending, timestamp descending,
/// so for one key the newest entry comes first.
pub open spec fn ts_key_cmp_spec(ka: Seq<u8>, ta: Timestamp, kb: Seq<u8>, tb: Timestamp) -> int {
    if key_cmp_spec(ka, kb) != 0 {
        key_cmp_spec(ka, kb)
    } else if ta > tb {
        -1
    } else if ta < tb {
        1
    } else {
        0
    }
}

pub open spec fn ts_key_lt(ka: Seq<u8>, ta: Timestamp, kb: Seq<u8>, tb: Timestamp) -> bool {
    ts_key_cmp_spec(ka, ta, kb, tb) < 0
}

pub open spec fn ts_key_le(ka: Seq<u8>, ta: Timestamp, kb: Seq<u8>, tb: Timestamp) -> bool {
    ts_key_cmp_spec(ka, ta, kb, tb) <= 0
}

pub proof fn lemma_ts_key_eq(ka: Seq<u8>, ta: Timestamp, kb: Seq<u8>, tb: Timestamp)
    ensures
        ts_key_cmp_spec(ka, ta, kb, tb) == 0 <==> (ka == kb && ta == tb),
{
    lemma_key_cmp_eq(ka, kb);
}

pub proof fn lemma_ts_key_total(ka: Seq<u8>, ta: Timestamp, kb: Seq<u8>, tb: Timestamp)
    ensures
        ts_key_lt(ka, ta, kb, tb) || ts_key_lt(kb, tb, ka, ta) || (ka == kb && ta == tb),
{
    lemma_key_total(ka, kb);
    lemma_key_cmp_eq(ka, kb);
    lemma_key_cmp_antisym(ka, kb);
}

pub proof fn lemma_ts_key_lt_trans(
    ka: Seq<u8>,
    ta: Timestamp,
    kb: Seq<u8>,
    tb: Timestamp,
    kc: Seq<u8>,
    tc: Timestamp,
)
    requires
        ts_key_lt(ka, ta, kb, tb),
        ts_key_lt(kb, tb, kc, tc),
    ensures
        ts_key_lt(ka, ta, kc, tc),
{
    lemma_key_cmp_range(ka, kb);
    lemma_key_cmp_range(kb, kc);
    lemma_key_cmp_eq(ka, kb);
    lemma_key_cmp_eq(kb, kc);
    if key_cmp_spec(ka, kb) == 0 {
        assert(ka == kb);
    } else if key_cmp_spec(kb, kc) == 0 {
        assert(kb == kc);
    } else {
        lemma_key_lt_trans(ka, kb, kc);
        lemma_key_cmp_eq(ka, kc);
    }
}

pub proof fn lemma_ts_key_antisym(ka: Seq<u8>, ta: Timestamp, kb: Seq<u8>, tb: Timestamp)
    ensures
        ts_key_cmp_spec(ka, ta, kb, tb) == -ts_key_cmp_spec(kb, tb, ka, ta),
{
    lemma_key_cmp_antisym(ka, kb);
}

pub proof fn lemma_ts_key_le_lt_trans(
    ka: Seq<u8>,
    ta: Timestamp,
    kb: Seq<u8>,
    tb: Timestamp,
    kc: Seq<u8>,
    tc: Timestamp,
)
    requires
        ts_key_le(ka, ta, kb, tb),
        ts_key_lt(kb, tb, kc, tc),
    ensures
        ts_key_lt(ka, ta, kc, tc),
{
    if ts_key_cmp_spec(ka, ta, kb, tb) == 0 {
        lemma_ts_key_eq(ka, ta, kb, tb);
    } else {
        lemma_ts_key_lt_trans(ka, ta, kb, tb, kc, tc);
    }
}

pub proof fn lemma_ts_key_lt_le_trans(
    ka: Seq<u8>,
    ta: Timestamp,
    kb: Seq<u8>,
    tb: Timestamp,
    kc: Seq<u8>,
    tc: Timestamp,
)
    requires
        ts_key_lt(ka, ta, kb, tb),
        ts_key_le(kb, tb, kc, tc),
    ensures
        ts_key_lt(ka, ta, kc, tc),
{
    if ts_key_cmp_spec(kb, tb, kc, tc) == 0 {
        lemma_ts_key_eq(kb, tb, kc, tc);
    } else {
        lemma_ts_key_lt_trans(ka, ta, kb, tb, kc, tc);
    }
}

/// Three-way comparison of timestamped keys under the
/// `(key ascending, timestamp descending)` order.
pub fn ts_key_cmp(a: &Timestamped, b: &Timestamped) -> (r: i8)
    ensures
        r as int == ts_key_cmp_spec(a.key@, a.ts, b.key@, b.ts),
{
    let k = key_cmp(&a.key, &b.key);
    if k != 0 {
        k
    } else if a.ts > b.ts {
        -1
    } else if a.ts < b.ts {
        1
    } else {
        0
    }
}

} // verus!
