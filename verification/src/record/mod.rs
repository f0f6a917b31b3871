//! Dynamic records: typed column values under a runtime schema.
//!
//! A record is a row of `Value`s; the schema designates one column as the
//! primary key. The primary key is turned into a byte string whose
//! lexicographic order agrees with the value order: unsigned integers in
//! big-endian form, signed integers biased by half the range, byte and
//! text columns as their bytes.

use vstd::prelude::*;

verus! {

/// Column types a schema may declare.
#[derive(Clone, Copy, Debug, PartialEq, Eq, Structural)]
pub enum DataType {
    UInt8,
    UInt16,
    UInt32,
    UInt64,
    Int8,
    Int16,
    Int32,
    Int64,
    Utf8,
    Boolean,
    Bytes,
}

/// A dynamically typed cell; `Null` stands for an absent value.
#[derive(Debug, PartialEq, Eq)]
pub enum DynVal {
    UInt8(u8),
    UInt16(u16),
    UInt32(u32),
    UInt64(u64),
    Int8(i8),
    Int16(i16),
    Int32(i32),
    Int64(i64),
    Utf8(Vec<u8>),
    Boolean(bool),
    Bytes(Vec<u8>),
    Null,
}

/// Mathematical form of a cell: byte payloads become sequences.
pub enum ValV {
    UInt8(u8),
    UInt16(u16),
    UInt32(u32),
    UInt64(u64),
    Int8(i8),
    Int16(i16),
    Int32(i32),
    Int64(i64),
    Utf8(Seq<u8>),
    Boolean(bool),
    Bytes(Seq<u8>),
    Null,
}

impl View for DynVal {
    type V = ValV;

    open spec fn view(&self) -> ValV {
        match self {
            DynVal::UInt8(x) => ValV::UInt8(*x),
            DynVal::UInt16(x) => ValV::UInt16(*x),
            DynVal::UInt32(x) => ValV::UInt32(*x),
            DynVal::UInt64(x) => ValV::UInt64(*x),
            DynVal::Int8(x) => ValV::Int8(*x),
            DynVal::Int16(x) => ValV::Int16(*x),
            DynVal::Int32(x) => ValV::Int32(*x),
            DynVal::Int64(x) => ValV::Int64(*x),
            DynVal::Utf8(s) => ValV::Utf8(s@),
            DynVal::Boolean(b) => ValV::Boolean(*b),
            DynVal::Bytes(s) => ValV::Bytes(s@),
            DynVal::Null => ValV::Null,
        }
    }
}

/// Whether a cell matches the declared column type; `Null` matches any.
pub open spec fn val_matches_type(v: ValV, dt: DataType) -> bool {
    match v {
        ValV::UInt8(_) => dt == DataType::UInt8,
        ValV::UInt16(_) => dt == DataType::UInt16,
        ValV::UInt32(_) => dt == DataType::UInt32,
        ValV::UInt64(_) => dt == DataType::UInt64,
        ValV::Int8(_) => dt == DataType::Int8,
        ValV::Int16(_) => dt == DataType::Int16,
        ValV::Int32(_) => dt == DataType::Int32,
        ValV::Int64(_) => dt == DataType::Int64,
        ValV::Utf8(_) => dt == DataType::Utf8,
        ValV::Boolean(_) => dt == DataType::Boolean,
        ValV::Bytes(_) => dt == DataType::Bytes,
        ValV::Null => true,
    }
}

impl DynVal {
    pub open spec fn matches_type(&self, dt: DataType) -> bool {
        val_matches_type(self@, dt)
    }

    pub open spec fn is_null(&self) -> bool {
        self@ is Null
    }

    /// The default cell of a column type, used where a non-nullable column
    /// receives no value (a tombstone row fills every column this way).
    pub fn default_of(dt: DataType) -> (r: DynVal)
        ensures
            r@ == default_val_spec(dt),
    {
        match dt {
            DataType::UInt8 => DynVal::UInt8(0),
            DataType::UInt16 => DynVal::UInt16(0),
            DataType::UInt32 => DynVal::UInt32(0),
            DataType::UInt64 => DynVal::UInt64(0),
            DataType::Int8 => DynVal::Int8(0),
            DataType::Int16 => DynVal::Int16(0),
            DataType::Int32 => DynVal::Int32(0),
            DataType::Int64 => DynVal::Int64(0),
            DataType::Utf8 => DynVal::Utf8(Vec::new()),
            DataType::Boolean => DynVal::Boolean(false),
            DataType::Bytes => DynVal::Bytes(Vec::new()),
        }
    }

    /// Bytes this cell occupies in the size accounting of builders and
    /// triggers.
    pub fn byte_size(&self) -> (r: usize)
        ensures
            r == val_size_spec(self@),
    {
        match self {
            DynVal::UInt8(_) => 1,
            DynVal::UInt16(_) => 2,
            DynVal::UInt32(_) => 4,
            DynVal::UInt64(_) => 8,
            DynVal::Int8(_) => 1,
            DynVal::Int16(_) => 2,
            DynVal::Int32(_) => 4,
            DynVal::Int64(_) => 8,
            DynVal::Utf8(s) => s.len(),
            DynVal::Boolean(_) => 1,
            DynVal::Bytes(s) => s.len(),
            DynVal::Null => 0,
        }
    }
}

pub open spec fn default_val_spec(dt: DataType) -> ValV {
    match dt {
        DataType::UInt8 => ValV::UInt8(0),
        DataType::UInt16 => ValV::UInt16(0),
        DataType::UInt32 => ValV::UInt32(0),
        DataType::UInt64 => ValV::UInt64(0),
        DataType::Int8 => ValV::Int8(0),
        DataType::Int16 => ValV::Int16(0),
        DataType::Int32 => ValV::Int32(0),
        DataType::Int64 => ValV::Int64(0),
        DataType::Utf8 => ValV::Utf8(Seq::empty()),
        DataType::Boolean => ValV::Boolean(false),
        DataType::Bytes => ValV::Bytes(Seq::empty()),
    }
}

pub open spec fn val_size_spec(v: ValV) -> nat {
    match v {
        ValV::UInt8(_) => 1,
        ValV::UInt16(_) => 2,
        ValV::UInt32(_) => 4,
        ValV::UInt64(_) => 8,
        ValV::Int8(_) => 1,
        ValV::Int16(_) => 2,
        ValV::Int32(_) => 4,
        ValV::Int64(_) => 8,
        ValV::Utf8(s) => s.len(),
        ValV::Boolean(_) => 1,
        ValV::Bytes(s) => s.len(),
        ValV::Null => 0,
    }
}

/// Big-endian bytes of an unsigned value below `2^(8*n)`.
pub open spec fn be_bytes_spec(x: int, n: nat) -> Seq<u8>
    decreases n,
{
    if n == 0 {
        Seq::empty()
    } else {
        be_bytes_spec(x / 256, (n - 1) as nat).push((x % 256) as u8)
    }
}

/// The key bytes of a primary-key cell. Unsigned integers keep their
/// big-endian form; signed integers are shifted by half the range so the
/// byte order is the numeric order; text and bytes are themselves.
pub open spec fn key_of_val_spec(v: ValV) -> Seq<u8> {
    match v {
        ValV::UInt8(x) => be_bytes_spec(x as int, 1),
        ValV::UInt16(x) => be_bytes_spec(x as int, 2),
        ValV::UInt32(x) => be_bytes_spec(x as int, 4),
        ValV::UInt64(x) => be_bytes_spec(x as int, 8),
        ValV::Int8(x) => be_bytes_spec(x + 0x80, 1),
        ValV::Int16(x) => be_bytes_spec(x + 0x8000, 2),
        ValV::Int32(x) => be_bytes_spec(x + 0x8000_0000, 4),
        ValV::Int64(x) => be_bytes_spec(x + 0x8000_0000_0000_0000, 8),
        ValV::Utf8(s) => s,
        ValV::Boolean(b) => seq![if b { 1u8 } else { 0u8 }],
        ValV::Bytes(s) => s,
        ValV::Null => Seq::empty(),
    }
}

fn be_bytes(x: u64, n: usize) -> (r: Vec<u8>)
    requires
        n <= 8,
        x < pow256_spec(n as nat),
    ensures
        r@ == be_bytes_spec(x as int, n as nat),
        r.len() == n,
{
    let mut out: Vec<u8> = Vec::new();
    let mut i: usize = n;
    while i > 0
        invariant
            i <= n <= 8,
            out@.len() == n - i,
            out@ == be_bytes_spec(x as int / pow256_spec(i as nat) as int, (n - i) as nat),
        decreases i,
    {
        i = i - 1;
        let shifted = x / pow256(i);
        let b = (shifted % 256) as u8;
        proof {
            assert(pow256_spec((i + 1) as nat) == 256 * pow256_spec(i as nat));
            assert(x as int / pow256_spec((i + 1) as nat) as int == (x as int / pow256_spec(
                i as nat,
            ) as int) / 256) by {
                vstd::arithmetic::div_mod::lemma_div_denominator(
                    x as int,
                    pow256_spec(i as nat) as int,
                    256,
                );
            }
            assert(be_bytes_spec(x as int / pow256_spec(i as nat) as int, (n - i) as nat)
                == be_bytes_spec(x as int / pow256_spec((i + 1) as nat) as int, (n - i - 1) as nat)
                .push((x as int / pow256_spec(i as nat) as int % 256) as u8));
        }
        out.push(b);
    }
    proof {
        assert(pow256_spec(0) == 1);
        assert(x as int / 1 == x as int);
    }
    out
}

pub open spec fn pow256_spec(n: nat) -> nat
    decreases n,
{
    if n == 0 {
        1
    } else {
        256 * pow256_spec((n - 1) as nat)
    }
}

fn pow256(n: usize) -> (r: u64)
    requires
        n <= 7,
    ensures
        r == pow256_spec(n as nat),
        r >= 1,
{
    let mut r: u64 = 1;
    let mut i: usize = 0;
    while i < n
        invariant
            i <= n <= 7,
            r == pow256_spec(i as nat),
        decreases n - i,
    {
        proof {
            lemma_pow256_values();
            lemma_pow256_mono(i as nat, 7);
        }
        r = r * 256;
        i = i + 1;
    }
    proof {
        lemma_pow256_mono(0, n as nat);
    }
    r
}

proof fn lemma_pow256_values()
    ensures
        pow256_spec(0) == 1,
        pow256_spec(1) == 0x100,
        pow256_spec(2) == 0x1_0000,
        pow256_spec(3) == 0x100_0000,
        pow256_spec(4) == 0x1_0000_0000,
        pow256_spec(5) == 0x100_0000_0000,
        pow256_spec(6) == 0x1_0000_0000_0000,
        pow256_spec(7) == 0x100_0000_0000_0000,
        pow256_spec(8) == 0x1_0000_0000_0000_0000,
{
    assert(pow256_spec(0) == 1);
    assert(pow256_spec(1) == 0x100);
    assert(pow256_spec(2) == 0x1_0000);
    assert(pow256_spec(3) == 0x100_0000);
    assert(pow256_spec(4) == 0x1_0000_0000);
    assert(pow256_spec(5) == 0x100_0000_0000);
    assert(pow256_spec(6) == 0x1_0000_0000_0000);
    assert(pow256_spec(7) == 0x100_0000_0000_0000);
    assert(pow256_spec(8) == 0x1_0000_0000_0000_0000);
}

proof fn lemma_pow256_mono(a: nat, b: nat)
    requires
        a <= b,
    ensures
        pow256_spec(a) <= pow256_spec(b),
    decreases b,
{
    if a < b {
        lemma_pow256_mono(a, (b - 1) as nat);
        assert(pow256_spec(b) == 256 * pow256_spec((b - 1) as nat));
    }
}

impl DynVal {
    /// The key bytes of this cell; a `Null` never serves as a key.
    pub fn to_key_bytes(&self) -> (r: Vec<u8>)
        requires
            !self.is_null(),
        ensures
            r@ == key_of_val_spec(self@),
    {
        proof {
            lemma_pow256_values();
        }
        match self {
            DynVal::UInt8(x) => be_bytes(*x as u64, 1),
            DynVal::UInt16(x) => be_bytes(*x as u64, 2),
            DynVal::UInt32(x) => be_bytes(*x as u64, 4),
            DynVal::UInt64(x) => be_bytes(*x, 8),
            DynVal::Int8(x) => be_bytes((*x as i16 + 0x80) as u64, 1),
            DynVal::Int16(x) => be_bytes((*x as i32 + 0x8000) as u64, 2),
            DynVal::Int32(x) => be_bytes((*x as i64 + 0x8000_0000) as u64, 4),
            DynVal::Int64(x) => be_bytes(((*x as i128) + 0x8000_0000_0000_0000) as u64, 8),
            DynVal::Utf8(s) => s.clone(),
            DynVal::Boolean(b) => {
                let mut v: Vec<u8> = Vec::new();
                v.push(if *b {
                    1
                } else {
                    0
                });
                proof {
                    assert(v@ =~= key_of_val_spec(self@));
                }
                v
            },
            DynVal::Bytes(s) => s.clone(),
            DynVal::Null => Vec::new(),
        }
    }
}

/// Declaration of one column: its name, type, and whether a row may leave
/// it empty.
#[derive(Debug, PartialEq, Eq)]
pub struct ValueDesc {
    pub name: Vec<u8>,
    pub datatype: DataType,
    pub is_nullable: bool,
}

pub struct ValueDescV {
    pub name: Seq<u8>,
    pub datatype: DataType,
    pub is_nullable: bool,
}

impl View for ValueDesc {
    type V = ValueDescV;

    open spec fn view(&self) -> ValueDescV {
        ValueDescV { name: self.name@, datatype: self.datatype, is_nullable: self.is_nullable }
    }
}

impl ValueDesc {
    pub fn new(name: Vec<u8>, datatype: DataType, is_nullable: bool) -> (r: ValueDesc)
        ensures
            r@.name == name@,
            r@.datatype == datatype,
            r@.is_nullable == is_nullable,
    {
        ValueDesc { name, datatype, is_nullable }
    }
}

/// One cell together with its column declaration.
#[derive(Debug, PartialEq, Eq)]
pub struct Value {
    pub desc: ValueDesc,
    pub val: DynVal,
}

pub struct ValueV {
    pub desc: ValueDescV,
    pub val: ValV,
}

impl View for Value {
    type V = ValueV;

    open spec fn view(&self) -> ValueV {
        ValueV { desc: self.desc@, val: self.val@ }
    }
}

impl Value {
    pub fn new(datatype: DataType, name: Vec<u8>, val: DynVal, is_nullable: bool) -> (r: Value)
        ensures
            r@.desc.datatype == datatype,
            r@.desc.name == name@,
            r@.val == val@,
            r@.desc.is_nullable == is_nullable,
    {
        Value { desc: ValueDesc { name, datatype, is_nullable }, val }
    }

    /// A cell is well formed when its value fits the declared type and is
    /// only absent where the declaration allows it.
    pub open spec fn wf(&self) -> bool {
        value_wf(self@)
    }

    pub fn datatype(&self) -> (r: DataType)
        ensures
            r == self@.desc.datatype,
    {
        self.desc.datatype
    }

    pub fn is_nullable(&self) -> (r: bool)
        ensures
            r == self@.desc.is_nullable,
    {
        self.desc.is_nullable
    }
}

/// The runtime schema: the column declarations and which column holds the
/// primary key.
#[derive(Debug)]
pub struct DynSchema {
    pub descs: Vec<ValueDesc>,
    pub primary_key_index: usize,
}

pub struct DynSchemaV {
    pub descs: Seq<ValueDescV>,
    pub primary_key_index: int,
}

impl View for DynSchema {
    type V = DynSchemaV;

    open spec fn view(&self) -> DynSchemaV {
        DynSchemaV {
            descs: self.descs@.map_values(|d: ValueDesc| d@),
            primary_key_index: self.primary_key_index as int,
        }
    }
}

impl DynSchema {
    pub open spec fn wf(&self) -> bool {
        &&& 0 <= self@.primary_key_index < self@.descs.len()
        &&& !self@.descs[self@.primary_key_index].is_nullable
    }

    pub fn new(descs: Vec<ValueDesc>, primary_key_index: usize) -> (r: DynSchema)
        requires
            primary_key_index < descs.len(),
            !descs@[primary_key_index as int]@.is_nullable,
        ensures
            r.wf(),
            r@.descs == descs@.map_values(|d: ValueDesc| d@),
            r@.primary_key_index == primary_key_index as int,
    {
        DynSchema { descs, primary_key_index }
    }

    pub fn len(&self) -> (r: usize)
        ensures
            r == self@.descs.len(),
    {
        self.descs.len()
    }
}

/// A row: one cell per schema column, keyed by the cell at the schema's
/// primary-key index.
#[derive(Debug, PartialEq, Eq)]
pub struct DynRecord {
    pub columns: Vec<Value>,
    pub primary_key_index: usize,
}

pub struct DynRecordV {
    pub columns: Seq<ValueV>,
    pub primary_key_index: int,
}

impl View for DynRecord {
    type V = DynRecordV;

    open spec fn view(&self) -> DynRecordV {
        DynRecordV {
            columns: self.columns@.map_values(|v: Value| v@),
            primary_key_index: self.primary_key_index as int,
        }
    }
}

/// A cell is well formed when its value fits the declared type and is
/// only absent where the declaration allows it.
pub open spec fn value_wf(v: ValueV) -> bool {
    val_matches_type(v.val, v.desc.datatype) && (v.val is Null ==> v.desc.is_nullable)
}

/// A record is well formed when its key cell is present and every cell
/// is well formed.
pub open spec fn record_wf(r: DynRecordV) -> bool {
    &&& 0 <= r.primary_key_index < r.columns.len()
    &&& !(r.columns[r.primary_key_index].val is Null)
    &&& forall|i: int| 0 <= i < r.columns.len() ==> value_wf(#[trigger] r.columns[i])
}

/// A record fits a schema when it declares exactly the schema's columns,
/// keys at the schema's position, leaves cells empty only where allowed,
/// and has its key cell present.
pub open spec fn record_matches_schema(r: DynRecordV, s: DynSchemaV) -> bool {
    &&& r.columns.len() == s.descs.len()
    &&& r.primary_key_index == s.primary_key_index
    &&& 0 <= r.primary_key_index < r.columns.len()
    &&& forall|i: int| 0 <= i < r.columns.len() ==> #[trigger] r.columns[i].desc == s.descs[i]
    &&& forall|i: int|
        0 <= i < r.columns.len() ==> ((#[trigger] r.columns[i].val is Null)
            ==> s.descs[i].is_nullable)
    &&& !(r.columns[r.primary_key_index].val is Null)
}

/// The key bytes of a record: its primary-key cell, encoded.
pub open spec fn record_key_spec(r: DynRecordV) -> Seq<u8> {
    key_of_val_spec(r.columns[r.primary_key_index].val)
}

impl DynRecord {
    pub open spec fn wf(&self) -> bool {
        record_wf(self@)
    }

    pub fn new(columns: Vec<Value>, primary_key_index: usize) -> (r: DynRecord)
        requires
            primary_key_index < columns.len(),
            !(columns@[primary_key_index as int]@.val is Null),
            forall|i: int| 0 <= i < columns.len() ==> (#[trigger] columns@[i]).wf(),
        ensures
            r.wf(),
            r@.columns == columns@.map_values(|v: Value| v@),
            r@.primary_key_index == primary_key_index as int,
    {
        let r = DynRecord { columns, primary_key_index };
        proof {
            assert forall|i: int| 0 <= i < r@.columns.len() implies value_wf(
                #[trigger] r@.columns[i],
            ) by {
                assert(r@.columns[i] == columns@[i]@);
            }
        }
        r
    }

    /// The key bytes of this record.
    pub fn key_bytes(&self) -> (r: Vec<u8>)
        requires
            self.wf(),
        ensures
            r@ == record_key_spec(self@),
    {
        self.columns[self.primary_key_index].val.to_key_bytes()
    }

    /// Bytes this row occupies in size accounting: the sum of its cells.
    pub fn byte_size(&self) -> (r: usize)
        ensures
            r == record_size_spec(self@),
    {
        let mut total: usize = 0;
        let mut i: usize = 0;
        while i < self.columns.len()
            invariant
                i <= self.columns@.len(),
                total == row_size_prefix_spec(self@.columns, i as int),
            decreases self.columns@.len() - i,
        {
            let s = self.columns[i].val.byte_size();
            if total <= usize::MAX - s {
                total = total + s;
            } else {
                total = usize::MAX;
            }
            i = i + 1;
        }
        total
    }
}

/// Size of the first `n` cells of a row, saturating at `usize::MAX`.
pub open spec fn row_size_prefix_spec(cols: Seq<ValueV>, n: int) -> nat
    decreases n,
{
    if n <= 0 {
        0
    } else {
        let rest = row_size_prefix_spec(cols, n - 1);
        if rest + val_size_spec(cols[n - 1].val) <= usize::MAX {
            (rest + val_size_spec(cols[n - 1].val)) as nat
        } else {
            usize::MAX as nat
        }
    }
}

pub open spec fn record_size_spec(r: DynRecordV) -> nat {
    row_size_prefix_spec(r.columns, r.columns.len() as int)
}

/// A record under a projection: the key column and every projected
/// column keep their values, every other cell reads as absent. Slot
/// `j + 2` of the mask answers for user column `j`, after the two
/// reserved leading columns.
pub open spec fn project_record(r: DynRecordV, m: Seq<bool>) -> DynRecordV {
    DynRecordV {
        columns: Seq::new(
            r.columns.len() as nat,
            |j: int|
                if j == r.primary_key_index || mask_included_spec(m, j + 2) {
                    r.columns[j]
                } else {
                    ValueV { desc: r.columns[j].desc, val: ValV::Null }
                },
        ),
        primary_key_index: r.primary_key_index,
    }
}

/// Apply a projection to a record.
pub fn project_record_exec(r: &DynRecord, mask: &ProjectionMask) -> (res: DynRecord)
    ensures
        res@ == project_record(r@, mask@),
{
    let mut columns: Vec<Value> = Vec::new();
    let mut j: usize = 0;
    while j < r.columns.len()
        invariant
            j <= r.columns@.len(),
            columns@.len() == j,
            forall|t: int|
                0 <= t < j ==> (#[trigger] columns@[t])@ == project_record(r@, mask@).columns[t],
        decreases r.columns@.len() - j,
    {
        proof {
            assert(r@.columns[j as int] == r.columns@[j as int]@);
        }
        let included = if j <= usize::MAX - 2 {
            mask.leaf_included(j + 2)
        } else {
            let n = mask.mask.len();
            proof {
                assert(mask@.len() == n);
            }
            true
        };
        if j == r.primary_key_index || included {
            columns.push(r.columns[j].clone());
        } else {
            let desc = r.columns[j].desc.clone();
            columns.push(Value { desc, val: DynVal::Null });
        }
        j = j + 1;
    }
    let res = DynRecord { columns, primary_key_index: r.primary_key_index };
    proof {
        assert(res@.columns =~= project_record(r@, mask@).columns);
    }
    res
}

/// Which columns of a table a read materializes. Slot `i` answers for the
/// table's column `i`, the two reserved leading columns included.
#[derive(Debug)]
pub struct ProjectionMask {
    pub mask: Vec<bool>,
}

impl View for ProjectionMask {
    type V = Seq<bool>;

    open spec fn view(&self) -> Seq<bool> {
        self.mask@
    }
}

/// Whether slot `i` is projected; slots past the mask's end count as
/// projected, so a mask built for fewer columns behaves like `all`.
pub open spec fn mask_included_spec(m: Seq<bool>, i: int) -> bool {
    i >= m.len() || (0 <= i && m[i])
}

impl ProjectionMask {
    /// The mask that projects every column.
    pub fn all() -> (r: ProjectionMask)
        ensures
            r@.len() == 0,
            forall|i: int| i >= 0 ==> mask_included_spec(r@, i),
    {
        ProjectionMask { mask: Vec::new() }
    }

    /// The mask that projects exactly the listed column indices among the
    /// first `n` columns.
    pub fn roots(n: usize, indices: &Vec<usize>) -> (r: ProjectionMask)
        ensures
            r@.len() == n,
            forall|i: int|
                0 <= i < n ==> (#[trigger] r@[i] <==> indices@.contains(i as usize)),
    {
        let mut mask: Vec<bool> = Vec::new();
        let mut i: usize = 0;
        while i < n
            invariant
                i <= n,
                mask@.len() == i,
                forall|j: int|
                    0 <= j < i ==> (#[trigger] mask@[j] <==> indices@.contains(j as usize)),
            decreases n - i,
        {
            let mut found = false;
            let mut k: usize = 0;
            while k < indices.len()
                invariant
                    k <= indices@.len(),
                    found <==> exists|t: int| 0 <= t < k && indices@[t] == i,
                decreases indices@.len() - k,
            {
                if indices[k] == i {
                    found = true;
                }
                k = k + 1;
            }
            proof {
                if found {
                    assert(indices@.contains(i));
                } else {
                    assert(!indices@.contains(i));
                }
            }
            mask.push(found);
            i = i + 1;
        }
        ProjectionMask { mask }
    }

    pub fn leaf_included(&self, i: usize) -> (r: bool)
        ensures
            r == mask_included_spec(self@, i as int),
    {
        i >= self.mask.len() || self.mask[i]
    }
}

} // verus!

pub mod array;
