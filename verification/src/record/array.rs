//! Columnar form of a run of rows: one value vector per schema column,
//! with a tombstone bitmap and a timestamp column in front — the layout
//! the on-disk format persists.
//!
//! The builder accepts rows and the finished arrays read back as the
//! same rows: the key cell sits in the primary-key column, a tombstone
//! is a set bit in the bitmap with every cell at its default.

use vstd::prelude::*;

use crate::entry::{Entry, EntryV};
use crate::key::Timestamp;
use crate::record::{
    default_val_spec, key_of_val_spec, record_matches_schema, DynRecordV, DynSchema, DynSchemaV,
    DynVal, ValV, ValueDesc, ValueDescV, ValueV,
};

verus! {

/// One user column: its declaration and one cell per row.
pub struct ColumnArray {
    pub desc: ValueDesc,
    pub data: Vec<DynVal>,
}

pub struct ColumnArrayV {
    pub desc: ValueDescV,
    pub data: Seq<ValV>,
}

impl View for ColumnArray {
    type V = ColumnArrayV;

    open spec fn view(&self) -> ColumnArrayV {
        ColumnArrayV { desc: self.desc@, data: self.data@.map_values(|v: DynVal| v@) }
    }
}

/// The columnar data shared by the finished arrays and the builder.
pub struct ArraysV {
    pub nulls: Seq<bool>,
    pub tss: Seq<Timestamp>,
    pub columns: Seq<ColumnArrayV>,
    pub primary_key_index: int,
}

/// Every column as long as the bitmap, the key column present and
/// without holes.
pub open spec fn arrays_wf(a: ArraysV) -> bool {
    &&& a.tss.len() == a.nulls.len()
    &&& forall|j: int| 0 <= j < a.columns.len() ==> (#[trigger] a.columns[j]).data.len() == a.nulls.len()
    &&& 0 <= a.primary_key_index < a.columns.len()
    &&& forall|i: int|
        0 <= i < a.nulls.len() ==> !(#[trigger] a.columns[a.primary_key_index].data[i] is Null)
}

/// Row `i` read back from the columns: the key from the key column, a
/// tombstone where the bitmap is set, else the record cell by cell.
pub open spec fn arrays_row(a: ArraysV, i: int) -> EntryV {
    EntryV {
        key: key_of_val_spec(a.columns[a.primary_key_index].data[i]),
        key_val: a.columns[a.primary_key_index].data[i],
        ts: a.tss[i],
        value: if a.nulls[i] {
            None
        } else {
            Some(
                DynRecordV {
                    columns: Seq::new(
                        a.columns.len(),
                        |j: int| ValueV { desc: a.columns[j].desc, val: a.columns[j].data[i] },
                    ),
                    primary_key_index: a.primary_key_index,
                },
            )
        },
    }
}

pub open spec fn arrays_rows(a: ArraysV) -> Seq<EntryV> {
    Seq::new(a.nulls.len() as nat, |i: int| arrays_row(a, i))
}

/// An immutable columnar batch.
pub struct DynRecordImmutableArrays {
    nulls: Vec<bool>,
    tss: Vec<Timestamp>,
    columns: Vec<ColumnArray>,
    primary_key_index: usize,
}

impl View for DynRecordImmutableArrays {
    type V = ArraysV;

    closed spec fn view(&self) -> ArraysV {
        ArraysV {
            nulls: self.nulls@,
            tss: self.tss@,
            columns: self.columns@.map_values(|c: ColumnArray| c@),
            primary_key_index: self.primary_key_index as int,
        }
    }
}

/// The builder the batch grows in; same columnar shape, plus the size
/// accounting that drives rolling to a new table.
pub struct DynRecordBuilder {
    nulls: Vec<bool>,
    tss: Vec<Timestamp>,
    columns: Vec<ColumnArray>,
    primary_key_index: usize,
    schema: DynSchema,
    written: usize,
}

impl View for DynRecordBuilder {
    type V = ArraysV;

    closed spec fn view(&self) -> ArraysV {
        ArraysV {
            nulls: self.nulls@,
            tss: self.tss@,
            columns: self.columns@.map_values(|c: ColumnArray| c@),
            primary_key_index: self.primary_key_index as int,
        }
    }
}

/// Bytes one pushed row accounts for, saturating at `usize::MAX`.
pub open spec fn pushed_size_spec(e: EntryV) -> nat {
    crate::inmem::mutable::entry_size_spec(e)
}

/// `min(a + b, usize::MAX)`.
fn sat_add(a: usize, b: usize) -> (r: usize)
    ensures
        r == if a + b <= usize::MAX {
            a + b
        } else {
            usize::MAX as int
        },
{
    if a <= usize::MAX - b {
        a + b
    } else {
        usize::MAX
    }
}

/// The builder's columns mirror the schema's declarations.
pub open spec fn builder_matches_schema(a: ArraysV, s: DynSchemaV) -> bool {
    &&& a.columns.len() == s.descs.len()
    &&& a.primary_key_index == s.primary_key_index
    &&& forall|j: int| 0 <= j < a.columns.len() ==> (#[trigger] a.columns[j]).desc == s.descs[j]
}

impl DynRecordImmutableArrays {
    /// An empty builder over `schema`.
    pub fn builder(schema: DynSchema) -> (r: DynRecordBuilder)
        requires
            schema.wf(),
        ensures
            r.wf(),
            arrays_rows(r@) == Seq::<EntryV>::empty(),
            r.schema_view() == schema@,
            r.written_size_spec() == 0,
    {
        let mut columns: Vec<ColumnArray> = Vec::new();
        let mut j: usize = 0;
        while j < schema.descs.len()
            invariant
                j <= schema.descs@.len(),
                columns@.len() == j,
                forall|t: int|
                    0 <= t < j ==> (#[trigger] columns@[t])@.desc == schema@.descs[t]
                        && columns@[t]@.data.len() == 0,
            decreases schema.descs@.len() - j,
        {
            let desc = schema.descs[j].clone();
            columns.push(ColumnArray { desc, data: Vec::new() });
            proof {
                assert(columns@[j as int]@.data =~= Seq::<ValV>::empty());
            }
            j = j + 1;
        }
        let r = DynRecordBuilder {
            nulls: Vec::new(),
            tss: Vec::new(),
            columns,
            primary_key_index: schema.primary_key_index,
            schema,
            written: 0,
        };
        proof {
            assert(arrays_rows(r@) =~= Seq::<EntryV>::empty());
        }
        r
    }
}

impl DynRecordBuilder {
    pub closed spec fn schema_view(&self) -> DynSchemaV {
        self.schema@
    }

    pub closed spec fn written_size_spec(&self) -> nat {
        self.written as nat
    }

    /// Columns in step with the schema and with one another.
    pub closed spec fn wf(&self) -> bool {
        &&& arrays_wf_except_rows(self@)
        &&& builder_matches_schema(self@, self.schema@)
        &&& self.schema.wf()
        &&& forall|i: int|
            0 <= i < self@.nulls.len() ==> !(
            #[trigger] self@.columns[self@.primary_key_index].data[i] is Null)
    }

    pub fn written_size(&self) -> (r: usize)
        ensures
            r == self.written_size_spec(),
    {
        self.written
    }

    pub fn len(&self) -> (r: usize)
        ensures
            r == arrays_rows(self@).len(),
    {
        self.nulls.len()
    }

    /// Append one row. The key cell goes to the key column; a tombstone
    /// sets the bitmap and fills every other cell with its default.
    pub fn push(&mut self, e: Entry) -> (nothing: ())
        requires
            old(self).wf(),
            e@.wf(),
            match e@.value {
                Some(r) => record_matches_schema(r, old(self).schema_view())
                    && r.columns[r.primary_key_index].val == e@.key_val,
                None => true,
            },
            crate::record::val_matches_type(
                e@.key_val,
                old(self).schema_view().descs[old(self).schema_view().primary_key_index].datatype,
            ),
        ensures
            final(self).wf(),
            arrays_rows(final(self)@) == arrays_rows(old(self)@).push(e@),
            final(self).schema_view() == old(self).schema_view(),
            final(self).written_size_spec() == if old(self).written_size_spec()
                + pushed_size_spec(e@) <= usize::MAX {
                old(self).written_size_spec() + pushed_size_spec(e@)
            } else {
                usize::MAX as nat
            },
    {
        let ghost oldv = self@;
        let Entry { key, key_val, ts, value } = e;
        let vsz = match &value {
            Some(rec) => rec.byte_size(),
            None => 0,
        };
        let esz = sat_add(sat_add(key.len(), 5), vsz);
        self.written = sat_add(self.written, esz);
        self.nulls.push(value.is_none());
        self.tss.push(ts);
        let ghost w_now = self.written;
        let pk = self.primary_key_index;
        let ncols = self.columns.len();
        let mut j: usize = 0;
        while j < ncols
            invariant
                j <= ncols,
                ncols == self.columns@.len(),
                pk == self.primary_key_index < ncols,
                self.written == w_now,
                self.nulls@ == oldv.nulls.push(value is None),
                self.tss@ == oldv.tss.push(ts),
                self.schema@ == old(self).schema_view(),
                self.schema.wf(),
                builder_matches_schema(oldv, self.schema@),
                forall|t: int|
                    0 <= t < ncols ==> (#[trigger] self.columns@[t])@.desc == oldv.columns[t].desc,
                forall|t: int|
                    j <= t < ncols ==> (#[trigger] self.columns@[t])@.data == oldv.columns[t].data,
                forall|t: int|
                    0 <= t < j ==> (#[trigger] self.columns@[t])@.data == oldv.columns[t].data.push(
                        if t == pk as int {
                            key_val@
                        } else {
                            match value {
                                Some(rec) => rec@.columns[t].val,
                                None => default_val_spec(self.schema@.descs[t].datatype),
                            }
                        },
                    ),
                oldv.columns.len() == ncols,
                oldv.primary_key_index == pk as int,
                match value {
                    Some(rec) => record_matches_schema(rec@, self.schema@)
                        && rec@.columns[rec@.primary_key_index].val == key_val@,
                    None => true,
                },
                !(key_val@ is Null),
            decreases ncols - j,
        {
            let ghost before = self.columns@[j as int]@.data;
            let cell: DynVal = if j == pk {
                key_val.clone()
            } else {
                match &value {
                    Some(rec) => rec.columns[j].val.clone(),
                    None => {
                        let dt = self.columns[j].desc.datatype;
                        proof {
                            assert(self.columns@[j as int]@.desc == self.schema@.descs[j as int]);
                        }
                        DynVal::default_of(dt)
                    },
                }
            };
            let col = &mut self.columns[j];
            col.data.push(cell);
            proof {
                assert(self.columns@[j as int]@.data =~= before.push(
                    if j as int == pk as int {
                        key_val@
                    } else {
                        match value {
                            Some(rec) => rec@.columns[j as int].val,
                            None => default_val_spec(self.schema@.descs[j as int].datatype),
                        }
                    },
                ));
            }
            j = j + 1;
        }
        proof {
            let newv = self@;
            let ev = EntryV {
                key: key@,
                key_val: key_val@,
                ts,
                value: match value {
                    Some(rec) => Some(rec@),
                    None => None,
                },
            };
            assert(arrays_rows(newv) =~= arrays_rows(oldv).push(ev)) by {
                assert(newv.nulls.len() == oldv.nulls.len() + 1);
                assert forall|i: int| 0 <= i < newv.nulls.len() implies arrays_rows(newv)[i]
                    == arrays_rows(oldv).push(ev)[i] by {
                    assert(newv.columns[newv.primary_key_index] == self.columns@[pk as int]@);
                    if i < oldv.nulls.len() {
                        assert(arrays_row(newv, i).key_val == arrays_row(oldv, i).key_val) by {
                            assert(newv.columns[pk as int].data[i] == oldv.columns[
                                pk as int].data[i]);
                        }
                        assert(arrays_row(newv, i).value == arrays_row(oldv, i).value) by {
                            if !newv.nulls[i] {
                                assert(arrays_row(newv, i).value->Some_0.columns
                                    =~= arrays_row(oldv, i).value->Some_0.columns) by {
                                    assert forall|t: int|
                                        0 <= t < newv.columns.len() implies arrays_row(
                                        newv,
                                        i,
                                    ).value->Some_0.columns[t] == arrays_row(
                                        oldv,
                                        i,
                                    ).value->Some_0.columns[t] by {
                                        assert(newv.columns[t].data[i] == oldv.columns[t].data[
                                            i]);
                                        assert(newv.columns[t].desc == oldv.columns[t].desc);
                                    }
                                }
                            }
                        }
                        assert(arrays_rows(oldv).push(ev)[i] == arrays_row(oldv, i));
                    } else {
                        assert(i == oldv.nulls.len());
                        assert(arrays_rows(newv)[i] == arrays_row(newv, i));
                        assert(newv.columns[pk as int].data[i] == key_val@);
                        assert(arrays_row(newv, i).key == key_of_val_spec(key_val@));
                        assert(ev.key == key_of_val_spec(key_val@));
                        match value {
                            Some(rec) => {
                                assert(!newv.nulls[i]);
                                assert(arrays_row(newv, i).value->Some_0.columns
                                    =~= rec@.columns) by {
                                    assert forall|t: int|
                                        0 <= t < newv.columns.len() implies arrays_row(
                                        newv,
                                        i,
                                    ).value->Some_0.columns[t] == rec@.columns[t] by {
                                        assert(newv.columns[t].desc == self.schema@.descs[t]);
                                        assert(rec@.columns[t].desc == self.schema@.descs[t]);
                                        if t == pk as int {
                                            assert(newv.columns[t].data[i] == key_val@);
                                            assert(rec@.columns[t].val == key_val@);
                                        } else {
                                            assert(newv.columns[t].data[i] == rec@.columns[
                                                t].val);
                                        }
                                    }
                                    assert(arrays_row(newv, i).value->Some_0.columns.len()
                                        == rec@.columns.len());
                                }
                                assert(arrays_row(newv, i).value->Some_0.primary_key_index
                                    == rec@.primary_key_index);
                                assert(arrays_row(newv, i).value == Some(rec@));
                            },
                            None => {
                                assert(newv.nulls[i]);
                            },
                        }
                    }
                }
            }
        }
    }

    /// Hand the accumulated rows out as an immutable batch and reset the
    /// builder to empty under the same schema.
    pub fn finish(&mut self) -> (r: DynRecordImmutableArrays)
        requires
            old(self).wf(),
        ensures
            final(self).wf(),
            arrays_wf(r@),
            arrays_rows(r@) == arrays_rows(old(self)@),
            arrays_rows(final(self)@) == Seq::<EntryV>::empty(),
            final(self).schema_view() == old(self).schema_view(),
            final(self).written_size_spec() == 0,
    {
        let schema = self.schema.clone();
        proof {
            assert(schema@ =~= self.schema@) by {
                assert(schema@.descs =~= self.schema@.descs);
            }
        }
        let mut fresh = DynRecordImmutableArrays::builder(schema);
        core::mem::swap(self, &mut fresh);
        proof {
            assert(arrays_rows(self@) =~= Seq::<EntryV>::empty());
        }
        let DynRecordBuilder { nulls, tss, columns, primary_key_index, schema: _, written: _ } =
            fresh;
        let r = DynRecordImmutableArrays { nulls, tss, columns, primary_key_index };
        proof {
            assert(r@ =~= old(self)@);
        }
        r
    }
}

/// Everything of `arrays_wf` that does not speak of the key column's
/// holes; the builder keeps the hole-freedom clause separately.
pub open spec fn arrays_wf_except_rows(a: ArraysV) -> bool {
    &&& a.tss.len() == a.nulls.len()
    &&& forall|j: int| 0 <= j < a.columns.len() ==> (#[trigger] a.columns[j]).data.len() == a.nulls.len()
    &&& 0 <= a.primary_key_index < a.columns.len()
}

impl DynRecordImmutableArrays {
    pub fn len(&self) -> (r: usize)
        ensures
            r == arrays_rows(self@).len(),
    {
        self.nulls.len()
    }
}

} // verus!
