//! Point and range reads over one on-disk table: projection, time
//! travel, order and bounds.

use tonbo::entry::{Entry, KeyBound};
use tonbo::ondisk::sstable::{SsTable, SsTableID};
use tonbo::option::Order;
use tonbo::record::{DataType, DynRecord, DynVal, ProjectionMask, Value};

fn test_record(s: &str, vu32: u32, vbool: Option<bool>) -> DynRecord {
    DynRecord::new(
        vec![
            Value::new(
                DataType::Utf8,
                b"vstring".to_vec(),
                DynVal::Utf8(s.as_bytes().to_vec()),
                false,
            ),
            Value::new(DataType::UInt32, b"vu32".to_vec(), DynVal::UInt32(vu32), false),
            Value::new(
                DataType::Boolean,
                b"vbool".to_vec(),
                match vbool {
                    Some(b) => DynVal::Boolean(b),
                    None => DynVal::Null,
                },
                true,
            ),
        ],
        0,
    )
}

fn key(s: &str) -> DynVal {
    DynVal::Utf8(s.as_bytes().to_vec())
}

/// The table every test reads: `hello` written at 1, `world` at 0.
fn test_table() -> SsTable {
    SsTable::new(vec![
        Entry::new(key("hello"), 1, Some(test_record("hello", 12, Some(true)))),
        Entry::new(key("world"), 0, Some(test_record("world", 12, None))),
    ])
}

fn mask(indices: &[usize]) -> ProjectionMask {
    ProjectionMask::roots(5, &indices.to_vec())
}

fn vstring_of(e: &Entry) -> DynVal {
    e.value.as_ref().unwrap().columns[0].val.clone()
}

fn vu32_of(e: &Entry) -> DynVal {
    e.value.as_ref().unwrap().columns[1].val.clone()
}

fn vbool_of(e: &Entry) -> DynVal {
    e.value.as_ref().unwrap().columns[2].val.clone()
}

#[test]
fn sstable_id_round_trip() {
    let id = SsTableID::new(42, 3);
    assert_eq!(id.file_id(), 42);
    assert_eq!(id.level(), 3);
    let copy = id.clone();
    assert_eq!(copy.file_id(), 42);
}

#[test]
fn projection_query() {
    {
        let test_ref_1 = test_table().get(&key("hello"), 1, &mask(&[0, 1, 2, 3])).unwrap();
        assert_eq!(vstring_of(&test_ref_1), key("hello"));
        assert_eq!(vu32_of(&test_ref_1), DynVal::UInt32(12));
        assert_eq!(vbool_of(&test_ref_1), DynVal::Null);
    }
    {
        let test_ref_2 = test_table().get(&key("hello"), 1, &mask(&[0, 1, 2, 4])).unwrap();
        assert_eq!(vstring_of(&test_ref_2), key("hello"));
        assert_eq!(vu32_of(&test_ref_2), DynVal::Null);
        assert_eq!(vbool_of(&test_ref_2), DynVal::Boolean(true));
    }
    {
        let test_ref_3 = test_table().get(&key("hello"), 1, &mask(&[0, 1, 2])).unwrap();
        assert_eq!(vstring_of(&test_ref_3), key("hello"));
        assert_eq!(vu32_of(&test_ref_3), DynVal::Null);
        assert_eq!(vbool_of(&test_ref_3), DynVal::Null);
    }
}

#[test]
fn projection_scan() {
    {
        let test_ref_1 = test_table().scan(
            &KeyBound::Unbounded,
            &KeyBound::Unbounded,
            1,
            None,
            &mask(&[0, 1, 2, 3]),
            None,
        );
        assert_eq!(test_ref_1.len(), 2);
        assert_eq!(vstring_of(&test_ref_1[0]), key("hello"));
        assert_eq!(vu32_of(&test_ref_1[0]), DynVal::UInt32(12));
        assert_eq!(vbool_of(&test_ref_1[0]), DynVal::Null);
        assert_eq!(vstring_of(&test_ref_1[1]), key("world"));
        assert_eq!(vu32_of(&test_ref_1[1]), DynVal::UInt32(12));
        assert_eq!(vbool_of(&test_ref_1[1]), DynVal::Null);
    }
    {
        let test_ref_2 = test_table().scan(
            &KeyBound::Unbounded,
            &KeyBound::Unbounded,
            1,
            None,
            &mask(&[0, 1, 2, 4]),
            None,
        );
        assert_eq!(test_ref_2.len(), 2);
        assert_eq!(vstring_of(&test_ref_2[0]), key("hello"));
        assert_eq!(vu32_of(&test_ref_2[0]), DynVal::Null);
        assert_eq!(vbool_of(&test_ref_2[0]), DynVal::Boolean(true));
        assert_eq!(vstring_of(&test_ref_2[1]), key("world"));
        assert_eq!(vu32_of(&test_ref_2[1]), DynVal::Null);
        assert_eq!(vbool_of(&test_ref_2[1]), DynVal::Null);
    }
    {
        let test_ref_3 = test_table().scan(
            &KeyBound::Unbounded,
            &KeyBound::Unbounded,
            1,
            None,
            &mask(&[0, 1, 2]),
            None,
        );
        assert_eq!(test_ref_3.len(), 2);
        assert_eq!(vstring_of(&test_ref_3[0]), key("hello"));
        assert_eq!(vu32_of(&test_ref_3[0]), DynVal::Null);
        assert_eq!(vbool_of(&test_ref_3[0]), DynVal::Null);
        assert_eq!(vstring_of(&test_ref_3[1]), key("world"));
        assert_eq!(vu32_of(&test_ref_3[1]), DynVal::Null);
        assert_eq!(vbool_of(&test_ref_3[1]), DynVal::Null);
    }
}

#[test]
fn sstable_reverse_scan_basic() {
    {
        let forward_scan = test_table().scan(
            &KeyBound::Unbounded,
            &KeyBound::Unbounded,
            10,
            None,
            &ProjectionMask::all(),
            None,
        );
        assert_eq!(forward_scan.len(), 2);
        assert_eq!(vstring_of(&forward_scan[0]), key("hello"));
        assert_eq!(vstring_of(&forward_scan[1]), key("world"));
    }
    {
        let reverse_scan = test_table().scan(
            &KeyBound::Unbounded,
            &KeyBound::Unbounded,
            10,
            None,
            &ProjectionMask::all(),
            Some(Order::Desc),
        );
        assert_eq!(reverse_scan.len(), 2);
        assert_eq!(vstring_of(&reverse_scan[0]), key("world"));
        assert_eq!(vstring_of(&reverse_scan[1]), key("hello"));
    }
}

#[test]
fn sstable_reverse_scan_with_projections() {
    {
        let reverse_scan = test_table().scan(
            &KeyBound::Unbounded,
            &KeyBound::Unbounded,
            10,
            None,
            &mask(&[0, 1, 2, 3]),
            Some(Order::Desc),
        );
        assert_eq!(reverse_scan.len(), 2);
        assert_eq!(vstring_of(&reverse_scan[0]), key("world"));
        assert_eq!(vu32_of(&reverse_scan[0]), DynVal::UInt32(12));
        assert_eq!(vbool_of(&reverse_scan[0]), DynVal::Null);
        assert_eq!(vstring_of(&reverse_scan[1]), key("hello"));
        assert_eq!(vu32_of(&reverse_scan[1]), DynVal::UInt32(12));
        assert_eq!(vbool_of(&reverse_scan[1]), DynVal::Null);
    }
    {
        let reverse_scan = test_table().scan(
            &KeyBound::Unbounded,
            &KeyBound::Unbounded,
            10,
            None,
            &mask(&[0, 1, 2, 4]),
            Some(Order::Desc),
        );
        assert_eq!(reverse_scan.len(), 2);
        assert_eq!(vstring_of(&reverse_scan[0]), key("world"));
        assert_eq!(vu32_of(&reverse_scan[0]), DynVal::Null);
        assert_eq!(vbool_of(&reverse_scan[0]), DynVal::Null);
        assert_eq!(vstring_of(&reverse_scan[1]), key("hello"));
        assert_eq!(vu32_of(&reverse_scan[1]), DynVal::Null);
        assert_eq!(vbool_of(&reverse_scan[1]), DynVal::Boolean(true));
    }
}

#[test]
fn sstable_reverse_scan_with_bounds() {
    {
        let reverse_scan = test_table().scan(
            &KeyBound::Included(key("hello")),
            &KeyBound::Included(key("world")),
            10,
            None,
            &ProjectionMask::all(),
            Some(Order::Desc),
        );
        assert_eq!(reverse_scan.len(), 2);
        assert_eq!(vstring_of(&reverse_scan[0]), key("world"));
        assert_eq!(vstring_of(&reverse_scan[1]), key("hello"));
    }
    {
        let reverse_scan = test_table().scan(
            &KeyBound::Unbounded,
            &KeyBound::Excluded(key("world")),
            10,
            None,
            &ProjectionMask::all(),
            Some(Order::Desc),
        );
        assert_eq!(reverse_scan.len(), 1);
        assert_eq!(vstring_of(&reverse_scan[0]), key("hello"));
    }
}

#[test]
fn sstable_forward_vs_reverse_consistency() {
    let mut forward_results = Vec::new();
    let forward_scan = test_table().scan(
        &KeyBound::Unbounded,
        &KeyBound::Unbounded,
        10,
        None,
        &ProjectionMask::all(),
        None,
    );
    for e in forward_scan.iter() {
        forward_results.push(vstring_of(e));
    }

    let mut reverse_results = Vec::new();
    let reverse_scan = test_table().scan(
        &KeyBound::Unbounded,
        &KeyBound::Unbounded,
        10,
        None,
        &ProjectionMask::all(),
        Some(Order::Desc),
    );
    for e in reverse_scan.iter() {
        reverse_results.push(vstring_of(e));
    }

    forward_results.reverse();
    assert_eq!(forward_results, reverse_results);
    assert_eq!(reverse_results, vec![key("world"), key("hello")]);
}

#[test]
fn time_travel_filters_newer_rows() {
    // At read timestamp 0 the row written at 1 is invisible.
    let rows = test_table().scan(
        &KeyBound::Unbounded,
        &KeyBound::Unbounded,
        0,
        None,
        &ProjectionMask::all(),
        None,
    );
    assert_eq!(rows.len(), 1);
    assert_eq!(vstring_of(&rows[0]), key("world"));
}

#[test]
fn scan_limit_caps_rows() {
    let rows = test_table().scan(
        &KeyBound::Unbounded,
        &KeyBound::Unbounded,
        10,
        Some(1),
        &ProjectionMask::all(),
        None,
    );
    assert_eq!(rows.len(), 1);
    assert_eq!(vstring_of(&rows[0]), key("hello"));
}
