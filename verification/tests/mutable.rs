//! Reads and range scans over the mutable table.

use tonbo::entry::KeyBound;
use tonbo::key::{ts_key_cmp, Timestamped};
use tonbo::inmem::mutable::Mutable;
use tonbo::option::DbOption;
use tonbo::record::{DataType, DynRecord, DynSchema, DynVal, Value, ValueDesc};
use tonbo::wal::LogType;

fn test_schema() -> DynSchema {
    DynSchema::new(
        vec![
            ValueDesc::new(b"vstring".to_vec(), DataType::Utf8, false),
            ValueDesc::new(b"vu32".to_vec(), DataType::UInt32, false),
            ValueDesc::new(b"vbool".to_vec(), DataType::Boolean, true),
        ],
        0,
    )
}

fn test_record(s: &str, vu32: u32, vbool: Option<bool>) -> DynRecord {
    DynRecord::new(
        vec![
            Value::new(
                DataType::Utf8,
                b"vstring".to_vec(),
                DynVal::Utf8(s.as_bytes().to_vec()),
                false,
            ),
            Value::new(DataType::UInt32, b"vu32".to_vec(), DynVal::UInt32(vu32), false),
            Value::new(
                DataType::Boolean,
                b"vbool".to_vec(),
                match vbool {
                    Some(b) => DynVal::Boolean(b),
                    None => DynVal::Null,
                },
                true,
            ),
        ],
        0,
    )
}

fn string_schema() -> DynSchema {
    DynSchema::new(vec![ValueDesc::new(b"vstring".to_vec(), DataType::Utf8, false)], 0)
}

fn string_record(s: &str) -> DynRecord {
    DynRecord::new(
        vec![Value::new(
            DataType::Utf8,
            b"vstring".to_vec(),
            DynVal::Utf8(s.as_bytes().to_vec()),
            false,
        )],
        0,
    )
}

fn key(s: &str) -> DynVal {
    DynVal::Utf8(s.as_bytes().to_vec())
}

#[test]
fn insert_and_get() {
    let key_1 = "key_1";
    let key_2 = "key_2";

    let option = DbOption::new();
    let mut mem_table = Mutable::new(&option, test_schema());

    mem_table.insert(LogType::Full, test_record(key_1, 1, Some(true)), 0);
    mem_table.insert(LogType::Full, test_record(key_2, 2, None), 1);

    let entry = mem_table.get(&key(key_1), 0).unwrap();
    let record = entry.value.as_ref().unwrap();
    assert_eq!(record.columns[0].val, DynVal::Utf8(key_1.as_bytes().to_vec()));
    assert_eq!(record.columns[1].val, DynVal::UInt32(1));
    assert_eq!(record.columns[2].val, DynVal::Boolean(true));

    assert!(mem_table.get(&key(key_2), 0).is_none());
    assert!(mem_table.get(&key(key_2), 1).is_some());
}

#[test]
fn range() {
    let option = DbOption::new();
    let mut mutable = Mutable::new(&option, string_schema());

    mutable.insert(LogType::Full, string_record("1"), 0);
    mutable.insert(LogType::Full, string_record("2"), 0);
    mutable.insert(LogType::Full, string_record("2"), 1);
    mutable.insert(LogType::Full, string_record("3"), 1);
    mutable.insert(LogType::Full, string_record("4"), 0);

    let scan = mutable.scan(&KeyBound::Unbounded, &KeyBound::Unbounded, 0);
    let expected = [("1", 0), ("2", 1), ("2", 0), ("3", 1), ("4", 0)];
    assert_eq!(scan.len(), expected.len());
    for (e, (k, ts)) in scan.iter().zip(expected.iter()) {
        let want = Timestamped::new(k.as_bytes().to_vec(), *ts);
        let have = Timestamped::new(e.key.clone(), e.ts);
        assert_eq!(ts_key_cmp(&have, &want), 0);
    }

    let scan = mutable.scan(&KeyBound::Included(key("1")), &KeyBound::Included(key("4")), 1);
    let expected = [("1", 0), ("2", 1), ("2", 0), ("3", 1), ("4", 0)];
    assert_eq!(scan.len(), expected.len());
    for (e, (k, ts)) in scan.iter().zip(expected.iter()) {
        let want = Timestamped::new(k.as_bytes().to_vec(), *ts);
        let have = Timestamped::new(e.key.clone(), e.ts);
        assert_eq!(ts_key_cmp(&have, &want), 0);
    }
}

#[test]
fn test_dyn_read() {
    let schema = DynSchema::new(
        vec![
            ValueDesc::new(b"age".to_vec(), DataType::Int8, false),
            ValueDesc::new(b"height".to_vec(), DataType::Int16, true),
        ],
        0,
    );
    let option = DbOption::new();
    let mut mutable = Mutable::new(&option, schema);

    let record = DynRecord::new(
        vec![
            Value::new(DataType::Int8, b"age".to_vec(), DynVal::Int8(1), false),
            Value::new(DataType::Int16, b"height".to_vec(), DynVal::Int16(1236), true),
        ],
        0,
    );
    mutable.insert(LogType::Full, record, 0);

    let scan = mutable.scan(&KeyBound::Unbounded, &KeyBound::Unbounded, 0);
    assert_eq!(scan.len(), 1);
    assert_eq!(scan[0].key_val, DynVal::Int8(1));
    assert_eq!(scan[0].ts, 0);
    let rec = scan[0].value.as_ref().unwrap();
    assert_eq!(rec.columns[1].val, DynVal::Int16(1236));
}

#[test]
fn mvcc_get_by_timestamp() {
    let option = DbOption::new();
    let mut mutable = Mutable::new(&option, test_schema());

    mutable.insert(LogType::Full, test_record("2", 10, None), 0);
    mutable.insert(LogType::Full, test_record("2", 20, None), 1);

    let at0 = mutable.get(&key("2"), 0).unwrap();
    assert_eq!(at0.ts, 0);
    assert_eq!(at0.value.as_ref().unwrap().columns[1].val, DynVal::UInt32(10));

    let at1 = mutable.get(&key("2"), 1).unwrap();
    assert_eq!(at1.ts, 1);
    assert_eq!(at1.value.as_ref().unwrap().columns[1].val, DynVal::UInt32(20));

    // The scan sees the newest version of the key first.
    let scan = mutable.scan(&KeyBound::Unbounded, &KeyBound::Unbounded, 1);
    assert_eq!(scan[0].ts, 1);
    assert_eq!(scan[1].ts, 0);
}

#[test]
fn tombstone_shadows_value() {
    let option = DbOption::new();
    let mut mutable = Mutable::new(&option, test_schema());

    mutable.insert(LogType::Full, test_record("a", 1, None), 0);
    mutable.remove(LogType::Full, key("a"), 1);

    // At timestamp 0 the value is visible; at 1 the tombstone shadows it.
    assert!(mutable.get(&key("a"), 0).unwrap().value.is_some());
    assert!(mutable.get(&key("a"), 1).unwrap().value.is_none());
}

#[test]
fn conflict_detection() {
    let option = DbOption::new();
    let mut mutable = Mutable::new(&option, test_schema());

    mutable.insert(LogType::Full, test_record("k", 1, None), 5);
    assert!(mutable.check_conflict(&key("k"), 4));
    assert!(!mutable.check_conflict(&key("k"), 5));
    assert!(!mutable.check_conflict(&key("other"), 0));
}

#[test]
fn wal_recovery_round_trip() {
    let option = DbOption::new();
    assert!(option.use_wal);
    let mut mutable = Mutable::new(&option, test_schema());

    mutable.insert(LogType::Full, test_record("1", 11, Some(false)), 0);
    mutable.insert(LogType::Full, test_record("2", 22, None), 1);
    mutable.remove(LogType::Full, key("1"), 2);

    // Replay the WAL into a fresh table: reads agree with the source table.
    let log = mutable.wal_state().as_ref().unwrap().log.clone();
    let recovered = Mutable::recover(&option, test_schema(), &log);

    for (k, ts) in [("1", 0), ("1", 2), ("2", 1), ("2", 0)] {
        let before = mutable.get(&key(k), ts).map(|e| (e.ts, e.value.clone()));
        let after = recovered.get(&key(k), ts).map(|e| (e.ts, e.value.clone()));
        assert_eq!(before, after);
    }
    assert!(recovered.get(&key("1"), 2).unwrap().value.is_none());
}

#[test]
fn trigger_reports_length_exceeded() {
    let mut option = DbOption::new();
    option.trigger_type = tonbo::option::TriggerType::Length(2);
    let mut mutable = Mutable::new(&option, test_schema());

    assert!(!mutable.insert(LogType::Full, test_record("1", 0, None), 0));
    assert!(mutable.insert(LogType::Full, test_record("2", 0, None), 0));
    assert!(mutable.insert(LogType::Full, test_record("3", 0, None), 0));
}
