//! Minor and major compaction, and the version edits they emit.

use tonbo::compaction::{Compactor, DbStorage, SstStore};
use tonbo::entry::Entry;
use tonbo::inmem::immutable::Immutable;
use tonbo::inmem::mutable::Mutable;
use tonbo::ondisk::sstable::SsTable;
use tonbo::option::{DbOption, TriggerType};
use tonbo::record::{DataType, DynRecord, DynSchema, DynVal, Value, ValueDesc};
use tonbo::scope::Scope;
use tonbo::version::{Version, VersionEdit};
use tonbo::wal::LogType;

fn test_schema() -> DynSchema {
    DynSchema::new(
        vec![
            ValueDesc::new(b"vstring".to_vec(), DataType::Utf8, false),
            ValueDesc::new(b"vu32".to_vec(), DataType::UInt32, false),
            ValueDesc::new(b"vbool".to_vec(), DataType::Boolean, true),
        ],
        0,
    )
}

fn test_record(s: &str, vu32: u32, vbool: Option<bool>) -> DynRecord {
    DynRecord::new(
        vec![
            Value::new(
                DataType::Utf8,
                b"vstring".to_vec(),
                DynVal::Utf8(s.as_bytes().to_vec()),
                false,
            ),
            Value::new(DataType::UInt32, b"vu32".to_vec(), DynVal::UInt32(vu32), false),
            Value::new(
                DataType::Boolean,
                b"vbool".to_vec(),
                match vbool {
                    Some(b) => DynVal::Boolean(b),
                    None => DynVal::Null,
                },
                true,
            ),
        ],
        0,
    )
}

fn key(s: &str) -> DynVal {
    DynVal::Utf8(s.as_bytes().to_vec())
}

fn build_immutable(
    option: &DbOption,
    records: Vec<(LogType, DynRecord, u32)>,
    schema: DynSchema,
) -> Immutable {
    let mut mutable = Mutable::new(option, schema);
    for (log_ty, record, ts) in records {
        let _ = mutable.insert(log_ty, record, ts);
    }
    mutable.into_immutable().1
}

/// One on-disk table holding the given string keys at the given
/// timestamps.
fn build_table(rows: Vec<(&str, u32, u32, Option<bool>)>) -> SsTable {
    let mut entries: Vec<Entry> = Vec::new();
    for (s, ts, vu32, vbool) in rows {
        entries.push(Entry::new(key(s), ts, Some(test_record(s, vu32, vbool))));
    }
    SsTable::new(entries)
}

#[test]
fn minor_compaction() {
    let option = DbOption::new();

    let batch_1 = build_immutable(
        &option,
        vec![
            (LogType::Full, test_record("3", 0, None), 0),
            (LogType::Full, test_record("5", 0, None), 0),
            (LogType::Full, test_record("6", 0, None), 0),
        ],
        test_schema(),
    );
    let batch_2 = build_immutable(
        &option,
        vec![
            (LogType::Full, test_record("4", 0, None), 0),
            (LogType::Full, test_record("2", 0, None), 0),
            (LogType::Full, test_record("1", 0, None), 0),
        ],
        test_schema(),
    );

    let (scope, _table) = Compactor::minor_compaction(
        &option,
        None,
        &vec![(Some(11), batch_1), (Some(12), batch_2)],
    )
    .unwrap()
    .unwrap();
    assert_eq!(scope.min, b"1".to_vec());
    assert_eq!(scope.max, b"6".to_vec());
    assert_eq!(scope.wal_ids, Some(vec![11, 12]));
}

#[test]
fn dyn_minor_compaction() {
    let schema = DynSchema::new(vec![ValueDesc::new(b"id".to_vec(), DataType::Int32, false)], 0);
    let option = DbOption::new();

    let int_record = |i: i32| {
        DynRecord::new(
            vec![Value::new(DataType::Int32, b"id".to_vec(), DynVal::Int32(i), false)],
            0,
        )
    };

    let mut batch1_data = vec![];
    let mut batch2_data = vec![];
    for i in 0..40 {
        if i % 4 == 0 {
            continue;
        }
        if i < 35 && (i % 2 == 0 || i % 5 == 0) {
            batch1_data.push((LogType::Full, int_record(i), 0_u32));
        } else if i >= 7 {
            batch2_data.push((LogType::Full, int_record(i), 0_u32));
        }
    }

    let batch_1 = build_immutable(&option, batch1_data, schema.clone());
    let batch_2 = build_immutable(&option, batch2_data, schema.clone());

    let (scope, _table) = Compactor::minor_compaction(
        &option,
        None,
        &vec![(Some(1), batch_1), (Some(2), batch_2)],
    )
    .unwrap()
    .unwrap();
    assert_eq!(scope.min, DynVal::Int32(2).to_key_bytes());
    assert_eq!(scope.max, DynVal::Int32(39).to_key_bytes());
}

/// The five-table version of the major compaction scenario: two
/// overlapping runs on level 0 and three disjoint runs on level 1.
fn build_version(store: &mut SstStore) -> ((u128, u128, u128, u128, u128), Version) {
    let (t1, t2, t3, t4, t5) = (1u128, 2u128, 3u128, 4u128, 5u128);
    store.insert(
        t1,
        build_table(vec![
            ("1", 1, 0, Some(true)),
            ("2", 1, 0, Some(true)),
            ("3", 0, 0, Some(true)),
        ]),
    );
    store.insert(
        t2,
        build_table(vec![
            ("4", 1, 0, Some(true)),
            ("5", 1, 0, Some(true)),
            ("6", 0, 0, Some(true)),
        ]),
    );
    store.insert(
        t3,
        build_table(vec![
            ("1", 0, 0, Some(true)),
            ("2", 0, 0, Some(true)),
            ("3", 0, 0, Some(true)),
        ]),
    );
    store.insert(
        t4,
        build_table(vec![
            ("4", 0, 0, Some(true)),
            ("5", 0, 0, Some(true)),
            ("6", 0, 0, Some(true)),
        ]),
    );
    store.insert(
        t5,
        build_table(vec![
            ("7", 0, 0, Some(true)),
            ("8", 0, 0, Some(true)),
            ("9", 0, 0, Some(true)),
        ]),
    );

    let mut version = Version::new();
    version.level_slice[0].push(Scope {
        min: b"1".to_vec(),
        max: b"3".to_vec(),
        gen: t1,
        wal_ids: None,
    });
    version.level_slice[0].push(Scope {
        min: b"4".to_vec(),
        max: b"6".to_vec(),
        gen: t2,
        wal_ids: None,
    });
    version.level_slice[1].push(Scope {
        min: b"1".to_vec(),
        max: b"3".to_vec(),
        gen: t3,
        wal_ids: None,
    });
    version.level_slice[1].push(Scope {
        min: b"4".to_vec(),
        max: b"6".to_vec(),
        gen: t4,
        wal_ids: None,
    });
    version.level_slice[1].push(Scope {
        min: b"7".to_vec(),
        max: b"9".to_vec(),
        gen: t5,
        wal_ids: None,
    });
    ((t1, t2, t3, t4, t5), version)
}

#[test]
fn major_compaction() {
    let mut option = DbOption::new();
    option.major_threshold_with_sst_size = 2;

    let mut store = SstStore::new();
    let ((table_gen_1, table_gen_2, table_gen_3, table_gen_4, _), version) =
        build_version(&mut store);

    let min = b"2".to_vec();
    let max = b"5".to_vec();
    let mut version_edits = Vec::new();
    let mut delete_gens = Vec::new();

    Compactor::major_compaction(
        &version,
        &option,
        &min,
        &max,
        &mut version_edits,
        &mut delete_gens,
        &mut store,
    )
    .unwrap();

    if let VersionEdit::Add { level, scope } = &version_edits[0] {
        assert_eq!(*level, 1);
        assert_eq!(scope.min, b"1".to_vec());
        assert_eq!(scope.max, b"6".to_vec());
    } else {
        panic!("first edit must add the merged table");
    }
    let removed: Vec<(u8, u128)> = version_edits[1..5]
        .iter()
        .map(|e| match e {
            VersionEdit::Remove { level, gen } => (*level, *gen),
            _ => panic!("expected a remove edit"),
        })
        .collect();
    assert_eq!(
        removed,
        vec![(0, table_gen_1), (0, table_gen_2), (1, table_gen_3), (1, table_gen_4)]
    );
}

#[test]
fn major_panic() {
    let mut option = DbOption::new();
    option.major_threshold_with_sst_size = 1;
    option.level_sst_magnification = 1;

    let mut store = SstStore::new();
    store.insert(
        10,
        build_table(vec![
            ("0", 0, 0, Some(true)),
            ("1", 0, 1, Some(true)),
            ("2", 0, 2, Some(true)),
            ("3", 0, 3, Some(true)),
            ("4", 0, 4, Some(true)),
        ]),
    );
    store.insert(
        11,
        build_table(vec![
            ("5", 0, 5, Some(true)),
            ("6", 0, 6, Some(true)),
            ("7", 0, 7, Some(true)),
            ("8", 0, 8, Some(true)),
            ("9", 0, 9, Some(true)),
        ]),
    );

    let mut version = Version::new();
    version.level_slice[0].push(Scope {
        min: b"0".to_vec(),
        max: b"4".to_vec(),
        gen: 10,
        wal_ids: None,
    });
    version.level_slice[1].push(Scope {
        min: b"5".to_vec(),
        max: b"9".to_vec(),
        gen: 11,
        wal_ids: None,
    });

    let mut version_edits = Vec::new();
    let min = b"6".to_vec();
    let max = b"9".to_vec();
    Compactor::major_compaction(
        &version,
        &option,
        &min,
        &max,
        &mut version_edits,
        &mut vec![],
        &mut store,
    )
    .unwrap();
}

#[test]
fn major_compaction_within_budget_is_noop() {
    let mut option = DbOption::new();
    option.major_threshold_with_sst_size = 4;

    let mut store = SstStore::new();
    let (_, version) = build_version(&mut store);

    // Level 0 holds two tables, within a budget of four: no edits come
    // out and nothing queues for deletion.
    let mut version_edits = Vec::new();
    let mut delete_gens = Vec::new();
    Compactor::major_compaction(
        &version,
        &option,
        &b"2".to_vec(),
        &b"5".to_vec(),
        &mut version_edits,
        &mut delete_gens,
        &mut store,
    )
    .unwrap();
    assert!(version_edits.is_empty());
    assert!(delete_gens.is_empty());
}

#[test]
fn test_flush_major_level_sort() {
    let mut option = DbOption::new();
    option.immutable_chunk_num = 1;
    option.immutable_chunk_max_num = 0;
    option.major_threshold_with_sst_size = 2;
    option.level_sst_magnification = 1;
    option.max_sst_file_size = 2 * 1024 * 1024;
    option.major_default_oldest_table_num = 1;
    option.trigger_type = TriggerType::Length(5);

    let compactor = Compactor::new(option, test_schema());
    let mut storage = DbStorage {
        mutable: Mutable::new(&compactor.option, test_schema()),
        immutables: Vec::new(),
        recover_wal_ids: None,
    };
    let mut version = Version::new();
    let mut store = SstStore::new();

    let mut flush = |storage: &mut DbStorage, version: &mut Version, store: &mut SstStore| {
        Compactor::check_then_compaction(&compactor, storage, version, store, true).unwrap();
    };

    for i in 5..9 {
        storage
            .mutable
            .insert(LogType::Full, test_record(&i.to_string(), i, Some(true)), 0);
    }
    flush(&mut storage, &mut version, &mut store);

    for i in 0..4 {
        storage
            .mutable
            .insert(LogType::Full, test_record(&i.to_string(), i, Some(true)), 0);
    }
    flush(&mut storage, &mut version, &mut store);

    storage.mutable.insert(LogType::Full, test_record("6", 22, Some(false)), 1);
    storage.mutable.insert(LogType::Full, test_record("8", 77, Some(false)), 1);
    flush(&mut storage, &mut version, &mut store);

    storage.mutable.insert(LogType::Full, test_record("1", 22, Some(false)), 1);
    storage.mutable.insert(LogType::Full, test_record("5", 77, Some(false)), 1);
    flush(&mut storage, &mut version, &mut store);

    storage.mutable.insert(LogType::Full, test_record("2", 22, Some(false)), 2);
    storage.mutable.insert(LogType::Full, test_record("7", 77, Some(false)), 2);
    flush(&mut storage, &mut version, &mut store);

    for level in 0..version.level_slice.len() {
        let sort_runs = &version.level_slice[level];
        if sort_runs.is_empty() {
            continue;
        }
        for pos in 0..sort_runs.len() - 1 {
            let current = &sort_runs[pos];
            let next = &sort_runs[pos + 1];

            assert!(current.min <= current.max);
            assert!(next.min <= next.max);

            if level == 0 {
                continue;
            }
            assert!(current.max < next.min);
        }
    }
}

#[test]
fn apply_edits_keeps_levels_sorted() {
    let mut version = Version::new();
    let edits = vec![
        VersionEdit::Add {
            level: 1,
            scope: Scope { min: b"d".to_vec(), max: b"f".to_vec(), gen: 1, wal_ids: None },
        },
        VersionEdit::Add {
            level: 1,
            scope: Scope { min: b"a".to_vec(), max: b"b".to_vec(), gen: 2, wal_ids: None },
        },
        VersionEdit::LatestTimeStamp { ts: 7 },
    ];
    version.apply_edits(&edits).unwrap();
    assert_eq!(version.ts, 7);
    assert_eq!(version.level_slice[1][0].gen, 2);
    assert_eq!(version.level_slice[1][1].gen, 1);

    // An overlapping add is refused and leaves the version untouched.
    let bad = vec![VersionEdit::Add {
        level: 1,
        scope: Scope { min: b"b".to_vec(), max: b"e".to_vec(), gen: 3, wal_ids: None },
    }];
    assert!(version.apply_edits(&bad).is_err());
    assert_eq!(version.level_slice[1].len(), 2);

    // Removing an absent file changes nothing.
    let absent = vec![VersionEdit::Remove { level: 1, gen: 99 }];
    version.apply_edits(&absent).unwrap();
    assert_eq!(version.level_slice[1].len(), 2);

    let remove = vec![VersionEdit::Remove { level: 1, gen: 2 }];
    version.apply_edits(&remove).unwrap();
    assert_eq!(version.level_slice[1].len(), 1);
    assert_eq!(version.level_slice[1][0].gen, 1);
}

#[test]
fn flush_of_empty_batches_fails_atomically() {
    let compactor = Compactor::new(DbOption::new(), test_schema());
    let empty_batch = Mutable::new(&compactor.option, test_schema()).into_immutable();
    let mut storage = DbStorage {
        mutable: Mutable::new(&compactor.option, test_schema()),
        immutables: vec![empty_batch],
        recover_wal_ids: Some(vec![7]),
    };
    let mut version = Version::new();
    let mut store = SstStore::new();

    let r = Compactor::check_then_compaction(
        &compactor,
        &mut storage,
        &mut version,
        &mut store,
        true,
    );
    assert!(matches!(r, Err(tonbo::compaction::CompactionError::EmptyLevel)));
    // The failed flush left the queue and the recovered WAL ids alone.
    assert_eq!(storage.immutables.len(), 1);
    assert_eq!(storage.recover_wal_ids, Some(vec![7]));
    assert_eq!(version.level_slice[0].len(), 0);
}

#[test]
fn flush_empties_mutable_and_queue() {
    let compactor = Compactor::new(DbOption::new(), test_schema());
    let mut storage = DbStorage {
        mutable: Mutable::new(&compactor.option, test_schema()),
        immutables: Vec::new(),
        recover_wal_ids: None,
    };
    let mut version = Version::new();
    let mut store = SstStore::new();

    storage.mutable.insert(LogType::Full, test_record("a", 1, None), 0);
    storage.mutable.insert(LogType::Full, test_record("b", 2, None), 0);

    Compactor::check_then_compaction(&compactor, &mut storage, &mut version, &mut store, true)
        .unwrap();

    assert!(storage.mutable.is_empty());
    assert!(storage.immutables.is_empty());
    // The flush produced one level-0 table.
    assert_eq!(version.level_slice[0].len(), 1);
    assert_eq!(version.level_slice[0][0].min, b"a".to_vec());
    assert_eq!(version.level_slice[0][0].max, b"b".to_vec());
}
