use xline::engine::{EngineError, MemoryEngine, WriteOperation};
use xline::snapshot::MemorySnapshot;

const TESTTABLES: [&'static str; 3] = ["kv", "lease", "auth"];

#[test]
fn write_batch_into_a_non_existing_table_should_fail() {
    let mut engine = MemoryEngine::new(&TESTTABLES).unwrap();

    let put = WriteOperation::new_put(
        "hello",
        "hello".as_bytes().to_vec(),
        "world".as_bytes().to_vec(),
    );
    assert!(engine.write_batch(vec![put], false).is_err());

    let delete = WriteOperation::new_delete("hello", b"hello");
    assert!(engine.write_batch(vec![delete], false).is_err());

    let delete_range = WriteOperation::new_delete_range("hello", b"hello", b"world");
    assert!(engine.write_batch(vec![delete_range], false).is_err());
}

#[test]
fn write_batch_should_success() {
    let mut engine = MemoryEngine::new(&TESTTABLES).unwrap();
    let origin_set: Vec<Vec<u8>> = (1u8..=10u8)
        .map(|val| std::iter::repeat(val).take(4).collect())
        .collect();
    let keys = origin_set.clone();
    let values = origin_set.clone();
    let puts = std::iter::zip(keys, values)
        .map(|(k, v)| WriteOperation::new_put("kv", k, v))
        .collect::<Vec<WriteOperation>>();

    assert!(engine.write_batch(puts, false).is_ok());

    let res_1 = engine.get_multi("kv", &origin_set).unwrap();
    assert_eq!(res_1.iter().filter(|v| v.is_some()).count(), 10);

    let delete_key: Vec<u8> = vec![1, 1, 1, 1];
    let delete = WriteOperation::new_delete("kv", &delete_key);

    let res_2 = engine.write_batch(vec![delete], false);
    assert!(res_2.is_ok());

    let res_3 = engine.get("kv", &delete_key).unwrap();
    assert!(res_3.is_none());

    let delete_start: Vec<u8> = vec![2, 2, 2, 2];
    let delete_end: Vec<u8> = vec![5, 5, 5, 5];
    let delete_range = WriteOperation::new_delete_range("kv", &delete_start, &delete_end);
    let res_4 = engine.write_batch(vec![delete_range], false);
    assert!(res_4.is_ok());

    let get_key_1: Vec<u8> = vec![5, 5, 5, 5];
    let get_key_2: Vec<u8> = vec![3, 3, 3, 3];
    assert!(engine.get("kv", &get_key_1).unwrap().is_some());
    assert!(engine.get("kv", &get_key_2).unwrap().is_none());
}

#[test]
fn get_operation_should_success() {
    let mut engine = MemoryEngine::new(&TESTTABLES).unwrap();
    let test_set = vec![("hello", "hello"), ("world", "world"), ("foo", "foo")];
    let batch = test_set.iter().map(|&(key, value)| {
        WriteOperation::new_put("kv", key.as_bytes().to_vec(), value.as_bytes().to_vec())
    });
    let res = engine.write_batch(batch.collect(), false);
    assert!(res.is_ok());

    let res_1 = engine.get("kv", b"hello").unwrap();
    assert_eq!(res_1, Some("hello".as_bytes().to_vec()));
    let multi_keys: Vec<Vec<u8>> = vec![b"hello".to_vec(), b"world".to_vec(), b"bar".to_vec()];
    let expected_multi_values = vec![
        Some("hello".as_bytes().to_vec()),
        Some("world".as_bytes().to_vec()),
        None,
    ];
    let res_2 = engine.get_multi("kv", &multi_keys).unwrap();
    assert_eq!(multi_keys.len(), res_2.len());
    assert_eq!(res_2, expected_multi_values);

    let mut res_3 = engine.get_all("kv").unwrap();
    let mut expected_all_values = test_set
        .into_iter()
        .map(|(key, value)| (key.as_bytes().to_vec(), value.as_bytes().to_vec()))
        .collect::<Vec<(Vec<u8>, Vec<u8>)>>();
    assert_eq!(res_3.sort(), expected_all_values.sort());
}

#[test]
fn snapshot_should_work() {
    let mut engine = MemoryEngine::new(&TESTTABLES).unwrap();
    let put = WriteOperation::new_put("kv", b"key".to_vec(), b"value".to_vec());
    assert!(engine.write_batch(vec![put], false).is_ok());

    let mut snapshot = engine.get_snapshot().unwrap();
    let put = WriteOperation::new_put("kv", b"key2".to_vec(), b"value2".to_vec());
    assert!(engine.write_batch(vec![put], false).is_ok());

    let mut buf = vec![0u8; snapshot.size() as usize];
    snapshot.read_exact(&mut buf).unwrap();

    let mut new_snapshot = MemorySnapshot::new();
    new_snapshot.write_all(&buf).unwrap();

    let mut engine_2 = MemoryEngine::new(&TESTTABLES).unwrap();
    assert!(engine_2.apply_snapshot(new_snapshot).is_ok());

    let value = engine_2.get("kv", b"key").unwrap();
    assert_eq!(value, Some(b"value".to_vec()));
    let value2 = engine_2.get("kv", b"key2").unwrap();
    assert!(value2.is_none());
}

#[test]
fn get_all_lists_in_key_order() {
    let mut engine = MemoryEngine::new(&TESTTABLES).unwrap();
    let ops = vec![
        WriteOperation::new_put("kv", b"b".to_vec(), b"2".to_vec()),
        WriteOperation::new_put("kv", b"a".to_vec(), b"1".to_vec()),
        WriteOperation::new_put("kv", b"ab".to_vec(), b"3".to_vec()),
        WriteOperation::new_put("kv", b"b".to_vec(), b"4".to_vec()),
    ];
    assert!(engine.write_batch(ops, true).is_ok());
    let all = engine.get_all("kv").unwrap();
    assert_eq!(
        all,
        vec![
            (b"a".to_vec(), b"1".to_vec()),
            (b"ab".to_vec(), b"3".to_vec()),
            (b"b".to_vec(), b"4".to_vec()),
        ]
    );
    assert_eq!(engine.get_all("lease").unwrap(), vec![]);
}

#[test]
fn unknown_table_is_reported_by_name() {
    let engine = MemoryEngine::new(&TESTTABLES).unwrap();
    match engine.get("nope", b"k") {
        Err(EngineError::TableNotFound(name)) => assert_eq!(name, "nope"),
        other => panic!("unexpected {:?}", other),
    }
    assert!(matches!(engine.get_all("nope"), Err(EngineError::TableNotFound(_))));
    assert!(matches!(
        engine.get_multi("nope", &[b"k".to_vec()]),
        Err(EngineError::TableNotFound(_))
    ));
}

#[test]
fn failed_batch_leaves_engine_unchanged() {
    let mut engine = MemoryEngine::new(&TESTTABLES).unwrap();
    let ops = vec![
        WriteOperation::new_put("kv", b"x".to_vec(), b"1".to_vec()),
        WriteOperation::new_put("missing", b"y".to_vec(), b"2".to_vec()),
    ];
    match engine.write_batch(ops, false) {
        Err(EngineError::TableNotFound(name)) => assert_eq!(name, "missing"),
        other => panic!("unexpected {:?}", other),
    }
    assert!(engine.get("kv", b"x").unwrap().is_none());
    assert_eq!(engine.get_all("kv").unwrap(), vec![]);
}

#[test]
fn delete_range_with_equal_bounds_removes_nothing() {
    let mut engine = MemoryEngine::new(&TESTTABLES).unwrap();
    let ops = vec![
        WriteOperation::new_put("kv", b"a".to_vec(), b"1".to_vec()),
        WriteOperation::new_put("kv", b"b".to_vec(), b"2".to_vec()),
        WriteOperation::new_delete_range("kv", b"a", b"a"),
    ];
    assert!(engine.write_batch(ops, false).is_ok());
    assert_eq!(engine.get_all("kv").unwrap().len(), 2);
    let ops = vec![WriteOperation::new_delete_range("kv", b"a", b"b")];
    assert!(engine.write_batch(ops, false).is_ok());
    assert_eq!(engine.get_all("kv").unwrap(), vec![(b"b".to_vec(), b"2".to_vec())]);
}

#[test]
fn snapshot_round_trip_restores_every_table() {
    let mut engine = MemoryEngine::new(&TESTTABLES).unwrap();
    let ops = vec![
        WriteOperation::new_put("kv", b"k1".to_vec(), b"v1".to_vec()),
        WriteOperation::new_put("lease", b"l".to_vec(), b"7".to_vec()),
        WriteOperation::new_put("auth", b"u".to_vec(), b"p".to_vec()),
    ];
    assert!(engine.write_batch(ops, false).is_ok());
    let snap = engine.get_snapshot().unwrap();
    assert!(snap.size() > 0);
    let mut fresh = MemoryEngine::new(&TESTTABLES).unwrap();
    assert!(fresh.apply_snapshot(snap).is_ok());
    for t in TESTTABLES {
        assert_eq!(fresh.get_all(t).unwrap(), engine.get_all(t).unwrap());
    }
}

#[test]
fn garbage_snapshot_is_refused() {
    let mut engine = MemoryEngine::new(&TESTTABLES).unwrap();
    let mut snap = MemorySnapshot::new();
    snap.write_all(&[1, 2, 3]).unwrap();
    assert!(matches!(
        engine.apply_snapshot(snap),
        Err(EngineError::UnderlyingError(_))
    ));
    assert_eq!(engine.get_all("kv").unwrap(), vec![]);
}

#[test]
fn snapshot_reads_and_writes_at_position() {
    let mut snap = MemorySnapshot::from_bytes(vec![1, 2, 3, 4]);
    let mut buf = vec![0u8; 3];
    snap.read_exact(&mut buf).unwrap();
    assert_eq!(buf, vec![1, 2, 3]);
    let mut buf2 = vec![0u8; 2];
    assert!(matches!(snap.read_exact(&mut buf2), Err(EngineError::UnexpectedEof)));
    snap.write_all(&[9, 9]).unwrap();
    assert_eq!(snap.size(), 5);
    snap.rewind().unwrap();
    let mut all = vec![0u8; 5];
    snap.read_exact(&mut all).unwrap();
    assert_eq!(all, vec![1, 2, 3, 9, 9]);
    snap.clean().unwrap();
    assert_eq!(snap.size(), 0);
    snap.write_all(&[7]).unwrap();
    assert_eq!(snap.into_bytes(), vec![0, 0, 0, 0, 0, 7]);
}
