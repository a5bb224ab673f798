use xline::index::{Index, IndexError, Revision};
use xline::key_range::KeyRange;
use xline::kv_store::{encode_record, encode_revision, KvError, KvStore};
use xline::rpc::{EventType, KeyValue};

fn rev(main: i64) -> Revision {
    Revision { main, sub: 0 }
}

fn keys(v: &[(Vec<u8>, Revision)]) -> Vec<Vec<u8>> {
    v.iter().map(|(k, _)| k.clone()).collect()
}

#[test]
fn register_counts_versions_and_generations() {
    let mut idx = Index::new();
    assert_eq!(idx.register_revision(b"a".to_vec(), rev(1)), (None, 1, 1));
    assert_eq!(idx.register_revision(b"a".to_vec(), rev(2)), (Some(rev(1)), 1, 2));
    assert_eq!(idx.tombstone(b"a", rev(3)), Ok(rev(2)));
    assert_eq!(idx.tombstone(b"a", rev(4)), Err(IndexError::KeyNotFound));
    assert_eq!(idx.tombstone(b"zz", rev(4)), Err(IndexError::KeyNotFound));
    assert_eq!(idx.register_revision(b"a".to_vec(), rev(5)), (None, 5, 1));
}

#[test]
fn get_reads_at_a_revision_in_key_order() {
    let mut idx = Index::new();
    for (i, k) in ["c", "a", "foo", "foo/abc", "fop", "b"].iter().enumerate() {
        idx.register_revision(k.as_bytes().to_vec(), rev(i as i64 + 1));
    }
    idx.tombstone(b"b", rev(7)).unwrap();
    let all = KeyRange { start: vec![0], end: vec![0] };
    let now = idx.get(&all, 0).unwrap();
    assert_eq!(
        keys(&now),
        vec![b"a".to_vec(), b"c".to_vec(), b"foo".to_vec(), b"foo/abc".to_vec(), b"fop".to_vec()]
    );
    let then = idx.get(&all, 2).unwrap();
    assert_eq!(keys(&then), vec![b"a".to_vec(), b"c".to_vec()]);
    assert_eq!(then[0].1, rev(2));
    let at6 = idx.get(&all, 6).unwrap();
    assert!(keys(&at6).contains(&b"b".to_vec()));
    let prefix = KeyRange { start: b"foo".to_vec(), end: KeyRange::get_prefix(b"foo") };
    assert_eq!(keys(&idx.get(&prefix, 0).unwrap()), vec![b"foo".to_vec(), b"foo/abc".to_vec()]);
    let from = KeyRange { start: b"foo".to_vec(), end: vec![0] };
    assert_eq!(
        keys(&idx.get(&from, 0).unwrap()),
        vec![b"foo".to_vec(), b"foo/abc".to_vec(), b"fop".to_vec()]
    );
}

#[test]
fn get_from_rev_lists_revisions_in_order() {
    let mut idx = Index::new();
    idx.register_revision(b"b".to_vec(), rev(1));
    idx.register_revision(b"a".to_vec(), rev(2));
    idx.register_revision(b"b".to_vec(), Revision { main: 3, sub: 1 });
    idx.tombstone(b"a", Revision { main: 3, sub: 0 }).unwrap();
    idx.register_revision(b"c".to_vec(), rev(4));
    let ab = KeyRange { start: b"a".to_vec(), end: b"c".to_vec() };
    assert_eq!(
        idx.get_from_rev(&ab, 2),
        vec![rev(2), Revision { main: 3, sub: 0 }, Revision { main: 3, sub: 1 }]
    );
    assert_eq!(idx.get_from_rev(&ab, 5), vec![]);
}

#[test]
fn compaction_keeps_later_reads() {
    let mut idx = Index::new();
    idx.register_revision(b"a".to_vec(), rev(1));
    idx.register_revision(b"a".to_vec(), rev(2));
    idx.register_revision(b"b".to_vec(), rev(3));
    idx.tombstone(b"b", rev(4)).unwrap();
    idx.register_revision(b"a".to_vec(), rev(5));
    let all = KeyRange { start: vec![0], end: vec![0] };
    let before: Vec<_> = (4..=6).map(|r| idx.get(&all, r).unwrap()).collect();
    assert_eq!(idx.compact(4), Ok(()));
    assert_eq!(idx.get(&all, 3), Err(IndexError::RevisionCompacted));
    assert_eq!(idx.get(&all, 1), Err(IndexError::RevisionCompacted));
    let after: Vec<_> = (4..=6).map(|r| idx.get(&all, r).unwrap()).collect();
    assert_eq!(before, after);
    assert_eq!(keys(&after[0]), vec![b"a".to_vec()]);
    assert_eq!(after[0][0].1, rev(2));
    assert_eq!(idx.compact(4), Err(IndexError::RevisionCompacted));
    assert_eq!(idx.get_from_rev(&all, 1), vec![rev(2), rev(3), rev(4), rev(5)]);
}

#[test]
fn store_put_advances_revision() {
    let mut store = KvStore::new();
    assert_eq!(store.current_revision(), 0);
    let (r1, e1) = store.put(b"foo".to_vec(), b"bar".to_vec(), 0).unwrap();
    assert_eq!(r1, 1);
    assert_eq!(e1.event_type, EventType::Put);
    assert_eq!((e1.kv.create_revision, e1.kv.mod_revision, e1.kv.version), (1, 1, 1));
    let (r2, e2) = store.put(b"foo".to_vec(), b"baz".to_vec(), 7).unwrap();
    assert_eq!(r2, 2);
    assert_eq!((e2.kv.create_revision, e2.kv.mod_revision, e2.kv.version), (1, 2, 2));
    assert_eq!(e2.kv.lease, 7);
    assert_eq!(store.current_revision(), 2);
    assert!(matches!(store.put(vec![], b"x".to_vec(), 0), Err(KvError::InvalidRequest)));
    assert_eq!(store.current_revision(), 2);
}

#[test]
fn store_reads_and_compacts() {
    let mut store = KvStore::new();
    for k in ["a", "b", "c", "c", "c", "foo", "foo/abc", "fop"] {
        store.put(k.as_bytes().to_vec(), b"bar".to_vec(), 0).unwrap();
    }
    let all = KeyRange { start: vec![0], end: vec![0] };
    assert_eq!(store.range_keys(&all, 0).unwrap().len(), 6);
    assert_eq!(keys(&store.range_keys(&all, 4).unwrap()), vec![b"a".to_vec(), b"b".to_vec(), b"c".to_vec()]);
    assert!(matches!(store.range_keys(&all, 9), Err(KvError::FutureRevision)));
    assert!(matches!(store.compact(9), Err(KvError::FutureRevision)));
    assert!(store.compact(5).is_ok());
    assert!(matches!(store.compact(5), Err(KvError::RevisionCompacted)));
    assert!(matches!(store.range_keys(&all, 4), Err(KvError::RevisionCompacted)));
    assert_eq!(store.range_keys(&all, 5).unwrap().len(), 3);
}

#[test]
fn encodings_are_big_endian() {
    assert_eq!(
        encode_revision(Revision { main: 1, sub: 2 }),
        vec![0, 0, 0, 0, 0, 0, 0, 1, 0, 0, 0, 0, 0, 0, 0, 2]
    );
    assert!(encode_revision(rev(255)) < encode_revision(rev(256)));
    let kv = KeyValue {
        key: b"k".to_vec(),
        create_revision: 1,
        mod_revision: 2,
        version: 3,
        value: b"vv".to_vec(),
        lease: 4,
    };
    let b = encode_record(&kv);
    assert_eq!(b.len(), 8 + 1 + 8 * 3 + 8 + 2 + 8);
    assert_eq!(&b[..9], &[0, 0, 0, 0, 0, 0, 0, 1, b'k']);
    assert_eq!(b[b.len() - 1], 4);
}

fn store_with(keys: &[&str]) -> KvStore {
    let mut store = KvStore::new();
    for k in keys {
        store.put(k.as_bytes().to_vec(), b"bar".to_vec(), 0).unwrap();
    }
    store
}

fn remaining(store: &KvStore) -> Vec<Vec<u8>> {
    let all = KeyRange { start: vec![0], end: vec![0] };
    keys(&store.range_keys(&all, 0).unwrap())
}

#[test]
fn store_delete_variants() {
    let base = ["a", "b", "c", "c/abc", "d"];
    let mut store = store_with(&base);
    let (n, events) = store.delete_range(&KeyRange::new_one_key(b"c".to_vec())).unwrap();
    assert_eq!(n, 1);
    assert_eq!(events.len(), 1);
    assert_eq!(events[0].event_type, EventType::Delete);
    assert_eq!(events[0].kv.mod_revision, 6);
    assert_eq!(store.current_revision(), 6);
    assert_eq!(remaining(&store), vec![b"a".to_vec(), b"b".to_vec(), b"c/abc".to_vec(), b"d".to_vec()]);

    let mut store = store_with(&base);
    let prefix = KeyRange { start: b"c".to_vec(), end: KeyRange::get_prefix(b"c") };
    assert_eq!(store.delete_range(&prefix).unwrap().0, 2);
    assert_eq!(remaining(&store), vec![b"a".to_vec(), b"b".to_vec(), b"d".to_vec()]);

    let mut store = store_with(&base);
    let from = KeyRange { start: b"c".to_vec(), end: vec![0] };
    let (n, events) = store.delete_range(&from).unwrap();
    assert_eq!(n, 3);
    assert_eq!(events[2].kv.key, b"d".to_vec());
    assert_eq!(remaining(&store), vec![b"a".to_vec(), b"b".to_vec()]);

    let mut store = store_with(&base);
    let (n, events) = store.delete_range(&KeyRange::new_one_key(b"e".to_vec())).unwrap();
    assert_eq!((n, events.len()), (0, 0));
    assert_eq!(store.current_revision(), 5);
    assert_eq!(remaining(&store).len(), 5);
}

#[test]
fn deleted_key_is_recreated_with_a_new_generation() {
    let mut store = store_with(&["k", "k"]);
    store.delete_range(&KeyRange::new_one_key(b"k".to_vec())).unwrap();
    let (rev, e) = store.put(b"k".to_vec(), b"v".to_vec(), 0).unwrap();
    assert_eq!(rev, 4);
    assert_eq!((e.kv.create_revision, e.kv.version), (4, 1));
}

fn put_req(key: &str, value: &str, ignore_value: bool) -> xline::rpc::PutRequest {
    xline::rpc::PutRequest {
        key: key.as_bytes().to_vec(),
        value: value.as_bytes().to_vec(),
        lease: 0,
        prev_kv: false,
        ignore_value,
        ignore_lease: false,
    }
}

#[test]
fn store_put_ignoring_value_needs_a_live_key() {
    let mut store = KvStore::new();
    assert!(matches!(store.put_request(put_req("foo", "", true)), Err(KvError::InvalidRequest)));
    assert_eq!(store.current_revision(), 0);
    assert!(store.put_request(put_req("foo", "bar", false)).is_ok());
    let (rev, event, prev) = store.put_request(put_req("foo", "", true)).unwrap();
    assert_eq!(rev, 2);
    assert!(prev.is_none());
    assert_eq!(event.kv.value, b"bar".to_vec());
    let got = store.range(&KeyRange::new_one_key(b"foo".to_vec()), 0).unwrap();
    assert_eq!(got.len(), 1);
    assert_eq!(got[0].value, b"bar".to_vec());
    assert_eq!(got[0].version, 2);
}

#[test]
fn store_put_returns_previous_record_when_asked() {
    let mut store = KvStore::new();
    store.put(b"k".to_vec(), b"v1".to_vec(), 3).unwrap();
    let mut req = put_req("k", "v2", false);
    req.prev_kv = true;
    req.ignore_lease = true;
    let (_, event, prev) = store.put_request(req).unwrap();
    let prev = prev.unwrap();
    assert_eq!(prev.value, b"v1".to_vec());
    assert_eq!(event.kv.lease, 3);
}

#[test]
fn store_range_reads_records() {
    let mut store = KvStore::new();
    for (k, v) in [("a", "1"), ("b", "2"), ("c", "3"), ("foo", "4"), ("foo/abc", "5"), ("fop", "6")] {
        store.put(k.as_bytes().to_vec(), v.as_bytes().to_vec(), 0).unwrap();
    }
    store.put(b"a".to_vec(), b"7".to_vec(), 0).unwrap();
    let prefix = KeyRange { start: b"foo".to_vec(), end: KeyRange::get_prefix(b"foo") };
    let got = store.range(&prefix, 0).unwrap();
    assert_eq!(got.iter().map(|kv| kv.key.clone()).collect::<Vec<_>>(), vec![b"foo".to_vec(), b"foo/abc".to_vec()]);
    let from = KeyRange { start: b"foo".to_vec(), end: vec![0] };
    let got = store.range(&from, 0).unwrap();
    assert_eq!(
        got.iter().map(|kv| kv.value.clone()).collect::<Vec<_>>(),
        vec![b"4".to_vec(), b"5".to_vec(), b"6".to_vec()]
    );
    let a_now = store.range(&KeyRange::new_one_key(b"a".to_vec()), 0).unwrap();
    assert_eq!((a_now[0].value.clone(), a_now[0].version, a_now[0].mod_revision), (b"7".to_vec(), 2, 7));
    let a_then = store.range(&KeyRange::new_one_key(b"a".to_vec()), 3).unwrap();
    assert_eq!((a_then[0].value.clone(), a_then[0].version, a_then[0].create_revision), (b"1".to_vec(), 1, 1));
    assert!(matches!(store.range(&prefix, 8), Err(KvError::FutureRevision)));
    store.compact(4).unwrap();
    assert!(matches!(store.range(&prefix, 3), Err(KvError::RevisionCompacted)));
    assert_eq!(store.range(&KeyRange::new_one_key(b"a".to_vec()), 4).unwrap()[0].value, b"1".to_vec());
}

#[test]
fn store_events_from_replays_history() {
    let mut store = KvStore::new();
    store.put(b"a".to_vec(), b"1".to_vec(), 0).unwrap();
    store.put(b"b".to_vec(), b"2".to_vec(), 0).unwrap();
    store.put(b"a".to_vec(), b"3".to_vec(), 0).unwrap();
    store.delete_range(&KeyRange::new_one_key(b"a".to_vec())).unwrap();
    let all = KeyRange { start: vec![0], end: vec![0] };
    let events = store.events_from(&all, 2);
    let kinds: Vec<_> = events.iter().map(|(r, e)| (r.main, e.event_type, e.kv.key.clone())).collect();
    assert_eq!(
        kinds,
        vec![
            (2, EventType::Put, b"b".to_vec()),
            (3, EventType::Put, b"a".to_vec()),
            (4, EventType::Delete, b"a".to_vec()),
        ]
    );
    assert_eq!(events[1].1.kv.value, b"3".to_vec());
    assert_eq!(events[1].1.kv.version, 2);
    let only_a = store.events_from(&KeyRange::new_one_key(b"a".to_vec()), 0);
    assert_eq!(only_a.len(), 3);
}
