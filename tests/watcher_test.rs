use std::collections::BTreeMap;

use xline::key_range::KeyRange;
use xline::kv_store::KvStore;
use xline::rpc::{Event, EventType, KeyValue};
use xline::watcher::{KvWatcher, WatchIdGenerator, Watcher, WatcherMap};

fn put_event(key: &[u8], value: Vec<u8>, rev: i64) -> Event {
    Event {
        event_type: EventType::Put,
        kv: KeyValue {
            key: key.to_vec(),
            create_revision: 1,
            mod_revision: rev,
            version: rev,
            value,
            lease: 0,
        },
        prev_kv: None,
    }
}

fn delete_event(key: &[u8], rev: i64) -> Event {
    Event {
        event_type: EventType::Delete,
        kv: KeyValue {
            key: key.to_vec(),
            create_revision: 0,
            mod_revision: rev,
            version: 0,
            value: vec![],
            lease: 0,
        },
        prev_kv: None,
    }
}

#[test]
fn it_works() {
    // 100 puts of `foo`; the watcher registers from revision 1 after the
    // first half, and gets the second half as it is written.
    let mut store = KvStore::new();
    let mut kv_watcher = KvWatcher::new();
    let mut map = BTreeMap::new();
    for i in 0..50_u8 {
        store.put(b"foo".to_vec(), vec![i], 0).unwrap();
    }
    let range = KeyRange::new_one_key(b"foo".to_vec());
    let history: Vec<Event> = store.events_from(&range, 1).into_iter().map(|(_, e)| e).collect();
    assert_eq!(history.len(), 50);
    let first = kv_watcher.watch(123, range, 1, vec![], store.current_revision(), history);
    let mut batches = vec![first.unwrap()];
    for i in 50..100_u8 {
        let (rev, event) = store.put(b"foo".to_vec(), vec![i], 0).unwrap();
        batches.extend(kv_watcher.handle_kv_updates(rev, &vec![event]));
    }
    for batch in batches {
        assert_eq!(batch.watch_id, 123);
        for event in batch.events {
            let val = event.kv.value[0];
            *map.entry(val).or_insert(0) += 1;
            if val == 99 {
                break;
            }
        }
    }
    assert_eq!(map.len(), 100);
    for (k, count) in map {
        assert_eq!(count, 1, "key {k} should be notified once");
    }
}

#[test]
fn replayed_batch_is_not_sent_twice() {
    let all: Vec<Event> = (0..10_u8)
        .map(|i| put_event(b"foo", vec![i], i as i64 + 2))
        .collect();
    let mut kv_watcher = KvWatcher::new();
    let first = kv_watcher.watch(
        7,
        KeyRange::new_one_key(b"foo".to_vec()),
        1,
        vec![],
        11,
        all[..5].to_vec(),
    );
    assert_eq!(first.unwrap().events.len(), 5);
    assert!(kv_watcher.handle_kv_updates(6, &vec![all[4].clone()]).is_empty());
    let sent = kv_watcher.handle_kv_updates(7, &vec![all[5].clone()]);
    assert_eq!(sent.len(), 1);
    assert_eq!(sent[0].events[0].kv.value, vec![5]);
}

#[test]
fn watch_id_generator_counts_and_wraps() {
    let mut g = WatchIdGenerator::new(0);
    assert_eq!(g.next(), 1);
    assert_eq!(g.next(), 2);
    let mut g = WatchIdGenerator::new(i64::MAX);
    assert_eq!(g.next(), i64::MIN);
}

#[test]
fn watch_from_zero_starts_after_current_revision() {
    let mut w = KvWatcher::new();
    let history = vec![put_event(b"a", vec![1], 3)];
    let r = w.watch(1, KeyRange::new_one_key(b"a".to_vec()), 0, vec![], 7, history);
    assert!(r.is_none());
    assert!(w.handle_kv_updates(7, &vec![put_event(b"a", vec![2], 7)]).is_empty());
    let sent = w.handle_kv_updates(8, &vec![put_event(b"a", vec![3], 8)]);
    assert_eq!(sent.len(), 1);
    assert_eq!(sent[0].revision, 8);
    assert_eq!(sent[0].events[0].kv.value, vec![3]);
}

#[test]
fn dispatch_follows_range_and_filters() {
    let mut w = KvWatcher::new();
    let prefix = KeyRange {
        start: b"foo".to_vec(),
        end: KeyRange::get_prefix(b"foo"),
    };
    w.watch(1, prefix, 0, vec![], 0, vec![]);
    w.watch(2, KeyRange::new_one_key(b"bar".to_vec()), 0, vec![EventType::Delete], 0, vec![]);
    let all_keys = KeyRange { start: vec![0], end: vec![0] };
    w.watch(3, all_keys, 0, vec![EventType::Put], 0, vec![]);
    let batch = vec![
        put_event(b"foo/x", vec![1], 5),
        delete_event(b"bar", 5),
        put_event(b"bar", vec![2], 5),
        delete_event(b"fop", 5),
    ];
    let sent = w.handle_kv_updates(5, &batch);
    assert_eq!(sent.len(), 3);
    assert_eq!(sent[0].watch_id, 1);
    assert_eq!(sent[0].events.len(), 1);
    assert_eq!(sent[0].events[0].kv.key, b"foo/x".to_vec());
    assert_eq!(sent[1].watch_id, 2);
    assert_eq!(sent[1].events.len(), 1);
    assert_eq!(sent[1].events[0].event_type, EventType::Put);
    assert_eq!(sent[2].watch_id, 3);
    assert_eq!(sent[2].events.len(), 2);
    assert_eq!(sent[2].events[0].kv.key, b"bar".to_vec());
    assert_eq!(sent[2].events[1].kv.key, b"fop".to_vec());
}

#[test]
fn cancelled_watcher_gets_nothing() {
    let mut w = KvWatcher::new();
    w.watch(9, KeyRange::new_one_key(b"k".to_vec()), 0, vec![], 0, vec![]);
    assert!(w.contains(9));
    w.cancel(9);
    assert!(!w.contains(9));
    assert!(w.handle_kv_updates(1, &vec![put_event(b"k", vec![1], 1)]).is_empty());
}

#[test]
fn notify_drops_batches_before_start() {
    let watcher = Watcher::new(KeyRange::new_one_key(b"k".to_vec()), 4, 10, vec![]);
    assert_eq!(watcher.watch_id(), 4);
    assert_eq!(watcher.start_rev(), 10);
    assert_eq!(watcher.key_range().start, b"k".to_vec());
    assert!(watcher.notify(9, &vec![put_event(b"k", vec![1], 9)]).is_none());
    let r = watcher.notify(10, &vec![put_event(b"k", vec![1], 10)]).unwrap();
    assert_eq!(r.revision, 10);
    assert_eq!(r.events.len(), 1);
}

#[test]
fn watcher_map_insert_and_remove() {
    let mut m = WatcherMap::new();
    m.insert(Watcher::new(KeyRange::new_one_key(b"a".to_vec()), 1, 0, vec![]));
    m.insert(Watcher::new(KeyRange::new_one_key(b"a".to_vec()), 2, 0, vec![]));
    assert!(m.contains(1) && m.contains(2));
    m.remove(1);
    assert!(!m.contains(1));
    assert!(m.contains(2));
    let sent = m.responses(3, &vec![put_event(b"a", vec![0], 3)]);
    assert_eq!(sent.len(), 1);
    assert_eq!(sent[0].watch_id, 2);
}

#[test]
fn watchers_are_equal_by_id_alone() {
    let a = Watcher::new(KeyRange::new_one_key(b"a".to_vec()), 5, 1, vec![]);
    let b = Watcher::new(KeyRange::new_one_key(b"b".to_vec()), 5, 9, vec![EventType::Put]);
    let c = Watcher::new(KeyRange::new_one_key(b"a".to_vec()), 6, 1, vec![]);
    assert!(a == b);
    assert!(a != c);
}

#[test]
fn watch_never_starts_before_start_rev() {
    let mut w = KvWatcher::new();
    let r = w.watch(1, KeyRange::new_one_key(b"a".to_vec()), 12, vec![], 7, vec![]);
    assert!(r.is_none());
    for rev in 8..12 {
        assert!(w.handle_kv_updates(rev, &vec![put_event(b"a", vec![1], rev)]).is_empty());
    }
    let sent = w.handle_kv_updates(12, &vec![put_event(b"a", vec![2], 12)]);
    assert_eq!(sent.len(), 1);
    assert_eq!(sent[0].events[0].kv.value, vec![2]);
}
