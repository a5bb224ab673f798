use xline::key_range::KeyRange;
use xline::kv_store::KvStore;
use xline::opts::{DeleteRangeOptions, PutOptions, RangeOptions};
use xline::query::RangeResponse;
use xline::rpc::{SortOrder, SortTarget};

fn put(store: &mut KvStore, key: &str, value: &str, opts: Option<PutOptions>) -> bool {
    let req = opts
        .unwrap_or_else(PutOptions::new)
        .with_kv(key.as_bytes().to_vec(), value.as_bytes().to_vec())
        .into_request();
    store.put_request(req).is_ok()
}

fn get(store: &KvStore, key: &str, opts: Option<RangeOptions>) -> RangeResponse {
    let req = opts
        .unwrap_or_else(RangeOptions::new)
        .with_key(key.as_bytes().to_vec())
        .into_request();
    store.range_request(&req).unwrap()
}

fn delete(store: &mut KvStore, key: &str, opts: Option<DeleteRangeOptions>) -> i64 {
    let req = opts
        .unwrap_or_else(DeleteRangeOptions::new)
        .with_key(key.as_bytes().to_vec())
        .into_request();
    let range = KeyRange { start: req.key, end: req.range_end };
    store.delete_range(&range).unwrap().0
}

#[test]
fn test_kv_put() {
    struct TestCase<'a> {
        key: &'a str,
        value: &'a str,
        opts: Option<PutOptions>,
        want_err: bool,
    }

    let tests = [
        TestCase {
            key: "foo",
            value: "",
            opts: Some(PutOptions::new().with_ignore_value(true)),
            want_err: true,
        },
        TestCase {
            key: "foo",
            value: "bar",
            opts: None,
            want_err: false,
        },
        TestCase {
            key: "foo",
            value: "",
            opts: Some(PutOptions::new().with_ignore_value(true)),
            want_err: false,
        },
    ];

    let mut store = KvStore::new();
    for test in tests {
        let ok = put(&mut store, test.key, test.value, test.opts);
        assert_eq!(!ok, test.want_err);
    }
}

#[test]
fn test_kv_get() {
    struct TestCase<'a> {
        key: &'a str,
        opts: Option<RangeOptions>,
        want_kvs: &'a [&'a str],
    }

    let mut store = KvStore::new();

    let kvs = ["a", "b", "c", "c", "c", "foo", "foo/abc", "fop"];
    let want_kvs = ["a", "b", "c", "foo", "foo/abc", "fop"];
    let kvs_by_version = ["a", "b", "foo", "foo/abc", "fop", "c"];
    let reversed_kvs = ["fop", "foo/abc", "foo", "c", "b", "a"];

    let tests = [
        TestCase {
            key: "a",
            opts: None,
            want_kvs: &want_kvs[..1],
        },
        TestCase {
            key: "a",
            opts: Some(RangeOptions::new().with_range_end(b"c".to_vec())),
            want_kvs: &want_kvs[..2],
        },
        TestCase {
            key: "",
            opts: Some(RangeOptions::new().with_prefix()),
            want_kvs: &want_kvs[..],
        },
        TestCase {
            key: "",
            opts: Some(RangeOptions::new().with_from_key()),
            want_kvs: &want_kvs[..],
        },
        TestCase {
            key: "a",
            opts: Some(RangeOptions::new().with_range_end(b"x".to_vec())),
            want_kvs: &want_kvs[..],
        },
        TestCase {
            key: "",
            opts: Some(RangeOptions::new().with_prefix().with_revision(4)),
            want_kvs: &want_kvs[..3],
        },
        TestCase {
            key: "a",
            opts: Some(RangeOptions::new().with_count_only(true)),
            want_kvs: &[],
        },
        TestCase {
            key: "foo",
            opts: Some(RangeOptions::new().with_prefix()),
            want_kvs: &["foo", "foo/abc"],
        },
        TestCase {
            key: "foo",
            opts: Some(RangeOptions::new().with_from_key()),
            want_kvs: &["foo", "foo/abc", "fop"],
        },
        TestCase {
            key: "",
            opts: Some(RangeOptions::new().with_prefix().with_limit(2)),
            want_kvs: &want_kvs[..2],
        },
        TestCase {
            key: "",
            opts: Some(
                RangeOptions::new()
                    .with_prefix()
                    .with_sort_target(SortTarget::Mod)
                    .with_sort_order(SortOrder::Ascend),
            ),
            want_kvs: &want_kvs[..],
        },
        TestCase {
            key: "",
            opts: Some(
                RangeOptions::new()
                    .with_prefix()
                    .with_sort_target(SortTarget::Version)
                    .with_sort_order(SortOrder::Ascend),
            ),
            want_kvs: &kvs_by_version[..],
        },
        TestCase {
            key: "",
            opts: Some(
                RangeOptions::new()
                    .with_prefix()
                    .with_sort_target(SortTarget::Create)
                    .with_sort_order(SortOrder::Unsorted),
            ),
            want_kvs: &want_kvs[..],
        },
        TestCase {
            key: "",
            opts: Some(
                RangeOptions::new()
                    .with_prefix()
                    .with_sort_target(SortTarget::Create)
                    .with_sort_order(SortOrder::Descend),
            ),
            want_kvs: &reversed_kvs[..],
        },
        TestCase {
            key: "",
            opts: Some(
                RangeOptions::new()
                    .with_prefix()
                    .with_sort_target(SortTarget::Key)
                    .with_sort_order(SortOrder::Descend),
            ),
            want_kvs: &reversed_kvs[..],
        },
    ];

    for key in kvs {
        assert!(put(&mut store, key, "bar", None));
    }

    for test in tests {
        let res = get(&store, test.key, test.opts);
        assert_eq!(res.kvs.len(), test.want_kvs.len());
        let is_identical = res
            .kvs
            .iter()
            .zip(test.want_kvs.iter())
            .all(|(kv, want)| kv.key == want.as_bytes());
        assert!(is_identical);
    }
}

#[test]
fn test_kv_delete() {
    struct TestCase<'a> {
        key: &'a str,
        opts: Option<DeleteRangeOptions>,
        want_deleted: i64,
        want_keys: &'a [&'a str],
    }

    let mut store = KvStore::new();

    let keys = ["a", "b", "c", "c/abc", "d"];

    let tests = [
        TestCase {
            key: "",
            opts: Some(DeleteRangeOptions::new().with_prefix()),
            want_deleted: 5,
            want_keys: &[],
        },
        TestCase {
            key: "",
            opts: Some(DeleteRangeOptions::new().with_from_key()),
            want_deleted: 5,
            want_keys: &[],
        },
        TestCase {
            key: "a",
            opts: Some(DeleteRangeOptions::new().with_range_end(b"c".to_vec())),
            want_deleted: 2,
            want_keys: &["c", "c/abc", "d"],
        },
        TestCase {
            key: "c",
            opts: None,
            want_deleted: 1,
            want_keys: &["a", "b", "c/abc", "d"],
        },
        TestCase {
            key: "c",
            opts: Some(DeleteRangeOptions::new().with_prefix()),
            want_deleted: 2,
            want_keys: &["a", "b", "d"],
        },
        TestCase {
            key: "c",
            opts: Some(DeleteRangeOptions::new().with_from_key()),
            want_deleted: 3,
            want_keys: &["a", "b"],
        },
        TestCase {
            key: "e",
            opts: None,
            want_deleted: 0,
            want_keys: &keys,
        },
    ];

    for test in tests {
        for key in keys {
            assert!(put(&mut store, key, "bar", None));
        }

        let deleted = delete(&mut store, test.key, test.opts);
        assert_eq!(deleted, test.want_deleted);

        let res = get(&store, "", Some(RangeOptions::new().with_all_keys()));
        let is_identical = res
            .kvs
            .iter()
            .zip(test.want_keys.iter())
            .all(|(kv, want)| kv.key == want.as_bytes());
        assert!(is_identical);
        assert_eq!(res.kvs.len(), test.want_keys.len());
    }
}

#[test]
fn range_request_filters_and_shapes() {
    let mut store = KvStore::new();
    for (k, v) in [("a", "1"), ("b", "2"), ("c", "3")] {
        assert!(put(&mut store, k, v, None));
    }
    assert!(put(&mut store, "a", "4", None));
    let all = || RangeOptions::new().with_all_keys();
    let res = get(&store, "", Some(all().with_min_mod_revision(2).with_max_mod_revision(3)));
    assert_eq!(res.kvs.iter().map(|kv| kv.key.clone()).collect::<Vec<_>>(), vec![b"b".to_vec(), b"c".to_vec()]);
    let res = get(&store, "", Some(all().with_min_create_revision(2)));
    assert_eq!(res.count, 2);
    let res = get(&store, "", Some(all().with_keys_only(true)));
    assert_eq!(res.kvs.len(), 3);
    assert!(res.kvs.iter().all(|kv| kv.value.is_empty()));
    let res = get(&store, "", Some(all().with_count_only(true)));
    assert_eq!((res.kvs.len(), res.count, res.more), (0, 3, false));
    let res = get(&store, "", Some(all().with_limit(1)));
    assert_eq!((res.kvs.len(), res.count, res.more), (1, 3, true));
    let res = get(&store, "", Some(all().with_sort_target(SortTarget::Value).with_sort_order(SortOrder::Descend)));
    assert_eq!(res.kvs[0].value, b"4".to_vec());
    let empty = RangeOptions::new().into_request();
    assert!(store.range_request(&empty).is_err());
}
