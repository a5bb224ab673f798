use xline::command::{command_from_request_wrapper, key_ranges_of};
use xline::key_range::KeyRange;
use xline::opts::{CompactionOptions, DeleteRangeOptions, PutOptions, RangeOptions, Txn};
use xline::rpc::{
    Compare, CompareResult, CompareTarget, PutRequest, RequestOp, RequestWrapper, SortOrder,
    SortTarget, TargetUnion,
};

#[test]
fn contains_key_follows_the_encodings() {
    let one = KeyRange::new_one_key(b"foo".to_vec());
    assert!(one.contains_key(b"foo"));
    assert!(!one.contains_key(b"foo/a"));
    let all = KeyRange { start: vec![0], end: vec![0] };
    assert!(all.contains_key(b""));
    assert!(all.contains_key(&[0xff, 0xff]));
    let from = KeyRange { start: b"foo".to_vec(), end: vec![0] };
    assert!(from.contains_key(b"fop"));
    assert!(from.contains_key(b"foo"));
    assert!(!from.contains_key(b"fo"));
    let span = KeyRange { start: b"a".to_vec(), end: b"c".to_vec() };
    assert!(span.contains_key(b"a"));
    assert!(span.contains_key(b"bzzz"));
    assert!(!span.contains_key(b"c"));
}

#[test]
fn get_prefix_increments_last_byte_below_ff() {
    assert_eq!(KeyRange::get_prefix(b"foo"), b"fop".to_vec());
    assert_eq!(KeyRange::get_prefix(&[1, 0xff, 0xff]), vec![2]);
    assert_eq!(KeyRange::get_prefix(&[0xff, 0xff]), vec![0]);
    assert_eq!(KeyRange::get_prefix(&[]), vec![0]);
}

#[test]
fn range_options_apply_flags() {
    let r = RangeOptions::new().with_key(b"foo".to_vec()).with_prefix().into_request();
    assert_eq!(r.key, b"foo".to_vec());
    assert_eq!(r.range_end, b"fop".to_vec());
    let r = RangeOptions::new().with_key(b"foo".to_vec()).with_from_key().into_request();
    assert_eq!(r.range_end, vec![0]);
    assert_eq!(r.key, b"foo".to_vec());
    let r = RangeOptions::new().with_prefix().into_request();
    assert_eq!((r.key, r.range_end), (vec![0], vec![0]));
    let r = RangeOptions::new().with_from_key().into_request();
    assert_eq!((r.key, r.range_end), (vec![0], vec![0]));
    let r = RangeOptions::new().with_key(b"x".to_vec()).with_all_keys().into_request();
    assert_eq!((r.key, r.range_end), (vec![0], vec![0]));
    let r = RangeOptions::new()
        .with_key(b"a".to_vec())
        .with_prefix()
        .with_range_end(b"c".to_vec())
        .into_request();
    assert_eq!((r.key, r.range_end), (b"a".to_vec(), b"c".to_vec()));
}

#[test]
fn range_options_set_fields() {
    let o = RangeOptions::new()
        .with_limit(2)
        .with_revision(4)
        .with_sort_order(SortOrder::Descend)
        .with_sort_target(SortTarget::Version)
        .with_serializable(true)
        .with_keys_only(true)
        .with_count_only(true)
        .with_min_mod_revision(1)
        .with_max_mod_revision(9)
        .with_min_create_revision(2)
        .with_max_create_revision(8);
    let r = o.into_request();
    assert_eq!(r.limit, 2);
    assert_eq!(r.revision, 4);
    assert_eq!(r.sort_order, SortOrder::Descend);
    assert_eq!(r.sort_target, SortTarget::Version);
    assert!(r.serializable && r.keys_only && r.count_only);
    assert_eq!(
        (r.min_mod_revision, r.max_mod_revision, r.min_create_revision, r.max_create_revision),
        (1, 9, 2, 8)
    );
}

#[test]
fn delete_options_apply_flags() {
    let r = DeleteRangeOptions::new().with_key(b"c".to_vec()).with_prefix().into_request();
    assert_eq!((r.key, r.range_end), (b"c".to_vec(), b"d".to_vec()));
    let r = DeleteRangeOptions::new()
        .with_key(b"c".to_vec())
        .with_from_key()
        .with_prev_kv(true)
        .into_request();
    assert_eq!((r.key, r.range_end), (b"c".to_vec(), vec![0]));
    assert!(r.prev_kv);
    let r = DeleteRangeOptions::new().with_all_keys().into_request();
    assert_eq!((r.key, r.range_end), (vec![0], vec![0]));
    let r = DeleteRangeOptions::new()
        .with_key(b"a".to_vec())
        .with_range_end(b"c".to_vec())
        .into_request();
    assert_eq!((r.key, r.range_end), (b"a".to_vec(), b"c".to_vec()));
}

#[test]
fn put_and_compaction_options() {
    let p = PutOptions::new()
        .with_kv(b"foo".to_vec(), b"bar".to_vec())
        .with_lease(5)
        .with_prev_kv(true)
        .with_ignore_value(true)
        .with_ignore_lease(true)
        .into_request();
    assert_eq!(p.key, b"foo".to_vec());
    assert_eq!(p.value, b"bar".to_vec());
    assert_eq!(p.lease, 5);
    assert!(p.prev_kv && p.ignore_value && p.ignore_lease);
    let c = CompactionOptions::new().with_revision(3).with_physical().into_request();
    assert_eq!(c.revision, 3);
    assert!(c.physical);
}

fn compare(key: &[u8], end: &[u8]) -> Compare {
    Compare {
        result: CompareResult::Equal,
        target: CompareTarget::Version,
        key: key.to_vec(),
        range_end: end.to_vec(),
        target_union: Some(TargetUnion::Version(1)),
    }
}

#[test]
fn txn_builder_sets_branches() {
    let put = PutOptions::new().with_kv(b"k".to_vec(), b"v".to_vec()).into_request();
    let t = Txn::new()
        .when(vec![compare(b"k", b"")])
        .and_then(vec![RequestOp::Put(put)])
        .or_else(vec![])
        .into_request();
    assert_eq!(t.compare.len(), 1);
    assert_eq!(t.success.len(), 1);
    assert_eq!(t.failure.len(), 0);
}

#[test]
fn command_ranges_follow_the_request() {
    let put = RequestWrapper::PutRequest(PutRequest {
        key: b"k".to_vec(),
        value: b"v".to_vec(),
        lease: 0,
        prev_kv: false,
        ignore_value: false,
        ignore_lease: false,
    });
    let cmd = command_from_request_wrapper(put);
    assert_eq!(cmd.key_ranges.len(), 1);
    assert_eq!(cmd.key_ranges[0].start, b"k".to_vec());
    assert!(cmd.key_ranges[0].end.is_empty());
    assert!(cmd.propose_id.starts_with("client-"));
    assert_eq!(cmd.propose_id.len(), 43);

    let range = RangeOptions::new().with_key(b"a".to_vec()).with_prefix().into_request();
    let ranges = key_ranges_of(&RequestWrapper::RangeRequest(range));
    assert_eq!((ranges[0].start.clone(), ranges[0].end.clone()), (b"a".to_vec(), b"b".to_vec()));

    let del = DeleteRangeOptions::new().with_key(b"x".to_vec()).into_request();
    let ranges = key_ranges_of(&RequestWrapper::DeleteRangeRequest(del));
    assert_eq!(ranges.len(), 1);
    assert_eq!(ranges[0].start, b"x".to_vec());

    let txn = Txn::new()
        .when(vec![compare(b"a", b""), compare(b"b", b"c")])
        .and_then(vec![])
        .into_request();
    let ranges = key_ranges_of(&RequestWrapper::TxnRequest(txn));
    assert_eq!(ranges.len(), 2);
    assert_eq!(ranges[1].start, b"b".to_vec());
    assert_eq!(ranges[1].end, b"c".to_vec());

    let a = command_from_request_wrapper(RequestWrapper::TxnRequest(Txn::new().into_request()));
    let b = command_from_request_wrapper(RequestWrapper::TxnRequest(Txn::new().into_request()));
    assert_ne!(a.propose_id, b.propose_id);
    assert!(a.key_ranges.is_empty());
}

#[test]
fn prefix_of_all_ff_key_is_all_keys() {
    let r = RangeOptions::new().with_key(vec![0xff, 0xff]).with_prefix().into_request();
    assert_eq!((r.key, r.range_end), (vec![0], vec![0]));
    let d = DeleteRangeOptions::new().with_key(vec![0xff]).with_prefix().into_request();
    assert_eq!((d.key, d.range_end), (vec![0], vec![0]));
    let r = RangeOptions::new().with_key(vec![0x61, 0xff]).with_prefix().into_request();
    assert_eq!((r.key, r.range_end), (vec![0x61, 0xff], vec![0x62]));
}
