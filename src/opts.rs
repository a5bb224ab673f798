//! Builders of the requests that a client sends.
use vstd::prelude::*;

use crate::key_range::{prefix_end, KeyRange};
use crate::rpc::{
    Compare, CompactionRequest, DeleteRangeRequest, PutRequest, RangeRequest, RequestOp,
    SortOrder, SortTarget, TxnRequest,
};

verus! {

/// Options of a put.
#[derive(Debug)]
pub struct PutOptions(pub PutRequest);

impl PutOptions {
    /// Options with every field zero, empty or unset.
    pub fn new() -> (r: PutOptions)
        ensures
            r.0.key@.len() == 0,
            r.0.value@.len() == 0,
            r.0.lease == 0,
            !r.0.prev_kv,
            !r.0.ignore_value,
            !r.0.ignore_lease,
    {
        PutOptions(
            PutRequest {
                key: Vec::new(),
                value: Vec::new(),
                lease: 0,
                prev_kv: false,
                ignore_value: false,
                ignore_lease: false,
            },
        )
    }

    /// Sets the key and the value.
    pub fn with_kv(self, key: Vec<u8>, value: Vec<u8>) -> (r: PutOptions)
        ensures
            r.0 == (PutRequest { key: key, value: value, ..self.0 }),
    {
        let mut s = self;
        s.0.key = key;
        s.0.value = value;
        s
    }

    /// Sets the lease.
    pub fn with_lease(self, lease: i64) -> (r: PutOptions)
        ensures
            r.0 == (PutRequest { lease: lease, ..self.0 }),
    {
        let mut s = self;
        s.0.lease = lease;
        s
    }

    /// Sets whether the previous record is returned.
    pub fn with_prev_kv(self, prev_kv: bool) -> (r: PutOptions)
        ensures
            r.0 == (PutRequest { prev_kv: prev_kv, ..self.0 }),
    {
        let mut s = self;
        s.0.prev_kv = prev_kv;
        s
    }

    /// Sets whether the current value is kept.
    pub fn with_ignore_value(self, ignore_value: bool) -> (r: PutOptions)
        ensures
            r.0 == (PutRequest { ignore_value: ignore_value, ..self.0 }),
    {
        let mut s = self;
        s.0.ignore_value = ignore_value;
        s
    }

    /// Sets whether the current lease is kept.
    pub fn with_ignore_lease(self, ignore_lease: bool) -> (r: PutOptions)
        ensures
            r.0 == (PutRequest { ignore_lease: ignore_lease, ..self.0 }),
    {
        let mut s = self;
        s.0.ignore_lease = ignore_lease;
        s
    }

    /// The request these options describe.
    pub fn into_request(self) -> (r: PutRequest)
        ensures
            r == self.0,
    {
        self.0
    }
}

/// Every byte of `p` is `0xff`.
pub open spec fn all_ff(p: Seq<u8>) -> bool {
    forall|i: int| 0 <= i < p.len() ==> p[i] == 0xffu8
}

/// The key and end marker that a request gets from `key` and `range_end`
/// with the all-keys, prefix and from-key flags. All keys is `([0], [0])`.
/// The prefix range of `p` is `(p, prefix_end(p))`, and all keys when `p` is
/// empty or every byte of it is `0xff`. The from-key range of `k` is
/// `(k, [0])`, an empty `k` read as `[0]`. The builders set at most one
/// flag; all-keys goes first, then prefix, then from-key.
pub open spec fn resolved_range(
    key: Seq<u8>,
    range_end: Seq<u8>,
    all_keys: bool,
    prefix: bool,
    from_key: bool,
) -> (Seq<u8>, Seq<u8>) {
    if all_keys {
        (seq![0u8], seq![0u8])
    } else if prefix {
        if key.len() == 0 || all_ff(key) {
            (seq![0u8], seq![0u8])
        } else {
            (key, prefix_end(key))
        }
    } else if from_key {
        (if key.len() == 0 {
            seq![0u8]
        } else {
            key
        }, seq![0u8])
    } else {
        (key, range_end)
    }
}

/// Whether every byte of `p` is `0xff`.
fn is_all_ff(p: &[u8]) -> (r: bool)
    ensures
        r == all_ff(p@),
{
    let mut i: usize = 0;
    while i < p.len()
        invariant
            i <= p@.len(),
            forall|j: int| 0 <= j < i ==> p@[j] == 0xffu8,
        decreases p@.len() - i,
    {
        if p[i] != 0xff {
            return false;
        }
        i = i + 1;
    }
    true
}

/// Applies the all-keys, prefix and from-key flags to a key and end marker.
fn resolve_range(key: Vec<u8>, range_end: Vec<u8>, all_keys: bool, prefix: bool, from_key: bool) -> (r: (
    Vec<u8>,
    Vec<u8>,
))
    ensures
        (r.0@, r.1@) == resolved_range(key@, range_end@, all_keys, prefix, from_key),
{
    if all_keys {
        (vec![0u8], vec![0u8])
    } else if prefix {
        if key.len() == 0 || is_all_ff(key.as_slice()) {
            (vec![0u8], vec![0u8])
        } else {
            let end = KeyRange::get_prefix(key.as_slice());
            (key, end)
        }
    } else if from_key {
        if key.len() == 0 {
            (vec![0u8], vec![0u8])
        } else {
            (key, vec![0u8])
        }
    } else {
        (key, range_end)
    }
}

/// Options of a range read.
#[derive(Debug)]
pub struct RangeOptions {
    /// The request, before the flags below are applied.
    pub inner: RangeRequest,
    /// Read every key.
    pub all_keys: bool,
    /// Read the keys that start with the key.
    pub prefix: bool,
    /// Read the keys from the key on.
    pub from_key: bool,
}

impl RangeOptions {
    /// Options with every field zero, empty or unset.
    pub fn new() -> (r: RangeOptions)
        ensures
            r.inner.key@.len() == 0,
            r.inner.range_end@.len() == 0,
            r.inner.limit == 0,
            r.inner.revision == 0,
            r.inner.sort_order == SortOrder::Unsorted,
            r.inner.sort_target == SortTarget::Key,
            !r.inner.serializable,
            !r.inner.keys_only,
            !r.inner.count_only,
            r.inner.min_mod_revision == 0,
            r.inner.max_mod_revision == 0,
            r.inner.min_create_revision == 0,
            r.inner.max_create_revision == 0,
            !r.all_keys,
            !r.prefix,
            !r.from_key,
    {
        RangeOptions {
            inner: RangeRequest {
                key: Vec::new(),
                range_end: Vec::new(),
                limit: 0,
                revision: 0,
                sort_order: SortOrder::Unsorted,
                sort_target: SortTarget::Key,
                serializable: false,
                keys_only: false,
                count_only: false,
                min_mod_revision: 0,
                max_mod_revision: 0,
                min_create_revision: 0,
                max_create_revision: 0,
            },
            all_keys: false,
            prefix: false,
            from_key: false,
        }
    }

    /// Sets the key.
    pub fn with_key(self, key: Vec<u8>) -> (r: RangeOptions)
        ensures
            r == (RangeOptions { inner: RangeRequest { key: key, ..self.inner }, ..self }),
    {
        let mut s = self;
        s.inner.key = key;
        s
    }

    /// Sets the end marker, and clears the all-keys, prefix and from-key flags.
    pub fn with_range_end(self, range_end: Vec<u8>) -> (r: RangeOptions)
        ensures
            r == (RangeOptions {
                inner: RangeRequest { range_end: range_end, ..self.inner },
                all_keys: false,
                prefix: false,
                from_key: false,
            }),
    {
        let mut s = self;
        s.all_keys = false;
        s.prefix = false;
        s.from_key = false;
        s.inner.range_end = range_end;
        s
    }

    /// Sets the limit.
    pub fn with_limit(self, limit: i64) -> (r: RangeOptions)
        ensures
            r == (RangeOptions { inner: RangeRequest { limit: limit, ..self.inner }, ..self }),
    {
        let mut s = self;
        s.inner.limit = limit;
        s
    }

    /// Sets the revision to read at.
    pub fn with_revision(self, revision: i64) -> (r: RangeOptions)
        ensures
            r == (RangeOptions { inner: RangeRequest { revision: revision, ..self.inner }, ..self }),
    {
        let mut s = self;
        s.inner.revision = revision;
        s
    }

    /// Sets the sort order.
    pub fn with_sort_order(self, sort_order: SortOrder) -> (r: RangeOptions)
        ensures
            r == (RangeOptions {
                inner: RangeRequest { sort_order: sort_order, ..self.inner },
                ..self
            }),
    {
        let mut s = self;
        s.inner.sort_order = sort_order;
        s
    }

    /// Sets the sort target.
    pub fn with_sort_target(self, sort_target: SortTarget) -> (r: RangeOptions)
        ensures
            r == (RangeOptions {
                inner: RangeRequest { sort_target: sort_target, ..self.inner },
                ..self
            }),
    {
        let mut s = self;
        s.inner.sort_target = sort_target;
        s
    }

    /// Sets whether a local read is enough.
    pub fn with_serializable(self, serializable: bool) -> (r: RangeOptions)
        ensures
            r == (RangeOptions {
                inner: RangeRequest { serializable: serializable, ..self.inner },
                ..self
            }),
    {
        let mut s = self;
        s.inner.serializable = serializable;
        s
    }

    /// Sets whether values are left out.
    pub fn with_keys_only(self, keys_only: bool) -> (r: RangeOptions)
        ensures
            r == (RangeOptions { inner: RangeRequest { keys_only: keys_only, ..self.inner }, ..self }),
    {
        let mut s = self;
        s.inner.keys_only = keys_only;
        s
    }

    /// Sets whether only the count is returned.
    pub fn with_count_only(self, count_only: bool) -> (r: RangeOptions)
        ensures
            r == (RangeOptions {
                inner: RangeRequest { count_only: count_only, ..self.inner },
                ..self
            }),
    {
        let mut s = self;
        s.inner.count_only = count_only;
        s
    }

    /// Sets the lower bound on the modification revision.
    pub fn with_min_mod_revision(self, revision: i64) -> (r: RangeOptions)
        ensures
            r == (RangeOptions {
                inner: RangeRequest { min_mod_revision: revision, ..self.inner },
                ..self
            }),
    {
        let mut s = self;
        s.inner.min_mod_revision = revision;
        s
    }

    /// Sets the upper bound on the modification revision.
    pub fn with_max_mod_revision(self, revision: i64) -> (r: RangeOptions)
        ensures
            r == (RangeOptions {
                inner: RangeRequest { max_mod_revision: revision, ..self.inner },
                ..self
            }),
    {
        let mut s = self;
        s.inner.max_mod_revision = revision;
        s
    }

    /// Sets the lower bound on the creation revision.
    pub fn with_min_create_revision(self, revision: i64) -> (r: RangeOptions)
        ensures
            r == (RangeOptions {
                inner: RangeRequest { min_create_revision: revision, ..self.inner },
                ..self
            }),
    {
        let mut s = self;
        s.inner.min_create_revision = revision;
        s
    }

    /// Sets the upper bound on the creation revision.
    pub fn with_max_create_revision(self, revision: i64) -> (r: RangeOptions)
        ensures
            r == (RangeOptions {
                inner: RangeRequest { max_create_revision: revision, ..self.inner },
                ..self
            }),
    {
        let mut s = self;
        s.inner.max_create_revision = revision;
        s
    }

    /// Reads every key.
    pub fn with_all_keys(self) -> (r: RangeOptions)
        ensures
            r == (RangeOptions { all_keys: true, prefix: false, from_key: false, ..self }),
    {
        let mut s = self;
        s.all_keys = true;
        s.prefix = false;
        s.from_key = false;
        s
    }

    /// Reads the keys that start with the key.
    pub fn with_prefix(self) -> (r: RangeOptions)
        ensures
            r == (RangeOptions { all_keys: false, prefix: true, from_key: false, ..self }),
    {
        let mut s = self;
        s.all_keys = false;
        s.prefix = true;
        s.from_key = false;
        s
    }

    /// Reads the keys from the key on.
    pub fn with_from_key(self) -> (r: RangeOptions)
        ensures
            r == (RangeOptions { all_keys: false, prefix: false, from_key: true, ..self }),
    {
        let mut s = self;
        s.all_keys = false;
        s.prefix = false;
        s.from_key = true;
        s
    }

    /// The request these options describe, with the flags applied to its
    /// key and end marker.
    pub fn into_request(self) -> (r: RangeRequest)
        ensures
            (r.key@, r.range_end@) == resolved_range(
                self.inner.key@,
                self.inner.range_end@,
                self.all_keys,
                self.prefix,
                self.from_key,
            ),
            r == (RangeRequest { key: r.key, range_end: r.range_end, ..self.inner }),
    {
        let RangeOptions { inner, all_keys, prefix, from_key } = self;
        let RangeRequest {
            key,
            range_end,
            limit,
            revision,
            sort_order,
            sort_target,
            serializable,
            keys_only,
            count_only,
            min_mod_revision,
            max_mod_revision,
            min_create_revision,
            max_create_revision,
        } = inner;
        let (key, range_end) = resolve_range(key, range_end, all_keys, prefix, from_key);
        RangeRequest {
            key,
            range_end,
            limit,
            revision,
            sort_order,
            sort_target,
            serializable,
            keys_only,
            count_only,
            min_mod_revision,
            max_mod_revision,
            min_create_revision,
            max_create_revision,
        }
    }
}

/// Options of a range delete.
#[derive(Debug)]
pub struct DeleteRangeOptions {
    /// The request, before the flags below are applied.
    pub inner: DeleteRangeRequest,
    /// Delete every key.
    pub all_keys: bool,
    /// Delete the keys that start with the key.
    pub prefix: bool,
    /// Delete the keys from the key on.
    pub from_key: bool,
}

impl DeleteRangeOptions {
    /// Options with every field empty or unset.
    pub fn new() -> (r: DeleteRangeOptions)
        ensures
            r.inner.key@.len() == 0,
            r.inner.range_end@.len() == 0,
            !r.inner.prev_kv,
            !r.all_keys,
            !r.prefix,
            !r.from_key,
    {
        DeleteRangeOptions {
            inner: DeleteRangeRequest { key: Vec::new(), range_end: Vec::new(), prev_kv: false },
            all_keys: false,
            prefix: false,
            from_key: false,
        }
    }

    /// Sets the key.
    pub fn with_key(self, key: Vec<u8>) -> (r: DeleteRangeOptions)
        ensures
            r == (DeleteRangeOptions {
                inner: DeleteRangeRequest { key: key, ..self.inner },
                ..self
            }),
    {
        let mut s = self;
        s.inner.key = key;
        s
    }

    /// Sets the end marker, and clears the all-keys, prefix and from-key flags.
    pub fn with_range_end(self, range_end: Vec<u8>) -> (r: DeleteRangeOptions)
        ensures
            r == (DeleteRangeOptions {
                inner: DeleteRangeRequest { range_end: range_end, ..self.inner },
                all_keys: false,
                prefix: false,
                from_key: false,
            }),
    {
        let mut s = self;
        s.all_keys = false;
        s.prefix = false;
        s.from_key = false;
        s.inner.range_end = range_end;
        s
    }

    /// Sets whether the deleted records are returned.
    pub fn with_prev_kv(self, prev_kv: bool) -> (r: DeleteRangeOptions)
        ensures
            r == (DeleteRangeOptions {
                inner: DeleteRangeRequest { prev_kv: prev_kv, ..self.inner },
                ..self
            }),
    {
        let mut s = self;
        s.inner.prev_kv = prev_kv;
        s
    }

    /// Deletes every key.
    pub fn with_all_keys(self) -> (r: DeleteRangeOptions)
        ensures
            r == (DeleteRangeOptions { all_keys: true, prefix: false, from_key: false, ..self }),
    {
        let mut s = self;
        s.all_keys = true;
        s.prefix = false;
        s.from_key = false;
        s
    }

    /// Deletes the keys that start with the key.
    pub fn with_prefix(self) -> (r: DeleteRangeOptions)
        ensures
            r == (DeleteRangeOptions { all_keys: false, prefix: true, from_key: false, ..self }),
    {
        let mut s = self;
        s.all_keys = false;
        s.prefix = true;
        s.from_key = false;
        s
    }

    /// Deletes the keys from the key on.
    pub fn with_from_key(self) -> (r: DeleteRangeOptions)
        ensures
            r == (DeleteRangeOptions { all_keys: false, prefix: false, from_key: true, ..self }),
    {
        let mut s = self;
        s.all_keys = false;
        s.prefix = false;
        s.from_key = true;
        s
    }

    /// The request these options describe, with the flags applied to its
    /// key and end marker.
    pub fn into_request(self) -> (r: DeleteRangeRequest)
        ensures
            (r.key@, r.range_end@) == resolved_range(
                self.inner.key@,
                self.inner.range_end@,
                self.all_keys,
                self.prefix,
                self.from_key,
            ),
            r.prev_kv == self.inner.prev_kv,
    {
        let DeleteRangeOptions { inner, all_keys, prefix, from_key } = self;
        let DeleteRangeRequest { key, range_end, prev_kv } = inner;
        let (key, range_end) = resolve_range(key, range_end, all_keys, prefix, from_key);
        DeleteRangeRequest { key, range_end, prev_kv }
    }
}

/// Builder of a transaction.
#[derive(Debug)]
pub struct Txn {
    /// The request built so far.
    pub inner: TxnRequest,
    /// Whether the guards are set.
    pub c_when: bool,
    /// Whether the success branch is set.
    pub c_then: bool,
    /// Whether the failure branch is set.
    pub c_else: bool,
}

impl Txn {
    /// A transaction with no guards and empty branches.
    pub fn new() -> (r: Txn)
        ensures
            r.inner.compare@.len() == 0,
            r.inner.success@.len() == 0,
            r.inner.failure@.len() == 0,
            !r.c_when,
            !r.c_then,
            !r.c_else,
    {
        Txn {
            inner: TxnRequest { compare: Vec::new(), success: Vec::new(), failure: Vec::new() },
            c_when: false,
            c_then: false,
            c_else: false,
        }
    }

    /// Sets the guards; allowed once, before either branch.
    pub fn when(self, compare: Vec<Compare>) -> (r: Txn)
        requires
            !self.c_when,
            !self.c_then,
            !self.c_else,
        ensures
            r == (Txn { inner: TxnRequest { compare: compare, ..self.inner }, c_when: true, ..self }),
    {
        let mut s = self;
        s.inner.compare = compare;
        s.c_when = true;
        s
    }

    /// Sets the success branch; allowed once, before the failure branch.
    pub fn and_then(self, success: Vec<RequestOp>) -> (r: Txn)
        requires
            !self.c_then,
            !self.c_else,
        ensures
            r == (Txn { inner: TxnRequest { success: success, ..self.inner }, c_then: true, ..self }),
    {
        let mut s = self;
        s.inner.success = success;
        s.c_then = true;
        s
    }

    /// Sets the failure branch; allowed once.
    pub fn or_else(self, failure: Vec<RequestOp>) -> (r: Txn)
        requires
            !self.c_else,
        ensures
            r == (Txn { inner: TxnRequest { failure: failure, ..self.inner }, c_else: true, ..self }),
    {
        let mut s = self;
        s.inner.failure = failure;
        s.c_else = true;
        s
    }

    /// The request built.
    pub fn into_request(self) -> (r: TxnRequest)
        ensures
            r == self.inner,
    {
        self.inner
    }
}

/// Options of a compaction.
#[derive(Debug)]
pub struct CompactionOptions(pub CompactionRequest);

impl CompactionOptions {
    /// Options with revision `0`, not physical.
    pub fn new() -> (r: CompactionOptions)
        ensures
            r.0 == (CompactionRequest { revision: 0, physical: false }),
    {
        CompactionOptions(CompactionRequest { revision: 0, physical: false })
    }

    /// Sets the revision.
    pub fn with_revision(self, revision: i64) -> (r: CompactionOptions)
        ensures
            r.0 == (CompactionRequest { revision: revision, ..self.0 }),
    {
        let mut s = self;
        s.0.revision = revision;
        s
    }

    /// Waits for the records to leave storage.
    pub fn with_physical(self) -> (r: CompactionOptions)
        ensures
            r.0 == (CompactionRequest { physical: true, ..self.0 }),
    {
        let mut s = self;
        s.0.physical = true;
        s
    }

    /// The request these options describe.
    pub fn into_request(self) -> (r: CompactionRequest)
        ensures
            r == self.0,
    {
        self.0
    }
}

} // verus!
