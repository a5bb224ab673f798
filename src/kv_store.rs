//! The key-value store's write path: revisions, the revision index, and the
//! records it writes to table `kv` of the storage engine.
use vstd::prelude::*;

use crate::engine::{apply_op, apply_ops, names_missing_table, op_table, EngineError, MemoryEngine, WriteOperation};
use crate::bytes::lex_lt;
use crate::entries::{copy_bytes, entries_map, sorted_keys};
use crate::index::{live_rev, Index, IndexError, IndexRecord, Revision};
use crate::key_range::KeyRange;
use crate::query::{answer_range, filtered, kvs_view, range_result, RangeResponse};
use crate::rpc::{events_view, Event, EventType, EventView, KeyValue, KeyValueView, PutRequest, RangeRequest};

verus! {

/// The eight bytes of `x`, most significant first.
pub open spec fn u64_bytes(x: u64) -> Seq<u8> {
    seq![
        (x >> 56u64) as u8,
        (x >> 48u64) as u8,
        (x >> 40u64) as u8,
        (x >> 32u64) as u8,
        (x >> 24u64) as u8,
        (x >> 16u64) as u8,
        (x >> 8u64) as u8,
        x as u8,
    ]
}

/// The key under which the record of revision `r` is stored: `main` then
/// `sub`, each in eight bytes, most significant first, so that byte order
/// follows revision order.
pub open spec fn revision_bytes(r: Revision) -> Seq<u8> {
    u64_bytes(r.main as u64) + u64_bytes(r.sub as u64)
}

/// The stored form of a record: the key and the value each after its
/// length, the integers in eight bytes, most significant first.
pub open spec fn record_bytes(kv: KeyValueView) -> Seq<u8> {
    u64_bytes(kv.key.len() as u64) + kv.key + u64_bytes(kv.create_revision as u64) + u64_bytes(
        kv.mod_revision as u64,
    ) + u64_bytes(kv.version as u64) + u64_bytes(kv.value.len() as u64) + kv.value + u64_bytes(
        kv.lease as u64,
    )
}

/// Appends the eight bytes of `x`, most significant first.
fn push_u64(out: &mut Vec<u8>, x: u64)
    ensures
        final(out)@ == old(out)@ + u64_bytes(x),
{
    out.push((x >> 56u64) as u8);
    out.push((x >> 48u64) as u8);
    out.push((x >> 40u64) as u8);
    out.push((x >> 32u64) as u8);
    out.push((x >> 24u64) as u8);
    out.push((x >> 16u64) as u8);
    out.push((x >> 8u64) as u8);
    out.push(x as u8);
    assert(final(out)@ =~= old(out)@ + u64_bytes(x));
}

/// Appends `b`.
fn push_bytes(out: &mut Vec<u8>, b: &Vec<u8>)
    ensures
        final(out)@ == old(out)@ + b@,
{
    let ghost start = out@;
    let mut i: usize = 0;
    while i < b.len()
        invariant
            i <= b@.len(),
            out@ == start + b@.subrange(0, i as int),
        decreases b@.len() - i,
    {
        out.push(b[i]);
        i = i + 1;
        assert(out@ =~= start + b@.subrange(0, i as int));
    }
    assert(b@.subrange(0, i as int) =~= b@);
}

/// The storage key of revision `r`.
pub fn encode_revision(r: Revision) -> (b: Vec<u8>)
    ensures
        b@ == revision_bytes(r),
{
    let mut out: Vec<u8> = Vec::new();
    push_u64(&mut out, r.main as u64);
    push_u64(&mut out, r.sub as u64);
    assert(out@ =~= revision_bytes(r));
    out
}

/// The stored form of `kv`.
pub fn encode_record(kv: &KeyValue) -> (b: Vec<u8>)
    ensures
        b@ == record_bytes(kv@),
{
    let mut out: Vec<u8> = Vec::new();
    push_u64(&mut out, kv.key.len() as u64);
    push_bytes(&mut out, &kv.key);
    push_u64(&mut out, kv.create_revision as u64);
    push_u64(&mut out, kv.mod_revision as u64);
    push_u64(&mut out, kv.version as u64);
    push_u64(&mut out, kv.value.len() as u64);
    push_bytes(&mut out, &kv.value);
    push_u64(&mut out, kv.lease as u64);
    assert(out@ =~= record_bytes(kv@));
    out
}

/// The integer whose eight bytes, most significant first, start `b` at `at`.
pub open spec fn u64_at(b: Seq<u8>, at: int) -> u64 {
    ((b[at] as u64) << 56u64) | ((b[at + 1] as u64) << 48u64) | ((b[at + 2] as u64) << 40u64) | ((
    b[at + 3] as u64) << 32u64) | ((b[at + 4] as u64) << 24u64) | ((b[at + 5] as u64) << 16u64) | ((
    b[at + 6] as u64) << 8u64) | (b[at + 7] as u64)
}

proof fn lemma_u64_bytes_inverse(x: u64, b: Seq<u8>, at: int)
    requires
        0 <= at,
        at + 8 <= b.len(),
        b.subrange(at, at + 8) == u64_bytes(x),
    ensures
        u64_at(b, at) == x,
{
    let s = b.subrange(at, at + 8);
    assert(b[at] == s[0] && b[at + 1] == s[1] && b[at + 2] == s[2] && b[at + 3] == s[3]);
    assert(b[at + 4] == s[4] && b[at + 5] == s[5] && b[at + 6] == s[6] && b[at + 7] == s[7]);
    assert(((((x >> 56u64) as u8) as u64) << 56u64) | ((((x >> 48u64) as u8) as u64) << 48u64) | ((((x
        >> 40u64) as u8) as u64) << 40u64) | ((((x >> 32u64) as u8) as u64) << 32u64) | ((((x
        >> 24u64) as u8) as u64) << 24u64) | ((((x >> 16u64) as u8) as u64) << 16u64) | ((((x
        >> 8u64) as u8) as u64) << 8u64) | ((x as u8) as u64) == x) by (bit_vector);
}

/// The integer in the eight bytes of `b` from `at` on.
fn read_u64(b: &[u8], at: usize) -> (r: u64)
    requires
        at + 8 <= b@.len(),
    ensures
        r == u64_at(b@, at as int),
{
    ((b[at] as u64) << 56u64) | ((b[at + 1] as u64) << 48u64) | ((b[at + 2] as u64) << 40u64) | ((
    b[at + 3] as u64) << 32u64) | ((b[at + 4] as u64) << 24u64) | ((b[at + 5] as u64) << 16u64) | ((
    b[at + 6] as u64) << 8u64) | (b[at + 7] as u64)
}

/// The bytes of `b` in `[from, to)`.
fn slice_bytes(b: &[u8], from: usize, to: usize) -> (r: Vec<u8>)
    requires
        from <= to <= b@.len(),
    ensures
        r@ == b@.subrange(from as int, to as int),
{
    let mut out: Vec<u8> = Vec::new();
    let mut i: usize = from;
    while i < to
        invariant
            from <= i <= to <= b@.len(),
            out@ == b@.subrange(from as int, i as int),
        decreases to - i,
    {
        out.push(b[i]);
        i = i + 1;
        assert(out@ =~= b@.subrange(from as int, i as int));
    }
    out
}

proof fn lemma_i64_u64(x: i64)
    ensures
        (x as u64) as i64 == x,
{
    assert((x as u64) as i64 == x) by (bit_vector);
}

/// Where the fields of a stored record stand.
proof fn lemma_record_layout(kv: KeyValueView)
    requires
        kv.key.len() + kv.value.len() + 48 <= u64::MAX,
    ensures
        ({
            let b = record_bytes(kv);
            let kl = kv.key.len() as int;
            let vl = kv.value.len() as int;
            &&& b.len() == kl + vl + 48
            &&& u64_at(b, 0) == kl
            &&& b.subrange(8, 8 + kl) == kv.key
            &&& u64_at(b, 8 + kl) == kv.create_revision as u64
            &&& u64_at(b, 16 + kl) == kv.mod_revision as u64
            &&& u64_at(b, 24 + kl) == kv.version as u64
            &&& u64_at(b, 32 + kl) == vl
            &&& b.subrange(40 + kl, 40 + kl + vl) == kv.value
            &&& u64_at(b, 40 + kl + vl) == kv.lease as u64
        }),
{
    let b = record_bytes(kv);
    let kl = kv.key.len() as int;
    let vl = kv.value.len() as int;
    let c0 = u64_bytes(kv.key.len() as u64);
    let c1 = c0 + kv.key;
    let c2 = c1 + u64_bytes(kv.create_revision as u64);
    let c3 = c2 + u64_bytes(kv.mod_revision as u64);
    let c4 = c3 + u64_bytes(kv.version as u64);
    let c5 = c4 + u64_bytes(kv.value.len() as u64);
    let c6 = c5 + kv.value;
    assert(b == c6 + u64_bytes(kv.lease as u64));
    assert(b.subrange(0, 8) =~= u64_bytes(kv.key.len() as u64));
    lemma_u64_bytes_inverse(kv.key.len() as u64, b, 0);
    assert(b.subrange(8, 8 + kl) =~= kv.key);
    assert(b.subrange(8 + kl, 16 + kl) =~= u64_bytes(kv.create_revision as u64));
    lemma_u64_bytes_inverse(kv.create_revision as u64, b, 8 + kl);
    assert(b.subrange(16 + kl, 24 + kl) =~= u64_bytes(kv.mod_revision as u64));
    lemma_u64_bytes_inverse(kv.mod_revision as u64, b, 16 + kl);
    assert(b.subrange(24 + kl, 32 + kl) =~= u64_bytes(kv.version as u64));
    lemma_u64_bytes_inverse(kv.version as u64, b, 24 + kl);
    assert(b.subrange(32 + kl, 40 + kl) =~= u64_bytes(kv.value.len() as u64));
    lemma_u64_bytes_inverse(kv.value.len() as u64, b, 32 + kl);
    assert(b.subrange(40 + kl, 40 + kl + vl) =~= kv.value);
    assert(b.subrange(40 + kl + vl, 48 + kl + vl) =~= u64_bytes(kv.lease as u64));
    lemma_u64_bytes_inverse(kv.lease as u64, b, 40 + kl + vl);
}

/// Where the fields stand in any stored form of a record that `b` is.
proof fn lemma_stored_fields(b: Seq<u8>)
    requires
        b.len() <= usize::MAX,
    ensures
        forall|kv: KeyValueView| #[trigger] record_bytes(kv) == b ==> {
            let kl = kv.key.len() as int;
            let vl = kv.value.len() as int;
            &&& b.len() == kl + vl + 48
            &&& u64_at(b, 0) == kl
            &&& b.subrange(8, 8 + kl) == kv.key
            &&& u64_at(b, 8 + kl) == kv.create_revision as u64
            &&& u64_at(b, 16 + kl) == kv.mod_revision as u64
            &&& u64_at(b, 24 + kl) == kv.version as u64
            &&& u64_at(b, 32 + kl) == vl
            &&& b.subrange(40 + kl, 40 + kl + vl) == kv.value
            &&& u64_at(b, 40 + kl + vl) == kv.lease as u64
        },
{
    assert forall|kv: KeyValueView| #[trigger] record_bytes(kv) == b implies {
        let kl = kv.key.len() as int;
        let vl = kv.value.len() as int;
        &&& b.len() == kl + vl + 48
        &&& u64_at(b, 0) == kl
        &&& b.subrange(8, 8 + kl) == kv.key
        &&& u64_at(b, 8 + kl) == kv.create_revision as u64
        &&& u64_at(b, 16 + kl) == kv.mod_revision as u64
        &&& u64_at(b, 24 + kl) == kv.version as u64
        &&& u64_at(b, 32 + kl) == vl
        &&& b.subrange(40 + kl, 40 + kl + vl) == kv.value
        &&& u64_at(b, 40 + kl + vl) == kv.lease as u64
    } by {
        assert(record_bytes(kv).len() == kv.key.len() + kv.value.len() + 48);
        lemma_record_layout(kv);
    }
}

/// Fields read from where the stored form puts them make up every record
/// whose stored form `b` is.
proof fn lemma_decoded_is_unique(b: Seq<u8>, kv: KeyValueView)
    requires
        b.len() <= usize::MAX,
        b.len() >= 48,
        u64_at(b, 0) <= b.len() - 48,
        kv.key == b.subrange(8, 8 + u64_at(b, 0)),
        kv.create_revision == u64_at(b, 8 + u64_at(b, 0)) as i64,
        kv.mod_revision == u64_at(b, 16 + u64_at(b, 0)) as i64,
        kv.version == u64_at(b, 24 + u64_at(b, 0)) as i64,
        kv.value == b.subrange(40 + u64_at(b, 0), 40 + u64_at(b, 0) + u64_at(b, 32 + u64_at(b, 0))),
        kv.lease == u64_at(b, 40 + u64_at(b, 0) + u64_at(b, 32 + u64_at(b, 0))) as i64,
    ensures
        forall|x: KeyValueView| #[trigger] record_bytes(x) == b ==> kv == x,
{
    lemma_stored_fields(b);
    assert forall|x: KeyValueView| #[trigger] record_bytes(x) == b implies kv == x by {
        lemma_i64_u64(x.create_revision);
        lemma_i64_u64(x.mod_revision);
        lemma_i64_u64(x.version);
        lemma_i64_u64(x.lease);
    }
}

/// The record that `b` stores, when `b` is the stored form of one.
pub fn decode_record(b: &[u8]) -> (r: Option<KeyValue>)
    ensures
        forall|kv: KeyValueView| #[trigger] record_bytes(kv) == b@ ==> (r matches Some(d) && d@ == kv),
{
    let n = b.len();
    proof {
        lemma_stored_fields(b@);
    }
    if n < 48 {
        return None;
    }
    let key_len = read_u64(b, 0);
    if key_len > (n - 48) as u64 {
        return None;
    }
    let k_end = 8 + key_len as usize;
    let key = slice_bytes(b, 8, k_end);
    let create_revision = read_u64(b, k_end) as i64;
    let mod_revision = read_u64(b, k_end + 8) as i64;
    let version = read_u64(b, k_end + 16) as i64;
    let value_len = read_u64(b, k_end + 24);
    if value_len != (n - k_end - 40) as u64 {
        return None;
    }
    let v_end = k_end + 32 + value_len as usize;
    let value = slice_bytes(b, k_end + 32, v_end);
    let lease = read_u64(b, v_end) as i64;
    let kv = KeyValue { key, create_revision, mod_revision, version, value, lease };
    proof {
        lemma_decoded_is_unique(b@, kv@);
    }
    Some(kv)
}

/// Table `kv` holds what index record `rec` of `key` says: under its
/// revision, the record of that write, or for a delete the delete record;
/// and a write has a version of at least one.
pub open spec fn stored(t: Map<Seq<u8>, Seq<u8>>, key: Seq<u8>, rec: IndexRecord) -> bool {
    &&& t.contains_key(revision_bytes(rec.rev))
    &&& rec.tombstone ==> t[revision_bytes(rec.rev)] == record_bytes(tombstone_view(key, rec.rev.main))
    &&& !rec.tombstone ==> rec.version >= 1
    &&& !rec.tombstone ==> exists|kv: KeyValueView|
        #[trigger] record_bytes(kv) == t[revision_bytes(rec.rev)] && kv.key == key && kv.create_revision
            == rec.create_rev && kv.mod_revision == rec.rev.main && kv.version == rec.version
}

proof fn lemma_revision_bytes_injective(a: Revision, b: Revision)
    requires
        revision_bytes(a) == revision_bytes(b),
    ensures
        a == b,
{
    let s = revision_bytes(a);
    assert(s.subrange(0, 8) =~= u64_bytes(a.main as u64));
    assert(s.subrange(8, 16) =~= u64_bytes(a.sub as u64));
    assert(s.subrange(0, 8) =~= u64_bytes(b.main as u64));
    assert(s.subrange(8, 16) =~= u64_bytes(b.sub as u64));
    lemma_u64_bytes_inverse(a.main as u64, s, 0);
    lemma_u64_bytes_inverse(b.main as u64, s, 0);
    lemma_u64_bytes_inverse(a.sub as u64, s, 8);
    lemma_u64_bytes_inverse(b.sub as u64, s, 8);
    lemma_i64_u64(a.main);
    lemma_i64_u64(b.main);
    lemma_i64_u64(a.sub);
    lemma_i64_u64(b.sub);
}

/// A record that table `t` holds stays held when an entry under a
/// later revision is added.
proof fn lemma_stored_after_insert(t: Map<Seq<u8>, Seq<u8>>, key: Seq<u8>, rec: IndexRecord, r: Revision, b: Seq<u8>)
    requires
        stored(t, key, rec),
        rec.rev != r,
    ensures
        stored(t.insert(revision_bytes(r), b), key, rec),
{
    if revision_bytes(rec.rev) == revision_bytes(r) {
        lemma_revision_bytes_injective(rec.rev, r);
    }
    let t2 = t.insert(revision_bytes(r), b);
    assert(t2[revision_bytes(rec.rev)] == t[revision_bytes(rec.rev)]);
    if !rec.tombstone {
        let w = choose|kv: KeyValueView|
            #[trigger] record_bytes(kv) == t[revision_bytes(rec.rev)] && kv.key == key && kv.create_revision
                == rec.create_rev && kv.mod_revision == rec.rev.main && kv.version == rec.version;
        assert(record_bytes(w) == t2[revision_bytes(rec.rev)]);
    }
}

/// Every record of `idx` lies at or before revision `main`, and, at `main`,
/// below sub-revision `sub`; no version exceeds its record's revision; and
/// table `t` holds every record.
pub open spec fn records_ok(idx: Index, t: Map<Seq<u8>, Seq<u8>>, main: i64, sub: int) -> bool {
    forall|k: Seq<u8>, j: int|
        #![trigger idx.history(k)[j]]
        0 <= j < idx.history(k).len() ==> {
            &&& idx.history(k)[j].rev.main <= main
            &&& idx.history(k)[j].version <= idx.history(k)[j].rev.main
            &&& stored(t, k, idx.history(k)[j])
            &&& (idx.history(k)[j].rev.main < main || idx.history(k)[j].rev.sub < sub)
        }
}

proof fn lemma_tombstone_step(a: Index, b: Index, k: Seq<u8>, t: Map<Seq<u8>, Seq<u8>>, main: i64, sub: int)
    requires
        records_ok(a, t, main, sub),
        0 <= sub < i64::MAX,
        1 <= main,
        entries_map(b.model()) == entries_map(a.model()).insert(
            k,
            a.history(k).push(tombstone_record(main, sub)),
        ),
    ensures
        records_ok(
            b,
            t.insert(
                revision_bytes(Revision { main: main, sub: sub as i64 }),
                record_bytes(tombstone_view(k, main)),
            ),
            main,
            sub + 1,
        ),
{
    let r = Revision { main: main, sub: sub as i64 };
    let t2 = t.insert(revision_bytes(r), record_bytes(tombstone_view(k, main)));
    assert forall|kk: Seq<u8>, j: int|
        #![trigger b.history(kk)[j]]
        0 <= j < b.history(kk).len() implies {
            &&& b.history(kk)[j].rev.main <= main
            &&& b.history(kk)[j].version <= b.history(kk)[j].rev.main
            &&& stored(t2, kk, b.history(kk)[j])
            &&& (b.history(kk)[j].rev.main < main || b.history(kk)[j].rev.sub < sub + 1)
        } by {
        if kk != k {
            assert(b.history(kk) == a.history(kk));
            assert(a.history(kk)[j] == b.history(kk)[j]);
            lemma_stored_after_insert(t, kk, a.history(kk)[j], r, record_bytes(tombstone_view(k, main)));
        } else if j < a.history(k).len() {
            assert(b.history(kk)[j] == a.history(k)[j]);
            lemma_stored_after_insert(t, kk, a.history(k)[j], r, record_bytes(tombstone_view(k, main)));
        } else {
            assert(b.history(kk)[j] == tombstone_record(main, sub));
        }
    }
}

/// For a key live now, a plain read of a range at the current revision (no
/// revision bounds, no sort, no limit, values and records asked for)
/// returns the key exactly when the range contains it.
pub proof fn lemma_request_range_semantics(store: KvStore, req: RangeRequest, s: Seq<KeyValueView>, k: Seq<u8>)
    requires
        store.wf(),
        store.index().is_live(k),
        req.revision == 0,
        req.min_mod_revision == 0,
        req.max_mod_revision == 0,
        req.min_create_revision == 0,
        req.max_create_revision == 0,
        req.sort_order == crate::rpc::SortOrder::Unsorted,
        req.limit == 0,
        !req.count_only,
        !req.keys_only,
        store.is_read(req.key@, req.range_end@, 0, s),
    ensures
        (exists|y: int| 0 <= y < range_result(s, req).len() && (#[trigger] range_result(s, req)[y]).key == k)
            <==> crate::key_range::range_contains(req.key@, req.range_end@, k),
{
    let ks = store.index().model();
    crate::query::lemma_unbounded_filter(s, req);
    assert(range_result(s, req) == s);
    let h = store.index().history(k);
    assert(entries_map(ks).contains_key(k));
    let i = choose|i: int| 0 <= i < ks.len() && (#[trigger] ks[i]).0 == k;
    crate::entries::lemma_entries_map_at(ks, i);
    assert(crate::index::record_at(h, i64::MAX) == Some(h.last()));
    crate::index::lemma_range_semantics(ks, req.key@, req.range_end@, k);
    let vis = crate::index::visible(ks, req.key@, req.range_end@, i64::MAX);
    if exists|y: int| 0 <= y < s.len() && (#[trigger] s[y]).key == k {
        let y = choose|y: int| 0 <= y < s.len() && (#[trigger] s[y]).key == k;
        assert(vis[y].0 == k);
    }
    if crate::key_range::range_contains(req.key@, req.range_end@, k) {
        let j = choose|j: int| 0 <= j < vis.len() && (#[trigger] vis[j]).0 == k;
        assert(s[j].key == k);
    }
}

/// A compaction at `c` that leaves table `kv` as it was changes no read at
/// `c` or later: such a read returns the same records before and after.
pub proof fn lemma_compaction_keeps_store_reads(
    before: KvStore,
    after: KvStore,
    c: i64,
    start: Seq<u8>,
    end: Seq<u8>,
    at: i64,
    s: Seq<KeyValueView>,
)
    requires
        before.wf(),
        after.index().model() == crate::index::compact_keys(before.index().model(), c),
        after.storage() == before.storage(),
        c <= crate::index::read_rev(at),
    ensures
        after.is_read(start, end, at, s) <==> before.is_read(start, end, at, s),
{
    let ks = before.index().model();
    let cs = after.index().model();
    let rr = crate::index::read_rev(at);
    crate::index::lemma_compaction_keeps_later_reads(ks, c, start, end, rr);
    crate::index::lemma_visible_entries(ks, start, end, rr);
    let vis = crate::index::visible(ks, start, end, rr);
    assert forall|y: int| 0 <= y < vis.len() implies crate::index::record_at(
        after.index().history(#[trigger] vis[y].0),
        rr,
    ) == crate::index::record_at(before.index().history(vis[y].0), rr) by {
        let x = choose|x: int|
            0 <= x < ks.len() && ks[x].0 == (#[trigger] vis[y]).0 && crate::index::live_rev(ks[x].1, rr)
                == Some(vis[y].1);
        crate::entries::lemma_entries_map_at(ks, x);
        crate::index::lemma_compacted_history_of(ks, c, x, rr);
    }
}

/// Successive successful writes observe strictly increasing revisions:
/// each of `put`, `put_request` and a `delete_range` that deletes leaves
/// the revision one past the one before it, so along a run of such writes
/// every later revision is above every earlier one.
pub proof fn lemma_successive_writes(revs: Seq<i64>)
    requires
        forall|i: int| 0 < i < revs.len() ==> #[trigger] revs[i] == revs[i - 1] + 1,
    ensures
        forall|i: int, j: int| 0 <= i < j < revs.len() ==> #[trigger] revs[i] < #[trigger] revs[j],
    decreases revs.len(),
{
    if revs.len() > 1 {
        let init = revs.drop_last();
        assert forall|i: int| 0 < i < init.len() implies #[trigger] init[i] == init[i - 1] + 1 by {
            assert(init[i] == revs[i] && init[i - 1] == revs[i - 1]);
        }
        lemma_successive_writes(init);
        assert forall|i: int, j: int| 0 <= i < j < revs.len() implies #[trigger] revs[i] < #[trigger] revs[j] by {
            if j < revs.len() - 1 {
                assert(init[i] == revs[i] && init[j] == revs[j]);
            } else if i < j - 1 {
                assert(init[i] == revs[i] && init[j - 1] == revs[j - 1]);
            }
        }
    }
}

/// Errors of the key-value store.
#[derive(Debug)]
pub enum KvError {
    /// The request is malformed, such as a put of an empty key.
    InvalidRequest,
    /// The revision lies at or below the last compaction.
    RevisionCompacted,
    /// The revision lies beyond the current one.
    FutureRevision,
    /// The storage engine failed.
    UnderlyingError(String),
}

/// The table that records go to.
pub open spec fn kv_table() -> Seq<char> {
    seq!['k', 'v']
}

/// The record of a delete of `key` at revision `main`.
pub open spec fn tombstone_view(key: Seq<u8>, main: i64) -> KeyValueView {
    KeyValueView {
        key: key,
        create_revision: 0,
        mod_revision: main,
        version: 0,
        value: Seq::empty(),
        lease: 0,
    }
}

/// The index record of the delete at revision `main`, sub-revision `sub`.
pub open spec fn tombstone_record(main: i64, sub: int) -> IndexRecord {
    IndexRecord { rev: Revision { main: main, sub: sub as i64 }, create_rev: 0, version: 0, tombstone: true }
}

/// Table `kv` after the deletes at `main` of the keys of `live`, the
/// `i`-th at sub-revision `i`.
pub open spec fn with_tombstones(
    t: Map<Seq<u8>, Seq<u8>>,
    live: Seq<(Seq<u8>, Revision)>,
    main: i64,
) -> Map<Seq<u8>, Seq<u8>>
    decreases live.len(),
{
    if live.len() == 0 {
        t
    } else {
        with_tombstones(t, live.drop_last(), main).insert(
            revision_bytes(Revision { main: main, sub: (live.len() - 1) as i64 }),
            record_bytes(tombstone_view(live.last().0, main)),
        )
    }
}

/// The key histories after the deletes at `main` of the keys of `live`.
pub open spec fn histories_tombstoned(
    m: Map<Seq<u8>, Seq<IndexRecord>>,
    live: Seq<(Seq<u8>, Revision)>,
    main: i64,
) -> Map<Seq<u8>, Seq<IndexRecord>>
    decreases live.len(),
{
    if live.len() == 0 {
        m
    } else {
        let prev = histories_tombstoned(m, live.drop_last(), main);
        let k = live.last().0;
        prev.insert(k, prev[k].push(tombstone_record(main, live.len() - 1)))
    }
}

/// The events of the deletes at `main` of the keys of `live`.
pub open spec fn tombstone_events(live: Seq<(Seq<u8>, Revision)>, main: i64) -> Seq<EventView> {
    live.map_values(
        |p: (Seq<u8>, Revision)|
            EventView { event_type: EventType::Delete, kv: tombstone_view(p.0, main), prev_kv: None },
    )
}

proof fn lemma_untouched_history(
    m: Map<Seq<u8>, Seq<IndexRecord>>,
    live: Seq<(Seq<u8>, Revision)>,
    main: i64,
    k: Seq<u8>,
)
    requires
        forall|y: int| 0 <= y < live.len() ==> (#[trigger] live[y]).0 != k,
    ensures
        histories_tombstoned(m, live, main).contains_key(k) == m.contains_key(k),
        m.contains_key(k) ==> histories_tombstoned(m, live, main)[k] == m[k],
    decreases live.len(),
{
    if live.len() > 0 {
        assert forall|y: int| 0 <= y < live.drop_last().len() implies (#[trigger] live.drop_last()[y]).0 != k by {
            assert(live.drop_last()[y] == live[y]);
        }
        lemma_untouched_history(m, live.drop_last(), main, k);
        assert(live.last() == live[live.len() - 1]);
    }
}

/// The key-value store.
#[derive(Debug)]
pub struct KvStore {
    engine: MemoryEngine,
    index: Index,
    revision: i64,
}

impl KvStore {
    /// The revision of the last committed write.
    pub closed spec fn revision(&self) -> i64 {
        self.revision
    }

    /// The revision index.
    pub closed spec fn index(&self) -> Index {
        self.index
    }

    /// What the storage engine holds.
    pub closed spec fn storage(&self) -> Map<Seq<char>, Map<Seq<u8>, Seq<u8>>> {
        self.engine@
    }

    /// The store is well formed: both parts are, table `kv` exists, no
    /// record lies beyond the current revision, no version exceeds the
    /// revision of its record, and table `kv` holds every record.
    pub closed spec fn wf(&self) -> bool {
        &&& self.engine.wf()
        &&& self.index.wf()
        &&& self.engine@.contains_key(kv_table())
        &&& 0 <= self.revision
        &&& forall|k: Seq<u8>, j: int|
            #![trigger self.index.history(k)[j]]
            0 <= j < self.index.history(k).len() ==> {
                &&& self.index.history(k)[j].rev.main <= self.revision
                &&& self.index.history(k)[j].version <= self.index.history(k)[j].rev.main
                &&& stored(self.engine@[kv_table()], k, self.index.history(k)[j])
            }
    }

    /// An empty store at revision `0`, with tables `kv`, `lease` and `auth`.
    pub fn new() -> (r: KvStore)
        ensures
            r.wf(),
            r.revision() == 0,
            r.index().model().len() == 0,
            r.index().compacted() == 0,
    {
        let tables: Vec<&str> = vec!["kv", "lease", "auth"];
        let made = MemoryEngine::new(tables.as_slice());
        assert(made is Ok);
        let engine = made.unwrap();
        let index = Index::new();
        let r = KvStore { engine, index, revision: 0 };
        proof {
            reveal_strlit("kv");
            assert(tables@[0]@ == kv_table());
            assert(crate::engine::names_contain(tables@, kv_table()));
        }
        r
    }

    /// The revision of the last committed write.
    pub fn current_revision(&self) -> (r: i64)
        ensures
            r == self.revision(),
    {
        self.revision
    }

    /// Writes `value` under `key` with `lease` at the next revision: the
    /// index gets the write, table `kv` the record under the revision, and
    /// only then does the current revision advance. Returns the revision
    /// and the event of the write.
    pub fn put(&mut self, key: Vec<u8>, value: Vec<u8>, lease: i64) -> (r: Result<(i64, Event), KvError>)
        requires
            old(self).wf(),
            old(self).revision() < i64::MAX,
        ensures
            final(self).wf(),
            key@.len() == 0 ==> (r matches Err(KvError::InvalidRequest) && *final(self) == *old(self)),
            key@.len() > 0 ==> ({
                let rev = Revision { main: (old(self).revision() + 1) as i64, sub: 0 };
                let h = old(self).index().history(key@);
                let live = old(self).index().is_live(key@);
                let kv = KeyValueView {
                    key: key@,
                    create_revision: if live { h.last().create_rev } else { rev.main },
                    mod_revision: rev.main,
                    version: if live { (h.last().version + 1) as i64 } else { 1 },
                    value: value@,
                    lease: lease,
                };
                &&& r matches Ok((n, e)) && n == rev.main && e@.event_type == EventType::Put && e@.kv == kv
                    && e@.prev_kv is None
                &&& final(self).revision() == old(self).revision() + 1
                &&& final(self).revision() > old(self).revision()
                &&& entries_map(final(self).index().model()) == entries_map(old(self).index().model()).insert(
                    key@,
                    h.push(IndexRecord {
                        rev: rev,
                        create_rev: kv.create_revision,
                        version: kv.version,
                        tombstone: false,
                    }),
                )
                &&& final(self).storage() == old(self).storage().insert(
                    kv_table(),
                    old(self).storage()[kv_table()].insert(revision_bytes(rev), record_bytes(kv)),
                )
            }),
    {
        if key.len() == 0 {
            return Err(KvError::InvalidRequest);
        }
        let main = self.revision + 1;
        let rev = Revision { main, sub: 0 };
        let ghost h = self.index.history(key@);
        proof {
            if self.index.is_live(key@) {
                assert(h[h.len() - 1] == h.last());
            }
        }
        let (_prev, create_revision, version) = self.index.register_revision(copy_bytes(&key), rev);
        let kv = KeyValue { key, create_revision, mod_revision: main, version, value, lease };
        let rev_key = encode_revision(rev);
        let record = encode_record(&kv);
        let ghost rk = rev_key@;
        let ghost rb = record@;
        let op = WriteOperation::new_put("kv", rev_key, record);
        let ghost op_v = op;
        let ops = vec![op];
        let ghost m0 = self.engine@;
        proof {
            reveal_strlit("kv");
            assert(op_table(ops@[0]) == kv_table());
            assert(ops@.drop_last() =~= Seq::<WriteOperation>::empty());
            assert(ops@.last() == op_v);
            assert(!names_missing_table(self.engine@, ops@));
            assert(apply_ops(m0, ops@.drop_last()) == m0);
            assert(apply_ops(m0, ops@) == apply_op(m0, op_v));
            assert(apply_op(m0, op_v) == m0.insert(kv_table(), m0[kv_table()].insert(rk, rb)));
        }
        match self.engine.write_batch(ops, false) {
            Ok(()) => {},
            Err(_) => {
                proof {
                    assert(false);
                }
            },
        }
        self.revision = main;
        proof {
            let t0 = m0[kv_table()];
            assert(self.engine@[kv_table()] == t0.insert(rk, rb));
            assert forall|k: Seq<u8>, j: int|
                #![trigger self.index.history(k)[j]]
                0 <= j < self.index.history(k).len() implies {
                    &&& self.index.history(k)[j].rev.main <= self.revision
                    &&& self.index.history(k)[j].version <= self.index.history(k)[j].rev.main
                    &&& stored(self.engine@[kv_table()], k, self.index.history(k)[j])
                } by {
                if k != key@ {
                    assert(self.index.history(k) == old(self).index.history(k));
                    assert(old(self).index.history(k)[j] == self.index.history(k)[j]);
                    lemma_stored_after_insert(t0, k, self.index.history(k)[j], rev, rb);
                } else if j < h.len() {
                    assert(self.index.history(k)[j] == h[j]);
                    assert(old(self).index.history(k)[j] == h[j]);
                    lemma_stored_after_insert(t0, k, h[j], rev, rb);
                } else {
                    if old(self).index.is_live(key@) {
                        assert(h.last() == h[h.len() - 1]);
                        assert(old(self).index.history(key@)[h.len() - 1] == h.last());
                    }
                    assert(record_bytes(kv@) == self.engine@[kv_table()][rk]);
                }
            }
        }
        let event = Event { event_type: EventType::Put, kv, prev_kv: None };
        Ok((main, event))
    }

    /// Deletes every live key of `range` at the next revision, the `i`-th
    /// key in key order at sub-revision `i`: the index gets a tombstone for
    /// each, table `kv` a delete record for each, and one event is returned
    /// for each. When no key is live in the range nothing changes. Returns
    /// the number of keys deleted and the events; fails when the keys are
    /// too many to number.
    #[verifier::rlimit(40)]
    pub fn delete_range(&mut self, range: &KeyRange) -> (r: Result<(i64, Vec<Event>), KvError>)
        requires
            old(self).wf(),
            old(self).revision() < i64::MAX,
        ensures
            final(self).wf(),
            ({
                let live = crate::index::visible(
                    old(self).index().model(),
                    range.start@,
                    range.end@,
                    i64::MAX,
                );
                let main = (old(self).revision() + 1) as i64;
                &&& live.len() == 0 ==> (r matches Ok((n, evs)) && n == 0 && evs@.len() == 0
                    && *final(self) == *old(self))
                &&& live.len() >= i64::MAX ==> (r matches Err(KvError::InvalidRequest)
                    && *final(self) == *old(self))
                &&& 0 < live.len() < i64::MAX ==> {
                    &&& r matches Ok((n, evs)) && n == live.len() as i64 && events_view(evs@)
                        == tombstone_events(live, main)
                    &&& final(self).revision() == main
                    &&& final(self).revision() > old(self).revision()
                    &&& entries_map(final(self).index().model()) == histories_tombstoned(
                        entries_map(old(self).index().model()),
                        live,
                        main,
                    )
                    &&& final(self).storage() == old(self).storage().insert(
                        kv_table(),
                        with_tombstones(old(self).storage()[kv_table()], live, main),
                    )
                }
            }),
    {
        let ghost ks = self.index.model();
        let ghost m0 = entries_map(ks);
        let ghost e0 = self.engine@;
        let live = match self.index.get(range, 0) {
            Ok(v) => v,
            Err(_) => {
                proof {
                    assert(false);
                }
                return Err(KvError::RevisionCompacted);
            },
        };
        let ghost lv = crate::index::key_revs_view(live@);
        proof {
            crate::index::lemma_visible_entries(ks, range.start@, range.end@, i64::MAX);
        }
        if live.len() == 0 {
            return Ok((0, Vec::new()));
        }
        if live.len() as u64 >= i64::MAX as u64 {
            return Err(KvError::InvalidRequest);
        }
        let main = self.revision + 1;
        let mut ops: Vec<WriteOperation> = Vec::new();
        let mut events: Vec<Event> = Vec::new();
        let mut i: usize = 0;
        while i < live.len()
            invariant
                i <= live@.len() < i64::MAX,
                lv == crate::index::key_revs_view(live@),
                lv == crate::index::visible(ks, range.start@, range.end@, i64::MAX),
                ks == old(self).index.model(),
                m0 == entries_map(ks),
                e0 == old(self).engine@,
                main == old(self).revision + 1,
                1 <= main,
                e0.contains_key(kv_table()),
                self.revision == old(self).revision,
                self.engine == old(self).engine,
                self.index.wf(),
                sorted_keys(ks),
                forall|a: int, b: int| 0 <= a < b < lv.len() ==> lex_lt(#[trigger] lv[a].0, #[trigger] lv[b].0),
                forall|y: int|
                    0 <= y < lv.len() ==> exists|x: int|
                        0 <= x < ks.len() && ks[x].0 == (#[trigger] lv[y]).0 && live_rev(ks[x].1, i64::MAX)
                            == Some(lv[y].1),
                entries_map(self.index.model()) == histories_tombstoned(m0, lv.subrange(0, i as int), main),
                ops@.len() == i,
                forall|j: int| 0 <= j < i ==> op_table(#[trigger] ops@[j]) == kv_table(),
                apply_ops(e0, ops@) == e0.insert(
                    kv_table(),
                    with_tombstones(e0[kv_table()], lv.subrange(0, i as int), main),
                ),
                events_view(events@) == tombstone_events(lv.subrange(0, i as int), main),
                records_ok(
                    self.index,
                    with_tombstones(e0[kv_table()], lv.subrange(0, i as int), main),
                    main,
                    i as int,
                ),
            decreases live@.len() - i,
        {
            let ghost k = lv[i as int].0;
            let ghost cur = self.index;
            proof {
                assert(lv[i as int].0 == live@[i as int].0@);
                let x = choose|x: int|
                    0 <= x < ks.len() && ks[x].0 == (#[trigger] lv[i as int]).0 && live_rev(ks[x].1, i64::MAX)
                        == Some(lv[i as int].1);
                crate::entries::lemma_entries_map_at(ks, x);
                let done = lv.subrange(0, i as int);
                assert forall|y: int| 0 <= y < done.len() implies (#[trigger] done[y]).0 != k by {
                    crate::bytes::lemma_lex_asym(lv[y].0, lv[i as int].0);
                }
                lemma_untouched_history(m0, done, main, k);
                assert(cur.history(k) == ks[x].1);
                let h = ks[x].1;
                if h.len() > 0 {
                    assert(crate::index::record_at(h, i64::MAX) == Some(h.last()));
                }
                assert(cur.is_live(k));
            }
            let sub = i as i64;
            let rev = Revision { main, sub };
            let _ = self.index.tombstone(live[i].0.as_slice(), rev);
            let tomb = KeyValue {
                key: copy_bytes(&live[i].0),
                create_revision: 0,
                mod_revision: main,
                version: 0,
                value: Vec::new(),
                lease: 0,
            };
            let rev_key = encode_revision(rev);
            let record = encode_record(&tomb);
            let ghost rk = rev_key@;
            let ghost rb = record@;
            let op = WriteOperation::new_put("kv", rev_key, record);
            let ghost op_v = op;
            let ghost prev_ops = ops@;
            ops.push(op);
            let ghost prev_events = events_view(events@);
            events.push(Event { event_type: EventType::Delete, kv: tomb, prev_kv: None });
            proof {
                reveal_strlit("kv");
                let done = lv.subrange(0, i as int);
                let next = lv.subrange(0, i + 1);
                assert(next.drop_last() =~= done);
                assert(next.last() == lv[i as int]);
                assert(tomb@.value =~= Seq::<u8>::empty());
                assert(tomb@ == tombstone_view(k, main));
                assert(ops@.drop_last() =~= prev_ops);
                assert(ops@.last() == op_v);
                assert(events_view(events@) =~= prev_events.push(
                    EventView { event_type: EventType::Delete, kv: tombstone_view(k, main), prev_kv: None },
                ));
                assert(tombstone_events(next, main) =~= tombstone_events(done, main).push(
                    EventView { event_type: EventType::Delete, kv: tombstone_view(k, main), prev_kv: None },
                ));
                let before = e0.insert(kv_table(), with_tombstones(e0[kv_table()], done, main));
                assert(apply_ops(e0, ops@) == apply_op(apply_ops(e0, prev_ops), op_v));
                assert(op_table(op_v) == kv_table());
                assert(apply_op(before, op_v) == before.insert(kv_table(), before[kv_table()].insert(rk, rb)));
                assert(before[kv_table()] == with_tombstones(e0[kv_table()], done, main));
                assert(e0.insert(kv_table(), with_tombstones(e0[kv_table()], done, main)).insert(
                    kv_table(),
                    with_tombstones(e0[kv_table()], done, main).insert(
                        revision_bytes(rev),
                        record_bytes(tombstone_view(k, main)),
                    ),
                ) =~= e0.insert(kv_table(), with_tombstones(e0[kv_table()], next, main)));
                lemma_tombstone_step(
                    cur,
                    self.index,
                    k,
                    with_tombstones(e0[kv_table()], done, main),
                    main,
                    i as int,
                );
            }
            i = i + 1;
        }
        proof {
            assert(lv.subrange(0, i as int) =~= lv);
            assert(!names_missing_table(self.engine@, ops@));
        }
        match self.engine.write_batch(ops, false) {
            Ok(()) => {},
            Err(_) => {
                proof {
                    assert(false);
                }
            },
        }
        self.revision = main;
        proof {
            let t = with_tombstones(e0[kv_table()], lv, main);
            assert(self.engine@[kv_table()] == t);
            assert forall|k: Seq<u8>, j: int|
                #![trigger self.index.history(k)[j]]
                0 <= j < self.index.history(k).len() implies {
                    &&& self.index.history(k)[j].rev.main <= self.revision
                    &&& self.index.history(k)[j].version <= self.index.history(k)[j].rev.main
                    &&& stored(self.engine@[kv_table()], k, self.index.history(k)[j])
                } by {
            }
        }
        Ok((live.len() as i64, events))
    }

    /// Whether `s` is what a read of `[start, end)` at `at` returns: for
    /// each key live then, in ascending key order, the record stored under
    /// the revision of its last write at or before `at`.
    pub open spec fn is_read(&self, start: Seq<u8>, end: Seq<u8>, at: i64, s: Seq<KeyValueView>) -> bool {
        let vis = crate::index::visible(self.index().model(), start, end, crate::index::read_rev(at));
        &&& s.len() == vis.len()
        &&& forall|y: int|
            0 <= y < vis.len() ==> {
                &&& (#[trigger] s[y]).key == vis[y].0
                &&& s[y].mod_revision == vis[y].1.main
                &&& record_bytes(s[y]) == self.storage()[kv_table()][revision_bytes(vis[y].1)]
                &&& crate::index::record_at(self.index().history(vis[y].0), crate::index::read_rev(at))
                    matches Some(rec) && s[y].create_revision == rec.create_rev && s[y].version
                    == rec.version
            }
    }

    /// The records of the keys of `range` live at revision `at` (`0` for
    /// the current one), in ascending key order: each is the record stored
    /// under the revision of the key's last write at or before `at`.
    pub fn range(&self, range: &KeyRange, at: i64) -> (r: Result<Vec<KeyValue>, KvError>)
        requires
            self.wf(),
        ensures
            at > self.revision() ==> r matches Err(KvError::FutureRevision),
            at <= self.revision() && at != 0 && at < self.index().compacted() ==> r matches Err(
                KvError::RevisionCompacted,
            ),
            at <= self.revision() && !(at != 0 && at < self.index().compacted()) ==> ({
                let vis = crate::index::visible(
                    self.index().model(),
                    range.start@,
                    range.end@,
                    crate::index::read_rev(at),
                );
                &&& r matches Ok(v) && v@.len() == vis.len() && forall|y: int|
                    0 <= y < vis.len() ==> {
                        &&& (#[trigger] v@[y])@.key == vis[y].0
                        &&& v@[y]@.mod_revision == vis[y].1.main
                        &&& record_bytes(v@[y]@) == self.storage()[kv_table()][revision_bytes(vis[y].1)]
                        &&& crate::index::record_at(
                            self.index().history(vis[y].0),
                            crate::index::read_rev(at),
                        ) matches Some(rec) && v@[y]@.create_revision == rec.create_rev
                            && v@[y]@.version == rec.version
                    }
                &&& r matches Ok(v) && self.is_read(range.start@, range.end@, at, kvs_view(v@))
            }),
    {
        if at > self.revision {
            return Err(KvError::FutureRevision);
        }
        let keys = match self.index.get(range, at) {
            Ok(v) => v,
            Err(_) => {
                return Err(KvError::RevisionCompacted);
            },
        };
        let ghost ks = self.index.model();
        let ghost rr = crate::index::read_rev(at);
        let ghost vis = crate::index::key_revs_view(keys@);
        let ghost t = self.engine@[kv_table()];
        proof {
            crate::index::lemma_visible_entries(ks, range.start@, range.end@, rr);
            reveal_strlit("kv");
        }
        let mut out: Vec<KeyValue> = Vec::new();
        let mut y: usize = 0;
        while y < keys.len()
            invariant
                y <= keys@.len(),
                self.wf(),
                ks == self.index.model(),
                t == self.engine@[kv_table()],
                vis == crate::index::key_revs_view(keys@),
                vis == crate::index::visible(ks, range.start@, range.end@, rr),
                forall|z: int|
                    0 <= z < vis.len() ==> exists|x: int|
                        0 <= x < ks.len() && ks[x].0 == (#[trigger] vis[z]).0 && live_rev(ks[x].1, rr)
                            == Some(vis[z].1),
                out@.len() == y,
                forall|z: int|
                    0 <= z < y ==> {
                        &&& (#[trigger] out@[z])@.key == vis[z].0
                        &&& out@[z]@.mod_revision == vis[z].1.main
                        &&& record_bytes(out@[z]@) == t[revision_bytes(vis[z].1)]
                        &&& crate::index::record_at(self.index.history(vis[z].0), rr) matches Some(rec)
                            && out@[z]@.create_revision == rec.create_rev && out@[z]@.version == rec.version
                    },
            decreases keys@.len() - y,
        {
            let rev = keys[y].1;
            let ghost k = vis[y as int].0;
            let ghost found: KeyValueView;
            proof {
                assert(vis[y as int] == (keys@[y as int].0@, keys@[y as int].1));
                let x = choose|x: int|
                    0 <= x < ks.len() && ks[x].0 == (#[trigger] vis[y as int]).0 && live_rev(ks[x].1, rr)
                        == Some(vis[y as int].1);
                crate::entries::lemma_entries_map_at(ks, x);
                let h = ks[x].1;
                assert(self.index.history(k) == h);
                crate::index::lemma_record_at_in(h, rr);
                let rec = crate::index::record_at(h, rr)->Some_0;
                let j = choose|j: int| 0 <= j < h.len() && h[j] == rec;
                assert(self.index.history(k)[j] == rec);
                assert(stored(t, k, rec));
                found = choose|kv: KeyValueView|
                    #[trigger] record_bytes(kv) == t[revision_bytes(rec.rev)] && kv.key == k && kv.create_revision
                        == rec.create_rev && kv.mod_revision == rec.rev.main && kv.version == rec.version;
                assert(rec.rev == rev);
                reveal_strlit("kv");
                assert("kv"@ =~= kv_table());
                assert(t.contains_key(revision_bytes(rev)));
            }
            let bytes = match self.engine.get("kv", encode_revision(rev).as_slice()) {
                Ok(Some(b)) => b,
                _ => {
                    proof {
                        assert(false);
                    }
                    return Err(KvError::UnderlyingError("missing record".to_owned()));
                },
            };
            let kv = match decode_record(bytes.as_slice()) {
                Some(kv) => kv,
                None => {
                    proof {
                        assert(record_bytes(found) == bytes@);
                    }
                    return Err(KvError::UnderlyingError("corrupt record".to_owned()));
                },
            };
            proof {
                assert(record_bytes(found) == bytes@);
            }
            out.push(kv);
            y = y + 1;
        }
        proof {
            assert forall|z: int| 0 <= z < vis.len() implies kvs_view(out@)[z] == out@[z]@ by {}
            assert(kvs_view(out@).len() == vis.len());
        }
        Ok(out)
    }

    /// Answers range request `req`: reads its range at its revision, then
    /// applies its filters, sort, limit and keys-only and count-only forms.
    /// Fails on an empty key without an end, and as a read does.
    pub fn range_request(&self, req: &RangeRequest) -> (r: Result<RangeResponse, KvError>)
        requires
            self.wf(),
        ensures
            req.key@.len() == 0 && req.range_end@.len() == 0 ==> r matches Err(KvError::InvalidRequest),
            !(req.key@.len() == 0 && req.range_end@.len() == 0) && req.revision > self.revision()
                ==> (r matches Err(KvError::FutureRevision)),
            !(req.key@.len() == 0 && req.range_end@.len() == 0) && req.revision <= self.revision()
                && req.revision != 0 && req.revision < self.index().compacted() ==> (r matches Err(
                KvError::RevisionCompacted,
            )),
            !(req.key@.len() == 0 && req.range_end@.len() == 0) && req.revision <= self.revision()
                && !(req.revision != 0 && req.revision < self.index().compacted()) ==> (r matches Ok(resp)
                && exists|s: Seq<KeyValueView>|
                self.is_read(req.key@, req.range_end@, req.revision, s) && kvs_view(resp.kvs@)
                    == range_result(s, *req) && resp.count == filtered(s, *req).len() as i64
                    && resp.more == (req.limit > 0 && req.limit < filtered(s, *req).len())),
    {
        if req.key.len() == 0 && req.range_end.len() == 0 {
            return Err(KvError::InvalidRequest);
        }
        let range = KeyRange { start: copy_bytes(&req.key), end: copy_bytes(&req.range_end) };
        match self.range(&range, req.revision) {
            Ok(kvs) => {
                let ghost s = kvs_view(kvs@);
                let resp = answer_range(kvs, req);
                proof {
                    assert(self.is_read(req.key@, req.range_end@, req.revision, s));
                }
                Ok(resp)
            },
            Err(e) => Err(e),
        }
    }

    /// The record stored for the last write of `key`.
    pub open spec fn current_record(&self, key: Seq<u8>) -> KeyValueView {
        choose|kv: KeyValueView|
            #[trigger] record_bytes(kv) == self.storage()[kv_table()][revision_bytes(
                self.index().history(key).last().rev,
            )]
    }

    /// The record of the last write of `key`, which is live.
    fn read_current(&self, key: &Vec<u8>) -> (r: Option<KeyValue>)
        requires
            self.wf(),
            self.index().is_live(key@),
        ensures
            r matches Some(kv) && kv@ == self.current_record(key@) && kv@.key == key@,
    {
        let h = self.index.records_of(key.as_slice());
        let last = h[h.len() - 1];
        let ghost t = self.engine@[kv_table()];
        let ghost found: KeyValueView;
        proof {
            let j = h@.len() - 1;
            assert(self.index.history(key@)[j] == last);
            assert(stored(t, key@, last));
            found = choose|kv: KeyValueView|
                #[trigger] record_bytes(kv) == t[revision_bytes(last.rev)] && kv.key == key@ && kv.create_revision
                    == last.create_rev && kv.mod_revision == last.rev.main && kv.version == last.version;
            reveal_strlit("kv");
            assert("kv"@ =~= kv_table());
        }
        let bytes = match self.engine.get("kv", encode_revision(last.rev).as_slice()) {
            Ok(Some(b)) => b,
            _ => {
                proof {
                    assert(false);
                }
                return None;
            },
        };
        proof {
            assert(record_bytes(found) == bytes@);
        }
        decode_record(bytes.as_slice())
    }

    /// Performs `req`: a put of its key and value with its lease, where
    /// `ignore_value` keeps the key's current value and `ignore_lease` its
    /// current lease; either fails when the key is not live. Returns the
    /// revision, the event, and, when `prev_kv` is asked for, the record
    /// the key had before.
    pub fn put_request(&mut self, req: PutRequest) -> (r: Result<(i64, Event, Option<KeyValue>), KvError>)
        requires
            old(self).wf(),
            old(self).revision() < i64::MAX,
        ensures
            final(self).wf(),
            (req.ignore_value || req.ignore_lease) && !old(self).index().is_live(req.key@) ==> (r matches Err(
                KvError::InvalidRequest,
            ) && *final(self) == *old(self)),
            req.key@.len() == 0 ==> (r matches Err(KvError::InvalidRequest) && *final(self) == *old(self)),
            req.key@.len() > 0 && !((req.ignore_value || req.ignore_lease) && !old(self).index().is_live(req.key@))
                ==> ({
                let live = old(self).index().is_live(req.key@);
                let prev = old(self).current_record(req.key@);
                let value = if req.ignore_value { prev.value } else { req.value@ };
                let lease = if req.ignore_lease { prev.lease } else { req.lease };
                let rev = Revision { main: (old(self).revision() + 1) as i64, sub: 0 };
                let h = old(self).index().history(req.key@);
                let kv = KeyValueView {
                    key: req.key@,
                    create_revision: if live { h.last().create_rev } else { rev.main },
                    mod_revision: rev.main,
                    version: if live { (h.last().version + 1) as i64 } else { 1 },
                    value: value,
                    lease: lease,
                };
                &&& r matches Ok((n, e, p)) && n == rev.main && e@.event_type == EventType::Put && e@.kv == kv
                    && (p matches Some(pk) ==> req.prev_kv && live && pk@ == prev)
                    && (req.prev_kv && live ==> p is Some)
                &&& final(self).revision() == old(self).revision() + 1
                &&& final(self).revision() > old(self).revision()
                &&& final(self).storage() == old(self).storage().insert(
                    kv_table(),
                    old(self).storage()[kv_table()].insert(revision_bytes(rev), record_bytes(kv)),
                )
            }),
    {
        let PutRequest { key, value, lease, prev_kv, ignore_value, ignore_lease } = req;
        if key.len() == 0 {
            return Err(KvError::InvalidRequest);
        }
        let live = self.index.is_live_key(key.as_slice());
        if (ignore_value || ignore_lease) && !live {
            return Err(KvError::InvalidRequest);
        }
        let prev = if live {
            self.read_current(&key)
        } else {
            None
        };
        let value = match (&prev, ignore_value) {
            (Some(p), true) => copy_bytes(&p.value),
            _ => value,
        };
        let lease = match (&prev, ignore_lease) {
            (Some(p), true) => p.lease,
            _ => lease,
        };
        match self.put(key, value, lease) {
            Ok((n, e)) => Ok((n, e, if prev_kv { prev } else { None })),
            Err(e) => Err(e),
        }
    }

    /// The changes of the keys of `range` at revision `start_rev` or later,
    /// in revision order, each with its revision: the record stored under
    /// the revision, as a delete event for a delete and a put event for a
    /// write.
    pub fn events_from(&self, range: &KeyRange, start_rev: i64) -> (r: Vec<(Revision, Event)>)
        requires
            self.wf(),
        ensures
            crate::index::revs_ascending(r@.map_values(|p: (Revision, Event)| p.0)),
            forall|x: Revision|
                r@.map_values(|p: (Revision, Event)| p.0).contains(x) <==> crate::index::written_in_range(
                    self.index().model(),
                    range.start@,
                    range.end@,
                    start_rev,
                    x,
                ),
            forall|y: int|
                0 <= y < r@.len() ==> {
                    let (rev, e) = #[trigger] r@[y];
                    &&& record_bytes(e@.kv) == self.storage()[kv_table()][revision_bytes(rev)]
                    &&& e@.kv.mod_revision == rev.main
                    &&& e@.prev_kv is None
                    &&& exists|i: int, j: int|
                        0 <= i < self.index().model().len() && 0 <= j < self.index().model()[i].1.len()
                            && (#[trigger] self.index().model()[i].1[j]).rev == rev
                            && e@.kv.key == self.index().model()[i].0 && (e@.event_type == EventType::Delete
                            <==> self.index().model()[i].1[j].tombstone)
                },
    {
        let revs = self.index.get_from_rev(range, start_rev);
        let ghost ks = self.index.model();
        let ghost t = self.engine@[kv_table()];
        let mut out: Vec<(Revision, Event)> = Vec::new();
        let mut y: usize = 0;
        while y < revs.len()
            invariant
                y <= revs@.len(),
                self.wf(),
                ks == self.index.model(),
                t == self.engine@[kv_table()],
                forall|x: Revision|
                    #[trigger] revs@.contains(x) <==> crate::index::written_in_range(
                        ks,
                        range.start@,
                        range.end@,
                        start_rev,
                        x,
                    ),
                out@.map_values(|p: (Revision, Event)| p.0) == revs@.subrange(0, y as int),
                forall|z: int|
                    0 <= z < y ==> {
                        let (rev, e) = #[trigger] out@[z];
                        &&& record_bytes(e@.kv) == t[revision_bytes(rev)]
                        &&& e@.kv.mod_revision == rev.main
                        &&& e@.prev_kv is None
                        &&& exists|i: int, j: int|
                            0 <= i < ks.len() && 0 <= j < ks[i].1.len() && (#[trigger] ks[i].1[j]).rev == rev
                                && e@.kv.key == ks[i].0 && (e@.event_type == EventType::Delete
                                <==> ks[i].1[j].tombstone)
                    },
            decreases revs@.len() - y,
        {
            let rev = revs[y];
            let ghost found: KeyValueView;
            let ghost gi: int;
            let ghost gj: int;
            proof {
                assert(revs@.contains(rev));
                let (i, j) = choose|i: int, j: int|
                    0 <= i < ks.len() && 0 <= j < ks[i].1.len() && crate::key_range::range_contains(
                        range.start@,
                        range.end@,
                        ks[i].0,
                    ) && (#[trigger] ks[i].1[j]).rev == rev && rev.main >= start_rev;
                gi = i;
                gj = j;
                crate::entries::lemma_entries_map_at(ks, i);
                let k = ks[i].0;
                let rec = ks[i].1[j];
                assert(self.index.history(k)[j] == rec);
                assert(stored(t, k, rec));
                if rec.tombstone {
                    found = tombstone_view(k, rec.rev.main);
                } else {
                    found = choose|kv: KeyValueView|
                        #[trigger] record_bytes(kv) == t[revision_bytes(rec.rev)] && kv.key == k
                            && kv.create_revision == rec.create_rev && kv.mod_revision == rec.rev.main
                            && kv.version == rec.version;
                }
                reveal_strlit("kv");
                assert("kv"@ =~= kv_table());
            }
            let bytes = match self.engine.get("kv", encode_revision(rev).as_slice()) {
                Ok(Some(b)) => b,
                _ => {
                    proof {
                        assert(false);
                    }
                    return out;
                },
            };
            proof {
                assert(record_bytes(found) == bytes@);
            }
            let kv = match decode_record(bytes.as_slice()) {
                Some(kv) => kv,
                None => {
                    proof {
                        assert(false);
                    }
                    return out;
                },
            };
            let event_type = if kv.version == 0 {
                EventType::Delete
            } else {
                EventType::Put
            };
            let ghost prev = out@.map_values(|p: (Revision, Event)| p.0);
            out.push((rev, Event { event_type, kv, prev_kv: None }));
            proof {
                assert(out@.map_values(|p: (Revision, Event)| p.0) =~= prev.push(rev));
                assert(revs@.subrange(0, y + 1) =~= revs@.subrange(0, y as int).push(revs@[y as int]));
                assert(ks[gi].1[gj].rev == rev);
            }
            y = y + 1;
        }
        proof {
            assert(revs@.subrange(0, y as int) =~= revs@);
            assert(self.index() == self.index);
            assert forall|z: int| 0 <= z < out@.len() implies {
                let (rev, e) = #[trigger] out@[z];
                exists|i: int, j: int|
                    0 <= i < self.index().model().len() && 0 <= j < self.index().model()[i].1.len()
                        && (#[trigger] self.index().model()[i].1[j]).rev == rev
                        && e@.kv.key == self.index().model()[i].0 && (e@.event_type == EventType::Delete
                        <==> self.index().model()[i].1[j].tombstone)
            } by {
                let (rev, e) = out@[z];
                let (i, j) = choose|i: int, j: int|
                    0 <= i < ks.len() && 0 <= j < ks[i].1.len() && (#[trigger] ks[i].1[j]).rev == rev
                        && e@.kv.key == ks[i].0 && (e@.event_type == EventType::Delete <==> ks[i].1[j].tombstone);
                assert(self.index().model()[i].1[j] == ks[i].1[j]);
            }
        }
        out
    }

    /// The keys of `range` live at revision `at` (`0` for the current one),
    /// each with the revision of its last write, in ascending key order.
    pub fn range_keys(&self, range: &KeyRange, at: i64) -> (r: Result<Vec<(Vec<u8>, Revision)>, KvError>)
        requires
            self.wf(),
        ensures
            at > self.revision() ==> r matches Err(KvError::FutureRevision),
            at <= self.revision() && at != 0 && at < self.index().compacted() ==> r matches Err(
                KvError::RevisionCompacted,
            ),
            at <= self.revision() && !(at != 0 && at < self.index().compacted()) ==> (r matches Ok(v)
                && crate::index::key_revs_view(v@) == crate::index::visible(
                self.index().model(),
                range.start@,
                range.end@,
                crate::index::read_rev(at),
            )),
    {
        if at > self.revision {
            return Err(KvError::FutureRevision);
        }
        match self.index.get(range, at) {
            Ok(v) => Ok(v),
            Err(_) => Err(KvError::RevisionCompacted),
        }
    }

    /// Compacts the history up to `revision`, which must lie above the last
    /// compaction and not beyond the current revision. The records stay in
    /// table `kv`.
    pub fn compact(&mut self, revision: i64) -> (r: Result<(), KvError>)
        requires
            old(self).wf(),
        ensures
            final(self).wf(),
            final(self).revision() == old(self).revision(),
            final(self).storage() == old(self).storage(),
            revision > old(self).revision() ==> (r matches Err(KvError::FutureRevision) && *final(self)
                == *old(self)),
            revision <= old(self).revision() && revision <= old(self).index().compacted() ==> (r matches Err(
                KvError::RevisionCompacted,
            ) && *final(self) == *old(self)),
            revision <= old(self).revision() && revision > old(self).index().compacted() ==> {
                &&& r is Ok
                &&& final(self).index().compacted() == revision
                &&& final(self).index().model() == crate::index::compact_keys(
                    old(self).index().model(),
                    revision,
                )
            },
    {
        if revision > self.revision {
            return Err(KvError::FutureRevision);
        }
        let ghost ks = self.index.model();
        if self.index.compact(revision).is_err() {
            return Err(KvError::RevisionCompacted);
        }
        proof {
            assert forall|k: Seq<u8>, j: int|
                #![trigger self.index.history(k)[j]]
                0 <= j < self.index.history(k).len() implies {
                    &&& self.index.history(k)[j].rev.main <= self.revision
                    &&& self.index.history(k)[j].version <= self.index.history(k)[j].rev.main
                    &&& stored(self.engine@[kv_table()], k, self.index.history(k)[j])
                } by {
                crate::index::lemma_compaction_keeps_records(ks, revision, k, j);
                let j2 = choose|j2: int|
                    0 <= j2 < old(self).index.history(k).len() && self.index.history(k)[j]
                        == old(self).index.history(k)[j2];
                assert(old(self).index.history(k)[j2] == self.index.history(k)[j]);
            }
        }
        Ok(())
    }
}

} // verus!
