//! The revision index: for each user key, the revisions at which it was
//! written or deleted; reads of key ranges at a revision; compaction.
use vstd::prelude::*;

use crate::entries::{
    copy_bytes, entries_map, entries_model, entries_put, find_key, has_key, lemma_entries_map_at,
    sorted_keys,
};
use crate::bytes::{lemma_lex_asym, lex_lt};
use crate::key_range::{range_contains, KeyRange};

verus! {

/// A revision: `main` advances once per request, `sub` once per write
/// within it.
#[derive(Clone, Copy, Debug, PartialEq, Eq, Structural)]
pub struct Revision {
    /// Revision of the request.
    pub main: i64,
    /// Position of the write within the request.
    pub sub: i64,
}

/// One write or delete of a key.
#[derive(Clone, Copy, Debug, PartialEq, Eq, Structural)]
pub struct IndexRecord {
    /// Revision of the write.
    pub rev: Revision,
    /// Revision at which the key was created, `0` for a delete.
    pub create_rev: i64,
    /// Writes of the key since its creation, `0` for a delete.
    pub version: i64,
    /// Whether this record deletes the key and ends its generation.
    pub tombstone: bool,
}

/// Errors of the revision index.
#[derive(Debug, PartialEq, Eq, Structural)]
pub enum IndexError {
    /// The key is not live.
    KeyNotFound,
    /// The revision lies below the last compaction.
    RevisionCompacted,
}

/// Each key with its records, in ascending key order.
pub type IndexModel = Seq<(Seq<u8>, Seq<IndexRecord>)>;

/// The last record of `h` at or before revision `at`.
pub open spec fn record_at(h: Seq<IndexRecord>, at: i64) -> Option<IndexRecord>
    decreases h.len(),
{
    if h.len() == 0 {
        None
    } else if h.last().rev.main <= at {
        Some(h.last())
    } else {
        record_at(h.drop_last(), at)
    }
}

/// The revision of the key with records `h` at `at`, when it is live then.
pub open spec fn live_rev(h: Seq<IndexRecord>, at: i64) -> Option<Revision> {
    match record_at(h, at) {
        Some(r) => if r.tombstone {
            None
        } else {
            Some(r.rev)
        },
        None => None,
    }
}

/// The revision a read at `at` sees: `0` is the latest.
pub open spec fn read_rev(at: i64) -> i64 {
    if at == 0 {
        i64::MAX
    } else {
        at
    }
}

/// The keys of `ks` within `[start, end)` that are live at `at`, with their
/// revision then, in the order of `ks`.
pub open spec fn visible(ks: IndexModel, start: Seq<u8>, end: Seq<u8>, at: i64) -> Seq<
    (Seq<u8>, Revision),
>
    decreases ks.len(),
{
    if ks.len() == 0 {
        Seq::empty()
    } else {
        let rest = visible(ks.drop_last(), start, end, at);
        let k = ks.last().0;
        let h = ks.last().1;
        if range_contains(start, end, k) && live_rev(h, at) is Some {
            rest.push((k, live_rev(h, at)->Some_0))
        } else {
            rest
        }
    }
}

/// The records of `h` left by a compaction at `c`: those at `c` or later,
/// and the last one before `c` unless it is a delete.
pub open spec fn compact_history(h: Seq<IndexRecord>, c: i64) -> Seq<IndexRecord>
    decreases h.len(),
{
    if h.len() == 0 {
        Seq::empty()
    } else if h.last().rev.main >= c {
        compact_history(h.drop_last(), c).push(h.last())
    } else if h.last().tombstone {
        Seq::empty()
    } else {
        seq![h.last()]
    }
}

/// The keys of `ks` after a compaction at `c`: keys left without records
/// are dropped.
pub open spec fn compact_keys(ks: IndexModel, c: i64) -> IndexModel
    decreases ks.len(),
{
    if ks.len() == 0 {
        Seq::empty()
    } else {
        let rest = compact_keys(ks.drop_last(), c);
        let h = compact_history(ks.last().1, c);
        if h.len() > 0 {
            rest.push((ks.last().0, h))
        } else {
            rest
        }
    }
}

/// The records of `key` in `ks`, empty when it has none.
pub open spec fn history_in(ks: IndexModel, key: Seq<u8>) -> Seq<IndexRecord> {
    if entries_map(ks).contains_key(key) {
        entries_map(ks)[key]
    } else {
        Seq::empty()
    }
}

/// The pairs of `v` as byte strings.
pub open spec fn key_revs_view(v: Seq<(Vec<u8>, Revision)>) -> Seq<(Seq<u8>, Revision)> {
    v.map_values(|p: (Vec<u8>, Revision)| (p.0@, p.1))
}

proof fn lemma_compact_history_live(h: Seq<IndexRecord>, c: i64, at: i64)
    requires
        c <= at,
    ensures
        live_rev(compact_history(h, c), at) == live_rev(h, at),
    decreases h.len(),
{
    if h.len() > 0 {
        let t = compact_history(h, c);
        if h.last().rev.main >= c {
            assert(t.drop_last() == compact_history(h.drop_last(), c));
            lemma_compact_history_live(h.drop_last(), c, at);
        } else if !h.last().tombstone {
            assert(t.drop_last() =~= Seq::<IndexRecord>::empty());
        }
    }
}

proof fn lemma_compact_keys_sorted(ks: IndexModel, c: i64)
    requires
        sorted_keys(ks),
    ensures
        sorted_keys(compact_keys(ks, c)),
        forall|x: int|
            0 <= x < compact_keys(ks, c).len() ==> has_key(ks, #[trigger] compact_keys(ks, c)[x].0),
    decreases ks.len(),
{
    if ks.len() > 0 {
        let init = ks.drop_last();
        assert forall|a: int, b: int| 0 <= a < b < init.len() implies lex_lt(
            #[trigger] init[a].0,
            #[trigger] init[b].0,
        ) by {
            assert(init[a] == ks[a] && init[b] == ks[b]);
        }
        lemma_compact_keys_sorted(init, c);
        let rest = compact_keys(init, c);
        let out = compact_keys(ks, c);
        assert forall|x: int| 0 <= x < rest.len() implies lex_lt(#[trigger] rest[x].0, ks.last().0) by {
            let j = choose|j: int| 0 <= j < init.len() && (#[trigger] init[j]).0 == rest[x].0;
            assert(ks[j] == init[j]);
        }
        assert forall|x: int| 0 <= x < out.len() implies has_key(ks, #[trigger] out[x].0) by {
            if x < rest.len() {
                assert(out[x] == rest[x]);
                let j = choose|j: int| 0 <= j < init.len() && (#[trigger] init[j]).0 == rest[x].0;
                assert(ks[j] == init[j]);
            } else {
                assert(ks[ks.len() - 1].0 == out[x].0);
            }
        }
    }
}

proof fn lemma_compact_history_sub(h: Seq<IndexRecord>, c: i64)
    ensures
        forall|j: int|
            0 <= j < compact_history(h, c).len() ==> exists|j2: int|
                0 <= j2 < h.len() && #[trigger] compact_history(h, c)[j] == h[j2],
    decreases h.len(),
{
    if h.len() > 0 {
        lemma_compact_history_sub(h.drop_last(), c);
        let t = compact_history(h, c);
        assert forall|j: int| 0 <= j < t.len() implies exists|j2: int|
            0 <= j2 < h.len() && #[trigger] t[j] == h[j2] by {
            if h.last().rev.main >= c && j < t.len() - 1 {
                let r = compact_history(h.drop_last(), c);
                assert(t[j] == r[j]);
                let j2 = choose|j2: int| 0 <= j2 < h.drop_last().len() && r[j] == h.drop_last()[j2];
                assert(h[j2] == h.drop_last()[j2]);
            } else {
                assert(t[j] == h[h.len() - 1]);
            }
        }
    }
}

proof fn lemma_compact_keys_from(ks: IndexModel, c: i64)
    ensures
        forall|x: int|
            0 <= x < compact_keys(ks, c).len() ==> exists|i: int|
                0 <= i < ks.len() && (#[trigger] compact_keys(ks, c)[x]) == (ks[i].0, compact_history(ks[i].1, c)),
    decreases ks.len(),
{
    if ks.len() > 0 {
        let init = ks.drop_last();
        lemma_compact_keys_from(init, c);
        let rest = compact_keys(init, c);
        let out = compact_keys(ks, c);
        assert forall|x: int| 0 <= x < out.len() implies exists|i: int|
            0 <= i < ks.len() && (#[trigger] out[x]) == (ks[i].0, compact_history(ks[i].1, c)) by {
            if x < rest.len() {
                assert(out[x] == rest[x]);
                let i = choose|i: int| 0 <= i < init.len() && (#[trigger] rest[x]) == (init[i].0, compact_history(init[i].1, c));
                assert(ks[i] == init[i]);
            } else {
                assert(out[x] == (ks[ks.len() - 1].0, compact_history(ks[ks.len() - 1].1, c)));
            }
        }
    }
}

/// Every record that a compaction leaves to a key was a record of that key
/// before.
pub proof fn lemma_compaction_keeps_records(ks: IndexModel, c: i64, k: Seq<u8>, j: int)
    requires
        sorted_keys(ks),
        0 <= j < history_in(compact_keys(ks, c), k).len(),
    ensures
        exists|j2: int|
            0 <= j2 < history_in(ks, k).len() && history_in(compact_keys(ks, c), k)[j] == history_in(
                ks,
                k,
            )[j2],
{
    let out = compact_keys(ks, c);
    lemma_compact_keys_sorted(ks, c);
    lemma_compact_keys_from(ks, c);
    assert(entries_map(out).contains_key(k));
    assert(has_key(out, k));
    let x = choose|x: int| 0 <= x < out.len() && (#[trigger] out[x]).0 == k;
    lemma_entries_map_at(out, x);
    let i = choose|i: int| 0 <= i < ks.len() && (#[trigger] out[x]) == (ks[i].0, compact_history(ks[i].1, c));
    lemma_entries_map_at(ks, i);
    lemma_compact_history_sub(ks[i].1, c);
    let j2 = choose|j2: int| 0 <= j2 < ks[i].1.len() && #[trigger] compact_history(ks[i].1, c)[j] == ks[i].1[j2];
    assert(history_in(ks, k) == ks[i].1);
    assert(history_in(out, k) == compact_history(ks[i].1, c));
    assert(history_in(ks, k)[j2] == history_in(out, k)[j]);
}

proof fn lemma_compact_history_record(h: Seq<IndexRecord>, c: i64, at: i64)
    requires
        c <= at,
        live_rev(h, at) is Some,
    ensures
        record_at(compact_history(h, c), at) == record_at(h, at),
    decreases h.len(),
{
    if h.len() > 0 {
        let t = compact_history(h, c);
        if h.last().rev.main >= c {
            assert(t.drop_last() == compact_history(h.drop_last(), c));
            if h.last().rev.main > at {
                lemma_compact_history_record(h.drop_last(), c, at);
            }
        } else if !h.last().tombstone {
            assert(t.drop_last() =~= Seq::<IndexRecord>::empty());
        }
    }
}

proof fn lemma_compact_keys_has(ks: IndexModel, c: i64, i: int)
    requires
        0 <= i < ks.len(),
        compact_history(ks[i].1, c).len() > 0,
    ensures
        exists|x: int|
            0 <= x < compact_keys(ks, c).len() && compact_keys(ks, c)[x] == (
                ks[i].0,
                compact_history(ks[i].1, c),
            ),
    decreases ks.len(),
{
    let init = ks.drop_last();
    let rest = compact_keys(init, c);
    let out = compact_keys(ks, c);
    if i < ks.len() - 1 {
        assert(init[i] == ks[i]);
        lemma_compact_keys_has(init, c, i);
        let x = choose|x: int|
            0 <= x < rest.len() && rest[x] == (init[i].0, compact_history(init[i].1, c));
        assert(out[x] == rest[x]);
    } else {
        assert(out[out.len() - 1] == (ks[i].0, compact_history(ks[i].1, c)));
    }
}

/// For a key live at `at`, at or after a compaction at `c`, the compacted
/// index finds the same record at `at` as the index before.
pub proof fn lemma_compacted_history_of(ks: IndexModel, c: i64, x: int, at: i64)
    requires
        sorted_keys(ks),
        0 <= x < ks.len(),
        c <= at,
        live_rev(ks[x].1, at) is Some,
    ensures
        record_at(history_in(compact_keys(ks, c), ks[x].0), at) == record_at(history_in(ks, ks[x].0), at),
{
    lemma_entries_map_at(ks, x);
    lemma_compact_history_live(ks[x].1, c, at);
    lemma_compact_history_record(ks[x].1, c, at);
    let t = compact_history(ks[x].1, c);
    assert(t.len() > 0);
    lemma_compact_keys_has(ks, c, x);
    lemma_compact_keys_sorted(ks, c);
    let out = compact_keys(ks, c);
    let y = choose|y: int| 0 <= y < out.len() && out[y] == (ks[x].0, t);
    lemma_entries_map_at(out, y);
}

/// After a compaction at `c`, a read at `c` or later sees every key of
/// every range exactly as it did before.
pub proof fn lemma_compaction_keeps_later_reads(
    ks: IndexModel,
    c: i64,
    start: Seq<u8>,
    end: Seq<u8>,
    at: i64,
)
    requires
        c <= at,
    ensures
        visible(compact_keys(ks, c), start, end, at) == visible(ks, start, end, at),
    decreases ks.len(),
{
    if ks.len() > 0 {
        lemma_compaction_keeps_later_reads(ks.drop_last(), c, start, end, at);
        lemma_compact_history_live(ks.last().1, c, at);
        let h = compact_history(ks.last().1, c);
        if h.len() > 0 {
            let out = compact_keys(ks, c);
            assert(out.drop_last() == compact_keys(ks.drop_last(), c));
        } else {
            assert(record_at(h, at) is None);
        }
    }
}

proof fn lemma_visible_has(ks: IndexModel, start: Seq<u8>, end: Seq<u8>, at: i64, k: Seq<u8>)
    ensures
        (exists|j: int| 0 <= j < visible(ks, start, end, at).len() && (#[trigger] visible(ks, start, end, at)[j]).0 == k)
            <==> (range_contains(start, end, k) && exists|i: int|
            0 <= i < ks.len() && (#[trigger] ks[i]).0 == k && live_rev(ks[i].1, at) is Some),
    decreases ks.len(),
{
    if ks.len() > 0 {
        let init = ks.drop_last();
        lemma_visible_has(init, start, end, at, k);
        let rest = visible(init, start, end, at);
        let v = visible(ks, start, end, at);
        if exists|j: int| 0 <= j < v.len() && (#[trigger] v[j]).0 == k {
            let j = choose|j: int| 0 <= j < v.len() && (#[trigger] v[j]).0 == k;
            if j < rest.len() {
                assert(v[j] == rest[j]);
                let i = choose|i: int| 0 <= i < init.len() && (#[trigger] init[i]).0 == k && live_rev(init[i].1, at) is Some;
                assert(ks[i] == init[i]);
            } else {
                assert(ks[ks.len() - 1].0 == k);
            }
        }
        if range_contains(start, end, k) && exists|i: int|
            0 <= i < ks.len() && (#[trigger] ks[i]).0 == k && live_rev(ks[i].1, at) is Some {
            let i = choose|i: int| 0 <= i < ks.len() && (#[trigger] ks[i]).0 == k && live_rev(ks[i].1, at) is Some;
            if i < init.len() {
                assert(init[i] == ks[i]);
                let j = choose|j: int| 0 <= j < rest.len() && (#[trigger] rest[j]).0 == k;
                assert(v[j] == rest[j]);
            } else {
                assert(v[v.len() - 1].0 == k);
            }
        }
    }
}

/// The record that a read finds is one of the key's records.
pub proof fn lemma_record_at_in(h: Seq<IndexRecord>, at: i64)
    ensures
        record_at(h, at) matches Some(rec) ==> exists|j: int| 0 <= j < h.len() && h[j] == rec,
    decreases h.len(),
{
    if h.len() > 0 && h.last().rev.main > at {
        lemma_record_at_in(h.drop_last(), at);
        if let Some(rec) = record_at(h, at) {
            let j = choose|j: int| 0 <= j < h.drop_last().len() && h.drop_last()[j] == rec;
            assert(h[j] == rec);
        }
    } else if h.len() > 0 {
        assert(h[h.len() - 1] == h.last());
    }
}

/// The keys that a read returns come from distinct entries of a sorted
/// index, each live at the read revision, so they strictly ascend.
pub proof fn lemma_visible_entries(ks: IndexModel, start: Seq<u8>, end: Seq<u8>, at: i64)
    requires
        sorted_keys(ks),
    ensures
        forall|a: int, b: int|
            0 <= a < b < visible(ks, start, end, at).len() ==> lex_lt(
                #[trigger] visible(ks, start, end, at)[a].0,
                #[trigger] visible(ks, start, end, at)[b].0,
            ),
        forall|y: int|
            0 <= y < visible(ks, start, end, at).len() ==> exists|x: int|
                0 <= x < ks.len() && ks[x].0 == (#[trigger] visible(ks, start, end, at)[y]).0
                    && live_rev(ks[x].1, at) == Some(visible(ks, start, end, at)[y].1),
    decreases ks.len(),
{
    if ks.len() > 0 {
        let init = ks.drop_last();
        assert forall|a: int, b: int| 0 <= a < b < init.len() implies lex_lt(
            #[trigger] init[a].0,
            #[trigger] init[b].0,
        ) by {
            assert(init[a] == ks[a] && init[b] == ks[b]);
        }
        lemma_visible_entries(init, start, end, at);
        let rest = visible(init, start, end, at);
        let v = visible(ks, start, end, at);
        assert forall|y: int| 0 <= y < v.len() implies exists|x: int|
            0 <= x < ks.len() && ks[x].0 == (#[trigger] v[y]).0 && live_rev(ks[x].1, at) == Some(v[y].1) by {
            if y < rest.len() {
                assert(v[y] == rest[y]);
                let x = choose|x: int|
                    0 <= x < init.len() && init[x].0 == (#[trigger] rest[y]).0 && live_rev(init[x].1, at) == Some(rest[y].1);
                assert(ks[x] == init[x]);
            } else {
                assert(ks[ks.len() - 1] == ks.last());
            }
        }
        assert forall|a: int, b: int| 0 <= a < b < v.len() implies lex_lt(#[trigger] v[a].0, #[trigger] v[b].0) by {
            if b >= rest.len() {
                assert(v[a] == rest[a]);
                let x = choose|x: int|
                    0 <= x < init.len() && init[x].0 == (#[trigger] rest[a]).0 && live_rev(init[x].1, at) == Some(rest[a].1);
                assert(ks[x] == init[x]);
                assert(v[b].0 == ks[ks.len() - 1].0);
            } else {
                assert(v[a] == rest[a] && v[b] == rest[b]);
            }
        }
    }
}

/// For a key that is live, a read of a range at the latest revision
/// returns the key exactly when the range contains it.
pub proof fn lemma_range_semantics(ks: IndexModel, start: Seq<u8>, end: Seq<u8>, k: Seq<u8>)
    requires
        exists|i: int| 0 <= i < ks.len() && (#[trigger] ks[i]).0 == k && live_rev(ks[i].1, i64::MAX) is Some,
    ensures
        (exists|j: int|
            0 <= j < visible(ks, start, end, i64::MAX).len() && (#[trigger] visible(ks, start, end, i64::MAX)[j]).0
                == k) <==> range_contains(start, end, k),
{
    lemma_visible_has(ks, start, end, i64::MAX, k);
}

/// Revision order: by `main`, then by `sub`.
pub open spec fn rev_lt(a: Revision, b: Revision) -> bool {
    a.main < b.main || (a.main == b.main && a.sub < b.sub)
}

/// Revisions strictly ascending.
pub open spec fn revs_ascending(v: Seq<Revision>) -> bool {
    forall|i: int, j: int| 0 <= i < j < v.len() ==> rev_lt(#[trigger] v[i], #[trigger] v[j])
}

/// Whether `x`, at `s` or later, is the revision of a record of a key of
/// `[start, end)`.
pub open spec fn written_in_range(ks: IndexModel, start: Seq<u8>, end: Seq<u8>, s: i64, x: Revision) -> bool {
    exists|i: int, j: int|
        0 <= i < ks.len() && 0 <= j < ks[i].1.len() && range_contains(start, end, ks[i].0)
            && (#[trigger] ks[i].1[j]).rev == x && x.main >= s
}

/// Adds `x` to strictly ascending revisions, unless it is there.
fn insert_revision(v: &mut Vec<Revision>, x: Revision)
    requires
        revs_ascending(old(v)@),
    ensures
        revs_ascending(final(v)@),
        forall|y: Revision| final(v)@.contains(y) <==> (old(v)@.contains(y) || y == x),
{
    let mut i: usize = 0;
    while i < v.len() && (v[i].main < x.main || (v[i].main == x.main && v[i].sub < x.sub))
        invariant
            i <= v@.len(),
            revs_ascending(v@),
            forall|j: int| 0 <= j < i ==> rev_lt(#[trigger] v@[j], x),
        decreases v@.len() - i,
    {
        i = i + 1;
    }
    if i < v.len() && v[i].main == x.main && v[i].sub == x.sub {
        assert(v@[i as int] == x);
        assert(v@.contains(x));
        return;
    }
    let ghost before = v@;
    assert(before == old(v)@);
    v.insert(i, x);
    assert forall|y: Revision| #[trigger] v@.contains(y) <==> (before.contains(y) || y == x) by {
        if before.contains(y) {
            let j = choose|j: int| 0 <= j < before.len() && before[j] == y;
            if j < i {
                assert(v@[j] == y);
            } else {
                assert(v@[j + 1] == y);
            }
        }
        if y == x {
            assert(v@[i as int] == y);
        }
        if v@.contains(y) {
            let j = choose|j: int| 0 <= j < v@.len() && v@[j] == y;
            if j < i {
                assert(before[j] == y);
            } else if j > i {
                assert(before[j - 1] == y);
            }
        }
    }
}

/// A copy of a list of records.
fn copy_records(h: &Vec<IndexRecord>) -> (r: Vec<IndexRecord>)
    ensures
        r@ == h@,
{
    let mut r: Vec<IndexRecord> = Vec::new();
    let mut i: usize = 0;
    while i < h.len()
        invariant
            i <= h@.len(),
            r@ == h@.subrange(0, i as int),
        decreases h@.len() - i,
    {
        r.push(h[i]);
        i = i + 1;
        assert(r@ =~= h@.subrange(0, i as int));
    }
    assert(h@.subrange(0, i as int) =~= h@);
    r
}

/// The revision of the key with records `h` at `at`, when it is live then.
fn live_revision(h: &Vec<IndexRecord>, at: i64) -> (r: Option<Revision>)
    ensures
        r == live_rev(h@, at),
{
    let mut i: usize = h.len();
    assert(h@.subrange(0, i as int) =~= h@);
    while i > 0 && h[i - 1].rev.main > at
        invariant
            i <= h@.len(),
            record_at(h@, at) == record_at(h@.subrange(0, i as int), at),
        decreases i,
    {
        assert(h@.subrange(0, i as int).drop_last() =~= h@.subrange(0, i - 1));
        i = i - 1;
    }
    if i == 0 {
        return None;
    }
    assert(h@.subrange(0, i as int).last() == h@[i - 1]);
    if h[i - 1].tombstone {
        None
    } else {
        Some(h[i - 1].rev)
    }
}

/// The records of `h` left by a compaction at `c`.
fn compact_records(h: &Vec<IndexRecord>, c: i64) -> (r: Vec<IndexRecord>)
    ensures
        r@ == compact_history(h@, c),
{
    let mut i: usize = h.len();
    while i > 0 && h[i - 1].rev.main >= c
        invariant
            i <= h@.len(),
            forall|j: int| i <= j < h@.len() ==> h@[j].rev.main >= c,
        decreases i,
    {
        i = i - 1;
    }
    let mut out: Vec<IndexRecord> = Vec::new();
    if i > 0 && !h[i - 1].tombstone {
        out.push(h[i - 1]);
    }
    proof {
        let t = h@.subrange(0, i as int);
        if i > 0 {
            assert(t.last() == h@[i - 1]);
            if !h@[i - 1].tombstone {
                assert(out@ =~= seq![t.last()]);
            }
        } else {
            assert(t =~= Seq::<IndexRecord>::empty());
        }
    }
    let mut j: usize = i;
    while j < h.len()
        invariant
            i <= j <= h@.len(),
            forall|x: int| i <= x < h@.len() ==> h@[x].rev.main >= c,
            out@ == compact_history(h@.subrange(0, j as int), c),
        decreases h@.len() - j,
    {
        assert(h@.subrange(0, j + 1).drop_last() =~= h@.subrange(0, j as int));
        assert(h@.subrange(0, j + 1).last() == h@[j as int]);
        out.push(h[j]);
        j = j + 1;
    }
    assert(h@.subrange(0, j as int) =~= h@);
    out
}

/// The revision index.
#[derive(Debug)]
pub struct Index {
    keys: Vec<(Vec<u8>, Vec<IndexRecord>)>,
    compacted: i64,
}

impl Index {
    /// Each key with its records, in ascending key order.
    pub closed spec fn model(&self) -> IndexModel {
        entries_model(self.keys)
    }

    /// Revision of the last compaction, `0` before any.
    pub closed spec fn compacted(&self) -> i64 {
        self.compacted
    }

    /// Keys strictly ascending.
    pub open spec fn wf(&self) -> bool {
        sorted_keys(self.model())
    }

    /// The records of `key`, empty when it has none.
    pub open spec fn history(&self, key: Seq<u8>) -> Seq<IndexRecord> {
        history_in(self.model(), key)
    }

    /// Whether the last record of `key` is a write.
    pub open spec fn is_live(&self, key: Seq<u8>) -> bool {
        self.history(key).len() > 0 && !self.history(key).last().tombstone
    }

    /// An index with no key.
    pub fn new() -> (r: Index)
        ensures
            r.wf(),
            r.model().len() == 0,
            r.compacted() == 0,
    {
        let r = Index { keys: Vec::new(), compacted: 0 };
        assert(r.model() =~= Seq::<(Seq<u8>, Seq<IndexRecord>)>::empty());
        r
    }

    /// Whether the last record of `key` is a write.
    pub fn is_live_key(&self, key: &[u8]) -> (r: bool)
        requires
            self.wf(),
        ensures
            r == self.is_live(key@),
    {
        let h = self.records_of(key);
        h.len() > 0 && !h[h.len() - 1].tombstone
    }

    /// A copy of the records of `key`.
    pub fn records_of(&self, key: &[u8]) -> (r: Vec<IndexRecord>)
        requires
            self.wf(),
        ensures
            r@ == self.history(key@),
    {
        match find_key(&self.keys, key) {
            Ok(i) => {
                proof {
                    lemma_entries_map_at(self.model(), i as int);
                }
                copy_records(&self.keys[i].1)
            },
            Err(_) => Vec::new(),
        }
    }

    /// Records a write of `key` at `rev`: it extends the live generation,
    /// or starts a new one when the key is absent or deleted. Returns the
    /// previous revision in the generation, the creation revision and the
    /// version.
    pub fn register_revision(&mut self, key: Vec<u8>, rev: Revision) -> (r: (
        Option<Revision>,
        i64,
        i64,
    ))
        requires
            old(self).wf(),
            old(self).is_live(key@) ==> old(self).history(key@).last().version < i64::MAX,
        ensures
            final(self).wf(),
            final(self).compacted() == old(self).compacted(),
            ({
                let h = old(self).history(key@);
                let rec = if old(self).is_live(key@) {
                    IndexRecord {
                        rev: rev,
                        create_rev: h.last().create_rev,
                        version: (h.last().version + 1) as i64,
                        tombstone: false,
                    }
                } else {
                    IndexRecord { rev: rev, create_rev: rev.main, version: 1, tombstone: false }
                };
                &&& entries_map(final(self).model()) == entries_map(old(self).model()).insert(
                    key@,
                    h.push(rec),
                )
                &&& r == (
                    if old(self).is_live(key@) {
                        Some(h.last().rev)
                    } else {
                        None
                    },
                    rec.create_rev,
                    rec.version,
                )
            }),
    {
        let mut h = self.records_of(key.as_slice());
        let n = h.len();
        let result = if n > 0 && !h[n - 1].tombstone {
            let last = h[n - 1];
            (Some(last.rev), last.create_rev, last.version + 1)
        } else {
            (None, rev.main, 1)
        };
        h.push(IndexRecord { rev, create_rev: result.1, version: result.2, tombstone: false });
        entries_put(&mut self.keys, key, h);
        result
    }

    /// Records a delete of `key` at `rev`, which ends its live generation.
    /// Returns the revision of the key's last write; fails when the key is
    /// not live.
    pub fn tombstone(&mut self, key: &[u8], rev: Revision) -> (r: Result<Revision, IndexError>)
        requires
            old(self).wf(),
        ensures
            final(self).wf(),
            final(self).compacted() == old(self).compacted(),
            !old(self).is_live(key@) ==> r == Err::<Revision, IndexError>(IndexError::KeyNotFound)
                && final(self).model() == old(self).model(),
            old(self).is_live(key@) ==> r == Ok::<Revision, IndexError>(
                old(self).history(key@).last().rev,
            ) && entries_map(final(self).model()) == entries_map(old(self).model()).insert(
                key@,
                old(self).history(key@).push(
                    IndexRecord { rev: rev, create_rev: 0, version: 0, tombstone: true },
                ),
            ),
    {
        let mut h = self.records_of(key);
        let n = h.len();
        if n == 0 || h[n - 1].tombstone {
            return Err(IndexError::KeyNotFound);
        }
        let prev = h[n - 1].rev;
        h.push(IndexRecord { rev, create_rev: 0, version: 0, tombstone: true });
        entries_put(&mut self.keys, vstd::slice::slice_to_vec(key), h);
        Ok(prev)
    }

    /// The keys of `range` that are live at revision `at` (`0` for the
    /// latest), each with its revision then, in ascending key order. Fails
    /// when `at` lies below the last compaction.
    pub fn get(&self, range: &KeyRange, at: i64) -> (r: Result<Vec<(Vec<u8>, Revision)>, IndexError>)
        requires
            self.wf(),
        ensures
            at != 0 && at < self.compacted() ==> r matches Err(IndexError::RevisionCompacted),
            !(at != 0 && at < self.compacted()) ==> (r matches Ok(v) && key_revs_view(v@) == visible(
                self.model(),
                range.start@,
                range.end@,
                read_rev(at),
            )),
    {
        if at != 0 && at < self.compacted {
            return Err(IndexError::RevisionCompacted);
        }
        let rr = if at == 0 {
            i64::MAX
        } else {
            at
        };
        let ghost ks = self.model();
        let mut out: Vec<(Vec<u8>, Revision)> = Vec::new();
        let mut i: usize = 0;
        while i < self.keys.len()
            invariant
                i <= self.keys@.len(),
                ks == self.model(),
                rr == read_rev(at),
                key_revs_view(out@) == visible(ks.subrange(0, i as int), range.start@, range.end@, rr),
            decreases self.keys@.len() - i,
        {
            let ghost prev = key_revs_view(out@);
            assert(ks.subrange(0, i + 1).drop_last() =~= ks.subrange(0, i as int));
            assert(ks.subrange(0, i + 1).last() == ks[i as int]);
            if range.contains_key(self.keys[i].0.as_slice()) {
                match live_revision(&self.keys[i].1, rr) {
                    Some(v) => {
                        out.push((copy_bytes(&self.keys[i].0), v));
                        assert(key_revs_view(out@) =~= prev.push((ks[i as int].0, v)));
                    },
                    None => {},
                }
            }
            i = i + 1;
        }
        assert(ks.subrange(0, i as int) =~= ks);
        Ok(out)
    }

    /// Every revision, at `start_rev` or later, of a write or delete of a
    /// key of `range`, in ascending revision order.
    pub fn get_from_rev(&self, range: &KeyRange, start_rev: i64) -> (r: Vec<Revision>)
        ensures
            revs_ascending(r@),
            forall|x: Revision| #[trigger] r@.contains(x) <==> written_in_range(
                self.model(),
                range.start@,
                range.end@,
                start_rev,
                x,
            ),
    {
        let ghost ks = self.model();
        let ghost st = range.start@;
        let ghost en = range.end@;
        let mut out: Vec<Revision> = Vec::new();
        let mut i: usize = 0;
        while i < self.keys.len()
            invariant
                i <= self.keys@.len(),
                ks == self.model(),
                st == range.start@,
                en == range.end@,
                revs_ascending(out@),
                forall|x: Revision| #[trigger] out@.contains(x) <==> exists|a: int, b: int|
                    0 <= a < i && 0 <= b < ks[a].1.len() && range_contains(st, en, ks[a].0)
                        && (#[trigger] ks[a].1[b]).rev == x && x.main >= start_rev,
            decreases self.keys@.len() - i,
        {
            assert(ks[i as int].0 == self.keys@[i as int].0@);
            assert(ks[i as int].1 == self.keys@[i as int].1@);
            if range.contains_key(self.keys[i].0.as_slice()) {
                let h = &self.keys[i].1;
                let mut j: usize = 0;
                while j < h.len()
                    invariant
                        i < self.keys@.len(),
                        h == self.keys@[i as int].1,
                        ks == self.model(),
                        ks[i as int].1 == h@,
                        range_contains(st, en, ks[i as int].0),
                        j <= h@.len(),
                        revs_ascending(out@),
                        forall|x: Revision| #[trigger] out@.contains(x) <==> (exists|a: int, b: int|
                            0 <= a < i && 0 <= b < ks[a].1.len() && range_contains(st, en, ks[a].0)
                                && (#[trigger] ks[a].1[b]).rev == x && x.main >= start_rev)
                            || (exists|b: int| 0 <= b < j && (#[trigger] h@[b]).rev == x && x.main >= start_rev),
                    decreases h@.len() - j,
                {
                    let ghost before = out@;
                    if h[j].rev.main >= start_rev {
                        insert_revision(&mut out, h[j].rev);
                    }
                    assert forall|x: Revision| #[trigger] out@.contains(x) <==> (exists|a: int, b: int|
                        0 <= a < i && 0 <= b < ks[a].1.len() && range_contains(st, en, ks[a].0)
                            && (#[trigger] ks[a].1[b]).rev == x && x.main >= start_rev)
                        || (exists|b: int| 0 <= b < j + 1 && (#[trigger] h@[b]).rev == x && x.main >= start_rev) by {
                        if exists|b: int| 0 <= b < j + 1 && (#[trigger] h@[b]).rev == x && x.main >= start_rev {
                            let b = choose|b: int| 0 <= b < j + 1 && (#[trigger] h@[b]).rev == x && x.main >= start_rev;
                            if b < j {
                                assert(before.contains(x));
                            }
                        }
                    }
                    j = j + 1;
                }
                assert forall|x: Revision| #[trigger] out@.contains(x) <==> exists|a: int, b: int|
                    0 <= a < i + 1 && 0 <= b < ks[a].1.len() && range_contains(st, en, ks[a].0)
                        && (#[trigger] ks[a].1[b]).rev == x && x.main >= start_rev by {
                    if exists|b: int| 0 <= b < j && (#[trigger] h@[b]).rev == x && x.main >= start_rev {
                        let b = choose|b: int| 0 <= b < j && (#[trigger] h@[b]).rev == x && x.main >= start_rev;
                        assert(ks[i as int].1[b] == h@[b]);
                    }
                    if exists|a: int, b: int|
                        0 <= a < i + 1 && 0 <= b < ks[a].1.len() && range_contains(st, en, ks[a].0)
                            && (#[trigger] ks[a].1[b]).rev == x && x.main >= start_rev {
                        let (a, b) = choose|a: int, b: int|
                            0 <= a < i + 1 && 0 <= b < ks[a].1.len() && range_contains(st, en, ks[a].0)
                                && (#[trigger] ks[a].1[b]).rev == x && x.main >= start_rev;
                        if a == i {
                            assert(h@[b].rev == x);
                        }
                    }
                }
            } else {
                assert forall|x: Revision| #[trigger] out@.contains(x) <==> exists|a: int, b: int|
                    0 <= a < i + 1 && 0 <= b < ks[a].1.len() && range_contains(st, en, ks[a].0)
                        && (#[trigger] ks[a].1[b]).rev == x && x.main >= start_rev by {
                    if exists|a: int, b: int|
                        0 <= a < i + 1 && 0 <= b < ks[a].1.len() && range_contains(st, en, ks[a].0)
                            && (#[trigger] ks[a].1[b]).rev == x && x.main >= start_rev {
                        let (a, b) = choose|a: int, b: int|
                            0 <= a < i + 1 && 0 <= b < ks[a].1.len() && range_contains(st, en, ks[a].0)
                                && (#[trigger] ks[a].1[b]).rev == x && x.main >= start_rev;
                        assert(a != i);
                    }
                }
            }
            i = i + 1;
        }
        out
    }

    /// Drops the records that no read at `c` or later needs. Fails, and
    /// changes nothing, when `c` is not above the last compaction.
    pub fn compact(&mut self, c: i64) -> (r: Result<(), IndexError>)
        requires
            old(self).wf(),
        ensures
            final(self).wf(),
            c <= old(self).compacted() ==> r == Err::<(), IndexError>(IndexError::RevisionCompacted)
                && *final(self) == *old(self),
            c > old(self).compacted() ==> {
                &&& r is Ok
                &&& final(self).compacted() == c
                &&& final(self).model() == compact_keys(old(self).model(), c)
            },
    {
        if c <= self.compacted {
            return Err(IndexError::RevisionCompacted);
        }
        let ghost ks = self.model();
        let mut out: Vec<(Vec<u8>, Vec<IndexRecord>)> = Vec::new();
        let mut i: usize = 0;
        while i < self.keys.len()
            invariant
                i <= self.keys@.len(),
                ks == self.model(),
                entries_model(out) == compact_keys(ks.subrange(0, i as int), c),
            decreases self.keys@.len() - i,
        {
            let ghost prev = entries_model(out);
            assert(ks.subrange(0, i + 1).drop_last() =~= ks.subrange(0, i as int));
            assert(ks.subrange(0, i + 1).last() == ks[i as int]);
            let h = compact_records(&self.keys[i].1, c);
            if h.len() > 0 {
                out.push((copy_bytes(&self.keys[i].0), h));
                assert(entries_model(out) =~= prev.push((ks[i as int].0, h@)));
            }
            i = i + 1;
        }
        assert(ks.subrange(0, i as int) =~= ks);
        proof {
            lemma_compact_keys_sorted(ks, c);
        }
        self.keys = out;
        self.compacted = c;
        Ok(())
    }
}

} // verus!
