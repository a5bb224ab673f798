//! Pairs keyed by byte strings, held in strictly
//! ascending key order and seen as a map from key to value: the tables of
//! the storage engine and the key histories of the revision index.
use vstd::prelude::*;

use crate::bytes::{compare_bytes, lemma_lex_asym, lemma_lex_total, lemma_lex_trans, lex_le, lex_lt};

verus! {

/// The pairs of one table.
pub type Entries = Vec<(Vec<u8>, Vec<u8>)>;

/// What a table holds, as byte strings.
pub type EntriesModel = Seq<(Seq<u8>, Seq<u8>)>;

/// The pairs of `e` as byte strings.
pub open spec fn entries_model<V: View>(e: Vec<(Vec<u8>, V)>) -> Seq<(Seq<u8>, V::V)> {
    e@.map_values(|p: (Vec<u8>, V)| (p.0@, p.1@))
}

/// Keys strictly ascending, so each at most once.
pub open spec fn sorted_keys<W>(s: Seq<(Seq<u8>, W)>) -> bool {
    forall|i: int, j: int| 0 <= i < j < s.len() ==> lex_lt(#[trigger] s[i].0, #[trigger] s[j].0)
}

/// Whether some pair of `s` has key `k`.
pub open spec fn has_key<W>(s: Seq<(Seq<u8>, W)>, k: Seq<u8>) -> bool {
    exists|i: int| 0 <= i < s.len() && (#[trigger] s[i]).0 == k
}

/// The map from key to value that the pairs of `s` describe.
pub open spec fn entries_map<W>(s: Seq<(Seq<u8>, W)>) -> Map<Seq<u8>, W> {
    Map::new(
        |k: Seq<u8>| has_key(s, k),
        |k: Seq<u8>| s[choose|i: int| 0 <= i < s.len() && (#[trigger] s[i]).0 == k].1,
    )
}

/// Whether `k` lies in `[from, to)`.
pub open spec fn in_span(from: Seq<u8>, to: Seq<u8>, k: Seq<u8>) -> bool {
    lex_le(from, k) && lex_lt(k, to)
}

/// `m` without the keys of `[from, to)`.
pub open spec fn span_removed(m: Map<Seq<u8>, Seq<u8>>, from: Seq<u8>, to: Seq<u8>) -> Map<
    Seq<u8>,
    Seq<u8>,
> {
    Map::new(|k: Seq<u8>| m.contains_key(k) && !in_span(from, to, k), |k: Seq<u8>| m[k])
}

/// In sorted pairs, the pair at `i` is what the map says of its key.
pub proof fn lemma_entries_map_at<W>(s: Seq<(Seq<u8>, W)>, i: int)
    requires
        sorted_keys(s),
        0 <= i < s.len(),
    ensures
        entries_map(s).contains_key(s[i].0),
        entries_map(s)[s[i].0] == s[i].1,
{
    assert(has_key(s, s[i].0));
    let j = choose|j: int| 0 <= j < s.len() && (#[trigger] s[j]).0 == s[i].0;
    if j < i {
        lemma_lex_asym(s[j].0, s[i].0);
    } else if i < j {
        lemma_lex_asym(s[i].0, s[j].0);
    }
}

/// Two sorted pair lists with the same keys and values at each key describe
/// the same map.
proof fn lemma_same_map<W>(s: Seq<(Seq<u8>, W)>, m: Map<Seq<u8>, W>)
    requires
        sorted_keys(s),
        forall|k: Seq<u8>| has_key(s, k) <==> m.contains_key(k),
        forall|i: int| 0 <= i < s.len() ==> m[(#[trigger] s[i]).0] == s[i].1,
    ensures
        entries_map(s) == m,
{
    assert forall|k: Seq<u8>| #[trigger] entries_map(s).contains_key(k) implies entries_map(s)[k]
        == m[k] by {
        let i = choose|i: int| 0 <= i < s.len() && (#[trigger] s[i]).0 == k;
        lemma_entries_map_at(s, i);
    }
    assert(entries_map(s) =~= m);
}

/// Where `key` stands in sorted pairs: `Ok(i)` when pair `i` has it, else
/// `Err(i)` with the smaller keys before `i` and the greater from `i` on.
pub fn find_key<V: View>(e: &Vec<(Vec<u8>, V)>, key: &[u8]) -> (r: Result<usize, usize>)
    requires
        sorted_keys(entries_model(*e)),
    ensures
        match r {
            Ok(i) => i < e@.len() && entries_model(*e)[i as int].0 == key@,
            Err(i) => {
                &&& i <= e@.len()
                &&& forall|j: int| 0 <= j < i ==> lex_lt(#[trigger] entries_model(*e)[j].0, key@)
                &&& forall|j: int| i <= j < e@.len() ==> lex_lt(key@, #[trigger] entries_model(*e)[j].0)
            },
        },
        r is Err ==> !has_key(entries_model(*e), key@),
{
    let ghost s = entries_model(*e);
    let mut i: usize = 0;
    while i < e.len()
        invariant
            i <= e@.len(),
            s == entries_model(*e),
            sorted_keys(s),
            forall|j: int| 0 <= j < i ==> lex_lt(#[trigger] s[j].0, key@),
        decreases e@.len() - i,
    {
        let c = compare_bytes(key, e[i].0.as_slice());
        if c == 0 {
            return Ok(i);
        }
        if c < 0 {
            assert forall|j: int| i <= j < e@.len() implies lex_lt(key@, #[trigger] s[j].0) by {
                if j > i {
                    lemma_lex_trans(key@, s[i as int].0, s[j].0);
                }
            }
            assert forall|j: int| 0 <= j < s.len() implies (#[trigger] s[j]).0 != key@ by {
                if j < i {
                    lemma_lex_asym(s[j].0, key@);
                } else {
                    lemma_lex_asym(key@, s[j].0);
                }
            }
            return Err(i);
        }
        i = i + 1;
    }
    assert forall|j: int| 0 <= j < s.len() implies (#[trigger] s[j]).0 != key@ by {
        lemma_lex_asym(s[j].0, key@);
    }
    Err(i)
}

/// The value that sorted pairs hold for `key`.
pub fn lookup(e: &Entries, key: &[u8]) -> (r: Option<Vec<u8>>)
    requires
        sorted_keys(entries_model(*e)),
    ensures
        match r {
            Some(v) => entries_map(entries_model(*e)).contains_key(key@) && v@ == entries_map(
                entries_model(*e),
            )[key@],
            None => !entries_map(entries_model(*e)).contains_key(key@),
        },
{
    match find_key(e, key) {
        Ok(i) => {
            proof {
                lemma_entries_map_at(entries_model(*e), i as int);
            }
            Some(copy_bytes(&e[i].1))
        },
        Err(_) => None,
    }
}

/// A copy of a byte string.
pub fn copy_bytes(v: &Vec<u8>) -> (r: Vec<u8>)
    ensures
        r@ == v@,
{
    let mut r: Vec<u8> = Vec::new();
    let mut i: usize = 0;
    while i < v.len()
        invariant
            i <= v@.len(),
            r@ == v@.subrange(0, i as int),
        decreases v@.len() - i,
    {
        r.push(v[i]);
        i = i + 1;
        assert(r@ =~= v@.subrange(0, i as int));
    }
    assert(v@.subrange(0, i as int) =~= v@);
    r
}

/// Binds `key` to `value`.
pub fn entries_put<V: View>(e: &mut Vec<(Vec<u8>, V)>, key: Vec<u8>, value: V)
    requires
        sorted_keys(entries_model(*old(e))),
    ensures
        sorted_keys(entries_model(*final(e))),
        entries_map(entries_model(*final(e))) == entries_map(entries_model(*old(e))).insert(
            key@,
            value@,
        ),
{
    let ghost s = entries_model(*e);
    let ghost m = entries_map(s).insert(key@, value@);
    let ghost kv = (key@, value@);
    match find_key(e, key.as_slice()) {
        Ok(i) => {
            e.set(i, (key, value));
            let ghost t = entries_model(*e);
            assert(t =~= s.update(i as int, kv));
            assert forall|k: Seq<u8>| has_key(t, k) <==> m.contains_key(k) by {
                if has_key(s, k) {
                    let j = choose|j: int| 0 <= j < s.len() && (#[trigger] s[j]).0 == k;
                    assert(t[j].0 == k);
                }
                if has_key(t, k) {
                    let j = choose|j: int| 0 <= j < t.len() && (#[trigger] t[j]).0 == k;
                    assert(s[j].0 == k);
                }
            }
            assert forall|j: int| 0 <= j < t.len() implies m[(#[trigger] t[j]).0] == t[j].1 by {
                if j != i {
                    lemma_entries_map_at(s, j);
                    lemma_lex_total(s[j].0, s[i as int].0);
                    if j < i {
                        lemma_lex_asym(s[j].0, s[i as int].0);
                    } else {
                        lemma_lex_asym(s[i as int].0, s[j].0);
                    }
                }
            }
            proof {
                lemma_same_map(t, m);
            }
        },
        Err(i) => {
            e.insert(i, (key, value));
            let ghost t = entries_model(*e);
            assert(t =~= s.insert(i as int, kv));
            assert forall|a: int, b: int| 0 <= a < b < t.len() implies lex_lt(
                #[trigger] t[a].0,
                #[trigger] t[b].0,
            ) by {
                if a < i && b > i {
                    lemma_lex_trans(s[a].0, kv.0, s[b - 1].0);
                }
            }
            assert forall|k: Seq<u8>| has_key(t, k) <==> m.contains_key(k) by {
                if has_key(s, k) {
                    let j = choose|j: int| 0 <= j < s.len() && (#[trigger] s[j]).0 == k;
                    if j < i {
                        assert(t[j].0 == k);
                    } else {
                        assert(t[j + 1].0 == k);
                    }
                }
                if k == kv.0 {
                    assert(t[i as int].0 == k);
                }
                if has_key(t, k) {
                    let j = choose|j: int| 0 <= j < t.len() && (#[trigger] t[j]).0 == k;
                    if j < i {
                        assert(s[j].0 == k);
                    } else if j > i {
                        assert(s[j - 1].0 == k);
                    }
                }
            }
            assert forall|j: int| 0 <= j < t.len() implies m[(#[trigger] t[j]).0] == t[j].1 by {
                if j < i {
                    lemma_entries_map_at(s, j);
                    lemma_lex_asym(s[j].0, key@);
                } else if j > i {
                    lemma_entries_map_at(s, j - 1);
                    lemma_lex_asym(key@, s[j - 1].0);
                }
            }
            proof {
                lemma_same_map(t, m);
            }
        },
    }
}

/// Removes the binding of `key`, if any.
pub fn entries_delete<V: View>(e: &mut Vec<(Vec<u8>, V)>, key: &[u8])
    requires
        sorted_keys(entries_model(*old(e))),
    ensures
        sorted_keys(entries_model(*final(e))),
        entries_map(entries_model(*final(e))) == entries_map(entries_model(*old(e))).remove(key@),
{
    let ghost s = entries_model(*e);
    let ghost m = entries_map(s).remove(key@);
    match find_key(e, key) {
        Ok(i) => {
            let _ = e.remove(i);
            let ghost t = entries_model(*e);
            assert(t =~= s.remove(i as int));
            assert forall|a: int, b: int| 0 <= a < b < t.len() implies lex_lt(
                #[trigger] t[a].0,
                #[trigger] t[b].0,
            ) by {
                if a < i && b >= i {
                    assert(t[b] == s[b + 1]);
                } else if a >= i {
                    assert(t[a] == s[a + 1]);
                    assert(t[b] == s[b + 1]);
                }
            }
            assert forall|j: int| 0 <= j < t.len() implies (#[trigger] t[j]).0 != key@ by {
                if j < i {
                    lemma_lex_asym(s[j].0, s[i as int].0);
                } else {
                    lemma_lex_asym(s[i as int].0, s[j + 1].0);
                }
            }
            assert forall|k: Seq<u8>| has_key(t, k) <==> m.contains_key(k) by {
                if has_key(s, k) && k != key@ {
                    let j = choose|j: int| 0 <= j < s.len() && (#[trigger] s[j]).0 == k;
                    if j < i {
                        assert(t[j].0 == k);
                    } else {
                        assert(j != i);
                        assert(t[j - 1].0 == k);
                    }
                }
                if has_key(t, k) {
                    let j = choose|j: int| 0 <= j < t.len() && (#[trigger] t[j]).0 == k;
                    if j < i {
                        assert(s[j].0 == k);
                    } else {
                        assert(s[j + 1].0 == k);
                    }
                }
            }
            assert forall|j: int| 0 <= j < t.len() implies m[(#[trigger] t[j]).0] == t[j].1 by {
                if j < i {
                    lemma_entries_map_at(s, j);
                } else {
                    lemma_entries_map_at(s, j + 1);
                }
            }
            proof {
                lemma_same_map(t, m);
            }
        },
        Err(_) => {
            assert(entries_map(s).remove(key@) =~= entries_map(s));
        },
    }
}

/// Removes every binding whose key lies in `[from, to)`.
pub fn entries_delete_range(e: &mut Entries, from: &[u8], to: &[u8])
    requires
        sorted_keys(entries_model(*old(e))),
    ensures
        sorted_keys(entries_model(*final(e))),
        entries_map(entries_model(*final(e))) == span_removed(
            entries_map(entries_model(*old(e))),
            from@,
            to@,
        ),
{
    let ghost s = entries_model(*e);
    let ghost m = span_removed(entries_map(s), from@, to@);
    let mut kept: Entries = Vec::new();
    let ghost mut idx: Seq<int> = Seq::empty();
    let mut i: usize = 0;
    while i < e.len()
        invariant
            i <= e@.len(),
            s == entries_model(*e),
            sorted_keys(s),
            idx.len() == kept@.len(),
            forall|x: int|
                0 <= x < idx.len() ==> 0 <= #[trigger] idx[x] < i && entries_model(kept)[x] == s[idx[x]]
                    && !in_span(from@, to@, s[idx[x]].0),
            forall|x: int, y: int| 0 <= x < y < idx.len() ==> #[trigger] idx[x] < #[trigger] idx[y],
            forall|j: int|
                0 <= j < i && !in_span(from@, to@, #[trigger] s[j].0) ==> exists|x: int|
                    0 <= x < idx.len() && idx[x] == j,
        decreases e@.len() - i,
    {
        let k = e[i].0.as_slice();
        let lo = compare_bytes(from, k);
        let hi = compare_bytes(k, to);
        if !(lo <= 0 && hi < 0) {
            let pair = (copy_bytes(&e[i].0), copy_bytes(&e[i].1));
            kept.push(pair);
            proof {
                let old_idx = idx;
                idx = idx.push(i as int);
                assert forall|j: int|
                    0 <= j < i + 1 && !in_span(from@, to@, #[trigger] s[j].0) implies exists|x: int|
                    0 <= x < idx.len() && idx[x] == j by {
                    if j < i {
                        let x = choose|x: int| 0 <= x < old_idx.len() && old_idx[x] == j;
                        assert(idx[x] == j);
                    } else {
                        assert(idx[idx.len() - 1] == j);
                    }
                }
            }
        }
        i = i + 1;
    }
    let ghost t = entries_model(kept);
    assert forall|a: int, b: int| 0 <= a < b < t.len() implies lex_lt(#[trigger] t[a].0, #[trigger] t[b].0) by {
        assert(idx[a] < idx[b]);
    }
    assert forall|k: Seq<u8>| has_key(t, k) <==> m.contains_key(k) by {
        if m.contains_key(k) {
            let j = choose|j: int| 0 <= j < s.len() && (#[trigger] s[j]).0 == k;
            let x = choose|x: int| 0 <= x < idx.len() && idx[x] == j;
            assert(t[x].0 == k);
        }
        if has_key(t, k) {
            let x = choose|x: int| 0 <= x < t.len() && (#[trigger] t[x]).0 == k;
            assert(s[idx[x]].0 == k);
        }
    }
    assert forall|x: int| 0 <= x < t.len() implies m[(#[trigger] t[x]).0] == t[x].1 by {
        lemma_entries_map_at(s, idx[x]);
    }
    proof {
        lemma_same_map(t, m);
    }
    *e = kept;
}

} // verus!
