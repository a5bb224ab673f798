//! What a range request makes of the records it reads: revision filters,
//! sorting, the limit, and the keys-only and count-only forms.
use vstd::prelude::*;

use crate::bytes::{compare_bytes, lex_lt};
use crate::rpc::{KeyValue, KeyValueView, RangeRequest, SortOrder, SortTarget};

verus! {

/// The records of `s` as views.
pub open spec fn kvs_view(s: Seq<KeyValue>) -> Seq<KeyValueView> {
    s.map_values(|kv: KeyValue| kv@)
}

/// Whether `kv` passes the revision bounds of `req`; a bound of `0` is
/// no bound.
pub open spec fn passes_filters(kv: KeyValueView, req: RangeRequest) -> bool {
    &&& (req.min_mod_revision == 0 || kv.mod_revision >= req.min_mod_revision)
    &&& (req.max_mod_revision == 0 || kv.mod_revision <= req.max_mod_revision)
    &&& (req.min_create_revision == 0 || kv.create_revision >= req.min_create_revision)
    &&& (req.max_create_revision == 0 || kv.create_revision <= req.max_create_revision)
}

/// The records of `s` that pass the revision bounds of `req`, in order.
pub open spec fn filtered(s: Seq<KeyValueView>, req: RangeRequest) -> Seq<KeyValueView>
    decreases s.len(),
{
    if s.len() == 0 {
        Seq::empty()
    } else if passes_filters(s.last(), req) {
        filtered(s.drop_last(), req).push(s.last())
    } else {
        filtered(s.drop_last(), req)
    }
}

/// `a` is below `b` in the field `target`.
pub open spec fn target_lt(a: KeyValueView, b: KeyValueView, target: SortTarget) -> bool {
    match target {
        SortTarget::Key => lex_lt(a.key, b.key),
        SortTarget::Version => a.version < b.version,
        SortTarget::Create => a.create_revision < b.create_revision,
        SortTarget::Mod => a.mod_revision < b.mod_revision,
        SortTarget::Value => lex_lt(a.value, b.value),
    }
}

/// `a` goes strictly before `b` in order `order` of field `target`.
pub open spec fn goes_before(a: KeyValueView, b: KeyValueView, target: SortTarget, order: SortOrder) -> bool {
    match order {
        SortOrder::Descend => target_lt(b, a, target),
        _ => target_lt(a, b, target),
    }
}

/// Where `x` goes into `s`: after the last record that `x` does not go
/// before.
pub open spec fn insert_position(s: Seq<KeyValueView>, x: KeyValueView, target: SortTarget, order: SortOrder) -> int
    decreases s.len(),
{
    if s.len() == 0 {
        0
    } else if goes_before(x, s.last(), target, order) {
        insert_position(s.drop_last(), x, target, order)
    } else {
        s.len() as int
    }
}

/// `s` sorted by field `target` in order `order`, records that compare
/// equal keeping their order: each record in turn goes after the last one
/// placed that it does not go before.
pub open spec fn sorted_by(s: Seq<KeyValueView>, target: SortTarget, order: SortOrder) -> Seq<KeyValueView>
    decreases s.len(),
{
    if s.len() == 0 {
        Seq::empty()
    } else {
        let t = sorted_by(s.drop_last(), target, order);
        t.insert(insert_position(t, s.last(), target, order), s.last())
    }
}

/// The records a request returns from `s`, the live records of its range
/// in key order: filtered, sorted unless the order is `Unsorted`, cut to
/// the limit when it is positive, without values when only keys are asked
/// for, and none when only the count is.
pub open spec fn range_result(s: Seq<KeyValueView>, req: RangeRequest) -> Seq<KeyValueView> {
    let f = filtered(s, req);
    let o = if req.sort_order == SortOrder::Unsorted {
        f
    } else {
        sorted_by(f, req.sort_target, req.sort_order)
    };
    let l = if req.limit > 0 && req.limit < o.len() {
        o.take(req.limit as int)
    } else {
        o
    };
    if req.count_only {
        Seq::empty()
    } else if req.keys_only {
        l.map_values(|kv: KeyValueView| KeyValueView { value: Seq::empty(), ..kv })
    } else {
        l
    }
}

/// The answer to a range request.
#[derive(Debug)]
pub struct RangeResponse {
    /// The records.
    pub kvs: Vec<KeyValue>,
    /// The number of records that passed the filters, before the limit.
    pub count: i64,
    /// Whether the limit left records out.
    pub more: bool,
}

fn passes(kv: &KeyValue, req: &RangeRequest) -> (r: bool)
    ensures
        r == passes_filters(kv@, *req),
{
    (req.min_mod_revision == 0 || kv.mod_revision >= req.min_mod_revision) && (req.max_mod_revision
        == 0 || kv.mod_revision <= req.max_mod_revision) && (req.min_create_revision == 0
        || kv.create_revision >= req.min_create_revision) && (req.max_create_revision == 0
        || kv.create_revision <= req.max_create_revision)
}

fn before(a: &KeyValue, b: &KeyValue, target: SortTarget, order: SortOrder) -> (r: bool)
    ensures
        r == goes_before(a@, b@, target, order),
{
    let (x, y) = match order {
        SortOrder::Descend => (b, a),
        _ => (a, b),
    };
    match target {
        SortTarget::Key => compare_bytes(x.key.as_slice(), y.key.as_slice()) < 0,
        SortTarget::Version => x.version < y.version,
        SortTarget::Create => x.create_revision < y.create_revision,
        SortTarget::Mod => x.mod_revision < y.mod_revision,
        SortTarget::Value => compare_bytes(x.value.as_slice(), y.value.as_slice()) < 0,
    }
}

/// The records of `kvs` that pass the revision bounds of `req`, in order.
pub fn filter_kvs(kvs: Vec<KeyValue>, req: &RangeRequest) -> (r: Vec<KeyValue>)
    ensures
        kvs_view(r@) == filtered(kvs_view(kvs@), *req),
{
    let ghost all = kvs_view(kvs@);
    let mut rest = kvs;
    let mut kept_rev: Vec<KeyValue> = Vec::new();
    let ghost n = all.len();
    proof {
        assert(all.take(n as int) =~= all);
        assert(filtered(all, *req) + kvs_view(kept_rev@).reverse() =~= filtered(all, *req));
    }
    while rest.len() > 0
        invariant
            rest@.len() <= n,
            n == all.len(),
            kvs_view(rest@) == all.take(rest@.len() as int),
            filtered(all, *req) == filtered(all.take(rest@.len() as int), *req) + kvs_view(kept_rev@).reverse(),
        decreases rest@.len(),
    {
        let ghost before_rest = kvs_view(rest@);
        let ghost before_kept = kvs_view(kept_rev@);
        let kv = rest.pop().unwrap();
        let ghost m = rest@.len() as int;
        proof {
            assert(kvs_view(rest@) =~= before_rest.drop_last());
            assert(all.take(m + 1).drop_last() =~= all.take(m));
            assert(all.take(m + 1).last() == kv@);
        }
        if passes(&kv, req) {
            kept_rev.push(kv);
            proof {
                assert(kvs_view(kept_rev@).reverse() =~= seq![kv@] + before_kept.reverse());
                assert(filtered(all.take(m), *req).push(kv@) + before_kept.reverse() =~= filtered(
                    all.take(m),
                    *req,
                ) + (seq![kv@] + before_kept.reverse()));
            }
        }
    }
    proof {
        assert(all.take(0) =~= Seq::<KeyValueView>::empty());
        assert(filtered(all.take(0), *req) + kvs_view(kept_rev@).reverse() =~= kvs_view(kept_rev@).reverse());
    }
    let mut out: Vec<KeyValue> = Vec::new();
    let ghost kr = kvs_view(kept_rev@);
    while kept_rev.len() > 0
        invariant
            kr.reverse() == kvs_view(out@) + kvs_view(kept_rev@).reverse(),
        decreases kept_rev@.len(),
    {
        let ghost prev_out = kvs_view(out@);
        let ghost prev_kept = kvs_view(kept_rev@);
        let kv = kept_rev.pop().unwrap();
        out.push(kv);
        proof {
            assert(kvs_view(kept_rev@) =~= prev_kept.drop_last());
            assert(prev_kept.reverse() =~= seq![prev_kept.last()] + prev_kept.drop_last().reverse());
            assert(kvs_view(out@) =~= prev_out.push(prev_kept.last()));
            assert(kvs_view(out@) + kvs_view(kept_rev@).reverse() =~= prev_out + prev_kept.reverse());
        }
    }
    proof {
        assert(kvs_view(out@) + kvs_view(kept_rev@).reverse() =~= kvs_view(out@));
    }
    out
}

/// `kvs` sorted by field `target` in order `order`, records that compare
/// equal keeping their order.
pub fn sort_kvs(kvs: Vec<KeyValue>, target: SortTarget, order: SortOrder) -> (r: Vec<KeyValue>)
    ensures
        kvs_view(r@) == sorted_by(kvs_view(kvs@), target, order),
{
    let ghost all = kvs_view(kvs@);
    let mut rest = kvs;
    let mut out: Vec<KeyValue> = Vec::new();
    let ghost mut i: int = 0;
    proof {
        assert(all.skip(0) =~= all);
        assert(all.take(0) =~= Seq::<KeyValueView>::empty());
    }
    while rest.len() > 0
        invariant
            0 <= i <= all.len(),
            kvs_view(rest@) == all.skip(i),
            kvs_view(out@) == sorted_by(all.take(i), target, order),
        decreases rest@.len(),
    {
        let ghost before_rest = kvs_view(rest@);
        let ghost rest_old = rest@;
        let x = rest.remove(0);
        proof {
            assert(x == rest_old[0]);
            assert(before_rest.len() == rest_old.len());
            assert(before_rest[0] == rest_old[0]@);
            assert(i < all.len());
            assert(all.skip(i)[0] == all[i]);
            assert(kvs_view(rest@) =~= before_rest.drop_first());
        }
        let ghost ov = kvs_view(out@);
        let mut p: usize = out.len();
        proof {
            assert(ov.take(p as int) =~= ov);
        }
        while p > 0 && before(&x, &out[p - 1], target, order)
            invariant
                p <= out@.len(),
                ov == kvs_view(out@),
                insert_position(ov, x@, target, order) == insert_position(ov.take(p as int), x@, target, order),
            decreases p,
        {
            proof {
                assert(ov.take(p as int).drop_last() =~= ov.take(p - 1));
                assert(ov.take(p as int).last() == out@[p - 1]@);
            }
            p = p - 1;
        }
        proof {
            if p > 0 {
                assert(ov.take(p as int).last() == out@[p - 1]@);
            }
        }
        let ghost xv = x@;
        out.insert(p, x);
        proof {
            assert(kvs_view(out@) =~= ov.insert(p as int, xv));
            assert(all.take(i + 1).drop_last() =~= all.take(i));
            assert(all.take(i + 1).last() == xv);
            assert(all.skip(i + 1) =~= all.skip(i).drop_first());
            i = i + 1;
        }
    }
    proof {
        assert(all.take(i) =~= all);
    }
    out
}

/// What request `req` answers from `kvs`, the live records of its range
/// in key order.
pub fn answer_range(kvs: Vec<KeyValue>, req: &RangeRequest) -> (r: RangeResponse)
    ensures
        kvs_view(r.kvs@) == range_result(kvs_view(kvs@), *req),
        r.count == filtered(kvs_view(kvs@), *req).len() as i64,
        r.more == (req.limit > 0 && req.limit < filtered(kvs_view(kvs@), *req).len()),
{
    let f = filter_kvs(kvs, req);
    let ghost fv = kvs_view(f@);
    let count = f.len() as i64;
    let mut o = if req.sort_order == SortOrder::Unsorted {
        f
    } else {
        sort_kvs(f, req.sort_target, req.sort_order)
    };
    proof {
        lemma_sorted_by_len(fv, req.sort_target, req.sort_order);
    }
    let ghost ov = kvs_view(o@);
    let more = req.limit > 0 && (req.limit as u64) < (o.len() as u64);
    if more {
        o.truncate(req.limit as usize);
        assert(kvs_view(o@) =~= ov.take(req.limit as int));
    }
    let ghost lv = kvs_view(o@);
    if req.count_only {
        return RangeResponse { kvs: Vec::new(), count, more };
    }
    if req.keys_only {
        let mut out: Vec<KeyValue> = Vec::new();
        let ghost mut i: int = 0;
        proof {
            assert(lv.skip(0) =~= lv);
        }
        while o.len() > 0
            invariant
                0 <= i <= lv.len(),
                kvs_view(o@) == lv.skip(i),
                kvs_view(out@) == lv.take(i).map_values(
                    |kv: KeyValueView| KeyValueView { value: Seq::empty(), ..kv },
                ),
            decreases o@.len(),
        {
            let ghost o_old = o@;
            let ghost prev = kvs_view(out@);
            let mut kv = o.remove(0);
            proof {
                assert(kv == o_old[0]);
                assert(kvs_view(o_old).len() == o_old.len());
                assert(i < lv.len());
                assert(lv.skip(i)[0] == lv[i]);
                assert(kvs_view(o_old)[0] == o_old[0]@);
                assert(kvs_view(o@) =~= kvs_view(o_old).drop_first());
                assert(kvs_view(o@) =~= lv.skip(i + 1));
            }
            kv.value = Vec::new();
            let ghost kvv = kv@;
            out.push(kv);
            proof {
                assert(kvv.value =~= Seq::<u8>::empty());
                assert(kvv == (KeyValueView { value: Seq::empty(), ..lv[i] }));
                assert(kvs_view(out@) =~= prev.push(kvv));
                assert(lv.take(i + 1) =~= lv.take(i).push(lv[i]));
                assert(kvs_view(out@) =~= lv.take(i + 1).map_values(
                    |kv: KeyValueView| KeyValueView { value: Seq::empty(), ..kv },
                ));
                i = i + 1;
            }
        }
        proof {
            assert(lv.take(i) =~= lv);
        }
        return RangeResponse { kvs: out, count, more };
    }
    RangeResponse { kvs: o, count, more }
}

proof fn lemma_sorted_by_len(s: Seq<KeyValueView>, target: SortTarget, order: SortOrder)
    ensures
        sorted_by(s, target, order).len() == s.len(),
    decreases s.len(),
{
    if s.len() > 0 {
        lemma_sorted_by_len(s.drop_last(), target, order);
        lemma_insert_position_bounds(sorted_by(s.drop_last(), target, order), s.last(), target, order);
    }
}

proof fn lemma_insert_position_bounds(s: Seq<KeyValueView>, x: KeyValueView, target: SortTarget, order: SortOrder)
    ensures
        0 <= insert_position(s, x, target, order) <= s.len(),
    decreases s.len(),
{
    if s.len() > 0 {
        lemma_insert_position_bounds(s.drop_last(), x, target, order);
    }
}

/// With no revision bounds, filtering keeps every record.
pub proof fn lemma_unbounded_filter(s: Seq<KeyValueView>, req: RangeRequest)
    requires
        req.min_mod_revision == 0,
        req.max_mod_revision == 0,
        req.min_create_revision == 0,
        req.max_create_revision == 0,
    ensures
        filtered(s, req) == s,
    decreases s.len(),
{
    if s.len() > 0 {
        lemma_unbounded_filter(s.drop_last(), req);
        assert(s.drop_last().push(s.last()) =~= s);
    }
}

} // verus!
