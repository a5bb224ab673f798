//! Watchers: subscriptions to the changes of a key range from a revision
//! on, and the choice of what each of them is sent for a batch of changes.
use std::collections::HashMap;

use vstd::prelude::*;

use crate::entries::copy_bytes;
use crate::key_range::{range_contains, KeyRange};
use crate::rpc::{events_view, Event, EventType, EventView, KeyValue};

verus! {

broadcast use vstd::std_specs::hash::group_hash_axioms;

/// Identity of a watcher.
pub type WatchId = i64;

/// Hands out watch ids one after another.
#[derive(Debug)]
pub struct WatchIdGenerator {
    last: i64,
}

impl WatchIdGenerator {
    /// A generator whose first id follows `rev`.
    pub fn new(rev: i64) -> (r: WatchIdGenerator)
        ensures
            r.last() == rev,
    {
        WatchIdGenerator { last: rev }
    }

    /// The id handed out last, or the seed.
    pub closed spec fn last(&self) -> i64 {
        self.last
    }

    /// The next id: one past the last, wrapping at the end of `i64`.
    pub fn next(&mut self) -> (r: i64)
        ensures
            r == old(self).last().wrapping_add(1),
            final(self).last() == r,
    {
        self.last = self.last.wrapping_add(1);
        self.last
    }
}

/// What a watcher is, as plain values.
pub struct WatcherView {
    pub start: Seq<u8>,
    pub end: Seq<u8>,
    pub watch_id: WatchId,
    pub start_rev: i64,
    pub filters: Seq<EventType>,
}

/// A subscription to the changes of a key range.
#[derive(Debug)]
pub struct Watcher {
    key_range: KeyRange,
    watch_id: WatchId,
    start_rev: i64,
    filters: Vec<EventType>,
}

impl View for Watcher {
    type V = WatcherView;

    closed spec fn view(&self) -> WatcherView {
        WatcherView {
            start: self.key_range.start@,
            end: self.key_range.end@,
            watch_id: self.watch_id,
            start_rev: self.start_rev,
            filters: self.filters@,
        }
    }
}

impl PartialEq for Watcher {
    /// Watchers are the same when their ids are.
    fn eq(&self, other: &Watcher) -> (r: bool) {
        self.watch_id == other.watch_id
    }
}

impl vstd::std_specs::cmp::PartialEqSpecImpl for Watcher {
    open spec fn obeys_eq_spec() -> bool {
        true
    }

    open spec fn eq_spec(&self, other: &Watcher) -> bool {
        self@.watch_id == other@.watch_id
    }
}

/// A batch of events sent to one watcher.
#[derive(Debug)]
pub struct WatchResponse {
    /// The watcher it is for.
    pub watch_id: WatchId,
    /// Revision of the batch.
    pub revision: i64,
    /// The events, in the order of the batch.
    pub events: Vec<Event>,
}

/// What a response holds, as plain values.
pub struct ResponseView {
    pub watch_id: WatchId,
    pub revision: i64,
    pub events: Seq<EventView>,
}

impl View for WatchResponse {
    type V = ResponseView;

    open spec fn view(&self) -> ResponseView {
        ResponseView { watch_id: self.watch_id, revision: self.revision, events: events_view(self.events@) }
    }
}

/// Whether `w` is sent event `e`: its key lies in the range, it comes at or
/// after the start revision, and no filter drops its kind.
pub open spec fn selects(w: WatcherView, e: EventView) -> bool {
    &&& range_contains(w.start, w.end, e.kv.key)
    &&& e.kv.mod_revision >= w.start_rev
    &&& !w.filters.contains(e.event_type)
}

/// The events of `evs` that `w` selects, in order.
pub open spec fn selected(w: WatcherView, evs: Seq<EventView>) -> Seq<EventView>
    decreases evs.len(),
{
    if evs.len() == 0 {
        Seq::empty()
    } else {
        let r = selected(w, evs.drop_last());
        if selects(w, evs.last()) {
            r.push(evs.last())
        } else {
            r
        }
    }
}

/// The events that `w` is sent for a batch `evs` of revision `rev`.
pub open spec fn delivered(w: WatcherView, rev: i64, evs: Seq<EventView>) -> Seq<EventView> {
    if rev < w.start_rev {
        Seq::empty()
    } else {
        selected(w, evs)
    }
}

/// The responses for a batch `evs` of revision `rev`: one for each watcher
/// of `ws` that is sent some event, in the order of `ws`.
pub open spec fn dispatched(ws: Seq<WatcherView>, rev: i64, evs: Seq<EventView>) -> Seq<ResponseView>
    decreases ws.len(),
{
    if ws.len() == 0 {
        Seq::empty()
    } else {
        let r = dispatched(ws.drop_last(), rev, evs);
        let w = ws.last();
        let b = delivered(w, rev, evs);
        if b.len() > 0 {
            r.push(ResponseView { watch_id: w.watch_id, revision: rev, events: b })
        } else {
            r
        }
    }
}

/// The events of a stream of batches `(revision, events)`, in order.
pub open spec fn stream_events(batches: Seq<(i64, Seq<EventView>)>) -> Seq<EventView>
    decreases batches.len(),
{
    if batches.len() == 0 {
        Seq::empty()
    } else {
        stream_events(batches.drop_last()) + batches.last().1
    }
}

/// What `w` is sent over a stream of batches, in order.
pub open spec fn stream_delivered(w: WatcherView, batches: Seq<(i64, Seq<EventView>)>) -> Seq<
    EventView,
>
    decreases batches.len(),
{
    if batches.len() == 0 {
        Seq::empty()
    } else {
        stream_delivered(w, batches.drop_last()) + delivered(
            w,
            batches.last().0,
            batches.last().1,
        )
    }
}

/// Every event of a batch was made at the batch's revision.
pub open spec fn revisions_agree(batches: Seq<(i64, Seq<EventView>)>) -> bool {
    forall|i: int, j: int|
        0 <= i < batches.len() && 0 <= j < batches[i].1.len() ==> (#[trigger] batches[i].1[j]).kv.mod_revision
            == batches[i].0
}

proof fn lemma_selected_concat(w: WatcherView, a: Seq<EventView>, b: Seq<EventView>)
    ensures
        selected(w, a + b) == selected(w, a) + selected(w, b),
    decreases b.len(),
{
    if b.len() == 0 {
        assert(a + b =~= a);
        assert(selected(w, a) + selected(w, b) =~= selected(w, a));
    } else {
        assert((a + b).drop_last() =~= a + b.drop_last());
        assert((a + b).last() == b.last());
        lemma_selected_concat(w, a, b.drop_last());
        if selects(w, b.last()) {
            assert(selected(w, a) + selected(w, b.drop_last()).push(b.last()) =~= (selected(w, a)
                + selected(w, b.drop_last())).push(b.last()));
        }
    }
}

proof fn lemma_selected_before_start(w: WatcherView, evs: Seq<EventView>)
    requires
        forall|j: int| 0 <= j < evs.len() ==> (#[trigger] evs[j]).kv.mod_revision < w.start_rev,
    ensures
        selected(w, evs) == Seq::<EventView>::empty(),
    decreases evs.len(),
{
    if evs.len() > 0 {
        lemma_selected_before_start(w, evs.drop_last());
        assert(evs.last() == evs[evs.len() - 1]);
    }
}

/// Over a stream of batches whose events carry their batch's revision, a
/// watcher is sent exactly the events of the stream that it selects (key in
/// its range, revision at or after its start, kind not filtered), each
/// once, in the order of the stream.
pub proof fn lemma_watcher_stream(w: WatcherView, batches: Seq<(i64, Seq<EventView>)>)
    requires
        revisions_agree(batches),
    ensures
        stream_delivered(w, batches) == selected(w, stream_events(batches)),
    decreases batches.len(),
{
    if batches.len() > 0 {
        let init = batches.drop_last();
        let (rev, evs) = batches.last();
        assert forall|i: int, j: int|
            0 <= i < init.len() && 0 <= j < init[i].1.len() implies (#[trigger] init[i].1[j]).kv.mod_revision
            == init[i].0 by {
            assert(init[i] == batches[i]);
        }
        lemma_watcher_stream(w, init);
        lemma_selected_concat(w, stream_events(init), evs);
        if rev < w.start_rev {
            assert forall|j: int| 0 <= j < evs.len() implies (#[trigger] evs[j]).kv.mod_revision
                < w.start_rev by {
                assert(batches[batches.len() - 1].1[j] == evs[j]);
            }
            lemma_selected_before_start(w, evs);
            assert(stream_delivered(w, init) + Seq::<EventView>::empty() =~= stream_delivered(w, init));
            assert(selected(w, stream_events(init)) + Seq::<EventView>::empty() =~= selected(
                w,
                stream_events(init),
            ));
        }
    }
}

/// Everything a watcher is sent comes at or after its start revision; so a
/// watcher that starts after the last change of its history is never sent
/// a change of that history again.
pub proof fn lemma_delivered_from_start(w: WatcherView, rev: i64, evs: Seq<EventView>)
    ensures
        forall|j: int|
            0 <= j < delivered(w, rev, evs).len() ==> #[trigger] delivered(w, rev, evs)[j].kv.mod_revision
                >= w.start_rev,
    decreases evs.len(),
{
    if rev >= w.start_rev && evs.len() > 0 {
        lemma_delivered_from_start(w, rev, evs.drop_last());
    }
}

/// Whether some watcher of `ws` has id `id`.
pub open spec fn has_watch(ws: Seq<WatcherView>, id: WatchId) -> bool {
    exists|i: int| 0 <= i < ws.len() && (#[trigger] ws[i]).watch_id == id
}

/// A copy of a record.
fn copy_key_value(kv: &KeyValue) -> (r: KeyValue)
    ensures
        r@ == kv@,
{
    KeyValue {
        key: copy_bytes(&kv.key),
        create_revision: kv.create_revision,
        mod_revision: kv.mod_revision,
        version: kv.version,
        value: copy_bytes(&kv.value),
        lease: kv.lease,
    }
}

/// A copy of an event.
fn copy_event(e: &Event) -> (r: Event)
    ensures
        r@ == e@,
{
    let prev_kv = match &e.prev_kv {
        Some(p) => Some(copy_key_value(p)),
        None => None,
    };
    Event { event_type: e.event_type, kv: copy_key_value(&e.kv), prev_kv }
}

impl Watcher {
    /// A watcher of `key_range` from `start_rev` on, that drops the kinds of
    /// events in `filters`.
    pub fn new(key_range: KeyRange, watch_id: WatchId, start_rev: i64, filters: Vec<EventType>) -> (r:
        Watcher)
        ensures
            r@ == (WatcherView {
                start: key_range.start@,
                end: key_range.end@,
                watch_id: watch_id,
                start_rev: start_rev,
                filters: filters@,
            }),
    {
        Watcher { key_range, watch_id, start_rev, filters }
    }

    /// The id.
    pub fn watch_id(&self) -> (r: WatchId)
        ensures
            r == self@.watch_id,
    {
        self.watch_id
    }

    /// The key range.
    pub fn key_range(&self) -> (r: &KeyRange)
        ensures
            r.start@ == self@.start,
            r.end@ == self@.end,
    {
        &self.key_range
    }

    /// The first revision still to be sent.
    pub fn start_rev(&self) -> (r: i64)
        ensures
            r == self@.start_rev,
    {
        self.start_rev
    }

    /// Whether a filter drops events of kind `t`.
    fn filters_out(&self, t: EventType) -> (r: bool)
        ensures
            r == self@.filters.contains(t),
    {
        let mut i: usize = 0;
        while i < self.filters.len()
            invariant
                i <= self.filters@.len(),
                forall|j: int| 0 <= j < i ==> self.filters@[j] != t,
            decreases self.filters@.len() - i,
        {
            if self.filters[i] == t {
                return true;
            }
            i = i + 1;
        }
        false
    }

    /// Whether this watcher selects `e`.
    fn selects_event(&self, e: &Event) -> (r: bool)
        ensures
            r == selects(self@, e@),
    {
        self.key_range.contains_key(e.kv.key.as_slice()) && e.kv.mod_revision >= self.start_rev
            && !self.filters_out(e.event_type)
    }

    /// The events of `evs` this watcher selects, copied, in order.
    fn select(&self, evs: &Vec<Event>) -> (r: Vec<Event>)
        ensures
            events_view(r@) == selected(self@, events_view(evs@)),
    {
        let ghost all = events_view(evs@);
        let mut out: Vec<Event> = Vec::new();
        let mut i: usize = 0;
        while i < evs.len()
            invariant
                i <= evs@.len(),
                all == events_view(evs@),
                events_view(out@) == selected(self@, all.subrange(0, i as int)),
            decreases evs@.len() - i,
        {
            let ghost prev = events_view(out@);
            assert(all.subrange(0, i + 1).drop_last() =~= all.subrange(0, i as int));
            assert(all.subrange(0, i + 1).last() == evs@[i as int]@);
            if self.selects_event(&evs[i]) {
                out.push(copy_event(&evs[i]));
                assert(events_view(out@) =~= prev.push(evs@[i as int]@));
            }
            i = i + 1;
        }
        assert(all.subrange(0, i as int) =~= all);
        out
    }

    /// The response this watcher is sent for a batch `evs` of revision
    /// `revision`, if any event of it is for the watcher.
    pub fn notify(&self, revision: i64, evs: &Vec<Event>) -> (r: Option<WatchResponse>)
        ensures
            delivered(self@, revision, events_view(evs@)).len() == 0 ==> r is None,
            delivered(self@, revision, events_view(evs@)).len() > 0 ==> (r matches Some(resp) && resp@
                == (ResponseView {
                watch_id: self@.watch_id,
                revision: revision,
                events: delivered(self@, revision, events_view(evs@)),
            })),
    {
        if revision < self.start_rev {
            return None;
        }
        let events = self.select(evs);
        if events.len() == 0 {
            return None;
        }
        Some(WatchResponse { watch_id: self.watch_id, revision, events })
    }
}

/// Every watcher, indexed by id, with the order of registration kept.
#[derive(Debug)]
pub struct WatcherMap {
    watchers: HashMap<WatchId, Watcher>,
    order: Vec<WatchId>,
}

impl View for WatcherMap {
    type V = Seq<WatcherView>;

    /// The watchers in the order of registration.
    closed spec fn view(&self) -> Seq<WatcherView> {
        self.order@.map_values(|id: WatchId| self.watchers@[id]@)
    }
}

impl WatcherMap {
    /// The id order lists each watcher of the map once, each under its own
    /// id; so no two watchers share an id.
    pub closed spec fn wf(&self) -> bool {
        &&& forall|i: int, j: int|
            0 <= i < j < self.order@.len() ==> (#[trigger] self.order@[i]) != (#[trigger] self.order@[j])
        &&& forall|id: WatchId| #[trigger] self.watchers@.contains_key(id) <==> self.order@.contains(id)
        &&& forall|id: WatchId| #[trigger] self.watchers@.contains_key(id) ==> self.watchers@[id]@.watch_id == id
        &&& ids_distinct(self@)
    }

    proof fn lemma_view_ids(&self)
        requires
            forall|id: WatchId| #[trigger] self.watchers@.contains_key(id) <==> self.order@.contains(id),
            forall|id: WatchId| #[trigger] self.watchers@.contains_key(id) ==> self.watchers@[id]@.watch_id == id,
        ensures
            self@.len() == self.order@.len(),
            forall|i: int| 0 <= i < self@.len() ==> (#[trigger] self@[i]).watch_id == self.order@[i],
            forall|id: WatchId| has_watch(self@, id) <==> self.order@.contains(id),
    {
        assert forall|i: int| 0 <= i < self@.len() implies (#[trigger] self@[i]).watch_id == self.order@[i] by {
            assert(self.order@.contains(self.order@[i]));
            assert(self.watchers@.contains_key(self.order@[i]));
            assert(self@[i] == self.watchers@[self.order@[i]]@);
        }
        assert forall|id: WatchId| has_watch(self@, id) <==> self.order@.contains(id) by {
            if self.order@.contains(id) {
                let i = choose|i: int| 0 <= i < self.order@.len() && self.order@[i] == id;
                assert(self@[i].watch_id == id);
            }
            if has_watch(self@, id) {
                let i = choose|i: int| 0 <= i < self@.len() && (#[trigger] self@[i]).watch_id == id;
                assert(self.order@[i] == id);
            }
        }
    }

    /// A map with no watcher.
    pub fn new() -> (r: WatcherMap)
        ensures
            r.wf(),
            r@.len() == 0,
    {
        let r = WatcherMap { watchers: HashMap::new(), order: Vec::new() };
        assert(r@ =~= Seq::<WatcherView>::empty());
        r
    }

    /// The position of `id` in the order of registration.
    fn position(&self, id: WatchId) -> (r: Option<usize>)
        ensures
            match r {
                Some(i) => i < self.order@.len() && self.order@[i as int] == id,
                None => !self.order@.contains(id),
            },
    {
        let mut i: usize = 0;
        while i < self.order.len()
            invariant
                i <= self.order@.len(),
                forall|j: int| 0 <= j < i ==> self.order@[j] != id,
            decreases self.order@.len() - i,
        {
            if self.order[i] == id {
                return Some(i);
            }
            i = i + 1;
        }
        None
    }

    /// Whether a watcher has id `id`.
    pub fn contains(&self, id: WatchId) -> (r: bool)
        requires
            self.wf(),
        ensures
            r == has_watch(self@, id),
    {
        proof {
            self.lemma_view_ids();
        }
        self.watchers.contains_key(&id)
    }

    /// Adds `watcher`, whose id no watcher has.
    pub fn insert(&mut self, watcher: Watcher)
        requires
            old(self).wf(),
            !has_watch(old(self)@, watcher@.watch_id),
        ensures
            final(self).wf(),
            final(self)@ == old(self)@.push(watcher@),
    {
        proof {
            self.lemma_view_ids();
        }
        let ghost w = watcher@;
        let ghost before = self@;
        let id = watcher.watch_id();
        self.order.push(id);
        self.watchers.insert(id, watcher);
        proof {
            assert forall|k: WatchId| #[trigger] self.watchers@.contains_key(k) <==> self.order@.contains(k) by {
                if old(self).order@.contains(k) {
                    let i = choose|i: int| 0 <= i < old(self).order@.len() && old(self).order@[i] == k;
                    assert(self.order@[i] == k);
                }
                if k == id {
                    assert(self.order@[self.order@.len() - 1] == k);
                }
                if self.order@.contains(k) && k != id {
                    let i = choose|i: int| 0 <= i < self.order@.len() && self.order@[i] == k;
                    assert(old(self).order@[i] == k);
                }
            }
            assert(self@ =~= before.push(w)) by {
                assert forall|i: int| 0 <= i < before.len() implies self@[i] == before[i] by {
                    assert(old(self).order@.contains(old(self).order@[i]));
                }
            }
            self.lemma_view_ids();
            assert forall|i: int, j: int|
                0 <= i < j < self@.len() implies (#[trigger] self@[i]).watch_id != (#[trigger] self@[j]).watch_id by {
                if j < before.len() {
                    assert(self@[i] == before[i] && self@[j] == before[j]);
                } else {
                    assert(self@[i] == before[i]);
                }
            }
        }
    }

    /// Removes the watcher with id `id`, which some watcher has.
    pub fn remove(&mut self, id: WatchId)
        requires
            old(self).wf(),
            has_watch(old(self)@, id),
        ensures
            final(self).wf(),
            exists|i: int|
                0 <= i < old(self)@.len() && old(self)@[i].watch_id == id && final(self)@ == old(
                    self,
                )@.remove(i),
    {
        proof {
            self.lemma_view_ids();
        }
        let ghost before = self@;
        match self.position(id) {
            Some(i) => {
                let _ = self.order.remove(i);
                let _ = self.watchers.remove(&id);
                proof {
                    let oo = old(self).order@;
                    assert forall|k: WatchId| #[trigger] self.watchers@.contains_key(k) <==> self.order@.contains(k) by {
                        if oo.contains(k) && k != id {
                            let j = choose|j: int| 0 <= j < oo.len() && oo[j] == k;
                            if j < i {
                                assert(self.order@[j] == k);
                            } else {
                                assert(self.order@[j - 1] == k);
                            }
                        }
                        if self.order@.contains(k) {
                            let j = choose|j: int| 0 <= j < self.order@.len() && self.order@[j] == k;
                            if j < i {
                                assert(oo[j] == k);
                            } else {
                                assert(oo[j + 1] == k);
                                assert(k != id);
                            }
                        }
                    }
                    assert forall|a: int, b: int|
                        0 <= a < b < self.order@.len() implies (#[trigger] self.order@[a]) != (#[trigger] self.order@[b]) by {
                        let a2 = if a < i { a } else { a + 1 };
                        let b2 = if b < i { b } else { b + 1 };
                        assert(self.order@[a] == oo[a2] && self.order@[b] == oo[b2]);
                    }
                    assert(self@ =~= before.remove(i as int)) by {
                        assert forall|j: int| 0 <= j < self@.len() implies self@[j] == before.remove(i as int)[j] by {
                            let j2 = if j < i { j } else { j + 1 };
                            assert(self.order@[j] == oo[j2]);
                            assert(oo[j2] != id);
                        }
                    }
                    self.lemma_view_ids();
                    assert forall|a: int, b: int|
                        0 <= a < b < self@.len() implies (#[trigger] self@[a]).watch_id != (#[trigger] self@[b]).watch_id by {
                        assert(self.order@[a] != self.order@[b]);
                    }
                }
            },
            None => {},
        }
    }

    /// The response each watcher is sent for a batch `evs` of revision
    /// `revision`: one for each watcher that is sent some event, in the
    /// order of registration.
    pub fn responses(&self, revision: i64, evs: &Vec<Event>) -> (r: Vec<WatchResponse>)
        requires
            self.wf(),
        ensures
            r@.map_values(|x: WatchResponse| x@) == dispatched(self@, revision, events_view(evs@)),
    {
        let ghost ws = self@;
        let ghost all = events_view(evs@);
        let mut out: Vec<WatchResponse> = Vec::new();
        let mut i: usize = 0;
        while i < self.order.len()
            invariant
                i <= ws.len(),
                ws == self@,
                ws.len() == self.order@.len(),
                self.wf(),
                all == events_view(evs@),
                out@.map_values(|x: WatchResponse| x@) == dispatched(ws.subrange(0, i as int), revision, all),
            decreases ws.len() - i,
        {
            let ghost prev = out@.map_values(|x: WatchResponse| x@);
            assert(ws.subrange(0, i + 1).drop_last() =~= ws.subrange(0, i as int));
            let id = self.order[i];
            proof {
                assert(self.order@.contains(id));
            }
            match self.watchers.get(&id) {
                Some(w) => {
                    assert(ws.subrange(0, i + 1).last() == w@);
                    match w.notify(revision, evs) {
                        Some(resp) => {
                            let ghost rv = resp@;
                            out.push(resp);
                            assert(out@.map_values(|x: WatchResponse| x@) =~= prev.push(rv));
                        },
                        None => {},
                    }
                },
                None => {
                    proof {
                        assert(false);
                    }
                },
            }
            i = i + 1;
        }
        assert(ws.subrange(0, i as int) =~= ws);
        out
    }
}

/// The watcher subsystem: registration, cancellation, and what each batch
/// of changes sends to whom.
#[derive(Debug)]
pub struct KvWatcher {
    watcher_map: WatcherMap,
}

/// The revision after the last one a registration has seen: after the
/// last change of the history handed over, or after `current_revision`.
pub open spec fn resume_after(start_rev: i64, current_revision: i64, history: Seq<EventView>) -> int {
    if start_rev != 0 && history.len() > 0 {
        history.last().kv.mod_revision + 1
    } else {
        current_revision + 1
    }
}

/// The first revision that a watcher registered from `start_rev` still
/// waits for: the later of `start_rev` and the revision after what the
/// registration has seen (`start_rev` of `0` asks for no history).
pub open spec fn effective_start(start_rev: i64, current_revision: i64, history: Seq<EventView>) -> int {
    let b = resume_after(start_rev, current_revision, history);
    if start_rev != 0 && start_rev > b {
        start_rev as int
    } else {
        b
    }
}

/// Watch ids pairwise distinct.
pub open spec fn ids_distinct(ws: Seq<WatcherView>) -> bool {
    forall|i: int, j: int|
        0 <= i < j < ws.len() ==> (#[trigger] ws[i]).watch_id != (#[trigger] ws[j]).watch_id
}

impl KvWatcher {
    /// A subsystem with no watcher.
    pub fn new() -> (r: KvWatcher)
        ensures
            r.wf(),
            ids_distinct(r.watchers()),
            r.watchers().len() == 0,
    {
        KvWatcher { watcher_map: WatcherMap::new() }
    }

    /// The watcher index is consistent; no two watchers share an id.
    pub closed spec fn wf(&self) -> bool {
        self.watcher_map.wf()
    }

    /// The watchers, in the order of registration.
    pub closed spec fn watchers(&self) -> Seq<WatcherView> {
        self.watcher_map@
    }

    /// Registers watcher `id` over `key_range` from `start_rev` on.
    ///
    /// With a `start_rev` of `0` the watcher starts after
    /// `current_revision`. Otherwise `history` holds the changes of the
    /// range from `start_rev` on, in revision order: those the watcher
    /// selects are returned as one response under the revision of the last
    /// change. The watcher then starts after the last change seen (the
    /// last of `history`, or `current_revision` when it is empty), and
    /// never before `start_rev`.
    pub fn watch(
        &mut self,
        id: WatchId,
        key_range: KeyRange,
        start_rev: i64,
        filters: Vec<EventType>,
        current_revision: i64,
        history: Vec<Event>,
    ) -> (r: Option<WatchResponse>)
        requires
            old(self).wf(),
            !has_watch(old(self).watchers(), id),
            resume_after(start_rev, current_revision, events_view(history@)) <= i64::MAX,
        ensures
            final(self).wf(),
            ids_distinct(final(self).watchers()),
            start_rev != 0 ==> final(self).watchers().last().start_rev >= start_rev,
            ({
                let w0 = WatcherView {
                    start: key_range.start@,
                    end: key_range.end@,
                    watch_id: id,
                    start_rev: start_rev,
                    filters: filters@,
                };
                let h = events_view(history@);
                let backfill = if start_rev != 0 && h.len() > 0 {
                    delivered(w0, h.last().kv.mod_revision, h)
                } else {
                    Seq::empty()
                };
                &&& final(self).watchers() == old(self).watchers().push(
                    WatcherView {
                        start_rev: effective_start(start_rev, current_revision, h) as i64,
                        ..w0
                    },
                )
                &&& backfill.len() == 0 ==> r is None
                &&& backfill.len() > 0 ==> (r matches Some(resp) && resp@ == (ResponseView {
                    watch_id: id,
                    revision: h.last().kv.mod_revision,
                    events: backfill,
                }))
            }),
    {
        let mut watcher = Watcher::new(key_range, id, start_rev, filters);
        let ghost h = events_view(history@);
        let mut response: Option<WatchResponse> = None;
        if start_rev != 0 && history.len() > 0 {
            let last_revision = history[history.len() - 1].kv.mod_revision;
            assert(h.last() == history@[history@.len() - 1]@);
            response = watcher.notify(last_revision, &history);
            watcher.start_rev = last_revision + 1;
        } else {
            watcher.start_rev = current_revision + 1;
        }
        if start_rev != 0 && start_rev > watcher.start_rev {
            watcher.start_rev = start_rev;
        }
        self.watcher_map.insert(watcher);
        response
    }

    /// Removes watcher `id`, which is registered.
    pub fn cancel(&mut self, id: WatchId)
        requires
            old(self).wf(),
            has_watch(old(self).watchers(), id),
        ensures
            final(self).wf(),
            ids_distinct(final(self).watchers()),
            !has_watch(final(self).watchers(), id),
            exists|i: int|
                0 <= i < old(self).watchers().len() && old(self).watchers()[i].watch_id == id
                    && final(self).watchers() == old(self).watchers().remove(i),
    {
        let ghost ws = self.watchers();
        self.watcher_map.remove(id);
        proof {
            let i = choose|i: int|
                0 <= i < ws.len() && ws[i].watch_id == id && self.watchers() == ws.remove(i);
            assert forall|j: int| 0 <= j < self.watchers().len() implies (#[trigger] self.watchers()[j]).watch_id
                != id by {
                let j2 = if j < i { j } else { j + 1 };
                assert(self.watchers()[j] == ws[j2]);
            }
        }
    }

    /// Whether watcher `id` is registered.
    pub fn contains(&self, id: WatchId) -> (r: bool)
        requires
            self.wf(),
        ensures
            r == has_watch(self.watchers(), id),
    {
        self.watcher_map.contains(id)
    }

    /// What a batch `events` of revision `revision` sends: one response for
    /// each watcher that selects some event of it, in the order of
    /// registration.
    pub fn handle_kv_updates(&self, revision: i64, events: &Vec<Event>) -> (r: Vec<WatchResponse>)
        requires
            self.wf(),
        ensures
            r@.map_values(|x: WatchResponse| x@) == dispatched(self.watchers(), revision, events_view(events@)),
    {
        self.watcher_map.responses(revision, events)
    }
}

} // verus!
