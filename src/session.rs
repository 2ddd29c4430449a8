use vstd::prelude::*;
use crate::assoc::{
    pairs_map, keys_unique, lemma_pairs_map_keys, lemma_pairs_map_at, lemma_pairs_map_update,
    lemma_pairs_map_remove,
};
use crate::record::{ServiceRecord, DeviceRecord, device_properties, translate_record};

verus! {

/// The devices currently known, by instance name.
pub type CacheView = Map<Seq<char>, ServiceRecord>;

/// `devices` is a publication of `cache`: one device per cached instance,
/// each built from that instance's record.
pub open spec fn publishes(devices: Seq<DeviceRecord>, cache: CacheView) -> bool {
    &&& devices.len() == cache.dom().len()
    &&& forall|i: int|
        0 <= i < devices.len() ==> {
            &&& cache.contains_key((#[trigger] devices[i]).id@)
            &&& devices[i].properties.wf()
            &&& devices[i].properties@ == device_properties(cache[devices[i].id@])
        }
    &&& forall|i: int, j: int|
        0 <= i < devices.len() && 0 <= j < devices.len() && i != j ==> (#[trigger] devices[i]).id@
            != (#[trigger] devices[j]).id@
    &&& forall|k: Seq<char>|
        #[trigger] cache.contains_key(k) ==> exists|i: int|
            0 <= i < devices.len() && (#[trigger] devices[i]).id@ == k
}

/// The resolved services of one session, keyed by instance name, each name
/// once.
pub struct DeviceCache {
    entries: Vec<(String, ServiceRecord)>,
}

impl DeviceCache {
    pub closed spec fn pairs(&self) -> Seq<(Seq<char>, ServiceRecord)> {
        Seq::new(self.entries@.len(), |i: int| (self.entries@[i].0@, self.entries@[i].1))
    }

    pub closed spec fn wf(&self) -> bool {
        keys_unique(self.pairs())
    }

    /// What the cache holds.
    pub open spec fn view(&self) -> CacheView {
        pairs_map(self.pairs())
    }

    pub fn new() -> (r: DeviceCache)
        ensures
            r.wf(),
            r@ == CacheView::empty(),
    {
        let r = DeviceCache { entries: Vec::new() };
        assert(r.pairs() =~= Seq::<(Seq<char>, ServiceRecord)>::empty());
        r
    }

    /// Stores `rec` under its instance name, replacing an earlier record of
    /// that name whole.
    pub fn insert(&mut self, rec: ServiceRecord)
        requires
            old(self).wf(),
        ensures
            final(self).wf(),
            final(self)@ == old(self)@.insert(rec.fullname@, rec),
    {
        let ghost p0 = self.pairs();
        let ghost v0 = self@;
        let ghost r0 = rec;
        let mut i: usize = 0;
        while i < self.entries.len()
            invariant
                self.pairs() == p0,
                v0 == pairs_map(p0),
                v0 == old(self)@,
                keys_unique(p0),
                rec == r0,
                i <= self.entries.len(),
                forall|j: int| 0 <= j < i ==> (#[trigger] p0[j]).0 != rec.fullname@,
            decreases self.entries.len() - i,
        {
            if self.entries[i].0 == rec.fullname {
                let key = rec.fullname.clone();
                self.entries.set(i, (key, rec));
                proof {
                    assert(self.pairs() =~= p0.update(i as int, (p0[i as int].0, r0)));
                    lemma_pairs_map_update(p0, i as int, r0);
                    assert forall|a: int, b: int|
                        0 <= a < self.pairs().len() && 0 <= b < self.pairs().len() && a != b implies
                        #[trigger] self.pairs()[a].0 != #[trigger] self.pairs()[b].0 by {
                        assert(self.pairs()[a].0 == p0[a].0 && self.pairs()[b].0 == p0[b].0);
                    }
                }
                return;
            }
            i = i + 1;
        }
        let key = rec.fullname.clone();
        self.entries.push((key, rec));
        proof {
            let p = self.pairs();
            assert(p =~= p0.push((r0.fullname@, r0)));
            assert(p.drop_last() =~= p0);
            assert forall|a: int, b: int|
                0 <= a < p.len() && 0 <= b < p.len() && a != b implies #[trigger] p[a].0
                != #[trigger] p[b].0 by {
                if a < p0.len() {
                    assert(p[a] == p0[a]);
                }
                if b < p0.len() {
                    assert(p[b] == p0[b]);
                }
            }
        }
    }

    /// Forgets the record of `name`; nothing happens when there is none.
    pub fn remove(&mut self, name: &String)
        requires
            old(self).wf(),
        ensures
            final(self).wf(),
            final(self)@ == old(self)@.remove(name@),
    {
        let ghost p0 = self.pairs();
        let mut i: usize = 0;
        while i < self.entries.len()
            invariant
                self.pairs() == p0,
                old(self).pairs() == p0,
                keys_unique(p0),
                i <= self.entries.len(),
                forall|j: int| 0 <= j < i ==> (#[trigger] p0[j]).0 != name@,
            decreases self.entries.len() - i,
        {
            if self.entries[i].0 == *name {
                self.entries.remove(i);
                proof {
                    assert(self.pairs() =~= p0.remove(i as int));
                    lemma_pairs_map_remove(p0, i as int);
                }
                return;
            }
            i = i + 1;
        }
        proof {
            if pairs_map(p0).contains_key(name@) {
                lemma_pairs_map_keys(p0, name@);
            }
            assert(pairs_map(p0) =~= pairs_map(p0).remove(name@));
        }
    }

    /// The full current device list: one device per cached record.
    pub fn devices(&self) -> (r: Vec<DeviceRecord>)
        requires
            self.wf(),
        ensures
            publishes(r@, self@),
    {
        let ghost p = self.pairs();
        let mut r: Vec<DeviceRecord> = Vec::new();
        let mut i: usize = 0;
        while i < self.entries.len()
            invariant
                self.wf(),
                p == self.pairs(),
                i <= self.entries.len(),
                r@.len() == i,
                forall|j: int|
                    0 <= j < i ==> {
                        &&& (#[trigger] r@[j]).id@ == p[j].0
                        &&& r@[j].properties.wf()
                        &&& r@[j].properties@ == device_properties(p[j].1)
                    },
            decreases self.entries.len() - i,
        {
            let d = translate_record(&self.entries[i].0, &self.entries[i].1);
            r.push(d);
            i = i + 1;
        }
        proof {
            let m = pairs_map(p);
            assert forall|j: int| 0 <= j < r@.len() implies {
                &&& m.contains_key((#[trigger] r@[j]).id@)
                &&& r@[j].properties.wf()
                &&& r@[j].properties@ == device_properties(m[r@[j].id@])
            } by {
                lemma_pairs_map_at(p, j);
            }
            assert forall|k: Seq<char>| #[trigger] m.contains_key(k) implies exists|j: int|
                0 <= j < r@.len() && (#[trigger] r@[j]).id@ == k by {
                lemma_pairs_map_keys(p, k);
                let j = choose|j: int| 0 <= j < p.len() && (#[trigger] p[j]).0 == k;
                assert(r@[j].id@ == k);
            }
            lemma_map_size(p);
        }
        r
    }
}

/// With unique keys, the map has one key per pair.
proof fn lemma_map_size<V>(pairs: Seq<(Seq<char>, V)>)
    requires
        keys_unique(pairs),
    ensures
        pairs_map(pairs).dom().finite(),
        pairs_map(pairs).dom().len() == pairs.len(),
    decreases pairs.len(),
{
    if pairs.len() > 0 {
        let d = pairs.drop_last();
        crate::assoc::lemma_unique_drop_last(pairs);
        lemma_map_size(d);
        if pairs_map(d).contains_key(pairs.last().0) {
            lemma_pairs_map_keys(d, pairs.last().0);
            let j = choose|j: int| 0 <= j < d.len() && (#[trigger] d[j]).0 == pairs.last().0;
            assert(d[j] == pairs[j]);
        }
    }
}

/// A lifecycle event of the browser, with what the session reads of it.
#[derive(Clone, Debug)]
pub enum BrowseEvent {
    /// An instance became visible, or was resolved anew.
    Resolved(ServiceRecord),
    /// The instance of that name went away.
    Removed(String),
    /// The browse ended: no more events follow.
    SearchStopped,
    /// Any other event; the session ignores it.
    Other,
}

/// What the session asks its driver to do after an event.
#[derive(Clone, Debug)]
pub enum SessionAction {
    /// Send this full device list to the consumer.
    Publish(Vec<DeviceRecord>),
    /// The consumer is gone: send one re-registration signal and stop.
    Reregister,
    /// Stop without any further send.
    Finish,
    /// Nothing to send; wait for the next event.
    Continue,
}

/// The cache after applying one event to `m`.
pub open spec fn apply_event(m: CacheView, e: BrowseEvent) -> CacheView {
    match e {
        BrowseEvent::Resolved(rec) => m.insert(rec.fullname@, rec),
        BrowseEvent::Removed(name) => m.remove(name@),
        _ => m,
    }
}

/// The cache after applying `events`, in order, to an empty cache.
pub open spec fn apply_events(events: Seq<BrowseEvent>) -> CacheView
    decreases events.len(),
{
    if events.len() == 0 {
        CacheView::empty()
    } else {
        apply_event(apply_events(events.drop_last()), events.last())
    }
}

/// One discovery session: owns the device cache and decides, event by
/// event, what to publish and when to stop.
pub struct DiscoverySession {
    cache: DeviceCache,
    ended: bool,
    applied: Ghost<Seq<BrowseEvent>>,
}

impl DiscoverySession {
    /// The cache holds exactly what the applied events leave.
    pub closed spec fn wf(&self) -> bool {
        &&& self.cache.wf()
        &&& self.cache@ == apply_events(self.applied@)
    }

    /// What the cache holds.
    pub closed spec fn cache_view(&self) -> CacheView {
        self.cache@
    }

    /// Whether the session has ended.
    pub closed spec fn ended(&self) -> bool {
        self.ended
    }

    /// The events applied so far, in order.
    pub closed spec fn applied(&self) -> Seq<BrowseEvent> {
        self.applied@
    }

    /// The cache of a session is what its applied events leave.
    pub proof fn cache_follows_applied_events(&self)
        requires
            self.wf(),
        ensures
            self.cache_view() == apply_events(self.applied()),
    {
    }

    pub fn new() -> (r: DiscoverySession)
        ensures
            r.wf(),
            !r.ended(),
            r.applied() == Seq::<BrowseEvent>::empty(),
            r.cache_view() == CacheView::empty(),
    {
        DiscoverySession { cache: DeviceCache::new(), ended: false, applied: Ghost(Seq::empty()) }
    }

    pub fn is_ended(&self) -> (r: bool)
        ensures
            r == self.ended(),
    {
        self.ended
    }

    /// The device list for the current cache.
    pub fn current_devices(&self) -> (r: Vec<DeviceRecord>)
        requires
            self.wf(),
        ensures
            publishes(r@, self.cache_view()),
    {
        self.cache.devices()
    }

    /// Handles the next event of the browser. `consumer_closed` tells whether
    /// the consumer's end of the output channel was found closed before the
    /// event is handled; the event is then not applied.
    pub fn handle_event(&mut self, event: BrowseEvent, consumer_closed: bool) -> (r: SessionAction)
        requires
            old(self).wf(),
        ensures
            final(self).wf(),
            old(self).ended() ==> {
                &&& r is Finish
                &&& final(self).ended()
                &&& final(self).applied() == old(self).applied()
            },
            !old(self).ended() && consumer_closed ==> {
                &&& r is Reregister
                &&& final(self).ended()
                &&& final(self).applied() == old(self).applied()
            },
            !old(self).ended() && !consumer_closed ==> {
                &&& final(self).applied() == old(self).applied().push(event)
                &&& final(self).cache_view() == apply_event(old(self).cache_view(), event)
                &&& match event {
                    BrowseEvent::SearchStopped => r is Finish && final(self).ended(),
                    BrowseEvent::Other => r is Continue && !final(self).ended(),
                    _ => {
                        &&& !final(self).ended()
                        &&& r is Publish
                        &&& publishes(r->Publish_0@, final(self).cache_view())
                    },
                }
            },
    {
        if self.ended {
            return SessionAction::Finish;
        }
        if consumer_closed {
            self.ended = true;
            return SessionAction::Reregister;
        }
        let ghost e = event;
        let ghost h = self.applied@;
        self.applied = Ghost(self.applied@.push(event));
        proof {
            assert(self.applied@.drop_last() =~= h);
        }
        match event {
            BrowseEvent::Resolved(rec) => {
                self.cache.insert(rec);
                SessionAction::Publish(self.cache.devices())
            },
            BrowseEvent::Removed(name) => {
                self.cache.remove(&name);
                SessionAction::Publish(self.cache.devices())
            },
            BrowseEvent::SearchStopped => {
                self.ended = true;
                SessionAction::Finish
            },
            BrowseEvent::Other => SessionAction::Continue,
        }
    }

    /// A send to the consumer failed: the consumer is gone. Signals
    /// re-registration once and ends the session.
    pub fn publish_failed(&mut self) -> (r: SessionAction)
        requires
            old(self).wf(),
        ensures
            final(self).wf(),
            final(self).ended(),
            final(self).applied() == old(self).applied(),
            old(self).ended() ==> r is Finish,
            !old(self).ended() ==> r is Reregister,
    {
        if self.ended {
            SessionAction::Finish
        } else {
            self.ended = true;
            SessionAction::Reregister
        }
    }
}

/// The instance an event concerns, if any.
pub open spec fn event_instance(e: BrowseEvent) -> Option<Seq<char>> {
    match e {
        BrowseEvent::Resolved(rec) => Some(rec.fullname@),
        BrowseEvent::Removed(name) => Some(name@),
        _ => None,
    }
}

/// Event `i` resolves `name`, and no later event concerns `name`.
pub open spec fn last_event_resolves(events: Seq<BrowseEvent>, name: Seq<char>, i: int) -> bool {
    &&& 0 <= i < events.len()
    &&& events[i] is Resolved
    &&& events[i]->Resolved_0.fullname@ == name
    &&& forall|j: int| i < j < events.len() ==> event_instance(#[trigger] events[j]) != Some(name)
}

/// After any sequence of events, an instance is cached exactly when the last
/// event that concerns it resolved it, and it is cached with that event's
/// record.
pub proof fn cache_holds_last_resolved(events: Seq<BrowseEvent>, name: Seq<char>)
    ensures
        apply_events(events).contains_key(name) <==> exists|i: int|
            last_event_resolves(events, name, i),
        forall|i: int|
            last_event_resolves(events, name, i) ==> apply_events(events)[name]
                == events[i]->Resolved_0,
    decreases events.len(),
{
    if events.len() > 0 {
        let d = events.drop_last();
        let n = events.len() - 1;
        let e = events.last();
        cache_holds_last_resolved(d, name);
        if event_instance(e) == Some(name) {
            if e is Resolved {
                assert(last_event_resolves(events, name, n));
                assert forall|i: int| last_event_resolves(events, name, i) implies i == n by {
                    if i < n {
                        assert(event_instance(events[n]) == Some(name));
                    }
                }
            } else {
                assert forall|i: int| !last_event_resolves(events, name, i) by {
                    if 0 <= i < n {
                        assert(event_instance(events[n]) == Some(name));
                    }
                }
            }
        } else {
            assert forall|i: int| last_event_resolves(events, name, i)
                <==> last_event_resolves(d, name, i) by {
                if 0 <= i < n {
                    assert(events[i] == d[i]);
                    if last_event_resolves(d, name, i) {
                        assert forall|j: int| i < j < events.len() implies event_instance(
                            #[trigger] events[j],
                        ) != Some(name) by {
                            if j < n {
                                assert(events[j] == d[j]);
                            }
                        }
                    }
                    if last_event_resolves(events, name, i) {
                        assert forall|j: int| i < j < d.len() implies event_instance(
                            #[trigger] d[j],
                        ) != Some(name) by {
                            assert(events[j] == d[j]);
                        }
                    }
                }
                if i == n {
                    assert(!(events[n] is Resolved && events[n]->Resolved_0.fullname@ == name));
                }
            }
            assert(apply_events(events).contains_key(name) == apply_events(d).contains_key(name));
            if apply_events(d).contains_key(name) {
                assert(apply_events(events)[name] == apply_events(d)[name]);
            }
        }
    }
}

/// Two events that concern different instances may be applied in either
/// order: exchanging them, anywhere in a sequence, leaves the same cache.
pub proof fn unrelated_events_commute(events: Seq<BrowseEvent>, i: int)
    requires
        0 <= i < events.len() - 1,
        event_instance(events[i]) is None || event_instance(events[i + 1]) is None
            || event_instance(events[i]) != event_instance(events[i + 1]),
    ensures
        apply_events(events.update(i, events[i + 1]).update(i + 1, events[i])) == apply_events(
            events,
        ),
    decreases events.len(),
{
    let s = events.update(i, events[i + 1]).update(i + 1, events[i]);
    let d = events.drop_last();
    if i + 1 == events.len() - 1 {
        let p = d.drop_last();
        assert(s.drop_last().drop_last() =~= p);
        let m = apply_events(p);
        let a = events[i];
        let b = events[i + 1];
        assert(d.last() == a);
        assert(s.drop_last().last() == b);
        assert(apply_events(s.drop_last()) == apply_event(m, b));
        assert(apply_events(s) == apply_event(apply_event(m, b), a));
        assert(apply_events(d) == apply_event(m, a));
        assert(apply_events(events) == apply_event(apply_event(m, a), b));
        assert(apply_event(apply_event(m, b), a) =~= apply_event(apply_event(m, a), b));
    } else {
        assert(s.drop_last() =~= d.update(i, d[i + 1]).update(i + 1, d[i]));
        unrelated_events_commute(d, i);
        assert(s.last() == events.last());
    }
}

} // verus!
