//! Live subscriptions: per-subscriber filters and bounded queues fed
//! on every ingested event; a full queue drops its oldest entry.

use std::collections::HashMap;
use vstd::prelude::*;

use crate::engine::{clone_fields, clone_opt_string};
use crate::filter::BasicEventFilter;
use crate::models::{Event, SpanKey, SubscriptionId, Timestamp};

verus! {

/// One live subscription.
pub struct Subscription {
    pub id: SubscriptionId,
    pub filter: BasicEventFilter,
    pub queue: Vec<Event>,
    pub capacity: usize,
}

/// All live subscriptions.
pub struct SubscriptionSet {
    pub subs: Vec<Subscription>,
    pub next_id: SubscriptionId,
}

/// Copies an event record; the copy carries the same data.
pub fn clone_event(event: &Event) -> (r: Event)
    ensures
        r.instance_key == event.instance_key,
        r.timestamp == event.timestamp,
        r.span_key == event.span_key,
        r.name@ == event.name@,
        r.target@ == event.target@,
        r.level == event.level,
        r.file_line == event.file_line,
{
    Event {
        instance_key: event.instance_key,
        timestamp: event.timestamp,
        span_key: event.span_key,
        name: event.name.clone(),
        target: event.target.clone(),
        level: event.level,
        file_name: clone_opt_string(&event.file_name),
        file_line: event.file_line,
        fields: clone_fields(&event.fields),
    }
}

impl SubscriptionSet {
    pub fn new() -> (r: SubscriptionSet)
        ensures
            r.subs@.len() == 0,
            r.next_id == 0,
    {
        SubscriptionSet { subs: Vec::new(), next_id: 0 }
    }

    /// Registers a filter; the new subscription starts with an empty
    /// queue and a fresh id.
    pub fn subscribe(&mut self, filter: BasicEventFilter, capacity: usize) -> (r: SubscriptionId)
        requires
            old(self).next_id < usize::MAX,
        ensures
            r == old(self).next_id,
            final(self).next_id == old(self).next_id + 1,
            final(self).subs@.len() == old(self).subs@.len() + 1,
            final(self).subs@[final(self).subs@.len() - 1].id == r,
            final(self).subs@[final(self).subs@.len() - 1].queue@.len() == 0,
            forall|j: int|
                0 <= j < old(self).subs@.len() ==> final(self).subs@[j] == old(self).subs@[j],
    {
        let id = self.next_id;
        self.next_id = self.next_id + 1;
        self.subs.push(Subscription { id, filter, queue: Vec::new(), capacity });
        id
    }

    /// Drops every subscription carrying the id.
    pub fn unsubscribe(&mut self, id: SubscriptionId)
        ensures
            forall|j: int| 0 <= j < final(self).subs@.len() ==> final(self).subs@[j].id != id,
    {
        let mut i: usize = 0;
        while i < self.subs.len()
            invariant
                0 <= i <= self.subs@.len(),
                forall|j: int| 0 <= j < i ==> self.subs@[j].id != id,
            decreases self.subs@.len() - i,
        {
            if self.subs[i].id == id {
                self.subs.remove(i);
            } else {
                i = i + 1;
            }
        }
    }

    /// Offers a freshly ingested event to every subscription: where the
    /// filter accepts it, a copy joins the queue, displacing the oldest
    /// entry if the queue is at capacity.
    pub fn notify(
        &mut self,
        spans: &HashMap<SpanKey, crate::models::Span>,
        ancestors: &HashMap<Timestamp, Vec<SpanKey>>,
        event: &Event,
    )
        ensures
            final(self).subs@.len() == old(self).subs@.len(),
            final(self).next_id == old(self).next_id,
            forall|j: int|
                0 <= j < final(self).subs@.len() ==> (#[trigger] final(self).subs@[j]).id == old(
                    self,
                ).subs@[j].id && final(self).subs@[j].filter == old(self).subs@[j].filter
                    && final(self).subs@[j].capacity == old(self).subs@[j].capacity,
            forall|j: int|
                0 <= j < final(self).subs@.len() && old(self).subs@[j].filter.spec_matches(
                    spans@,
                    ancestors@,
                    *event,
                ) ==> (#[trigger] final(self).subs@[j]).queue@.len() > 0
                    && final(self).subs@[j].queue@[final(self).subs@[j].queue@.len() - 1].timestamp
                    == event.timestamp,
    {
        let n = self.subs.len();
        let mut i: usize = 0;
        while i < n
            invariant
                n == self.subs@.len(),
                n == old(self).subs@.len(),
                self.next_id == old(self).next_id,
                0 <= i <= n,
                forall|j: int|
                    0 <= j < n ==> (#[trigger] self.subs@[j]).id == old(self).subs@[j].id
                        && self.subs@[j].filter == old(self).subs@[j].filter
                        && self.subs@[j].capacity == old(self).subs@[j].capacity,
                forall|j: int|
                    0 <= j < i && old(self).subs@[j].filter.spec_matches(
                        spans@,
                        ancestors@,
                        *event,
                    ) ==> (#[trigger] self.subs@[j]).queue@.len() > 0
                        && self.subs@[j].queue@[self.subs@[j].queue@.len() - 1].timestamp
                        == event.timestamp,
                forall|j: int| i <= j < n ==> (#[trigger] self.subs@[j]) == old(self).subs@[j],
            decreases n - i,
        {
            let matched = self.subs[i].filter.matches(spans, ancestors, event);
            if matched {
                let copy = clone_event(event);
                let sub = &mut self.subs[i];
                if sub.queue.len() >= sub.capacity && sub.queue.len() > 0 {
                    sub.queue.remove(0);
                }
                sub.queue.push(copy);
            }
            i = i + 1;
        }
    }

    /// Hands out and empties the queue of the first subscription with
    /// the id, oldest entry first; everything else stays as it was.
    pub fn drain(&mut self, id: SubscriptionId) -> (r: Vec<Event>)
        ensures
            final(self).subs@.len() == old(self).subs@.len(),
            final(self).next_id == old(self).next_id,
            forall|j: int|
                0 <= j < final(self).subs@.len() ==> (#[trigger] final(self).subs@[j]).id == old(
                    self,
                ).subs@[j].id && final(self).subs@[j].filter == old(self).subs@[j].filter
                    && final(self).subs@[j].capacity == old(self).subs@[j].capacity,
            (forall|j: int| 0 <= j < old(self).subs@.len() ==> (#[trigger] old(self).subs@[j]).id
                != id) ==> r@.len() == 0 && *final(self) == *old(self),
            forall|j0: int|
                0 <= j0 < old(self).subs@.len() && (#[trigger] old(self).subs@[j0]).id == id && (
                forall|j: int| 0 <= j < j0 ==> (#[trigger] old(self).subs@[j]).id != id) ==> {
                    &&& r@ == old(self).subs@[j0].queue@
                    &&& final(self).subs@[j0].queue@.len() == 0
                    &&& (forall|j: int|
                        0 <= j < old(self).subs@.len() && j != j0 ==> (
                        #[trigger] final(self).subs@[j]).queue == old(self).subs@[j].queue)
                },
    {
        let n = self.subs.len();
        let mut i: usize = 0;
        while i < n
            invariant
                n == self.subs@.len(),
                n == old(self).subs@.len(),
                *self == *old(self),
                0 <= i <= n,
                forall|j: int| 0 <= j < i ==> (#[trigger] old(self).subs@[j]).id != id,
            decreases n - i,
        {
            if self.subs[i].id == id {
                let mut empty: Vec<Event> = Vec::new();
                let sub = &mut self.subs[i];
                core::mem::swap(&mut sub.queue, &mut empty);
                proof {
                    assert(empty@ == old(self).subs@[i as int].queue@);
                    assert(self.subs@[i as int].queue@.len() == 0);
                    assert forall|j: int|
                        0 <= j < n && j != i implies (#[trigger] self.subs@[j]) == old(
                        self,
                    ).subs@[j] by {}
                }
                return empty;
            }
            i = i + 1;
        }
        Vec::new()
    }
}

} // verus!
