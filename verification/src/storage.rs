//! The durable store behind the engine: point lookups, inserts that
//! are idempotent on the primary key, and in-place updates of the two
//! mutable record fields. The engine writes records through here; an
//! implementation may keep them in memory or persist them.

use std::collections::HashMap;
use vstd::prelude::*;

use crate::fields::Fields;
use crate::models::{Event, Instance, Span, SpanEvent, Timestamp};

verus! {

/// What a backing store must do. Each record kind lives in a map keyed
/// by its timestamp.
pub trait Storage: Sized {
    spec fn instances(&self) -> Map<Timestamp, Instance>;

    spec fn spans(&self) -> Map<Timestamp, Span>;

    spec fn span_events(&self) -> Map<Timestamp, SpanEvent>;

    spec fn events(&self) -> Map<Timestamp, Event>;

    fn get_instance(&self, at: Timestamp) -> (r: Option<&Instance>)
        ensures
            match r {
                Some(v) => self.instances().contains_key(at) && *v == self.instances()[at],
                None => !self.instances().contains_key(at),
            },
    ;

    fn get_span(&self, at: Timestamp) -> (r: Option<&Span>)
        ensures
            match r {
                Some(v) => self.spans().contains_key(at) && *v == self.spans()[at],
                None => !self.spans().contains_key(at),
            },
    ;

    fn get_span_event(&self, at: Timestamp) -> (r: Option<&SpanEvent>)
        ensures
            match r {
                Some(v) => self.span_events().contains_key(at) && *v == self.span_events()[at],
                None => !self.span_events().contains_key(at),
            },
    ;

    fn get_event(&self, at: Timestamp) -> (r: Option<&Event>)
        ensures
            match r {
                Some(v) => self.events().contains_key(at) && *v == self.events()[at],
                None => !self.events().contains_key(at),
            },
    ;

    fn insert_instance(&mut self, instance: Instance)
        ensures
            final(self).instances() == if old(self).instances().contains_key(
                instance.connected_at,
            ) {
                old(self).instances()
            } else {
                old(self).instances().insert(instance.connected_at, instance)
            },
            final(self).spans() == old(self).spans(),
            final(self).span_events() == old(self).span_events(),
            final(self).events() == old(self).events(),
    ;

    fn insert_span(&mut self, span: Span)
        ensures
            final(self).spans() == if old(self).spans().contains_key(span.created_at) {
                old(self).spans()
            } else {
                old(self).spans().insert(span.created_at, span)
            },
            final(self).instances() == old(self).instances(),
            final(self).span_events() == old(self).span_events(),
            final(self).events() == old(self).events(),
    ;

    fn insert_span_event(&mut self, span_event: SpanEvent)
        ensures
            final(self).span_events() == if old(self).span_events().contains_key(
                span_event.timestamp,
            ) {
                old(self).span_events()
            } else {
                old(self).span_events().insert(span_event.timestamp, span_event)
            },
            final(self).instances() == old(self).instances(),
            final(self).spans() == old(self).spans(),
            final(self).events() == old(self).events(),
    ;

    fn insert_event(&mut self, event: Event)
        ensures
            final(self).events() == if old(self).events().contains_key(event.timestamp) {
                old(self).events()
            } else {
                old(self).events().insert(event.timestamp, event)
            },
            final(self).instances() == old(self).instances(),
            final(self).spans() == old(self).spans(),
            final(self).span_events() == old(self).span_events(),
    ;

    fn update_instance_disconnected(&mut self, at: Timestamp, disconnected: Timestamp)
        ensures
            final(self).instances() == if old(self).instances().contains_key(at) {
                old(self).instances().insert(
                    at,
                    Instance {
                        disconnected_at: Some(disconnected),
                        ..old(self).instances()[at]
                    },
                )
            } else {
                old(self).instances()
            },
            final(self).spans() == old(self).spans(),
            final(self).span_events() == old(self).span_events(),
            final(self).events() == old(self).events(),
    ;

    fn update_span_closed(&mut self, at: Timestamp, closed: Timestamp)
        ensures
            final(self).spans() == if old(self).spans().contains_key(at) {
                old(self).spans().insert(
                    at,
                    Span { closed_at: Some(closed), ..old(self).spans()[at] },
                )
            } else {
                old(self).spans()
            },
            final(self).instances() == old(self).instances(),
            final(self).span_events() == old(self).span_events(),
            final(self).events() == old(self).events(),
    ;

    fn update_span_fields(&mut self, at: Timestamp, fields: Fields)
        ensures
            final(self).spans() == if old(self).spans().contains_key(at) {
                old(self).spans().insert(at, Span { fields, ..old(self).spans()[at] })
            } else {
                old(self).spans()
            },
            final(self).instances() == old(self).instances(),
            final(self).span_events() == old(self).span_events(),
            final(self).events() == old(self).events(),
    ;
}

/// A store that keeps everything in memory: the reference
/// implementation, also used by tests.
pub struct InMemoryStorage {
    pub instance_map: HashMap<Timestamp, Instance>,
    pub span_map: HashMap<Timestamp, Span>,
    pub span_event_map: HashMap<Timestamp, SpanEvent>,
    pub event_map: HashMap<Timestamp, Event>,
}

impl InMemoryStorage {
    pub fn new() -> (r: InMemoryStorage)
        ensures
            r.instances() =~= Map::<Timestamp, Instance>::empty(),
            r.spans() =~= Map::<Timestamp, Span>::empty(),
            r.span_events() =~= Map::<Timestamp, SpanEvent>::empty(),
            r.events() =~= Map::<Timestamp, Event>::empty(),
    {
        InMemoryStorage {
            instance_map: HashMap::new(),
            span_map: HashMap::new(),
            span_event_map: HashMap::new(),
            event_map: HashMap::new(),
        }
    }
}

impl Storage for InMemoryStorage {
    open spec fn instances(&self) -> Map<Timestamp, Instance> {
        self.instance_map@
    }

    open spec fn spans(&self) -> Map<Timestamp, Span> {
        self.span_map@
    }

    open spec fn span_events(&self) -> Map<Timestamp, SpanEvent> {
        self.span_event_map@
    }

    open spec fn events(&self) -> Map<Timestamp, Event> {
        self.event_map@
    }

    fn get_instance(&self, at: Timestamp) -> (r: Option<&Instance>) {
        self.instance_map.get(&at)
    }

    fn get_span(&self, at: Timestamp) -> (r: Option<&Span>) {
        self.span_map.get(&at)
    }

    fn get_span_event(&self, at: Timestamp) -> (r: Option<&SpanEvent>) {
        self.span_event_map.get(&at)
    }

    fn get_event(&self, at: Timestamp) -> (r: Option<&Event>) {
        self.event_map.get(&at)
    }

    fn insert_instance(&mut self, instance: Instance) {
        if !self.instance_map.contains_key(&instance.connected_at) {
            let key = instance.connected_at;
            self.instance_map.insert(key, instance);
        }
    }

    fn insert_span(&mut self, span: Span) {
        if !self.span_map.contains_key(&span.created_at) {
            let key = span.created_at;
            self.span_map.insert(key, span);
        }
    }

    fn insert_span_event(&mut self, span_event: SpanEvent) {
        if !self.span_event_map.contains_key(&span_event.timestamp) {
            let key = span_event.timestamp;
            self.span_event_map.insert(key, span_event);
        }
    }

    fn insert_event(&mut self, event: Event) {
        if !self.event_map.contains_key(&event.timestamp) {
            let key = event.timestamp;
            self.event_map.insert(key, event);
        }
    }

    fn update_instance_disconnected(&mut self, at: Timestamp, disconnected: Timestamp) {
        match self.instance_map.remove(&at) {
            Some(instance) => {
                let updated = Instance { disconnected_at: Some(disconnected), ..instance };
                self.instance_map.insert(at, updated);
                proof {
                    assert(self.instance_map@ =~= old(self).instance_map@.insert(
                        at,
                        Instance { disconnected_at: Some(disconnected), ..old(
                            self,
                        ).instance_map@[at] },
                    ));
                }
            },
            None => {},
        }
    }

    fn update_span_closed(&mut self, at: Timestamp, closed: Timestamp) {
        match self.span_map.remove(&at) {
            Some(span) => {
                let updated = Span { closed_at: Some(closed), ..span };
                self.span_map.insert(at, updated);
                proof {
                    assert(self.span_map@ =~= old(self).span_map@.insert(
                        at,
                        Span { closed_at: Some(closed), ..old(self).span_map@[at] },
                    ));
                }
            },
            None => {},
        }
    }

    fn update_span_fields(&mut self, at: Timestamp, fields: Fields) {
        match self.span_map.remove(&at) {
            Some(span) => {
                let updated = Span { fields, ..span };
                self.span_map.insert(at, updated);
                proof {
                    assert(self.span_map@ =~= old(self).span_map@.insert(
                        at,
                        Span { fields, ..old(self).span_map@[at] },
                    ));
                }
            },
            None => {},
        }
    }
}

} // verus!
