//! The engine facade: owns the records, indexes, ancestor chains and
//! key maps; serializes mutations and answers queries.

use std::collections::HashMap;
use vstd::prelude::*;

use crate::fields::Fields;
use crate::filter::{chain_of, BasicEventFilter, BasicSpanFilter, InputError};
use crate::input::FilterPredicate;
use crate::models::Order;
use crate::plan::{IndexedEventFilter, IndexedSpanFilter};
use crate::index::{
    all_below, map_sorted_push, sorted_push, strictly_sorted, EventIndexes, SpanIndexes,
};
use crate::models::{
    CreateSpanEvent, Event, EventKey, Instance, InstanceId, InstanceKey, Level, NewEvent,
    NewInstance, NewSpanEvent, NewSpanEventKind, Span, SpanEvent, SpanEventKind, SpanKey,
    Timestamp, UpdateSpanEvent,
};
use crate::plan::{event_indexes_exact, span_indexes_exact};
use crate::storage::Storage;

verus! {


/// Whether a span event is a `Create` for a span id the instance
/// already carries: the insertion that changes nothing.
pub open spec fn spec_repeated_create<S: Storage>(engine: RawEngine<S>, nse: NewSpanEvent) -> bool {
    &&& nse.kind matches NewSpanEventKind::Create(_)
    &&& engine.span_key_map@.contains_key(nse.instance_key)
    &&& engine.span_key_map@[nse.instance_key]@.contains_key(nse.span_id)
}

/// Whether a span event is a `Create` naming a level outside the five.
pub open spec fn spec_bad_create_level(nse: NewSpanEvent) -> bool {
    nse.kind matches NewSpanEventKind::Create(c) && !(0 <= c.level <= 4)
}

/// The span key an optional external id resolves to in an instance.
pub open spec fn spec_parent_of<S: Storage>(
    engine: RawEngine<S>,
    instance_key: InstanceKey,
    id: Option<u64>,
) -> Option<SpanKey> {
    match id {
        Some(pid) => if engine.span_key_map@.contains_key(instance_key)
            && engine.span_key_map@[instance_key]@.contains_key(pid) {
            Some(engine.span_key_map@[instance_key]@[pid])
        } else {
            None
        },
        None => None,
    }
}

/// The ancestor chain of a fresh span: itself, then its parent's chain
/// (or the bare parent where no chain is recorded).
pub open spec fn spec_new_chain<S: Storage>(
    engine: RawEngine<S>,
    k: SpanKey,
    parent: Option<SpanKey>,
) -> Seq<SpanKey> {
    match parent {
        Some(pk) => if engine.span_ancestors@.contains_key(pk) {
            seq![k] + engine.span_ancestors@[pk]@
        } else {
            seq![k, pk]
        },
        None => seq![k],
    }
}

/// Why an insertion was refused.
#[derive(Debug, Copy, Clone, PartialEq, Eq, Structural)]
pub enum InsertError {
    /// The record names a level rank outside the five known levels.
    InvalidLevel,
    /// The event names an instance key no stored instance carries.
    UnknownInstance,
    /// The key space is exhausted: no larger timestamp exists.
    KeySpaceExhausted,
}

/// The single-writer core: all records, indexes and maps.
pub struct RawEngine<S: Storage> {
    /// The durable mirror; every mutation is written through.
    pub storage: S,
    /// The stored records, by key.
    pub instances: HashMap<Timestamp, Instance>,
    pub spans: HashMap<Timestamp, Span>,
    pub span_events: HashMap<Timestamp, SpanEvent>,
    pub events: HashMap<Timestamp, Event>,
    /// The query indexes.
    pub event_indexes: EventIndexes,
    pub span_indexes: SpanIndexes,
    /// Ancestor chains: for each event or span key, the enclosing span
    /// keys from innermost out; a span's chain begins with itself.
    pub event_ancestors: HashMap<Timestamp, Vec<SpanKey>>,
    pub span_ancestors: HashMap<Timestamp, Vec<SpanKey>>,
    /// External instance ids to instance keys.
    pub instance_key_map: HashMap<InstanceId, InstanceKey>,
    /// Per instance, external span ids to span keys.
    pub span_key_map: HashMap<InstanceKey, HashMap<u64, SpanKey>>,
    /// Instance keys in ascending order, for ordered scans.
    pub instance_keys: Vec<Timestamp>,
    /// The largest key assigned so far; zero before the first.
    pub last_key: Timestamp,
}

impl<S: Storage> RawEngine<S> {
    /// The engine invariant: indexes are exactly right for the records,
    /// and every key is positive and at most `last_key`.
    pub open spec fn wf(self) -> bool {
        &&& self.event_indexes.wf()
        &&& self.span_indexes.wf()
        &&& event_indexes_exact(self.event_indexes, self.events@, self.event_ancestors@)
        &&& span_indexes_exact(self.span_indexes, self.spans@, self.span_ancestors@)
        &&& (forall|k: Timestamp| #[trigger]
            self.events@.contains_key(k) ==> 1 <= k <= self.last_key)
        &&& (forall|k: Timestamp| #[trigger]
            self.events@.contains_key(k) ==> self.instances@.contains_key(
                self.events@[k].instance_key,
            ))
        &&& (forall|k: Timestamp| #[trigger]
            self.spans@.contains_key(k) ==> 1 <= k <= self.last_key)
        &&& (forall|k: Timestamp| #[trigger]
            self.span_events@.contains_key(k) ==> 1 <= k <= self.last_key)
        &&& (forall|k: Timestamp| #[trigger]
            self.instances@.contains_key(k) ==> 1 <= k <= self.last_key)
        &&& (forall|k: Timestamp| #[trigger]
            self.event_ancestors@.contains_key(k) ==> 1 <= k <= self.last_key)
        &&& (forall|k: Timestamp| #[trigger]
            self.span_ancestors@.contains_key(k) ==> 1 <= k <= self.last_key)
        &&& (forall|k: Timestamp, c: int|
            #![trigger self.event_ancestors@[k]@[c]]
            self.event_ancestors@.contains_key(k) && 0 <= c < self.event_ancestors@[k]@.len()
                ==> 1 <= self.event_ancestors@[k]@[c] <= self.last_key)
        &&& (forall|k: Timestamp, c: int|
            #![trigger self.span_ancestors@[k]@[c]]
            self.span_ancestors@.contains_key(k) && 0 <= c < self.span_ancestors@[k]@.len()
                ==> 1 <= self.span_ancestors@[k]@[c] <= self.last_key)
        &&& strictly_sorted(self.instance_keys@)
        &&& (forall|k: Timestamp|
            self.instance_keys@.contains(k) <==> #[trigger] self.instances@.contains_key(k))
        &&& (forall|id: InstanceId| #[trigger]
            self.instance_key_map@.contains_key(id) ==> 1 <= self.instance_key_map@[id]
                <= self.last_key)
        &&& (forall|ik: InstanceKey, sid: u64|
            #![trigger self.span_key_map@[ik]@[sid]]
            self.span_key_map@.contains_key(ik) && self.span_key_map@[ik]@.contains_key(sid) ==> 1
                <= self.span_key_map@[ik]@[sid] <= self.last_key)
    }

    pub fn new(storage: S) -> (r: RawEngine<S>)
        ensures
            r.wf(),
            r.events@ =~= Map::<Timestamp, Event>::empty(),
            r.spans@ =~= Map::<Timestamp, Span>::empty(),
            r.span_events@ =~= Map::<Timestamp, SpanEvent>::empty(),
            r.instances@ =~= Map::<Timestamp, Instance>::empty(),
            r.last_key == 0,
    {
        let r = RawEngine {
            storage,
            instances: HashMap::new(),
            spans: HashMap::new(),
            span_events: HashMap::new(),
            events: HashMap::new(),
            event_indexes: EventIndexes::new(),
            span_indexes: SpanIndexes::new(),
            event_ancestors: HashMap::new(),
            span_ancestors: HashMap::new(),
            instance_key_map: HashMap::new(),
            span_key_map: HashMap::new(),
            instance_keys: Vec::new(),
            last_key: 0,
        };
        proof {
            assert forall|k: Timestamp| !r.instance_keys@.contains(k) by {
                if r.instance_keys@.contains(k) {
                    let i = choose|i: int|
                        0 <= i < r.instance_keys@.len() && r.instance_keys@[i] == k;
                }
            }
            assert forall|k: Timestamp| !(#[trigger] r.events@.contains_key(k)) by {}
            assert forall|k: Timestamp| !r.event_indexes.all@.contains(k) by {
                if r.event_indexes.all@.contains(k) {
                    let i = choose|i: int|
                        0 <= i < r.event_indexes.all@.len() && r.event_indexes.all@[i] == k;
                }
            }
            assert forall|l: int, k: Timestamp|
                0 <= l < 5 implies !(#[trigger] r.event_indexes.levels@[l]@.contains(k)) by {
                if r.event_indexes.levels@[l]@.contains(k) {
                    let i = choose|i: int|
                        0 <= i < r.event_indexes.levels@[l]@.len() && r.event_indexes.levels@[l]@[i]
                            == k;
                }
            }
            assert forall|k: Timestamp| !r.span_indexes.all@.contains(k) by {
                if r.span_indexes.all@.contains(k) {
                    let i = choose|i: int|
                        0 <= i < r.span_indexes.all@.len() && r.span_indexes.all@[i] == k;
                }
            }
            assert forall|l: int, k: Timestamp|
                0 <= l < 5 implies !(#[trigger] r.span_indexes.levels@[l]@.contains(k)) by {
                if r.span_indexes.levels@[l]@.contains(k) {
                    let i = choose|i: int|
                        0 <= i < r.span_indexes.levels@[l]@.len() && r.span_indexes.levels@[l]@[i]
                            == k;
                }
            }
            assert forall|k: Timestamp| !r.span_indexes.roots@.contains(k) by {
                if r.span_indexes.roots@.contains(k) {
                    let i = choose|i: int|
                        0 <= i < r.span_indexes.roots@.len() && r.span_indexes.roots@[i] == k;
                }
            }
            assert forall|nm: Seq<char>, k: Timestamp|
                !(#[trigger] crate::plan::name_slice_has(r.span_indexes.names@, nm, k)) by {}
            assert forall|b: int, k: Timestamp|
                !(#[trigger] crate::plan::band_has(r.span_indexes, b, k)) by {
                if 0 <= b < 64 && r.span_indexes.durations.bands@[b]@.contains(k) {
                    let i = choose|i: int|
                        0 <= i < r.span_indexes.durations.bands@[b]@.len()
                            && r.span_indexes.durations.bands@[b]@[i] == k;
                }
            }
        }
        r
    }

    /// The key a new record gets: its own timestamp if that is fresh
    /// and in order, otherwise one past the last assigned key.
    pub open spec fn spec_assign_key(self, ts: Timestamp) -> Timestamp {
        if ts > self.last_key {
            ts
        } else {
            (self.last_key + 1) as Timestamp
        }
    }

    fn assign_key(&mut self, ts: Timestamp) -> (r: Result<Timestamp, InsertError>)
        ensures
            *final(self) == (RawEngine { last_key: final(self).last_key, ..*old(self) }),
            match r {
                Ok(k) => k == old(self).spec_assign_key(ts) && k > old(self).last_key && k >= 1
                    && final(self).last_key == k,
                Err(e) => e == InsertError::KeySpaceExhausted && old(self).last_key == u64::MAX
                    && ts <= u64::MAX && *final(self) == *old(self) && ts <= old(self).last_key,
            },
    {
        if ts > self.last_key {
            self.last_key = ts;
            Ok(ts)
        } else {
            if self.last_key == u64::MAX {
                return Err(InsertError::KeySpaceExhausted);
            }
            let k = self.last_key + 1;
            self.last_key = k;
            Ok(k)
        }
    }

    /// Registers a connecting instance: assigns its key from the
    /// arriving timestamp, stores it, and maps its external id.
    pub fn insert_instance(&mut self, new_instance: NewInstance, now: Timestamp) -> (r: Result<
        InstanceKey,
        InsertError,
    >)
        requires
            old(self).wf(),
        ensures
            final(self).wf(),
            final(self).events@ == old(self).events@,
            final(self).spans@ == old(self).spans@,
            final(self).span_events@ == old(self).span_events@,
            r is Err <==> old(self).last_key == u64::MAX,
            match r {
                Ok(k) => {
                    &&& k == old(self).spec_assign_key(now)
                    &&& final(self).instances@ == old(self).instances@.insert(
                        k,
                        Instance {
                            id: new_instance.id,
                            connected_at: k,
                            disconnected_at: None,
                            fields: new_instance.fields,
                        },
                    )
                    &&& final(self).instance_key_map@ == old(self).instance_key_map@.insert(
                        new_instance.id,
                        k,
                    )
                },
                Err(e) => e == InsertError::KeySpaceExhausted && *final(self) == *old(self),
            },
    {
        let key = match self.assign_key(now) {
            Ok(k) => k,
            Err(e) => {
                return Err(e);
            },
        };
        let instance = Instance {
            id: new_instance.id,
            connected_at: key,
            disconnected_at: None,
            fields: new_instance.fields,
        };
        let mirror = Instance {
            id: instance.id,
            connected_at: instance.connected_at,
            disconnected_at: instance.disconnected_at,
            fields: clone_fields(&instance.fields),
        };
        self.storage.insert_instance(mirror);
        self.instance_key_map.insert(instance.id, key);
        self.instances.insert(key, instance);
        proof {
            assert(all_below(self.instance_keys@, key)) by {
                assert forall|i: int|
                    0 <= i < self.instance_keys@.len() implies self.instance_keys@[i] < key by {
                    assert(self.instance_keys@.contains(self.instance_keys@[i]));
                    assert(old(self).instances@.contains_key(self.instance_keys@[i]));
                }
            }
        }
        sorted_push(&mut self.instance_keys, key);
        Ok(key)
    }
}

/// Copies an attribute map entry by entry.
pub fn clone_fields(fields: &Fields) -> (r: Fields)
    ensures
        r.entries@.len() == fields.entries@.len(),
        forall|i: int|
            0 <= i < r.entries@.len() ==> (#[trigger] r.entries@[i]).0@ == fields.entries@[i].0@
                && r.entries@[i].1@ == fields.entries@[i].1@,
{
    let n = fields.entries.len();
    let mut out: Vec<(String, String)> = Vec::new();
    let mut i: usize = 0;
    while i < n
        invariant
            n == fields.entries@.len(),
            0 <= i <= n,
            out@.len() == i,
            forall|j: int|
                0 <= j < i ==> (#[trigger] out@[j]).0@ == fields.entries@[j].0@ && out@[j].1@
                    == fields.entries@[j].1@,
        decreases n - i,
    {
        let k = fields.entries[i].0.clone();
        let v = fields.entries[i].1.clone();
        out.push((k, v));
        i = i + 1;
    }
    Fields { entries: out }
}


impl<S: Storage> RawEngine<S> {
    /// Stores a new event: assigns a fresh key, indexes it by level,
    /// instance and ancestry, and records its ancestor chain. The level
    /// rank must name one of the five levels.
    #[verifier::loop_isolation(false)]
    #[verifier::spinoff_prover]
    #[verifier::rlimit(100)]
    pub fn insert_event(&mut self, new_event: NewEvent) -> (r: Result<EventKey, InsertError>)
        requires
            old(self).wf(),
        ensures
            final(self).wf(),
            final(self).spans@ == old(self).spans@,
            final(self).instances@ == old(self).instances@,
            final(self).span_events@ == old(self).span_events@,
            final(self).span_ancestors@ == old(self).span_ancestors@,
            final(self).instance_key_map@ == old(self).instance_key_map@,
            final(self).span_key_map@ == old(self).span_key_map@,
            r is Err <==> !(0 <= new_event.level <= 4) || !old(self).instances@.contains_key(
                new_event.instance_key,
            ) || old(self).last_key == u64::MAX,
            match r {
                Ok(k) => {
                    &&& k == old(self).spec_assign_key(new_event.timestamp)
                    &&& final(self).events@.contains_key(k)
                    &&& final(self).events@.remove(k) == old(self).events@
                    &&& {
                        let e = final(self).events@[k];
                        &&& e.timestamp == k
                        &&& e.instance_key == new_event.instance_key
                        &&& e.level.spec_index() == new_event.level
                        &&& e.name == new_event.name
                        &&& e.target == new_event.target
                        &&& e.fields == new_event.fields
                        &&& e.file_name == new_event.file_name
                        &&& e.file_line == new_event.file_line
                    }
                    &&& final(self).last_key == k
                },
                Err(e) => {
                    &&& *final(self) == *old(self)
                    &&& (e == InsertError::InvalidLevel <==> !(0 <= new_event.level <= 4))
                    &&& (e == InsertError::UnknownInstance <==> 0 <= new_event.level <= 4 && !old(
                        self,
                    ).instances@.contains_key(new_event.instance_key))
                    &&& (e == InsertError::KeySpaceExhausted <==> 0 <= new_event.level <= 4 && old(
                        self,
                    ).instances@.contains_key(new_event.instance_key) && old(self).last_key
                        == u64::MAX)
                },
            },
    {
        let level = match Level::from_index(new_event.level) {
            Some(level) => level,
            None => {
                return Err(InsertError::InvalidLevel);
            },
        };
        if !self.instances.contains_key(&new_event.instance_key) {
            return Err(InsertError::UnknownInstance);
        }
        let key = match self.assign_key(new_event.timestamp) {
            Ok(k) => k,
            Err(e) => {
                return Err(e);
            },
        };
        let ghost pre = *old(self);
        // resolve the span this event sits under, and its chain
        let span_key: Option<SpanKey> = match new_event.span_id {
            Some(sid) => {
                match self.span_key_map.get(&new_event.instance_key) {
                    Some(inner) => match inner.get(&sid) {
                        Some(sk) => Some(*sk),
                        None => None,
                    },
                    None => None,
                }
            },
            None => None,
        };
        let chain: Vec<SpanKey> = match span_key {
            Some(sk) => match self.span_ancestors.get(&sk) {
                Some(c) => vstd::slice::slice_to_vec(c.as_slice()),
                None => {
                    let mut c: Vec<SpanKey> = Vec::new();
                    c.push(sk);
                    c
                },
            },
            None => Vec::new(),
        };
        proof {
            assert forall|ci: int| 0 <= ci < chain@.len() implies 1 <= #[trigger] chain@[ci]
                < key by {
                match span_key {
                    Some(sk) => {
                        if self.span_ancestors@.contains_key(sk) {
                            assert(chain@[ci] == self.span_ancestors@[sk]@[ci]);
                        }
                    },
                    None => {},
                }
            }
        }
        let event = Event {
            instance_key: new_event.instance_key,
            timestamp: key,
            span_key,
            name: new_event.name,
            target: new_event.target,
            level,
            file_name: new_event.file_name,
            file_line: new_event.file_line,
            fields: new_event.fields,
        };
        let mirror = Event {
            instance_key: event.instance_key,
            timestamp: event.timestamp,
            span_key: event.span_key,
            name: event.name.clone(),
            target: event.target.clone(),
            level: event.level,
            file_name: clone_opt_string(&event.file_name),
            file_line: event.file_line,
            fields: clone_fields(&event.fields),
        };
        let ik = event.instance_key;
        self.storage.insert_event(mirror);
        let ghost old_events = self.events@;
        let ghost old_anc = self.event_ancestors@;
        proof {
            assert(!old_events.contains_key(key));
        }
        self.events.insert(key, event);
        self.event_ancestors.insert(key, chain);
        let ghost new_events = self.events@;
        let ghost new_anc = self.event_ancestors@;
        proof {
            assert forall|k2: Timestamp| #[trigger]
                new_events.contains_key(k2) implies 1 <= k2 <= self.last_key by {}
            assert forall|k2: Timestamp|
                k2 != key implies chain_of(new_anc, k2) == chain_of(old_anc, k2) by {}
            assert(chain_of(new_anc, key) == chain@);
        }
        // index: all
        proof {
            assert(all_below(self.event_indexes.all@, key)) by {
                assert forall|i: int|
                    0 <= i < self.event_indexes.all@.len() implies self.event_indexes.all@[i]
                        < key by {
                    assert(self.event_indexes.all@.contains(self.event_indexes.all@[i]));
                    assert(old_events.contains_key(self.event_indexes.all@[i]));
                }
            }
        }
        sorted_push(&mut self.event_indexes.all, key);
        // index: level
        let lidx = level.index();
        proof {
            assert(all_below(self.event_indexes.levels@[lidx as int]@, key)) by {
                assert forall|i: int|
                    0 <= i < self.event_indexes.levels@[lidx as int]@.len() implies
                    self.event_indexes.levels@[lidx as int]@[i] < key by {
                    let kk = self.event_indexes.levels@[lidx as int]@[i];
                    assert(self.event_indexes.levels@[lidx as int]@.contains(kk));
                    assert(old_events.contains_key(kk));
                }
            }
        }
        let ghost pre_levels = self.event_indexes.levels@;
        sorted_push(&mut self.event_indexes.levels[lidx], key);
        proof {
            assert(self.event_indexes.levels@.len() == 5);
            assert(self.event_indexes.levels@ == pre_levels.update(
                lidx as int,
                self.event_indexes.levels@[lidx as int],
            ));
        }
        // index: instance
        proof {
            assert forall|mk: u64| #[trigger]
                self.event_indexes.instances@.contains_key(mk) implies strictly_sorted(
                self.event_indexes.instances@[mk]@,
            ) && all_below(self.event_indexes.instances@[mk]@, key) by {
                assert forall|i: int|
                    0 <= i < self.event_indexes.instances@[mk]@.len() implies
                    self.event_indexes.instances@[mk]@[i] < key by {
                    let kk = self.event_indexes.instances@[mk]@[i];
                    assert(self.event_indexes.instances@[mk]@.contains(kk));
                    assert(old_events.contains_key(kk));
                }
            }
        }
        let ghost pre_instances = self.event_indexes.instances;
        map_sorted_push(&mut self.event_indexes.instances, ik, key);
        // index: descendents, one entry per chain element
        let chain_ref = match self.event_ancestors.get(&key) {
            Some(c) => c,
            None => {
                proof {
                    assert(false);
                }
                return Err(InsertError::KeySpaceExhausted);
            },
        };
        let cn = chain_ref.len();
        let mut ci: usize = 0;
        let ghost desc0 = self.event_indexes.descendents@;
        let ghost post_all = self.event_indexes.all;
        let ghost post_levels = self.event_indexes.levels;
        let ghost post_instances = self.event_indexes.instances;
        while ci < cn
            invariant
                cn == chain@.len(),
                0 <= ci <= cn,
                self.spans == old(self).spans,
                self.instances == old(self).instances,
                self.instance_keys == old(self).instance_keys,
                self.span_events == old(self).span_events,
                self.span_ancestors == old(self).span_ancestors,
                self.span_indexes == old(self).span_indexes,
                self.instance_key_map == old(self).instance_key_map,
                self.span_key_map == old(self).span_key_map,
                self.last_key == key,
                self.events@ == new_events,
                self.event_ancestors@ == new_anc,
                self.event_indexes.all == post_all,
                self.event_indexes.levels == post_levels,
                self.event_indexes.instances == post_instances,
                forall|ci2: int| 0 <= ci2 < chain@.len() ==> 1 <= #[trigger] chain@[ci2] < key,
                self.event_ancestors@.contains_key(key),
                self.event_ancestors@[key] == chain,
                forall|sk: u64| #[trigger]
                    self.event_indexes.descendents@.contains_key(sk) <==> desc0.contains_key(sk)
                        || chain@.take(ci as int).contains(sk),
                forall|sk: u64| #[trigger]
                    desc0.contains_key(sk) ==> self.event_indexes.descendents@.contains_key(sk),
                forall|sk: u64, k2: Timestamp|
                    #![trigger self.event_indexes.descendents@[sk]@.contains(k2)]
                    self.event_indexes.descendents@.contains_key(sk) ==> (
                    self.event_indexes.descendents@[sk]@.contains(k2) <==> (desc0.contains_key(sk)
                        && desc0[sk]@.contains(k2)) || (k2 == key && chain@.take(
                        ci as int,
                    ).contains(sk))),
                forall|sk: u64| #[trigger]
                    self.event_indexes.descendents@.contains_key(sk) ==> strictly_sorted(
                        self.event_indexes.descendents@[sk]@,
                    ),
            decreases cn - ci,
        {
            let c = self.event_ancestors.get(&key).unwrap()[ci];
            proof {
                assert(chain@.take(ci + 1).contains(c)) by {
                    assert(chain@.take(ci + 1)[ci as int] == c);
                }
                assert forall|sk: u64|
                    #![trigger chain@.take(ci + 1).contains(sk)]
                    chain@.take(ci + 1).contains(sk) && !chain@.take(ci as int).contains(sk)
                        implies sk == c by {
                    let idx = choose|idx: int|
                        0 <= idx < chain@.take(ci + 1).len() && (#[trigger] chain@.take(
                            ci + 1,
                        )[idx]) == sk;
                    if idx < ci {
                        assert(chain@.take(ci as int)[idx] == sk);
                    }
                }
            }
            let already = match self.event_indexes.descendents.get(&c) {
                Some(v) => {
                    if v.len() > 0 {
                        let last = v[v.len() - 1];
                        last == key
                    } else {
                        false
                    }
                },
                None => false,
            };
            if !already {
                proof {
                    let m = self.event_indexes.descendents@;
                    if m.contains_key(c) {
                        assert(all_below(m[c]@, key) || m[c]@.contains(key)) by {
                            if !all_below(m[c]@, key) {
                                let i = choose|i: int|
                                    0 <= i < m[c]@.len() && !(m[c]@[i] < key);
                                let kk = m[c]@[i];
                                assert(m[c]@.contains(kk));
                                if kk != key {
                                    assert(desc0.contains_key(c) && desc0[c]@.contains(kk));
                                    assert(old_events.contains_key(kk));
                                    assert(kk <= pre.last_key);
                                    assert(false);
                                }
                            }
                        }
                        if m[c]@.contains(key) {
                            let i = choose|i: int| 0 <= i < m[c]@.len() && m[c]@[i] == key;
                            assert forall|j: int| 0 <= j < m[c]@.len() implies m[c]@[j]
                                <= key by {
                                assert(m[c]@.contains(m[c]@[j]));
                                if m[c]@[j] != key {
                                    assert(old_events.contains_key(m[c]@[j]));
                                }
                            }
                            assert(i == m[c]@.len() - 1) by {
                                if i < m[c]@.len() - 1 {
                                    assert(m[c]@[i] < m[c]@[m[c]@.len() - 1]);
                                    assert(m[c]@[m[c]@.len() - 1] <= key);
                                }
                            }
                            assert(false);
                        }
                        assert(all_below(m[c]@, key));
                    }
                }
                map_sorted_push(&mut self.event_indexes.descendents, c, key);
            } else {
                proof {
                    let m = self.event_indexes.descendents@;
                    assert(m.contains_key(c));
                    assert(m[c]@.contains(key)) by {
                        assert(m[c]@[m[c]@.len() - 1] == key);
                    }
                }
            }
            ci = ci + 1;
            proof {
                assert(chain@.take(ci as int) =~= chain@.take(ci - 1).push(chain@[ci - 1]));
            }
        }
        proof {
            assert(chain@.take(cn as int) =~= chain@);
            let idx = self.event_indexes;
            let ev = new_events[key];
            assert(ev == event);
            // exactness of `all`
            assert forall|k2: Timestamp|
                idx.all@.contains(k2) <==> #[trigger] new_events.contains_key(k2) by {}
            // timestamps
            assert forall|k2: Timestamp| #[trigger]
                new_events.contains_key(k2) implies new_events[k2].timestamp == k2 by {}
            // levels
            assert forall|l: int, k2: Timestamp|
                0 <= l < 5 implies ((#[trigger] idx.levels@[l]@.contains(k2))
                    <==> new_events.contains_key(k2) && new_events[k2].level.spec_index()
                    == l) by {
                if l == lidx {
                    assert(idx.levels@[l]@.contains(k2) <==> pre_levels[l]@.contains(k2) || k2
                        == key);
                } else {
                    assert(idx.levels@[l] == pre_levels[l]);
                }
            }
            // instances
            assert forall|ik2: u64, k2: Timestamp|
                #[trigger] idx.instances@.contains_key(ik2) implies ((
            #[trigger] idx.instances@[ik2]@.contains(k2)) <==> new_events.contains_key(k2)
                && new_events[k2].instance_key == ik2) by {
                if ik2 == ik {
                    assert(idx.instances@[ik]@.contains(k2) <==> (pre_instances@.contains_key(ik)
                        && pre_instances@[ik]@.contains(k2)) || k2 == key);
                } else {
                    assert(idx.instances@[ik2] == pre_instances@[ik2]);
                    assert(pre_instances@.contains_key(ik2));
                }
            }
            assert forall|k2: Timestamp| #[trigger]
                new_events.contains_key(k2) implies idx.instances@.contains_key(
                new_events[k2].instance_key,
            ) by {
                if k2 != key {
                    assert(old_events.contains_key(k2));
                }
            }
            // descendents
            assert forall|sk: u64, k2: Timestamp|
                #[trigger] idx.descendents@.contains_key(sk) implies ((
            #[trigger] idx.descendents@[sk]@.contains(k2)) <==> new_events.contains_key(k2)
                && chain_of(new_anc, k2).contains(sk)) by {
                assert(idx.descendents@[sk]@.contains(k2) <==> (desc0.contains_key(sk)
                    && desc0[sk]@.contains(k2)) || (k2 == key && chain@.contains(sk)));
                if k2 != key {
                    assert(chain_of(new_anc, k2) == chain_of(old_anc, k2));
                }
            }
            assert forall|k2: Timestamp, sk: u64|
                new_events.contains_key(k2) && #[trigger] chain_of(new_anc, k2).contains(sk)
                    implies idx.descendents@.contains_key(sk) by {
                if k2 == key {
                    assert(chain@.contains(sk));
                } else {
                    assert(old_events.contains_key(k2));
                    assert(chain_of(old_anc, k2).contains(sk));
                }
            }
            // chain bound invariant
            assert forall|k2: Timestamp, c2: int|
                #![trigger new_anc[k2]@[c2]]
                new_anc.contains_key(k2) && 0 <= c2 < new_anc[k2]@.len() implies 1
                    <= new_anc[k2]@[c2] <= self.last_key by {
                if k2 != key {
                    assert(old_anc.contains_key(k2));
                    assert(old_anc[k2]@[c2] <= pre.last_key);
                }
            }
        }
        proof {
            assert(self.event_indexes.wf());
            assert(event_indexes_exact(self.event_indexes, self.events@, self.event_ancestors@));
            assert(span_indexes_exact(self.span_indexes, self.spans@, self.span_ancestors@));
            assert(forall|k2: Timestamp| #[trigger]
                self.events@.contains_key(k2) ==> 1 <= k2 <= self.last_key);
            assert(forall|k2: Timestamp| #[trigger]
                self.spans@.contains_key(k2) ==> 1 <= k2 <= self.last_key);
            assert(forall|k2: Timestamp| #[trigger]
                self.span_events@.contains_key(k2) ==> 1 <= k2 <= self.last_key);
            assert(forall|k2: Timestamp| #[trigger]
                self.instances@.contains_key(k2) ==> 1 <= k2 <= self.last_key);
        }
        Ok(key)
    }
}

/// Copies an optional string.
pub fn clone_opt_string(s: &Option<String>) -> (r: Option<String>)
    ensures
        match s {
            Some(v) => r matches Some(rv) && rv@ == v@,
            None => r is None,
        },
{
    match s {
        Some(v) => Some(v.clone()),
        None => None,
    }
}


impl<S: Storage> RawEngine<S> {
    /// The span key an instance's external span id maps to, if known.
    fn lookup_span_key(&self, instance_key: InstanceKey, span_id: u64) -> (r: Option<SpanKey>)
        ensures
            match r {
                Some(sk) => self.span_key_map@.contains_key(instance_key)
                    && self.span_key_map@[instance_key]@.contains_key(span_id)
                    && self.span_key_map@[instance_key]@[span_id] == sk,
                None => !(self.span_key_map@.contains_key(instance_key)
                    && self.span_key_map@[instance_key]@.contains_key(span_id)),
            },
    {
        match self.span_key_map.get(&instance_key) {
            Some(inner) => match inner.get(&span_id) {
                Some(sk) => Some(*sk),
                None => None,
            },
            None => None,
        }
    }

    /// Stores a bare span event record against a span key.
    fn store_span_event(
        &mut self,
        instance_key: InstanceKey,
        key: Timestamp,
        span_key: SpanKey,
        kind: SpanEventKind,
        mirror_kind: SpanEventKind,
    )
        requires
            old(self).wf(),
            1 <= key <= old(self).last_key,
        ensures
            final(self).wf(),
            *final(self) == (RawEngine {
                storage: final(self).storage,
                span_events: final(self).span_events,
                ..*old(self)
            }),
            final(self).span_events@ == if old(self).span_events@.contains_key(key) {
                old(self).span_events@
            } else {
                old(self).span_events@.insert(
                    key,
                    SpanEvent { instance_key, timestamp: key, span_key, kind },
                )
            },
    {
        let mirror = SpanEvent { instance_key, timestamp: key, span_key, kind: mirror_kind };
        self.storage.insert_span_event(mirror);
        if !self.span_events.contains_key(&key) {
            let record = SpanEvent { instance_key, timestamp: key, span_key, kind };
            self.span_events.insert(key, record);
        }
    }

    /// Applies a span event. A `Create` builds and indexes the span; a
    /// repeated `Create` for a span id already known to the instance
    /// changes nothing. An `Update` merges fields into the span, a
    /// `Close` stamps the closing time and refiles the span's duration
    /// band; `Enter` and `Exit` are stored but not indexed, and a
    /// `Follows` relation is recorded nowhere. Span events whose span
    /// id is unknown are stored without touching any span.
    #[verifier::loop_isolation(false)]
    #[verifier::spinoff_prover]
    #[verifier::rlimit(100)]
    pub fn insert_span_event(&mut self, new_span_event: NewSpanEvent) -> (r: Result<
        SpanKey,
        InsertError,
    >)
        requires
            old(self).wf(),
        ensures
            final(self).wf(),
            final(self).events@ == old(self).events@,
            final(self).event_ancestors@ == old(self).event_ancestors@,
            final(self).instances@ == old(self).instances@,
            final(self).instance_key_map@ == old(self).instance_key_map@,
            final(self).event_indexes == old(self).event_indexes,
            spec_repeated_create(*old(self), new_span_event) ==> *final(self) == *old(self) && r
                == Ok::<SpanKey, InsertError>(
                old(self).span_key_map@[new_span_event.instance_key]@[new_span_event.span_id],
            ),
            r is Err <==> !spec_repeated_create(*old(self), new_span_event) && (
            spec_bad_create_level(new_span_event) || old(self).last_key == u64::MAX),
            match r {
                Ok(_) => true,
                Err(e) => {
                    &&& *final(self) == *old(self)
                    &&& (e == InsertError::InvalidLevel <==> spec_bad_create_level(new_span_event))
                    &&& (e == InsertError::KeySpaceExhausted <==> !spec_bad_create_level(
                        new_span_event,
                    ) && old(self).last_key == u64::MAX)
                },
            },
            !spec_repeated_create(*old(self), new_span_event) && r is Ok ==> (new_span_event.kind
                matches NewSpanEventKind::Create(create) ==> ({
                let k = old(self).spec_assign_key(new_span_event.timestamp);
                let ik = new_span_event.instance_key;
                let sid = new_span_event.span_id;
                &&& final(self).last_key == k
                // the span itself, field by field
                &&& final(self).spans@.contains_key(k)
                &&& final(self).spans@.remove(k) == old(self).spans@
                &&& ({
                    let sp = final(self).spans@[k];
                    &&& sp.created_at == k
                    &&& sp.instance_key == ik
                    &&& sp.id == sid
                    &&& sp.closed_at is None
                    &&& sp.parent_key == spec_parent_of(*old(self), ik, create.parent_id)
                    &&& sp.name == create.name
                    &&& sp.target == create.target
                    &&& sp.level.spec_index() == create.level
                    &&& sp.fields == create.fields
                    &&& sp.file_name == create.file_name
                    &&& sp.file_line == create.file_line
                })
                // the external id now maps to the span
                &&& final(self).span_key_map@.contains_key(ik)
                &&& final(self).span_key_map@[ik]@.contains_key(sid)
                &&& final(self).span_key_map@[ik]@[sid] == k
                &&& (forall|ik2: InstanceKey|
                    ik2 != ik ==> ((#[trigger] final(self).span_key_map@.contains_key(ik2)) == old(
                        self,
                    ).span_key_map@.contains_key(ik2) && (old(self).span_key_map@.contains_key(ik2)
                        ==> final(self).span_key_map@[ik2] == old(self).span_key_map@[ik2])))
                &&& (forall|sid2: u64|
                    sid2 != sid ==> ((#[trigger] final(self).span_key_map@[ik]@.contains_key(sid2))
                        == (old(self).span_key_map@.contains_key(ik) && old(
                        self,
                    ).span_key_map@[ik]@.contains_key(sid2)) && (old(
                        self,
                    ).span_key_map@.contains_key(ik) && old(self).span_key_map@[ik]@.contains_key(
                        sid2,
                    ) ==> final(self).span_key_map@[ik]@[sid2] == old(
                        self,
                    ).span_key_map@[ik]@[sid2])))
                // the ancestor chain: the span itself, then its parent's chain
                &&& final(self).span_ancestors@.contains_key(k)
                &&& final(self).span_ancestors@.remove(k) == old(self).span_ancestors@
                &&& final(self).span_ancestors@[k]@ == spec_new_chain(
                    *old(self),
                    k,
                    spec_parent_of(*old(self), ik, create.parent_id),
                )
                // the stored span event
                &&& final(self).span_events@.contains_key(k)
                &&& final(self).span_events@.remove(k) == old(self).span_events@
                &&& final(self).span_events@[k].timestamp == k
                &&& final(self).span_events@[k].span_key == k
                &&& final(self).span_events@[k].instance_key == ik
                &&& final(self).span_events@[k].kind is Create
            })),
            r is Ok ==> (new_span_event.kind matches NewSpanEventKind::Update(update) ==> ({
                let sk = spec_parent_of(
                    *old(self),
                    new_span_event.instance_key,
                    Some(new_span_event.span_id),
                );
                match sk {
                    Some(sk) => if old(self).spans@.contains_key(sk) {
                        &&& r == Ok::<SpanKey, InsertError>(sk)
                        &&& final(self).spans@ =~= old(self).spans@.insert(
                            sk,
                            Span {
                                fields: final(self).spans@[sk].fields,
                                ..old(self).spans@[sk]
                            },
                        )
                        &&& (forall|a: Seq<char>|
                            #![trigger final(self).spans@[sk].fields.spec_get(a)]
                            final(self).spans@[sk].fields.spec_get(a) == (
                            match update.fields.spec_get(a) {
                                Some(v) => Some(v),
                                None => old(self).spans@[sk].fields.spec_get(a),
                            }))
                    } else {
                        final(self).spans@ == old(self).spans@
                    },
                    None => final(self).spans@ == old(self).spans@,
                }
            })),
            r is Ok && new_span_event.kind is Close ==> ({
                let sk = spec_parent_of(
                    *old(self),
                    new_span_event.instance_key,
                    Some(new_span_event.span_id),
                );
                match sk {
                    Some(sk) => if old(self).spans@.contains_key(sk) && old(
                        self,
                    ).spans@[sk].closed_at is None {
                        &&& r == Ok::<SpanKey, InsertError>(sk)
                        &&& final(self).spans@ =~= old(self).spans@.insert(
                            sk,
                            Span {
                                closed_at: Some(final(self).last_key),
                                ..old(self).spans@[sk]
                            },
                        )
                    } else {
                        final(self).spans@ == old(self).spans@
                    },
                    None => final(self).spans@ == old(self).spans@,
                }
            }),
            r is Ok && (new_span_event.kind is Enter || new_span_event.kind is Exit) ==> ({
                let k = old(self).spec_assign_key(new_span_event.timestamp);
                &&& final(self).spans@ == old(self).spans@
                &&& final(self).span_key_map@ == old(self).span_key_map@
                &&& final(self).span_ancestors@ == old(self).span_ancestors@
                &&& final(self).span_events@.contains_key(k)
                &&& final(self).span_events@.remove(k) == old(self).span_events@
                &&& (new_span_event.kind is Enter ==> final(self).span_events@[k].kind is Enter)
                &&& (new_span_event.kind is Exit ==> final(self).span_events@[k].kind is Exit)
            }),
            r is Ok && new_span_event.kind is Follows ==> *final(self) == (RawEngine {
                last_key: final(self).last_key,
                ..*old(self)
            }),
    {
        match new_span_event.kind {
            NewSpanEventKind::Create(create) => {
                match self.lookup_span_key(new_span_event.instance_key, new_span_event.span_id) {
                    Some(existing) => {
                        return Ok(existing);
                    },
                    None => {},
                }
                let level = match Level::from_index(create.level) {
                    Some(level) => level,
                    None => {
                        return Err(InsertError::InvalidLevel);
                    },
                };
                let key = match self.assign_key(new_span_event.timestamp) {
                    Ok(k) => k,
                    Err(e) => {
                        return Err(e);
                    },
                };
                let ghost pre = *old(self);
                let parent_key: Option<SpanKey> = match create.parent_id {
                    Some(pid) => self.lookup_span_key(new_span_event.instance_key, pid),
                    None => None,
                };
                let mut chain: Vec<SpanKey> = Vec::new();
                chain.push(key);
                match parent_key {
                    Some(pk) => {
                        match self.span_ancestors.get(&pk) {
                            Some(pc) => {
                                let n = pc.len();
                                let mut i: usize = 0;
                                while i < n
                                    invariant
                                        n == pc@.len(),
                                        0 <= i <= n,
                                        chain@.len() == 1 + i,
                                        chain@[0] == key,
                                        forall|j: int|
                                            1 <= j < chain@.len() ==> #[trigger] chain@[j] == pc@[j
                                                - 1],
                                    decreases n - i,
                                {
                                    let c = pc[i];
                                    chain.push(c);
                                    i = i + 1;
                                }
                            },
                            None => {
                                chain.push(pk);
                            },
                        }
                    },
                    None => {},
                }
                proof {
                    assert forall|ci: int| 0 <= ci < chain@.len() implies 1 <= #[trigger] chain@[ci]
                        <= key by {
                        if ci > 0 {
                            match parent_key {
                                Some(pk) => {
                                    if self.span_ancestors@.contains_key(pk) {
                                        assert(chain@[ci] == self.span_ancestors@[pk]@[ci - 1]);
                                    } else {
                                        assert(chain@[ci] == pk);
                                    }
                                },
                                None => {},
                            }
                        }
                    }
                }
                let span = Span {
                    instance_key: new_span_event.instance_key,
                    id: new_span_event.span_id,
                    created_at: key,
                    closed_at: None,
                    parent_key,
                    target: create.target,
                    name: create.name,
                    level,
                    file_name: create.file_name,
                    file_line: create.file_line,
                    fields: create.fields,
                };
                let is_root = match span.parent_key {
                    Some(_) => false,
                    None => true,
                };
                let ik = span.instance_key;
                let name_copy = span.name.clone();
                let mirror = Span {
                    instance_key: span.instance_key,
                    id: span.id,
                    created_at: span.created_at,
                    closed_at: span.closed_at,
                    parent_key: span.parent_key,
                    target: span.target.clone(),
                    name: span.name.clone(),
                    level: span.level,
                    file_name: clone_opt_string(&span.file_name),
                    file_line: span.file_line,
                    fields: clone_fields(&span.fields),
                };
                self.storage.insert_span(mirror);
                let kind = SpanEventKind::Create(
                    CreateSpanEvent {
                        parent_key,
                        target: span.target.clone(),
                        name: span.name.clone(),
                        level,
                        file_name: clone_opt_string(&span.file_name),
                        file_line: span.file_line,
                        fields: clone_fields(&span.fields),
                    },
                );
                let mirror_kind = SpanEventKind::Create(
                    CreateSpanEvent {
                        parent_key,
                        target: span.target.clone(),
                        name: span.name.clone(),
                        level,
                        file_name: clone_opt_string(&span.file_name),
                        file_line: span.file_line,
                        fields: clone_fields(&span.fields),
                    },
                );
                self.store_span_event(new_span_event.instance_key, key, key, kind, mirror_kind);
                let ghost old_spans = self.spans@;
                let ghost old_anc = self.span_ancestors@;
                proof {
                    assert(!old_spans.contains_key(key));
                }
                self.spans.insert(key, span);
                let ghost chain_snap = chain;
                self.span_ancestors.insert(key, chain);
                let mut inner: HashMap<u64, SpanKey> = match self.span_key_map.remove(
                    &new_span_event.instance_key,
                ) {
                    Some(inner) => inner,
                    None => HashMap::new(),
                };
                inner.insert(new_span_event.span_id, key);
                self.span_key_map.insert(new_span_event.instance_key, inner);
                let ghost new_spans = self.spans@;
                let ghost new_anc = self.span_ancestors@;
                proof {
                    assert forall|k2: Timestamp|
                        k2 != key implies chain_of(new_anc, k2) == chain_of(old_anc, k2) by {}
                    assert(chain_of(new_anc, key) == chain_snap@);
                }
                proof {
                    assert(all_below(self.span_indexes.all@, key)) by {
                        assert forall|i: int|
                            0 <= i < self.span_indexes.all@.len() implies self.span_indexes.all@[i]
                                < key by {
                            assert(self.span_indexes.all@.contains(self.span_indexes.all@[i]));
                            assert(old_spans.contains_key(self.span_indexes.all@[i]));
                        }
                    }
                }
                sorted_push(&mut self.span_indexes.all, key);
                let lidx = level.index();
                proof {
                    assert(all_below(self.span_indexes.levels@[lidx as int]@, key)) by {
                        assert forall|i: int|
                            0 <= i < self.span_indexes.levels@[lidx as int]@.len() implies
                            self.span_indexes.levels@[lidx as int]@[i] < key by {
                            let kk = self.span_indexes.levels@[lidx as int]@[i];
                            assert(self.span_indexes.levels@[lidx as int]@.contains(kk));
                            assert(old_spans.contains_key(kk));
                        }
                    }
                }
                let ghost pre_levels = self.span_indexes.levels@;
                sorted_push(&mut self.span_indexes.levels[lidx], key);
                proof {
                    assert(self.span_indexes.levels@ == pre_levels.update(
                        lidx as int,
                        self.span_indexes.levels@[lidx as int],
                    ));
                }
                proof {
                    if self.span_indexes.instances@.contains_key(ik) {
                        assert(all_below(self.span_indexes.instances@[ik]@, key)) by {
                            assert forall|i: int|
                                0 <= i < self.span_indexes.instances@[ik]@.len() implies
                                self.span_indexes.instances@[ik]@[i] < key by {
                                let kk = self.span_indexes.instances@[ik]@[i];
                                assert(self.span_indexes.instances@[ik]@.contains(kk));
                                assert(old_spans.contains_key(kk));
                            }
                        }
                    }
                }
                let ghost pre_instances = self.span_indexes.instances;
                map_sorted_push(&mut self.span_indexes.instances, ik, key);
                // names
                proof {
                    assert forall|i: int|
                        0 <= i < self.span_indexes.names@.len() implies strictly_sorted(
                        (#[trigger] self.span_indexes.names@[i]).1@,
                    ) && all_below(self.span_indexes.names@[i].1@, key) by {
                        assert forall|j: int|
                            0 <= j < self.span_indexes.names@[i].1@.len() implies
                            self.span_indexes.names@[i].1@[j] < key by {
                            let kk = self.span_indexes.names@[i].1@[j];
                            assert(self.span_indexes.names@[i].1@.contains(kk));
                            crate::index::lemma_names_get_at(self.span_indexes.names@, i);
                            assert(crate::plan::name_slice_has(
                                self.span_indexes.names@,
                                self.span_indexes.names@[i].0@,
                                kk,
                            ));
                            assert(old_spans.contains_key(kk));
                        }
                    }
                }
                let ghost pre_names = self.span_indexes.names@;
                self.span_indexes.name_push(name_copy, key);
                let ghost post_names = self.span_indexes.names@;
                // roots
                let ghost pre_roots = self.span_indexes.roots@;
                if is_root {
                    proof {
                        assert(all_below(self.span_indexes.roots@, key)) by {
                            assert forall|i: int|
                                0 <= i < self.span_indexes.roots@.len() implies
                                self.span_indexes.roots@[i] < key by {
                                let kk = self.span_indexes.roots@[i];
                                assert(self.span_indexes.roots@.contains(kk));
                                assert(old_spans.contains_key(kk));
                            }
                        }
                    }
                    sorted_push(&mut self.span_indexes.roots, key);
                }
                // durations: a fresh span is open, in the top band
                proof {
                    assert(!self.span_indexes.durations.bands@[63]@.contains(key)) by {
                        if self.span_indexes.durations.bands@[63]@.contains(key) {
                            assert(self.span_indexes.durations == pre.span_indexes.durations);
                            assert(crate::plan::band_has(pre.span_indexes, 63, key));
                            assert(pre.spans@.contains_key(key));
                        }
                    }
                }
                let ghost pre_bands = self.span_indexes.durations.bands@;
                self.span_indexes.durations.add_open(key);
                // descendents, one entry per chain element
                let chain_ref = match self.span_ancestors.get(&key) {
                    Some(c) => c,
                    None => {
                        proof {
                            assert(false);
                        }
                        return Ok(key);
                    },
                };
                let cn = chain_ref.len();
                let mut ci: usize = 0;
                let ghost desc0 = self.span_indexes.descendents@;
                let ghost post_all = self.span_indexes.all;
                let ghost post_levels = self.span_indexes.levels;
                let ghost post_instances = self.span_indexes.instances;
                let ghost post_roots = self.span_indexes.roots;
                let ghost post_durations = self.span_indexes.durations;
                let ghost post_skm = self.span_key_map@;
                let ghost post_span_events = self.span_events@;
                while ci < cn
                    invariant
                        cn == chain_snap@.len(),
                        0 <= ci <= cn,
                        self.events == old(self).events,
                        self.event_ancestors == old(self).event_ancestors,
                        self.instances == old(self).instances,
                        self.instance_keys == old(self).instance_keys,
                        self.instance_key_map == old(self).instance_key_map,
                        self.event_indexes == old(self).event_indexes,
                        self.span_events@ == post_span_events,
                        self.span_events@.contains_key(key),
                        self.spans@ == new_spans,
                        self.span_ancestors@ == new_anc,
                        self.span_key_map@ == post_skm,
                        self.last_key == key,
                        self.span_indexes.all == post_all,
                        self.span_indexes.levels == post_levels,
                        self.span_indexes.instances == post_instances,
                        self.span_indexes.names@ == post_names,
                        self.span_indexes.roots == post_roots,
                        self.span_indexes.durations == post_durations,
                        forall|k2: Timestamp| #[trigger]
                            self.span_events@.contains_key(k2) ==> 1 <= k2 <= self.last_key,
                        forall|ci2: int|
                            0 <= ci2 < chain_snap@.len() ==> 1 <= #[trigger] chain_snap@[ci2]
                                <= key,
                        self.span_ancestors@.contains_key(key),
                        self.span_ancestors@[key] == chain_snap,
                        forall|sk: u64| #[trigger]
                            self.span_indexes.descendents@.contains_key(sk) <==> desc0.contains_key(
                                sk,
                            ) || chain_snap@.take(ci as int).contains(sk),
                        forall|sk: u64| #[trigger]
                            desc0.contains_key(sk)
                                ==> self.span_indexes.descendents@.contains_key(sk),
                        forall|sk: u64, k2: Timestamp|
                            #![trigger self.span_indexes.descendents@[sk]@.contains(k2)]
                            self.span_indexes.descendents@.contains_key(sk) ==> (
                            self.span_indexes.descendents@[sk]@.contains(k2) <==> (
                            desc0.contains_key(sk) && desc0[sk]@.contains(k2)) || (k2 == key
                                && chain_snap@.take(ci as int).contains(sk))),
                        forall|sk: u64| #[trigger]
                            self.span_indexes.descendents@.contains_key(sk) ==> strictly_sorted(
                                self.span_indexes.descendents@[sk]@,
                            ),
                    decreases cn - ci,
                {
                    let c = self.span_ancestors.get(&key).unwrap()[ci];
                    proof {
                        assert(chain_snap@.take(ci + 1).contains(c)) by {
                            assert(chain_snap@.take(ci + 1)[ci as int] == c);
                        }
                        assert forall|sk: u64|
                            #![trigger chain_snap@.take(ci + 1).contains(sk)]
                            chain_snap@.take(ci + 1).contains(sk) && !chain_snap@.take(
                                ci as int,
                            ).contains(sk) implies sk == c by {
                            let idx = choose|idx: int|
                                0 <= idx < chain_snap@.take(ci + 1).len() && (
                                #[trigger] chain_snap@.take(ci + 1)[idx]) == sk;
                            if idx < ci {
                                assert(chain_snap@.take(ci as int)[idx] == sk);
                            }
                        }
                    }
                    let already = match self.span_indexes.descendents.get(&c) {
                        Some(v) => {
                            if v.len() > 0 {
                                let last = v[v.len() - 1];
                                last == key
                            } else {
                                false
                            }
                        },
                        None => false,
                    };
                    if !already {
                        proof {
                            let m = self.span_indexes.descendents@;
                            if m.contains_key(c) {
                                assert(all_below(m[c]@, key) || m[c]@.contains(key)) by {
                                    if !all_below(m[c]@, key) {
                                        let i = choose|i: int|
                                            0 <= i < m[c]@.len() && !(m[c]@[i] < key);
                                        let kk = m[c]@[i];
                                        assert(m[c]@.contains(kk));
                                        if kk != key {
                                            assert(desc0.contains_key(c) && desc0[c]@.contains(kk));
                                            assert(old_spans.contains_key(kk));
                                            assert(kk <= pre.last_key);
                                            assert(false);
                                        }
                                    }
                                }
                                if m[c]@.contains(key) {
                                    let i = choose|i: int| 0 <= i < m[c]@.len() && m[c]@[i] == key;
                                    assert forall|j: int| 0 <= j < m[c]@.len() implies m[c]@[j]
                                        <= key by {
                                        assert(m[c]@.contains(m[c]@[j]));
                                        if m[c]@[j] != key {
                                            assert(old_spans.contains_key(m[c]@[j]));
                                        }
                                    }
                                    assert(i == m[c]@.len() - 1) by {
                                        if i < m[c]@.len() - 1 {
                                            assert(m[c]@[i] < m[c]@[m[c]@.len() - 1]);
                                            assert(m[c]@[m[c]@.len() - 1] <= key);
                                        }
                                    }
                                    assert(false);
                                }
                                assert(all_below(m[c]@, key));
                            }
                        }
                        map_sorted_push(&mut self.span_indexes.descendents, c, key);
                    } else {
                        proof {
                            let m = self.span_indexes.descendents@;
                            assert(m.contains_key(c));
                            assert(m[c]@.contains(key)) by {
                                assert(m[c]@[m[c]@.len() - 1] == key);
                            }
                        }
                    }
                    ci = ci + 1;
                    proof {
                        assert(chain_snap@.take(ci as int) =~= chain_snap@.take(ci - 1).push(
                            chain_snap@[ci - 1],
                        ));
                    }
                }
                proof {
                    assert(chain_snap@.take(cn as int) =~= chain_snap@);
                    let idx = self.span_indexes;
                    let sp = new_spans[key];
                    assert(sp == span);
                    assert forall|k2: Timestamp|
                        idx.all@.contains(k2) <==> #[trigger] new_spans.contains_key(k2) by {}
                    assert forall|k2: Timestamp| #[trigger]
                        new_spans.contains_key(k2) implies new_spans[k2].created_at == k2 by {}
                    assert forall|l: int, k2: Timestamp|
                        0 <= l < 5 implies ((#[trigger] idx.levels@[l]@.contains(k2))
                            <==> new_spans.contains_key(k2) && new_spans[k2].level.spec_index()
                            == l) by {
                        if l == lidx {
                            assert(idx.levels@[l]@.contains(k2) <==> pre_levels[l]@.contains(k2)
                                || k2 == key);
                        } else {
                            assert(idx.levels@[l] == pre_levels[l]);
                        }
                    }
                    assert forall|ik2: u64, k2: Timestamp|
                        #[trigger] idx.instances@.contains_key(ik2) implies ((
                    #[trigger] idx.instances@[ik2]@.contains(k2)) <==> new_spans.contains_key(k2)
                        && new_spans[k2].instance_key == ik2) by {
                        if ik2 == ik {
                            assert(idx.instances@[ik]@.contains(k2) <==> (
                            pre_instances@.contains_key(ik) && pre_instances@[ik]@.contains(k2))
                                || k2 == key);
                        } else {
                            assert(idx.instances@[ik2] == pre_instances@[ik2]);
                            assert(pre_instances@.contains_key(ik2));
                        }
                    }
                    assert forall|k2: Timestamp| #[trigger]
                        new_spans.contains_key(k2) implies idx.instances@.contains_key(
                        new_spans[k2].instance_key,
                    ) by {
                        if k2 != key {
                            assert(old_spans.contains_key(k2));
                        }
                    }
                    assert forall|sk: u64, k2: Timestamp|
                        #[trigger] idx.descendents@.contains_key(sk) implies ((
                    #[trigger] idx.descendents@[sk]@.contains(k2)) <==> new_spans.contains_key(k2)
                        && chain_of(new_anc, k2).contains(sk)) by {
                        if k2 != key {
                            assert(chain_of(new_anc, k2) == chain_of(old_anc, k2));
                        }
                    }
                    assert forall|k2: Timestamp, sk: u64|
                        new_spans.contains_key(k2) && #[trigger] chain_of(new_anc, k2).contains(sk)
                            implies idx.descendents@.contains_key(sk) by {
                        if k2 == key {
                            assert(chain_snap@.contains(sk));
                        } else {
                            assert(old_spans.contains_key(k2));
                            assert(chain_of(old_anc, k2).contains(sk));
                        }
                    }
                    // names
                    assert forall|nm: Seq<char>, k2: Timestamp|
                        #[trigger] crate::plan::name_slice_has(post_names, nm, k2) implies
                        new_spans.contains_key(k2) && new_spans[k2].name@ == nm by {
                        if nm == name_copy@ {
                            assert(crate::index::names_get(post_names, nm) matches Some(v)
                                && v@.contains(k2) ==> (crate::index::names_get(pre_names, nm)
                                matches Some(o) && o@.contains(k2)) || k2 == key) by {
                                match crate::index::names_get(post_names, nm) {
                                    Some(v) => {
                                        match crate::index::names_get(pre_names, nm) {
                                            Some(o) => {
                                                assert(v@ == o@.push(key));
                                                if v@.contains(k2) {
                                                    let i2 = choose|i2: int|
                                                        0 <= i2 < v@.len() && v@[i2] == k2;
                                                    if i2 < o@.len() {
                                                        assert(o@[i2] == k2);
                                                    }
                                                }
                                            },
                                            None => {
                                                assert(v@ =~= seq![key]);
                                                if v@.contains(k2) {
                                                    let i2 = choose|i2: int|
                                                        0 <= i2 < v@.len() && v@[i2] == k2;
                                                }
                                            },
                                        }
                                    },
                                    None => {},
                                }
                            }
                            if crate::plan::name_slice_has(pre_names, nm, k2) {
                                assert(old_spans.contains_key(k2));
                            }
                        } else {
                            assert(crate::index::names_eq_at(pre_names, post_names, nm));
                            assert(crate::plan::name_slice_has(pre_names, nm, k2));
                            assert(old_spans.contains_key(k2));
                        }
                    }
                    assert forall|k2: Timestamp| #[trigger]
                        new_spans.contains_key(k2) implies crate::plan::name_slice_has(
                        post_names,
                        new_spans[k2].name@,
                        k2,
                    ) by {
                        if k2 == key {
                            assert(new_spans[key].name@ == name_copy@);
                            match crate::index::names_get(post_names, name_copy@) {
                                Some(v) => {
                                    match crate::index::names_get(pre_names, name_copy@) {
                                        Some(o) => {
                                            assert(v@ == o@.push(key));
                                            assert(v@[v@.len() - 1] == key);
                                        },
                                        None => {
                                            assert(v@ =~= seq![key]);
                                            assert(v@[0] == key);
                                        },
                                    }
                                },
                                None => {
                                    assert(false);
                                },
                            }
                        } else {
                            assert(old_spans.contains_key(k2));
                            assert(new_spans[k2].name@ != name_copy@ || new_spans[k2].name@
                                == name_copy@);
                            assert(crate::plan::name_slice_has(pre_names, new_spans[k2].name@, k2));
                            if new_spans[k2].name@ == name_copy@ {
                                match crate::index::names_get(post_names, name_copy@) {
                                    Some(v) => {
                                        match crate::index::names_get(pre_names, name_copy@) {
                                            Some(o) => {
                                                assert(v@ == o@.push(key));
                                                assert(o@.contains(k2));
                                                let i2 = choose|i2: int|
                                                    0 <= i2 < o@.len() && o@[i2] == k2;
                                                assert(v@[i2] == k2);
                                            },
                                            None => {
                                                assert(false);
                                            },
                                        }
                                    },
                                    None => {
                                        assert(false);
                                    },
                                }
                            } else {
                                assert(crate::index::names_eq_at(
                                    pre_names,
                                    post_names,
                                    new_spans[k2].name@,
                                ));
                            }
                        }
                    }
                    // roots
                    assert forall|k2: Timestamp|
                        idx.roots@.contains(k2) <==> #[trigger] new_spans.contains_key(k2)
                            && new_spans[k2].parent_key is None by {
                        assert(pre_roots == pre.span_indexes.roots@);
                        assert(pre_roots.contains(k2) <==> old_spans.contains_key(k2)
                            && old_spans[k2].parent_key is None);
                        if is_root {
                            assert(idx.roots@.contains(k2) <==> pre_roots.contains(k2) || k2
                                == key);
                        } else {
                            assert(idx.roots@ == pre_roots);
                        }
                    }
                    // duration bands
                    assert forall|b: int, k2: Timestamp|
                        #[trigger] crate::plan::band_has(idx, b, k2) implies new_spans.contains_key(
                        k2,
                    ) && (match new_spans[k2].spec_duration() {
                        Some(d) => crate::index::band_start(b) <= d && (d < crate::index::band_end(
                            b,
                        ) || b == 63),
                        None => b == 63,
                    }) by {
                        if b == 63 && k2 == key {
                        } else {
                            if 0 <= b < 64 {
                                if b == 63 {
                                    if k2 != key {
                                        assert(pre_bands[63]@.contains(k2));
                                        assert(crate::plan::band_has(pre.span_indexes, 63, k2));
                                    }
                                } else {
                                    assert(idx.durations.bands@[b] == pre_bands[b]);
                                    assert(crate::plan::band_has(pre.span_indexes, b, k2));
                                }
                            }
                        }
                    }
                    assert forall|k2: Timestamp| #[trigger]
                        new_spans.contains_key(k2) implies exists|b: int|
                        crate::plan::band_has(idx, b, k2) by {
                        if k2 == key {
                            assert(crate::plan::band_has(idx, 63, key));
                        } else {
                            assert(old_spans.contains_key(k2));
                            let b = choose|b: int|
                                #[trigger] crate::plan::band_has(pre.span_indexes, b, k2);
                            if b == 63 {
                                assert(crate::plan::band_has(idx, 63, k2));
                            } else {
                                assert(crate::plan::band_has(idx, b, k2));
                            }
                        }
                    }
                }
                proof {
                    // tie the final state to the contract's description
                    assert(self.spans@.remove(key) =~= pre.spans@) by {
                        assert(new_spans == old_spans.insert(key, span));
                        assert(old_spans == pre.spans@);
                        assert(!old_spans.contains_key(key));
                    }
                    assert(self.spans@[key] == span);
                    assert(span.parent_key == spec_parent_of(pre, ik, create.parent_id));
                    assert(self.span_key_map@.contains_key(ik));
                    assert(self.span_key_map@[ik]@.contains_key(new_span_event.span_id));
                    assert(self.span_key_map@[ik]@[new_span_event.span_id] == key);
                    assert forall|sid2: u64|
                        sid2 != new_span_event.span_id implies ((
                    #[trigger] self.span_key_map@[ik]@.contains_key(sid2)) == (
                    pre.span_key_map@.contains_key(ik) && pre.span_key_map@[ik]@.contains_key(
                        sid2,
                    )) && (pre.span_key_map@.contains_key(ik)
                        && pre.span_key_map@[ik]@.contains_key(sid2)
                        ==> self.span_key_map@[ik]@[sid2] == pre.span_key_map@[ik]@[sid2])) by {}
                    assert(self.span_ancestors@.contains_key(key));
                    assert(self.span_ancestors@.remove(key) =~= pre.span_ancestors@) by {
                        assert(!pre.span_ancestors@.contains_key(key));
                        assert(old_anc == pre.span_ancestors@);
                    }
                    assert(self.span_ancestors@[key]@ == spec_new_chain(
                        pre,
                        key,
                        spec_parent_of(pre, ik, create.parent_id),
                    )) by {
                        match parent_key {
                            Some(pk) => {
                                if pre.span_ancestors@.contains_key(pk) {
                                    assert(chain_snap@ =~= seq![key] + pre.span_ancestors@[pk]@);
                                } else {
                                    assert(chain_snap@ =~= seq![key, pk]);
                                }
                            },
                            None => {
                                assert(chain_snap@ =~= seq![key]);
                            },
                        }
                    }
                    assert(self.span_events@.contains_key(key));
                    assert(self.span_events@.remove(key) =~= pre.span_events@) by {
                        assert(!pre.span_events@.contains_key(key));
                    }
                    assert(self.span_events@[key].timestamp == key);
                    assert(self.span_events@[key].span_key == key);
                    assert(self.span_events@[key].instance_key == ik);
                    assert(self.span_events@[key].kind is Create);
                }
                Ok(key)
            },
            NewSpanEventKind::Update(update) => {
                let key = match self.assign_key(new_span_event.timestamp) {
                    Ok(k) => k,
                    Err(e) => {
                        return Err(e);
                    },
                };
                let sk = self.lookup_span_key(new_span_event.instance_key, new_span_event.span_id);
                let target_key = match sk {
                    Some(s) => s,
                    None => 0,
                };
                let update_fields = clone_fields(&update.fields);
                self.store_span_event(
                    new_span_event.instance_key,
                    key,
                    target_key,
                    SpanEventKind::Update(UpdateSpanEvent { fields: update.fields }),
                    SpanEventKind::Update(UpdateSpanEvent { fields: clone_fields(&update_fields) }),
                );
                match sk {
                    Some(span_key) => {
                        let ghost mid = *self;
                        self.update_span_fields_merged(span_key, &update_fields);
                        proof {
                            assert(mid.spans@ == old(self).spans@);
                            if old(self).spans@.contains_key(span_key) {
                                assert forall|a: Seq<char>|
                                    #![trigger self.spans@[span_key].fields.spec_get(a)]
                                    self.spans@[span_key].fields.spec_get(a) == (
                                match update.fields.spec_get(a) {
                                    Some(v) => Some(v),
                                    None => old(self).spans@[span_key].fields.spec_get(a),
                                }) by {
                                    crate::fields::lemma_entries_get_congruent(
                                        update_fields.entries@,
                                        update.fields.entries@,
                                        a,
                                    );
                                }
                            }
                        }
                        Ok(span_key)
                    },
                    None => Ok(key),
                }
            },
            NewSpanEventKind::Follows(_) => {
                let key = match self.assign_key(new_span_event.timestamp) {
                    Ok(k) => k,
                    Err(e) => {
                        return Err(e);
                    },
                };
                Ok(key)
            },
            NewSpanEventKind::Enter => {
                let key = match self.assign_key(new_span_event.timestamp) {
                    Ok(k) => k,
                    Err(e) => {
                        return Err(e);
                    },
                };
                let sk = self.lookup_span_key(new_span_event.instance_key, new_span_event.span_id);
                let target_key = match sk {
                    Some(s) => s,
                    None => 0,
                };
                self.store_span_event(
                    new_span_event.instance_key,
                    key,
                    target_key,
                    SpanEventKind::Enter,
                    SpanEventKind::Enter,
                );
                Ok(key)
            },
            NewSpanEventKind::Exit => {
                let key = match self.assign_key(new_span_event.timestamp) {
                    Ok(k) => k,
                    Err(e) => {
                        return Err(e);
                    },
                };
                let sk = self.lookup_span_key(new_span_event.instance_key, new_span_event.span_id);
                let target_key = match sk {
                    Some(s) => s,
                    None => 0,
                };
                self.store_span_event(
                    new_span_event.instance_key,
                    key,
                    target_key,
                    SpanEventKind::Exit,
                    SpanEventKind::Exit,
                );
                Ok(key)
            },
            NewSpanEventKind::Close => {
                let key = match self.assign_key(new_span_event.timestamp) {
                    Ok(k) => k,
                    Err(e) => {
                        return Err(e);
                    },
                };
                let sk = self.lookup_span_key(new_span_event.instance_key, new_span_event.span_id);
                let target_key = match sk {
                    Some(s) => s,
                    None => 0,
                };
                self.store_span_event(
                    new_span_event.instance_key,
                    key,
                    target_key,
                    SpanEventKind::Close,
                    SpanEventKind::Close,
                );
                match sk {
                    Some(span_key) => {
                        let ghost mid = *self;
                        proof {
                            assert(mid.spans@ == old(self).spans@);
                            assert(span_key <= old(self).last_key);
                            assert(key > span_key);
                        }
                        self.close_span(span_key, key);
                        proof {
                            assert(self.last_key == key);
                        }
                        Ok(span_key)
                    },
                    None => Ok(target_key),
                }
            },
        }
    }
}

/// The overlay of one attribute map over another: the overlay's value
/// where it has one, the base's otherwise. The result has unique keys
/// whatever the inputs held.
pub fn merge_fields(base: &Fields, over: &Fields) -> (r: Fields)
    ensures
        r.wf(),
        forall|a: Seq<char>|
            #![trigger r.spec_get(a)]
            r.spec_get(a) == (match over.spec_get(a) {
                Some(v) => Some(v),
                None => base.spec_get(a),
            }),
{
    let mut out = Fields::new();
    let bn = base.entries.len();
    let mut i: usize = bn;
    while i > 0
        invariant
            bn == base.entries@.len(),
            0 <= i <= bn,
            out.wf(),
            forall|a: Seq<char>|
                #![trigger out.spec_get(a)]
                out.spec_get(a) == crate::fields::entries_get(base.entries@.skip(i as int), a),
        decreases i,
    {
        i = i - 1;
        let k = base.entries[i].0.clone();
        let v = base.entries[i].1.clone();
        let ghost pre_out = out;
        out.insert(k, v);
        proof {
            assert(base.entries@.skip(i as int).drop_first() =~= base.entries@.skip(i + 1));
            assert forall|a: Seq<char>|
                #![trigger out.spec_get(a)]
                out.spec_get(a) == crate::fields::entries_get(
                    base.entries@.skip(i as int),
                    a,
                ) by {
                if a == base.entries@[i as int].0@ {
                    assert(base.entries@.skip(i as int)[0] == base.entries@[i as int]);
                } else {
                    assert(out.spec_get(a) == pre_out.spec_get(a));
                }
            }
        }
    }
    proof {
        assert(base.entries@.skip(0) =~= base.entries@);
    }
    let on = over.entries.len();
    let mut j: usize = on;
    while j > 0
        invariant
            on == over.entries@.len(),
            0 <= j <= on,
            out.wf(),
            forall|a: Seq<char>|
                #![trigger out.spec_get(a)]
                out.spec_get(a) == (match crate::fields::entries_get(
                    over.entries@.skip(j as int),
                    a,
                ) {
                    Some(v) => Some(v),
                    None => base.spec_get(a),
                }),
        decreases j,
    {
        j = j - 1;
        let k = over.entries[j].0.clone();
        let v = over.entries[j].1.clone();
        let ghost pre_out = out;
        out.insert(k, v);
        proof {
            assert(over.entries@.skip(j as int).drop_first() =~= over.entries@.skip(j + 1));
            assert forall|a: Seq<char>|
                #![trigger out.spec_get(a)]
                out.spec_get(a) == (match crate::fields::entries_get(
                    over.entries@.skip(j as int),
                    a,
                ) {
                    Some(v2) => Some(v2),
                    None => base.spec_get(a),
                }) by {
                if a == over.entries@[j as int].0@ {
                    assert(over.entries@.skip(j as int)[0] == over.entries@[j as int]);
                } else {
                    assert(out.spec_get(a) == pre_out.spec_get(a));
                }
            }
        }
    }
    proof {
        assert(over.entries@.skip(0) =~= over.entries@);
    }
    out
}

impl<S: Storage> RawEngine<S> {
    /// Merges fields into a stored span; every index is unaffected,
    /// since none is keyed by a span's own fields.
    #[verifier::spinoff_prover]
    #[verifier::rlimit(100)]
    fn update_span_fields_merged(&mut self, span_key: SpanKey, update_fields: &Fields)
        requires
            old(self).wf(),
        ensures
            final(self).wf(),
            *final(self) == (RawEngine {
                storage: final(self).storage,
                spans: final(self).spans,
                ..*old(self)
            }),
            old(self).spans@.contains_key(span_key) ==> final(self).spans@ =~= old(
                self,
            ).spans@.insert(
                span_key,
                Span {
                    fields: final(self).spans@[span_key].fields,
                    ..old(self).spans@[span_key]
                },
            ) && (forall|a: Seq<char>|
                #![trigger final(self).spans@[span_key].fields.spec_get(a)]
                final(self).spans@[span_key].fields.spec_get(a) == (
                match update_fields.spec_get(a) {
                    Some(v) => Some(v),
                    None => old(self).spans@[span_key].fields.spec_get(a),
                })),
            !old(self).spans@.contains_key(span_key) ==> final(self).spans@ == old(self).spans@,
    {
        match self.spans.remove(&span_key) {
            Some(old_span) => {
                let merged = merge_fields(&old_span.fields, update_fields);
                let mirror_fields = clone_fields(&merged);
                let updated = Span { fields: merged, ..old_span };
                self.spans.insert(span_key, updated);
                self.storage.update_span_fields(span_key, mirror_fields);
                proof {
                    let old_spans = old(self).spans@;
                    let new_spans = self.spans@;
                    assert(new_spans =~= old_spans.insert(span_key, updated));
                    let idx = self.span_indexes;
                    let anc = self.span_ancestors@;
                    assert forall|k2: Timestamp|
                        idx.all@.contains(k2) <==> #[trigger] new_spans.contains_key(k2) by {}
                    assert forall|k2: Timestamp| #[trigger]
                        new_spans.contains_key(k2) implies new_spans[k2].created_at == k2
                            && 1 <= k2 <= self.last_key by {}
                    assert forall|l: int, k2: Timestamp|
                        0 <= l < 5 implies ((#[trigger] idx.levels@[l]@.contains(k2))
                            <==> new_spans.contains_key(k2) && new_spans[k2].level.spec_index()
                            == l) by {}
                    assert forall|ik2: u64, k2: Timestamp|
                        #[trigger] idx.instances@.contains_key(ik2) implies ((
                    #[trigger] idx.instances@[ik2]@.contains(k2)) <==> new_spans.contains_key(k2)
                        && new_spans[k2].instance_key == ik2) by {}
                    assert forall|k2: Timestamp| #[trigger]
                        new_spans.contains_key(k2) implies idx.instances@.contains_key(
                        new_spans[k2].instance_key,
                    ) by {}
                    assert forall|nm: Seq<char>, k2: Timestamp|
                        #[trigger] crate::plan::name_slice_has(idx.names@, nm, k2) implies
                        new_spans.contains_key(k2) && new_spans[k2].name@ == nm by {}
                    assert forall|k2: Timestamp| #[trigger]
                        new_spans.contains_key(k2) implies crate::plan::name_slice_has(
                        idx.names@,
                        new_spans[k2].name@,
                        k2,
                    ) by {}
                    assert forall|k2: Timestamp|
                        idx.roots@.contains(k2) <==> #[trigger] new_spans.contains_key(k2)
                            && new_spans[k2].parent_key is None by {
                        assert(idx.roots@ == old(self).span_indexes.roots@);
                        assert(old_spans.contains_key(k2) == new_spans.contains_key(k2));
                        if k2 == span_key {
                            assert(new_spans[k2].parent_key == old_spans[k2].parent_key);
                        } else {
                            assert(old_spans.contains_key(k2) ==> new_spans[k2] == old_spans[k2]);
                        }
                    }
                    assert forall|b: int, k2: Timestamp|
                        #[trigger] crate::plan::band_has(idx, b, k2) implies new_spans.contains_key(
                        k2,
                    ) && (match new_spans[k2].spec_duration() {
                        Some(d) => crate::index::band_start(b) <= d && (d < crate::index::band_end(
                            b,
                        ) || b == 63),
                        None => b == 63,
                    }) by {}
                    assert forall|k2: Timestamp| #[trigger]
                        new_spans.contains_key(k2) implies exists|b: int|
                        crate::plan::band_has(idx, b, k2) by {}
                    assert forall|sk2: u64, k2: Timestamp|
                        #[trigger] idx.descendents@.contains_key(sk2) implies ((
                    #[trigger] idx.descendents@[sk2]@.contains(k2)) <==> new_spans.contains_key(k2)
                        && chain_of(anc, k2).contains(sk2)) by {}
                    assert forall|k2: Timestamp, sk2: u64|
                        new_spans.contains_key(k2) && #[trigger] chain_of(anc, k2).contains(sk2)
                            implies idx.descendents@.contains_key(sk2) by {}
                    assert(self.wf());
                }
            },
            None => {
                proof {
                    assert(self.wf());
                }
            },
        }
    }

    /// Stamps a span's closing time and refiles it from the open band
    /// into the band of its final duration. A span already closed is
    /// left alone.
    #[verifier::spinoff_prover]
    #[verifier::rlimit(100)]
    fn close_span(&mut self, span_key: SpanKey, closed: Timestamp)
        requires
            old(self).wf(),
        ensures
            final(self).wf(),
            *final(self) == (RawEngine {
                storage: final(self).storage,
                spans: final(self).spans,
                span_indexes: final(self).span_indexes,
                ..*old(self)
            }),
            final(self).span_indexes.all == old(self).span_indexes.all,
            final(self).span_indexes.levels == old(self).span_indexes.levels,
            final(self).span_indexes.instances == old(self).span_indexes.instances,
            final(self).span_indexes.descendents == old(self).span_indexes.descendents,
            final(self).span_indexes.names == old(self).span_indexes.names,
            final(self).span_indexes.roots == old(self).span_indexes.roots,
            (old(self).spans@.contains_key(span_key) && old(self).spans@[span_key].closed_at
                is None && closed > span_key) ==> final(self).spans@ =~= old(
                self,
            ).spans@.insert(
                span_key,
                Span { closed_at: Some(closed), ..old(self).spans@[span_key] },
            ),
            !(old(self).spans@.contains_key(span_key) && old(self).spans@[span_key].closed_at
                is None && closed > span_key) ==> final(self).spans@ == old(self).spans@,
    {
        if closed <= span_key {
            return ;
        }
        match self.spans.remove(&span_key) {
            Some(old_span) => {
                match old_span.closed_at {
                    Some(_) => {
                        let back = old_span;
                        self.spans.insert(span_key, back);
                        proof {
                            assert(self.spans@ =~= old(self).spans@);
                        }
                    },
                    None => {
                        let duration = closed - span_key;
                        let updated = Span { closed_at: Some(closed), ..old_span };
                        self.spans.insert(span_key, updated);
                        self.storage.update_span_closed(span_key, closed);
                        let ghost pre_bands = self.span_indexes.durations.bands@;
                        let band = self.span_indexes.durations.close(span_key, duration);
                        proof {
                            let old_spans = old(self).spans@;
                            let new_spans = self.spans@;
                            assert(new_spans =~= old_spans.insert(span_key, updated));
                            let idx = self.span_indexes;
                            assert(updated.spec_duration() == Some(duration));
                            assert forall|k2: Timestamp|
                                idx.all@.contains(k2) <==> #[trigger] new_spans.contains_key(
                                    k2,
                                ) by {}
                            assert forall|k2: Timestamp| #[trigger]
                                new_spans.contains_key(k2) implies new_spans[k2].created_at == k2
                                    && 1 <= k2 <= self.last_key by {}
                            assert forall|l: int, k2: Timestamp|
                                0 <= l < 5 implies ((#[trigger] idx.levels@[l]@.contains(k2))
                                    <==> new_spans.contains_key(k2)
                                    && new_spans[k2].level.spec_index() == l) by {}
                            assert forall|ik2: u64, k2: Timestamp|
                                #[trigger] idx.instances@.contains_key(ik2) implies ((
                            #[trigger] idx.instances@[ik2]@.contains(k2))
                                <==> new_spans.contains_key(k2) && new_spans[k2].instance_key
                                == ik2) by {}
                            assert forall|k2: Timestamp| #[trigger]
                                new_spans.contains_key(k2) implies idx.instances@.contains_key(
                                new_spans[k2].instance_key,
                            ) by {}
                            assert forall|nm: Seq<char>, k2: Timestamp|
                                #[trigger] crate::plan::name_slice_has(idx.names@, nm, k2) implies
                                new_spans.contains_key(k2) && new_spans[k2].name@ == nm by {}
                            assert forall|k2: Timestamp| #[trigger]
                                new_spans.contains_key(k2) implies crate::plan::name_slice_has(
                                idx.names@,
                                new_spans[k2].name@,
                                k2,
                            ) by {}
                            let oldidx = old(self).span_indexes;
                            assert forall|k2: Timestamp|
                                idx.roots@.contains(k2) <==> #[trigger] new_spans.contains_key(k2)
                                    && new_spans[k2].parent_key is None by {
                                assert(idx.roots@ == oldidx.roots@);
                                assert(old_spans.contains_key(k2) == new_spans.contains_key(k2));
                                if k2 == span_key {
                                    assert(new_spans[k2].parent_key == old_spans[k2].parent_key);
                                } else {
                                    assert(old_spans.contains_key(k2)
                                        ==> new_spans[k2] == old_spans[k2]);
                                }
                            }
                            assert forall|b: int, k2: Timestamp|
                                #[trigger] crate::plan::band_has(idx, b, k2) implies
                                new_spans.contains_key(k2) && (match new_spans[k2].spec_duration() {
                                Some(d) => crate::index::band_start(b) <= d && (d
                                    < crate::index::band_end(b) || b == 63),
                                None => b == 63,
                            }) by {
                                assert(0 <= b < 64);
                                if k2 == span_key {
                                    if b == band as int {
                                        assert(duration >= 1);
                                        vstd::arithmetic::power2::lemma2_to64();
                                        vstd::arithmetic::power2::lemma2_to64_rest();
                                        if band < 63 {
                                            vstd::arithmetic::power2::lemma_pow2_strictly_increases(
                                                band as nat,
                                                63,
                                            );
                                            vstd::arithmetic::power2::lemma_pow2_strictly_increases(
                                                (band + 1) as nat,
                                                64,
                                            );
                                        }
                                        assert(crate::index::band_start(b) <= duration);
                                    } else if b == 63 {
                                        assert(!idx.durations.bands@[63]@.contains(span_key));
                                    } else {
                                        assert(idx.durations.bands@[b]
                                            == oldidx.durations.bands@[b]);
                                        assert(crate::plan::band_has(oldidx, b, k2));
                                        assert(old_spans[k2].spec_duration() is None);
                                    }
                                } else {
                                    assert(crate::plan::band_has(oldidx, b, k2)) by {
                                        if b == band as int {
                                        } else if b == 63 {
                                        } else {
                                            assert(idx.durations.bands@[b]
                                                == oldidx.durations.bands@[b]);
                                        }
                                    }
                                    assert(new_spans[k2] == old_spans[k2]);
                                }
                            }
                            assert forall|k2: Timestamp| #[trigger]
                                new_spans.contains_key(k2) implies exists|b: int|
                                crate::plan::band_has(idx, b, k2) by {
                                if k2 == span_key {
                                    assert(crate::plan::band_has(idx, band as int, span_key));
                                } else {
                                    let b = choose|b: int|
                                        #[trigger] crate::plan::band_has(
                                            old(self).span_indexes,
                                            b,
                                            k2,
                                        );
                                    assert(crate::plan::band_has(idx, b, k2)) by {
                                        if b == band as int {
                                        } else if b == 63 {
                                        } else {
                                            assert(idx.durations.bands@[b]
                                                == oldidx.durations.bands@[b]);
                                        }
                                    }
                                }
                            }
                            let anc = self.span_ancestors@;
                            assert forall|sk2: u64, k2: Timestamp|
                                #[trigger] idx.descendents@.contains_key(sk2) implies ((
                            #[trigger] idx.descendents@[sk2]@.contains(k2))
                                <==> new_spans.contains_key(k2) && chain_of(anc, k2).contains(
                                sk2,
                            )) by {}
                            assert forall|k2: Timestamp, sk2: u64|
                                new_spans.contains_key(k2) && #[trigger] chain_of(
                                    anc,
                                    k2,
                                ).contains(sk2) implies idx.descendents@.contains_key(sk2) by {}
                        }
                    },
                }
            },
            None => {},
        }
    }
}


impl<S: Storage> RawEngine<S> {
    /// Marks an instance disconnected at a fresh key.
    pub fn disconnect_instance(&mut self, instance_id: InstanceId) -> (r: Result<(), InsertError>)
        requires
            old(self).wf(),
        ensures
            final(self).wf(),
            final(self).events@ == old(self).events@,
            final(self).spans@ == old(self).spans@,
            r is Err <==> old(self).instance_key_map@.contains_key(instance_id) && old(
                self,
            ).last_key == u64::MAX,
            !old(self).instance_key_map@.contains_key(instance_id) ==> r is Ok && *final(self)
                == *old(self),
            match r {
                Ok(_) => old(self).instance_key_map@.contains_key(instance_id) && old(
                    self,
                ).instances@.contains_key(old(self).instance_key_map@[instance_id]) ==> {
                    let ik = old(self).instance_key_map@[instance_id];
                    final(self).instances@ =~= old(self).instances@.insert(
                        ik,
                        Instance {
                            disconnected_at: Some(final(self).last_key),
                            ..old(self).instances@[ik]
                        },
                    )
                },
                Err(_) => final(self).instances@ == old(self).instances@,
            },
    {
        let ik = match self.instance_key_map.get(&instance_id) {
            Some(k) => *k,
            None => {
                return Ok(());
            },
        };
        if self.last_key == u64::MAX {
            return Err(InsertError::KeySpaceExhausted);
        }
        let now = self.last_key + 1;
        self.last_key = now;
        match self.instances.remove(&ik) {
            Some(instance) => {
                let updated = Instance { disconnected_at: Some(now), ..instance };
                self.instances.insert(ik, updated);
                self.storage.update_instance_disconnected(ik, now);
                proof {
                    assert(self.instances@ =~= old(self).instances@.insert(
                        ik,
                        Instance {
                            disconnected_at: Some(now),
                            ..old(self).instances@[ik]
                        },
                    ));
                    assert forall|k2: Timestamp| #[trigger]
                        self.instances@.contains_key(k2) implies 1 <= k2 <= self.last_key by {}
                }
                Ok(())
            },
            None => {
                proof {
                    assert(self.instances@ =~= old(self).instances@);
                }
                Ok(())
            },
        }
    }

    /// Whether every filter in a list accepts the stored event at a
    /// key.
    pub open spec fn event_filters_match(self, fs: Seq<BasicEventFilter>, k: Timestamp) -> bool {
        self.events@.contains_key(k) && (forall|i: int|
            0 <= i < fs.len() ==> (#[trigger] fs[i]).spec_matches(
                self.spans@,
                self.event_ancestors@,
                self.events@[k],
            ))
    }

    /// Runs an event query over already-lowered filters: walks the
    /// indexes from the window edge given by `order`, after re-anchoring
    /// at `previous`, and returns up to `limit` keys. Every returned key
    /// is a stored event inside the window on which every filter holds;
    /// no such key is skipped until the limit cuts the walk off.
    #[verifier::loop_isolation(false)]
    #[verifier::spinoff_prover]
    #[verifier::rlimit(100)]
    pub fn query_event_with(
        &self,
        filters: Vec<BasicEventFilter>,
        order: Order,
        limit: usize,
        start: Timestamp,
        end: Timestamp,
        previous: Option<Timestamp>,
    ) -> (r: Vec<EventKey>)
        requires
            self.wf(),
        ensures
            ({
                let fs = filters@;
                let lo = spec_window_lo(order, start, previous);
                let hi = spec_window_hi(order, end, previous);
                &&& r@.len() <= limit
                &&& (forall|j: int|
                    0 <= j < r@.len() ==> lo <= #[trigger] r@[j] <= hi
                        && self.event_filters_match(fs, r@[j]))
                &&& (if order == Order::Asc {
                    forall|j1: int, j2: int| 0 <= j1 < j2 < r@.len() ==> r@[j1] < r@[j2]
                } else {
                    forall|j1: int, j2: int| 0 <= j1 < j2 < r@.len() ==> r@[j1] > r@[j2]
                })
                &&& (forall|k: Timestamp|
                    lo <= k <= hi && #[trigger] self.event_filters_match(fs, k) ==> r@.contains(k)
                        || (r@.len() == limit && (r@.len() == 0 || (if order == Order::Asc {
                        r@[r@.len() - 1] < k
                    } else {
                        k < r@[r@.len() - 1]
                    }))))
            }),
    {
        let ghost fs = filters@;
        let mut basic = BasicEventFilter::And(filters);
        proof {
            assert forall|k: Timestamp|
                self.events@.contains_key(k) implies ((#[trigger] basic.spec_matches(
                self.spans@,
                self.event_ancestors@,
                self.events@[k],
            )) == self.event_filters_match(fs, k)) by {
                let e = self.events@[k];
                if basic.spec_matches(self.spans@, self.event_ancestors@, e) {
                    assert forall|i: int| 0 <= i < fs.len() implies (#[trigger] fs[i]).spec_matches(
                        self.spans@,
                        self.event_ancestors@,
                        e,
                    ) by {
                        crate::filter::lemma_event_and_elim(
                            basic->And_0,
                            self.spans@,
                            self.event_ancestors@,
                            e,
                            i,
                        );
                    }
                }
                if self.event_filters_match(fs, k) {
                    crate::filter::lemma_event_and_intro(
                        basic->And_0,
                        self.spans@,
                        self.event_ancestors@,
                        e,
                    );
                }
            }
        }
        let ghost basic0 = basic;
        basic.simplify();
        let mut plan = IndexedEventFilter::build(Some(basic), &self.event_indexes);
        let lo = match (order, previous) {
            (Order::Asc, Some(prev)) => if prev == u64::MAX {
                u64::MAX
            } else {
                prev + 1
            },
            _ => start,
        };
        let hi = match (order, previous) {
            (Order::Desc, Some(prev)) => if prev == 0 {
                0
            } else {
                prev - 1
            },
            _ => end,
        };
        proof {
            assert(lo == spec_window_lo(order, start, previous));
            assert(hi == spec_window_hi(order, end, previous));
        }
        plan.trim_to_timeframe(lo, hi);
        plan.optimize();
        let ghost base = plan;
        proof {
            assert forall|k: Timestamp| (#[trigger] base.matchable(
                self.events@,
                self.spans@,
                self.event_ancestors@,
                k,
            )) == (lo <= k <= hi && self.event_filters_match(fs, k)) by {}
        }
        let mut out: Vec<EventKey> = Vec::new();
        let mut cursor: Timestamp = if order == Order::Asc {
            lo
        } else {
            hi
        };
        let bound: Timestamp = if order == Order::Asc {
            hi
        } else {
            lo
        };
        let mut exhausted = false;
        while out.len() < limit && !exhausted
            invariant
                plan.wf(),
                out@.len() <= limit,
                forall|k: Timestamp| #[trigger]
                    plan.matchable(self.events@, self.spans@, self.event_ancestors@, k)
                        ==> base.matchable(self.events@, self.spans@, self.event_ancestors@, k),
                forall|k: Timestamp|
                    (if order == Order::Asc {
                        k >= cursor
                    } else {
                        k <= cursor
                    }) ==> ((#[trigger] plan.matchable(
                        self.events@,
                        self.spans@,
                        self.event_ancestors@,
                        k,
                    )) == base.matchable(self.events@, self.spans@, self.event_ancestors@, k)),
                forall|j: int|
                    0 <= j < out@.len() ==> lo <= #[trigger] out@[j] <= hi
                        && self.event_filters_match(fs, out@[j]),
                if order == Order::Asc {
                    forall|j1: int, j2: int| 0 <= j1 < j2 < out@.len() ==> out@[j1] < out@[j2]
                } else {
                    forall|j1: int, j2: int| 0 <= j1 < j2 < out@.len() ==> out@[j1] > out@[j2]
                },
                forall|k: Timestamp|
                    (if order == Order::Asc {
                        lo <= k <= hi && (exhausted || k < cursor)
                    } else {
                        lo <= k <= hi && (exhausted || k > cursor)
                    }) && #[trigger] self.event_filters_match(fs, k) ==> out@.contains(k),
                forall|j: int|
                    0 <= j < out@.len() ==> (if order == Order::Asc {
                        exhausted || out@[j] < cursor
                    } else {
                        exhausted || out@[j] > cursor
                    }),
            decreases (if exhausted {
                0int
            } else {
                1int
            }), (if order == Order::Asc {
                hi + 1 - cursor
            } else {
                cursor + 1 - lo
            }),
        {
            let ghost pre_plan = plan;
            let found = plan.search(
                &self.events,
                &self.spans,
                &self.event_ancestors,
                cursor,
                order,
                bound,
            );
            match found {
                Some(k) => {
                    proof {
                        assert(pre_plan.matchable(
                            self.events@,
                            self.spans@,
                            self.event_ancestors@,
                            k,
                        ));
                        assert(base.matchable(self.events@, self.spans@, self.event_ancestors@, k));
                        assert forall|k2: Timestamp|
                            (if order == Order::Asc {
                                cursor <= k2 < k
                            } else {
                                k < k2 <= cursor
                            }) implies !(#[trigger] self.event_filters_match(fs, k2)) || !(lo <= k2
                            <= hi) by {
                            if lo <= k2 <= hi && self.event_filters_match(fs, k2) {
                                assert(base.matchable(
                                    self.events@,
                                    self.spans@,
                                    self.event_ancestors@,
                                    k2,
                                ));
                                assert(pre_plan.matchable(
                                    self.events@,
                                    self.spans@,
                                    self.event_ancestors@,
                                    k2,
                                ));
                                assert(false);
                            }
                        }
                    }
                    let ghost pre_out = out@;
                    out.push(k);
                    proof {
                        assert(out@ == pre_out.push(k));
                        assert forall|k2: Timestamp| pre_out.contains(k2) implies out@.contains(
                            k2,
                        ) by {
                            let j = choose|j: int| 0 <= j < pre_out.len() && pre_out[j] == k2;
                            assert(out@[j] == k2);
                        }
                        assert(out@.contains(k)) by {
                            assert(out@[out@.len() - 1] == k);
                        }
                    }
                    if order == Order::Asc {
                        if k == u64::MAX {
                            exhausted = true;
                        } else {
                            cursor = k + 1;
                        }
                    } else {
                        if k == 0 {
                            exhausted = true;
                        } else {
                            cursor = k - 1;
                        }
                    }
                },
                None => {
                    proof {
                        assert forall|k2: Timestamp|
                            lo <= k2 <= hi && #[trigger] self.event_filters_match(fs, k2) implies
                            out@.contains(k2) by {
                            if order == Order::Asc {
                                if k2 >= cursor {
                                    assert(base.matchable(
                                        self.events@,
                                        self.spans@,
                                        self.event_ancestors@,
                                        k2,
                                    ));
                                    assert(pre_plan.matchable(
                                        self.events@,
                                        self.spans@,
                                        self.event_ancestors@,
                                        k2,
                                    ));
                                    assert(false);
                                }
                            } else {
                                if k2 <= cursor {
                                    assert(base.matchable(
                                        self.events@,
                                        self.spans@,
                                        self.event_ancestors@,
                                        k2,
                                    ));
                                    assert(pre_plan.matchable(
                                        self.events@,
                                        self.spans@,
                                        self.event_ancestors@,
                                        k2,
                                    ));
                                    assert(false);
                                }
                            }
                        }
                    }
                    exhausted = true;
                },
            }
        }
        proof {
            assert forall|k: Timestamp|
                lo <= k <= hi && #[trigger] self.event_filters_match(fs, k) implies out@.contains(
                k,
            ) || (out@.len() == limit && (out@.len() == 0 || (if order == Order::Asc {
                out@[out@.len() - 1] < k
            } else {
                k < out@[out@.len() - 1]
            }))) by {
                if !out@.contains(k) {
                    assert(!exhausted);
                    assert(out@.len() == limit);
                    if out@.len() > 0 {
                        if order == Order::Asc {
                            assert(k >= cursor);
                            assert(out@[out@.len() - 1] < cursor);
                        } else {
                            assert(k <= cursor);
                            assert(out@[out@.len() - 1] > cursor);
                        }
                    }
                }
            }
        }
        out
    }
}

/// The lower window edge after re-anchoring at `previous`: an
/// ascending query that resumes at a cursor continues strictly after
/// the last key the caller saw, so the edge moves to one past it.
/// Keys are unique timestamps, so moving the edge by one admits
/// exactly the keys after `previous`, and a cursor at the top of the
/// key space leaves nothing to admit.
pub open spec fn spec_window_lo(order: Order, start: Timestamp, previous: Option<Timestamp>) -> Timestamp {
    match (order, previous) {
        (Order::Asc, Some(prev)) => if prev == u64::MAX {
            u64::MAX
        } else {
            (prev + 1) as Timestamp
        },
        _ => start,
    }
}

/// The key a position in an ordered scan visits: from the front when
/// ascending, from the back when descending.
pub open spec fn scan_key(keys: Seq<Timestamp>, order: Order, p: int) -> Timestamp {
    if order == Order::Asc {
        keys[p]
    } else {
        keys[keys.len() - 1 - p]
    }
}

/// Whether a query walks upward.
fn order_is_asc(order: Order) -> (r: bool)
    ensures
        r == (order == Order::Asc),
{
    match order {
        Order::Asc => true,
        Order::Desc => false,
    }
}

/// Where a span walk begins: spans created before the window may
/// still be alive inside it, so without a `previous` anchor the walk
/// starts at the bottom of the key space.
pub open spec fn spec_span_walk_lo(order: Order, previous: Option<Timestamp>) -> Timestamp {
    match (order, previous) {
        (Order::Asc, Some(prev)) => if prev == u64::MAX {
            u64::MAX
        } else {
            (prev + 1) as Timestamp
        },
        _ => 0,
    }
}

/// The upper window edge after re-anchoring at `previous`: the
/// descending counterpart, admitting exactly the keys before the
/// cursor.
pub open spec fn spec_window_hi(order: Order, end: Timestamp, previous: Option<Timestamp>) -> Timestamp {
    match (order, previous) {
        (Order::Desc, Some(prev)) => if prev == 0 {
            0
        } else {
            (prev - 1) as Timestamp
        },
        _ => end,
    }
}


/// A point-in-time query over one entity kind.
pub struct EventQuery {
    pub filter: Vec<FilterPredicate>,
    pub order: Order,
    pub limit: usize,
    pub start: Timestamp,
    pub end: Timestamp,
    /// When paginating, the last key of the previous page.
    pub previous: Option<Timestamp>,
}

pub struct SpanQuery {
    pub filter: Vec<FilterPredicate>,
    pub order: Order,
    pub limit: usize,
    pub start: Timestamp,
    pub end: Timestamp,
    pub previous: Option<Timestamp>,
}

pub struct InstanceQuery {
    pub filter: Vec<FilterPredicate>,
    pub order: Order,
    pub limit: usize,
    pub start: Timestamp,
    pub end: Timestamp,
    pub previous: Option<Timestamp>,
}

impl<S: Storage> RawEngine<S> {
    /// Lowers event predicates against this engine's key maps.
    pub fn lower_event_filter(&self, filter: &Vec<FilterPredicate>) -> (r: Result<
        Vec<BasicEventFilter>,
        InputError,
    >)
        ensures
            match r {
                Ok(fs) => fs@.len() == filter@.len() && (forall|i: int|
                    0 <= i < fs@.len() ==> crate::filter::spec_event_validate(
                        (#[trigger] filter@[i]).model(),
                    ) is Ok && crate::filter::event_filter_built(
                        fs@[i],
                        filter@[i].model(),
                        self.instance_key_map@,
                        self.span_key_map@,
                    )),
                Err(e) => exists|i: int|
                    0 <= i < filter@.len() && crate::filter::spec_event_validate(
                        (#[trigger] filter@[i]).model(),
                    ) == Err::<crate::input::PredicateModel, InputError>(e),
            },
    {
        let mut out: Vec<BasicEventFilter> = Vec::new();
        let n = filter.len();
        let mut i: usize = 0;
        while i < n
            invariant
                n == filter@.len(),
                0 <= i <= n,
                out@.len() == i,
                forall|j: int|
                    0 <= j < i ==> crate::filter::spec_event_validate(
                        (#[trigger] filter@[j]).model(),
                    ) is Ok && crate::filter::event_filter_built(
                        out@[j],
                        filter@[j].model(),
                        self.instance_key_map@,
                        self.span_key_map@,
                    ),
            decreases n - i,
        {
            let p = FilterPredicate {
                property_kind: filter[i].property_kind,
                property: filter[i].property.clone(),
                value_operator: filter[i].value_operator,
                value: filter[i].value.clone(),
            };
            proof {
                assert(p.model() == filter@[i as int].model());
            }
            match BasicEventFilter::from_predicate(p, &self.instance_key_map, &self.span_key_map) {
                Ok(f) => {
                    out.push(f);
                },
                Err(e) => {
                    return Err(e);
                },
            }
            i = i + 1;
        }
        Ok(out)
    }

    /// Lowers span predicates against this engine's key maps.
    pub fn lower_span_filter(&self, filter: &Vec<FilterPredicate>) -> (r: Result<
        Vec<BasicSpanFilter>,
        InputError,
    >)
        ensures
            match r {
                Ok(fs) => fs@.len() == filter@.len() && (forall|i: int|
                    0 <= i < fs@.len() ==> crate::filter::spec_span_validate(
                        (#[trigger] filter@[i]).model(),
                    ) is Ok && crate::filter::span_filter_built(
                        fs@[i],
                        filter@[i].model(),
                        self.instance_key_map@,
                        self.span_key_map@,
                    )),
                Err(e) => exists|i: int|
                    0 <= i < filter@.len() && crate::filter::spec_span_validate(
                        (#[trigger] filter@[i]).model(),
                    ) == Err::<crate::input::PredicateModel, InputError>(e),
            },
    {
        let mut out: Vec<BasicSpanFilter> = Vec::new();
        let n = filter.len();
        let mut i: usize = 0;
        while i < n
            invariant
                n == filter@.len(),
                0 <= i <= n,
                out@.len() == i,
                forall|j: int|
                    0 <= j < i ==> crate::filter::spec_span_validate(
                        (#[trigger] filter@[j]).model(),
                    ) is Ok && crate::filter::span_filter_built(
                        out@[j],
                        filter@[j].model(),
                        self.instance_key_map@,
                        self.span_key_map@,
                    ),
            decreases n - i,
        {
            let p = FilterPredicate {
                property_kind: filter[i].property_kind,
                property: filter[i].property.clone(),
                value_operator: filter[i].value_operator,
                value: filter[i].value.clone(),
            };
            proof {
                assert(p.model() == filter@[i as int].model());
            }
            match BasicSpanFilter::from_predicate(p, &self.instance_key_map, &self.span_key_map) {
                Ok(f) => {
                    out.push(f);
                },
                Err(e) => {
                    return Err(e);
                },
            }
            i = i + 1;
        }
        Ok(out)
    }

    /// Runs an event query from predicates: validation errors are
    /// returned, never panicked on, and unknown ids yield empty results
    /// through the sentinel key.
    pub fn query_event(&self, query: EventQuery) -> (r: Result<Vec<EventKey>, InputError>)
        requires
            self.wf(),
        ensures
            match r {
                Ok(keys) => exists|fs: Seq<BasicEventFilter>|
                    #[trigger] self.event_query_ok(
                        fs,
                        query.filter@,
                        keys@,
                        query.order,
                        query.limit as int,
                        spec_window_lo(query.order, query.start, query.previous),
                        spec_window_hi(query.order, query.end, query.previous),
                    ),
                Err(e) => exists|i: int|
                    0 <= i < query.filter@.len() && crate::filter::spec_event_validate(
                        (#[trigger] query.filter@[i]).model(),
                    ) == Err::<crate::input::PredicateModel, InputError>(e),
            },
    {
        let basics = match self.lower_event_filter(&query.filter) {
            Ok(fs) => fs,
            Err(e) => {
                return Err(e);
            },
        };
        let ghost fs = basics@;
        let keys = self.query_event_with(
            basics,
            query.order,
            query.limit,
            query.start,
            query.end,
            query.previous,
        );
        let r = Ok(keys);
        proof {
            reveal(RawEngine::event_query_ok);
            assert(self.event_query_ok(
                fs,
                query.filter@,
                r->Ok_0@,
                query.order,
                query.limit as int,
                spec_window_lo(query.order, query.start, query.previous),
                spec_window_hi(query.order, query.end, query.previous),
            ));
        }
        r
    }

    /// What a successful event query returns: each predicate lowered to
    /// a basic filter, and the keys exactly the ordered matches in the
    /// window, up to the limit.
    #[verifier::opaque]
    pub open spec fn event_query_ok(
        self,
        fs: Seq<BasicEventFilter>,
        preds: Seq<FilterPredicate>,
        keys: Seq<EventKey>,
        order: Order,
        limit: int,
        lo: Timestamp,
        hi: Timestamp,
    ) -> bool {
        &&& fs.len() == preds.len()
        &&& (forall|i: int|
            0 <= i < fs.len() ==> crate::filter::spec_event_validate(
                (#[trigger] preds[i]).model(),
            ) is Ok && crate::filter::event_filter_built(
                fs[i],
                preds[i].model(),
                self.instance_key_map@,
                self.span_key_map@,
            ))
        &&& keys.len() <= limit
        &&& (forall|j: int|
            0 <= j < keys.len() ==> lo <= #[trigger] keys[j] <= hi && self.event_filters_match(
                fs,
                keys[j],
            ))
        &&& (if order == Order::Asc {
            forall|j1: int, j2: int| 0 <= j1 < j2 < keys.len() ==> keys[j1] < keys[j2]
        } else {
            forall|j1: int, j2: int| 0 <= j1 < j2 < keys.len() ==> keys[j1] > keys[j2]
        })
        &&& (forall|k: Timestamp|
            lo <= k <= hi && #[trigger] self.event_filters_match(fs, k) ==> keys.contains(k) || (
            keys.len() == limit && (keys.len() == 0 || (if order == Order::Asc {
                keys[keys.len() - 1] < k
            } else {
                k < keys[keys.len() - 1]
            }))))
    }

    /// Counts the events a query would yield, walking the indexes to
    /// exhaustion without a limit: the count of the ordered matches in
    /// the window.
    pub fn query_event_count(&self, query: EventQuery) -> (r: Result<usize, InputError>)
        requires
            self.wf(),
        ensures
            match r {
                Ok(count) => exists|fs: Seq<BasicEventFilter>, keys: Seq<EventKey>|
                    #[trigger] self.event_query_ok(
                        fs,
                        query.filter@,
                        keys,
                        query.order,
                        usize::MAX as int,
                        spec_window_lo(query.order, query.start, query.previous),
                        spec_window_hi(query.order, query.end, query.previous),
                    ) && count == keys.len(),
                Err(e) => exists|i: int|
                    0 <= i < query.filter@.len() && crate::filter::spec_event_validate(
                        (#[trigger] query.filter@[i]).model(),
                    ) == Err::<crate::input::PredicateModel, InputError>(e),
            },
    {
        let basics = match self.lower_event_filter(&query.filter) {
            Ok(fs) => fs,
            Err(e) => {
                return Err(e);
            },
        };
        let ghost fs = basics@;
        let keys = self.query_event_with(
            basics,
            query.order,
            usize::MAX,
            query.start,
            query.end,
            query.previous,
        );
        let count = keys.len();
        proof {
            reveal(RawEngine::event_query_ok);
            assert(self.event_query_ok(
                fs,
                query.filter@,
                keys@,
                query.order,
                usize::MAX as int,
                spec_window_lo(query.order, query.start, query.previous),
                spec_window_hi(query.order, query.end, query.previous),
            ) && count == keys@.len());
        }
        Ok(count)
    }

    /// Runs a span query over already-lowered filters: walks the
    /// indexes from the bottom of the key space (spans created before
    /// the window can still be alive inside it), re-anchored past
    /// `previous`, and returns up to `limit` keys. Every returned key
    /// is a stored span at or before the window's end, still relevant
    /// at its start, accepted by every filter; no such key is skipped
    /// until the limit cuts the walk off.
    #[verifier::loop_isolation(false)]
    #[verifier::spinoff_prover]
    #[verifier::rlimit(100)]
    pub fn query_span_with(
        &self,
        filters: Vec<BasicSpanFilter>,
        order: Order,
        limit: usize,
        start: Timestamp,
        end: Timestamp,
        previous: Option<Timestamp>,
    ) -> (r: Vec<SpanKey>)
        requires
            self.wf(),
        ensures
            ({
                let fs = filters@;
                let walk_lo = spec_span_walk_lo(order, previous);
                let hi = spec_window_hi(order, end, previous);
                &&& r@.len() <= limit
                &&& (forall|j: int|
                    0 <= j < r@.len() ==> walk_lo <= #[trigger] r@[j] <= hi
                        && self.span_filters_match(fs, r@[j], start))
                &&& (if order == Order::Asc {
                    forall|j1: int, j2: int| 0 <= j1 < j2 < r@.len() ==> r@[j1] < r@[j2]
                } else {
                    forall|j1: int, j2: int| 0 <= j1 < j2 < r@.len() ==> r@[j1] > r@[j2]
                })
                &&& (forall|k: Timestamp|
                    walk_lo <= k <= hi && #[trigger] self.span_filters_match(fs, k, start)
                        ==> r@.contains(k) || (r@.len() == limit && (r@.len() == 0 || (if order
                        == Order::Asc {
                        r@[r@.len() - 1] < k
                    } else {
                        k < r@[r@.len() - 1]
                    }))))
            }),
    {
        let ghost fs = filters@;
        let mut basic = BasicSpanFilter::And(filters);
        proof {
            assert forall|k: Timestamp|
                self.spans@.contains_key(k) implies ((#[trigger] basic.spec_matches(
                self.spans@,
                self.span_ancestors@,
                self.spans@[k],
            )) == (forall|i: int|
                0 <= i < fs.len() ==> (#[trigger] fs[i]).spec_matches(
                    self.spans@,
                    self.span_ancestors@,
                    self.spans@[k],
                ))) by {
                let sp = self.spans@[k];
                if basic.spec_matches(self.spans@, self.span_ancestors@, sp) {
                    assert forall|i: int| 0 <= i < fs.len() implies (#[trigger] fs[i]).spec_matches(
                        self.spans@,
                        self.span_ancestors@,
                        sp,
                    ) by {
                        crate::filter::lemma_span_and_elim(
                            basic->And_0,
                            self.spans@,
                            self.span_ancestors@,
                            sp,
                            i,
                        );
                    }
                }
                if forall|i: int|
                    0 <= i < fs.len() ==> (#[trigger] fs[i]).spec_matches(
                        self.spans@,
                        self.span_ancestors@,
                        sp,
                    ) {
                    crate::filter::lemma_span_and_intro(
                        basic->And_0,
                        self.spans@,
                        self.span_ancestors@,
                        sp,
                    );
                }
            }
        }
        let ghost basic_pre = basic;
        basic.simplify();
        let ghost basic_post = basic;
        let mut plan = IndexedSpanFilter::build(Some(basic), &self.span_indexes);
        let ghost g_built = plan;
        // re-anchor past `previous`, keeping the original start for the
        // liveness test
        let lo = match (order, previous) {
            (Order::Asc, Some(prev)) => if prev == u64::MAX {
                u64::MAX
            } else {
                prev + 1
            },
            _ => start,
        };
        let hi = match (order, previous) {
            (Order::Desc, Some(prev)) => if prev == 0 {
                0
            } else {
                prev - 1
            },
            _ => end,
        };
        plan.ensure_stratified(&self.span_indexes.durations);
        let ghost g_strat = plan;
        plan.trim_to_timeframe(start, hi);
        let ghost g_trim = plan;
        plan.optimize();
        let ghost base = plan;
        proof {
            crate::plan::lemma_exact_bands(self.span_indexes, self.spans@, self.span_ancestors@);
            assert forall|k: Timestamp|
                #![trigger base.matchable(self.spans@, self.span_ancestors@, k, start)]
                (base.matchable(self.spans@, self.span_ancestors@, k, start)) == (
            self.spans@.contains_key(k) && crate::plan::span_live_at(self.spans@, k, start) && k
                <= hi && self.span_filters_match(fs, k, start)) by {
                assert(base.matchable(self.spans@, self.span_ancestors@, k, start)
                    == g_trim.matchable(self.spans@, self.span_ancestors@, k, start));
                assert(crate::plan::span_plan_sound(g_built, self.spans@));
                assert(g_built.keys_stored(self.spans@));
                assert(crate::plan::span_plan_sound(g_strat, self.spans@));
                assert(g_trim.matchable(self.spans@, self.span_ancestors@, k, start) == (
                g_strat.matchable(self.spans@, self.span_ancestors@, k, start) && k <= hi));
                assert(g_strat.matchable(self.spans@, self.span_ancestors@, k, start)
                    == g_built.matchable(self.spans@, self.span_ancestors@, k, start));
                assert(g_built.matchable(self.spans@, self.span_ancestors@, k, start) == (
                self.spans@.contains_key(k) && crate::plan::span_live_at(self.spans@, k, start)
                    && basic_post.spec_matches(self.spans@, self.span_ancestors@, self.spans@[k])));
                if self.spans@.contains_key(k) {
                    assert(basic_post.spec_matches(
                        self.spans@,
                        self.span_ancestors@,
                        self.spans@[k],
                    ) == basic_pre.spec_matches(
                        self.spans@,
                        self.span_ancestors@,
                        self.spans@[k],
                    ));
                }
            }
        }
        let mut out: Vec<SpanKey> = Vec::new();
        // spans created before the window can still be alive inside it,
        // so the ascending walk starts at the bottom of the key space
        let mut cursor: Timestamp = if order == Order::Asc {
            match previous {
                Some(_) => lo,
                None => 0,
            }
        } else {
            hi
        };
        let ghost walk_lo = spec_span_walk_lo(order, previous);
        proof {
            if order == Order::Asc {
                assert(cursor == walk_lo);
            } else {
                assert(cursor == spec_window_hi(order, end, previous));
            }
        }
        let bound: Timestamp = if order == Order::Asc {
            hi
        } else {
            0
        };
        let mut exhausted = false;
        while out.len() < limit && !exhausted
            invariant
                plan.wf(),
                out@.len() <= limit,
                order == Order::Asc ==> cursor >= walk_lo,
                order == Order::Desc ==> walk_lo == 0,
                forall|k: Timestamp| #[trigger]
                    plan.matchable(self.spans@, self.span_ancestors@, k, start) ==> base.matchable(
                        self.spans@,
                        self.span_ancestors@,
                        k,
                        start,
                    ),
                forall|k: Timestamp|
                    (if order == Order::Asc {
                        k >= cursor
                    } else {
                        k <= cursor
                    }) ==> ((#[trigger] plan.matchable(self.spans@, self.span_ancestors@, k, start))
                        == base.matchable(self.spans@, self.span_ancestors@, k, start)),
                forall|j: int|
                    0 <= j < out@.len() ==> walk_lo <= #[trigger] out@[j] <= hi
                        && self.span_filters_match(fs, out@[j], start),
                if order == Order::Asc {
                    forall|j1: int, j2: int| 0 <= j1 < j2 < out@.len() ==> out@[j1] < out@[j2]
                } else {
                    forall|j1: int, j2: int| 0 <= j1 < j2 < out@.len() ==> out@[j1] > out@[j2]
                },
                forall|k: Timestamp|
                    (if order == Order::Asc {
                        walk_lo <= k <= hi && (exhausted || k < cursor)
                    } else {
                        walk_lo <= k <= hi && (exhausted || k > cursor)
                    }) && #[trigger] self.span_filters_match(fs, k, start) ==> out@.contains(k),
                forall|j: int|
                    0 <= j < out@.len() ==> (if order == Order::Asc {
                        exhausted || out@[j] < cursor
                    } else {
                        exhausted || out@[j] > cursor
                    }),
            decreases (if exhausted {
                0int
            } else {
                1int
            }), (if order == Order::Asc {
                hi + 1 - cursor
            } else {
                cursor + 1
            }),
        {
            let ghost pre_plan = plan;
            let found = plan.search(&self.spans, &self.span_ancestors, cursor, order, bound, start);
            match found {
                Some(k) => {
                    proof {
                        assert(pre_plan.matchable(self.spans@, self.span_ancestors@, k, start));
                        assert(base.matchable(self.spans@, self.span_ancestors@, k, start));
                        assert forall|k2: Timestamp|
                            (if order == Order::Asc {
                                cursor <= k2 < k
                            } else {
                                k < k2 <= cursor
                            }) implies !(#[trigger] self.span_filters_match(fs, k2, start)) || !(
                        walk_lo <= k2 <= hi) by {
                            if walk_lo <= k2 <= hi && self.span_filters_match(fs, k2, start) {
                                assert(base.matchable(
                                    self.spans@,
                                    self.span_ancestors@,
                                    k2,
                                    start,
                                ));
                                assert(pre_plan.matchable(
                                    self.spans@,
                                    self.span_ancestors@,
                                    k2,
                                    start,
                                ));
                                assert(false);
                            }
                        }
                    }
                    let ghost pre_out = out@;
                    out.push(k);
                    proof {
                        assert(out@ == pre_out.push(k));
                        assert forall|k2: Timestamp| pre_out.contains(k2) implies out@.contains(
                            k2,
                        ) by {
                            let j = choose|j: int| 0 <= j < pre_out.len() && pre_out[j] == k2;
                            assert(out@[j] == k2);
                        }
                        assert(out@.contains(k)) by {
                            assert(out@[out@.len() - 1] == k);
                        }
                    }
                    if order == Order::Asc {
                        if k == u64::MAX {
                            exhausted = true;
                        } else {
                            cursor = k + 1;
                        }
                    } else {
                        if k == 0 {
                            exhausted = true;
                        } else {
                            cursor = k - 1;
                        }
                    }
                },
                None => {
                    proof {
                        assert forall|k2: Timestamp|
                            walk_lo <= k2 <= hi && #[trigger] self.span_filters_match(
                                fs,
                                k2,
                                start,
                            ) implies out@.contains(k2) by {
                            if order == Order::Asc {
                                if k2 >= cursor {
                                    assert(base.matchable(
                                        self.spans@,
                                        self.span_ancestors@,
                                        k2,
                                        start,
                                    ));
                                    assert(pre_plan.matchable(
                                        self.spans@,
                                        self.span_ancestors@,
                                        k2,
                                        start,
                                    ));
                                    assert(false);
                                }
                            } else {
                                if k2 <= cursor {
                                    assert(base.matchable(
                                        self.spans@,
                                        self.span_ancestors@,
                                        k2,
                                        start,
                                    ));
                                    assert(pre_plan.matchable(
                                        self.spans@,
                                        self.span_ancestors@,
                                        k2,
                                        start,
                                    ));
                                    assert(false);
                                }
                            }
                        }
                    }
                    exhausted = true;
                },
            }
        }
        proof {
            assert forall|k: Timestamp|
                walk_lo <= k <= hi && #[trigger] self.span_filters_match(fs, k, start) implies
                out@.contains(k) || (out@.len() == limit && (out@.len() == 0 || (if order
                == Order::Asc {
                out@[out@.len() - 1] < k
            } else {
                k < out@[out@.len() - 1]
            }))) by {
                if !out@.contains(k) {
                    assert(!exhausted);
                    assert(out@.len() == limit);
                    if out@.len() > 0 {
                        if order == Order::Asc {
                            assert(k >= cursor);
                            assert(out@[out@.len() - 1] < cursor);
                        } else {
                            assert(k <= cursor);
                            assert(out@[out@.len() - 1] > cursor);
                        }
                    }
                }
            }
        }
        out
    }

    /// Whether a stored span is still relevant at the query start and
    /// every filter in a list accepts it.
    pub open spec fn span_filters_match(
        self,
        fs: Seq<BasicSpanFilter>,
        k: Timestamp,
        start: Timestamp,
    ) -> bool {
        &&& self.spans@.contains_key(k)
        &&& crate::plan::span_live_at(self.spans@, k, start)
        &&& (forall|i: int|
            0 <= i < fs.len() ==> (#[trigger] fs[i]).spec_matches(
                self.spans@,
                self.span_ancestors@,
                self.spans@[k],
            ))
    }

    /// Runs a span query from predicates: validation errors are
    /// returned, never panicked on.
    pub fn query_span(&self, query: SpanQuery) -> (r: Result<Vec<SpanKey>, InputError>)
        requires
            self.wf(),
        ensures
            match r {
                Ok(keys) => exists|fs: Seq<BasicSpanFilter>|
                    #[trigger] self.span_query_ok(
                        fs,
                        query.filter@,
                        keys@,
                        query.order,
                        query.limit as int,
                        query.start,
                        spec_span_walk_lo(query.order, query.previous),
                        spec_window_hi(query.order, query.end, query.previous),
                    ),
                Err(e) => exists|i: int|
                    0 <= i < query.filter@.len() && crate::filter::spec_span_validate(
                        (#[trigger] query.filter@[i]).model(),
                    ) == Err::<crate::input::PredicateModel, InputError>(e),
            },
    {
        let basics = match self.lower_span_filter(&query.filter) {
            Ok(fs) => fs,
            Err(e) => {
                return Err(e);
            },
        };
        let ghost fs = basics@;
        let keys = self.query_span_with(
            basics,
            query.order,
            query.limit,
            query.start,
            query.end,
            query.previous,
        );
        let r = Ok(keys);
        proof {
            reveal(RawEngine::span_query_ok);
            assert(self.span_query_ok(
                fs,
                query.filter@,
                r->Ok_0@,
                query.order,
                query.limit as int,
                query.start,
                spec_span_walk_lo(query.order, query.previous),
                spec_window_hi(query.order, query.end, query.previous),
            ));
        }
        r
    }

    /// What a successful span query returns: each predicate lowered to
    /// a basic filter, and the keys exactly the ordered stored spans in
    /// the walk range that are still relevant at `start` and pass every
    /// filter, up to the limit.
    #[verifier::opaque]
    pub open spec fn span_query_ok(
        self,
        fs: Seq<BasicSpanFilter>,
        preds: Seq<FilterPredicate>,
        keys: Seq<SpanKey>,
        order: Order,
        limit: int,
        start: Timestamp,
        walk_lo: Timestamp,
        hi: Timestamp,
    ) -> bool {
        &&& fs.len() == preds.len()
        &&& (forall|i: int|
            0 <= i < fs.len() ==> crate::filter::spec_span_validate(
                (#[trigger] preds[i]).model(),
            ) is Ok && crate::filter::span_filter_built(
                fs[i],
                preds[i].model(),
                self.instance_key_map@,
                self.span_key_map@,
            ))
        &&& keys.len() <= limit
        &&& (forall|j: int|
            0 <= j < keys.len() ==> walk_lo <= #[trigger] keys[j] <= hi
                && self.span_filters_match(fs, keys[j], start))
        &&& (if order == Order::Asc {
            forall|j1: int, j2: int| 0 <= j1 < j2 < keys.len() ==> keys[j1] < keys[j2]
        } else {
            forall|j1: int, j2: int| 0 <= j1 < j2 < keys.len() ==> keys[j1] > keys[j2]
        })
        &&& (forall|k: Timestamp|
            walk_lo <= k <= hi && #[trigger] self.span_filters_match(fs, k, start)
                ==> keys.contains(k) || (keys.len() == limit && (keys.len() == 0 || (if order
                == Order::Asc {
                keys[keys.len() - 1] < k
            } else {
                k < keys[keys.len() - 1]
            }))))
    }

    /// Whether every filter in a list accepts the stored instance at a
    /// key.
    pub open spec fn instance_filters_match(
        self,
        fs: Seq<crate::filter::BasicInstanceFilter>,
        k: Timestamp,
    ) -> bool {
        &&& self.instances@.contains_key(k)
        &&& (forall|i: int|
            0 <= i < fs.len() ==> (#[trigger] fs[i]).spec_matches(self.instances@[k]))
    }

    /// What a successful instance query returns: each predicate lowered
    /// to a basic filter, and the keys exactly the ordered stored
    /// instances in the window that pass every filter, up to the limit.
    #[verifier::opaque]
    pub open spec fn instance_query_ok(
        self,
        fs: Seq<crate::filter::BasicInstanceFilter>,
        preds: Seq<FilterPredicate>,
        keys: Seq<InstanceKey>,
        order: Order,
        limit: int,
        lo: Timestamp,
        hi: Timestamp,
    ) -> bool {
        &&& fs.len() == preds.len()
        &&& (forall|i: int|
            0 <= i < fs.len() ==> crate::filter::spec_instance_validate(
                (#[trigger] preds[i]).model(),
            ) is Ok && crate::filter::instance_filter_built(fs[i], preds[i].model()))
        &&& keys.len() <= limit
        &&& (forall|j: int|
            0 <= j < keys.len() ==> lo <= #[trigger] keys[j] <= hi && self.instance_filters_match(
                fs,
                keys[j],
            ))
        &&& (if order == Order::Asc {
            forall|j1: int, j2: int| 0 <= j1 < j2 < keys.len() ==> keys[j1] < keys[j2]
        } else {
            forall|j1: int, j2: int| 0 <= j1 < j2 < keys.len() ==> keys[j1] > keys[j2]
        })
        &&& (forall|k: Timestamp|
            lo <= k <= hi && #[trigger] self.instance_filters_match(fs, k) ==> keys.contains(k) || (
            keys.len() == limit && (keys.len() == 0 || (if order == Order::Asc {
                keys[keys.len() - 1] < k
            } else {
                k < keys[keys.len() - 1]
            }))))
    }

    /// Runs an instance query: scans the instance keys in order through
    /// the window, keeping those every filter accepts, up to the limit;
    /// the first invalid predicate decides the error.
    #[verifier::loop_isolation(false)]
    #[verifier::spinoff_prover]
    #[verifier::rlimit(100)]
    pub fn query_instance(&self, query: InstanceQuery) -> (r: Result<Vec<InstanceKey>, InputError>)
        requires
            self.wf(),
        ensures
            match r {
                Ok(keys) => exists|fs: Seq<crate::filter::BasicInstanceFilter>|
                    #[trigger] self.instance_query_ok(
                        fs,
                        query.filter@,
                        keys@,
                        query.order,
                        query.limit as int,
                        spec_window_lo(query.order, query.start, query.previous),
                        spec_window_hi(query.order, query.end, query.previous),
                    ),
                Err(e) => exists|i: int|
                    0 <= i < query.filter@.len() && crate::filter::spec_instance_validate(
                        (#[trigger] query.filter@[i]).model(),
                    ) == Err::<crate::input::PredicateModel, InputError>(e),
            },
    {
        let mut basics: Vec<crate::filter::BasicInstanceFilter> = Vec::new();
        let n = query.filter.len();
        let mut i: usize = 0;
        while i < n
            invariant
                n == query.filter@.len(),
                0 <= i <= n,
                basics@.len() == i,
                forall|j: int|
                    0 <= j < i ==> crate::filter::spec_instance_validate(
                        (#[trigger] query.filter@[j]).model(),
                    ) is Ok && crate::filter::instance_filter_built(
                        basics@[j],
                        query.filter@[j].model(),
                    ),
            decreases n - i,
        {
            let p = FilterPredicate {
                property_kind: query.filter[i].property_kind,
                property: query.filter[i].property.clone(),
                value_operator: query.filter[i].value_operator,
                value: query.filter[i].value.clone(),
            };
            proof {
                assert(p.model() == query.filter@[i as int].model());
            }
            match crate::filter::BasicInstanceFilter::from_predicate(p) {
                Ok(f) => {
                    basics.push(f);
                },
                Err(e) => {
                    return Err(e);
                },
            }
            i = i + 1;
        }
        let ghost fs = basics@;
        let lo = spec_window_lo_exec(query.order, query.start, query.previous);
        let hi = spec_window_hi_exec(query.order, query.end, query.previous);
        let total = self.instance_keys.len();
        let mut out: Vec<InstanceKey> = Vec::new();
        let mut idx: usize = 0;
        while idx < total && out.len() < query.limit
            invariant
                self.wf(),
                n == query.filter@.len(),
                fs.len() == n,
                forall|j: int|
                    0 <= j < n ==> crate::filter::spec_instance_validate(
                        (#[trigger] query.filter@[j]).model(),
                    ) is Ok && crate::filter::instance_filter_built(fs[j], query.filter@[j].model()),
                lo == spec_window_lo(query.order, query.start, query.previous),
                hi == spec_window_hi(query.order, query.end, query.previous),
                total == self.instance_keys@.len(),
                0 <= idx <= total,
                out@.len() <= query.limit,
                forall|j: int|
                    0 <= j < out@.len() ==> lo <= #[trigger] out@[j] <= hi
                        && self.instance_filters_match(fs, out@[j]),
                if query.order == Order::Asc {
                    forall|j1: int, j2: int| 0 <= j1 < j2 < out@.len() ==> out@[j1] < out@[j2]
                } else {
                    forall|j1: int, j2: int| 0 <= j1 < j2 < out@.len() ==> out@[j1] > out@[j2]
                },
                // everything already scanned that matches is in the result
                forall|p2: int|
                    #![trigger scan_key(self.instance_keys@, query.order, p2)]
                    0 <= p2 < idx ==> ({
                        let k = scan_key(self.instance_keys@, query.order, p2);
                        (lo <= k <= hi && self.instance_filters_match(fs, k)) ==> out@.contains(k)
                    }),
                // the result so far comes from the scanned prefix
                forall|j: int|
                    0 <= j < out@.len() ==> exists|p2: int|
                        0 <= p2 < idx && (#[trigger] out@[j]) == scan_key(
                            self.instance_keys@,
                            query.order,
                            p2,
                        ),
            decreases total - idx,
        {
            let k = if order_is_asc(query.order) {
                self.instance_keys[idx]
            } else {
                self.instance_keys[total - 1 - idx]
            };
            proof {
                assert(k == scan_key(self.instance_keys@, query.order, idx as int));
                assert(self.instance_keys@.contains(k)) by {
                    if query.order == Order::Asc {
                        assert(self.instance_keys@[idx as int] == k);
                    } else {
                        assert(self.instance_keys@[total - 1 - idx] == k);
                    }
                }
            }
            if lo <= k && k <= hi {
                match self.instances.get(&k) {
                    Some(instance) => {
                        let mut all = true;
                        let fn2 = basics.len();
                        let mut fi: usize = 0;
                        while fi < fn2
                            invariant
                                fn2 == basics@.len(),
                                0 <= fi <= fn2,
                                all == (forall|j: int|
                                    0 <= j < fi ==> (#[trigger] basics@[j]).spec_matches(
                                        self.instances@[k],
                                    )),
                                self.instances@.contains_key(k),
                                *instance == self.instances@[k],
                            decreases fn2 - fi,
                        {
                            if !basics[fi].matches(instance) {
                                all = false;
                            }
                            fi = fi + 1;
                        }
                        if all {
                            let ghost pre_out = out@;
                            out.push(k);
                            proof {
                                assert(out@ == pre_out.push(k));
                                assert forall|k2: Timestamp|
                                    pre_out.contains(k2) implies out@.contains(k2) by {
                                    let j = choose|j: int|
                                        0 <= j < pre_out.len() && pre_out[j] == k2;
                                    assert(out@[j] == k2);
                                }
                                assert(out@.contains(k)) by {
                                    assert(out@[out@.len() - 1] == k);
                                }
                                // ordering: the scan visits keys in strict order
                                assert forall|j: int|
                                    0 <= j < pre_out.len() implies (if query.order == Order::Asc {
                                    pre_out[j] < k
                                } else {
                                    pre_out[j] > k
                                }) by {
                                    let p2 = choose|p2: int|
                                        0 <= p2 < idx && pre_out[j] == #[trigger] scan_key(
                                            self.instance_keys@,
                                            query.order,
                                            p2,
                                        );
                                    if query.order == Order::Asc {
                                        assert(self.instance_keys@[p2]
                                            < self.instance_keys@[idx as int]);
                                    } else {
                                        assert(self.instance_keys@[total - 1 - idx]
                                            < self.instance_keys@[total - 1 - p2]);
                                    }
                                }
                            }
                        }
                    },
                    None => {
                        proof {
                            assert(false);
                        }
                    },
                }
            }
            idx = idx + 1;
        }
        proof {
            // anything matching but missing lies beyond the last result
            assert forall|k: Timestamp|
                lo <= k <= hi && #[trigger] self.instance_filters_match(fs, k) implies
                out@.contains(k) || (out@.len() == query.limit && (out@.len() == 0 || (
                if query.order == Order::Asc {
                    out@[out@.len() - 1] < k
                } else {
                    k < out@[out@.len() - 1]
                }))) by {
                if !out@.contains(k) {
                    assert(self.instances@.contains_key(k));
                    assert(self.instance_keys@.contains(k));
                    let pk = choose|pk: int|
                        0 <= pk < self.instance_keys@.len() && self.instance_keys@[pk] == k;
                    let p2 = if query.order == Order::Asc {
                        pk
                    } else {
                        self.instance_keys@.len() - 1 - pk
                    };
                    assert(scan_key(self.instance_keys@, query.order, p2) == k);
                    assert(p2 >= idx);
                    assert(idx < total);
                    assert(out@.len() == query.limit);
                    if out@.len() > 0 {
                        let j = out@.len() - 1;
                        let pj = choose|pj: int|
                            0 <= pj < idx && out@[j] == #[trigger] scan_key(
                                self.instance_keys@,
                                query.order,
                                pj,
                            );
                        if query.order == Order::Asc {
                            assert(self.instance_keys@[pj] < self.instance_keys@[p2]);
                        } else {
                            assert(self.instance_keys@[total - 1 - p2]
                                < self.instance_keys@[total - 1 - pj]);
                        }
                    }
                }
            }
        }
        let r = Ok(out);
        proof {
            reveal(RawEngine::instance_query_ok);
            assert(self.instance_query_ok(
                fs,
                query.filter@,
                r->Ok_0@,
                query.order,
                query.limit as int,
                spec_window_lo(query.order, query.start, query.previous),
                spec_window_hi(query.order, query.end, query.previous),
            ));
        }
        r
    }

    /// The key range and totals of the store.
    pub fn query_stats(&self) -> (r: crate::models::StatsView)
        requires
            self.wf(),
        ensures
            r.total_events == self.event_indexes.all@.len(),
            r.total_spans == self.span_indexes.all@.len(),
    {
        let ev_len = self.event_indexes.all.len();
        let sp_len = self.span_indexes.all.len();
        let mut start: Option<Timestamp> = None;
        let mut end: Option<Timestamp> = None;
        if ev_len > 0 {
            start = Some(self.event_indexes.all[0]);
            end = Some(self.event_indexes.all[ev_len - 1]);
        }
        if sp_len > 0 {
            let s0 = self.span_indexes.all[0];
            let s1 = self.span_indexes.all[sp_len - 1];
            start = match start {
                Some(cur) => if s0 < cur {
                    Some(s0)
                } else {
                    Some(cur)
                },
                None => Some(s0),
            };
            end = match end {
                Some(cur) => if s1 > cur {
                    Some(s1)
                } else {
                    Some(cur)
                },
                None => Some(s1),
            };
        }
        crate::models::StatsView { start, end, total_spans: sp_len, total_events: ev_len }
    }
}

/// The executable window edges.
fn spec_window_lo_exec(order: Order, start: Timestamp, previous: Option<Timestamp>) -> (r:
    Timestamp)
    ensures
        r == spec_window_lo(order, start, previous),
{
    match (order, previous) {
        (Order::Asc, Some(prev)) => if prev == u64::MAX {
            u64::MAX
        } else {
            prev + 1
        },
        _ => start,
    }
}

fn spec_window_hi_exec(order: Order, end: Timestamp, previous: Option<Timestamp>) -> (r: Timestamp)
    ensures
        r == spec_window_hi(order, end, previous),
{
    match (order, previous) {
        (Order::Desc, Some(prev)) => if prev == 0 {
            0
        } else {
            prev - 1
        },
        _ => end,
    }
}


/// Every ingested event a query's filters accept inside its window is
/// yielded exactly once when the walk runs to exhaustion: the keys a
/// query returns are strictly ordered, so no key repeats, and with the
/// limit not yet reached the query's own contract owes every match a
/// place in the result.
pub proof fn lemma_event_yielded_exactly_once<S: Storage>(
    engine: RawEngine<S>,
    fs: Seq<crate::filter::BasicEventFilter>,
    keys: Seq<EventKey>,
    limit: int,
    lo: Timestamp,
    hi: Timestamp,
    k: Timestamp,
)
    requires
        keys.len() < limit,
        (forall|j1: int, j2: int| 0 <= j1 < j2 < keys.len() ==> keys[j1] < keys[j2]) || (forall|
            j1: int,
            j2: int,
        | 0 <= j1 < j2 < keys.len() ==> keys[j1] > keys[j2]),
        forall|k2: Timestamp|
            lo <= k2 <= hi && #[trigger] engine.event_filters_match(fs, k2) ==> keys.contains(k2),
        lo <= k <= hi,
        engine.event_filters_match(fs, k),
    ensures
        keys.contains(k),
        forall|j1: int, j2: int|
            0 <= j1 < keys.len() && 0 <= j2 < keys.len() && keys[j1] == k && keys[j2] == k ==> j1
                == j2,
{
    assert forall|j1: int, j2: int|
        0 <= j1 < keys.len() && 0 <= j2 < keys.len() && keys[j1] == k && keys[j2] == k implies j1
        == j2 by {
        if j1 < j2 {
            assert(keys[j1] < keys[j2] || keys[j1] > keys[j2]);
        }
        if j2 < j1 {
            assert(keys[j2] < keys[j1] || keys[j2] > keys[j1]);
        }
    }
}

} // verus!
