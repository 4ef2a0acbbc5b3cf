//! Basic filters: the validated, lowered form of filter predicates for
//! each entity kind, and their direct evaluation against records.

use core::ops::Range;
use std::collections::HashMap;
use vstd::prelude::*;

use crate::fields::{str_eq, Fields};
use crate::input::{FilterFormatError, FilterPredicate, FilterPredicateView, FilterPropertyKind, FilterValueOperator, PredicateModel};
use crate::models::{
    full_span_id_split, parse_full_span_id, parse_u64, parse_u64_spec, Event, Instance,
    InstanceKey, Level, Span, SpanKey, Timestamp,
};

verus! {

/// Why a structurally well-formed predicate is invalid for an entity
/// kind.
#[derive(Debug, Copy, Clone, PartialEq, Eq, Structural)]
pub enum InputError {
    InvalidLevelValue,
    InvalidLevelOperator,
    InvalidNameOperator,
    InvalidInstanceValue,
    InvalidInstanceOperator,
    InvalidAttributeOperator,
    InvalidInherentProperty,
    InvalidDurationValue,
    MissingDurationOperator,
    InvalidDurationOperator,
    InvalidCreatedValue,
    MissingCreatedOperator,
    InvalidCreatedOperator,
    InvalidParentValue,
    InvalidParentOperator,
    InvalidStackValue,
    InvalidStackOperator,
}

/// A comparison against a timestamp-valued property.
#[derive(Debug, Copy, Clone, PartialEq, Eq, Structural)]
pub enum TimestampComparisonFilter {
    Gt(Timestamp),
    Gte(Timestamp),
    Lte(Timestamp),
    Lt(Timestamp),
}

impl TimestampComparisonFilter {
    pub open spec fn spec_matches(self, t: Timestamp) -> bool {
        match self {
            TimestampComparisonFilter::Gt(v) => t > v,
            TimestampComparisonFilter::Gte(v) => t >= v,
            TimestampComparisonFilter::Lte(v) => t <= v,
            TimestampComparisonFilter::Lt(v) => t < v,
        }
    }

    pub fn matches(&self, t: Timestamp) -> (r: bool)
        ensures
            r == self.spec_matches(t),
    {
        match self {
            TimestampComparisonFilter::Gt(v) => t > *v,
            TimestampComparisonFilter::Gte(v) => t >= *v,
            TimestampComparisonFilter::Lte(v) => t <= *v,
            TimestampComparisonFilter::Lt(v) => t < *v,
        }
    }
}

/// A comparison against a duration-valued property.
#[derive(Debug, Copy, Clone, PartialEq, Eq, Structural)]
pub enum DurationFilter {
    Gt(u64),
    Lt(u64),
}

/// Whether a span of the given duration passes the filter. A span
/// still open has no duration yet; the stratified index files it in
/// the unbounded top band, so the filter machinery treats it as
/// unboundedly long: above every lower bound, below no upper bound.
pub open spec fn duration_filter_matches(df: DurationFilter, dur: Option<u64>) -> bool {
    match df {
        DurationFilter::Gt(m) => match dur {
            Some(d) => d > m,
            None => true,
        },
        DurationFilter::Lt(m) => match dur {
            Some(d) => d < m,
            None => false,
        },
    }
}

/// Whether an instance of the given lifetime passes the filter. An
/// instance has a duration only once disconnected; a still-connected
/// one satisfies no duration predicate at all.
pub open spec fn instance_duration_matches(df: DurationFilter, dur: Option<u64>) -> bool {
    match dur {
        Some(d) => match df {
            DurationFilter::Gt(m) => d > m,
            DurationFilter::Lt(m) => d < m,
        },
        None => false,
    }
}

/// How a whole band decides against a duration bound: accepted
/// outright, rejected outright, or in need of a per-record check. A
/// bound equal to the band's lower edge cannot be accepted outright: a
/// span of exactly that duration would fail the strict comparison.
pub open spec fn spec_band_decision(df: DurationFilter, start: u64, end: u64) -> Option<bool> {
    match df {
        DurationFilter::Gt(m) => if m < start {
            Some(true)
        } else if end < u64::MAX && m >= end {
            Some(false)
        } else {
            None
        },
        DurationFilter::Lt(m) => if end < u64::MAX && m >= end {
            Some(true)
        } else if m <= start {
            Some(false)
        } else {
            None
        },
    }
}

/// Whether a duration belongs to a stratified band. A band is the
/// half-open range `[start, end)` of closed durations; the top band,
/// marked by `end == u64::MAX`, also holds every still-open record and
/// closed durations up to `u64::MAX` itself.
pub open spec fn band_member(start: u64, end: u64, dur: Option<u64>) -> bool {
    match dur {
        Some(d) => start <= d && (d < end || end == u64::MAX),
        None => end == u64::MAX,
    }
}

impl DurationFilter {
    /// Decides a whole band at once: `Some(true)` when every member
    /// passes, `Some(false)` when none does, `None` when the band must
    /// be checked record by record. A bound equal to the band's lower
    /// edge cannot be accepted outright: a span of exactly that
    /// duration would fail the strict comparison.
    pub fn matches_duration_range(&self, range: &Range<u64>) -> (r: Option<bool>)
        ensures
            r == Some(true) ==> forall|d: Option<u64>|
                band_member(range.start, range.end, d) ==> duration_filter_matches(*self, d),
            r == Some(false) ==> forall|d: Option<u64>|
                band_member(range.start, range.end, d) ==> !duration_filter_matches(*self, d),
            r == spec_band_decision(*self, range.start, range.end),
    {
        match self {
            DurationFilter::Gt(m) => {
                if *m < range.start {
                    Some(true)
                } else if range.end < u64::MAX && *m >= range.end {
                    Some(false)
                } else {
                    None
                }
            },
            DurationFilter::Lt(m) => {
                if range.end < u64::MAX && *m >= range.end {
                    Some(true)
                } else if *m <= range.start {
                    Some(false)
                } else {
                    None
                }
            },
        }
    }

    pub fn matches(&self, dur: Option<u64>) -> (r: bool)
        ensures
            r == duration_filter_matches(*self, dur),
    {
        match self {
            DurationFilter::Gt(m) => match dur {
                Some(d) => d > *m,
                None => true,
            },
            DurationFilter::Lt(m) => match dur {
                Some(d) => d < *m,
                None => false,
            },
        }
    }

    /// Evaluates the filter against an instance's lifetime: without a
    /// disconnection there is no duration to compare, so nothing
    /// matches.
    pub fn matches_lifetime(&self, dur: Option<u64>) -> (r: bool)
        ensures
            r == instance_duration_matches(*self, dur),
    {
        match dur {
            Some(d) => match self {
                DurationFilter::Gt(m) => d > *m,
                DurationFilter::Lt(m) => d < *m,
            },
            None => false,
        }
    }
}

/// The first value an ancestor chain gives to an attribute name,
/// walking from the innermost enclosing span outward.
pub open spec fn chain_value(
    chain: Seq<SpanKey>,
    spans: Map<SpanKey, Span>,
    name: Seq<char>,
) -> Option<Seq<char>>
    decreases chain.len(),
{
    if chain.len() == 0 {
        None
    } else if spans.contains_key(chain[0]) && spans[chain[0]].fields.spec_get(name) is Some {
        spans[chain[0]].fields.spec_get(name)
    } else {
        chain_value(chain.drop_first(), spans, name)
    }
}

/// A record's effective attribute value: its own, or the nearest
/// enclosing span's.
pub open spec fn resolved_value(
    own: Fields,
    chain: Seq<SpanKey>,
    spans: Map<SpanKey, Span>,
    name: Seq<char>,
) -> Option<Seq<char>> {
    if own.spec_get(name) is Some {
        own.spec_get(name)
    } else {
        chain_value(chain, spans, name)
    }
}

/// Reads the effective value of an attribute: the record's own
/// `fields` first, then each ancestor's, innermost first.
pub fn resolve_attribute(
    own: &Fields,
    chain: &Vec<SpanKey>,
    spans: &HashMap<SpanKey, Span>,
    name: &str,
) -> (r: Option<String>)
    ensures
        match r {
            Some(v) => resolved_value(*own, chain@, spans@, name@) == Some(v@),
            None => resolved_value(*own, chain@, spans@, name@) is None,
        },
{
    if let Some(v) = own.get(name) {
        let c = v.clone();
        assert(c@ == v@);
        return Some(c);
    }
    let n = chain.len();
    let mut i: usize = 0;
    proof {
        assert(chain@.skip(0) =~= chain@);
    }
    while i < n
        invariant
            own.spec_get(name@) is None,
            n == chain@.len(),
            0 <= i <= n,
            chain_value(chain@, spans@, name@) == chain_value(chain@.skip(i as int), spans@, name@),
        decreases n - i,
    {
        let key = chain[i];
        proof {
            assert(chain@.skip(i as int)[0] == chain@[i as int]);
            assert(chain@.skip(i as int).drop_first() =~= chain@.skip(i + 1));
        }
        if let Some(span) = spans.get(&key) {
            if let Some(v) = span.fields.get(name) {
                let c = v.clone();
                assert(c@ == v@);
                return Some(c);
            }
        }
        i = i + 1;
    }
    proof {
        assert(chain@.skip(n as int) =~= Seq::<SpanKey>::empty());
    }
    None
}

/// Which kind an unprefixed predicate falls under: inherent when the
/// property is reserved for the entity kind, attribute otherwise.
pub open spec fn effective_kind(kind: Option<FilterPropertyKind>, reserved: bool) -> FilterPropertyKind {
    match kind {
        Some(k) => k,
        None => if reserved {
            FilterPropertyKind::Inherent
        } else {
            FilterPropertyKind::Attribute
        },
    }
}

/// Where a level value is one of the five names, which one.
pub open spec fn spec_level_value(v: Seq<char>) -> Option<Level> {
    if v == "TRACE"@ {
        Some(Level::Trace)
    } else if v == "DEBUG"@ {
        Some(Level::Debug)
    } else if v == "INFO"@ {
        Some(Level::Info)
    } else if v == "WARN"@ {
        Some(Level::Warn)
    } else if v == "ERROR"@ {
        Some(Level::Error)
    } else {
        None
    }
}

fn level_from_value(v: &str) -> (r: Option<Level>)
    ensures
        r == spec_level_value(v@),
{
    if str_eq(v, "TRACE") {
        Some(Level::Trace)
    } else if str_eq(v, "DEBUG") {
        Some(Level::Debug)
    } else if str_eq(v, "INFO") {
        Some(Level::Info)
    } else if str_eq(v, "WARN") {
        Some(Level::Warn)
    } else if str_eq(v, "ERROR") {
        Some(Level::Error)
    } else {
        None
    }
}

/// The level whose rank is `i`, clamped into the valid range.
pub open spec fn level_of_index(i: int) -> Level {
    if i <= 0 {
        Level::Trace
    } else if i == 1 {
        Level::Debug
    } else if i == 2 {
        Level::Info
    } else if i == 3 {
        Level::Warn
    } else {
        Level::Error
    }
}

/// Whether a string parses as a `u64`-valued, nonzero timestamp.
pub open spec fn spec_timestamp_value(v: Seq<char>) -> Option<Timestamp> {
    match parse_u64_spec(v) {
        Some(t) => if t >= 1 {
            Some(t)
        } else {
            None
        },
        None => None,
    }
}

fn timestamp_from_value(v: &str) -> (r: Option<Timestamp>)
    ensures
        r == spec_timestamp_value(v@),
{
    match parse_u64(v) {
        Some(t) => if t >= 1 {
            Some(t)
        } else {
            None
        },
        None => None,
    }
}

/// Whether a string is a well-formed full span id.
pub open spec fn full_span_id_ok(s: Seq<char>) -> bool {
    exists|i: int, a: u64, b: u64| full_span_id_split(s, i, a, b)
}

/// The instance key an external id lowers to: the mapped key, or the
/// zero sentinel, which no record carries, when the id is unknown.
pub open spec fn spec_instance_key_of(ikm: Map<InstanceId, InstanceKey>, id: InstanceId) -> InstanceKey {
    if ikm.contains_key(id) {
        ikm[id]
    } else {
        0
    }
}

/// The span key a full span id lowers to, through the instance key.
pub open spec fn spec_span_key_of(
    ikm: Map<InstanceId, InstanceKey>,
    skm: Map<InstanceKey, HashMap<SpanId, SpanKey>>,
    instance_id: InstanceId,
    span_id: SpanId,
) -> SpanKey {
    let ik = spec_instance_key_of(ikm, instance_id);
    if skm.contains_key(ik) && skm[ik]@.contains_key(span_id) {
        skm[ik]@[span_id]
    } else {
        0
    }
}

use crate::models::{InstanceId, SpanId};

fn instance_key_of(ikm: &HashMap<InstanceId, InstanceKey>, id: InstanceId) -> (r: InstanceKey)
    ensures
        r == spec_instance_key_of(ikm@, id),
{
    match ikm.get(&id) {
        Some(k) => *k,
        None => 0,
    }
}

fn span_key_of(
    ikm: &HashMap<InstanceId, InstanceKey>,
    skm: &HashMap<InstanceKey, HashMap<SpanId, SpanKey>>,
    instance_id: InstanceId,
    span_id: SpanId,
) -> (r: SpanKey)
    ensures
        r == spec_span_key_of(ikm@, skm@, instance_id, span_id),
{
    let ik = instance_key_of(ikm, instance_id);
    match skm.get(&ik) {
        Some(inner) => match inner.get(&span_id) {
            Some(k) => *k,
            None => 0,
        },
        None => 0,
    }
}

/// An event filter lowered to index-friendly atoms.
pub enum BasicEventFilter {
    Level(Level),
    Instance(InstanceKey),
    Ancestor(SpanKey),
    Attribute(String, String),
    And(Vec<BasicEventFilter>),
    Or(Vec<BasicEventFilter>),
}

/// The ancestor chain recorded for a key, or the empty chain.
pub open spec fn chain_of(anc: Map<Timestamp, Vec<SpanKey>>, at: Timestamp) -> Seq<SpanKey> {
    if anc.contains_key(at) {
        anc[at]@
    } else {
        Seq::empty()
    }
}

impl BasicEventFilter {
    /// Whether an event passes this filter, given the span records and
    /// the ancestor chains of events.
    pub open spec fn spec_matches(
        self,
        spans: Map<SpanKey, Span>,
        anc: Map<Timestamp, Vec<SpanKey>>,
        event: Event,
    ) -> bool
        decreases self,
    {
        match self {
            BasicEventFilter::Level(level) => event.level == level,
            BasicEventFilter::Instance(instance_key) => event.instance_key == instance_key,
            BasicEventFilter::Ancestor(span_key) => chain_of(anc, event.timestamp).contains(
                span_key,
            ),
            BasicEventFilter::Attribute(attribute, value) => resolved_value(
                event.fields,
                chain_of(anc, event.timestamp),
                spans,
                attribute@,
            ) == Some(value@),
            BasicEventFilter::And(filters) => forall|i: int|
                0 <= i < filters@.len() ==> (#[trigger] filters@[i]).spec_matches(
                    spans,
                    anc,
                    event,
                ),
            BasicEventFilter::Or(filters) => exists|i: int|
                0 <= i < filters@.len() && (#[trigger] filters@[i]).spec_matches(
                    spans,
                    anc,
                    event,
                ),
        }
    }

    /// Evaluates the filter against one event.
    #[verifier::loop_isolation(false)]
    pub fn matches(
        &self,
        spans: &HashMap<SpanKey, Span>,
        ancestors: &HashMap<Timestamp, Vec<SpanKey>>,
        event: &Event,
    ) -> (r: bool)
        ensures
            r == self.spec_matches(spans@, ancestors@, *event),
        decreases *self,
    {
        match self {
            BasicEventFilter::Level(level) => *level == event.level,
            BasicEventFilter::Instance(instance_key) => *instance_key == event.instance_key,
            BasicEventFilter::Ancestor(span_key) => match ancestors.get(&event.timestamp) {
                Some(chain) => {
                    let n = chain.len();
                    let mut i: usize = 0;
                    let mut found = false;
                    while i < n
                        invariant
                            n == chain@.len(),
                            0 <= i <= n,
                            found == exists|j: int| 0 <= j < i && chain@[j] == *span_key,
                        decreases n - i,
                    {
                        if chain[i] == *span_key {
                            found = true;
                        }
                        i = i + 1;
                    }
                    found
                },
                None => false,
            },
            BasicEventFilter::Attribute(attribute, value) => {
                let empty_chain: Vec<SpanKey> = Vec::new();
                let resolved = match ancestors.get(&event.timestamp) {
                    Some(chain) => resolve_attribute(&event.fields, chain, spans, attribute.as_str()),
                    None => resolve_attribute(&event.fields, &empty_chain, spans, attribute.as_str()),
                };
                match resolved {
                    Some(v) => v == *value,
                    None => false,
                }
            },
            BasicEventFilter::And(filters) => {
                let n = filters.len();
                let mut i: usize = 0;
                while i < n
                    invariant
                        n == filters@.len(),
                        0 <= i <= n,
                        forall|j: int|
                            0 <= j < i ==> (#[trigger] filters@[j]).spec_matches(
                                spans@,
                                ancestors@,
                                *event,
                            ),
                    decreases n - i,
                {
                    if !filters[i].matches(spans, ancestors, event) {
                        return false;
                    }
                    i = i + 1;
                }
                true
            },
            BasicEventFilter::Or(filters) => {
                let n = filters.len();
                let mut i: usize = 0;
                while i < n
                    invariant
                        n == filters@.len(),
                        0 <= i <= n,
                        forall|j: int|
                            0 <= j < i ==> !(#[trigger] filters@[j]).spec_matches(
                                spans@,
                                ancestors@,
                                *event,
                            ),
                    decreases n - i,
                {
                    if filters[i].matches(spans, ancestors, event) {
                        return true;
                    }
                    i = i + 1;
                }
                false
            },
        }
    }
}


/// The reserved inherent properties of event predicates.
pub open spec fn event_reserved(p: Seq<char>) -> bool {
    p == "level"@ || p == "instance"@ || p == "stack"@
}

fn is_event_reserved(p: &str) -> (r: bool)
    ensures
        r == event_reserved(p@),
{
    str_eq(p, "level") || str_eq(p, "instance") || str_eq(p, "stack")
}

/// The reserved inherent properties of span predicates.
pub open spec fn span_reserved(p: Seq<char>) -> bool {
    p == "level"@ || p == "instance"@ || p == "duration"@ || p == "name"@ || p == "parent"@ || p
        == "created"@ || p == "stack"@
}

fn is_span_reserved(p: &str) -> (r: bool)
    ensures
        r == span_reserved(p@),
{
    str_eq(p, "level") || str_eq(p, "instance") || str_eq(p, "duration") || str_eq(p, "name")
        || str_eq(p, "parent") || str_eq(p, "created") || str_eq(p, "stack")
}

/// The reserved inherent properties of instance predicates.
pub open spec fn instance_reserved(p: Seq<char>) -> bool {
    p == "duration"@ || p == "connected"@ || p == "disconnected"@
}

fn is_instance_reserved(p: &str) -> (r: bool)
    ensures
        r == instance_reserved(p@),
{
    str_eq(p, "duration") || str_eq(p, "connected") || str_eq(p, "disconnected")
}

/// Validation of the level predicate shared by events and spans.
pub open spec fn spec_level_check(m: PredicateModel) -> Result<(), InputError> {
    if spec_level_value(m.value) is None {
        Err(InputError::InvalidLevelValue)
    } else {
        match m.op {
            Some(FilterValueOperator::Gte) => Ok(()),
            None => Ok(()),
            _ => Err(InputError::InvalidLevelOperator),
        }
    }
}

/// Validation of the instance predicate shared by events and spans.
pub open spec fn spec_instance_check(m: PredicateModel) -> Result<(), InputError> {
    if parse_u64_spec(m.value) is None {
        Err(InputError::InvalidInstanceValue)
    } else if m.op is Some {
        Err(InputError::InvalidInstanceOperator)
    } else {
        Ok(())
    }
}

/// Validation of the stack predicate shared by events and spans.
pub open spec fn spec_stack_check(m: PredicateModel) -> Result<(), InputError> {
    if !full_span_id_ok(m.value) {
        Err(InputError::InvalidStackValue)
    } else if m.op is Some {
        Err(InputError::InvalidStackOperator)
    } else {
        Ok(())
    }
}

/// Validation of the duration predicate shared by spans and instances.
pub open spec fn spec_duration_check(m: PredicateModel) -> Result<(), InputError> {
    if parse_u64_spec(m.value) is None {
        Err(InputError::InvalidDurationValue)
    } else {
        match m.op {
            Some(FilterValueOperator::Gt) => Ok(()),
            Some(FilterValueOperator::Lt) => Ok(()),
            None => Err(InputError::MissingDurationOperator),
            _ => Err(InputError::InvalidDurationOperator),
        }
    }
}

/// Validation of the timestamp comparison predicates: `created`,
/// `connected` and `disconnected`.
pub open spec fn spec_created_check(m: PredicateModel) -> Result<(), InputError> {
    if spec_timestamp_value(m.value) is None {
        Err(InputError::InvalidCreatedValue)
    } else {
        match m.op {
            Some(_) => Ok(()),
            None => Err(InputError::MissingCreatedOperator),
        }
    }
}

/// Validation of the parent predicate of spans.
pub open spec fn spec_parent_check(m: PredicateModel) -> Result<(), InputError> {
    if m.value != "none"@ {
        Err(InputError::InvalidParentValue)
    } else if m.op is Some {
        Err(InputError::InvalidParentOperator)
    } else {
        Ok(())
    }
}

/// Validation of an attribute predicate: equality only.
pub open spec fn spec_attribute_check(m: PredicateModel) -> Result<(), InputError> {
    if m.op is Some {
        Err(InputError::InvalidAttributeOperator)
    } else {
        Ok(())
    }
}

/// What validating a predicate against the event kind yields.
pub open spec fn spec_event_validate(m: PredicateModel) -> Result<PredicateModel, InputError> {
    let kind = effective_kind(m.kind, event_reserved(m.property));
    let check = match kind {
        FilterPropertyKind::Inherent => {
            if m.property == "level"@ {
                spec_level_check(m)
            } else if m.property == "instance"@ {
                spec_instance_check(m)
            } else if m.property == "stack"@ {
                spec_stack_check(m)
            } else {
                Err(InputError::InvalidInherentProperty)
            }
        },
        FilterPropertyKind::Attribute => spec_attribute_check(m),
    };
    match check {
        Ok(u) => Ok(PredicateModel { kind: Some(kind), ..m }),
        Err(e) => Err(e),
    }
}

/// What validating a predicate against the span kind yields.
pub open spec fn spec_span_validate(m: PredicateModel) -> Result<PredicateModel, InputError> {
    let kind = effective_kind(m.kind, span_reserved(m.property));
    let check = match kind {
        FilterPropertyKind::Inherent => {
            if m.property == "level"@ {
                spec_level_check(m)
            } else if m.property == "duration"@ {
                spec_duration_check(m)
            } else if m.property == "name"@ {
                if m.op is Some {
                    Err(InputError::InvalidNameOperator)
                } else {
                    Ok(())
                }
            } else if m.property == "instance"@ {
                spec_instance_check(m)
            } else if m.property == "created"@ {
                spec_created_check(m)
            } else if m.property == "parent"@ {
                spec_parent_check(m)
            } else if m.property == "stack"@ {
                spec_stack_check(m)
            } else {
                Err(InputError::InvalidInherentProperty)
            }
        },
        FilterPropertyKind::Attribute => spec_attribute_check(m),
    };
    match check {
        Ok(u) => Ok(PredicateModel { kind: Some(kind), ..m }),
        Err(e) => Err(e),
    }
}

/// What validating a predicate against the instance kind yields.
pub open spec fn spec_instance_validate(m: PredicateModel) -> Result<PredicateModel, InputError> {
    let kind = effective_kind(m.kind, instance_reserved(m.property));
    let check = match kind {
        FilterPropertyKind::Inherent => {
            if m.property == "duration"@ {
                spec_duration_check(m)
            } else if m.property == "connected"@ {
                spec_created_check(m)
            } else if m.property == "disconnected"@ {
                spec_created_check(m)
            } else {
                Err(InputError::InvalidInherentProperty)
            }
        },
        FilterPropertyKind::Attribute => spec_attribute_check(m),
    };
    match check {
        Ok(u) => Ok(PredicateModel { kind: Some(kind), ..m }),
        Err(e) => Err(e),
    }
}

/// The timestamp comparison a validated `created`-like predicate
/// lowers to.
pub open spec fn spec_tcf_of(op: Option<FilterValueOperator>, at: Timestamp) -> TimestampComparisonFilter {
    match op {
        Some(FilterValueOperator::Gte) => TimestampComparisonFilter::Gte(at),
        Some(FilterValueOperator::Gt) => TimestampComparisonFilter::Gt(at),
        Some(FilterValueOperator::Lte) => TimestampComparisonFilter::Lte(at),
        Some(FilterValueOperator::Lt) => TimestampComparisonFilter::Lt(at),
        None => TimestampComparisonFilter::Gt(0),
    }
}

/// The duration comparison a validated `duration` predicate lowers to.
pub open spec fn spec_duration_of(op: Option<FilterValueOperator>, measure: u64) -> DurationFilter {
    match op {
        Some(FilterValueOperator::Lt) => DurationFilter::Lt(measure),
        _ => DurationFilter::Gt(measure),
    }
}

fn tcf_of(op: FilterValueOperator, at: Timestamp) -> (r: TimestampComparisonFilter)
    ensures
        r == spec_tcf_of(Some(op), at),
{
    match op {
        FilterValueOperator::Gte => TimestampComparisonFilter::Gte(at),
        FilterValueOperator::Gt => TimestampComparisonFilter::Gt(at),
        FilterValueOperator::Lte => TimestampComparisonFilter::Lte(at),
        FilterValueOperator::Lt => TimestampComparisonFilter::Lt(at),
    }
}

impl BasicEventFilter {
    /// Checks a predicate against the event kind, fixing its kind.
    pub fn validate(predicate: FilterPredicate) -> (r: Result<FilterPredicate, InputError>)
        ensures
            match r {
                Ok(p) => spec_event_validate(predicate.model()) == Ok::<
                    PredicateModel,
                    InputError,
                >(p.model()),
                Err(e) => spec_event_validate(predicate.model()) == Err::<
                    PredicateModel,
                    InputError,
                >(e),
            },
    {
        let kind = match predicate.property_kind {
            Some(k) => k,
            None => if is_event_reserved(predicate.property.as_str()) {
                FilterPropertyKind::Inherent
            } else {
                FilterPropertyKind::Attribute
            },
        };
        match kind {
            FilterPropertyKind::Inherent => {
                if str_eq(predicate.property.as_str(), "level") {
                    if level_from_value(predicate.value.as_str()).is_none() {
                        return Err(InputError::InvalidLevelValue);
                    }
                    match predicate.value_operator {
                        Some(FilterValueOperator::Gte) => {},
                        None => {},
                        _ => {
                            return Err(InputError::InvalidLevelOperator);
                        },
                    }
                } else if str_eq(predicate.property.as_str(), "instance") {
                    if parse_u64(predicate.value.as_str()).is_none() {
                        return Err(InputError::InvalidInstanceValue);
                    }
                    if predicate.value_operator.is_some() {
                        return Err(InputError::InvalidInstanceOperator);
                    }
                } else if str_eq(predicate.property.as_str(), "stack") {
                    match parse_full_span_id(predicate.value.as_str()) {
                        Some(_) => {
                            proof {
                                assert(full_span_id_ok(predicate.value@));
                            }
                        },
                        None => {
                            proof {
                                assert(!full_span_id_ok(predicate.value@));
                            }
                            return Err(InputError::InvalidStackValue);
                        },
                    }
                    if predicate.value_operator.is_some() {
                        return Err(InputError::InvalidStackOperator);
                    }
                } else {
                    return Err(InputError::InvalidInherentProperty);
                }
            },
            FilterPropertyKind::Attribute => {
                if predicate.value_operator.is_some() {
                    return Err(InputError::InvalidAttributeOperator);
                }
            },
        }
        Ok(
            FilterPredicate {
                property_kind: Some(kind),
                property: predicate.property,
                value_operator: predicate.value_operator,
                value: predicate.value,
            },
        )
    }
}


/// The event levels at or above a level, in rank order.
fn event_levels_from(level: Level) -> (v: Vec<BasicEventFilter>)
    ensures
        v@.len() == 5 - level.spec_index(),
        forall|j: int|
            0 <= j < v@.len() ==> v@[j] == BasicEventFilter::Level(
                level_of_index(level.spec_index() + j),
            ),
{
    let mut v: Vec<BasicEventFilter> = Vec::new();
    let start = level.index();
    if start <= 0 {
        v.push(BasicEventFilter::Level(Level::Trace));
    }
    if start <= 1 {
        v.push(BasicEventFilter::Level(Level::Debug));
    }
    if start <= 2 {
        v.push(BasicEventFilter::Level(Level::Info));
    }
    if start <= 3 {
        v.push(BasicEventFilter::Level(Level::Warn));
    }
    v.push(BasicEventFilter::Level(Level::Error));
    v
}

/// The exact filter a validated event predicate lowers to.
pub open spec fn event_filter_built(
    f: BasicEventFilter,
    m: PredicateModel,
    ikm: Map<InstanceId, InstanceKey>,
    skm: Map<InstanceKey, HashMap<SpanId, SpanKey>>,
) -> bool {
    let kind = effective_kind(m.kind, event_reserved(m.property));
    match kind {
        FilterPropertyKind::Inherent => {
            if m.property == "level"@ {
                let level = spec_level_value(m.value)->Some_0;
                if m.op == Some(FilterValueOperator::Gte) {
                    f matches BasicEventFilter::Or(fs) && fs@.len() == 5 - level.spec_index()
                        && (forall|j: int|
                        0 <= j < fs@.len() ==> fs@[j] == BasicEventFilter::Level(
                            level_of_index(level.spec_index() + j),
                        ))
                } else {
                    f == BasicEventFilter::Level(level)
                }
            } else if m.property == "instance"@ {
                f == BasicEventFilter::Instance(
                    spec_instance_key_of(ikm, parse_u64_spec(m.value)->Some_0),
                )
            } else if m.property == "stack"@ {
                exists|i: int, a: u64, b: u64|
                    full_span_id_split(m.value, i, a, b) && f == BasicEventFilter::Ancestor(
                        spec_span_key_of(ikm, skm, a, b),
                    )
            } else {
                false
            }
        },
        FilterPropertyKind::Attribute => f matches BasicEventFilter::Attribute(n, v) && n@
            == m.property && v@ == m.value,
    }
}

impl BasicEventFilter {
    /// Lowers a predicate to an event filter, resolving external ids to
    /// keys; an unknown id becomes the sentinel key that matches
    /// nothing. Fails exactly where validation fails.
    pub fn from_predicate(
        predicate: FilterPredicate,
        instance_key_map: &HashMap<InstanceId, InstanceKey>,
        span_key_map: &HashMap<InstanceKey, HashMap<SpanId, SpanKey>>,
    ) -> (r: Result<BasicEventFilter, InputError>)
        ensures
            match r {
                Ok(f) => spec_event_validate(predicate.model()) is Ok && event_filter_built(
                    f,
                    predicate.model(),
                    instance_key_map@,
                    span_key_map@,
                ),
                Err(e) => spec_event_validate(predicate.model()) == Err::<
                    PredicateModel,
                    InputError,
                >(e),
            },
    {
        let kind = match predicate.property_kind {
            Some(k) => k,
            None => if is_event_reserved(predicate.property.as_str()) {
                FilterPropertyKind::Inherent
            } else {
                FilterPropertyKind::Attribute
            },
        };
        match kind {
            FilterPropertyKind::Inherent => {
                if str_eq(predicate.property.as_str(), "level") {
                    let level = match level_from_value(predicate.value.as_str()) {
                        Some(level) => level,
                        None => {
                            return Err(InputError::InvalidLevelValue);
                        },
                    };
                    let above = match predicate.value_operator {
                        Some(FilterValueOperator::Gte) => true,
                        None => false,
                        _ => {
                            return Err(InputError::InvalidLevelOperator);
                        },
                    };
                    if above {
                        Ok(BasicEventFilter::Or(event_levels_from(level)))
                    } else {
                        Ok(BasicEventFilter::Level(level))
                    }
                } else if str_eq(predicate.property.as_str(), "instance") {
                    let instance_id = match parse_u64(predicate.value.as_str()) {
                        Some(id) => id,
                        None => {
                            return Err(InputError::InvalidInstanceValue);
                        },
                    };
                    if predicate.value_operator.is_some() {
                        return Err(InputError::InvalidInstanceOperator);
                    }
                    Ok(BasicEventFilter::Instance(instance_key_of(instance_key_map, instance_id)))
                } else if str_eq(predicate.property.as_str(), "stack") {
                    let (instance_id, span_id) = match parse_full_span_id(
                        predicate.value.as_str(),
                    ) {
                        Some(ids) => ids,
                        None => {
                            proof {
                                assert(!full_span_id_ok(predicate.value@));
                            }
                            return Err(InputError::InvalidStackValue);
                        },
                    };
                    proof {
                        assert(full_span_id_ok(predicate.value@));
                    }
                    if predicate.value_operator.is_some() {
                        return Err(InputError::InvalidStackOperator);
                    }
                    let key = span_key_of(instance_key_map, span_key_map, instance_id, span_id);
                    Ok(BasicEventFilter::Ancestor(key))
                } else {
                    Err(InputError::InvalidInherentProperty)
                }
            },
            FilterPropertyKind::Attribute => {
                if predicate.value_operator.is_some() {
                    return Err(InputError::InvalidAttributeOperator);
                }
                Ok(BasicEventFilter::Attribute(predicate.property, predicate.value))
            },
        }
    }

    /// Collapses one-child conjunctions and disjunctions; the filter
    /// accepts the same events afterwards.
    #[verifier::loop_isolation(false)]
    pub fn simplify(&mut self)
        ensures
            event_filter_simplified(*final(self)),
            forall|spans: Map<SpanKey, Span>, anc: Map<Timestamp, Vec<SpanKey>>, event: Event|
                (#[trigger] final(self).spec_matches(spans, anc, event)) == old(self).spec_matches(
                    spans,
                    anc,
                    event,
                ),
        decreases *old(self),
    {
        let ghost orig = *old(self);
        let replacement: Option<BasicEventFilter> = match self {
            BasicEventFilter::And(filters) => {
                let ghost old_vec = *filters;
                let ghost old_children = filters@;
                proof {
                    assert(orig == BasicEventFilter::And(old_vec));
                    assert(decreases_to!(orig => old_vec));
                }
                let n = filters.len();
                let mut i: usize = 0;
                while i < n
                    invariant
                        n == filters@.len(),
                        0 <= i <= n,
                        forall|j: int| i <= j < n ==> filters@[j] == old_children[j],
                        forall|j: int| 0 <= j < i ==> event_filter_simplified(#[trigger] filters@[j]),
                        forall|j: int, spans: Map<SpanKey, Span>, anc: Map<Timestamp, Vec<SpanKey>>, event: Event|
                            0 <= j < i ==> (#[trigger] filters@[j].spec_matches(spans, anc, event))
                                == old_children[j].spec_matches(spans, anc, event),
                    decreases n - i,
                {
                    proof {
                        assert(decreases_to!(old_vec => old_vec[i as int]));
                        assert(filters@[i as int] == old_vec[i as int]);
                    }
                    filters[i].simplify();
                    i = i + 1;
                }
                let ghost cur_vec = *filters;
                proof {
                    assert forall|spans: Map<SpanKey, Span>, anc: Map<Timestamp, Vec<SpanKey>>, event: Event|
                        (#[trigger] BasicEventFilter::And(cur_vec).spec_matches(spans, anc, event))
                            == BasicEventFilter::And(old_vec).spec_matches(spans, anc, event) by {
                        if BasicEventFilter::And(cur_vec).spec_matches(spans, anc, event) {
                            assert forall|j: int| 0 <= j < old_vec@.len() implies (
                            #[trigger] old_vec@[j]).spec_matches(spans, anc, event) by {
                                lemma_event_and_elim(cur_vec, spans, anc, event, j);
                            }
                            lemma_event_and_intro(old_vec, spans, anc, event);
                        }
                        if BasicEventFilter::And(old_vec).spec_matches(spans, anc, event) {
                            assert forall|j: int| 0 <= j < cur_vec@.len() implies (
                            #[trigger] cur_vec@[j]).spec_matches(spans, anc, event) by {
                                lemma_event_and_elim(old_vec, spans, anc, event, j);
                            }
                            lemma_event_and_intro(cur_vec, spans, anc, event);
                        }
                    }
                }
                if filters.len() == 1 {
                    let ghost pre = *filters;
                    let popped = filters.pop();
                    proof {
                        let f = popped->Some_0;
                        assert(f == pre@[0]);
                        assert(pre == cur_vec);
                        assert forall|spans: Map<SpanKey, Span>, anc: Map<Timestamp, Vec<SpanKey>>, event: Event|
                            (#[trigger] f.spec_matches(spans, anc, event)) == orig.spec_matches(
                                spans,
                                anc,
                                event,
                            ) by {
                            if f.spec_matches(spans, anc, event) {
                                assert forall|j: int| 0 <= j < pre@.len() implies (
                                #[trigger] pre@[j]).spec_matches(spans, anc, event) by {
                                    assert(pre@[j] == f);
                                }
                                lemma_event_and_intro(pre, spans, anc, event);
                            }
                            if BasicEventFilter::And(pre).spec_matches(spans, anc, event) {
                                lemma_event_and_elim(pre, spans, anc, event, 0);
                            }
                        }
                    }
                    popped
                } else {
                    None
                }
            },
            BasicEventFilter::Or(filters) => {
                let ghost old_vec = *filters;
                let ghost old_children = filters@;
                proof {
                    assert(orig == BasicEventFilter::Or(old_vec));
                    assert(decreases_to!(orig => old_vec));
                }
                let n = filters.len();
                let mut i: usize = 0;
                while i < n
                    invariant
                        n == filters@.len(),
                        0 <= i <= n,
                        forall|j: int| i <= j < n ==> filters@[j] == old_children[j],
                        forall|j: int| 0 <= j < i ==> event_filter_simplified(#[trigger] filters@[j]),
                        forall|j: int, spans: Map<SpanKey, Span>, anc: Map<Timestamp, Vec<SpanKey>>, event: Event|
                            0 <= j < i ==> (#[trigger] filters@[j].spec_matches(spans, anc, event))
                                == old_children[j].spec_matches(spans, anc, event),
                    decreases n - i,
                {
                    proof {
                        assert(decreases_to!(old_vec => old_vec[i as int]));
                        assert(filters@[i as int] == old_vec[i as int]);
                    }
                    filters[i].simplify();
                    i = i + 1;
                }
                let ghost cur_vec = *filters;
                proof {
                    assert forall|spans: Map<SpanKey, Span>, anc: Map<Timestamp, Vec<SpanKey>>, event: Event|
                        (#[trigger] BasicEventFilter::Or(cur_vec).spec_matches(spans, anc, event))
                            == BasicEventFilter::Or(old_vec).spec_matches(spans, anc, event) by {
                        if BasicEventFilter::Or(cur_vec).spec_matches(spans, anc, event) {
                            let j = lemma_event_or_elim(cur_vec, spans, anc, event);
                            assert(old_vec@[j].spec_matches(spans, anc, event));
                            lemma_event_or_intro(old_vec, spans, anc, event, j);
                        }
                        if BasicEventFilter::Or(old_vec).spec_matches(spans, anc, event) {
                            let j = lemma_event_or_elim(old_vec, spans, anc, event);
                            assert(cur_vec@[j].spec_matches(spans, anc, event));
                            lemma_event_or_intro(cur_vec, spans, anc, event, j);
                        }
                    }
                }
                if filters.len() == 1 {
                    let ghost pre = *filters;
                    let popped = filters.pop();
                    proof {
                        let f = popped->Some_0;
                        assert(f == pre@[0]);
                        assert(pre == cur_vec);
                        assert forall|spans: Map<SpanKey, Span>, anc: Map<Timestamp, Vec<SpanKey>>, event: Event|
                            (#[trigger] f.spec_matches(spans, anc, event)) == orig.spec_matches(
                                spans,
                                anc,
                                event,
                            ) by {
                            if f.spec_matches(spans, anc, event) {
                                lemma_event_or_intro(pre, spans, anc, event, 0);
                            }
                            if BasicEventFilter::Or(pre).spec_matches(spans, anc, event) {
                                let j = lemma_event_or_elim(pre, spans, anc, event);
                                assert(pre@[j] == f);
                            }
                        }
                    }
                    popped
                } else {
                    None
                }
            },
            _ => { None },
        };
        match replacement {
            Some(f) => {
                *self = f;
            },
            None => {},
        }
    }
}



/// Each conjunct of a passing conjunction passes.
pub proof fn lemma_event_and_elim(
    v: Vec<BasicEventFilter>,
    spans: Map<SpanKey, Span>,
    anc: Map<Timestamp, Vec<SpanKey>>,
    event: Event,
    j: int,
)
    requires
        BasicEventFilter::And(v).spec_matches(spans, anc, event),
        0 <= j < v@.len(),
    ensures
        v@[j].spec_matches(spans, anc, event),
{
    let f = BasicEventFilter::And(v);
    assert(f->And_0 == v);
    assert(f->And_0@[j].spec_matches(spans, anc, event));
}

/// A conjunction of passing conjuncts passes.
pub proof fn lemma_event_and_intro(
    v: Vec<BasicEventFilter>,
    spans: Map<SpanKey, Span>,
    anc: Map<Timestamp, Vec<SpanKey>>,
    event: Event,
)
    requires
        forall|k: int| 0 <= k < v@.len() ==> (#[trigger] v@[k]).spec_matches(spans, anc, event),
    ensures
        BasicEventFilter::And(v).spec_matches(spans, anc, event),
{
}

/// A passing disjunction has a passing disjunct.
pub proof fn lemma_event_or_elim(
    v: Vec<BasicEventFilter>,
    spans: Map<SpanKey, Span>,
    anc: Map<Timestamp, Vec<SpanKey>>,
    event: Event,
) -> (j: int)
    requires
        BasicEventFilter::Or(v).spec_matches(spans, anc, event),
    ensures
        0 <= j < v@.len(),
        v@[j].spec_matches(spans, anc, event),
{
    let f = BasicEventFilter::Or(v);
    assert(f->Or_0 == v);
    assert(exists|i: int|
        0 <= i < f->Or_0@.len() && (#[trigger] f->Or_0@[i]).spec_matches(spans, anc, event));
    let j = choose|i: int|
        0 <= i < v@.len() && (#[trigger] v@[i]).spec_matches(spans, anc, event);
    j
}

/// A disjunction with a passing disjunct passes.
pub proof fn lemma_event_or_intro(
    v: Vec<BasicEventFilter>,
    spans: Map<SpanKey, Span>,
    anc: Map<Timestamp, Vec<SpanKey>>,
    event: Event,
    j: int,
)
    requires
        0 <= j < v@.len(),
        v@[j].spec_matches(spans, anc, event),
    ensures
        BasicEventFilter::Or(v).spec_matches(spans, anc, event),
{
    let f = BasicEventFilter::Or(v);
    assert(f->Or_0 == v);
    assert(0 <= j < f->Or_0@.len() && f->Or_0@[j].spec_matches(spans, anc, event));
}


/// A span filter lowered to index-friendly atoms.
pub enum BasicSpanFilter {
    Level(Level),
    Duration(DurationFilter),
    Created(TimestampComparisonFilter),
    Instance(InstanceKey),
    Name(String),
    Ancestor(SpanKey),
    Root,
    Attribute(String, String),
    And(Vec<BasicSpanFilter>),
    Or(Vec<BasicSpanFilter>),
}

impl BasicSpanFilter {
    /// Whether a span passes this filter, given the span records and
    /// the ancestor chains of spans.
    pub open spec fn spec_matches(
        self,
        spans: Map<SpanKey, Span>,
        anc: Map<Timestamp, Vec<SpanKey>>,
        span: Span,
    ) -> bool
        decreases self,
    {
        match self {
            BasicSpanFilter::Level(level) => span.level == level,
            BasicSpanFilter::Duration(df) => duration_filter_matches(df, span.spec_duration()),
            BasicSpanFilter::Created(tcf) => tcf.spec_matches(span.created_at),
            BasicSpanFilter::Instance(instance_key) => span.instance_key == instance_key,
            BasicSpanFilter::Name(name) => span.name@ == name@,
            BasicSpanFilter::Ancestor(span_key) => chain_of(anc, span.created_at).contains(
                span_key,
            ),
            BasicSpanFilter::Root => span.parent_key is None,
            BasicSpanFilter::Attribute(attribute, value) => resolved_value(
                span.fields,
                chain_of(anc, span.created_at),
                spans,
                attribute@,
            ) == Some(value@),
            BasicSpanFilter::And(filters) => forall|i: int|
                0 <= i < filters@.len() ==> (#[trigger] filters@[i]).spec_matches(
                    spans,
                    anc,
                    span,
                ),
            BasicSpanFilter::Or(filters) => exists|i: int|
                0 <= i < filters@.len() && (#[trigger] filters@[i]).spec_matches(
                    spans,
                    anc,
                    span,
                ),
        }
    }

    /// Evaluates the filter against one span.
    #[verifier::loop_isolation(false)]
    pub fn matches(
        &self,
        spans: &HashMap<SpanKey, Span>,
        ancestors: &HashMap<Timestamp, Vec<SpanKey>>,
        span: &Span,
    ) -> (r: bool)
        ensures
            r == self.spec_matches(spans@, ancestors@, *span),
        decreases *self,
    {
        match self {
            BasicSpanFilter::Level(level) => *level == span.level,
            BasicSpanFilter::Duration(df) => df.matches(span.duration()),
            BasicSpanFilter::Created(tcf) => tcf.matches(span.created_at),
            BasicSpanFilter::Instance(instance_key) => *instance_key == span.instance_key,
            BasicSpanFilter::Name(name) => str_eq(span.name.as_str(), name.as_str()),
            BasicSpanFilter::Ancestor(span_key) => match ancestors.get(&span.created_at) {
                Some(chain) => {
                    let n = chain.len();
                    let mut i: usize = 0;
                    let mut found = false;
                    while i < n
                        invariant
                            n == chain@.len(),
                            0 <= i <= n,
                            found == exists|j: int| 0 <= j < i && chain@[j] == *span_key,
                        decreases n - i,
                    {
                        if chain[i] == *span_key {
                            found = true;
                        }
                        i = i + 1;
                    }
                    found
                },
                None => false,
            },
            BasicSpanFilter::Root => match span.parent_key {
                Some(_) => false,
                None => true,
            },
            BasicSpanFilter::Attribute(attribute, value) => {
                let empty_chain: Vec<SpanKey> = Vec::new();
                let resolved = match ancestors.get(&span.created_at) {
                    Some(chain) => resolve_attribute(&span.fields, chain, spans, attribute.as_str()),
                    None => resolve_attribute(&span.fields, &empty_chain, spans, attribute.as_str()),
                };
                match resolved {
                    Some(v) => v == *value,
                    None => false,
                }
            },
            BasicSpanFilter::And(filters) => {
                let n = filters.len();
                let mut i: usize = 0;
                while i < n
                    invariant
                        n == filters@.len(),
                        0 <= i <= n,
                        forall|j: int|
                            0 <= j < i ==> (#[trigger] filters@[j]).spec_matches(
                                spans@,
                                ancestors@,
                                *span,
                            ),
                    decreases n - i,
                {
                    if !filters[i].matches(spans, ancestors, span) {
                        return false;
                    }
                    i = i + 1;
                }
                true
            },
            BasicSpanFilter::Or(filters) => {
                let n = filters.len();
                let mut i: usize = 0;
                while i < n
                    invariant
                        n == filters@.len(),
                        0 <= i <= n,
                        forall|j: int|
                            0 <= j < i ==> !(#[trigger] filters@[j]).spec_matches(
                                spans@,
                                ancestors@,
                                *span,
                            ),
                    decreases n - i,
                {
                    if filters[i].matches(spans, ancestors, span) {
                        return true;
                    }
                    i = i + 1;
                }
                false
            },
        }
    }
}

/// Each conjunct of a passing conjunction passes.
pub proof fn lemma_span_and_elim(
    v: Vec<BasicSpanFilter>,
    spans: Map<SpanKey, Span>,
    anc: Map<Timestamp, Vec<SpanKey>>,
    span: Span,
    j: int,
)
    requires
        BasicSpanFilter::And(v).spec_matches(spans, anc, span),
        0 <= j < v@.len(),
    ensures
        v@[j].spec_matches(spans, anc, span),
{
    let f = BasicSpanFilter::And(v);
    assert(f->And_0 == v);
    assert(f->And_0@[j].spec_matches(spans, anc, span));
}

/// A conjunction of passing conjuncts passes.
pub proof fn lemma_span_and_intro(
    v: Vec<BasicSpanFilter>,
    spans: Map<SpanKey, Span>,
    anc: Map<Timestamp, Vec<SpanKey>>,
    span: Span,
)
    requires
        forall|k: int| 0 <= k < v@.len() ==> (#[trigger] v@[k]).spec_matches(spans, anc, span),
    ensures
        BasicSpanFilter::And(v).spec_matches(spans, anc, span),
{
}

/// A passing disjunction has a passing disjunct.
pub proof fn lemma_span_or_elim(
    v: Vec<BasicSpanFilter>,
    spans: Map<SpanKey, Span>,
    anc: Map<Timestamp, Vec<SpanKey>>,
    span: Span,
) -> (j: int)
    requires
        BasicSpanFilter::Or(v).spec_matches(spans, anc, span),
    ensures
        0 <= j < v@.len(),
        v@[j].spec_matches(spans, anc, span),
{
    let f = BasicSpanFilter::Or(v);
    assert(f->Or_0 == v);
    assert(exists|i: int|
        0 <= i < f->Or_0@.len() && (#[trigger] f->Or_0@[i]).spec_matches(spans, anc, span));
    let j = choose|i: int|
        0 <= i < v@.len() && (#[trigger] v@[i]).spec_matches(spans, anc, span);
    j
}

/// A disjunction with a passing disjunct passes.
pub proof fn lemma_span_or_intro(
    v: Vec<BasicSpanFilter>,
    spans: Map<SpanKey, Span>,
    anc: Map<Timestamp, Vec<SpanKey>>,
    span: Span,
    j: int,
)
    requires
        0 <= j < v@.len(),
        v@[j].spec_matches(spans, anc, span),
    ensures
        BasicSpanFilter::Or(v).spec_matches(spans, anc, span),
{
    let f = BasicSpanFilter::Or(v);
    assert(f->Or_0 == v);
    assert(0 <= j < f->Or_0@.len() && f->Or_0@[j].spec_matches(spans, anc, span));
}

/// The span levels at or above a level, in rank order.
fn span_levels_from(level: Level) -> (v: Vec<BasicSpanFilter>)
    ensures
        v@.len() == 5 - level.spec_index(),
        forall|j: int|
            0 <= j < v@.len() ==> v@[j] == BasicSpanFilter::Level(
                level_of_index(level.spec_index() + j),
            ),
{
    let mut v: Vec<BasicSpanFilter> = Vec::new();
    let start = level.index();
    if start <= 0 {
        v.push(BasicSpanFilter::Level(Level::Trace));
    }
    if start <= 1 {
        v.push(BasicSpanFilter::Level(Level::Debug));
    }
    if start <= 2 {
        v.push(BasicSpanFilter::Level(Level::Info));
    }
    if start <= 3 {
        v.push(BasicSpanFilter::Level(Level::Warn));
    }
    v.push(BasicSpanFilter::Level(Level::Error));
    v
}

/// The exact filter a validated span predicate lowers to.
pub open spec fn span_filter_built(
    f: BasicSpanFilter,
    m: PredicateModel,
    ikm: Map<InstanceId, InstanceKey>,
    skm: Map<InstanceKey, HashMap<SpanId, SpanKey>>,
) -> bool {
    let kind = effective_kind(m.kind, span_reserved(m.property));
    match kind {
        FilterPropertyKind::Inherent => {
            if m.property == "level"@ {
                let level = spec_level_value(m.value)->Some_0;
                if m.op == Some(FilterValueOperator::Gte) {
                    f matches BasicSpanFilter::Or(fs) && fs@.len() == 5 - level.spec_index()
                        && (forall|j: int|
                        0 <= j < fs@.len() ==> fs@[j] == BasicSpanFilter::Level(
                            level_of_index(level.spec_index() + j),
                        ))
                } else {
                    f == BasicSpanFilter::Level(level)
                }
            } else if m.property == "duration"@ {
                f == BasicSpanFilter::Duration(
                    spec_duration_of(m.op, parse_u64_spec(m.value)->Some_0),
                )
            } else if m.property == "name"@ {
                f matches BasicSpanFilter::Name(n) && n@ == m.value
            } else if m.property == "instance"@ {
                f == BasicSpanFilter::Instance(
                    spec_instance_key_of(ikm, parse_u64_spec(m.value)->Some_0),
                )
            } else if m.property == "created"@ {
                f == BasicSpanFilter::Created(
                    spec_tcf_of(m.op, spec_timestamp_value(m.value)->Some_0),
                )
            } else if m.property == "parent"@ {
                f == BasicSpanFilter::Root
            } else if m.property == "stack"@ {
                exists|i: int, a: u64, b: u64|
                    full_span_id_split(m.value, i, a, b) && f == BasicSpanFilter::Ancestor(
                        spec_span_key_of(ikm, skm, a, b),
                    )
            } else {
                false
            }
        },
        FilterPropertyKind::Attribute => f matches BasicSpanFilter::Attribute(n, v) && n@
            == m.property && v@ == m.value,
    }
}

impl BasicSpanFilter {
    /// Checks a predicate against the span kind, fixing its kind.
    pub fn validate(predicate: FilterPredicate) -> (r: Result<FilterPredicate, InputError>)
        ensures
            match r {
                Ok(p) => spec_span_validate(predicate.model()) == Ok::<
                    PredicateModel,
                    InputError,
                >(p.model()),
                Err(e) => spec_span_validate(predicate.model()) == Err::<
                    PredicateModel,
                    InputError,
                >(e),
            },
    {
        let kind = match predicate.property_kind {
            Some(k) => k,
            None => if is_span_reserved(predicate.property.as_str()) {
                FilterPropertyKind::Inherent
            } else {
                FilterPropertyKind::Attribute
            },
        };
        match kind {
            FilterPropertyKind::Inherent => {
                if str_eq(predicate.property.as_str(), "level") {
                    if level_from_value(predicate.value.as_str()).is_none() {
                        return Err(InputError::InvalidLevelValue);
                    }
                    match predicate.value_operator {
                        Some(FilterValueOperator::Gte) => {},
                        None => {},
                        _ => {
                            return Err(InputError::InvalidLevelOperator);
                        },
                    }
                } else if str_eq(predicate.property.as_str(), "duration") {
                    if parse_u64(predicate.value.as_str()).is_none() {
                        return Err(InputError::InvalidDurationValue);
                    }
                    match predicate.value_operator {
                        Some(FilterValueOperator::Gt) => {},
                        Some(FilterValueOperator::Lt) => {},
                        None => {
                            return Err(InputError::MissingDurationOperator);
                        },
                        _ => {
                            return Err(InputError::InvalidDurationOperator);
                        },
                    }
                } else if str_eq(predicate.property.as_str(), "name") {
                    if predicate.value_operator.is_some() {
                        return Err(InputError::InvalidNameOperator);
                    }
                } else if str_eq(predicate.property.as_str(), "instance") {
                    if parse_u64(predicate.value.as_str()).is_none() {
                        return Err(InputError::InvalidInstanceValue);
                    }
                    if predicate.value_operator.is_some() {
                        return Err(InputError::InvalidInstanceOperator);
                    }
                } else if str_eq(predicate.property.as_str(), "created") {
                    if timestamp_from_value(predicate.value.as_str()).is_none() {
                        return Err(InputError::InvalidCreatedValue);
                    }
                    if predicate.value_operator.is_none() {
                        return Err(InputError::MissingCreatedOperator);
                    }
                } else if str_eq(predicate.property.as_str(), "parent") {
                    if !str_eq(predicate.value.as_str(), "none") {
                        return Err(InputError::InvalidParentValue);
                    }
                    if predicate.value_operator.is_some() {
                        return Err(InputError::InvalidParentOperator);
                    }
                } else if str_eq(predicate.property.as_str(), "stack") {
                    match parse_full_span_id(predicate.value.as_str()) {
                        Some(_) => {
                            proof {
                                assert(full_span_id_ok(predicate.value@));
                            }
                        },
                        None => {
                            proof {
                                assert(!full_span_id_ok(predicate.value@));
                            }
                            return Err(InputError::InvalidStackValue);
                        },
                    }
                    if predicate.value_operator.is_some() {
                        return Err(InputError::InvalidStackOperator);
                    }
                } else {
                    return Err(InputError::InvalidInherentProperty);
                }
            },
            FilterPropertyKind::Attribute => {
                if predicate.value_operator.is_some() {
                    return Err(InputError::InvalidAttributeOperator);
                }
            },
        }
        Ok(
            FilterPredicate {
                property_kind: Some(kind),
                property: predicate.property,
                value_operator: predicate.value_operator,
                value: predicate.value,
            },
        )
    }

    /// Lowers a predicate to a span filter, resolving external ids to
    /// keys; an unknown id becomes the sentinel key that matches
    /// nothing. Fails exactly where validation fails.
    pub fn from_predicate(
        predicate: FilterPredicate,
        instance_key_map: &HashMap<InstanceId, InstanceKey>,
        span_key_map: &HashMap<InstanceKey, HashMap<SpanId, SpanKey>>,
    ) -> (r: Result<BasicSpanFilter, InputError>)
        ensures
            match r {
                Ok(f) => spec_span_validate(predicate.model()) is Ok && span_filter_built(
                    f,
                    predicate.model(),
                    instance_key_map@,
                    span_key_map@,
                ),
                Err(e) => spec_span_validate(predicate.model()) == Err::<
                    PredicateModel,
                    InputError,
                >(e),
            },
    {
        let kind = match predicate.property_kind {
            Some(k) => k,
            None => if is_span_reserved(predicate.property.as_str()) {
                FilterPropertyKind::Inherent
            } else {
                FilterPropertyKind::Attribute
            },
        };
        match kind {
            FilterPropertyKind::Inherent => {
                if str_eq(predicate.property.as_str(), "level") {
                    let level = match level_from_value(predicate.value.as_str()) {
                        Some(level) => level,
                        None => {
                            return Err(InputError::InvalidLevelValue);
                        },
                    };
                    let above = match predicate.value_operator {
                        Some(FilterValueOperator::Gte) => true,
                        None => false,
                        _ => {
                            return Err(InputError::InvalidLevelOperator);
                        },
                    };
                    if above {
                        Ok(BasicSpanFilter::Or(span_levels_from(level)))
                    } else {
                        Ok(BasicSpanFilter::Level(level))
                    }
                } else if str_eq(predicate.property.as_str(), "duration") {
                    let measure = match parse_u64(predicate.value.as_str()) {
                        Some(measure) => measure,
                        None => {
                            return Err(InputError::InvalidDurationValue);
                        },
                    };
                    let filter = match predicate.value_operator {
                        Some(FilterValueOperator::Gt) => DurationFilter::Gt(measure),
                        Some(FilterValueOperator::Lt) => DurationFilter::Lt(measure),
                        None => {
                            return Err(InputError::MissingDurationOperator);
                        },
                        _ => {
                            return Err(InputError::InvalidDurationOperator);
                        },
                    };
                    Ok(BasicSpanFilter::Duration(filter))
                } else if str_eq(predicate.property.as_str(), "name") {
                    if predicate.value_operator.is_some() {
                        return Err(InputError::InvalidNameOperator);
                    }
                    Ok(BasicSpanFilter::Name(predicate.value))
                } else if str_eq(predicate.property.as_str(), "instance") {
                    let instance_id = match parse_u64(predicate.value.as_str()) {
                        Some(id) => id,
                        None => {
                            return Err(InputError::InvalidInstanceValue);
                        },
                    };
                    if predicate.value_operator.is_some() {
                        return Err(InputError::InvalidInstanceOperator);
                    }
                    Ok(BasicSpanFilter::Instance(instance_key_of(instance_key_map, instance_id)))
                } else if str_eq(predicate.property.as_str(), "created") {
                    let at = match timestamp_from_value(predicate.value.as_str()) {
                        Some(at) => at,
                        None => {
                            return Err(InputError::InvalidCreatedValue);
                        },
                    };
                    let op = match predicate.value_operator {
                        Some(op) => op,
                        None => {
                            return Err(InputError::MissingCreatedOperator);
                        },
                    };
                    Ok(BasicSpanFilter::Created(tcf_of(op, at)))
                } else if str_eq(predicate.property.as_str(), "parent") {
                    if !str_eq(predicate.value.as_str(), "none") {
                        return Err(InputError::InvalidParentValue);
                    }
                    if predicate.value_operator.is_some() {
                        return Err(InputError::InvalidParentOperator);
                    }
                    Ok(BasicSpanFilter::Root)
                } else if str_eq(predicate.property.as_str(), "stack") {
                    let (instance_id, span_id) = match parse_full_span_id(
                        predicate.value.as_str(),
                    ) {
                        Some(ids) => ids,
                        None => {
                            proof {
                                assert(!full_span_id_ok(predicate.value@));
                            }
                            return Err(InputError::InvalidStackValue);
                        },
                    };
                    proof {
                        assert(full_span_id_ok(predicate.value@));
                    }
                    if predicate.value_operator.is_some() {
                        return Err(InputError::InvalidStackOperator);
                    }
                    let key = span_key_of(instance_key_map, span_key_map, instance_id, span_id);
                    Ok(BasicSpanFilter::Ancestor(key))
                } else {
                    Err(InputError::InvalidInherentProperty)
                }
            },
            FilterPropertyKind::Attribute => {
                if predicate.value_operator.is_some() {
                    return Err(InputError::InvalidAttributeOperator);
                }
                Ok(BasicSpanFilter::Attribute(predicate.property, predicate.value))
            },
        }
    }

    /// Collapses one-child conjunctions and disjunctions; the filter
    /// accepts the same spans afterwards.
    #[verifier::loop_isolation(false)]
    pub fn simplify(&mut self)
        ensures
            span_filter_simplified(*final(self)),
            forall|spans: Map<SpanKey, Span>, anc: Map<Timestamp, Vec<SpanKey>>, span: Span|
                (#[trigger] final(self).spec_matches(spans, anc, span)) == old(self).spec_matches(
                    spans,
                    anc,
                    span,
                ),
        decreases *old(self),
    {
        let ghost orig = *old(self);
        let replacement: Option<BasicSpanFilter> = match self {
            BasicSpanFilter::And(filters) => {
                let ghost old_vec = *filters;
                let ghost old_children = filters@;
                proof {
                    assert(orig == BasicSpanFilter::And(old_vec));
                    assert(decreases_to!(orig => old_vec));
                }
                let n = filters.len();
                let mut i: usize = 0;
                while i < n
                    invariant
                        n == filters@.len(),
                        0 <= i <= n,
                        forall|j: int| i <= j < n ==> filters@[j] == old_children[j],
                        forall|j: int| 0 <= j < i ==> span_filter_simplified(#[trigger] filters@[j]),
                        forall|j: int, spans: Map<SpanKey, Span>, anc: Map<Timestamp, Vec<SpanKey>>, span: Span|
                            0 <= j < i ==> (#[trigger] filters@[j].spec_matches(spans, anc, span))
                                == old_children[j].spec_matches(spans, anc, span),
                    decreases n - i,
                {
                    proof {
                        assert(decreases_to!(old_vec => old_vec[i as int]));
                        assert(filters@[i as int] == old_vec[i as int]);
                    }
                    filters[i].simplify();
                    i = i + 1;
                }
                let ghost cur_vec = *filters;
                proof {
                    assert forall|spans: Map<SpanKey, Span>, anc: Map<Timestamp, Vec<SpanKey>>, span: Span|
                        (#[trigger] BasicSpanFilter::And(cur_vec).spec_matches(spans, anc, span))
                            == BasicSpanFilter::And(old_vec).spec_matches(spans, anc, span) by {
                        if BasicSpanFilter::And(cur_vec).spec_matches(spans, anc, span) {
                            assert forall|j: int| 0 <= j < old_vec@.len() implies (
                            #[trigger] old_vec@[j]).spec_matches(spans, anc, span) by {
                                lemma_span_and_elim(cur_vec, spans, anc, span, j);
                            }
                            lemma_span_and_intro(old_vec, spans, anc, span);
                        }
                        if BasicSpanFilter::And(old_vec).spec_matches(spans, anc, span) {
                            assert forall|j: int| 0 <= j < cur_vec@.len() implies (
                            #[trigger] cur_vec@[j]).spec_matches(spans, anc, span) by {
                                lemma_span_and_elim(old_vec, spans, anc, span, j);
                            }
                            lemma_span_and_intro(cur_vec, spans, anc, span);
                        }
                    }
                }
                if filters.len() == 1 {
                    let ghost pre = *filters;
                    let popped = filters.pop();
                    proof {
                        let f = popped->Some_0;
                        assert(f == pre@[0]);
                        assert(pre == cur_vec);
                        assert forall|spans: Map<SpanKey, Span>, anc: Map<Timestamp, Vec<SpanKey>>, span: Span|
                            (#[trigger] f.spec_matches(spans, anc, span)) == orig.spec_matches(
                                spans,
                                anc,
                                span,
                            ) by {
                            if f.spec_matches(spans, anc, span) {
                                assert forall|j: int| 0 <= j < pre@.len() implies (
                                #[trigger] pre@[j]).spec_matches(spans, anc, span) by {
                                    assert(pre@[j] == f);
                                }
                                lemma_span_and_intro(pre, spans, anc, span);
                            }
                            if BasicSpanFilter::And(pre).spec_matches(spans, anc, span) {
                                lemma_span_and_elim(pre, spans, anc, span, 0);
                            }
                        }
                    }
                    popped
                } else {
                    None
                }
            },
            BasicSpanFilter::Or(filters) => {
                let ghost old_vec = *filters;
                let ghost old_children = filters@;
                proof {
                    assert(orig == BasicSpanFilter::Or(old_vec));
                    assert(decreases_to!(orig => old_vec));
                }
                let n = filters.len();
                let mut i: usize = 0;
                while i < n
                    invariant
                        n == filters@.len(),
                        0 <= i <= n,
                        forall|j: int| i <= j < n ==> filters@[j] == old_children[j],
                        forall|j: int| 0 <= j < i ==> span_filter_simplified(#[trigger] filters@[j]),
                        forall|j: int, spans: Map<SpanKey, Span>, anc: Map<Timestamp, Vec<SpanKey>>, span: Span|
                            0 <= j < i ==> (#[trigger] filters@[j].spec_matches(spans, anc, span))
                                == old_children[j].spec_matches(spans, anc, span),
                    decreases n - i,
                {
                    proof {
                        assert(decreases_to!(old_vec => old_vec[i as int]));
                        assert(filters@[i as int] == old_vec[i as int]);
                    }
                    filters[i].simplify();
                    i = i + 1;
                }
                let ghost cur_vec = *filters;
                proof {
                    assert forall|spans: Map<SpanKey, Span>, anc: Map<Timestamp, Vec<SpanKey>>, span: Span|
                        (#[trigger] BasicSpanFilter::Or(cur_vec).spec_matches(spans, anc, span))
                            == BasicSpanFilter::Or(old_vec).spec_matches(spans, anc, span) by {
                        if BasicSpanFilter::Or(cur_vec).spec_matches(spans, anc, span) {
                            let j = lemma_span_or_elim(cur_vec, spans, anc, span);
                            assert(old_vec@[j].spec_matches(spans, anc, span));
                            lemma_span_or_intro(old_vec, spans, anc, span, j);
                        }
                        if BasicSpanFilter::Or(old_vec).spec_matches(spans, anc, span) {
                            let j = lemma_span_or_elim(old_vec, spans, anc, span);
                            assert(cur_vec@[j].spec_matches(spans, anc, span));
                            lemma_span_or_intro(cur_vec, spans, anc, span, j);
                        }
                    }
                }
                if filters.len() == 1 {
                    let ghost pre = *filters;
                    let popped = filters.pop();
                    proof {
                        let f = popped->Some_0;
                        assert(f == pre@[0]);
                        assert(pre == cur_vec);
                        assert forall|spans: Map<SpanKey, Span>, anc: Map<Timestamp, Vec<SpanKey>>, span: Span|
                            (#[trigger] f.spec_matches(spans, anc, span)) == orig.spec_matches(
                                spans,
                                anc,
                                span,
                            ) by {
                            if f.spec_matches(spans, anc, span) {
                                lemma_span_or_intro(pre, spans, anc, span, 0);
                            }
                            if BasicSpanFilter::Or(pre).spec_matches(spans, anc, span) {
                                let j = lemma_span_or_elim(pre, spans, anc, span);
                                assert(pre@[j] == f);
                            }
                        }
                    }
                    popped
                } else {
                    None
                }
            },
            _ => { None },
        };
        match replacement {
            Some(f) => {
                *self = f;
            },
            None => {},
        }
    }
}


/// An instance filter; instances are scanned directly, without an
/// indexed plan.
pub enum BasicInstanceFilter {
    Duration(DurationFilter),
    Connected(TimestampComparisonFilter),
    Disconnected(TimestampComparisonFilter),
    Attribute(String, String),
    And(Vec<BasicInstanceFilter>),
    Or(Vec<BasicInstanceFilter>),
}

impl BasicInstanceFilter {
    /// Whether an instance passes this filter.
    pub open spec fn spec_matches(self, instance: Instance) -> bool
        decreases self,
    {
        match self {
            BasicInstanceFilter::Duration(df) => instance_duration_matches(
                df,
                instance.spec_duration(),
            ),
            BasicInstanceFilter::Connected(tcf) => tcf.spec_matches(instance.connected_at),
            BasicInstanceFilter::Disconnected(tcf) => match instance.disconnected_at {
                Some(d) => tcf.spec_matches(d),
                None => false,
            },
            BasicInstanceFilter::Attribute(attribute, value) => instance.fields.spec_get(
                attribute@,
            ) == Some(value@),
            BasicInstanceFilter::And(filters) => forall|i: int|
                0 <= i < filters@.len() ==> (#[trigger] filters@[i]).spec_matches(instance),
            BasicInstanceFilter::Or(filters) => exists|i: int|
                0 <= i < filters@.len() && (#[trigger] filters@[i]).spec_matches(instance),
        }
    }

    /// Evaluates the filter against one instance.
    #[verifier::loop_isolation(false)]
    pub fn matches(&self, instance: &Instance) -> (r: bool)
        ensures
            r == self.spec_matches(*instance),
        decreases *self,
    {
        match self {
            BasicInstanceFilter::Duration(df) => df.matches_lifetime(instance.duration()),
            BasicInstanceFilter::Connected(tcf) => tcf.matches(instance.connected_at),
            BasicInstanceFilter::Disconnected(tcf) => match instance.disconnected_at {
                Some(d) => tcf.matches(d),
                None => false,
            },
            BasicInstanceFilter::Attribute(attribute, value) => {
                match instance.fields.get(attribute.as_str()) {
                    Some(v) => str_eq(v.as_str(), value.as_str()),
                    None => false,
                }
            },
            BasicInstanceFilter::And(filters) => {
                let n = filters.len();
                let mut i: usize = 0;
                while i < n
                    invariant
                        n == filters@.len(),
                        0 <= i <= n,
                        forall|j: int|
                            0 <= j < i ==> (#[trigger] filters@[j]).spec_matches(*instance),
                    decreases n - i,
                {
                    if !filters[i].matches(instance) {
                        return false;
                    }
                    i = i + 1;
                }
                true
            },
            BasicInstanceFilter::Or(filters) => {
                let n = filters.len();
                let mut i: usize = 0;
                while i < n
                    invariant
                        n == filters@.len(),
                        0 <= i <= n,
                        forall|j: int|
                            0 <= j < i ==> !(#[trigger] filters@[j]).spec_matches(*instance),
                    decreases n - i,
                {
                    if filters[i].matches(instance) {
                        return true;
                    }
                    i = i + 1;
                }
                false
            },
        }
    }

    /// Checks a predicate against the instance kind, fixing its kind.
    pub fn validate(predicate: FilterPredicate) -> (r: Result<FilterPredicate, InputError>)
        ensures
            match r {
                Ok(p) => spec_instance_validate(predicate.model()) == Ok::<
                    PredicateModel,
                    InputError,
                >(p.model()),
                Err(e) => spec_instance_validate(predicate.model()) == Err::<
                    PredicateModel,
                    InputError,
                >(e),
            },
    {
        let kind = match predicate.property_kind {
            Some(k) => k,
            None => if is_instance_reserved(predicate.property.as_str()) {
                FilterPropertyKind::Inherent
            } else {
                FilterPropertyKind::Attribute
            },
        };
        match kind {
            FilterPropertyKind::Inherent => {
                if str_eq(predicate.property.as_str(), "duration") {
                    if parse_u64(predicate.value.as_str()).is_none() {
                        return Err(InputError::InvalidDurationValue);
                    }
                    match predicate.value_operator {
                        Some(FilterValueOperator::Gt) => {},
                        Some(FilterValueOperator::Lt) => {},
                        None => {
                            return Err(InputError::MissingDurationOperator);
                        },
                        _ => {
                            return Err(InputError::InvalidDurationOperator);
                        },
                    }
                } else if str_eq(predicate.property.as_str(), "connected") || str_eq(
                    predicate.property.as_str(),
                    "disconnected",
                ) {
                    if timestamp_from_value(predicate.value.as_str()).is_none() {
                        return Err(InputError::InvalidCreatedValue);
                    }
                    if predicate.value_operator.is_none() {
                        return Err(InputError::MissingCreatedOperator);
                    }
                } else {
                    return Err(InputError::InvalidInherentProperty);
                }
            },
            FilterPropertyKind::Attribute => {
                if predicate.value_operator.is_some() {
                    return Err(InputError::InvalidAttributeOperator);
                }
            },
        }
        Ok(
            FilterPredicate {
                property_kind: Some(kind),
                property: predicate.property,
                value_operator: predicate.value_operator,
                value: predicate.value,
            },
        )
    }

    /// Collapses one-child conjunctions and disjunctions; the filter
    /// accepts the same instances afterwards.
    #[verifier::loop_isolation(false)]
    pub fn simplify(&mut self)
        ensures
            instance_filter_simplified(*final(self)),
            forall|instance: Instance|
                (#[trigger] final(self).spec_matches(instance)) == old(self).spec_matches(instance),
        decreases *old(self),
    {
        let ghost orig = *old(self);
        let replacement: Option<BasicInstanceFilter> = match self {
            BasicInstanceFilter::And(filters) => {
                let ghost old_vec = *filters;
                let ghost old_children = filters@;
                proof {
                    assert(orig == BasicInstanceFilter::And(old_vec));
                    assert(decreases_to!(orig => old_vec));
                }
                let n = filters.len();
                let mut i: usize = 0;
                while i < n
                    invariant
                        n == filters@.len(),
                        0 <= i <= n,
                        forall|j: int| i <= j < n ==> filters@[j] == old_children[j],
                        forall|j: int| 0 <= j < i ==> instance_filter_simplified(#[trigger] filters@[j]),
                        forall|j: int, instance: Instance|
                            0 <= j < i ==> (#[trigger] filters@[j].spec_matches(instance))
                                == old_children[j].spec_matches(instance),
                    decreases n - i,
                {
                    proof {
                        assert(decreases_to!(old_vec => old_vec[i as int]));
                        assert(filters@[i as int] == old_vec[i as int]);
                    }
                    filters[i].simplify();
                    i = i + 1;
                }
                let ghost cur_vec = *filters;
                proof {
                    assert forall|instance: Instance|
                        (#[trigger] BasicInstanceFilter::And(cur_vec).spec_matches(instance))
                            == BasicInstanceFilter::And(old_vec).spec_matches(instance) by {
                        if BasicInstanceFilter::And(cur_vec).spec_matches(instance) {
                            assert forall|j: int| 0 <= j < old_vec@.len() implies (
                            #[trigger] old_vec@[j]).spec_matches(instance) by {
                                lemma_instance_and_elim(cur_vec, instance, j);
                            }
                            lemma_instance_and_intro(old_vec, instance);
                        }
                        if BasicInstanceFilter::And(old_vec).spec_matches(instance) {
                            assert forall|j: int| 0 <= j < cur_vec@.len() implies (
                            #[trigger] cur_vec@[j]).spec_matches(instance) by {
                                lemma_instance_and_elim(old_vec, instance, j);
                            }
                            lemma_instance_and_intro(cur_vec, instance);
                        }
                    }
                }
                if filters.len() == 1 {
                    let ghost pre = *filters;
                    let popped = filters.pop();
                    proof {
                        let f = popped->Some_0;
                        assert(f == pre@[0]);
                        assert(pre == cur_vec);
                        assert forall|instance: Instance|
                            (#[trigger] f.spec_matches(instance)) == orig.spec_matches(
                                instance,
                            ) by {
                            if f.spec_matches(instance) {
                                assert forall|j: int| 0 <= j < pre@.len() implies (
                                #[trigger] pre@[j]).spec_matches(instance) by {
                                    assert(pre@[j] == f);
                                }
                                lemma_instance_and_intro(pre, instance);
                            }
                            if BasicInstanceFilter::And(pre).spec_matches(instance) {
                                lemma_instance_and_elim(pre, instance, 0);
                            }
                        }
                    }
                    popped
                } else {
                    None
                }
            },
            BasicInstanceFilter::Or(filters) => {
                let ghost old_vec = *filters;
                let ghost old_children = filters@;
                proof {
                    assert(orig == BasicInstanceFilter::Or(old_vec));
                    assert(decreases_to!(orig => old_vec));
                }
                let n = filters.len();
                let mut i: usize = 0;
                while i < n
                    invariant
                        n == filters@.len(),
                        0 <= i <= n,
                        forall|j: int| i <= j < n ==> filters@[j] == old_children[j],
                        forall|j: int| 0 <= j < i ==> instance_filter_simplified(#[trigger] filters@[j]),
                        forall|j: int, instance: Instance|
                            0 <= j < i ==> (#[trigger] filters@[j].spec_matches(instance))
                                == old_children[j].spec_matches(instance),
                    decreases n - i,
                {
                    proof {
                        assert(decreases_to!(old_vec => old_vec[i as int]));
                        assert(filters@[i as int] == old_vec[i as int]);
                    }
                    filters[i].simplify();
                    i = i + 1;
                }
                let ghost cur_vec = *filters;
                proof {
                    assert forall|instance: Instance|
                        (#[trigger] BasicInstanceFilter::Or(cur_vec).spec_matches(instance))
                            == BasicInstanceFilter::Or(old_vec).spec_matches(instance) by {
                        if BasicInstanceFilter::Or(cur_vec).spec_matches(instance) {
                            let j = lemma_instance_or_elim(cur_vec, instance);
                            assert(old_vec@[j].spec_matches(instance));
                            lemma_instance_or_intro(old_vec, instance, j);
                        }
                        if BasicInstanceFilter::Or(old_vec).spec_matches(instance) {
                            let j = lemma_instance_or_elim(old_vec, instance);
                            assert(cur_vec@[j].spec_matches(instance));
                            lemma_instance_or_intro(cur_vec, instance, j);
                        }
                    }
                }
                if filters.len() == 1 {
                    let ghost pre = *filters;
                    let popped = filters.pop();
                    proof {
                        let f = popped->Some_0;
                        assert(f == pre@[0]);
                        assert(pre == cur_vec);
                        assert forall|instance: Instance|
                            (#[trigger] f.spec_matches(instance)) == orig.spec_matches(
                                instance,
                            ) by {
                            if f.spec_matches(instance) {
                                lemma_instance_or_intro(pre, instance, 0);
                            }
                            if BasicInstanceFilter::Or(pre).spec_matches(instance) {
                                let j = lemma_instance_or_elim(pre, instance);
                                assert(pre@[j] == f);
                            }
                        }
                    }
                    popped
                } else {
                    None
                }
            },
            _ => { None },
        };
        match replacement {
            Some(f) => {
                *self = f;
            },
            None => {},
        }
    }
}

/// The exact filter a validated instance predicate lowers to.
pub open spec fn instance_filter_built(f: BasicInstanceFilter, m: PredicateModel) -> bool {
    let kind = effective_kind(m.kind, instance_reserved(m.property));
    match kind {
        FilterPropertyKind::Inherent => {
            if m.property == "duration"@ {
                f == BasicInstanceFilter::Duration(
                    spec_duration_of(m.op, parse_u64_spec(m.value)->Some_0),
                )
            } else if m.property == "connected"@ {
                f == BasicInstanceFilter::Connected(
                    spec_tcf_of(m.op, spec_timestamp_value(m.value)->Some_0),
                )
            } else if m.property == "disconnected"@ {
                f == BasicInstanceFilter::Disconnected(
                    spec_tcf_of(m.op, spec_timestamp_value(m.value)->Some_0),
                )
            } else {
                false
            }
        },
        FilterPropertyKind::Attribute => f matches BasicInstanceFilter::Attribute(n, v) && n@
            == m.property && v@ == m.value,
    }
}

impl BasicInstanceFilter {
    /// Lowers a predicate to an instance filter. Fails exactly where
    /// validation fails.
    pub fn from_predicate(predicate: FilterPredicate) -> (r: Result<
        BasicInstanceFilter,
        InputError,
    >)
        ensures
            match r {
                Ok(f) => spec_instance_validate(predicate.model()) is Ok && instance_filter_built(
                    f,
                    predicate.model(),
                ),
                Err(e) => spec_instance_validate(predicate.model()) == Err::<
                    PredicateModel,
                    InputError,
                >(e),
            },
    {
        let kind = match predicate.property_kind {
            Some(k) => k,
            None => if is_instance_reserved(predicate.property.as_str()) {
                FilterPropertyKind::Inherent
            } else {
                FilterPropertyKind::Attribute
            },
        };
        match kind {
            FilterPropertyKind::Inherent => {
                if str_eq(predicate.property.as_str(), "duration") {
                    let measure = match parse_u64(predicate.value.as_str()) {
                        Some(measure) => measure,
                        None => {
                            return Err(InputError::InvalidDurationValue);
                        },
                    };
                    let filter = match predicate.value_operator {
                        Some(FilterValueOperator::Gt) => DurationFilter::Gt(measure),
                        Some(FilterValueOperator::Lt) => DurationFilter::Lt(measure),
                        None => {
                            return Err(InputError::MissingDurationOperator);
                        },
                        _ => {
                            return Err(InputError::InvalidDurationOperator);
                        },
                    };
                    Ok(BasicInstanceFilter::Duration(filter))
                } else if str_eq(predicate.property.as_str(), "connected") {
                    let at = match timestamp_from_value(predicate.value.as_str()) {
                        Some(at) => at,
                        None => {
                            return Err(InputError::InvalidCreatedValue);
                        },
                    };
                    let op = match predicate.value_operator {
                        Some(op) => op,
                        None => {
                            return Err(InputError::MissingCreatedOperator);
                        },
                    };
                    Ok(BasicInstanceFilter::Connected(tcf_of(op, at)))
                } else if str_eq(predicate.property.as_str(), "disconnected") {
                    let at = match timestamp_from_value(predicate.value.as_str()) {
                        Some(at) => at,
                        None => {
                            return Err(InputError::InvalidCreatedValue);
                        },
                    };
                    let op = match predicate.value_operator {
                        Some(op) => op,
                        None => {
                            return Err(InputError::MissingCreatedOperator);
                        },
                    };
                    Ok(BasicInstanceFilter::Disconnected(tcf_of(op, at)))
                } else {
                    Err(InputError::InvalidInherentProperty)
                }
            },
            FilterPropertyKind::Attribute => {
                if predicate.value_operator.is_some() {
                    return Err(InputError::InvalidAttributeOperator);
                }
                Ok(BasicInstanceFilter::Attribute(predicate.property, predicate.value))
            },
        }
    }
}

/// Each conjunct of a passing conjunction passes.
pub proof fn lemma_instance_and_elim(v: Vec<BasicInstanceFilter>, instance: Instance, j: int)
    requires
        BasicInstanceFilter::And(v).spec_matches(instance),
        0 <= j < v@.len(),
    ensures
        v@[j].spec_matches(instance),
{
    let f = BasicInstanceFilter::And(v);
    assert(f->And_0 == v);
    assert(f->And_0@[j].spec_matches(instance));
}

/// A conjunction of passing conjuncts passes.
pub proof fn lemma_instance_and_intro(v: Vec<BasicInstanceFilter>, instance: Instance)
    requires
        forall|k: int| 0 <= k < v@.len() ==> (#[trigger] v@[k]).spec_matches(instance),
    ensures
        BasicInstanceFilter::And(v).spec_matches(instance),
{
}

/// A passing disjunction has a passing disjunct.
pub proof fn lemma_instance_or_elim(v: Vec<BasicInstanceFilter>, instance: Instance) -> (j: int)
    requires
        BasicInstanceFilter::Or(v).spec_matches(instance),
    ensures
        0 <= j < v@.len(),
        v@[j].spec_matches(instance),
{
    let f = BasicInstanceFilter::Or(v);
    assert(f->Or_0 == v);
    assert(exists|i: int|
        0 <= i < f->Or_0@.len() && (#[trigger] f->Or_0@[i]).spec_matches(instance));
    let j = choose|i: int| 0 <= i < v@.len() && (#[trigger] v@[i]).spec_matches(instance);
    j
}

/// A disjunction with a passing disjunct passes.
pub proof fn lemma_instance_or_intro(v: Vec<BasicInstanceFilter>, instance: Instance, j: int)
    requires
        0 <= j < v@.len(),
        v@[j].spec_matches(instance),
    ensures
        BasicInstanceFilter::Or(v).spec_matches(instance),
{
    let f = BasicInstanceFilter::Or(v);
    assert(f->Or_0 == v);
    assert(0 <= j < f->Or_0@.len() && f->Or_0@[j].spec_matches(instance));
}


/// Why a filter text was rejected: it did not parse, or a predicate is
/// invalid for the entity kind.
#[derive(Debug, Copy, Clone, PartialEq, Eq, Structural)]
pub enum FilterError {
    Format(FilterFormatError),
    Input(InputError),
}

/// What a view must show of a validated predicate model.
pub open spec fn view_shows(v: FilterPredicateView, vm: PredicateModel) -> bool {
    &&& v.property_kind == vm.kind
    &&& v.property@ == vm.property
    &&& v.value_operator == vm.op
    &&& v.value@ == vm.value
    &&& v.text@ == crate::input::spec_render_term(vm)
}

/// Parses and validates a filter text against the event kind: one view
/// per term, carrying the validated predicate and its canonical text;
/// the first term that fails to parse or validate decides the error.
pub fn parse_event_filter(filter: &str) -> (r: Result<Vec<FilterPredicateView>, FilterError>)
    ensures
        ({
            let ts = crate::input::split_terms(filter@);
            match r {
                Ok(vs) => {
                    &&& vs@.len() == ts.len()
                    &&& (forall|i: int|
                        0 <= i < ts.len() ==> crate::input::spec_term_parse(#[trigger] ts[i]) is Ok
                            && spec_event_validate(
                            crate::input::spec_term_parse(ts[i])->Ok_0,
                        ) is Ok && view_shows(
                            vs@[i],
                            spec_event_validate(crate::input::spec_term_parse(ts[i])->Ok_0)->Ok_0,
                        ))
                },
                Err(FilterError::Format(e)) => exists|i: int|
                    0 <= i < ts.len() && crate::input::spec_term_parse(#[trigger] ts[i]) == Err::<
                        PredicateModel,
                        FilterFormatError,
                    >(e),
                Err(FilterError::Input(e)) => exists|i: int|
                    0 <= i < ts.len() && crate::input::spec_term_parse(#[trigger] ts[i]) is Ok
                        && spec_event_validate(crate::input::spec_term_parse(ts[i])->Ok_0) == Err::<
                        PredicateModel,
                        InputError,
                    >(e),
            }
        }),
{
    let ghost ts = crate::input::split_terms(filter@);
    let predicates = match FilterPredicate::parse(filter) {
        Ok(ps) => ps,
        Err(e) => {
            return Err(FilterError::Format(e));
        },
    };
    let mut out: Vec<FilterPredicateView> = Vec::new();
    let n = predicates.len();
    let mut i: usize = 0;
    while i < n
        invariant
            ts == crate::input::split_terms(filter@),
            n == predicates@.len(),
            n == ts.len(),
            forall|j: int|
                0 <= j < n ==> crate::input::spec_term_parse(#[trigger] ts[j]) == Ok::<
                    PredicateModel,
                    FilterFormatError,
                >(predicates@[j].model()),
            0 <= i <= n,
            out@.len() == i,
            forall|j: int|
                0 <= j < i ==> spec_event_validate(#[trigger] predicates@[j].model()) is Ok
                    && view_shows(
                    out@[j],
                    spec_event_validate(predicates@[j].model())->Ok_0,
                ),
        decreases n - i,
    {
        let p = FilterPredicate {
            property_kind: predicates[i].property_kind,
            property: predicates[i].property.clone(),
            value_operator: predicates[i].value_operator,
            value: predicates[i].value.clone(),
        };
        proof {
            assert(p.model() == predicates@[i as int].model());
        }
        match BasicEventFilter::validate(p) {
            Ok(v) => {
                out.push(FilterPredicateView::from_inner(v));
            },
            Err(e) => {
                proof {
                    assert(crate::input::spec_term_parse(ts[i as int]) is Ok
                        && spec_event_validate(
                        crate::input::spec_term_parse(ts[i as int])->Ok_0,
                    ) == Err::<PredicateModel, InputError>(e));
                }
                return Err(FilterError::Input(e));
            },
        }
        i = i + 1;
    }
    Ok(out)
}

/// Parses and validates a filter text against the span kind, as
/// `parse_event_filter` does for events.
pub fn parse_span_filter(filter: &str) -> (r: Result<Vec<FilterPredicateView>, FilterError>)
    ensures
        ({
            let ts = crate::input::split_terms(filter@);
            match r {
                Ok(vs) => {
                    &&& vs@.len() == ts.len()
                    &&& (forall|i: int|
                        0 <= i < ts.len() ==> crate::input::spec_term_parse(#[trigger] ts[i]) is Ok
                            && spec_span_validate(
                            crate::input::spec_term_parse(ts[i])->Ok_0,
                        ) is Ok && view_shows(
                            vs@[i],
                            spec_span_validate(crate::input::spec_term_parse(ts[i])->Ok_0)->Ok_0,
                        ))
                },
                Err(FilterError::Format(e)) => exists|i: int|
                    0 <= i < ts.len() && crate::input::spec_term_parse(#[trigger] ts[i]) == Err::<
                        PredicateModel,
                        FilterFormatError,
                    >(e),
                Err(FilterError::Input(e)) => exists|i: int|
                    0 <= i < ts.len() && crate::input::spec_term_parse(#[trigger] ts[i]) is Ok
                        && spec_span_validate(crate::input::spec_term_parse(ts[i])->Ok_0) == Err::<
                        PredicateModel,
                        InputError,
                    >(e),
            }
        }),
{
    let ghost ts = crate::input::split_terms(filter@);
    let predicates = match FilterPredicate::parse(filter) {
        Ok(ps) => ps,
        Err(e) => {
            return Err(FilterError::Format(e));
        },
    };
    let mut out: Vec<FilterPredicateView> = Vec::new();
    let n = predicates.len();
    let mut i: usize = 0;
    while i < n
        invariant
            ts == crate::input::split_terms(filter@),
            n == predicates@.len(),
            n == ts.len(),
            forall|j: int|
                0 <= j < n ==> crate::input::spec_term_parse(#[trigger] ts[j]) == Ok::<
                    PredicateModel,
                    FilterFormatError,
                >(predicates@[j].model()),
            0 <= i <= n,
            out@.len() == i,
            forall|j: int|
                0 <= j < i ==> spec_span_validate(#[trigger] predicates@[j].model()) is Ok
                    && view_shows(
                    out@[j],
                    spec_span_validate(predicates@[j].model())->Ok_0,
                ),
        decreases n - i,
    {
        let p = FilterPredicate {
            property_kind: predicates[i].property_kind,
            property: predicates[i].property.clone(),
            value_operator: predicates[i].value_operator,
            value: predicates[i].value.clone(),
        };
        proof {
            assert(p.model() == predicates@[i as int].model());
        }
        match BasicSpanFilter::validate(p) {
            Ok(v) => {
                out.push(FilterPredicateView::from_inner(v));
            },
            Err(e) => {
                proof {
                    assert(crate::input::spec_term_parse(ts[i as int]) is Ok
                        && spec_span_validate(
                        crate::input::spec_term_parse(ts[i as int])->Ok_0,
                    ) == Err::<PredicateModel, InputError>(e));
                }
                return Err(FilterError::Input(e));
            },
        }
        i = i + 1;
    }
    Ok(out)
}

/// Parses and validates a filter text against the instance kind, as
/// `parse_event_filter` does for events.
pub fn parse_instance_filter(filter: &str) -> (r: Result<Vec<FilterPredicateView>, FilterError>)
    ensures
        ({
            let ts = crate::input::split_terms(filter@);
            match r {
                Ok(vs) => {
                    &&& vs@.len() == ts.len()
                    &&& (forall|i: int|
                        0 <= i < ts.len() ==> crate::input::spec_term_parse(#[trigger] ts[i]) is Ok
                            && spec_instance_validate(
                            crate::input::spec_term_parse(ts[i])->Ok_0,
                        ) is Ok && view_shows(
                            vs@[i],
                            spec_instance_validate(
                                crate::input::spec_term_parse(ts[i])->Ok_0,
                            )->Ok_0,
                        ))
                },
                Err(FilterError::Format(e)) => exists|i: int|
                    0 <= i < ts.len() && crate::input::spec_term_parse(#[trigger] ts[i]) == Err::<
                        PredicateModel,
                        FilterFormatError,
                    >(e),
                Err(FilterError::Input(e)) => exists|i: int|
                    0 <= i < ts.len() && crate::input::spec_term_parse(#[trigger] ts[i]) is Ok
                        && spec_instance_validate(crate::input::spec_term_parse(ts[i])->Ok_0)
                        == Err::<PredicateModel, InputError>(e),
            }
        }),
{
    let ghost ts = crate::input::split_terms(filter@);
    let predicates = match FilterPredicate::parse(filter) {
        Ok(ps) => ps,
        Err(e) => {
            return Err(FilterError::Format(e));
        },
    };
    let mut out: Vec<FilterPredicateView> = Vec::new();
    let n = predicates.len();
    let mut i: usize = 0;
    while i < n
        invariant
            ts == crate::input::split_terms(filter@),
            n == predicates@.len(),
            n == ts.len(),
            forall|j: int|
                0 <= j < n ==> crate::input::spec_term_parse(#[trigger] ts[j]) == Ok::<
                    PredicateModel,
                    FilterFormatError,
                >(predicates@[j].model()),
            0 <= i <= n,
            out@.len() == i,
            forall|j: int|
                0 <= j < i ==> spec_instance_validate(#[trigger] predicates@[j].model()) is Ok
                    && view_shows(
                    out@[j],
                    spec_instance_validate(predicates@[j].model())->Ok_0,
                ),
        decreases n - i,
    {
        let p = FilterPredicate {
            property_kind: predicates[i].property_kind,
            property: predicates[i].property.clone(),
            value_operator: predicates[i].value_operator,
            value: predicates[i].value.clone(),
        };
        proof {
            assert(p.model() == predicates@[i as int].model());
        }
        match BasicInstanceFilter::validate(p) {
            Ok(v) => {
                out.push(FilterPredicateView::from_inner(v));
            },
            Err(e) => {
                proof {
                    assert(crate::input::spec_term_parse(ts[i as int]) is Ok
                        && spec_instance_validate(
                        crate::input::spec_term_parse(ts[i as int])->Ok_0,
                    ) == Err::<PredicateModel, InputError>(e));
                }
                return Err(FilterError::Input(e));
            },
        }
        i = i + 1;
    }
    Ok(out)
}


/// No conjunction or disjunction in the tree has exactly one child:
/// the normal form `simplify` establishes.
pub open spec fn event_filter_simplified(f: BasicEventFilter) -> bool
    decreases f,
{
    match f {
        BasicEventFilter::And(fs) => fs@.len() != 1 && (forall|i: int|
            0 <= i < fs@.len() ==> event_filter_simplified(#[trigger] fs@[i])),
        BasicEventFilter::Or(fs) => fs@.len() != 1 && (forall|i: int|
            0 <= i < fs@.len() ==> event_filter_simplified(#[trigger] fs@[i])),
        _ => true,
    }
}

/// As `event_filter_simplified`, for span filters.
pub open spec fn span_filter_simplified(f: BasicSpanFilter) -> bool
    decreases f,
{
    match f {
        BasicSpanFilter::And(fs) => fs@.len() != 1 && (forall|i: int|
            0 <= i < fs@.len() ==> span_filter_simplified(#[trigger] fs@[i])),
        BasicSpanFilter::Or(fs) => fs@.len() != 1 && (forall|i: int|
            0 <= i < fs@.len() ==> span_filter_simplified(#[trigger] fs@[i])),
        _ => true,
    }
}

/// As `event_filter_simplified`, for instance filters.
pub open spec fn instance_filter_simplified(f: BasicInstanceFilter) -> bool
    decreases f,
{
    match f {
        BasicInstanceFilter::And(fs) => fs@.len() != 1 && (forall|i: int|
            0 <= i < fs@.len() ==> instance_filter_simplified(#[trigger] fs@[i])),
        BasicInstanceFilter::Or(fs) => fs@.len() != 1 && (forall|i: int|
            0 <= i < fs@.len() ==> instance_filter_simplified(#[trigger] fs@[i])),
        _ => true,
    }
}

} // verus!
