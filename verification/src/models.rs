//! Core data model: timestamps, levels, and the four record kinds
//! (instances, spans, span events, events).

use crate::fields::Fields;
use vstd::prelude::*;

verus! {

/// Keys are microsecond timestamps since the epoch; the engine never
/// assigns the value zero, so zero is free to act as a floor sentinel.
pub type Timestamp = u64;

/// Identifies an instance internally: the timestamp of its connection.
pub type InstanceKey = u64;

/// Identifies an instance externally: a client-generated id.
pub type InstanceId = u64;

/// Identifies a span internally: the timestamp of its creation.
pub type SpanKey = u64;

/// Identifies a span event internally: its timestamp. A `Create` span
/// event shares its timestamp with the span it creates.
pub type SpanEventKey = u64;

/// Identifies an event internally: its timestamp.
pub type EventKey = u64;

/// Identifies a span externally: client-generated, unique within its
/// instance.
pub type SpanId = u64;

pub type InstanceIdView = String;

pub type FullSpanIdView = String;

pub type FullSpanId = (InstanceId, SpanId);

pub type SubscriptionId = usize;

/// The smallest timestamp the engine assigns.
pub const TIMESTAMP_MIN: u64 = 1;

/// Whether a character is a decimal digit.
pub open spec fn is_digit(c: char) -> bool {
    '0' <= c && c <= '9'
}

/// Whether a string is one or more decimal digits.
pub open spec fn all_digits(s: Seq<char>) -> bool {
    forall|i: int| 0 <= i < s.len() ==> is_digit(#[trigger] s[i])
}

/// The number a digit string denotes.
pub open spec fn digits_val(s: Seq<char>) -> nat
    decreases s.len(),
{
    if s.len() == 0 {
        0
    } else {
        digits_val(s.drop_last()) * 10 + (s.last() as int - '0' as int) as nat
    }
}

/// What parsing a string as a `u64` yields: the denoted number, if the
/// string is all digits and the number fits.
pub open spec fn parse_u64_spec(s: Seq<char>) -> Option<u64> {
    if s.len() > 0 && all_digits(s) && digits_val(s) <= u64::MAX {
        Some(digits_val(s) as u64)
    } else {
        None
    }
}

/// A digit string denotes at least what any of its prefixes denotes.
proof fn lemma_digits_val_prefix_le(s: Seq<char>, i: int)
    requires
        0 <= i <= s.len(),
    ensures
        digits_val(s.take(i)) <= digits_val(s),
    decreases s.len() - i,
{
    if i < s.len() {
        lemma_digits_val_prefix_le(s, i + 1);
        assert(s.take(i + 1).drop_last() =~= s.take(i));
        assert(digits_val(s.take(i + 1)) == digits_val(s.take(i)) * 10 + (s.take(i + 1).last()
            as int - '0' as int) as nat);
    } else {
        assert(s.take(i) =~= s);
    }
}

/// Parses a decimal `u64`; rejects anything but digits, the empty
/// string, and numbers that overflow.
pub fn parse_u64(s: &str) -> (r: Option<u64>)
    ensures
        r == parse_u64_spec(s@),
{
    let n = s.unicode_len();
    if n == 0 {
        return None;
    }
    let mut v: u64 = 0;
    let mut i: usize = 0;
    while i < n
        invariant
            n == s@.len(),
            0 <= i <= n,
            all_digits(s@.take(i as int)),
            v == digits_val(s@.take(i as int)),
        decreases n - i,
    {
        let c = s.get_char(i);
        if c < '0' || c > '9' {
            assert(!is_digit(s@[i as int]));
            assert(!all_digits(s@));
            return None;
        }
        let d: u32 = (c as u32) - ('0' as u32);
        assert(d <= 9);
        let d64: u64 = d as u64;
        proof {
            assert(s@.take(i + 1).drop_last() =~= s@.take(i as int));
            assert(digits_val(s@.take(i + 1)) == digits_val(s@.take(i as int)) * 10 + (s@[i as int]
                as int - '0' as int) as nat);
            assert((s@[i as int] as int - '0' as int) as nat == d as nat);
        }
        if v > (u64::MAX - d64) / 10 {
            proof {
                assert(v * 10 + d64 > u64::MAX) by (nonlinear_arith)
                    requires
                        v > (u64::MAX - d64) / 10,
                        d64 <= 9,
                ;
                lemma_digits_val_prefix_le(s@, i + 1);
                assert(digits_val(s@) > u64::MAX);
            }
            return None;
        }
        assert(v * 10 + d64 <= u64::MAX) by (nonlinear_arith)
            requires
                v <= (u64::MAX - d64) / 10,
                d64 <= 9,
        ;
        v = v * 10 + d64;
        i = i + 1;
    }
    proof {
        assert(s@.take(n as int) =~= s@);
    }
    Some(v)
}

/// A well-formed "full span id": digits, one dash, digits.
#[verifier::opaque]
pub open spec fn full_span_id_split(s: Seq<char>, i: int, instance_id: u64, span_id: u64) -> bool {
    &&& 0 <= i < s.len()
    &&& s[i] == '-'
    &&& (forall|j: int| 0 <= j < i ==> s[j] != '-')
    &&& parse_u64_spec(s.take(i)) == Some(instance_id)
    &&& parse_u64_spec(s.skip(i + 1)) == Some(span_id)
}

/// Parses `"<instance-id>-<span-id>"` at the first dash.
pub fn parse_full_span_id(s: &str) -> (r: Option<FullSpanId>)
    ensures
        match r {
            Some(p) => exists|i: int| full_span_id_split(s@, i, p.0, p.1),
            None => forall|i: int, a: u64, b: u64| !full_span_id_split(s@, i, a, b),
        },
{
    let n = s.unicode_len();
    let mut i: usize = 0;
    while i < n
        invariant
            n == s@.len(),
            0 <= i <= n,
            forall|j: int| 0 <= j < i ==> s@[j] != '-',
        decreases n - i,
    {
        if s.get_char(i) == '-' {
            let head = s.substring_char(0, i);
            let tail = s.substring_char(i + 1, n);
            proof {
                assert(head@ =~= s@.take(i as int));
                assert(tail@ =~= s@.skip(i + 1));
            }
            let instance_id = match parse_u64(head) {
                Some(v) => v,
                None => {
                    proof {
                        assert forall|k: int, a: u64, b: u64| !full_span_id_split(
                            s@,
                            k,
                            a,
                            b,
                        ) by {
                            reveal(full_span_id_split);
                            if 0 <= k < s@.len() && s@[k] == '-' && (forall|j: int|
                                0 <= j < k ==> s@[j] != '-') {
                                assert(k == i as int);
                            }
                        }
                    }
                    return None;
                },
            };
            let span_id = match parse_u64(tail) {
                Some(v) => v,
                None => {
                    proof {
                        assert forall|k: int, a: u64, b: u64| !full_span_id_split(
                            s@,
                            k,
                            a,
                            b,
                        ) by {
                            reveal(full_span_id_split);
                            if 0 <= k < s@.len() && s@[k] == '-' && (forall|j: int|
                                0 <= j < k ==> s@[j] != '-') {
                                assert(k == i as int);
                            }
                        }
                    }
                    return None;
                },
            };
            proof {
                reveal(full_span_id_split);
                assert(full_span_id_split(s@, i as int, instance_id, span_id));
            }
            let result = Some((instance_id, span_id));
            proof {
                let pair = (instance_id, span_id);
                assert(pair.0 == instance_id && pair.1 == span_id);
                assert(result matches Some(p) ==> p == pair);
            }
            assert(match result {
                Some(p) => exists|k: int| full_span_id_split(s@, k, p.0, p.1),
                None => false,
            });
            return result;
        }
        i = i + 1;
    }
    proof {
        reveal(full_span_id_split);
    }
    None
}

/// The direction a query walks the key space.
#[derive(Debug, Copy, Clone, PartialEq, Eq, Structural)]
pub enum Order {
    Asc,
    Desc,
}

/// The verbosity level of a span or event.
#[derive(Debug, Copy, Clone, PartialEq, Eq, Structural)]
pub enum Level {
    Trace,
    Debug,
    Info,
    Warn,
    Error,
}

impl Level {
    /// The rank of the level: Trace < Debug < Info < Warn < Error.
    pub open spec fn spec_index(self) -> int {
        match self {
            Level::Trace => 0,
            Level::Debug => 1,
            Level::Info => 2,
            Level::Warn => 3,
            Level::Error => 4,
        }
    }

    pub fn index(self) -> (r: usize)
        ensures
            r == self.spec_index(),
    {
        match self {
            Level::Trace => 0,
            Level::Debug => 1,
            Level::Info => 2,
            Level::Warn => 3,
            Level::Error => 4,
        }
    }

    /// Reads a level back from its rank.
    pub fn from_index(value: i32) -> (r: Option<Level>)
        ensures
            match r {
                Some(level) => level.spec_index() == value,
                None => !(0 <= value <= 4),
            },
    {
        match value {
            0 => Some(Level::Trace),
            1 => Some(Level::Debug),
            2 => Some(Level::Info),
            3 => Some(Level::Warn),
            4 => Some(Level::Error),
            _ => None,
        }
    }
}

/// A newly connecting instance, as handed in by the ingress boundary.
pub struct NewInstance {
    pub id: InstanceId,
    pub fields: Fields,
}

/// A connected client session.
pub struct Instance {
    pub id: InstanceId,
    pub connected_at: Timestamp,
    pub disconnected_at: Option<Timestamp>,
    pub fields: Fields,
}

impl Instance {
    pub open spec fn spec_key(self) -> InstanceKey {
        self.connected_at
    }

    pub fn key(&self) -> (r: InstanceKey)
        ensures
            r == self.spec_key(),
    {
        self.connected_at
    }

    pub open spec fn spec_duration(self) -> Option<u64> {
        match self.disconnected_at {
            Some(disconnected_at) => Some(
                if disconnected_at >= self.connected_at {
                    (disconnected_at - self.connected_at) as u64
                } else {
                    0
                },
            ),
            None => None,
        }
    }

    /// The instance's lifetime in microseconds, once disconnected.
    pub fn duration(&self) -> (r: Option<u64>)
        ensures
            r == self.spec_duration(),
    {
        match self.disconnected_at {
            Some(disconnected_at) => Some(
                if disconnected_at >= self.connected_at {
                    disconnected_at - self.connected_at
                } else {
                    0
                },
            ),
            None => None,
        }
    }
}

/// A new span event, as handed in by the ingress boundary.
pub struct NewSpanEvent {
    pub instance_key: InstanceKey,
    pub timestamp: Timestamp,
    pub span_id: SpanId,
    pub kind: NewSpanEventKind,
}

pub enum NewSpanEventKind {
    Create(NewCreateSpanEvent),
    Update(NewUpdateSpanEvent),
    Follows(NewFollowsSpanEvent),
    Enter,
    Exit,
    Close,
}

/// A stored span event.
pub struct SpanEvent {
    pub instance_key: InstanceKey,
    pub timestamp: Timestamp,
    pub span_key: SpanKey,
    pub kind: SpanEventKind,
}

pub enum SpanEventKind {
    Create(CreateSpanEvent),
    Update(UpdateSpanEvent),
    Enter,
    Exit,
    Close,
}

pub struct NewCreateSpanEvent {
    pub parent_id: Option<SpanId>,
    pub target: String,
    pub name: String,
    pub level: i32,
    pub file_name: Option<String>,
    pub file_line: Option<u32>,
    pub fields: Fields,
}

pub struct CreateSpanEvent {
    pub parent_key: Option<SpanKey>,
    pub target: String,
    pub name: String,
    pub level: Level,
    pub file_name: Option<String>,
    pub file_line: Option<u32>,
    pub fields: Fields,
}

pub struct NewUpdateSpanEvent {
    pub fields: Fields,
}

pub struct UpdateSpanEvent {
    pub fields: Fields,
}

pub struct NewFollowsSpanEvent {
    pub follows: SpanId,
}

/// A new event, as handed in by the ingress boundary.
pub struct NewEvent {
    pub instance_key: InstanceKey,
    pub timestamp: Timestamp,
    pub span_id: Option<SpanId>,
    pub name: String,
    pub target: String,
    pub level: i32,
    pub file_name: Option<String>,
    pub file_line: Option<u32>,
    pub fields: Fields,
}

/// A stored point-in-time log record.
pub struct Event {
    pub instance_key: InstanceKey,
    pub timestamp: Timestamp,
    pub span_key: Option<SpanKey>,
    pub name: String,
    pub target: String,
    pub level: Level,
    pub file_name: Option<String>,
    pub file_line: Option<u32>,
    pub fields: Fields,
}

impl Event {
    pub open spec fn spec_key(self) -> EventKey {
        self.timestamp
    }

    pub fn key(&self) -> (r: EventKey)
        ensures
            r == self.spec_key(),
    {
        self.timestamp
    }
}

/// A stored scoped activity interval.
pub struct Span {
    pub instance_key: InstanceKey,
    pub id: SpanId,
    pub created_at: Timestamp,
    pub closed_at: Option<Timestamp>,
    pub parent_key: Option<SpanKey>,
    pub target: String,
    pub name: String,
    pub level: Level,
    pub file_name: Option<String>,
    pub file_line: Option<u32>,
    pub fields: Fields,
}

impl Span {
    pub open spec fn spec_key(self) -> SpanKey {
        self.created_at
    }

    pub fn key(&self) -> (r: SpanKey)
        ensures
            r == self.spec_key(),
    {
        self.created_at
    }

    pub open spec fn spec_duration(self) -> Option<u64> {
        match self.closed_at {
            Some(closed_at) => Some(
                if closed_at >= self.created_at {
                    (closed_at - self.created_at) as u64
                } else {
                    0
                },
            ),
            None => None,
        }
    }

    /// The span's length in microseconds, once closed.
    pub fn duration(&self) -> (r: Option<u64>)
        ensures
            r == self.spec_duration(),
    {
        match self.closed_at {
            Some(closed_at) => Some(
                if closed_at >= self.created_at {
                    closed_at - self.created_at
                } else {
                    0
                },
            ),
            None => None,
        }
    }
}

/// How an instance is presented to the host.
pub struct InstanceView {
    pub id: InstanceIdView,
    pub connected_at: Timestamp,
    pub disconnected_at: Option<Timestamp>,
    pub attributes: Vec<AttributeView>,
}

/// How an event is presented to the host.
pub struct EventView {
    pub instance_id: InstanceIdView,
    pub ancestors: Vec<AncestorView>,
    pub timestamp: Timestamp,
    pub target: String,
    pub name: String,
    pub level: i32,
    pub file: Option<String>,
    pub attributes: Vec<AttributeView>,
}

/// How a span is presented to the host.
pub struct SpanView {
    pub id: FullSpanIdView,
    pub ancestors: Vec<AncestorView>,
    pub created_at: Timestamp,
    pub closed_at: Option<Timestamp>,
    pub target: String,
    pub name: String,
    pub level: i32,
    pub file: Option<String>,
    pub attributes: Vec<AttributeView>,
}

/// One enclosing span of a record, innermost first.
pub struct AncestorView {
    pub id: FullSpanIdView,
    pub name: String,
}

/// One effective attribute of a record, with its source.
pub struct AttributeView {
    pub name: String,
    pub value: String,
    pub kind: AttributeKindView,
}

/// Where an effective attribute came from.
pub enum AttributeKindView {
    Instance { instance_id: InstanceId },
    Span { span_id: FullSpanId },
    Inherent,
}

/// Totals and the key range of the store.
pub struct StatsView {
    pub start: Option<Timestamp>,
    pub end: Option<Timestamp>,
    pub total_spans: usize,
    pub total_events: usize,
}

} // verus!
