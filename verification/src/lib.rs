//! An embedded tracing telemetry engine: ingests structured tracing
//! records (instances, spans, events), keeps them under
//! timestamp-ordered indexes, and answers filtered, ordered, paginated
//! queries over instances, spans and events.

pub mod bound;
pub mod engine;
pub mod fields;
pub mod filter;
pub mod index;
pub mod input;
pub mod models;
pub mod plan;
pub mod storage;
pub mod subs;

pub use bound::BoundSearch;
pub use engine::{EventQuery, InsertError, InstanceQuery, RawEngine, SpanQuery};
pub use fields::Fields;
pub use filter::{
    parse_event_filter, parse_instance_filter, parse_span_filter, BasicEventFilter,
    BasicInstanceFilter, BasicSpanFilter, DurationFilter, FilterError, InputError,
    TimestampComparisonFilter,
};
pub use input::{
    FilterFormatError, FilterPredicate, FilterPredicateView, FilterPropertyKind,
    FilterValueOperator,
};
pub use models::{
    AncestorView, AttributeKindView, AttributeView, Event, EventKey, EventView, FullSpanId,
    FullSpanIdView, Instance, InstanceId, InstanceIdView, InstanceKey, InstanceView, Level,
    NewCreateSpanEvent, NewEvent, NewFollowsSpanEvent, NewInstance, NewSpanEvent, NewSpanEventKind,
    NewUpdateSpanEvent, Order, Span, SpanEvent, SpanEventKind, SpanId, SpanKey, SpanView,
    StatsView, SubscriptionId, Timestamp,
};
pub use models::parse_full_span_id;
pub use plan::{IndexedEventFilter, IndexedSpanFilter, NonIndexedEventFilter, NonIndexedSpanFilter};
pub use storage::{InMemoryStorage, Storage};
pub use subs::{Subscription, SubscriptionSet};
