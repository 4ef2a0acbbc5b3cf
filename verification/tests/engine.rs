use venator_engine::{
    BasicInstanceFilter, DurationFilter, EventQuery, Fields, FilterPredicate, InMemoryStorage,
    Instance, InstanceQuery, NewCreateSpanEvent, NewEvent, NewInstance, NewSpanEvent,
    NewSpanEventKind, Order, RawEngine, SpanQuery, SubscriptionSet,
};

fn new_engine() -> RawEngine<InMemoryStorage> {
    RawEngine::new(InMemoryStorage::new())
}

fn fields(pairs: &[(&str, &str)]) -> Fields {
    let mut f = Fields::new();
    for (k, v) in pairs {
        f.insert(k.to_string(), v.to_string());
    }
    f
}

fn new_event(instance_key: u64, ts: u64, level: i32, target: &str) -> NewEvent {
    NewEvent {
        instance_key,
        timestamp: ts,
        span_id: None,
        name: "event".to_string(),
        target: target.to_string(),
        level,
        file_name: None,
        file_line: None,
        fields: Fields::new(),
    }
}

fn parse(text: &str) -> Vec<FilterPredicate> {
    FilterPredicate::parse(text).unwrap()
}

fn event_query(filter: Vec<FilterPredicate>, order: Order) -> EventQuery {
    EventQuery { filter, order, limit: 50, start: 1, end: u64::MAX, previous: None }
}

#[test]
fn single_event_by_level() {
    let mut engine = new_engine();
    let ik = engine.insert_instance(NewInstance { id: 42, fields: Fields::new() }, 1).unwrap();
    engine.insert_event(new_event(ik, 100, 2, "a")).unwrap();
    let keys = engine.query_event(event_query(parse("level:INFO"), Order::Asc)).unwrap();
    assert_eq!(keys, vec![100]);
}

#[test]
fn level_at_or_above() {
    let mut engine = new_engine();
    let ik = engine.insert_instance(NewInstance { id: 1, fields: Fields::new() }, 1).unwrap();
    engine.insert_event(new_event(ik, 10, 1, "t")).unwrap();
    engine.insert_event(new_event(ik, 20, 2, "t")).unwrap();
    engine.insert_event(new_event(ik, 30, 3, "t")).unwrap();
    let keys = engine.query_event(event_query(parse("#level:INFO+"), Order::Asc)).unwrap();
    assert_eq!(keys, vec![20, 30]);
}

#[test]
fn span_duration_bands() {
    let mut engine = new_engine();
    let ik = engine.insert_instance(NewInstance { id: 1, fields: Fields::new() }, 1).unwrap();
    let span_key = engine
        .insert_span_event(NewSpanEvent {
            instance_key: ik,
            timestamp: 100,
            span_id: 7,
            kind: NewSpanEventKind::Create(NewCreateSpanEvent {
                parent_id: None,
                target: "t".to_string(),
                name: "work".to_string(),
                level: 2,
                file_name: None,
                file_line: None,
                fields: Fields::new(),
            }),
        })
        .unwrap();
    assert_eq!(span_key, 100);
    engine
        .insert_span_event(NewSpanEvent {
            instance_key: ik,
            timestamp: 1100,
            span_id: 7,
            kind: NewSpanEventKind::Close,
        })
        .unwrap();

    let q = |text: &str| SpanQuery {
        filter: parse(text),
        order: Order::Asc,
        limit: 50,
        start: 1,
        end: u64::MAX,
        previous: None,
    };
    let hit = engine.query_span(q("#duration:>500")).unwrap();
    assert_eq!(hit, vec![100]);
    let miss = engine.query_span(q("#duration:>5000")).unwrap();
    assert!(miss.is_empty());
}

#[test]
fn inherited_attribute_matches_event() {
    let mut engine = new_engine();
    let ik = engine.insert_instance(NewInstance { id: 1, fields: Fields::new() }, 1).unwrap();
    engine
        .insert_span_event(NewSpanEvent {
            instance_key: ik,
            timestamp: 100,
            span_id: 1,
            kind: NewSpanEventKind::Create(NewCreateSpanEvent {
                parent_id: None,
                target: "t".to_string(),
                name: "a".to_string(),
                level: 2,
                file_name: None,
                file_line: None,
                fields: fields(&[("env", "prod")]),
            }),
        })
        .unwrap();
    engine
        .insert_span_event(NewSpanEvent {
            instance_key: ik,
            timestamp: 200,
            span_id: 2,
            kind: NewSpanEventKind::Create(NewCreateSpanEvent {
                parent_id: Some(1),
                target: "t".to_string(),
                name: "b".to_string(),
                level: 2,
                file_name: None,
                file_line: None,
                fields: Fields::new(),
            }),
        })
        .unwrap();
    let mut ev = new_event(ik, 300, 2, "t");
    ev.span_id = Some(2);
    engine.insert_event(ev).unwrap();

    let keys = engine.query_event(event_query(parse("@env:prod"), Order::Asc)).unwrap();
    assert_eq!(keys, vec![300]);
}

#[test]
fn descending_pagination_resumes_below_previous() {
    let mut engine = new_engine();
    let ik = engine.insert_instance(NewInstance { id: 1, fields: Fields::new() }, 1).unwrap();
    for i in 0..100u64 {
        let mut ev = new_event(ik, 1000 + i, (i % 5) as i32, "t");
        ev.fields = fields(&[("x", "y")]);
        engine.insert_event(ev).unwrap();
    }
    let first = engine
        .query_event(EventQuery {
            filter: parse("@x:y"),
            order: Order::Desc,
            limit: 10,
            start: 1,
            end: u64::MAX,
            previous: None,
        })
        .unwrap();
    assert_eq!(first.len(), 10);
    assert_eq!(first[0], 1099);
    let last = *first.last().unwrap();
    assert_eq!(last, 1090);
    let second = engine
        .query_event(EventQuery {
            filter: parse("@x:y"),
            order: Order::Desc,
            limit: 10,
            start: 1,
            end: u64::MAX,
            previous: Some(last),
        })
        .unwrap();
    assert_eq!(second.len(), 10);
    assert!(second.iter().all(|k| *k < last));
    assert_eq!(second[0], 1089);
}

#[test]
fn unknown_instance_matches_nothing() {
    let mut engine = new_engine();
    let ik = engine.insert_instance(NewInstance { id: 1, fields: Fields::new() }, 1).unwrap();
    engine.insert_event(new_event(ik, 100, 2, "t")).unwrap();
    let keys = engine
        .query_event(event_query(parse("#instance:99999999"), Order::Asc))
        .unwrap();
    assert!(keys.is_empty());
}

#[test]
fn create_is_idempotent_for_known_span_id() {
    let mut engine = new_engine();
    let ik = engine.insert_instance(NewInstance { id: 1, fields: Fields::new() }, 1).unwrap();
    let create = |ts: u64| NewSpanEvent {
        instance_key: ik,
        timestamp: ts,
        span_id: 9,
        kind: NewSpanEventKind::Create(NewCreateSpanEvent {
            parent_id: None,
            target: "t".to_string(),
            name: "again".to_string(),
            level: 2,
            file_name: None,
            file_line: None,
            fields: Fields::new(),
        }),
    };
    let first = engine.insert_span_event(create(50)).unwrap();
    let second = engine.insert_span_event(create(60)).unwrap();
    assert_eq!(first, 50);
    assert_eq!(second, 50);
    let all = engine
        .query_span(SpanQuery {
            filter: vec![],
            order: Order::Asc,
            limit: 50,
            start: 1,
            end: u64::MAX,
            previous: None,
        })
        .unwrap();
    assert_eq!(all, vec![50]);
}

#[test]
fn limit_zero_yields_nothing() {
    let mut engine = new_engine();
    let ik = engine.insert_instance(NewInstance { id: 1, fields: Fields::new() }, 1).unwrap();
    engine.insert_event(new_event(ik, 100, 2, "t")).unwrap();
    let keys = engine
        .query_event(EventQuery {
            filter: vec![],
            order: Order::Asc,
            limit: 0,
            start: 1,
            end: u64::MAX,
            previous: None,
        })
        .unwrap();
    assert!(keys.is_empty());
}

#[test]
fn window_includes_exact_boundary() {
    let mut engine = new_engine();
    let ik = engine.insert_instance(NewInstance { id: 1, fields: Fields::new() }, 1).unwrap();
    engine.insert_event(new_event(ik, 100, 2, "t")).unwrap();
    let keys = engine
        .query_event(EventQuery {
            filter: vec![],
            order: Order::Asc,
            limit: 50,
            start: 100,
            end: 100,
            previous: None,
        })
        .unwrap();
    assert_eq!(keys, vec![100]);
}

#[test]
fn update_merges_span_fields() {
    let mut engine = new_engine();
    let ik = engine.insert_instance(NewInstance { id: 1, fields: Fields::new() }, 1).unwrap();
    engine
        .insert_span_event(NewSpanEvent {
            instance_key: ik,
            timestamp: 100,
            span_id: 3,
            kind: NewSpanEventKind::Create(NewCreateSpanEvent {
                parent_id: None,
                target: "t".to_string(),
                name: "s".to_string(),
                level: 2,
                file_name: None,
                file_line: None,
                fields: fields(&[("a", "1"), ("b", "2")]),
            }),
        })
        .unwrap();
    engine
        .insert_span_event(NewSpanEvent {
            instance_key: ik,
            timestamp: 150,
            span_id: 3,
            kind: NewSpanEventKind::Update(venator_engine::NewUpdateSpanEvent {
                fields: fields(&[("b", "20"), ("c", "3")]),
            }),
        })
        .unwrap();
    let span = engine.spans.get(&100).unwrap();
    assert_eq!(span.fields.get("a").unwrap(), "1");
    assert_eq!(span.fields.get("b").unwrap(), "20");
    assert_eq!(span.fields.get("c").unwrap(), "3");
}

#[test]
fn subscriptions_receive_matching_events() {
    let mut engine = new_engine();
    let mut subs = SubscriptionSet::new();
    let ik = engine.insert_instance(NewInstance { id: 1, fields: Fields::new() }, 1).unwrap();
    let filter = engine.lower_event_filter(&parse("#level:WARN+")).unwrap();
    let id = subs.subscribe(
        venator_engine::BasicEventFilter::And(filter),
        16,
    );
    for (ts, level) in [(10u64, 1), (20, 3), (30, 4)] {
        let ev = new_event(ik, ts, level, "t");
        let key = engine.insert_event(ev).unwrap();
        let stored = venator_engine::subs::clone_event(engine.events.get(&key).unwrap());
        subs.notify(&engine.spans, &engine.event_ancestors, &stored);
    }
    let got = subs.drain(id);
    let keys: Vec<u64> = got.iter().map(|e| e.timestamp).collect();
    assert_eq!(keys, vec![20, 30]);
    subs.unsubscribe(id);
    assert!(subs.drain(id).is_empty());
}

#[test]
fn unknown_instance_key_is_rejected() {
    let mut engine = new_engine();
    let err = engine.insert_event(new_event(7, 100, 2, "t")).unwrap_err();
    assert_eq!(err, venator_engine::InsertError::UnknownInstance);
}

#[test]
fn connected_instance_matches_no_duration_filter() {
    let open = Instance {
        id: 1,
        connected_at: 10,
        disconnected_at: None,
        fields: Fields::new(),
    };
    assert!(!BasicInstanceFilter::Duration(DurationFilter::Gt(0)).matches(&open));
    assert!(!BasicInstanceFilter::Duration(DurationFilter::Lt(u64::MAX)).matches(&open));
    let closed = Instance { disconnected_at: Some(25), ..open };
    assert!(BasicInstanceFilter::Duration(DurationFilter::Gt(10)).matches(&closed));
    assert!(!BasicInstanceFilter::Duration(DurationFilter::Gt(15)).matches(&closed));
    assert!(BasicInstanceFilter::Duration(DurationFilter::Lt(16)).matches(&closed));
}

#[test]
fn instance_query_scans_the_window() {
    let mut engine = new_engine();
    for (id, now) in [(1u64, 10u64), (2, 20), (3, 30)] {
        engine.insert_instance(NewInstance { id, fields: Fields::new() }, now).unwrap();
    }
    engine.disconnect_instance(2).unwrap();
    let q = |text: &str, order: Order| InstanceQuery {
        filter: parse(text),
        order,
        limit: 50,
        start: 1,
        end: u64::MAX,
        previous: None,
    };
    let all = engine.query_instance(q("", Order::Asc)).unwrap();
    assert_eq!(all, vec![10, 20, 30]);
    let desc = engine.query_instance(q("", Order::Desc)).unwrap();
    assert_eq!(desc, vec![30, 20, 10]);
    let disconnected = engine.query_instance(q("duration:>0", Order::Asc)).unwrap();
    assert_eq!(disconnected, vec![20]);
}

#[test]
fn stats_track_totals() {
    let mut engine = new_engine();
    let ik = engine.insert_instance(NewInstance { id: 1, fields: Fields::new() }, 1).unwrap();
    engine.insert_event(new_event(ik, 100, 2, "t")).unwrap();
    engine.insert_event(new_event(ik, 200, 2, "t")).unwrap();
    let stats = engine.query_stats();
    assert_eq!(stats.total_events, 2);
    assert_eq!(stats.total_spans, 0);
    assert_eq!(stats.start, Some(100));
    assert_eq!(stats.end, Some(200));
}
