use std::collections::HashMap;
use venator_engine::{
    parse_event_filter, parse_full_span_id, parse_instance_filter, parse_span_filter,
    BasicEventFilter, BasicInstanceFilter, BasicSpanFilter, DurationFilter, Fields, FilterError,
    FilterPredicate, InputError, Span,
};

fn one(text: &str) -> FilterPredicate {
    let mut ps = FilterPredicate::parse(text).unwrap();
    assert_eq!(ps.len(), 1);
    ps.pop().unwrap()
}

#[test]
fn canonical_round_trip() {
    for text in ["level:INFO", "#level:INFO+", "@env:prod", "#duration:>500", "#created:<=99"] {
        let p = one(text);
        let validated = match text {
            "#duration:>500" => BasicSpanFilter::validate(p).unwrap(),
            "#created:<=99" => BasicSpanFilter::validate(p).unwrap(),
            _ => BasicEventFilter::validate(p).unwrap(),
        };
        let rendered = validated.render();
        // the canonical text parses back to the same predicate
        let mut reparsed = FilterPredicate::parse(&rendered).unwrap();
        assert_eq!(reparsed.len(), 1);
        let back = reparsed.pop().unwrap();
        assert_eq!(back.property_kind, validated.property_kind);
        assert_eq!(back.property, validated.property);
        assert_eq!(back.value_operator, validated.value_operator);
        assert_eq!(back.value, validated.value);
        // prefix and operator are present in the canonical form
        assert!(rendered.starts_with('#') || rendered.starts_with('@'));
    }
}

#[test]
fn canonical_form_of_level_filter() {
    let p = one("level:INFO");
    let v = BasicEventFilter::validate(p).unwrap();
    assert_eq!(v.render(), "#level:INFO");
    let p = one("level:INFO+");
    let v = BasicEventFilter::validate(p).unwrap();
    assert_eq!(v.render(), "#level:>=INFO");
}

#[test]
fn parse_full_span_id_splits_at_dash() {
    assert_eq!(parse_full_span_id("12-34"), Some((12, 34)));
    assert_eq!(parse_full_span_id("12"), None);
    assert_eq!(parse_full_span_id("a-34"), None);
    assert_eq!(parse_full_span_id("12-b"), None);
    assert_eq!(parse_full_span_id(""), None);
}

#[test]
fn event_validation_errors() {
    let err = |text: &str| BasicEventFilter::validate(one(text)).unwrap_err();
    assert_eq!(err("level:LOUD"), InputError::InvalidLevelValue);
    assert_eq!(err("level:<INFO"), InputError::InvalidLevelOperator);
    assert_eq!(err("instance:abc"), InputError::InvalidInstanceValue);
    assert_eq!(err("instance:>5"), InputError::InvalidInstanceOperator);
    assert_eq!(err("@attr:>5"), InputError::InvalidAttributeOperator);
    assert_eq!(err("#nosuch:5"), InputError::InvalidInherentProperty);
    assert_eq!(err("stack:xyz"), InputError::InvalidStackValue);
    assert_eq!(err("stack:>1-2"), InputError::InvalidStackOperator);
}

#[test]
fn span_validation_errors() {
    let err = |text: &str| BasicSpanFilter::validate(one(text)).unwrap_err();
    assert_eq!(err("duration:abc"), InputError::InvalidDurationValue);
    assert_eq!(err("duration:100"), InputError::MissingDurationOperator);
    assert_eq!(err("duration:>=100"), InputError::InvalidDurationOperator);
    assert_eq!(err("name:>x"), InputError::InvalidNameOperator);
    assert_eq!(err("created:abc"), InputError::InvalidCreatedValue);
    assert_eq!(err("created:100"), InputError::MissingCreatedOperator);
    assert_eq!(err("parent:1-2"), InputError::InvalidParentValue);
    assert_eq!(err("parent:>none"), InputError::InvalidParentOperator);
}

#[test]
fn instance_validation_errors() {
    let err = |text: &str| BasicInstanceFilter::validate(one(text)).unwrap_err();
    assert_eq!(err("connected:abc"), InputError::InvalidCreatedValue);
    assert_eq!(err("disconnected:5"), InputError::MissingCreatedOperator);
    assert_eq!(err("#bogus:5"), InputError::InvalidInherentProperty);
}

#[test]
fn parse_api_validates_per_kind() {
    assert!(parse_event_filter("level:INFO @a:b").is_ok());
    assert!(matches!(
        parse_event_filter("duration:>5"),
        Err(FilterError::Input(InputError::InvalidAttributeOperator))
    ));
    assert!(parse_span_filter("duration:>5 name:work").is_ok());
    assert!(parse_instance_filter("connected:>5").is_ok());
    assert!(matches!(
        parse_event_filter("level"),
        Err(FilterError::Format(_))
    ));
    assert!(matches!(
        parse_event_filter(":x"),
        Err(FilterError::Format(_))
    ));
    assert!(matches!(
        parse_event_filter("a:"),
        Err(FilterError::Format(_))
    ));
}

#[test]
fn duration_bands_follow_binary_magnitude() {
    assert_eq!(venator_engine::index::band_of(1), 0);
    assert_eq!(venator_engine::index::band_of(2), 1);
    assert_eq!(venator_engine::index::band_of(1000), 9);
    assert_eq!(venator_engine::index::band_of(1024), 10);
    assert_eq!(venator_engine::index::band_of(u64::MAX), 63);
}

#[test]
fn resolution_prefers_the_innermost_value() {
    let mut own = Fields::new();
    own.insert("k".to_string(), "own".to_string());
    let mut outer_fields = Fields::new();
    outer_fields.insert("k".to_string(), "outer".to_string());
    outer_fields.insert("only_outer".to_string(), "o".to_string());
    let outer = Span {
        instance_key: 1,
        id: 1,
        created_at: 10,
        closed_at: None,
        parent_key: None,
        target: "t".to_string(),
        name: "outer".to_string(),
        level: venator_engine::Level::Info,
        file_name: None,
        file_line: None,
        fields: outer_fields,
    };
    let mut spans = HashMap::new();
    spans.insert(10u64, outer);
    let chain = vec![10u64];
    let r = venator_engine::filter::resolve_attribute(&own, &chain, &spans, "k");
    assert_eq!(r.as_deref(), Some("own"));
    let r = venator_engine::filter::resolve_attribute(&own, &chain, &spans, "only_outer");
    assert_eq!(r.as_deref(), Some("o"));
    let r = venator_engine::filter::resolve_attribute(&own, &chain, &spans, "missing");
    assert!(r.is_none());
}

#[test]
fn band_decision_table() {
    // A band [10, 20): a lower bound strictly below the band accepts it
    // whole; one at or above the top rejects it; anything else needs a
    // per-record check, including a bound equal to the lower edge.
    assert_eq!(DurationFilter::Gt(9).matches_duration_range(&(10..20)), Some(true));
    assert_eq!(DurationFilter::Gt(10).matches_duration_range(&(10..20)), None);
    assert_eq!(DurationFilter::Gt(19).matches_duration_range(&(10..20)), None);
    assert_eq!(DurationFilter::Gt(20).matches_duration_range(&(10..20)), Some(false));
    // An upper bound at or above the top accepts the whole band; one at
    // or below the bottom rejects it.
    assert_eq!(DurationFilter::Lt(20).matches_duration_range(&(10..20)), Some(true));
    assert_eq!(DurationFilter::Lt(15).matches_duration_range(&(10..20)), None);
    assert_eq!(DurationFilter::Lt(10).matches_duration_range(&(10..20)), Some(false));
    // The unbounded top band holds still-open spans, which count as
    // unboundedly long: no upper bound accepts it outright, and no
    // lower bound rejects it.
    assert_eq!(DurationFilter::Gt(u64::MAX - 1).matches_duration_range(&(1 << 63..u64::MAX)), None);
    assert_eq!(DurationFilter::Lt(u64::MAX).matches_duration_range(&(1 << 63..u64::MAX)), None);
}
