use chrono::{TimeZone, Utc};
use std::collections::hash_map::DefaultHasher;
use std::hash::{Hash, Hasher};
use vigil::event::{Event, Fields};
use vigil::index::{AggregationError, Index, SLACK};
use vigil::query::{Aggregation, ComparisonOp, Limit, Query, QueryPlan, QueryResult};
use vigil::time::Timestamp;
use vigil::time_index::TimeIndex;
use vigil::value::Value;

fn num(n: f32) -> Value {
    Value::Number(n.to_bits())
}

fn bits(n: f32) -> u32 {
    n.to_bits()
}

fn fields(list: Vec<(&str, Value)>) -> Fields {
    let mut fields = Fields::new();
    for (name, value) in list {
        fields.insert(name.to_string(), value);
    }
    fields
}

fn make_event(ts: Option<Timestamp>, list: Vec<(&str, Value)>) -> Event {
    Event::new(ts, "raw".to_string(), fields(list))
}

fn make_event_raw(raw: &str, list: Vec<(&str, Value)>) -> Event {
    Event::new(None, raw.to_string(), fields(list))
}

fn ts(year: i32, month: u32, day: u32) -> Timestamp {
    let t = Utc.with_ymd_and_hms(year, month, day, 0, 0, 0).unwrap();
    Timestamp::new(t.timestamp(), 0).unwrap()
}

fn result_count(r: Vec<&Event>) -> usize {
    r.len()
}

#[test]
fn test_event_count_empty() {
    let idx = Index::new(None);
    assert_eq!(idx.event_count(), 0);
}

#[test]
fn test_event_count_after_push() {
    let mut idx = Index::new(None);
    idx.push_event(make_event(None, vec![]));
    idx.push_event(make_event(None, vec![]));
    assert_eq!(idx.event_count(), 2);
}

#[test]
fn test_field_eq_match() {
    let mut idx = Index::new(None);
    idx.push_event(make_event(
        None,
        vec![("level", Value::String("error".into()))],
    ));
    idx.push_event(make_event(
        None,
        vec![("level", Value::String("info".into()))],
    ));

    let q = Query::FieldComparison {
        field: "level".into(),
        op: ComparisonOp::Eq,
        value: Value::String("error".into()),
    };
    assert_eq!(result_count(idx.apply_query(&q)), 1);
}

#[test]
fn test_field_eq_no_match() {
    let mut idx = Index::new(None);
    idx.push_event(make_event(
        None,
        vec![("level", Value::String("info".into()))],
    ));

    let q = Query::FieldComparison {
        field: "level".into(),
        op: ComparisonOp::Eq,
        value: Value::String("error".into()),
    };
    assert_eq!(result_count(idx.apply_query(&q)), 0);
}

#[test]
fn test_field_missing_returns_empty() {
    let idx = Index::new(None);
    let q = Query::FieldComparison {
        field: "nonexistent".into(),
        op: ComparisonOp::Eq,
        value: Value::String("x".into()),
    };
    assert_eq!(result_count(idx.apply_query(&q)), 0);
}

#[test]
fn index_test_field_ne() {
    let mut idx = Index::new(None);
    idx.push_event(make_event(
        None,
        vec![("level", Value::String("error".into()))],
    ));
    idx.push_event(make_event(
        None,
        vec![("level", Value::String("info".into()))],
    ));

    let q = Query::FieldComparison {
        field: "level".into(),
        op: ComparisonOp::Ne,
        value: Value::String("error".into()),
    };
    assert_eq!(result_count(idx.apply_query(&q)), 1);
}

#[test]
fn test_field_gt_number() {
    let mut idx = Index::new(None);
    idx.push_event(make_event(None, vec![("code", num(200.0))]));
    idx.push_event(make_event(None, vec![("code", num(500.0))]));
    idx.push_event(make_event(None, vec![("code", num(404.0))]));

    let q = Query::FieldComparison {
        field: "code".into(),
        op: ComparisonOp::Gt,
        value: num(400.0),
    };
    assert_eq!(result_count(idx.apply_query(&q)), 2);
}

#[test]
fn test_field_lt_number() {
    let mut idx = Index::new(None);
    idx.push_event(make_event(None, vec![("code", num(100.0))]));
    idx.push_event(make_event(None, vec![("code", num(200.0))]));
    idx.push_event(make_event(None, vec![("code", num(300.0))]));

    let q = Query::FieldComparison {
        field: "code".into(),
        op: ComparisonOp::Lt,
        value: num(200.0),
    };
    assert_eq!(result_count(idx.apply_query(&q)), 1);
}

#[test]
fn test_field_ge_number() {
    let mut idx = Index::new(None);
    idx.push_event(make_event(None, vec![("code", num(100.0))]));
    idx.push_event(make_event(None, vec![("code", num(200.0))]));
    idx.push_event(make_event(None, vec![("code", num(300.0))]));

    let q = Query::FieldComparison {
        field: "code".into(),
        op: ComparisonOp::Ge,
        value: num(200.0),
    };
    assert_eq!(result_count(idx.apply_query(&q)), 2);
}

#[test]
fn test_field_le_number() {
    let mut idx = Index::new(None);
    idx.push_event(make_event(None, vec![("code", num(100.0))]));
    idx.push_event(make_event(None, vec![("code", num(200.0))]));
    idx.push_event(make_event(None, vec![("code", num(300.0))]));

    let q = Query::FieldComparison {
        field: "code".into(),
        op: ComparisonOp::Le,
        value: num(200.0),
    };
    assert_eq!(result_count(idx.apply_query(&q)), 2);
}

#[test]
fn test_field_contains_substring() {
    let mut idx = Index::new(None);
    idx.push_event(make_event(
        None,
        vec![(
            "message",
            Value::String("connection timeout after 30s".into()),
        )],
    ));
    idx.push_event(make_event(
        None,
        vec![("message", Value::String("request ok".into()))],
    ));

    let q = Query::FieldComparison {
        field: "message".into(),
        op: ComparisonOp::Contains,
        value: Value::String("timeout".into()),
    };
    assert_eq!(result_count(idx.apply_query(&q)), 1);
}

#[test]
fn test_field_contains_no_match() {
    let mut idx = Index::new(None);
    idx.push_event(make_event(
        None,
        vec![("message", Value::String("request ok".into()))],
    ));

    let q = Query::FieldComparison {
        field: "message".into(),
        op: ComparisonOp::Contains,
        value: Value::String("timeout".into()),
    };
    assert_eq!(result_count(idx.apply_query(&q)), 0);
}

#[test]
fn test_field_contains_non_string_field_no_match() {
    let mut idx = Index::new(None);
    idx.push_event(make_event(None, vec![("status", num(500.0))]));

    let q = Query::FieldComparison {
        field: "status".into(),
        op: ComparisonOp::Contains,
        value: Value::String("500".into()),
    };
    assert_eq!(result_count(idx.apply_query(&q)), 0);
}

#[test]
fn test_time_range_both_bounds() {
    let mut idx = Index::new(None);
    idx.push_event(make_event(Some(ts(2024, 1, 1)), vec![]));
    idx.push_event(make_event(Some(ts(2024, 6, 1)), vec![]));
    idx.push_event(make_event(Some(ts(2024, 12, 31)), vec![]));

    let q = Query::TimeRange {
        start: Some(ts(2024, 1, 1)),
        end: Some(ts(2024, 6, 1)),
    };
    assert_eq!(result_count(idx.apply_query(&q)), 2);
}

#[test]
fn test_time_range_no_bounds() {
    let mut idx = Index::new(None);
    idx.push_event(make_event(Some(ts(2023, 1, 1)), vec![]));
    idx.push_event(make_event(Some(ts(2024, 1, 1)), vec![]));

    let q = Query::TimeRange {
        start: None,
        end: None,
    };
    assert_eq!(result_count(idx.apply_query(&q)), 2);
}

#[test]
fn test_time_range_no_matches() {
    let mut idx = Index::new(None);
    idx.push_event(make_event(Some(ts(2020, 1, 1)), vec![]));
    idx.push_event(make_event(Some(ts(2021, 1, 1)), vec![]));

    let q = Query::TimeRange {
        start: Some(ts(2024, 1, 1)),
        end: Some(ts(2024, 12, 31)),
    };
    assert_eq!(result_count(idx.apply_query(&q)), 0);
}

#[test]
fn test_time_range_open_start() {
    let mut idx = Index::new(None);
    idx.push_event(make_event(Some(ts(2022, 1, 1)), vec![]));
    idx.push_event(make_event(Some(ts(2024, 1, 1)), vec![]));

    let q = Query::TimeRange {
        start: None,
        end: Some(ts(2023, 1, 1)),
    };
    assert_eq!(result_count(idx.apply_query(&q)), 1);
}

#[test]
fn test_time_range_open_end() {
    let mut idx = Index::new(None);
    idx.push_event(make_event(Some(ts(2022, 1, 1)), vec![]));
    idx.push_event(make_event(Some(ts(2024, 1, 1)), vec![]));

    let q = Query::TimeRange {
        start: Some(ts(2023, 1, 1)),
        end: None,
    };
    assert_eq!(result_count(idx.apply_query(&q)), 1);
}

#[test]
fn test_event_without_timestamp_excluded_from_time_range() {
    let mut idx = Index::new(None);
    idx.push_event(make_event(None, vec![]));

    let q = Query::TimeRange {
        start: None,
        end: None,
    };
    assert_eq!(result_count(idx.apply_query(&q)), 0);
}

// --- And ---

#[test]
fn test_and_two_field_match() {
    let mut idx = Index::new(None);
    idx.push_event(make_event_raw(
        "e1",
        vec![
            ("level", Value::String("error".into())),
            ("service", Value::String("auth".into())),
        ],
    ));
    idx.push_event(make_event_raw(
        "e2",
        vec![
            ("level", Value::String("error".into())),
            ("service", Value::String("api".into())),
        ],
    ));
    idx.push_event(make_event_raw(
        "e3",
        vec![
            ("level", Value::String("info".into())),
            ("service", Value::String("auth".into())),
        ],
    ));

    let q = Query::And(vec![
        Query::FieldComparison {
            field: "level".into(),
            op: ComparisonOp::Eq,
            value: Value::String("error".into()),
        },
        Query::FieldComparison {
            field: "service".into(),
            op: ComparisonOp::Eq,
            value: Value::String("auth".into()),
        },
    ]);
    assert_eq!(result_count(idx.apply_query(&q)), 1);
}

#[test]
fn test_and_no_matches() {
    let mut idx = Index::new(None);
    idx.push_event(make_event_raw(
        "e1",
        vec![
            ("level", Value::String("error".into())),
            ("service", Value::String("api".into())),
        ],
    ));
    idx.push_event(make_event_raw(
        "e2",
        vec![
            ("level", Value::String("info".into())),
            ("service", Value::String("auth".into())),
        ],
    ));

    let q = Query::And(vec![
        Query::FieldComparison {
            field: "level".into(),
            op: ComparisonOp::Eq,
            value: Value::String("error".into()),
        },
        Query::FieldComparison {
            field: "service".into(),
            op: ComparisonOp::Eq,
            value: Value::String("auth".into()),
        },
    ]);
    assert_eq!(result_count(idx.apply_query(&q)), 0);
}

#[test]
fn test_and_all_match() {
    let mut idx = Index::new(None);
    idx.push_event(make_event_raw(
        "e1",
        vec![
            ("level", Value::String("error".into())),
            ("service", Value::String("auth".into())),
        ],
    ));
    idx.push_event(make_event_raw(
        "e2",
        vec![
            ("level", Value::String("error".into())),
            ("service", Value::String("auth".into())),
        ],
    ));

    let q = Query::And(vec![
        Query::FieldComparison {
            field: "level".into(),
            op: ComparisonOp::Eq,
            value: Value::String("error".into()),
        },
        Query::FieldComparison {
            field: "service".into(),
            op: ComparisonOp::Eq,
            value: Value::String("auth".into()),
        },
    ]);
    assert_eq!(result_count(idx.apply_query(&q)), 2);
}

#[test]
fn test_and_field_and_time_range() {
    let mut idx = Index::new(None);
    idx.push_event(Event::new(
        Some(ts(2024, 6, 1)),
        "e1".to_string(),
        fields(vec![("level", Value::String("error".into()))]),
    ));
    idx.push_event(Event::new(
        Some(ts(2024, 6, 1)),
        "e2".to_string(),
        fields(vec![("level", Value::String("info".into()))]),
    ));
    idx.push_event(Event::new(
        Some(ts(2025, 1, 1)),
        "e3".to_string(),
        fields(vec![("level", Value::String("error".into()))]),
    ));

    let q = Query::And(vec![
        Query::FieldComparison {
            field: "level".into(),
            op: ComparisonOp::Eq,
            value: Value::String("error".into()),
        },
        Query::TimeRange {
            start: Some(ts(2024, 1, 1)),
            end: Some(ts(2024, 12, 31)),
        },
    ]);
    assert_eq!(result_count(idx.apply_query(&q)), 1);
}

// --- Or ---

#[test]
fn test_or_disjoint_sets() {
    let mut idx = Index::new(None);
    idx.push_event(make_event_raw(
        "e1",
        vec![("level", Value::String("error".into()))],
    ));
    idx.push_event(make_event_raw(
        "e2",
        vec![("level", Value::String("warn".into()))],
    ));
    idx.push_event(make_event_raw(
        "e3",
        vec![("level", Value::String("info".into()))],
    ));

    let q = Query::Or(vec![
        Query::FieldComparison {
            field: "level".into(),
            op: ComparisonOp::Eq,
            value: Value::String("error".into()),
        },
        Query::FieldComparison {
            field: "level".into(),
            op: ComparisonOp::Eq,
            value: Value::String("warn".into()),
        },
    ]);
    assert_eq!(result_count(idx.apply_query(&q)), 2);
}

#[test]
fn test_or_overlapping_sets_no_dedup() {
    let mut idx = Index::new(None);
    idx.push_event(make_event_raw(
        "e1",
        vec![
            ("level", Value::String("error".into())),
            ("service", Value::String("auth".into())),
        ],
    ));
    idx.push_event(make_event_raw(
        "e2",
        vec![
            ("level", Value::String("info".into())),
            ("service", Value::String("auth".into())),
        ],
    ));

    // e1 matches both sub-queries — should appear once, not twice
    let q = Query::Or(vec![
        Query::FieldComparison {
            field: "level".into(),
            op: ComparisonOp::Eq,
            value: Value::String("error".into()),
        },
        Query::FieldComparison {
            field: "service".into(),
            op: ComparisonOp::Eq,
            value: Value::String("auth".into()),
        },
    ]);
    assert_eq!(result_count(idx.apply_query(&q)), 2);
}

#[test]
fn test_or_no_matches() {
    let mut idx = Index::new(None);
    idx.push_event(make_event_raw(
        "e1",
        vec![("level", Value::String("info".into()))],
    ));

    let q = Query::Or(vec![
        Query::FieldComparison {
            field: "level".into(),
            op: ComparisonOp::Eq,
            value: Value::String("error".into()),
        },
        Query::FieldComparison {
            field: "level".into(),
            op: ComparisonOp::Eq,
            value: Value::String("warn".into()),
        },
    ]);
    assert_eq!(result_count(idx.apply_query(&q)), 0);
}

#[test]
fn test_or_all_match() {
    let mut idx = Index::new(None);
    idx.push_event(make_event_raw(
        "e1",
        vec![("level", Value::String("error".into()))],
    ));
    idx.push_event(make_event_raw(
        "e2",
        vec![("level", Value::String("warn".into()))],
    ));

    let q = Query::Or(vec![
        Query::FieldComparison {
            field: "level".into(),
            op: ComparisonOp::Eq,
            value: Value::String("error".into()),
        },
        Query::FieldComparison {
            field: "level".into(),
            op: ComparisonOp::Eq,
            value: Value::String("warn".into()),
        },
    ]);
    assert_eq!(result_count(idx.apply_query(&q)), 2);
}

// --- Not ---

#[test]
fn test_not_excludes_matches() {
    let mut idx = Index::new(None);
    idx.push_event(make_event_raw("e1", vec![("status", num(500.0))]));
    idx.push_event(make_event_raw("e2", vec![("status", num(200.0))]));
    idx.push_event(make_event_raw("e3", vec![("status", num(500.0))]));

    let q = Query::Not(Box::new(eq("status", num(500.0))));
    let raws: Vec<&str> = idx.apply_query(&q).iter().map(|e| e.raw.as_str()).collect();
    assert_eq!(raws, vec!["e2"]);
}

#[test]
fn test_not_includes_events_missing_field() {
    let mut idx = Index::new(None);
    idx.push_event(make_event_raw("e1", vec![("status", num(500.0))]));
    idx.push_event(make_event_raw(
        "e2",
        vec![("level", Value::String("info".into()))],
    ));

    // The complement is over all events, so events without the field match too.
    let q = Query::Not(Box::new(eq("status", num(500.0))));
    let raws: Vec<&str> = idx.apply_query(&q).iter().map(|e| e.raw.as_str()).collect();
    assert_eq!(raws, vec!["e2"]);
}

#[test]
fn test_not_no_matches_returns_all() {
    let mut idx = Index::new(None);
    idx.push_event(make_event_raw("e1", vec![("status", num(200.0))]));
    idx.push_event(make_event_raw("e2", vec![("status", num(404.0))]));

    let q = Query::Not(Box::new(eq("status", num(500.0))));
    assert_eq!(result_count(idx.apply_query(&q)), 2);
}

#[test]
fn test_and_with_not() {
    let mut idx = Index::new(None);
    idx.push_event(make_event_raw(
        "e1",
        vec![
            ("status", num(500.0)),
            ("level", Value::String("info".into())),
        ],
    ));
    idx.push_event(make_event_raw(
        "e2",
        vec![
            ("status", num(500.0)),
            ("level", Value::String("error".into())),
        ],
    ));
    idx.push_event(make_event_raw(
        "e3",
        vec![
            ("status", num(200.0)),
            ("level", Value::String("error".into())),
        ],
    ));

    let q = Query::And(vec![
        eq("status", num(500.0)),
        Query::Not(Box::new(eq("level", Value::String("info".into())))),
    ]);
    let raws: Vec<&str> = idx.apply_query(&q).iter().map(|e| e.raw.as_str()).collect();
    assert_eq!(raws, vec!["e2"]);
}

// --- Ordering & matching_indices ---

#[test]
fn test_results_in_insertion_order() {
    let mut idx = Index::new(None);
    for (raw, level) in [
        ("e1", "error"),
        ("e2", "info"),
        ("e3", "error"),
        ("e4", "info"),
        ("e5", "error"),
    ] {
        idx.push_event(make_event_raw(
            raw,
            vec![("level", Value::String(level.into()))],
        ));
    }

    let q = Query::FieldComparison {
        field: "level".into(),
        op: ComparisonOp::Ne,
        value: Value::String("info".into()),
    };
    let raws: Vec<&str> = idx.apply_query(&q).iter().map(|e| e.raw.as_str()).collect();
    assert_eq!(raws, vec!["e1", "e3", "e5"]);
}

#[test]
fn test_or_containing_and() {
    let mut idx = Index::new(None);
    idx.push_event(make_event_raw(
        "e1",
        vec![("a", num(1.0)), ("b", num(2.0))],
    ));
    idx.push_event(make_event_raw("e2", vec![("c", num(3.0))]));
    idx.push_event(make_event_raw("e3", vec![("a", num(1.0))]));

    let q = Query::Or(vec![
        Query::And(vec![
            eq("a", num(1.0)),
            eq("b", num(2.0)),
        ]),
        eq("c", num(3.0)),
    ]);
    let raws: Vec<&str> = idx.apply_query(&q).iter().map(|e| e.raw.as_str()).collect();
    assert_eq!(raws, vec!["e1", "e2"]);
}

#[test]
fn test_matching_indices_sorted_deduped() {
    let mut idx = Index::new(None);
    idx.push_event(make_event_raw(
        "e1",
        vec![
            ("level", Value::String("error".into())),
            ("service", Value::String("auth".into())),
        ],
    ));
    idx.push_event(make_event_raw(
        "e2",
        vec![("level", Value::String("error".into()))],
    ));

    // e1 matches both arms of the OR — must appear once
    let q = Query::Or(vec![
        eq("level", Value::String("error".into())),
        eq("service", Value::String("auth".into())),
    ]);
    assert_eq!(idx.matching_indices(&q), vec![0, 1]);
}

// --- Aggregations ---

fn make_plan(query: Query, aggregation: Option<Aggregation>) -> QueryPlan {
    QueryPlan::new(query, aggregation, None)
}

fn eq(field: &str, value: Value) -> Query {
    Query::FieldComparison {
        field: field.to_string(),
        op: ComparisonOp::Eq,
        value,
    }
}

#[test]
fn test_count_basic() {
    let mut idx = Index::new(None);
    idx.push_event(make_event_raw("e1", vec![("status", num(500.0))]));
    idx.push_event(make_event_raw("e2", vec![("status", num(500.0))]));
    idx.push_event(make_event_raw("e3", vec![("status", num(200.0))]));

    let plan = make_plan(eq("status", num(500.0)), Some(Aggregation::Count));
    assert_eq!(idx.apply_query_plan(&plan).unwrap(), QueryResult::Count(2));
}

#[test]
fn test_count_no_matches() {
    let mut idx = Index::new(None);
    idx.push_event(make_event_raw("e1", vec![("status", num(200.0))]));

    let plan = make_plan(eq("status", num(500.0)), Some(Aggregation::Count));
    assert_eq!(idx.apply_query_plan(&plan).unwrap(), QueryResult::Count(0));
}

#[test]
fn test_avg_basic() {
    let mut idx = Index::new(None);
    idx.push_event(make_event_raw(
        "e1",
        vec![("latency", num(100.0))],
    ));
    idx.push_event(make_event_raw(
        "e2",
        vec![("latency", num(200.0))],
    ));
    idx.push_event(make_event_raw(
        "e3",
        vec![("latency", num(300.0))],
    ));

    let plan = make_plan(
        Query::FieldComparison {
            field: "latency".into(),
            op: ComparisonOp::Gt,
            value: num(0.0),
        },
        Some(Aggregation::Average("latency".into())),
    );
    assert_eq!(
        idx.apply_query_plan(&plan).unwrap(),
        QueryResult::Scalar(bits(200.0))
    );
}

#[test]
fn test_avg_skips_events_missing_field() {
    let mut idx = Index::new(None);
    idx.push_event(make_event_raw(
        "e1",
        vec![("latency", num(100.0))],
    ));
    idx.push_event(make_event_raw(
        "e2",
        vec![("latency", num(300.0))],
    ));
    idx.push_event(make_event_raw("e3", vec![])); // no latency field

    let plan = make_plan(
        Query::FieldComparison {
            field: "latency".into(),
            op: ComparisonOp::Gt,
            value: num(0.0),
        },
        Some(Aggregation::Average("latency".into())),
    );
    // average of 100 and 300 only, e3 skipped
    assert_eq!(
        idx.apply_query_plan(&plan).unwrap(),
        QueryResult::Scalar(bits(200.0))
    );
}

#[test]
fn test_avg_error_no_matching_events() {
    let mut idx = Index::new(None);
    idx.push_event(make_event_raw("e1", vec![("status", num(200.0))]));

    let plan = make_plan(
        eq("status", num(500.0)),
        Some(Aggregation::Average("latency".into())),
    );
    assert!(matches!(
        idx.apply_query_plan(&plan),
        Err(AggregationError::NoMatchingEvents)
    ));
}

#[test]
fn test_avg_error_field_not_found() {
    let mut idx = Index::new(None);
    idx.push_event(make_event_raw("e1", vec![("status", num(500.0))]));

    let plan = make_plan(
        eq("status", num(500.0)),
        Some(Aggregation::Average("latency".into())),
    );
    assert!(matches!(
        idx.apply_query_plan(&plan),
        Err(AggregationError::FieldNotFound(_))
    ));
}

#[test]
fn test_avg_error_incompatible_type_string() {
    let mut idx = Index::new(None);
    idx.push_event(make_event_raw(
        "e1",
        vec![("level", Value::String("ERROR".into()))],
    ));

    let plan = make_plan(
        eq("level", Value::String("ERROR".into())),
        Some(Aggregation::Average("level".into())),
    );
    assert!(matches!(
        idx.apply_query_plan(&plan),
        Err(AggregationError::IncompatibleType(_))
    ));
}

#[test]
fn test_avg_error_incompatible_type_bool() {
    let mut idx = Index::new(None);
    idx.push_event(make_event_raw("e1", vec![("active", Value::Bool(true))]));

    let plan = make_plan(
        eq("active", Value::Bool(true)),
        Some(Aggregation::Average("active".into())),
    );
    assert!(matches!(
        idx.apply_query_plan(&plan),
        Err(AggregationError::IncompatibleType(_))
    ));
}

fn latency_index() -> Index {
    let mut idx = Index::new(None);
    idx.push_event(make_event_raw(
        "e1",
        vec![("latency", num(100.0))],
    ));
    idx.push_event(make_event_raw(
        "e2",
        vec![("latency", num(300.0))],
    ));
    idx.push_event(make_event_raw(
        "e3",
        vec![("latency", num(200.0))],
    ));
    idx
}

#[test]
fn test_sum_basic() {
    let idx = latency_index();

    let plan = make_plan(Query::All(), Some(Aggregation::Sum("latency".into())));
    assert_eq!(
        idx.apply_query_plan(&plan).unwrap(),
        QueryResult::Scalar(bits(600.0))
    );
}

#[test]
fn test_min_basic() {
    let idx = latency_index();

    let plan = make_plan(Query::All(), Some(Aggregation::Min("latency".into())));
    assert_eq!(
        idx.apply_query_plan(&plan).unwrap(),
        QueryResult::Scalar(bits(100.0))
    );
}

#[test]
fn test_max_basic() {
    let idx = latency_index();

    let plan = make_plan(Query::All(), Some(Aggregation::Max("latency".into())));
    assert_eq!(
        idx.apply_query_plan(&plan).unwrap(),
        QueryResult::Scalar(bits(300.0))
    );
}

#[test]
fn test_sum_error_no_matching_events() {
    let mut idx = Index::new(None);
    idx.push_event(make_event_raw("e1", vec![("status", num(200.0))]));

    let plan = make_plan(
        eq("status", num(500.0)),
        Some(Aggregation::Sum("latency".into())),
    );
    assert!(matches!(
        idx.apply_query_plan(&plan),
        Err(AggregationError::NoMatchingEvents)
    ));
}

#[test]
fn test_min_error_no_matching_events() {
    let mut idx = Index::new(None);
    idx.push_event(make_event_raw("e1", vec![("status", num(200.0))]));

    let plan = make_plan(
        eq("status", num(500.0)),
        Some(Aggregation::Min("latency".into())),
    );
    assert!(matches!(
        idx.apply_query_plan(&plan),
        Err(AggregationError::NoMatchingEvents)
    ));
}

#[test]
fn test_max_error_no_matching_events() {
    let mut idx = Index::new(None);
    idx.push_event(make_event_raw("e1", vec![("status", num(200.0))]));

    let plan = make_plan(
        eq("status", num(500.0)),
        Some(Aggregation::Max("latency".into())),
    );
    assert!(matches!(
        idx.apply_query_plan(&plan),
        Err(AggregationError::NoMatchingEvents)
    ));
}

#[test]
fn test_sum_error_incompatible_type() {
    let mut idx = Index::new(None);
    idx.push_event(make_event_raw(
        "e1",
        vec![("level", Value::String("ERROR".into()))],
    ));

    let plan = make_plan(
        eq("level", Value::String("ERROR".into())),
        Some(Aggregation::Sum("level".into())),
    );
    assert!(matches!(
        idx.apply_query_plan(&plan),
        Err(AggregationError::IncompatibleType(_))
    ));
}

#[test]
fn test_min_error_incompatible_type() {
    let mut idx = Index::new(None);
    idx.push_event(make_event_raw(
        "e1",
        vec![("level", Value::String("ERROR".into()))],
    ));

    let plan = make_plan(
        eq("level", Value::String("ERROR".into())),
        Some(Aggregation::Min("level".into())),
    );
    assert!(matches!(
        idx.apply_query_plan(&plan),
        Err(AggregationError::IncompatibleType(_))
    ));
}

#[test]
fn test_max_error_incompatible_type() {
    let mut idx = Index::new(None);
    idx.push_event(make_event_raw(
        "e1",
        vec![("level", Value::String("ERROR".into()))],
    ));

    let plan = make_plan(
        eq("level", Value::String("ERROR".into())),
        Some(Aggregation::Max("level".into())),
    );
    assert!(matches!(
        idx.apply_query_plan(&plan),
        Err(AggregationError::IncompatibleType(_))
    ));
}

// --- Limits ---

fn level_index() -> Index {
    let mut idx = Index::new(None);
    for (raw, level) in [
        ("e1", "error"),
        ("e2", "info"),
        ("e3", "error"),
        ("e4", "error"),
        ("e5", "error"),
    ] {
        idx.push_event(make_event_raw(
            raw,
            vec![("level", Value::String(level.into()))],
        ));
    }
    idx
}

fn result_raws<'a>(result: QueryResult<'a>) -> Vec<&'a str> {
    match result {
        QueryResult::Events(events) => events.iter().map(|e| e.raw.as_str()).collect(),
        other => panic!("expected events, got {:?}", other),
    }
}

#[test]
fn test_limit_head_truncates_to_first_n() {
    let idx = level_index();
    let plan = QueryPlan::new(
        eq("level", Value::String("error".into())),
        None,
        Some(Limit::Head(2)),
    );
    assert_eq!(
        result_raws(idx.apply_query_plan(&plan).unwrap()),
        vec!["e1", "e3"]
    );
}

#[test]
fn test_limit_tail_keeps_last_n_ascending() {
    let idx = level_index();
    let plan = QueryPlan::new(
        eq("level", Value::String("error".into())),
        None,
        Some(Limit::Tail(2)),
    );
    assert_eq!(
        result_raws(idx.apply_query_plan(&plan).unwrap()),
        vec!["e4", "e5"]
    );
}

#[test]
fn test_limit_larger_than_results_returns_all() {
    let idx = level_index();
    for limit in [Limit::Head(10), Limit::Tail(10)] {
        let plan = QueryPlan::new(
            eq("level", Value::String("error".into())),
            None,
            Some(limit),
        );
        assert_eq!(
            result_raws(idx.apply_query_plan(&plan).unwrap()),
            vec!["e1", "e3", "e4", "e5"]
        );
    }
}

#[test]
fn test_no_limit_returns_all_matches() {
    let idx = level_index();
    let plan = QueryPlan::new(eq("level", Value::String("error".into())), None, None);
    assert_eq!(
        result_raws(idx.apply_query_plan(&plan).unwrap()),
        vec!["e1", "e3", "e4", "e5"]
    );
}

// --- Bounded memory / retention ---

fn numbered_event(i: usize) -> Event {
    Event::new(
        Timestamp::new(i as i64 + 1, 0),
        format!("e{i}"),
        fields(vec![("n", num(i as f32))]),
    )
}

#[test]
fn test_no_eviction_at_cap_plus_slack_boundary() {
    let max = 3;
    let mut idx = Index::new(Some(max));
    for i in 0..(max + SLACK) {
        idx.push_event(numbered_event(i));
    }

    // Compaction only triggers strictly past max + SLACK, so nothing is evicted yet.
    assert_eq!(idx.event_count(), max + SLACK);
}

#[test]
fn test_eviction_past_cap_evicts_oldest() {
    let max = 3;
    let total = max + SLACK + 1;
    let mut idx = Index::new(Some(max));
    for i in 0..total {
        idx.push_event(numbered_event(i));
    }

    // One push past the boundary compacts back down to exactly `max`.
    assert_eq!(idx.event_count(), max);

    // The survivors are the most recent `max` events, in order.
    let survivors: Vec<String> = idx.events.iter().map(|e| e.raw.clone()).collect();
    let expected: Vec<String> = ((total - max)..total).map(|i| format!("e{i}")).collect();
    assert_eq!(survivors, expected);
}

#[test]
fn test_queries_see_only_recent_after_eviction() {
    let max = 3;
    let total = max + SLACK + 1;
    let mut idx = Index::new(Some(max));
    for i in 0..total {
        idx.push_event(numbered_event(i));
    }

    // An evicted event's field value is no longer queryable.
    let evicted = Query::FieldComparison {
        field: "n".into(),
        op: ComparisonOp::Eq,
        value: num(0.0),
    };
    assert_eq!(result_count(idx.apply_query(&evicted)), 0);

    // A retained event still matches exactly once and resolves to the right event.
    let retained = Query::FieldComparison {
        field: "n".into(),
        op: ComparisonOp::Eq,
        value: num((total - 1) as f32),
    };
    let hits = idx.apply_query(&retained);
    assert_eq!(hits.len(), 1);
    assert_eq!(hits[0].raw, format!("e{}", total - 1));
}

#[test]
fn test_indexes_have_no_stale_positions_after_reindex() {
    let max = 5;
    // Two full compaction cycles, landing exactly on a boundary so the count is `max`.
    let total = max + 2 * (SLACK + 1);
    let mut idx = Index::new(Some(max));
    for i in 0..total {
        idx.push_event(numbered_event(i));
    }
    assert_eq!(idx.event_count(), max);

    // Every position that a value is found at points into the live events and back to the event
    // that actually holds that value.
    let mut found: usize = 0;
    for i in 0..total {
        let value = num(i as f32);
        for pos in idx.matching_indices(&eq("n", num(i as f32))) {
            assert!(pos < idx.events.len());
            assert_eq!(idx.events[pos].fields.get("n"), Some(&value));
            found += 1;
        }
    }
    assert_eq!(found, max);

    // Same for the times.
    let mut timed: usize = 0;
    for i in 0..total {
        let timestamp = Timestamp::new(i as i64 + 1, 0);
        let q = Query::TimeRange { start: timestamp, end: timestamp };
        for pos in idx.matching_indices(&q) {
            assert!(pos < idx.events.len());
            assert_eq!(idx.events[pos].timestamp, timestamp);
            timed += 1;
        }
    }
    assert_eq!(timed, max);
}

#[test]
fn test_pushes_after_compaction_are_indexed_correctly() {
    let max = 3;
    let total = max + SLACK + 1;
    let mut idx = Index::new(Some(max));
    for i in 0..total {
        idx.push_event(numbered_event(i));
    }

    // Events added after a compaction must be positioned and indexed correctly.
    idx.push_event(numbered_event(total));
    idx.push_event(numbered_event(total + 1));

    let q = Query::FieldComparison {
        field: "n".into(),
        op: ComparisonOp::Eq,
        value: num((total + 1) as f32),
    };
    let hits = idx.apply_query(&q);
    assert_eq!(hits.len(), 1);
    assert_eq!(hits[0].raw, format!("e{}", total + 1));
}

// --- Percentiles ---

fn percentile(values: Vec<f32>, p: f32) -> Result<f32, AggregationError> {
    let mut idx = Index::new(None);
    for value in values {
        idx.push_event(make_event_raw("e", vec![("latency", num(value))]));
    }
    let plan = make_plan(
        Query::All(),
        Some(Aggregation::Percentage("latency".into(), bits(p))),
    );
    assert!(idx.can_apply(&plan));
    match idx.apply_query_plan(&plan)? {
        QueryResult::Scalar(bits) => Ok(f32::from_bits(bits)),
        other => panic!("expected a number, got {:?}", other),
    }
}

#[test]
fn percentile_picks_by_nearest_rank() {
    let values: Vec<f32> = (1..=10).rev().map(|n| n as f32).collect();
    assert_eq!(percentile(values.clone(), 0.5), Ok(5.0));
    assert_eq!(percentile(values.clone(), 0.9), Ok(9.0));
    assert_eq!(percentile(values.clone(), 0.99), Ok(10.0));
    assert_eq!(percentile(values.clone(), 1.0), Ok(10.0));
    assert_eq!(percentile(values.clone(), 0.01), Ok(1.0));
    assert_eq!(percentile(values, f32::from_bits(1)), Ok(1.0));
}

#[test]
fn percentile_of_one_value() {
    assert_eq!(percentile(vec![7.5], 0.01), Ok(7.5));
    assert_eq!(percentile(vec![7.5], 1.0), Ok(7.5));
}

#[test]
fn percentile_rank_is_computed_in_single_precision() {
    // 0.09 * 300 is 27.000002 in single precision, which rounds up to the 28th.
    let values: Vec<f32> = (1..=300).map(|n| n as f32).collect();
    let expected = values[(0.09f32 * 300.0f32).ceil() as usize - 1];
    assert_eq!(percentile(values, 0.09), Ok(expected));
}

#[test]
fn percentile_out_of_range() {
    for p in [0.0, -0.0, -0.5, 1.01, 100.0, f32::INFINITY, f32::NEG_INFINITY] {
        assert_eq!(percentile(vec![1.0], p), Err(AggregationError::InvalidPercentile));
    }
    assert_eq!(percentile(vec![], 0.5), Err(AggregationError::NoMatchingEvents));
}

#[test]
fn a_fraction_that_is_no_number_has_no_answer() {
    let plan = make_plan(
        Query::All(),
        Some(Aggregation::Percentage("latency".into(), bits(f32::NAN))),
    );
    let mut idx = Index::new(None);
    assert!(idx.can_apply(&plan));
    assert_eq!(idx.apply_query_plan(&plan), Err(AggregationError::NoMatchingEvents));
    idx.push_event(make_event_raw("e", vec![("latency", num(1.0))]));
    assert!(!idx.can_apply(&plan));
}

#[test]
fn percentile_values_are_sorted_with_negative_numbers_first() {
    let values = vec![0.0f32, -1.5, 3.0, -0.0, -7.0, 2.5];
    let sorted = [-7.0f32, -1.5, -0.0, 0.0, 2.5, 3.0];
    for (i, expected) in sorted.iter().enumerate() {
        let found = percentile(values.clone(), (i + 1) as f32 / 6.0).unwrap();
        assert_eq!(bits(found), bits(*expected));
    }
}

#[test]
fn minimum_and_maximum_follow_the_total_order() {
    let mut idx = Index::new(None);
    for value in [0.0f32, -0.0, 0.0] {
        idx.push_event(make_event_raw("e", vec![("v", num(value))]));
    }
    let min = make_plan(Query::All(), Some(Aggregation::Min("v".into())));
    let max = make_plan(Query::All(), Some(Aggregation::Max("v".into())));
    assert_eq!(idx.apply_query_plan(&min), Ok(QueryResult::Scalar(bits(-0.0))));
    assert_eq!(idx.apply_query_plan(&max), Ok(QueryResult::Scalar(bits(0.0))));
}

// --- Counting by a field ---

#[test]
fn count_by_counts_events_with_the_field() {
    let mut idx = Index::new(None);
    idx.push_event(make_event_raw("e1", vec![("id", num(1.0))]));
    idx.push_event(make_event_raw("e2", vec![("other", num(1.0))]));
    idx.push_event(make_event_raw("e3", vec![("id", Value::Bool(false))]));
    let plan = make_plan(Query::All(), Some(Aggregation::CountBy("id".into())));
    assert_eq!(idx.apply_query_plan(&plan), Ok(QueryResult::CountBy(2)));
}

#[test]
fn sums_are_added_up_from_first_to_last() {
    // The small numbers are lost one by one behind the large one, not before it.
    for (values, expected) in [
        (vec![16_777_216.0f32, 1.0, 1.0], 16_777_216.0f32),
        (vec![1.0, 1.0, 16_777_216.0], 16_777_218.0),
    ] {
        let mut idx = Index::new(None);
        for value in &values {
            idx.push_event(make_event_raw("e", vec![("v", num(*value))]));
        }
        let sum = make_plan(Query::All(), Some(Aggregation::Sum("v".into())));
        let average = make_plan(Query::All(), Some(Aggregation::Average("v".into())));
        assert_eq!(idx.apply_query_plan(&sum), Ok(QueryResult::Scalar(bits(expected))));
        assert_eq!(
            idx.apply_query_plan(&average),
            Ok(QueryResult::Scalar(bits(expected / 3.0)))
        );
    }
}

// --- Texts ---

#[test]
fn aggregation_errors_read_as_documented() {
    assert_eq!(
        AggregationError::FieldNotFound("latency".into()).to_text(),
        "field 'latency' not found in any matching event"
    );
    assert_eq!(
        AggregationError::IncompatibleType("level".into()).to_text(),
        "field 'level' has incompatible type for numeric aggregation"
    );
    assert_eq!(
        AggregationError::NoMatchingEvents.to_text(),
        "no matching events to aggregate"
    );
    assert_eq!(
        AggregationError::InvalidPercentile.to_text(),
        "percentile out of range (p1–p100)"
    );
}

#[test]
fn results_read_as_lines_and_numbers() {
    let idx = level_index();
    let plan = QueryPlan::new(
        eq("level", Value::String("error".into())),
        None,
        Some(Limit::Head(2)),
    );
    assert_eq!(idx.apply_query_plan(&plan).unwrap().to_text(""), "e1\ne3");
    assert_eq!(QueryResult::Count(1024).to_text(""), "1024");
    assert_eq!(QueryResult::CountBy(0).to_text(""), "0");
    assert_eq!(QueryResult::Scalar(bits(200.0)).to_text("200"), "200");
    assert_eq!(QueryResult::Events(vec![]).to_text(""), "");
    assert_eq!(idx.to_text(), "e1\ne2\ne3\ne4\ne5\n");
}

// --- Laws on concrete values ---

#[test]
fn filter_and_negation_share_the_events() {
    let idx = level_index();
    let matched = idx.apply_query(&eq("level", Value::String("error".into()))).len();
    let rest = idx
        .apply_query(&Query::Not(Box::new(eq("level", Value::String("error".into())))))
        .len();
    assert_eq!((matched, rest), (4, 1));
}

#[test]
fn a_part_narrows_and_widens() {
    let idx = level_index();
    let all = idx.apply_query(&Query::And(vec![Query::All()])).len();
    let narrowed = idx
        .apply_query(&Query::And(vec![Query::All(), eq("level", Value::String("info".into()))]))
        .len();
    let none = idx.apply_query(&Query::Or(vec![])).len();
    let widened = idx
        .apply_query(&Query::Or(vec![eq("level", Value::String("info".into()))]))
        .len();
    assert_eq!((all, narrowed, none, widened), (5, 1, 0, 1));
}

#[test]
fn time_bounds_are_inclusive() {
    let mut idx = Index::new(None);
    idx.push_event(make_event(Some(ts(2024, 6, 1)), vec![]));
    let from = Query::TimeRange { start: Some(ts(2024, 6, 1)), end: None };
    let until = Query::TimeRange { start: None, end: Some(ts(2024, 6, 1)) };
    assert_eq!(result_count(idx.apply_query(&from)), 1);
    assert_eq!(result_count(idx.apply_query(&until)), 1);
}

#[test]
fn numbers_are_equal_by_their_bits_and_ordered_by_value() {
    let mut idx = Index::new(None);
    idx.push_event(make_event_raw("zero", vec![("v", num(0.0))]));
    idx.push_event(make_event_raw("minus", vec![("v", num(-0.0))]));
    idx.push_event(make_event_raw("nan", vec![("v", num(f32::NAN))]));
    assert_eq!(idx.matching_indices(&eq("v", num(0.0))), vec![0]);
    let le = Query::FieldComparison {
        field: "v".into(),
        op: ComparisonOp::Le,
        value: num(0.0),
    };
    assert_eq!(idx.matching_indices(&le), vec![0, 1]);
    assert_eq!(idx.matching_indices(&eq("v", num(f32::NAN))), vec![2]);
}

#[test]
fn values_of_different_types_are_not_ordered() {
    let mut idx = Index::new(None);
    idx.push_event(make_event_raw("s", vec![("v", Value::String("b".into()))]));
    idx.push_event(make_event_raw("t", vec![("v", Value::Bool(true))]));
    let gt = |value: Value| Query::FieldComparison {
        field: "v".into(),
        op: ComparisonOp::Gt,
        value,
    };
    assert_eq!(idx.matching_indices(&gt(Value::String("a".into()))), vec![0]);
    assert_eq!(idx.matching_indices(&gt(Value::Bool(false))), vec![1]);
    assert!(idx.matching_indices(&gt(num(0.0))).is_empty());
}

#[test]
fn strings_are_ordered_by_code_points() {
    let mut idx = Index::new(None);
    for s in ["", "a", "ab", "b", "\u{e9}", "\u{1f600}"] {
        idx.push_event(make_event_raw(s, vec![("v", Value::String(s.into()))]));
    }
    let lt = Query::FieldComparison {
        field: "v".into(),
        op: ComparisonOp::Lt,
        value: Value::String("b".into()),
    };
    let ge = Query::FieldComparison {
        field: "v".into(),
        op: ComparisonOp::Ge,
        value: Value::String("\u{e9}".into()),
    };
    assert_eq!(idx.matching_indices(&lt), vec![0, 1, 2]);
    assert_eq!(idx.matching_indices(&ge), vec![4, 5]);
}

#[test]
fn values_are_hashed_by_tag_and_content() {
    let hash = |value: &Value| {
        let mut state = DefaultHasher::new();
        value.hash(&mut state);
        state.finish()
    };
    let mut text = DefaultHasher::new();
    0u8.hash(&mut text);
    "a".hash(&mut text);
    assert_eq!(hash(&Value::String("a".to_string())), text.finish());
    let mut number = DefaultHasher::new();
    1u8.hash(&mut number);
    1.5f32.to_bits().hash(&mut number);
    assert_eq!(hash(&num(1.5)), number.finish());
    let mut flag = DefaultHasher::new();
    2u8.hash(&mut flag);
    true.hash(&mut flag);
    assert_eq!(hash(&Value::Bool(true)), flag.finish());
}

#[test]
fn equal_values_hash_alike() {
    let hash = |value: &Value| {
        let mut state = DefaultHasher::new();
        value.hash(&mut state);
        state.finish()
    };
    assert_eq!(num(f32::NAN), num(f32::NAN));
    assert_eq!(hash(&num(f32::NAN)), hash(&num(f32::NAN)));
    assert_ne!(num(0.0), num(-0.0));
    assert_ne!(hash(&num(0.0)), hash(&num(-0.0)));
    let text = Value::String("x".to_string());
    assert_eq!(text, text.clone());
    assert_eq!(hash(&text), hash(&text.clone()));
    assert_ne!(Value::Number(1), Value::Bool(true));
}

#[test]
fn events_are_hashed_by_time_and_line() {
    let hash = |event: &Event| {
        let mut state = DefaultHasher::new();
        event.hash(&mut state);
        state.finish()
    };
    let one = make_event_raw("a", vec![("x", num(1.0))]);
    let other = make_event_raw("a", vec![("y", num(2.0))]);
    assert_ne!(one, other);
    assert_eq!(hash(&one), hash(&other));
    assert_ne!(hash(&one), hash(&make_event_raw("b", vec![("x", num(1.0))])));
    assert_ne!(
        hash(&make_event(None, vec![])),
        hash(&make_event(Some(ts(2026, 1, 1)), vec![]))
    );
}

#[test]
fn percentiles_lie_between_the_minimum_and_the_maximum() {
    let mut idx = Index::new(None);
    for i in 0..57u32 {
        let value = ((i * 37) % 57) as f32 - 20.5;
        idx.push_event(make_event_raw("e", vec![("v", num(value))]));
    }
    let number = |aggregation: Aggregation| {
        match idx.apply_query_plan(&make_plan(Query::All(), Some(aggregation))) {
            Ok(QueryResult::Scalar(bits)) => f32::from_bits(bits),
            other => panic!("expected a number, got {:?}", other),
        }
    };
    let least = number(Aggregation::Min("v".into()));
    let greatest = number(Aggregation::Max("v".into()));
    let mut last = least;
    for percent in 1..=100 {
        let p = percent as f32 / 100.0;
        let next = number(Aggregation::Percentage("v".into(), bits(p)));
        assert!(last <= next && next <= greatest);
        last = next;
    }
    assert_eq!(last, greatest);
    assert_eq!((least, greatest), (-20.5, 35.5));
    assert_eq!(
        number(Aggregation::Average("v".into())),
        number(Aggregation::Sum("v".into())) / 57.0
    );
}

#[test]
fn time_ranges_come_by_time_and_then_by_position() {
    let mut times = TimeIndex::new();
    for (position, day) in [5, 2, 9, 2, 7, 5, 2].iter().enumerate() {
        times.add(ts(2026, 1, *day), position);
    }
    assert_eq!(times.range(&None, &None), vec![1, 3, 6, 0, 5, 4, 2]);
    assert_eq!(
        times.range(&Some(ts(2026, 1, 5)), &Some(ts(2026, 1, 7))),
        vec![0, 5, 4]
    );
    assert_eq!(times.range(&Some(ts(2026, 1, 10)), &None), Vec::<usize>::new());
}
