use vigil::parser::{parse_query, tokenize, ParseError};
use vigil::query::{Aggregation, ComparisonOp, Limit, Query, QueryPlan};
use vigil::time::{parse_rfc3339, Timestamp};
use vigil::value::Value;

fn num(n: f32) -> Value {
    Value::Number(n.to_bits())
}

fn dt(s: &str) -> Timestamp {
    parse_rfc3339(s).unwrap()
}

fn now() -> Timestamp {
    dt("2026-01-15T12:00:00Z")
}

fn parse(query: &str, time_field: Option<&str>) -> Result<QueryPlan, ParseError> {
    parse_query(query, time_field, now())
}

fn field(field: &str, op: ComparisonOp, value: Value) -> Query {
    Query::FieldComparison {
        field: field.to_string(),
        op,
        value,
    }
}

fn parse_filter(s: &str) -> Result<Query, ParseError> {
    parse(s, None).map(|plan| plan.query.clone())
}

fn parse_filter_with_time(s: &str) -> Result<Query, ParseError> {
    parse(s, Some("time")).map(|plan| plan.query.clone())
}

// --- Tokenizer ---

#[test]
fn test_tokenize_splits_parens() {
    assert_eq!(
        tokenize("(a = 1)"),
        vec!["(", "a", "=", "1", ")"]
    );
}

#[test]
fn test_tokenize_plain_whitespace() {
    assert_eq!(tokenize("status = 500"), vec!["status", "=", "500"]);
}

// --- Field comparisons ---

#[test]
fn test_field_eq_number() {
    assert_eq!(
        parse_filter("status = 500"),
        Ok(field("status", ComparisonOp::Eq, num(500.0)))
    );
}

#[test]
fn test_field_eq_string() {
    assert_eq!(
        parse_filter("level = ERROR"),
        Ok(field(
            "level",
            ComparisonOp::Eq,
            Value::String("ERROR".into())
        ))
    );
}

#[test]
fn test_field_eq_bool() {
    assert_eq!(
        parse_filter("active = true"),
        Ok(field("active", ComparisonOp::Eq, Value::Bool(true)))
    );
}

#[test]
fn parser_test_field_ne() {
    assert_eq!(
        parse_filter("status != 200"),
        Ok(field("status", ComparisonOp::Ne, num(200.0)))
    );
}

#[test]
fn test_field_lt() {
    assert_eq!(
        parse_filter("latency_ms < 100"),
        Ok(field("latency_ms", ComparisonOp::Lt, num(100.0)))
    );
}

#[test]
fn test_field_le() {
    assert_eq!(
        parse_filter("latency_ms <= 100"),
        Ok(field("latency_ms", ComparisonOp::Le, num(100.0)))
    );
}

#[test]
fn test_field_gt() {
    assert_eq!(
        parse_filter("latency_ms > 500"),
        Ok(field("latency_ms", ComparisonOp::Gt, num(500.0)))
    );
}

#[test]
fn test_field_ge() {
    assert_eq!(
        parse_filter("latency_ms >= 500"),
        Ok(field("latency_ms", ComparisonOp::Ge, num(500.0)))
    );
}

#[test]
fn test_field_contains() {
    assert_eq!(
        parse_filter("message ~ timeout"),
        Ok(field(
            "message",
            ComparisonOp::Contains,
            Value::String("timeout".into())
        ))
    );
}

#[test]
fn test_field_contains_numeric_token_stays_string() {
    // '~' always searches string values, so the term is not auto-typed.
    assert_eq!(
        parse_filter("message ~ 500"),
        Ok(field(
            "message",
            ComparisonOp::Contains,
            Value::String("500".into())
        ))
    );
}

// --- Time range ---

#[test]
fn test_time_gt_sets_start() {
    assert_eq!(
        parse_filter_with_time("time > 2026-01-01T00:00:00Z"),
        Ok(Query::TimeRange {
            start: Some(dt("2026-01-01T00:00:00Z")),
            end: None,
        })
    );
}

#[test]
fn test_time_lt_sets_end() {
    assert_eq!(
        parse_filter_with_time("time < 2026-01-01T00:00:00Z"),
        Ok(Query::TimeRange {
            start: None,
            end: Some(dt("2026-01-01T00:00:00Z")),
        })
    );
}

#[test]
fn test_configured_field_parses_as_time_range() {
    // Any field name can be the time field — it's whatever the daemon was started with.
    assert!(matches!(
        parse("created_at > 2026-01-01T00:00:00Z", Some("created_at")),
        Ok(ref plan) if matches!(plan.query, Query::TimeRange { .. })
    ));
}

#[test]
fn test_unconfigured_field_parses_as_field_comparison() {
    // Without a time_field configured, "time" is just a regular field.
    assert!(matches!(
        parse_filter("time > 2026-01-01T00:00:00Z"),
        Ok(Query::FieldComparison { .. })
    ));
}

// --- AND ---

#[test]
fn test_and_two_fields() {
    assert_eq!(
        parse_filter("status = 500 AND level = ERROR"),
        Ok(Query::And(vec![
            field("status", ComparisonOp::Eq, num(500.0)),
            field("level", ComparisonOp::Eq, Value::String("ERROR".into())),
        ]))
    );
}

#[test]
fn test_and_three_fields() {
    assert_eq!(
        parse_filter("status = 500 AND level = ERROR AND method = POST"),
        Ok(Query::And(vec![
            field("status", ComparisonOp::Eq, num(500.0)),
            field("level", ComparisonOp::Eq, Value::String("ERROR".into())),
            field("method", ComparisonOp::Eq, Value::String("POST".into())),
        ]))
    );
}

// --- OR ---

#[test]
fn test_or_two_fields() {
    assert_eq!(
        parse_filter("status = 500 OR status = 404"),
        Ok(Query::Or(vec![
            field("status", ComparisonOp::Eq, num(500.0)),
            field("status", ComparisonOp::Eq, num(404.0)),
        ]))
    );
}

#[test]
fn test_or_three_fields() {
    assert_eq!(
        parse_filter("status = 200 OR status = 201 OR status = 204"),
        Ok(Query::Or(vec![
            field("status", ComparisonOp::Eq, num(200.0)),
            field("status", ComparisonOp::Eq, num(201.0)),
            field("status", ComparisonOp::Eq, num(204.0)),
        ]))
    );
}

// --- Precedence: AND binds tighter than OR ---

#[test]
fn test_and_before_or_right_side() {
    // a=1 OR b=2 AND c=3  =>  a=1 OR (AND[b=2, c=3])
    assert_eq!(
        parse_filter("a = 1 OR b = 2 AND c = 3"),
        Ok(Query::Or(vec![
            field("a", ComparisonOp::Eq, num(1.0)),
            Query::And(vec![
                field("b", ComparisonOp::Eq, num(2.0)),
                field("c", ComparisonOp::Eq, num(3.0)),
            ]),
        ]))
    );
}

#[test]
fn test_and_before_or_left_side() {
    // a=1 AND b=2 OR c=3  =>  (AND[a=1, b=2]) OR c=3
    assert_eq!(
        parse_filter("a = 1 AND b = 2 OR c = 3"),
        Ok(Query::Or(vec![
            Query::And(vec![
                field("a", ComparisonOp::Eq, num(1.0)),
                field("b", ComparisonOp::Eq, num(2.0)),
            ]),
            field("c", ComparisonOp::Eq, num(3.0)),
        ]))
    );
}

#[test]
fn test_mixed_and_or() {
    // a=1 AND b=2 OR c=3 AND d=4  =>  (AND[a,b]) OR (AND[c,d])
    assert_eq!(
        parse_filter("a = 1 AND b = 2 OR c = 3 AND d = 4"),
        Ok(Query::Or(vec![
            Query::And(vec![
                field("a", ComparisonOp::Eq, num(1.0)),
                field("b", ComparisonOp::Eq, num(2.0)),
            ]),
            Query::And(vec![
                field("c", ComparisonOp::Eq, num(3.0)),
                field("d", ComparisonOp::Eq, num(4.0)),
            ]),
        ]))
    );
}

// --- Errors ---

#[test]
fn test_error_empty_string() {
    assert!(matches!(
        parse("", None),
        Err(ParseError::IncorrectFormat(_))
    ));
}

#[test]
fn test_error_missing_operator() {
    assert!(matches!(
        parse("status", None),
        Err(ParseError::IncorrectFormat(_))
    ));
}

#[test]
fn test_error_missing_value() {
    assert!(matches!(
        parse("status =", None),
        Err(ParseError::IncorrectFormat(_))
    ));
}

#[test]
fn test_error_unknown_operator() {
    assert!(matches!(
        parse("status ?? 500", None),
        Err(ParseError::UnknownOperator(_))
    ));
}

#[test]
fn test_error_trailing_tokens() {
    assert!(matches!(
        parse("status = 500 garbage", None),
        Err(ParseError::IncorrectFormat(_))
    ));
}

#[test]
fn test_error_trailing_and() {
    assert!(matches!(
        parse("status = 500 AND", None),
        Err(ParseError::IncorrectFormat(_))
    ));
}

#[test]
fn test_error_trailing_or() {
    assert!(matches!(
        parse("status = 500 OR", None),
        Err(ParseError::IncorrectFormat(_))
    ));
}

#[test]
fn test_error_time_unsupported_operator() {
    assert!(matches!(
        parse("time = 2026-01-01T00:00:00Z", Some("time")),
        Err(ParseError::UnknownOperator(_))
    ));
}

#[test]
fn test_error_time_invalid_datetime() {
    assert!(matches!(
        parse("time > not-a-date", Some("time")),
        Err(ParseError::IncorrectFormat(_))
    ));
}

#[test]
fn test_error_time_missing_value() {
    assert!(matches!(
        parse("time >", Some("time")),
        Err(ParseError::IncorrectFormat(_))
    ));
}

// --- Aggregations ---

#[test]
fn parser_test_count_aggregation() {
    let plan = parse("status = 500 | count", None).unwrap();
    assert_eq!(
        plan.query,
        field("status", ComparisonOp::Eq, num(500.0))
    );
    assert!(matches!(plan.aggregation, Some(Aggregation::Count)));
}

#[test]
fn parser_test_avg_aggregation() {
    let plan = parse("status = 500 | avg latency_ms", None).unwrap();
    assert_eq!(
        plan.query,
        field("status", ComparisonOp::Eq, num(500.0))
    );
    assert!(
        matches!(plan.aggregation, Some(Aggregation::Average(f)) if f == "latency_ms")
    );
}

#[test]
fn test_count_with_and_filter() {
    let plan = parse("status = 500 AND level = ERROR | count", None).unwrap();
    assert!(matches!(plan.aggregation, Some(Aggregation::Count)));
}

#[test]
fn test_no_aggregation() {
    let plan = parse("status = 500", None).unwrap();
    assert!(plan.aggregation.is_none());
}

#[test]
fn test_error_pipe_no_aggregator() {
    assert!(matches!(
        parse("status = 500 |", None),
        Err(ParseError::IncorrectFormat(_))
    ));
}

#[test]
fn test_error_unknown_aggregator() {
    assert!(matches!(
        parse("status = 500 | sum", None),
        Err(ParseError::IncorrectFormat(_))
    ));
}

#[test]
fn test_error_count_with_extra_token() {
    assert!(matches!(
        parse("status = 500 | count extra", None),
        Err(ParseError::IncorrectFormat(_))
    ));
}

#[test]
fn test_error_avg_missing_field() {
    assert!(matches!(
        parse("status = 500 | avg", None),
        Err(ParseError::IncorrectFormat(_))
    ));
}

#[test]
fn test_error_avg_with_extra_token() {
    assert!(matches!(
        parse("status = 500 | avg latency_ms extra", None),
        Err(ParseError::IncorrectFormat(_))
    ));
}

#[test]
fn test_p99_aggregation() {
    let plan = parse("status = 500 | p99 latency_ms", None).unwrap();
    assert!(
        matches!(plan.aggregation, Some(Aggregation::Percentage(f, p)) if f == "latency_ms" && (f32::from_bits(p) - 0.99).abs() < 1e-6)
    );
}

#[test]
fn test_p50_aggregation() {
    let plan = parse("status = 500 | p50 latency_ms", None).unwrap();
    assert!(
        matches!(plan.aggregation, Some(Aggregation::Percentage(f, p)) if f == "latency_ms" && (f32::from_bits(p) - 0.50).abs() < 1e-6)
    );
}

#[test]
fn test_p1_aggregation() {
    let plan = parse("status = 500 | p1 latency_ms", None).unwrap();
    assert!(
        matches!(plan.aggregation, Some(Aggregation::Percentage(_, p)) if (f32::from_bits(p) - 0.01).abs() < 1e-6)
    );
}

#[test]
fn test_p100_aggregation() {
    let plan = parse("status = 500 | p100 latency_ms", None).unwrap();
    assert!(
        matches!(plan.aggregation, Some(Aggregation::Percentage(_, p)) if (f32::from_bits(p) - 1.0).abs() < 1e-6)
    );
}

#[test]
fn test_error_p0_out_of_range() {
    assert!(matches!(
        parse("status = 500 | p0 latency_ms", None),
        Err(ParseError::IncorrectFormat(_))
    ));
}

#[test]
fn test_error_percentile_missing_field() {
    assert!(matches!(
        parse("status = 500 | p99", None),
        Err(ParseError::IncorrectFormat(_))
    ));
}

#[test]
fn test_error_percentile_extra_token() {
    assert!(matches!(
        parse("status = 500 | p99 latency_ms extra", None),
        Err(ParseError::IncorrectFormat(_))
    ));
}

#[test]
fn test_error_p_no_digits() {
    assert!(matches!(
        parse("status = 500 | p latency_ms", None),
        Err(ParseError::IncorrectFormat(_))
    ));
}

// --- NOT and parentheses ---

fn eq(name: &str, n: f32) -> Query {
    field(name, ComparisonOp::Eq, num(n))
}

fn not(inner: Query) -> Query {
    Query::Not(Box::new(inner))
}

#[test]
fn not_negates_one_comparison() {
    assert_eq!(parse_filter("NOT a = 1"), Ok(not(eq("a", 1.0))));
    assert_eq!(parse_filter("NOT NOT a = 1"), Ok(eq("a", 1.0)));
}

#[test]
fn not_binds_tighter_than_and() {
    assert_eq!(
        parse_filter("NOT a = 1 AND b = 2"),
        Ok(Query::And(vec![not(eq("a", 1.0)), eq("b", 2.0)]))
    );
    assert_eq!(
        parse_filter("a = 1 AND NOT b = 2 OR NOT c = 3"),
        Ok(Query::Or(vec![
            Query::And(vec![eq("a", 1.0), not(eq("b", 2.0))]),
            not(eq("c", 3.0)),
        ]))
    );
}

#[test]
fn parentheses_group() {
    assert_eq!(
        parse_filter("(a = 1 OR b = 2) AND c = 3"),
        Ok(Query::And(vec![
            Query::Or(vec![eq("a", 1.0), eq("b", 2.0)]),
            eq("c", 3.0),
        ]))
    );
    assert_eq!(
        parse_filter("NOT (a = 1 AND b = 2)"),
        Ok(not(Query::And(vec![eq("a", 1.0), eq("b", 2.0)])))
    );
    assert_eq!(parse_filter("((a = 1))"), Ok(eq("a", 1.0)));
}

#[test]
fn unbalanced_parentheses_are_refused() {
    assert_eq!(
        parse_filter("(a = 1"),
        Err(ParseError::IncorrectFormat("expected ')'".into()))
    );
    assert_eq!(
        parse_filter("a = 1)"),
        Err(ParseError::IncorrectFormat("unexpected token ')'".into()))
    );
}

#[test]
fn parentheses_nest_up_to_the_limit() {
    let nested = |n: usize| format!("{}a = 1{}", "(".repeat(n), ")".repeat(n));
    assert_eq!(parse_filter(&nested(128)), Ok(eq("a", 1.0)));
    assert_eq!(
        parse_filter(&nested(129)),
        Err(ParseError::IncorrectFormat(
            "parentheses nested too deeply (maximum 128)".into()
        ))
    );
}

#[test]
fn keywords_are_case_sensitive() {
    assert_eq!(
        parse_filter("a = 1 and b = 2"),
        Err(ParseError::IncorrectFormat("unexpected token 'and'".into()))
    );
}

// --- Time values ---

#[test]
fn now_is_the_current_time() {
    assert_eq!(
        parse_filter_with_time("time < now"),
        Ok(Query::TimeRange { start: None, end: Some(now()) })
    );
}

#[test]
fn relative_times_count_back_from_now() {
    for (token, then) in [
        ("-30s", "2026-01-15T11:59:30Z"),
        ("-15m", "2026-01-15T11:45:00Z"),
        ("-1h", "2026-01-15T11:00:00Z"),
        ("-2d", "2026-01-13T12:00:00Z"),
        ("-0s", "2026-01-15T12:00:00Z"),
    ] {
        assert_eq!(
            parse_filter_with_time(&format!("time > {token}")),
            Ok(Query::TimeRange { start: Some(dt(then)), end: None })
        );
    }
}

#[test]
fn malformed_relative_times_are_refused() {
    for token in ["-", "-h", "-1", "-1w", "-1.5h", "--1h", "-+1h", "1h", "-99999999999999999999d"] {
        assert_eq!(
            parse_filter_with_time(&format!("time > {token}")),
            Err(ParseError::IncorrectFormat(
                "invalid datetime, expected RFC 3339 (e.g. 2026-01-15T00:00:00Z)".into()
            ))
        );
    }
}

#[test]
fn a_time_range_is_two_bounds() {
    assert_eq!(
        parse_filter_with_time("time > -1d AND time < -12h"),
        Ok(Query::And(vec![
            Query::TimeRange { start: Some(dt("2026-01-14T12:00:00Z")), end: None },
            Query::TimeRange { start: None, end: Some(dt("2026-01-15T00:00:00Z")) },
        ]))
    );
}

// --- Stages ---

#[test]
fn stages_over_all_events() {
    let plan = parse("| count", None).unwrap();
    assert_eq!(plan.query, Query::All());
    assert!(matches!(plan.aggregation, Some(Aggregation::Count)));
    let plan = parse("| tail 10", None).unwrap();
    assert_eq!(plan.query, Query::All());
    assert_eq!(plan.limit, Some(Limit::Tail(10)));
}

#[test]
fn limits_are_parsed() {
    let plan = parse("level = ERROR | limit 20", None).unwrap();
    assert_eq!(plan.limit, Some(Limit::Head(20)));
    assert!(plan.aggregation.is_none());
    let plan = parse("level = ERROR | TAIL 5", None).unwrap();
    assert_eq!(plan.limit, Some(Limit::Tail(5)));
}

#[test]
fn limits_need_one_number() {
    assert_eq!(
        parse("a = 1 | limit", None).unwrap_err(),
        ParseError::IncorrectFormat("'limit' requires a number, e.g.: limit 10".into())
    );
    assert_eq!(
        parse("a = 1 | tail x", None).unwrap_err(),
        ParseError::IncorrectFormat("invalid tail 'x'".into())
    );
    assert_eq!(
        parse("a = 1 | limit -1", None).unwrap_err(),
        ParseError::IncorrectFormat("invalid limit '-1'".into())
    );
    assert_eq!(
        parse("a = 1 | limit 99999999999999999999999", None).unwrap_err(),
        ParseError::IncorrectFormat("invalid limit '99999999999999999999999'".into())
    );
    assert_eq!(
        parse("a = 1 | limit 5 6", None).unwrap_err(),
        ParseError::IncorrectFormat("unexpected token '6'".into())
    );
}

#[test]
fn aggregations_over_a_field() {
    assert!(matches!(
        parse("| Sum latency_ms", None).unwrap().aggregation,
        Some(Aggregation::Sum(f)) if f == "latency_ms"
    ));
    assert!(matches!(
        parse("| min Latency", None).unwrap().aggregation,
        Some(Aggregation::Min(f)) if f == "Latency"
    ));
    assert!(matches!(
        parse("| MAX latency_ms", None).unwrap().aggregation,
        Some(Aggregation::Max(f)) if f == "latency_ms"
    ));
    assert!(matches!(
        parse("| count BY request_id", None).unwrap().aggregation,
        Some(Aggregation::CountBy(f)) if f == "request_id"
    ));
    assert!(matches!(
        parse("| P+7 x", None).unwrap().aggregation,
        Some(Aggregation::Percentage(f, p)) if f == "x" && p == 0.07f32.to_bits()
    ));
}

#[test]
fn one_stage_only() {
    assert_eq!(
        parse("a = 1 | limit 5 | count", None).unwrap_err(),
        ParseError::IncorrectFormat("unexpected token '|'".into())
    );
    assert_eq!(
        parse("a = 1 | count by f | limit 5", None).unwrap_err(),
        ParseError::IncorrectFormat("unexpected token '|'".into())
    );
    assert_eq!(
        parse("a = 1 | count | limit 5", None).unwrap_err(),
        ParseError::IncorrectFormat("unexpected token '|'".into())
    );
}

#[test]
fn stage_errors_read_as_expected() {
    for (query, message) in [
        ("", "empty query"),
        ("a = 1 |", "no aggregator after '|'"),
        ("| count by", "no field to count by"),
        ("| avg", "'avg' requires a field name, e.g.: avg latency_ms"),
        ("| max", "'max' requires a field name, e.g.: max latency_ms"),
        ("| px f", "invalid percentile 'px'"),
        ("| p256 f", "invalid percentile 'p256'"),
        ("| p101 f", "percentile must be 1-100, got 101"),
        ("| P99", "no field for 'p99' aggregation"),
        (
            "| median f",
            "unknown aggregator 'median'; expected: count, avg, or p<N> (e.g. p99)",
        ),
    ] {
        assert_eq!(
            parse(query, None).unwrap_err(),
            ParseError::IncorrectFormat(message.into())
        );
    }
}

#[test]
fn parse_errors_read_as_documented() {
    assert_eq!(
        parse("level ???", None).unwrap_err().to_text(),
        "unknown operator: ???"
    );
    assert_eq!(
        parse("level", None).unwrap_err().to_text(),
        "incorrect format: expected operator"
    );
}

#[test]
fn tokens_leave_out_whitespace_alone() {
    let query = "\t( a=1\u{3000}b )\n(c)";
    let tokens = tokenize(query);
    assert_eq!(tokens, vec!["(", "a=1", "b", ")", "(", "c", ")"]);
    let kept: String = query.chars().filter(|c| !c.is_whitespace()).collect();
    assert_eq!(tokens.concat(), kept);
}

#[test]
fn spacing_does_not_matter() {
    for query in [
        "(level = ERROR OR(a>1))AND  NOT(x = 2)|count",
        "\t( a=1\u{3000}b )\n(c)",
        "))((",
        "",
    ] {
        let tokens = tokenize(query);
        assert_eq!(tokenize(&tokens.join(" ")), tokens);
        assert_eq!(tokenize(&query.replace('(', " ( ").replace(')', " ) ")), tokens);
    }
}

#[test]
fn tokens_end_at_every_kind_of_whitespace() {
    for c in '\0'..=char::MAX {
        let tokens = tokenize(&format!("a{c}b"));
        if c.is_whitespace() {
            assert_eq!(tokens, vec!["a", "b"], "{c:?}");
        } else {
            assert_eq!(tokens.concat(), format!("a{c}b"), "{c:?}");
        }
    }
}

#[test]
fn pairs_of_not_cancel_out() {
    let inner = field("a", ComparisonOp::Eq, num(1.0));
    assert_eq!(parse_filter("NOT a = 1"), Ok(Query::Not(Box::new(inner.clone()))));
    assert_eq!(parse_filter("NOT NOT a = 1"), Ok(inner.clone()));
    assert_eq!(parse_filter("NOT NOT NOT a = 1"), Ok(Query::Not(Box::new(inner.clone()))));
    assert_eq!(
        parse_filter("NOT (NOT a = 1)"),
        Ok(Query::Not(Box::new(Query::Not(Box::new(inner)))))
    );
}

#[test]
fn a_long_run_of_not_is_read() {
    // As many as a request of the largest size can hold.
    let run = "NOT ".repeat(262_000);
    let inner = field("a", ComparisonOp::Eq, num(1.0));
    assert_eq!(parse_filter(&format!("{run}a = 1")), Ok(inner.clone()));
    assert_eq!(parse_filter(&format!("NOT {run}a = 1")), Ok(Query::Not(Box::new(inner))));
    assert_eq!(
        parse_filter(&run).unwrap_err().to_text(),
        "incorrect format: expected field name"
    );
}

#[test]
fn the_time_field_is_a_time_range_and_no_other_field_is() {
    let query = "ts > now AND (other > 1 OR NOT ts < now)";
    let range = |start, end| Query::TimeRange { start, end };
    assert_eq!(
        parse(query, Some("ts")).unwrap().query,
        Query::And(vec![
            range(Some(now()), None),
            Query::Or(vec![
                field("other", ComparisonOp::Gt, num(1.0)),
                Query::Not(Box::new(range(None, Some(now())))),
            ]),
        ])
    );
    let text = || Value::String("now".into());
    assert_eq!(
        parse(query, None).unwrap().query,
        Query::And(vec![
            field("ts", ComparisonOp::Gt, text()),
            Query::Or(vec![
                field("other", ComparisonOp::Gt, num(1.0)),
                Query::Not(Box::new(field("ts", ComparisonOp::Lt, text()))),
            ]),
        ])
    );
}

#[test]
fn nothing_follows_the_field_of_count_by() {
    assert_eq!(
        parse("| count by f extra", None).unwrap_err().to_text(),
        "incorrect format: unexpected token 'extra'"
    );
    assert!(parse("| count by f", None).is_ok());
}
