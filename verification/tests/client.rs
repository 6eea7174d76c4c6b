use vigil::client::{mode, run_query, run_stop, send_watch, Mode, Outcome};
use vigil::event::{Event, Fields};
use vigil::follow::matches_event;
use vigil::handler::{
    can_handle, check_size, handle_client, handle_request, response, rewatch, try_handle,
    Reaction, MAX_REQUEST_BYTES,
};
use vigil::index::Index;
use vigil::message::{Message, MessageKind, WatchPayload, SOCKET_PATH};
use vigil::query::QueryResult;
use vigil::tailer::read_file;
use vigil::time::{parse_rfc3339, Timestamp};
use vigil::value::Value;

fn num(n: f32) -> Value {
    Value::Number(n.to_bits())
}

fn now() -> Timestamp {
    parse_rfc3339("2026-01-15T12:00:00Z").unwrap()
}

fn roundtrip_with(index: &Index, msg: Message, time_field: Option<&str>) -> (Message, bool) {
    assert!(can_handle(&msg, index, time_field, now()));
    match handle_client(&msg, index, time_field, now()) {
        Reaction::Respond(message) => (message, false),
        Reaction::Answer(result) => {
            let number_text = match &result {
                QueryResult::Scalar(bits) => f32::from_bits(*bits).to_string(),
                _ => String::new(),
            };
            (response(&result, &number_text), false)
        }
        Reaction::Stop(message) => (message, true),
        other => panic!("unexpected reaction: {:?}", other),
    }
}

fn roundtrip(index: Index, msg: Message) -> (Message, bool) {
    roundtrip_with(&index, msg, None)
}

fn make_index(events: Vec<Event>) -> Index {
    let mut index = Index::new(None);
    for event in events {
        index.push_event(event);
    }
    index
}

fn make_event(raw: &str, list: Vec<(&str, Value)>) -> Event {
    let mut fields = Fields::new();
    for (name, value) in list {
        fields.insert(name.to_string(), value);
    }
    Event::new(None, raw.to_string(), fields)
}

// --- Requests ---

#[test]
fn test_query_returns_matching_events() {
    let index = make_index(vec![
        make_event("e1", vec![("level", Value::String("ERROR".into()))]),
        make_event("e2", vec![("level", Value::String("INFO".into()))]),
    ]);

    let (response, _) = roundtrip(index, Message::new(MessageKind::Query, "level = ERROR".into()));

    assert!(matches!(response.message_kind, MessageKind::QueryResponse));
    assert_eq!(response.data, "e1");
}

#[test]
fn test_query_no_matches_returns_empty() {
    let index = make_index(vec![]);

    let (response, _) = roundtrip(index, Message::new(MessageKind::Query, "level = ERROR".into()));

    assert!(matches!(response.message_kind, MessageKind::QueryResponse));
    assert!(response.data.is_empty());
}

#[test]
fn test_query_parse_error_returns_query_error() {
    let index = make_index(vec![]);

    let (response, _) = roundtrip(index, Message::new(MessageKind::Query, "level ???".into()));

    assert!(matches!(response.message_kind, MessageKind::QueryError));
    assert_eq!(response.data, "unknown operator: ???");
}

#[test]
fn test_query_aggregation_error_returns_query_error() {
    let index = make_index(vec![make_event("e1", vec![("status", num(500.0))])]);

    let (response, _) = roundtrip(
        index,
        Message::new(MessageKind::Query, "status = 500 | avg latency_ms".into()),
    );

    assert!(matches!(response.message_kind, MessageKind::QueryError));
    assert_eq!(response.data, "field 'latency_ms' not found in any matching event");
}

#[test]
fn handler_test_count_aggregation() {
    let index = make_index(vec![
        make_event("e1", vec![("status", num(500.0))]),
        make_event("e2", vec![("status", num(500.0))]),
        make_event("e3", vec![("status", num(200.0))]),
    ]);

    let (response, _) = roundtrip(
        index,
        Message::new(MessageKind::Query, "status = 500 | count".into()),
    );

    assert!(matches!(response.message_kind, MessageKind::QueryResponse));
    assert_eq!(response.data, "2");
}

#[test]
fn test_response_kind_request_returns_error_not_panic() {
    // A malicious or confused client sending a response-kind message must
    // get an error back.
    let index = make_index(vec![]);

    let (response, _) = roundtrip(index, Message::new(MessageKind::ShutdownAck, String::new()));

    assert!(matches!(response.message_kind, MessageKind::QueryError));
    assert_eq!(response.data, "invalid request kind");
}

#[test]
fn test_oversized_request_is_rejected() {
    // 2 MiB of garbage, well past the 1 MiB request cap.
    let result = check_size(32 * 64 * 1024);
    assert!(result.is_err());
    assert_eq!(
        result.unwrap_err().to_text(),
        "io error: request exceeds maximum size"
    );
    assert_eq!(MAX_REQUEST_BYTES, 1024 * 1024);
    assert_eq!(check_size(MAX_REQUEST_BYTES), Ok(()));
    assert!(check_size(MAX_REQUEST_BYTES + 1).is_err());
}

#[test]
fn test_shutdown_returns_ack_and_signals_channel() {
    let index = make_index(vec![]);

    let (response, stopped) = roundtrip(index, Message::new(MessageKind::Shutdown, String::new()));

    assert!(matches!(response.message_kind, MessageKind::ShutdownAck));
    assert!(stopped);
}

#[test]
fn a_request_to_watch_is_acknowledged() {
    let index = make_index(vec![]);
    let request = Message::new(MessageKind::Watch, "payload".into());
    assert!(matches!(
        handle_client(&request, &index, None, now()),
        Reaction::Rewatch
    ));
    let payload = WatchPayload { path: "/tmp/b.log".into(), time_field: Some("ts".into()) };
    let (watched, reply) = rewatch(Ok(payload)).unwrap();
    assert_eq!(watched.path, "/tmp/b.log");
    assert_eq!(watched.time_field, Some("ts".to_string()));
    assert_eq!(reply, Message::new(MessageKind::WatchAck, String::new()));
    assert_eq!(
        rewatch(Err("bad".into())),
        Err(Message::new(MessageKind::QueryError, "bad".into()))
    );
    assert_eq!(SOCKET_PATH, "/tmp/vigil.sock");
}

#[test]
fn every_request_to_a_small_index_has_a_reaction() {
    let index = make_index(vec![make_event("e", vec![])]);
    let bad = Err("no message".to_string());
    match try_handle(&bad, &index, None, now()) {
        Some(Reaction::Respond(message)) => {
            assert_eq!(message, Message::new(MessageKind::QueryError, "no message".into()))
        }
        other => panic!("unexpected reaction: {:?}", other),
    }
    let query = Ok(Message::new(MessageKind::Query, "| count".into()));
    match try_handle(&query, &index, None, now()) {
        Some(Reaction::Answer(result)) => assert_eq!(result, QueryResult::Count(1)),
        other => panic!("unexpected reaction: {:?}", other),
    }
    let watch = Ok(Message::new(MessageKind::Watch, String::new()));
    assert!(matches!(try_handle(&watch, &index, None, now()), Some(Reaction::Rewatch)));
}

#[test]
fn what_is_no_request_is_answered_with_an_error() {
    let index = make_index(vec![make_event("e", vec![])]);
    let bad = Err("expected ident at line 1 column 2".to_string());
    match handle_request(&bad, &index, None, now()) {
        Reaction::Respond(message) => assert_eq!(
            message,
            Message::new(MessageKind::QueryError, "expected ident at line 1 column 2".into())
        ),
        other => panic!("unexpected reaction: {:?}", other),
    }
    let good = Ok(Message::new(MessageKind::Query, "| count".into()));
    match handle_request(&good, &index, None, now()) {
        Reaction::Answer(result) => assert_eq!(result, QueryResult::Count(1)),
        other => panic!("unexpected reaction: {:?}", other),
    }
    let stop = Ok(Message::new(MessageKind::Shutdown, String::new()));
    assert!(matches!(handle_request(&stop, &index, None, now()), Reaction::Stop(_)));
}

#[test]
fn following_needs_a_filter_alone() {
    let index = make_index(vec![]);
    let ask = |query: &str| {
        let request = Message::new(MessageKind::Follow, query.to_string());
        match handle_client(&request, &index, None, now()) {
            Reaction::Follow(filter) => Ok(filter),
            Reaction::Respond(message) => Err(message.data),
            other => panic!("unexpected reaction: {:?}", other),
        }
    };
    let filter = ask("level = ERROR AND NOT status < 500").unwrap();
    let event = |level: &str, status: f32| {
        make_event(
            "e",
            vec![("level", Value::String(level.into())), ("status", num(status))],
        )
    };
    assert!(matches_event(&filter, &event("ERROR", 503.0)));
    assert!(!matches_event(&filter, &event("ERROR", 404.0)));
    assert!(!matches_event(&filter, &event("WARN", 503.0)));
    assert_eq!(
        ask("a = 1 | count").unwrap_err(),
        "a followed query cannot have a pipeline stage"
    );
    assert_eq!(ask("a =").unwrap_err(), "incorrect format: expected value");
}

#[test]
fn following_agrees_with_the_index() {
    let events = vec![
        make_event("e1", vec![("a", num(1.0)), ("s", Value::String("xyz".into()))]),
        make_event("e2", vec![("a", num(2.0))]),
        make_event("e3", vec![("s", Value::String("abc".into()))]),
    ];
    let index = make_index(events);
    for query in ["a = 1", "a >= 1 OR s ~ bc", "NOT (a = 1 OR s ~ b)", "a != 2 AND s ~ y", "s < b"] {
        let request = Message::new(MessageKind::Follow, query.to_string());
        let Reaction::Follow(filter) =
            handle_client(&request, &index, None, now())
        else {
            panic!("not followed");
        };
        let found = index.matching_indices(&filter);
        for i in 0..index.event_count() {
            assert_eq!(matches_event(&filter, index.event(i)), found.contains(&i), "{query}");
        }
    }
}

// --- From log lines to what a client prints ---

struct Daemon {
    index: Index,
    time_field: Option<String>,
}

impl Daemon {
    fn start(events: &[&str]) -> Self {
        Self::start_with_time_field(events, None)
    }

    fn start_with_time_field(events: &[&str], time_field: Option<&str>) -> Self {
        let mut daemon =
            Daemon { index: Index::new(None), time_field: time_field.map(|f| f.to_string()) };
        for event in events {
            daemon.append(event);
        }
        daemon
    }

    fn query(&self, q: &str) -> Outcome {
        let message = Message::new(MessageKind::Query, q.to_string());
        run_query(Some(roundtrip_with(&self.index, message, self.time_field.as_deref()).0))
    }

    fn append(&mut self, event: &str) {
        let batch = read_file(
            Some(&format!("{event}\n").into_bytes()),
            0,
            self.time_field.as_deref(),
            false,
        );
        for (event, _) in batch.events {
            self.index.push_event(event);
        }
    }
}

fn stdout(outcome: &Outcome) -> String {
    match outcome {
        Outcome::Print(text) => text.clone(),
        Outcome::Fail(text) => panic!("failed: {text}"),
    }
}

fn stderr(outcome: &Outcome) -> String {
    match outcome {
        Outcome::Print(text) => panic!("printed: {text}"),
        Outcome::Fail(text) => text.clone(),
    }
}

#[test]
fn test_field_query_returns_matching_events() {
    let daemon = Daemon::start(&[
        r#"{"level":"ERROR","service":"auth"}"#,
        r#"{"level":"INFO","service":"api"}"#,
    ]);

    let out = daemon.query("level = ERROR");

    assert!(stdout(&out).contains(r#""service":"auth""#));
    assert!(!stdout(&out).contains(r#""level":"INFO""#));
}

#[test]
fn test_field_query_no_matches_returns_empty() {
    let daemon = Daemon::start(&[r#"{"level":"INFO"}"#]);

    let out = daemon.query("level = ERROR");

    assert!(stdout(&out).is_empty());
}

#[test]
fn test_and_query() {
    let daemon = Daemon::start(&[
        r#"{"level":"ERROR","service":"auth"}"#,
        r#"{"level":"ERROR","service":"api"}"#,
        r#"{"level":"INFO","service":"auth"}"#,
    ]);

    let out = daemon.query("level = ERROR AND service = auth");

    let body = stdout(&out);
    assert_eq!(body.lines().count(), 1);
    assert!(body.contains(r#""service":"auth""#));
}

#[test]
fn test_or_query() {
    let daemon = Daemon::start(&[
        r#"{"level":"ERROR"}"#,
        r#"{"level":"WARN"}"#,
        r#"{"level":"INFO"}"#,
    ]);

    let out = daemon.query("level = ERROR OR level = WARN");

    assert_eq!(stdout(&out).lines().count(), 2);
}

#[test]
fn test_not_and_paren_query() {
    let daemon = Daemon::start(&[
        r#"{"level":"ERROR","status":500}"#,
        r#"{"level":"WARN","status":503}"#,
        r#"{"level":"ERROR","status":200}"#,
        r#"{"level":"INFO","status":500}"#,
    ]);

    let out = daemon.query("(level = ERROR OR level = WARN) AND status >= 500");
    assert_eq!(stdout(&out).lines().count(), 2);

    let out = daemon.query("NOT status = 500 | count");
    assert_eq!(stdout(&out), "2");
}

#[test]
fn integration_test_count_aggregation() {
    let daemon = Daemon::start(&[
        r#"{"status":500}"#,
        r#"{"status":500}"#,
        r#"{"status":200}"#,
    ]);

    assert_eq!(stdout(&daemon.query("status = 500 | count")), "2");
}

#[test]
fn test_count_all_events() {
    let daemon = Daemon::start(&[
        r#"{"level":"ERROR"}"#,
        r#"{"level":"INFO"}"#,
        r#"{"level":"WARN"}"#,
    ]);

    assert_eq!(stdout(&daemon.query("| count")), "3");
}

#[test]
fn integration_test_avg_aggregation() {
    let daemon = Daemon::start(&[
        r#"{"status":500,"latency":100}"#,
        r#"{"status":500,"latency":300}"#,
    ]);

    assert_eq!(stdout(&daemon.query("status = 500 | avg latency")), "200");
}

#[test]
fn test_time_range_query() {
    let daemon = Daemon::start_with_time_field(
        &[
            r#"{"ts":"2026-01-01T00:00:00Z","level":"ERROR"}"#,
            r#"{"ts":"2026-06-01T00:00:00Z","level":"ERROR"}"#,
            r#"{"ts":"2026-12-31T00:00:00Z","level":"ERROR"}"#,
        ],
        Some("ts"),
    );

    let out = daemon.query("ts > 2026-03-01T00:00:00Z");
    assert_eq!(stdout(&out).lines().count(), 2);
}

#[test]
fn test_time_range_requires_time_field_flag() {
    // Daemon started without --time-field: "ts" is just a regular string field,
    // so the time range query returns no results.
    let daemon = Daemon::start(&[r#"{"ts":"2026-01-01T00:00:00Z","level":"ERROR"}"#]);

    let out = daemon.query("ts > 2026-03-01T00:00:00Z | count");
    assert_eq!(stdout(&out), "0");
}

#[test]
fn test_new_events_are_picked_up() {
    let mut daemon = Daemon::start(&[r#"{"level":"INFO"}"#]);

    assert!(stdout(&daemon.query("level = ERROR")).is_empty());

    daemon.append(r#"{"level":"ERROR","id":42}"#);

    let out = daemon.query("level = ERROR");
    assert!(stdout(&out).contains(r#""id":42"#));
}

#[test]
fn test_invalid_query_exits_nonzero_with_message() {
    let daemon = Daemon::start(&[]);

    let out = daemon.query("level ???");

    assert!(!stderr(&out).is_empty());
    assert_eq!(stderr(&out), "Error: unknown operator: ???");
}

#[test]
fn test_aggregation_on_missing_field_exits_nonzero() {
    let daemon = Daemon::start(&[r#"{"status":500}"#]);

    let out = daemon.query("status = 500 | avg latency");

    assert!(!stderr(&out).is_empty());
}

#[test]
fn a_percentile_reaches_the_client() {
    let daemon = Daemon::start(&[
        r#"{"latency":10.5}"#,
        r#"{"latency":30}"#,
        r#"{"latency":20}"#,
    ]);
    assert_eq!(stdout(&daemon.query("| p50 latency")), "20");
    assert_eq!(stdout(&daemon.query("| p1 latency")), "10.5");
    assert_eq!(stdout(&daemon.query("| sum latency")), "60.5");
    assert_eq!(stdout(&daemon.query("| avg latency")), "20.166666");
    assert_eq!(stdout(&daemon.query("| limit 1")), r#"{"latency":10.5}"#);
}

// --- Client ---

#[test]
fn arguments_choose_the_mode() {
    assert_eq!(mode(true, true, true, true), Mode::Stop);
    assert_eq!(mode(true, false, false, false), Mode::Daemon);
    assert_eq!(mode(false, true, false, false), Mode::Query);
    assert_eq!(mode(false, true, false, true), Mode::Follow);
    assert_eq!(mode(true, true, false, false), Mode::Usage);
    assert_eq!(mode(false, false, false, false), Mode::Usage);
}

#[test]
fn responses_end_the_client() {
    let message = |kind: MessageKind| Some(Message::new(kind, "data".to_string()));
    assert_eq!(
        run_query(message(MessageKind::QueryResponse)),
        Outcome::Print("data".into())
    );
    assert_eq!(
        run_query(message(MessageKind::QueryError)),
        Outcome::Fail("Error: data".into())
    );
    assert_eq!(
        run_query(message(MessageKind::WatchAck)),
        Outcome::Fail("Unexpected response from daemon.".into())
    );
    assert_eq!(
        run_query(None),
        Outcome::Fail("Failed to parse daemon response.".into())
    );
    assert_eq!(
        run_stop(message(MessageKind::ShutdownAck)),
        Outcome::Print("Daemon stopped.".into())
    );
    assert_eq!(
        run_stop(message(MessageKind::Query)),
        Outcome::Fail("Unexpected response from daemon.".into())
    );
    assert_eq!(
        run_stop(None),
        Outcome::Fail("Failed to parse daemon response.".into())
    );
    assert_eq!(send_watch(&message(MessageKind::WatchAck).unwrap()), Ok(()));
    assert_eq!(
        send_watch(&message(MessageKind::QueryError).unwrap()),
        Err("unexpected response".to_string())
    );
}
