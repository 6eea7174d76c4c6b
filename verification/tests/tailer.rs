use vigil::event::Event;
use vigil::index::Index;
use vigil::json::Json;
use vigil::query::{ComparisonOp, Query};
use vigil::tailer::{check_rotation, event_from_line, event_from_members, ingest, read_file};
use vigil::time::{parse_rfc3339, Timestamp};
use vigil::value::Value;
use vigil::wal::Wal;

fn num(n: f32) -> Value {
    Value::Number(n.to_bits())
}

fn dt(s: &str) -> Timestamp {
    parse_rfc3339(s).unwrap()
}

fn make_index() -> Index {
    Index::new(None)
}

// Reads what a file with this content holds from an offset on, without taking errors.
fn read(content: &str, index: &mut Index, offset: u64, time_field: Option<&str>) -> u64 {
    let rest: Vec<u8> = content.as_bytes()[offset as usize..].to_vec();
    let batch = read_file(Some(&rest), offset, time_field, true);
    assert_eq!(batch.error, None);
    let mut wal = Wal::open(None);
    for (event, end) in batch.events {
        let written: Result<(), String> = Ok(());
        assert!(ingest(index, &mut wal, event, end, written).is_ok());
    }
    batch.byte_offset
}

fn compare(field: &str, op: ComparisonOp, value: Value) -> Query {
    Query::FieldComparison { field: field.to_string(), op, value }
}

// 25 lines: 8 of level ERROR, 4 of level WARN, 12 of status 200, 4 of status 500, 9 posted.
fn test_log() -> String {
    let mut log = String::new();
    for i in 0..25 {
        let level = match i {
            0..=7 => "ERROR",
            8..=11 => "WARN",
            _ => "INFO",
        };
        let status = match i {
            0..=3 => 500,
            4..=12 => 404,
            _ => 200,
        };
        let method = if i % 3 == 0 { "POST" } else { "GET" };
        log.push_str(&format!(
            "{{\"level\":\"{level}\",\"status\":{status},\"method\":\"{method}\"}}\n"
        ));
    }
    log
}

fn timestamps_log() -> String {
    let mut log = String::new();
    for time in [
        "00:00", "01:00", "02:30", "04:00", "05:30", "06:45", "08:00", "10:45", "12:00", "14:30",
        "16:00", "18:20", "20:00", "21:15", "23:59",
    ] {
        log.push_str(&format!("{{\"time\":\"2026-01-01T{time}:00Z\",\"n\":1}}\n"));
    }
    log
}

fn types_log() -> String {
    let mut log = String::new();
    for (name, age, active) in [
        ("alice", 30, true),
        ("bob", 25, false),
        ("charlie", 35, true),
        ("dana", 28, false),
        ("eve", 42, true),
        ("frank", 19, false),
        ("grace", 33, true),
        ("henry", 55, false),
        ("iris", 23, true),
        ("jack", 38, false),
    ] {
        log.push_str(&format!(
            "{{\"name\":\"{name}\",\"age\":{age},\"active\":{active},\"tags\":[\"rust\"],\"meta\":{{\"a\":1}}}}\n"
        ));
    }
    log
}

fn loaded(content: &str, time_field: Option<&str>) -> Index {
    let mut index = make_index();
    read(content, &mut index, 0, time_field);
    index
}

#[test]
fn test_empty_file() {
    let mut index = make_index();
    let offset = read("", &mut index, 0, None);
    assert_eq!(offset, 0);
    assert_eq!(index.event_count(), 0);
}

#[test]
fn test_no_wal_still_indexes_events() {
    let mut index = make_index();
    let batch = read_file(Some(&test_log().into_bytes()), 0, None, true);
    for (event, _) in batch.events {
        index.push_event(event);
    }
    assert!(batch.byte_offset > 0);
    assert_eq!(index.event_count(), 25);
}

#[test]
fn test_basic_fields_parsed() {
    assert_eq!(loaded(&test_log(), None).event_count(), 25);
}

#[test]
fn test_string_field_stored() {
    let idx = loaded(&test_log(), None);
    let q = compare("level", ComparisonOp::Eq, Value::String("ERROR".to_string()));
    assert_eq!(idx.apply_query(&q).len(), 8);
}

#[test]
fn test_warn_level_count() {
    let idx = loaded(&test_log(), None);
    let q = compare("level", ComparisonOp::Eq, Value::String("WARN".to_string()));
    assert_eq!(idx.apply_query(&q).len(), 4);
}

#[test]
fn test_status_200_count() {
    let idx = loaded(&test_log(), None);
    let q = compare("status", ComparisonOp::Eq, num(200.0));
    assert_eq!(idx.apply_query(&q).len(), 12);
}

#[test]
fn test_status_500_count() {
    let idx = loaded(&test_log(), None);
    let q = compare("status", ComparisonOp::Eq, num(500.0));
    assert_eq!(idx.apply_query(&q).len(), 4);
}

#[test]
fn test_method_post_count() {
    let idx = loaded(&test_log(), None);
    let q = compare("method", ComparisonOp::Eq, Value::String("POST".to_string()));
    assert_eq!(idx.apply_query(&q).len(), 9);
}

#[test]
fn test_timestamp_parsed() {
    let idx = loaded(&timestamps_log(), Some("time"));
    assert_eq!(idx.event_count(), 15);
    let q = Query::TimeRange {
        start: Some(dt("2026-01-01T08:00:00Z")),
        end: Some(dt("2026-01-01T20:00:00Z")),
    };
    // 08:00, 10:45, 12:00, 14:30, 16:00, 18:20, 20:00 (bounds inclusive)
    assert_eq!(idx.apply_query(&q).len(), 7);
}

#[test]
fn test_time_range_morning() {
    let idx = loaded(&timestamps_log(), Some("time"));
    let q = Query::TimeRange {
        start: Some(dt("2026-01-01T00:00:00Z")),
        end: Some(dt("2026-01-01T04:00:00Z")),
    };
    // 00:00, 01:00, 02:30, 04:00 (bounds inclusive)
    assert_eq!(idx.apply_query(&q).len(), 4);
}

#[test]
fn test_no_time_field_means_no_time_indexing() {
    let idx = loaded(&timestamps_log(), None);
    let q = Query::TimeRange { start: None, end: None };
    assert_eq!(idx.apply_query(&q).len(), 0);
}

#[test]
fn test_wrong_time_field_means_no_time_indexing() {
    let idx = loaded(&timestamps_log(), Some("created_at"));
    let q = Query::TimeRange { start: None, end: None };
    assert_eq!(idx.apply_query(&q).len(), 0);
}

#[test]
fn test_array_and_object_fields_ignored() {
    let idx = loaded(&types_log(), None);
    let q = compare("tags", ComparisonOp::Eq, Value::String("rust".to_string()));
    assert_eq!(idx.apply_query(&q).len(), 0);
}

#[test]
fn test_bool_true_field_stored() {
    let idx = loaded(&types_log(), None);
    let q = compare("active", ComparisonOp::Eq, Value::Bool(true));
    assert_eq!(idx.apply_query(&q).len(), 5);
}

#[test]
fn test_bool_false_field_stored() {
    let idx = loaded(&types_log(), None);
    let q = compare("active", ComparisonOp::Eq, Value::Bool(false));
    assert_eq!(idx.apply_query(&q).len(), 5);
}

#[test]
fn test_number_gt_comparison() {
    let idx = loaded(&types_log(), None);
    let q = compare("age", ComparisonOp::Gt, num(30.0));
    // charlie(35), eve(42), grace(33), henry(55), jack(38)
    assert_eq!(idx.apply_query(&q).len(), 5);
}

#[test]
fn test_number_le_comparison() {
    let idx = loaded(&types_log(), None);
    let q = compare("age", ComparisonOp::Le, num(25.0));
    // bob(25), frank(19), iris(23)
    assert_eq!(idx.apply_query(&q).len(), 3);
}

#[test]
fn test_byte_offset_incremental_read() {
    let mut index2 = make_index();
    let offset = read(&types_log(), &mut index2, 0, None);
    assert_eq!(offset, types_log().len() as u64);

    let mut index3 = make_index();
    let offset2 = read(&types_log(), &mut index3, offset, None);
    assert_eq!(offset2, offset);
    assert_eq!(index3.event_count(), 0);
}

#[test]
fn test_nonexistent_file_returns_unchanged_offset() {
    let offset = 1;
    let inode = Some(0);

    let batch = read_file(None, offset, None, true);
    assert_eq!(offset, batch.byte_offset);
    assert!(batch.events.is_empty());
    assert!(batch.warnings.is_empty());
    assert_eq!(batch.error, None);

    let (new_offset, new_inode) = check_rotation(None, offset, inode);

    assert_eq!(offset, new_offset);
    assert_eq!(inode, new_inode);
}

#[test]
fn test_check_rotation_returns_unchanged_offset_for_unchanged_file() {
    let inode = Some(77);
    let offset = 1;

    let (new_offset, new_inode) =
        check_rotation(Some(("line three\nline four\n".len() as u64, 77)), offset, inode);

    assert_eq!(new_offset, offset);
    assert_eq!(new_inode, inode);
}

#[test]
fn test_truncation_resets_offset() {
    let inode = Some(77);
    let stale_offset = 100;

    let (new_offset, new_inode) =
        check_rotation(Some(("line one\nline two\n".len() as u64, 77)), stale_offset, inode);

    assert_eq!(new_offset, 0);
    assert_eq!(new_inode, inode);
}

#[test]
fn test_changed_inode_updates_old_inode_and_offset() {
    let inode = Some(77);
    let offset = 1;

    let (new_offset, new_inode) =
        check_rotation(Some(("rotated content\n".len() as u64, 78)), offset, inode);

    assert_eq!(new_offset, 0);
    assert_ne!(inode, new_inode);
    assert_eq!(new_inode, Some(78));
}

#[test]
fn test_non_json_line_error_includes_line_number_and_content() {
    let batch = read_file(Some(&b"Lorem ipsum dolor sit amet\n".to_vec()), 0, None, true);
    let err = batch.error.unwrap();
    assert!(err.contains("line 1"), "expected line number in error: {err}");
    assert!(err.contains("Lorem"), "expected line content in error: {err}");
}

// --- Whole lines ---

#[test]
fn a_line_that_has_not_ended_is_left_for_later() {
    let first = read_file(Some(&b"{\"a\":1}\n{\"a\":".to_vec()), 100, None, false);
    assert_eq!(first.events.len(), 1);
    assert_eq!(first.byte_offset, 108);
    let second = read_file(Some(&b"{\"a\":2}\n".to_vec()), 108, None, false);
    assert_eq!(second.events[0].0.raw, "{\"a\":2}");
    assert_eq!(second.events[0].1, 116);
    assert_eq!(second.byte_offset, 116);
}

#[test]
fn polls_add_up() {
    let log = types_log().into_bytes();
    let whole = read_file(Some(&log), 0, None, false);
    for k in [0, 1, 50, 100, log.len() - 1, log.len()] {
        let first = read_file(Some(&log[..k].to_vec()), 0, None, false);
        let rest = log[first.byte_offset as usize..].to_vec();
        let second = read_file(Some(&rest), first.byte_offset, None, false);
        let mut raws: Vec<(String, u64)> = Vec::new();
        for (event, end) in first.events.iter().chain(second.events.iter()) {
            raws.push((event.raw.clone(), *end));
        }
        let wanted: Vec<(String, u64)> =
            whole.events.iter().map(|(e, end)| (e.raw.clone(), *end)).collect();
        assert_eq!(raws, wanted);
        assert_eq!(second.byte_offset, whole.byte_offset);
    }
}

#[test]
fn carriage_returns_are_stripped_and_counted() {
    let batch = read_file(Some(&b"{\"a\":1}\r\n{\"a\":2}\r\n".to_vec()), 0, None, true);
    assert_eq!(batch.events[0].0.raw, "{\"a\":1}");
    assert_eq!(batch.events[0].1, 9);
    assert_eq!(batch.byte_offset, 18);
}

#[test]
fn malformed_lines_stop_strict_reading_and_are_passed_over_else() {
    let bytes = b"{\"a\":1}\nnope\n{\"a\":2}\n".to_vec();
    let strict = read_file(Some(&bytes), 0, None, true);
    assert_eq!(strict.events.len(), 1);
    assert!(strict.warnings.is_empty());
    assert_eq!(strict.byte_offset, 8);
    let said = strict.error.unwrap();
    assert!(said.starts_with("line 2 is not valid JSON: "));
    assert!(said.ends_with("\n  nope"));

    let lenient = read_file(Some(&bytes), 0, None, false);
    assert_eq!(lenient.events.len(), 2);
    assert_eq!(lenient.warnings, vec![said]);
    assert_eq!(lenient.error, None);
    assert_eq!(lenient.byte_offset, bytes.len() as u64);
}

#[test]
fn a_message_shows_the_start_of_a_long_line() {
    let line = "x".repeat(100);
    let batch = read_file(Some(&format!("{line}\n").into_bytes()), 0, None, true);
    assert!(batch.error.unwrap().ends_with(&format!("\n  {}", "x".repeat(80))));
}

#[test]
fn bytes_that_are_not_text_are_malformed() {
    let bytes = vec![b'{', 0xff, b'}', b'\n'];
    let said = "line 1 is not valid JSON: stream did not contain valid UTF-8\n  {\u{fffd}}";
    assert_eq!(read_file(Some(&bytes), 0, None, true).error.unwrap(), said);
    assert_eq!(read_file(Some(&bytes), 0, None, false).warnings, vec![said]);
    let mut long = b"[1]\n".to_vec();
    long.extend_from_slice(&[0xff; 100]);
    long.extend_from_slice(b"\r\n[2]\n");
    let strict = read_file(Some(&long), 0, None, true);
    let said = strict.error.unwrap();
    assert!(said.starts_with("line 2 is not valid JSON: "));
    assert!(said.ends_with(&format!("\n  {}", "\u{fffd}".repeat(80))));
    assert_eq!((strict.events.len(), strict.byte_offset), (1, 4));
    assert_eq!(read_file(Some(&long), 0, None, false).events.len(), 2);
}

// --- Lines ---

fn event(line: &str, time_field: Option<&str>) -> Event {
    event_from_line(line.to_string(), time_field).unwrap()
}

#[test]
fn the_time_field_is_not_a_field() {
    let e = event("{\"ts\":\"2026-01-01T01:00:00+01:00\",\"a\":\"x\"}", Some("ts"));
    assert_eq!(e.timestamp, Some(dt("2026-01-01T00:00:00Z")));
    assert_eq!(e.fields.get("ts"), None);
    assert_eq!(e.fields.get("a"), Some(&Value::String("x".to_string())));
    let e = event("{\"ts\":12,\"a\":null}", Some("ts"));
    assert_eq!(e.timestamp, None);
    assert_eq!(e.fields.len(), 0);
    let e = event("{\"ts\":\"yesterday\"}", Some("ts"));
    assert_eq!(e.timestamp, None);
}

#[test]
fn a_line_that_is_no_object_has_no_fields() {
    let e = event("[1, 2]", None);
    assert_eq!(e.raw, "[1, 2]");
    assert_eq!(e.fields.len(), 0);
    assert_eq!(e.timestamp, None);
}

#[test]
fn a_repeated_member_counts_once() {
    let e = event("{\"a\":1,\"a\":2}", None);
    assert_eq!(e.fields.len(), 1);
    assert_eq!(e.fields.get("a"), Some(&num(2.0)));
}

#[test]
fn numbers_are_rounded_to_single_precision() {
    for (text, n) in [
        ("0.1", 0.1f64 as f32),
        ("16777217", 16777217.0f64 as f32),
        ("1e300", f32::INFINITY),
        ("-1e-300", -0.0),
        ("18446744073709551615", u64::MAX as f64 as f32),
        ("1.401298464324817e-45", 1.401298464324817e-45f64 as f32),
    ] {
        let e = event(&format!("{{\"n\":{text}}}"), None);
        assert_eq!(e.fields.get("n"), Some(&num(n)), "{text}");
    }
}

#[test]
fn members_make_an_event() {
    let members = vec![
        ("a".to_string(), Json::String("x".to_string())),
        ("b".to_string(), Json::Number(Some(2.5f64.to_bits()))),
        ("c".to_string(), Json::Number(None)),
        ("d".to_string(), Json::Bool(true)),
        ("e".to_string(), Json::Other),
        ("t".to_string(), Json::String("2026-01-01T00:00:00Z".to_string())),
    ];
    let e = event_from_members("line".to_string(), Some(members), Some("t"));
    assert_eq!(e.raw, "line");
    assert_eq!(e.timestamp, Some(dt("2026-01-01T00:00:00Z")));
    assert_eq!(e.fields.len(), 3);
    assert_eq!(e.fields.get("b"), Some(&num(2.5)));
    assert_eq!(e.fields.get("d"), Some(&Value::Bool(true)));
    let e = event_from_members("line".to_string(), None, Some("t"));
    assert_eq!((e.timestamp, e.fields.len()), (None, 0));
}

#[test]
fn the_offset_stays_within_the_file() {
    assert_eq!(check_rotation(Some((10, 5)), 10, Some(5)), (10, Some(5)));
    assert_eq!(check_rotation(Some((9, 5)), 10, Some(5)), (0, Some(5)));
    assert_eq!(check_rotation(Some((10, 5)), 3, None), (0, Some(5)));
}
