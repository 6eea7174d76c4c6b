use vigil::checkpoint::checkpoint;
use vigil::event::{Event, Fields, PersistedEvent};
use vigil::index::Index;
use vigil::recover::{data_dir, recover};
use vigil::snapshot::Snapshot;
use vigil::tailer::{ingest, read_file};
use vigil::time::Timestamp;
use vigil::value::Value;
use vigil::wal::{Replay, WALRecord, Wal};

fn make_event(raw: &str) -> PersistedEvent {
    PersistedEvent::new(None, raw.to_string(), Fields::new())
}

fn live_event(raw: &str) -> Event {
    Event::new(None, raw.to_string(), Fields::new())
}

// A record of an event without fields: number, offset and raw line.
fn encode(record: &WALRecord) -> Vec<u8> {
    let mut bytes: Vec<u8> = Vec::new();
    bytes.extend_from_slice(&record.seq.to_le_bytes());
    bytes.extend_from_slice(&record.byte_offset.to_le_bytes());
    bytes.extend_from_slice(record.event.raw.as_bytes());
    bytes
}

fn decode(bytes: &[u8]) -> Option<WALRecord> {
    if bytes.len() < 16 {
        return None;
    }
    let seq = u64::from_le_bytes(bytes[..8].try_into().unwrap());
    let byte_offset = u64::from_le_bytes(bytes[8..16].try_into().unwrap());
    let raw = String::from_utf8(bytes[16..].to_vec()).ok()?;
    Some(WALRecord::new(seq, byte_offset, make_event(&raw)))
}

// How writing ends when it goes well.
fn written() -> Result<(), String> {
    Ok(())
}

// Appends a record to a log.
fn append(log: &mut Vec<u8>, wal: &mut Wal, byte_offset: u64, event: PersistedEvent) {
    let record = wal.next_record(byte_offset, event);
    let payload = encode(&record);
    log.extend_from_slice(&Wal::framed(&payload));
    assert_eq!(wal.append(byte_offset, written()), Ok(()));
}

// Reads a log back and cuts it to its intact records.
fn replay(log: &mut Vec<u8>) -> Vec<WALRecord> {
    let payloads = Wal::intact_payloads(log);
    let decoded = payloads.iter().map(|p| decode(p)).collect();
    let Replay { records, valid_len } = Wal::replay(&payloads, decoded);
    log.truncate(valid_len as usize);
    records
}

// --- The log ---

#[test]
fn test_append_and_replay_single_record() {
    let mut log: Vec<u8> = Vec::new();
    let mut wal = Wal::open(None);
    append(&mut log, &mut wal, 0, make_event("hello"));

    let records = replay(&mut log);
    assert_eq!(records.len(), 1);
    assert_eq!(records[0].seq, 0);
    assert_eq!(records[0].byte_offset, 0);
    assert_eq!(records[0].event, make_event("hello"));
}

#[test]
fn test_append_and_replay_multiple_records() {
    let mut log: Vec<u8> = Vec::new();
    let mut wal = Wal::open(None);
    for i in 0..5u64 {
        append(&mut log, &mut wal, i * 100, make_event(&format!("event-{i}")));
    }

    let records = replay(&mut log);
    assert_eq!(records.len(), 5);
    for i in 0..5u64 {
        assert_eq!(records[i as usize].seq, i);
        assert_eq!(records[i as usize].byte_offset, i * 100);
    }
}

#[test]
fn test_replay_empty_wal_returns_empty() {
    assert!(replay(&mut Vec::new()).is_empty());
}

#[test]
fn an_emptied_log_has_no_records_and_numbering_goes_on() {
    let mut log: Vec<u8> = Vec::new();
    let mut wal = Wal::open(None);
    append(&mut log, &mut wal, 10, make_event("before"));
    log.clear();
    assert!(replay(&mut log).is_empty());

    append(&mut log, &mut wal, 20, make_event("after"));
    let records = replay(&mut log);
    assert_eq!(records.len(), 1);
    assert_eq!((records[0].seq, records[0].byte_offset), (1, 20));
}

#[test]
fn test_crc_corruption_drops_corrupt_record_and_truncates() {
    let mut log: Vec<u8> = Vec::new();
    let mut wal = Wal::open(None);
    append(&mut log, &mut wal, 0, make_event("data"));

    // Flip a byte in the middle of the log to corrupt the payload
    let mid = log.len() / 2;
    log[mid] ^= 0xFF;

    let records = replay(&mut log);
    assert!(records.is_empty());

    // The corrupt tail is gone, so future appends stay readable.
    assert_eq!(log.len(), 0);
}

#[test]
fn test_torn_tail_keeps_intact_prefix() {
    let mut log: Vec<u8> = Vec::new();
    let mut wal = Wal::open(None);
    append(&mut log, &mut wal, 0, make_event("good-0"));
    append(&mut log, &mut wal, 10, make_event("good-1"));
    let intact_len = log.len();

    // Simulate a crash mid-append: a length prefix that claims more bytes
    // than the file holds, followed by a short payload.
    log.extend_from_slice(&1000u32.to_le_bytes());
    log.extend_from_slice(b"partial");
    let torn_len = log.len();

    let records = replay(&mut log);
    assert_eq!(records.len(), 2);
    assert_eq!(records[0].event, make_event("good-0"));
    assert_eq!(records[1].event, make_event("good-1"));

    // Torn bytes were truncated away.
    assert_eq!(log.len(), intact_len);
    assert_eq!(
        Wal::torn_warning(torn_len as u64, intact_len as u64).unwrap(),
        "WAL: dropping 11 bytes of torn or corrupt data after the last intact record"
    );
    assert_eq!(Wal::torn_warning(intact_len as u64, intact_len as u64), None);
}

#[test]
fn test_appends_after_torn_tail_recovery_survive_next_replay() {
    let mut log: Vec<u8> = Vec::new();
    let mut wal = Wal::open(None);
    append(&mut log, &mut wal, 0, make_event("good"));

    // Torn tail: garbage length prefix + short payload.
    log.extend_from_slice(&(u32::MAX).to_le_bytes());
    log.extend_from_slice(b"xx");

    // First recovery drops the torn tail, then the daemon keeps appending.
    let records = replay(&mut log);
    assert_eq!(records.len(), 1);
    let mut wal = Wal::open(Some(1));
    append(&mut log, &mut wal, 20, make_event("after-recovery"));

    // A later recovery must see both records — nothing written after the
    // truncation may be lost.
    let records = replay(&mut log);
    assert_eq!(records.len(), 2);
    assert_eq!(records[1].event, make_event("after-recovery"));
}

#[test]
fn test_large_record_exceeding_prealloc_cap_replays() {
    let mut log: Vec<u8> = Vec::new();
    let mut wal = Wal::open(None);
    let big = "x".repeat(5 * 1024 * 1024);
    append(&mut log, &mut wal, 0, make_event(&big));

    let records = replay(&mut log);
    assert_eq!(records.len(), 1);
    assert_eq!(records[0].event, make_event(&big));
}

#[test]
fn test_open_with_starting_seq_resumes_numbering() {
    let mut log: Vec<u8> = Vec::new();
    let mut wal = Wal::open(Some(10));
    append(&mut log, &mut wal, 0, make_event("resumed"));

    let records = replay(&mut log);
    assert_eq!(records[0].seq, 10);
}

#[test]
fn a_write_that_failed_changes_nothing() {
    let mut index = Index::new(None);
    let mut wal = Wal::open(Some(4));
    assert_eq!(wal.append(10, written()), Ok(()));
    let place = wal;
    assert_eq!(wal.append(20, Err("disk full")), Err("disk full"));
    assert_eq!(wal, place);
    assert_eq!(
        ingest(&mut index, &mut wal, live_event("a"), 20, Err("disk full")),
        Err("disk full")
    );
    assert_eq!((wal, index.event_count()), (place, 0));
    assert_eq!((wal.next_seq, wal.last_byte_offset), (5, 10));
}

#[test]
fn a_frame_is_length_payload_and_checksum() {
    let mut wal = Wal::open(None);
    let payload: Vec<u8> = b"123456789".to_vec();
    let mut wanted: Vec<u8> = vec![9, 0, 0, 0];
    wanted.extend_from_slice(b"123456789");
    // The CRC32 of these nine digits is 0xcbf43926.
    wanted.extend_from_slice(&[0x26, 0x39, 0xf4, 0xcb]);
    assert_eq!(Wal::framed(&payload), wanted);
    assert_eq!(wal.append(7, written()), Ok(()));
    assert_eq!(wal, Wal { next_seq: 1, last_byte_offset: 7 });
}

#[test]
fn a_log_cut_anywhere_keeps_the_records_before_the_cut() {
    let mut log: Vec<u8> = Vec::new();
    let mut wal = Wal::open(None);
    append(&mut log, &mut wal, 1, make_event("one"));
    let first = log.len();
    append(&mut log, &mut wal, 2, make_event("two"));
    for cut in 0..=log.len() {
        let found = replay(&mut log[..cut].to_vec()).len();
        let wanted = if cut == log.len() {
            2
        } else if cut >= first {
            1
        } else {
            0
        };
        assert_eq!(found, wanted);
    }
}

#[test]
fn replay_stops_at_what_cannot_be_decoded() {
    let mut log: Vec<u8> = Vec::new();
    let mut wal = Wal::open(None);
    append(&mut log, &mut wal, 1, make_event("one"));
    let first = log.len();
    log.extend_from_slice(&Wal::framed(&b"short".to_vec()));
    append(&mut log, &mut wal, 3, make_event("three"));
    assert_eq!(replay(&mut log).len(), 1);
    assert_eq!(log.len(), first);
}

// --- Checkpoints ---

#[test]
fn test_checkpoint_saves_snapshot_from_index_and_wal_state() {
    let mut index = Index::new(None);
    let mut wal = Wal::open(None);
    assert!(ingest(&mut index, &mut wal, live_event("a"), 5, written()).is_ok());
    assert!(ingest(&mut index, &mut wal, live_event("b"), 15, written()).is_ok());

    let snapshot = checkpoint(&index, &wal, &Some("ts".to_string()));

    assert_eq!(snapshot.next_seq, 2);
    assert_eq!(snapshot.byte_offset, 15);
    assert_eq!(snapshot.events.len(), 2);
    assert_eq!(snapshot.time_field, Some("ts".to_string()));
    assert_eq!(snapshot.events[1], make_event("b"));
}

#[test]
fn test_checkpoint_on_empty_index_and_wal() {
    let snapshot = checkpoint(&Index::new(None), &Wal::open(None), &None);

    assert_eq!(snapshot.next_seq, 0);
    assert_eq!(snapshot.byte_offset, 0);
    assert_eq!(snapshot.events.len(), 0);
}

// --- Recovery ---

fn wal_records(start_seq: u64, raws: &[&str]) -> Vec<WALRecord> {
    let mut log: Vec<u8> = Vec::new();
    let mut wal = Wal::open(Some(start_seq));
    for (i, raw) in raws.iter().enumerate() {
        let byte_offset = (start_seq + i as u64 + 1) * 10;
        append(&mut log, &mut wal, byte_offset, make_event(raw));
    }
    replay(&mut log)
}

#[test]
fn test_recover_empty_dir_returns_empty_index() {
    let recovered = recover(None, vec![], None);

    assert_eq!(recovered.index.event_count(), 0);
    assert_eq!(recovered.byte_offset, 0);
    assert_eq!(recovered.wal.next_seq, 0);
    assert_eq!(recovered.wal.last_byte_offset, 0);
}

#[test]
fn test_recover_replays_wal_when_no_snapshot() {
    let recovered = recover(None, wal_records(0, &["a", "b", "c"]), None);

    assert_eq!(recovered.index.event_count(), 3);
    assert_eq!(recovered.wal.next_seq, 3);
    assert_eq!(recovered.byte_offset, 30);
}

#[test]
fn test_recover_loads_snapshot_with_no_new_wal_records() {
    let snapshot = Snapshot::new(None, 50, 5, vec![make_event("from-snapshot")]);

    let recovered = recover(Some(snapshot), vec![], None);

    assert_eq!(recovered.index.event_count(), 1);
    assert_eq!(recovered.byte_offset, 50);
    assert_eq!(recovered.wal.next_seq, 5);
}

#[test]
fn test_recover_merges_snapshot_and_new_wal_records() {
    let snapshot_events = vec![make_event("s0"), make_event("s1"), make_event("s2")];
    let snapshot = Snapshot::new(None, 30, 3, snapshot_events);

    let recovered = recover(Some(snapshot), wal_records(3, &["w3", "w4"]), None);

    assert_eq!(recovered.index.event_count(), 5);
    assert_eq!(recovered.wal.next_seq, 5);
}

#[test]
fn test_recover_skips_wal_records_already_in_snapshot() {
    // Simulates a crash between the snapshot write and the WAL truncate:
    // snapshot already covers seq 0-4 (next_seq=5), but the WAL still
    // holds 3-6 because truncation never happened.
    let snapshot_events: Vec<PersistedEvent> =
        (0..5).map(|i| make_event(&format!("s{i}"))).collect();
    let snapshot = Snapshot::new(None, 40, 5, snapshot_events);

    let records = wal_records(3, &["s3", "s4", "w5", "w6"]);
    let recovered = recover(Some(snapshot), records, None);

    // 5 from the snapshot + only seq 5 and 6 from the WAL (3 and 4 filtered out)
    assert_eq!(recovered.index.event_count(), 7);
    assert_eq!(recovered.wal.next_seq, 7);
}

#[test]
fn test_recover_seeds_wal_to_continue_appending() {
    let mut recovered = recover(None, wal_records(0, &["a", "b"]), None);
    assert_eq!(recovered.wal.next_seq, 2);

    let mut log: Vec<u8> = Vec::new();
    append(&mut log, &mut recovered.wal, 999, make_event("c"));
    assert_eq!(recovered.wal.next_seq, 3);
    assert_eq!(recovered.wal.last_byte_offset, 999);
}

#[test]
fn test_data_dir_different_sources_produce_different_dirs() {
    assert_ne!(data_dir("/tmp/a.log"), data_dir("/tmp/b.log"));
}

#[test]
fn test_data_dir_same_source_produces_same_dir() {
    assert_eq!(data_dir("/tmp/a.log"), data_dir("/tmp/a.log"));
}

#[test]
fn a_directory_is_named_by_the_checksum_of_the_path() {
    assert_eq!(data_dir("123456789"), "3421780262");
    assert_eq!(data_dir(""), "0");
}

#[test]
fn recovery_restores_the_index() {
    let mut index = Index::new(Some(2));
    let mut wal = Wal::open(None);
    let mut log: Vec<u8> = Vec::new();
    for (i, raw) in ["a", "b", "c"].iter().enumerate() {
        let offset = (i as u64 + 1) * 10;
        let record = wal.next_record(offset, make_event(raw));
        log.extend_from_slice(&Wal::framed(&encode(&record)));
        assert!(ingest(&mut index, &mut wal, live_event(raw), offset, written()).is_ok());
    }
    let snapshot = checkpoint(&index, &wal, &None);
    // The log is not emptied, and goes on.
    for (i, raw) in ["d", "e"].iter().enumerate() {
        let offset = (i as u64 + 4) * 10;
        let record = wal.next_record(offset, make_event(raw));
        log.extend_from_slice(&Wal::framed(&encode(&record)));
        assert!(ingest(&mut index, &mut wal, live_event(raw), offset, written()).is_ok());
    }
    let recovered = recover(Some(snapshot), replay(&mut log), Some(2));
    assert_eq!(recovered.index.to_text(), index.to_text());
    assert_eq!(recovered.wal, wal);
    assert_eq!(recovered.byte_offset, 50);
}

// Takes up what a file holds from an offset on; the log keeps only the first records of it.
fn take_up(
    file: &[u8],
    byte_offset: u64,
    index: &mut Index,
    wal: &mut Wal,
    log: &mut Vec<u8>,
    durable: usize,
) {
    let batch = read_file(Some(&file[byte_offset as usize..].to_vec()), byte_offset, None, false);
    for (i, (event, after)) in batch.events.into_iter().enumerate() {
        let record = wal.next_record(after, PersistedEvent::from_event(&event));
        assert!(ingest(index, wal, event, after, written()).is_ok());
        if i < durable {
            log.extend_from_slice(&Wal::framed(&encode(&record)));
        }
    }
}

#[test]
fn a_crash_after_a_checkpoint_loses_nothing() {
    let file = b"[1]\n[2]\nno json\n[3]\n[4]\n[5]\n";
    for durable in 0..=3usize {
        let mut index = Index::new(None);
        let mut wal = Wal::open(None);
        let mut log: Vec<u8> = Vec::new();
        take_up(&file[..8], 0, &mut index, &mut wal, &mut log, 2);
        let snapshot = checkpoint(&index, &wal, &None);
        // The records that the snapshot covers are still in the log.
        take_up(file, 8, &mut index, &mut wal, &mut log, durable);

        let recovered = recover(Some(snapshot), replay(&mut log), None);
        let mut index = recovered.index;
        let mut wal = recovered.wal;
        assert_eq!(index.event_count(), 2 + durable);
        take_up(file, recovered.byte_offset, &mut index, &mut wal, &mut log, 3);
        assert_eq!(index.to_text(), "[1]\n[2]\n[3]\n[4]\n[5]\n");
        assert_eq!((wal.next_seq, wal.last_byte_offset), (5, file.len() as u64));
    }
}

#[test]
fn recovery_keeps_no_more_than_the_capacity_and_slack() {
    let events: Vec<PersistedEvent> = (0..1030).map(|i| make_event(&format!("e{i}"))).collect();
    let recovered = recover(Some(Snapshot::new(None, 1, 1030, events)), vec![], Some(5));
    assert_eq!(recovered.index.event_count(), 5);
    assert_eq!(recovered.index.events[0].raw, "e1025");
}

#[test]
fn a_saved_checkpoint_restores_the_index() {
    let mut index = Index::new(Some(2));
    let mut wal = Wal::open(None);
    for (i, raw) in ["a", "b", "c"].iter().enumerate() {
        let event = Event::new(Timestamp::new(i as i64, 1_500_000), raw.to_string(), Fields::new());
        assert!(ingest(&mut index, &mut wal, event, (i as u64 + 1) * 10, written()).is_ok());
    }
    let snapshot = checkpoint(&index, &wal, &Some("ts".to_string()));
    let recovered = recover(Some(snapshot), replay(&mut Vec::new()), Some(2));
    assert_eq!(recovered.index.to_text(), index.to_text());
    for (i, event) in recovered.index.events.iter().enumerate() {
        assert_eq!(event.timestamp, Timestamp::new(i as i64, 1_000_000));
    }
    assert_eq!(recovered.wal, wal);
    assert_eq!(recovered.byte_offset, 30);
}

// --- Persisted events ---

fn at(secs: i64, nanos: u32) -> Event {
    let mut fields = Fields::new();
    fields.insert("n".to_string(), Value::Number(1.5f32.to_bits()));
    Event::new(Timestamp::new(secs, nanos), "raw".to_string(), fields)
}

#[test]
fn persisting_keeps_the_time_to_the_millisecond() {
    let persisted = PersistedEvent::from_event(&at(1, 234_567_890));
    assert_eq!(persisted.timestamp, Some(1234));
    assert_eq!(persisted.into_event(), at(1, 234_000_000));
    let persisted = PersistedEvent::from_event(&at(-1, 999_999_999));
    assert_eq!(persisted.timestamp, Some(-1));
    assert_eq!(persisted.into_event(), at(-1, 999_000_000));
}

#[test]
fn a_time_off_the_calendar_is_dropped() {
    let persisted = PersistedEvent::new(Some(i64::MAX), "raw".to_string(), Fields::new());
    assert_eq!(persisted.into_event().timestamp, None);
}
