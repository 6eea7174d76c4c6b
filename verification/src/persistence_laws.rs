//! Laws of persistence: what an event loses on its way to disk and back, what ends a log, and how
//! recovery takes up snapshot and log.

use crate::checkpoint;
use crate::decimal;
use crate::event;
use crate::event::EventView;
use crate::index;
use crate::recover;
use crate::snapshot::SnapshotView;
use crate::time::Instant;
use crate::wal;
use crate::wal::RecordView;
use vstd::bytes::{
    lemma_auto_spec_u32_to_from_le_bytes, spec_u32_from_le_bytes, spec_u32_to_le_bytes,
};
use vstd::prelude::*;

verus! {

/// The nanoseconds since the Unix epoch, those of a leap second counted on.
pub open spec fn nanoseconds(t: Instant) -> int {
    t.secs * 1_000_000_000 + t.nanos
}

/// An event that goes to disk and back keeps its line and its fields as they are. Its time, if it has
/// one that the calendar has the next minute of, is put back by less than a millisecond, to the start
/// of one; an event without a time has none.
pub proof fn law_persisting_costs_less_than_a_millisecond(event: EventView)
    requires
        event.timestamp matches Some(t) ==> t.valid() && t.secs < 8_210_266_876_799,
    ensures
        ({
            let back = event::restored(event::persisted(event));
            &&& back.raw == event.raw
            &&& back.fields == event.fields
            &&& match (event.timestamp, back.timestamp) {
                (None, None) => true,
                (Some(t), Some(s)) => {
                    &&& 0 <= nanoseconds(t) - nanoseconds(s) < 1_000_000
                    &&& s.nanos % 1_000_000 == 0
                    &&& 0 <= s.nanos < 1_000_000_000
                },
                _ => false,
            }
        }),
{
    if let Some(t) = event.timestamp {
        crate::time::lemma_millis_round_trip(t);
        assert(t.nanos == t.nanos / 1_000_000 * 1_000_000 + t.nanos % 1_000_000);
        assert(t.nanos / 1_000_000 == t.nanos / 1_000_000_000 * 1000 + t.nanos / 1_000_000 % 1000)
            by {
            assert(t.nanos / 1_000_000 / 1000 == t.nanos / 1_000_000_000);
        }
    }
}

/// Even where the time cannot be kept, the line and the fields are, in both directions. A time comes
/// back exactly where the calendar has it.
pub proof fn law_lines_and_fields_are_persisted(
    event: EventView,
    stored: event::PersistedView,
)
    ensures
        event::persisted(event).raw == event.raw,
        event::persisted(event).fields == event.fields,
        event::restored(stored).raw == stored.raw,
        event::restored(stored).fields == stored.fields,
        event::persisted(event).timestamp is Some <==> event.timestamp is Some,
        event::restored(stored).timestamp is Some <==> (stored.timestamp matches Some(millis)
            && -8_334_601_228_800_000 <= millis < 8_210_266_876_800_000),
        event::restored(stored).timestamp matches Some(t) ==> stored.timestamp == Some(t.millis()),
{
    if let Some(millis) = stored.timestamp {
        assert((millis % 1000) * 1_000_000 / 1_000_000 == millis % 1000);
    }
}

/// A log is read up to the first record whose checksum is not that of its payload: the records
/// before it are kept, and neither it nor anything behind it is.
pub proof fn law_corrupt_records_end_the_log(
    payloads: Seq<Seq<u8>>,
    found: Seq<u8>,
    checksum: u32,
    rest: Seq<u8>,
)
    requires
        wal::recordable(payloads),
        found.len() <= u32::MAX,
        checksum != wal::crc32(found),
    ensures
        wal::intact(
            wal::frames(payloads) + (spec_u32_to_le_bytes(found.len() as u32) + found
                + spec_u32_to_le_bytes(checksum) + rest),
        ) == payloads,
{
    lemma_auto_spec_u32_to_from_le_bytes();
    let head = spec_u32_to_le_bytes(found.len() as u32);
    let sum = spec_u32_to_le_bytes(checksum);
    let bad = head + found + sum + rest;
    let len = found.len() as int;
    assert(bad.take(4) =~= head);
    assert(bad.subrange(4, 4 + len) =~= found);
    assert(bad.subrange(4 + len, 8 + len) =~= sum);
    assert(wal::first_payload(bad) is None);
    assert(wal::intact(bad) =~= Seq::<Seq<u8>>::empty());
    wal::law_frames_are_read_back(payloads, bad);
    assert(payloads + Seq::<Seq<u8>>::empty() =~= payloads);
}

/// A log is read up to the first record whose length says that it is longer than what is left of the
/// log, and up to a rest too short to have a length.
pub proof fn law_overlong_records_end_the_log(
    payloads: Seq<Seq<u8>>,
    len: u32,
    rest: Seq<u8>,
    few: Seq<u8>,
)
    requires
        wal::recordable(payloads),
        rest.len() < len + 4,
        few.len() < 4,
    ensures
        wal::intact(wal::frames(payloads) + (spec_u32_to_le_bytes(len) + rest)) == payloads,
        wal::intact(wal::frames(payloads) + few) == payloads,
{
    lemma_auto_spec_u32_to_from_le_bytes();
    let head = spec_u32_to_le_bytes(len);
    let bad = head + rest;
    assert(bad.take(4) =~= head);
    assert(wal::first_payload(bad) is None);
    assert(wal::intact(bad) =~= Seq::<Seq<u8>>::empty());
    wal::law_frames_are_read_back(payloads, bad);
    wal::law_frames_are_read_back(payloads, few);
    assert(payloads + Seq::<Seq<u8>>::empty() =~= payloads);
}

/// A record is in the file as eight bytes more than its payload: its length before it, and its
/// checksum behind it, each in four bytes, the lowest first.
pub proof fn law_frames_hold_length_payload_and_checksum(payload: Seq<u8>)
    requires
        payload.len() <= u32::MAX,
    ensures
        ({
            let framed = wal::frame(payload);
            let n = payload.len() as int;
            &&& framed.len() == n + 8
            &&& spec_u32_from_le_bytes(framed.take(4)) == n
            &&& framed.subrange(4, 4 + n) == payload
            &&& spec_u32_from_le_bytes(framed.skip(4 + n)) == wal::crc32(payload)
        }),
{
    lemma_auto_spec_u32_to_from_le_bytes();
    let framed = wal::frame(payload);
    let n = payload.len() as int;
    assert(framed.take(4) =~= spec_u32_to_le_bytes(payload.len() as u32));
    assert(framed.skip(4 + n) =~= spec_u32_to_le_bytes(wal::crc32(payload)));
    assert(framed.subrange(4, 4 + n) =~= payload);
}

/// What a snapshot covers: the records numbered below its next number; none without a snapshot.
pub open spec fn first_fresh(snapshot: Option<SnapshotView>) -> int {
    match snapshot {
        Some(snapshot) => snapshot.next_seq,
        None => 0,
    }
}

/// Recovery from a snapshot and no log gives the snapshot's events, pushed from first to last, and its
/// place; from neither, nothing, and the start of both files.
pub proof fn law_recovery_starts_from_the_snapshot(snapshot: SnapshotView, capacity: nat)
    ensures
        recover::recovered_events(Some(snapshot), Seq::empty(), capacity) == index::pushed(
            Seq::empty(),
            snapshot.events.map_values(|e: event::PersistedView| event::restored(e)),
            capacity,
        ),
        recover::recovered_seq(Some(snapshot), Seq::empty()) == snapshot.next_seq,
        recover::recovered_offset(Some(snapshot), Seq::empty()) == snapshot.byte_offset,
        recover::recovered_events(None, Seq::empty(), capacity).len() == 0,
        recover::recovered_seq(None, Seq::empty()) == 0,
        recover::recovered_offset(None, Seq::empty()) == 0,
{
    reveal(Seq::filter);
    let none = Seq::<RecordView>::empty();
    assert(recover::fresh(Some(snapshot), none) =~= none);
    assert(recover::fresh(None, none) =~= none);
    assert(recover::record_events(none) =~= Seq::<EventView>::empty());
    let events = recover::snapshot_events(Some(snapshot));
    assert(events + recover::record_events(none) =~= events);
    assert(recover::snapshot_events(None) + recover::record_events(none) =~= Seq::<
        EventView,
    >::empty());
}

/// Each further record of the log is either covered by the snapshot, and then changes nothing, or it
/// is not: then its event is pushed behind the others, its offset is the one to read on from, and the
/// next record has the next number. This holds of any records, in any order and with any gaps.
pub proof fn law_records_are_taken_up_one_by_one(
    snapshot: Option<SnapshotView>,
    records: Seq<RecordView>,
    record: RecordView,
    capacity: nat,
)
    ensures
        ({
            let all = records.push(record);
            if record.seq < first_fresh(snapshot) {
                &&& recover::recovered_events(snapshot, all, capacity)
                    == recover::recovered_events(snapshot, records, capacity)
                &&& recover::recovered_seq(snapshot, all) == recover::recovered_seq(
                    snapshot,
                    records,
                )
                &&& recover::recovered_offset(snapshot, all) == recover::recovered_offset(
                    snapshot,
                    records,
                )
            } else {
                &&& recover::recovered_events(snapshot, all, capacity) == index::retained(
                    recover::recovered_events(snapshot, records, capacity).push(
                        event::restored(record.event),
                    ),
                    capacity,
                )
                &&& recover::recovered_seq(snapshot, all) == record.seq + 1
                &&& recover::recovered_offset(snapshot, all) == record.byte_offset
            }
        }),
{
    reveal(Seq::filter);
    let all = records.push(record);
    let before = recover::fresh(snapshot, records);
    assert(all.drop_last() =~= records);
    if record.seq >= first_fresh(snapshot) {
        let after = recover::fresh(snapshot, all);
        assert(after == before.push(record));
        let old_events = recover::snapshot_events(snapshot) + recover::record_events(before);
        let new_events = recover::snapshot_events(snapshot) + recover::record_events(after);
        assert(new_events.drop_last() =~= old_events);
        assert(new_events.last() == event::restored(record.event));
    }
}

/// A snapshot holds every event of the index in its order, and the log's place.
pub proof fn law_snapshots_hold_all_events(
    events: Seq<EventView>,
    next_seq: int,
    byte_offset: int,
    time_field: Option<Seq<char>>,
)
    ensures
        ({
            let taken = checkpoint::snapshot_of(events, next_seq, byte_offset, time_field);
            &&& taken.events.len() == events.len()
            &&& forall|i: int|
                0 <= i < events.len() ==> #[trigger] taken.events[i] == event::persisted(events[i])
            &&& taken.next_seq == next_seq
            &&& taken.byte_offset == byte_offset
            &&& taken.time_field == time_field
        }),
{
}

/// An index keeps everything that is pushed as long as it holds at most 1024 events more than its
/// capacity; one event more, and the most recent ones that fill the capacity stay, in their order.
pub proof fn law_old_events_give_way<T>(events: Seq<T>, event: T, capacity: nat)
    requires
        events.len() <= capacity + 1024,
    ensures
        ({
            let kept = index::retained(events.push(event), capacity);
            &&& events.len() < capacity + 1024 ==> kept == events.push(event)
            &&& events.len() == capacity + 1024 ==> kept.len() == capacity
            &&& kept.len() <= events.len() + 1
            &&& kept == events.push(event).skip(events.len() + 1 - kept.len())
        }),
{
    assert(events.push(event).skip(0) =~= events.push(event));
}

/// Two numbers are written alike only if they are the same.
proof fn lemma_decimals_are_told_apart(a: nat, b: nat)
    requires
        decimal::decimal_text(a) == decimal::decimal_text(b),
    ensures
        a == b,
{
    decimal::lemma_decimal_text(a);
    decimal::lemma_decimal_text(b);
}

/// Files have the same directory exactly if the checksums of their paths are the same.
pub proof fn law_each_checksum_has_its_directory(a: Seq<char>, b: Seq<char>)
    ensures
        recover::directory_name(a) == recover::directory_name(b) <==> wal::crc32(
            vstd::utf8::encode_utf8(a),
        ) == wal::crc32(vstd::utf8::encode_utf8(b)),
        decimal::number_of(recover::directory_name(a), u32::MAX as nat) == Some(
            wal::crc32(vstd::utf8::encode_utf8(a)) as nat,
        ),
{
    let x = wal::crc32(vstd::utf8::encode_utf8(a)) as nat;
    let y = wal::crc32(vstd::utf8::encode_utf8(b)) as nat;
    if recover::directory_name(a) == recover::directory_name(b) {
        lemma_decimals_are_told_apart(x, y);
    }
    decimal::law_decimal_round_trip(x, u32::MAX as nat);
}

/// Milliseconds are whole: those of an instant are as many as have passed by it, and the instant of
/// some milliseconds has exactly those.
pub proof fn law_milliseconds_are_whole(t: Instant, millis: int)
    requires
        t.valid(),
    ensures
        t.millis() * 1_000_000 <= nanoseconds(t) < (t.millis() + 1) * 1_000_000,
        nanoseconds(crate::time::instant_of_millis(millis)) == millis * 1_000_000,
        0 <= crate::time::instant_of_millis(millis).nanos < 1_000_000_000,
        crate::time::instant_of_millis(millis).millis() == millis,
{
    assert(t.nanos == t.nanos / 1_000_000 * 1_000_000 + t.nanos % 1_000_000);
    assert((millis % 1000) * 1_000_000 / 1_000_000 == millis % 1000);
}

/// Replaying takes what was decoded up to the first that was not, and all of it where all was.
pub proof fn law_replay_ends_at_what_cannot_be_decoded<T>(decoded: Seq<Option<T>>)
    ensures
        ({
            let n = wal::decodable(decoded) as int;
            &&& 0 <= n <= decoded.len()
            &&& forall|i: int| 0 <= i < n ==> (#[trigger] decoded[i]) is Some
            &&& n < decoded.len() ==> decoded[n] is None
        }),
    decreases decoded.len(),
{
    if decoded.len() > 0 && decoded[0] is Some {
        let rest = decoded.skip(1);
        law_replay_ends_at_what_cannot_be_decoded(rest);
        let n = wal::decodable(decoded) as int;
        assert forall|i: int| 0 <= i < n implies (#[trigger] decoded[i]) is Some by {
            if i > 0 {
                assert(rest[i - 1] is Some);
            }
        }
        if n < decoded.len() {
            assert(rest[n - 1] is None);
        }
    }
}

/// It is told that bytes are dropped exactly where there are more than those of the records, and how
/// many.
pub proof fn law_dropped_bytes_are_told(log_len: u64, valid_len: u64)
    ensures
        wal::torn_text(log_len, valid_len) is Some <==> log_len > valid_len,
        wal::torn_text(log_len, valid_len) matches Some(said) ==> exists|
            before: Seq<char>,
            after: Seq<char>,
        |
            #![trigger before + decimal::decimal_text((log_len - valid_len) as nat) + after]
            said == before + decimal::decimal_text((log_len - valid_len) as nat) + after,
{
    if log_len > valid_len {
        let number = decimal::decimal_text((log_len - valid_len) as nat);
        assert(wal::torn_text(log_len, valid_len)->0 == "WAL: dropping "@ + number
            + " bytes of torn or corrupt data after the last intact record"@);
    }
}

} // verus!
