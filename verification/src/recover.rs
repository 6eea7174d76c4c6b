//! Recovery: the index and the log's place, from a snapshot and the records after it.

use crate::checkpoint;
use crate::decimal;
use crate::event;
use crate::event::{EventView, PersistedView};
use crate::index;
use crate::index::Index;
use crate::index_laws;
use crate::snapshot::{Snapshot, SnapshotView};
use crate::tailer;
use crate::wal;
use crate::wal::{RecordView, WALRecord, Wal};
use vstd::prelude::*;
use vstd::string::*;

verus! {

/// What goes on from where a daemon stopped.
pub struct Recovered {
    pub index: Index,
    pub wal: Wal,
    pub byte_offset: u64,
}

impl Recovered {
    pub fn new(index: Index, wal: Wal, byte_offset: u64) -> (r: Recovered)
        ensures
            r == (Recovered { index, wal, byte_offset }),
    {
        Recovered { index, wal, byte_offset }
    }
}

/// The number of the first record that a snapshot does not cover.
pub open spec fn covered(snapshot: Option<SnapshotView>) -> int {
    match snapshot {
        Some(snapshot) => snapshot.next_seq,
        None => 0,
    }
}

/// The offset that a snapshot recorded.
pub open spec fn snapshot_offset(snapshot: Option<SnapshotView>) -> int {
    match snapshot {
        Some(snapshot) => snapshot.byte_offset,
        None => 0,
    }
}

/// The records that a snapshot does not cover.
pub open spec fn fresh(snapshot: Option<SnapshotView>, records: Seq<RecordView>) -> Seq<
    RecordView,
> {
    records.filter(|r: RecordView| r.seq >= covered(snapshot))
}

/// The events of some records.
pub open spec fn record_events(records: Seq<RecordView>) -> Seq<EventView> {
    records.map_values(|r: RecordView| event::restored(r.event))
}

/// The events of a snapshot.
pub open spec fn snapshot_events(snapshot: Option<SnapshotView>) -> Seq<EventView> {
    match snapshot {
        Some(snapshot) => snapshot.events.map_values(|e: PersistedView| event::restored(e)),
        None => Seq::empty(),
    }
}

/// The events that recovery gives to an index of some capacity: those of the snapshot, and those of
/// the records that it does not cover.
pub open spec fn recovered_events(
    snapshot: Option<SnapshotView>,
    records: Seq<RecordView>,
    capacity: nat,
) -> Seq<EventView> {
    index::pushed(
        Seq::empty(),
        snapshot_events(snapshot) + record_events(fresh(snapshot, records)),
        capacity,
    )
}

/// The number of the next record after recovery.
pub open spec fn recovered_seq(snapshot: Option<SnapshotView>, records: Seq<RecordView>) -> int {
    let later = fresh(snapshot, records);
    if later.len() > 0 {
        later.last().seq + 1
    } else {
        covered(snapshot)
    }
}

/// The offset in the source file to read on from after recovery.
pub open spec fn recovered_offset(
    snapshot: Option<SnapshotView>,
    records: Seq<RecordView>,
) -> int {
    let later = fresh(snapshot, records);
    if later.len() > 0 {
        later.last().byte_offset
    } else {
        snapshot_offset(snapshot)
    }
}

/// What an optional snapshot holds.
pub open spec fn optional_snapshot(snapshot: Option<Snapshot>) -> Option<SnapshotView> {
    match snapshot {
        Some(snapshot) => Some(snapshot@),
        None => None,
    }
}

/// Builds the index anew from a snapshot and the records of the log.
pub fn recover(
    snapshot: Option<Snapshot>,
    records: Vec<WALRecord>,
    max_events: Option<usize>,
) -> (r: Recovered)
    requires
        max_events matches Some(n) ==> n <= usize::MAX - index::SLACK,
        ({
            let later = fresh(optional_snapshot(snapshot), wal::record_views(records@));
            later.len() > 0 ==> later.last().seq < u64::MAX
        }),
    ensures
        r.index.wf(),
        r.index.capacity() == (match max_events {
            Some(n) => n,
            None => index::DEFAULT_MAX_EVENTS,
        }),
        ({
            let before = optional_snapshot(snapshot);
            let log = wal::record_views(records@);
            &&& r.index.view() == recovered_events(before, log, r.index.capacity())
            &&& r.wal.next_seq == recovered_seq(before, log)
            &&& r.wal.last_byte_offset == recovered_offset(before, log)
            &&& r.byte_offset == recovered_offset(before, log)
        }),
{
    let mut index = Index::new(max_events);
    let mut next_seq: u64 = 0;
    let mut byte_offset: u64 = 0;
    let ghost before = optional_snapshot(snapshot);
    let ghost log = wal::record_views(records@);
    let ghost capacity = index.capacity();
    assert(index.view() =~= index::pushed(Seq::<EventView>::empty(), Seq::empty(), capacity));
    if let Some(snapshot) = snapshot {
        next_seq = snapshot.next_seq;
        byte_offset = snapshot.byte_offset;
        let events = snapshot.events;
        for event in it: events
            invariant
                it.seq() == events@,
                events == snapshot.events,
                before == Some(snapshot@),
                index.wf(),
                index.capacity() == capacity,
                index.view() == index::pushed(
                    Seq::empty(),
                    snapshot_events(before).take(it.index()),
                    capacity,
                ),
        {
            let ghost done = snapshot_events(before).take(it.index() + 1);
            assert(done.drop_last() =~= snapshot_events(before).take(it.index()));
            assert(done.last() == event::restored(event@));
            index.push_event(event.into_event());
        }
        assert(snapshot_events(before).take(events@.len() as int) =~= snapshot_events(before));
    }
    let mut wal = Wal::open(None);
    let first_seq = next_seq;
    let mut last_seq: Option<u64> = None;
    proof {
        assert(snapshot_events(before) + record_events(fresh(before, log.take(0)))
            =~= snapshot_events(before)) by {
            reveal(Seq::filter);
        }
        assert(fresh(before, log.take(0)).len() == 0) by {
            reveal(Seq::filter);
        }
    }
    for record in it: records
        invariant
            it.seq() == records@,
            log == wal::record_views(records@),
            first_seq == covered(before),
            index.wf(),
            index.capacity() == capacity,
            index.view() == index::pushed(
                Seq::empty(),
                snapshot_events(before) + record_events(fresh(before, log.take(it.index()))),
                capacity,
            ),
            match last_seq {
                Some(seq) => seq + 1 == recovered_seq(before, log.take(it.index())),
                None => first_seq == recovered_seq(before, log.take(it.index())),
            },
            last_seq is Some <==> fresh(before, log.take(it.index())).len() > 0,
            byte_offset == recovered_offset(before, log.take(it.index())),
    {
        let ghost earlier = fresh(before, log.take(it.index()));
        let ghost later = fresh(before, log.take(it.index() + 1));
        proof {
            reveal(Seq::filter);
            assert(log.take(it.index() + 1).drop_last() =~= log.take(it.index()));
            assert(log.take(it.index() + 1).last() == record@);
        }
        if record.seq >= first_seq {
            assert(later == earlier.push(record@));
            last_seq = Some(record.seq);
            byte_offset = record.byte_offset;
            let ghost all = snapshot_events(before) + record_events(later);
            assert(all.drop_last() =~= snapshot_events(before) + record_events(earlier));
            assert(all.last() == event::restored(record.event@));
            index.push_event(record.event.into_event());
        } else {
            assert(later == earlier);
        }
    }
    assert(log.take(log.len() as int) =~= log);
    if let Some(seq) = last_seq {
        next_seq = seq + 1;
    }
    wal.next_seq = next_seq;
    wal.last_byte_offset = byte_offset;
    Recovered::new(index, wal, byte_offset)
}

/// The name of the directory that the state of a watched file is kept in: the checksum of the
/// file's absolute path.
pub open spec fn directory_name(path: Seq<char>) -> Seq<char> {
    decimal::decimal_text(wal::crc32(vstd::utf8::encode_utf8(path)) as nat)
}

/// The name of the directory that the state of a watched file is kept in, given the file's absolute
/// path.
pub fn data_dir(canonical: &str) -> (r: String)
    ensures
        r@ == directory_name(canonical@),
{
    decimal::decimal(crc32fast::hash(canonical.as_bytes()) as u64)
}

/// The records that the log holds of events, each with the offset right after its line.
pub open spec fn records_of(first_seq: int, events: Seq<(EventView, int)>) -> Seq<RecordView> {
    Seq::new(
        events.len(),
        |i: int|
            RecordView {
                seq: first_seq + i,
                byte_offset: events[i].1,
                event: event::persisted(events[i].0),
            },
    )
}

/// The events alone.
pub open spec fn events_alone(events: Seq<(EventView, int)>) -> Seq<EventView> {
    events.map_values(|e: (EventView, int)| e.0)
}

/// Each event with its timestamp cut to the start of its millisecond.
pub open spec fn all_to_the_millisecond(events: Seq<EventView>) -> Seq<EventView> {
    events.map_values(|e: EventView| event::to_the_millisecond(e))
}

/// Whether persisting keeps an event to the millisecond.
#[verifier::opaque]
pub open spec fn persistable(event: EventView) -> bool {
    event.valid() && !event::past_the_calendar(event)
}

/// Filtering by what nothing satisfies, and by what everything does.
proof fn lemma_filter_all_or_none<T>(s: Seq<T>, pred: spec_fn(T) -> bool)
    ensures
        (forall|i: int| 0 <= i < s.len() ==> !pred(#[trigger] s[i])) ==> s.filter(pred).len() == 0,
        (forall|i: int| 0 <= i < s.len() ==> pred(#[trigger] s[i])) ==> s.filter(pred) == s,
    decreases s.len(),
{
    reveal(Seq::filter);
    if s.len() > 0 {
        let front = s.drop_last();
        lemma_filter_all_or_none(front, pred);
        assert(front.push(s.last()) =~= s);
        if forall|i: int| 0 <= i < s.len() ==> !pred(#[trigger] s[i]) {
            assert forall|i: int| 0 <= i < front.len() implies !pred(#[trigger] front[i]) by {
                assert(!pred(s[i]));
            }
            assert(!pred(s[s.len() - 1]));
        }
        if forall|i: int| 0 <= i < s.len() ==> pred(#[trigger] s[i]) {
            assert forall|i: int| 0 <= i < front.len() implies pred(#[trigger] front[i]) by {
                assert(pred(s[i]));
            }
            assert(pred(s[s.len() - 1]));
        }
    } else {
        assert(s.filter(pred) =~= s);
    }
}

/// Records that are all covered, followed by records that are all fresh.
proof fn lemma_fresh_records(
    snapshot: Option<SnapshotView>,
    old_records: Seq<RecordView>,
    new_records: Seq<RecordView>,
)
    requires
        forall|i: int|
            0 <= i < old_records.len() ==> (#[trigger] old_records[i]).seq < covered(snapshot),
        forall|i: int|
            0 <= i < new_records.len() ==> (#[trigger] new_records[i]).seq >= covered(snapshot),
    ensures
        fresh(snapshot, old_records + new_records) == new_records,
{
    let pred = |r: RecordView| r.seq >= covered(snapshot);
    Seq::filter_distributes_over_add(old_records, new_records, pred);
    lemma_filter_all_or_none(old_records, pred);
    lemma_filter_all_or_none(new_records, pred);
    assert(old_records.filter(pred) + new_records.filter(pred) =~= new_records);
}

/// Records that are all covered, followed by those of later events.
proof fn lemma_fresh_records_of(
    snapshot: Option<SnapshotView>,
    covered_records: Seq<RecordView>,
    later: Seq<(EventView, int)>,
)
    requires
        forall|i: int|
            0 <= i < covered_records.len() ==> (#[trigger] covered_records[i]).seq < covered(
                snapshot,
            ),
    ensures
        fresh(snapshot, covered_records + records_of(covered(snapshot), later)) == records_of(
            covered(snapshot),
            later,
        ),
{
    let new_records = records_of(covered(snapshot), later);
    assert forall|i: int| 0 <= i < new_records.len() implies (#[trigger] new_records[i]).seq
        >= covered(snapshot) by {}
    lemma_fresh_records(snapshot, covered_records, new_records);
}

/// The events of the records of events that can be persisted.
proof fn lemma_record_events(first_seq: int, later: Seq<(EventView, int)>)
    requires
        forall|i: int| 0 <= i < later.len() ==> persistable((#[trigger] later[i]).0),
    ensures
        record_events(records_of(first_seq, later)) == all_to_the_millisecond(events_alone(later)),
{
    let found = record_events(records_of(first_seq, later));
    let wanted = all_to_the_millisecond(events_alone(later));
    assert forall|i: int| 0 <= i < later.len() implies #[trigger] found[i] == wanted[i] by {
        assert(persistable(later[i].0));
        reveal(persistable);
        event::law_persist_round_trip(later[i].0);
    }
    assert(found =~= wanted);
}

/// The events of the snapshot of events that can be persisted.
proof fn lemma_snapshot_events(
    events: Seq<EventView>,
    next_seq: int,
    byte_offset: int,
    time_field: Option<Seq<char>>,
)
    requires
        forall|i: int| 0 <= i < events.len() ==> persistable(#[trigger] events[i]),
    ensures
        snapshot_events(Some(checkpoint::snapshot_of(events, next_seq, byte_offset, time_field)))
            == all_to_the_millisecond(events),
{
    let found = snapshot_events(
        Some(checkpoint::snapshot_of(events, next_seq, byte_offset, time_field)),
    );
    let wanted = all_to_the_millisecond(events);
    assert forall|i: int| 0 <= i < events.len() implies #[trigger] found[i] == wanted[i] by {
        assert(persistable(events[i]));
        reveal(persistable);
        event::law_persist_round_trip(events[i]);
    }
    assert(found =~= wanted);
}

/// Pushing events that were cut to the millisecond, first those that an index holds, gives the index
/// with its events cut to the millisecond.
proof fn lemma_pushed_to_the_millisecond(
    events: Seq<EventView>,
    more: Seq<EventView>,
    capacity: nat,
)
    requires
        events.len() <= capacity + index::SLACK,
    ensures
        index::pushed(
            Seq::empty(),
            all_to_the_millisecond(events) + all_to_the_millisecond(more),
            capacity,
        ) == all_to_the_millisecond(index::pushed(events, more, capacity)),
{
    let f = |e: EventView| event::to_the_millisecond(e);
    let empty = Seq::<EventView>::empty();
    index_laws::lemma_pushed_in_turn(
        empty,
        all_to_the_millisecond(events),
        all_to_the_millisecond(more),
        capacity,
    );
    index_laws::lemma_pushed_in_full(empty, all_to_the_millisecond(events), capacity);
    assert(empty + all_to_the_millisecond(events) =~= all_to_the_millisecond(events));
    index_laws::lemma_pushed_mapped(events, more, capacity, f);
}

/// The log's place, where the records that a snapshot does not cover are those of some events.
proof fn lemma_recovered_place(
    snapshot: SnapshotView,
    log: Seq<RecordView>,
    later: Seq<(EventView, int)>,
)
    requires
        fresh(Some(snapshot), log) == records_of(snapshot.next_seq, later),
    ensures
        recovered_seq(Some(snapshot), log) == snapshot.next_seq + later.len(),
        recovered_offset(Some(snapshot), log) == if later.len() > 0 {
            later.last().1
        } else {
            snapshot.byte_offset
        },
{
}

/// The events, where a snapshot holds those of an index, cut to the millisecond, and the records that
/// it does not cover are those of some later events.
proof fn lemma_recovered_events(
    snapshot: SnapshotView,
    log: Seq<RecordView>,
    events: Seq<EventView>,
    later: Seq<(EventView, int)>,
    capacity: nat,
)
    requires
        events.len() <= capacity + index::SLACK,
        snapshot_events(Some(snapshot)) == all_to_the_millisecond(events),
        fresh(Some(snapshot), log) == records_of(snapshot.next_seq, later),
        forall|i: int| 0 <= i < later.len() ==> persistable((#[trigger] later[i]).0),
    ensures
        recovered_events(Some(snapshot), log, capacity) == all_to_the_millisecond(
            index::pushed(events, events_alone(later), capacity),
        ),
{
    lemma_record_events(snapshot.next_seq, later);
    lemma_pushed_to_the_millisecond(events, events_alone(later), capacity);
}

/// Recovery gives back the index as it was, with timestamps to the millisecond, and the log's
/// place: from a snapshot of the index and the records of the events since, whether or not records
/// from before the snapshot are still in the log.
#[verifier::spinoff_prover]
pub proof fn law_recovery_restores_the_index(
    events: Seq<EventView>,
    next_seq: int,
    byte_offset: int,
    time_field: Option<Seq<char>>,
    covered_records: Seq<RecordView>,
    later: Seq<(EventView, int)>,
    capacity: nat,
)
    requires
        events.len() <= capacity + index::SLACK,
        forall|i: int| 0 <= i < events.len() ==> persistable(#[trigger] events[i]),
        forall|i: int| 0 <= i < later.len() ==> persistable((#[trigger] later[i]).0),
        forall|i: int|
            0 <= i < covered_records.len() ==> (#[trigger] covered_records[i]).seq < next_seq,
    ensures
        ({
            let snapshot = Some(
                checkpoint::snapshot_of(events, next_seq, byte_offset, time_field),
            );
            let log = covered_records + records_of(next_seq, later);
            &&& recovered_events(snapshot, log, capacity) == all_to_the_millisecond(
                index::pushed(events, events_alone(later), capacity),
            )
            &&& recovered_seq(snapshot, log) == next_seq + later.len()
            &&& recovered_offset(snapshot, log) == if later.len() > 0 {
                later.last().1
            } else {
                byte_offset
            }
        }),
{
    let taken = checkpoint::snapshot_of(events, next_seq, byte_offset, time_field);
    let log = covered_records + records_of(next_seq, later);
    lemma_fresh_records_of(Some(taken), covered_records, later);
    lemma_snapshot_events(events, next_seq, byte_offset, time_field);
    lemma_recovered_events(taken, log, events, later, capacity);
    lemma_recovered_place(taken, log, later);
}

/// A checkpoint that was saved and loaded again gives back the index as it was, with timestamps to
/// the millisecond, and the log's place, once the log is empty: whatever the encoding, if it gives
/// back what was encoded.
pub proof fn law_a_saved_checkpoint_restores_the_index(
    events: Seq<EventView>,
    next_seq: int,
    byte_offset: int,
    time_field: Option<Seq<char>>,
    encode: spec_fn(SnapshotView) -> Seq<u8>,
    decode: spec_fn(Seq<u8>) -> Option<SnapshotView>,
    decode_record: spec_fn(Seq<u8>) -> Option<RecordView>,
    capacity: nat,
)
    requires
        events.len() <= capacity + index::SLACK,
        forall|i: int| 0 <= i < events.len() ==> persistable(#[trigger] events[i]),
        forall|s: SnapshotView| decode(#[trigger] encode(s)) == Some(s),
    ensures
        ({
            let loaded = decode(
                encode(checkpoint::snapshot_of(events, next_seq, byte_offset, time_field)),
            );
            let log = wal::records_in(Seq::empty(), decode_record);
            &&& loaded matches Some(snapshot) && snapshot.time_field == time_field
            &&& recovered_events(loaded, log, capacity) == all_to_the_millisecond(events)
            &&& recovered_seq(loaded, log) == next_seq
            &&& recovered_offset(loaded, log) == byte_offset
        }),
{
    let log = wal::records_in(Seq::empty(), decode_record);
    let none = Seq::<(EventView, int)>::empty();
    assert(log =~= Seq::<RecordView>::empty() + records_of(next_seq, none));
    law_recovery_restores_the_index(
        events,
        next_seq,
        byte_offset,
        time_field,
        Seq::empty(),
        none,
        capacity,
    );
    assert(events_alone(none) =~= Seq::<EventView>::empty());
}

/// Recovery without a snapshot gives back every event of the log that an index of that capacity
/// keeps.
pub proof fn law_recovery_replays_the_log(later: Seq<(EventView, int)>, capacity: nat)
    requires
        forall|i: int| 0 <= i < later.len() ==> persistable((#[trigger] later[i]).0),
    ensures
        ({
            let log = records_of(0, later);
            &&& recovered_events(None, log, capacity) == all_to_the_millisecond(
                index::pushed(Seq::empty(), events_alone(later), capacity),
            )
            &&& recovered_seq(None, log) == later.len()
            &&& recovered_offset(None, log) == if later.len() > 0 {
                later.last().1
            } else {
                0
            }
        }),
{
    let log = records_of(0, later);
    let f = |e: EventView| event::to_the_millisecond(e);
    let empty = Seq::<EventView>::empty();
    lemma_fresh_records_of(None, Seq::empty(), later);
    assert(Seq::<RecordView>::empty() + log =~= log);
    lemma_record_events(0, later);
    assert(empty + record_events(log) =~= record_events(log));
    assert(empty.map_values(f) =~= empty);
    index_laws::lemma_pushed_mapped(empty, events_alone(later), capacity, f);
}

/// A crash loses nothing as long as the file is there: if the log holds the records of the first
/// events read from a file, recovery gives those back, with timestamps to the millisecond, and
/// reading on from the recovered offset gives all the others.
pub proof fn law_crashes_lose_nothing(
    file: Seq<u8>,
    time_field: Option<Seq<char>>,
    durable: int,
    capacity: nat,
)
    requires
        ({
            let read = tailer::batch(file, 0, 1, time_field, false).events;
            &&& 0 <= durable <= read.len()
            &&& forall|i: int| 0 <= i < read.len() ==> persistable((#[trigger] read[i]).0)
        }),
    ensures
        ({
            let read = tailer::batch(file, 0, 1, time_field, false);
            let log = records_of(0, read.events.take(durable));
            let resumed = recovered_offset(None, log);
            let rest = tailer::batch(file.skip(resumed), resumed, 1, time_field, false);
            &&& recovered_events(None, log, capacity) == all_to_the_millisecond(
                index::pushed(Seq::empty(), events_alone(read.events.take(durable)), capacity),
            )
            &&& rest.events == read.events.skip(durable)
            &&& rest.byte_offset == read.byte_offset
        }),
{
    let read = tailer::batch(file, 0, 1, time_field, false);
    let kept = read.events.take(durable);
    assert forall|i: int| 0 <= i < kept.len() implies persistable((#[trigger] kept[i]).0) by {
        assert(persistable(read.events[i].0));
    }
    law_recovery_replays_the_log(kept, capacity);
    if durable > 0 {
        tailer::law_reading_resumes_after_an_event(file, 0, 1, 1, time_field, durable);
    } else {
        assert(file.skip(0) =~= file);
        assert(read.events.skip(0) =~= read.events);
    }
}

/// Nor does a crash after a checkpoint: recovery gives back the index as it was at the checkpoint
/// with the events that the log has recorded since, and reading on from the recovered offset gives
/// all the others.
pub proof fn law_crashes_after_a_checkpoint_lose_nothing(
    events: Seq<EventView>,
    next_seq: int,
    byte_offset: int,
    covered_records: Seq<RecordView>,
    file: Seq<u8>,
    time_field: Option<Seq<char>>,
    durable: int,
    capacity: nat,
)
    requires
        0 <= byte_offset <= file.len(),
        events.len() <= capacity + index::SLACK,
        forall|i: int| 0 <= i < events.len() ==> persistable(#[trigger] events[i]),
        forall|i: int|
            0 <= i < covered_records.len() ==> (#[trigger] covered_records[i]).seq < next_seq,
        ({
            let read = tailer::batch(
                file.skip(byte_offset),
                byte_offset,
                1,
                time_field,
                false,
            ).events;
            &&& 0 <= durable <= read.len()
            &&& forall|i: int| 0 <= i < read.len() ==> persistable((#[trigger] read[i]).0)
        }),
    ensures
        ({
            let read = tailer::batch(file.skip(byte_offset), byte_offset, 1, time_field, false);
            let snapshot = Some(
                checkpoint::snapshot_of(events, next_seq, byte_offset, time_field),
            );
            let log = covered_records + records_of(next_seq, read.events.take(durable));
            let resumed = recovered_offset(snapshot, log);
            let rest = tailer::batch(file.skip(resumed), resumed, 1, time_field, false);
            &&& recovered_events(snapshot, log, capacity) == all_to_the_millisecond(
                index::pushed(events, events_alone(read.events.take(durable)), capacity),
            )
            &&& rest.events == read.events.skip(durable)
            &&& rest.byte_offset == read.byte_offset
        }),
{
    let bytes = file.skip(byte_offset);
    let read = tailer::batch(bytes, byte_offset, 1, time_field, false);
    let kept = read.events.take(durable);
    assert forall|i: int| 0 <= i < kept.len() implies persistable((#[trigger] kept[i]).0) by {
        assert(persistable(read.events[i].0));
    }
    law_recovery_restores_the_index(
        events,
        next_seq,
        byte_offset,
        time_field,
        covered_records,
        kept,
        capacity,
    );
    if durable > 0 {
        tailer::law_reading_resumes_after_an_event(bytes, byte_offset, 1, 1, time_field, durable);
        let resumed = read.events[durable - 1].1;
        assert(bytes.skip(resumed - byte_offset) =~= file.skip(resumed));
    } else {
        assert(read.events.skip(0) =~= read.events);
    }
}

} // verus!
