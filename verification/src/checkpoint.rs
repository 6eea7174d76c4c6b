//! Checkpoints: the state of the index and of the log, made ready to be saved.

use crate::event;
use crate::event::{EventView, PersistedEvent, PersistedView};
use crate::index::Index;
use crate::snapshot;
use crate::snapshot::{Snapshot, SnapshotView};
use crate::wal::Wal;
use vstd::prelude::*;

verus! {

/// The persisted form of each event.
pub open spec fn all_persisted(events: Seq<EventView>) -> Seq<PersistedView> {
    events.map_values(|e: EventView| event::persisted(e))
}

/// The snapshot of some events at a place in the log.
pub open spec fn snapshot_of(
    events: Seq<EventView>,
    next_seq: int,
    byte_offset: int,
    time_field: Option<Seq<char>>,
) -> SnapshotView {
    SnapshotView { time_field, next_seq, byte_offset, events: all_persisted(events) }
}

/// Takes a snapshot of the index at the log's place. Once it is saved, the log may be emptied.
pub fn checkpoint(index: &Index, wal: &Wal, time_field: &Option<String>) -> (r: Snapshot)
    ensures
        r@ == snapshot_of(
            index.view(),
            wal.next_seq as int,
            wal.last_byte_offset as int,
            snapshot::optional_text(*time_field),
        ),
{
    let mut events: Vec<PersistedEvent> = Vec::new();
    let count = index.event_count();
    let mut i: usize = 0;
    while i < count
        invariant
            i <= count,
            count == index.view().len(),
            count == index.stored().len(),
            snapshot::persisted_views(events@) == all_persisted(index.view()).take(i as int),
        decreases count - i,
    {
        let ghost before = snapshot::persisted_views(events@);
        let event = PersistedEvent::from_event(index.event(i));
        events.push(event);
        assert(snapshot::persisted_views(events@) =~= before.push(event@));
        assert(snapshot::persisted_views(events@) =~= all_persisted(index.view()).take(i + 1));
        i += 1;
    }
    assert(snapshot::persisted_views(events@) =~= all_persisted(index.view()));
    let field = match time_field {
        Some(field) => Some(field.clone()),
        None => None,
    };
    Snapshot::new(field, wal.last_byte_offset, wal.next_seq, events)
}

} // verus!
