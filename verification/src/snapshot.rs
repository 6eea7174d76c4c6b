//! Snapshots of the index.

use crate::event::{PersistedEvent, PersistedView};
use vstd::prelude::*;

verus! {

/// Everything that is needed to go on without the log up to a record.
#[derive(Debug, PartialEq)]
pub struct Snapshot {
    pub time_field: Option<String>,
    pub next_seq: u64,
    pub byte_offset: u64,
    pub events: Vec<PersistedEvent>,
}

/// What a [`Snapshot`] holds.
pub struct SnapshotView {
    pub time_field: Option<Seq<char>>,
    pub next_seq: int,
    pub byte_offset: int,
    pub events: Seq<PersistedView>,
}

/// What an optional text reads.
pub open spec fn optional_text(text: Option<String>) -> Option<Seq<char>> {
    match text {
        Some(text) => Some(text@),
        None => None,
    }
}

/// What each persisted event holds.
pub open spec fn persisted_views(events: Seq<PersistedEvent>) -> Seq<PersistedView> {
    events.map_values(|e: PersistedEvent| e@)
}

impl View for Snapshot {
    type V = SnapshotView;

    open spec fn view(&self) -> SnapshotView {
        SnapshotView {
            time_field: optional_text(self.time_field),
            next_seq: self.next_seq as int,
            byte_offset: self.byte_offset as int,
            events: persisted_views(self.events@),
        }
    }
}

impl Snapshot {
    pub fn new(
        time_field: Option<String>,
        byte_offset: u64,
        next_seq: u64,
        events: Vec<PersistedEvent>,
    ) -> (r: Snapshot)
        ensures
            r == (Snapshot { time_field, next_seq, byte_offset, events }),
    {
        Snapshot { time_field, next_seq, byte_offset, events }
    }
}

} // verus!
