//! Log events and the form in which they are persisted.

use crate::text;
use crate::time;
use crate::time::{Instant, Timestamp};
use crate::value::{Value, ValueView};
use vstd::prelude::*;

verus! {

/// Whether no two pairs share a name.
pub open spec fn distinct_names(pairs: Seq<(Seq<char>, ValueView)>) -> bool {
    forall|i: int, j: int|
        0 <= i < j < pairs.len() ==> (#[trigger] pairs[i]).0 != (#[trigger] pairs[j]).0
}

/// Whether `name` is the first component of some pair.
pub open spec fn has_name(pairs: Seq<(Seq<char>, ValueView)>, name: Seq<char>) -> bool {
    exists|i: int| 0 <= i < pairs.len() && (#[trigger] pairs[i]).0 == name
}

/// The map that pairs with distinct names list.
pub open spec fn pairs_map(pairs: Seq<(Seq<char>, ValueView)>) -> Map<Seq<char>, ValueView> {
    Map::new(
        |name: Seq<char>| has_name(pairs, name),
        |name: Seq<char>|
            pairs[choose|i: int| 0 <= i < pairs.len() && (#[trigger] pairs[i]).0 == name].1,
    )
}

/// A listed pair is in the map.
pub proof fn lemma_pair_in_map(pairs: Seq<(Seq<char>, ValueView)>, i: int)
    requires
        distinct_names(pairs),
        0 <= i < pairs.len(),
    ensures
        pairs_map(pairs).contains_key(pairs[i].0),
        pairs_map(pairs)[pairs[i].0] == pairs[i].1,
{
    let name = pairs[i].0;
    let j = choose|j: int| 0 <= j < pairs.len() && (#[trigger] pairs[j]).0 == name;
    assert(pairs[j].0 == name);
}

/// The fields of an event: a map from names to values.
#[derive(Debug)]
pub struct Fields {
    entries: Vec<(String, Value)>,
}

impl View for Fields {
    type V = Map<Seq<char>, ValueView>;

    open spec fn view(&self) -> Map<Seq<char>, ValueView> {
        pairs_map(self.pairs())
    }
}

impl Fields {
    /// The names and values, in the order in which the names first came.
    pub closed spec fn pairs(self) -> Seq<(Seq<char>, ValueView)> {
        self.entries@.map_values(|e: (String, Value)| (e.0@, e.1@))
    }

    #[verifier::type_invariant]
    spec fn names_distinct(self) -> bool {
        distinct_names(self.pairs())
    }

    /// No fields.
    pub fn new() -> (r: Fields)
        ensures
            r@ == Map::<Seq<char>, ValueView>::empty(),
            r.pairs().len() == 0,
    {
        let r = Fields { entries: Vec::new() };
        assert(r@ =~= Map::<Seq<char>, ValueView>::empty());
        r
    }

    /// Number of fields.
    pub fn len(&self) -> (r: usize)
        ensures
            r == self.pairs().len(),
            distinct_names(self.pairs()),
    {
        proof {
            use_type_invariant(self);
        }
        self.entries.len()
    }

    /// The name of the field at `i`.
    pub fn name(&self, i: usize) -> (r: &str)
        requires
            i < self.pairs().len(),
        ensures
            r@ == self.pairs()[i as int].0,
    {
        self.entries[i].0.as_str()
    }

    /// The value of the field at `i`.
    pub fn value(&self, i: usize) -> (r: &Value)
        requires
            i < self.pairs().len(),
        ensures
            r@ == self.pairs()[i as int].1,
    {
        &self.entries[i].1
    }

    /// Where the field `name` stands.
    fn find(&self, name: &str) -> (r: Option<usize>)
        ensures
            r matches Some(i) ==> i < self.pairs().len() && self.pairs()[i as int].0 == name@,
            r is None ==> !has_name(self.pairs(), name@),
    {
        let mut i: usize = 0;
        while i < self.entries.len()
            invariant
                i <= self.entries.len(),
                self.pairs().len() == self.entries.len(),
                forall|j: int| 0 <= j < i ==> (#[trigger] self.pairs()[j]).0 != name@,
            decreases self.entries.len() - i,
        {
            assert(self.pairs()[i as int].0 == self.entries@[i as int].0@);
            if text::same(self.entries[i].0.as_str(), name) {
                return Some(i);
            }
            i += 1;
        }
        None
    }

    /// The value of the field `name`.
    pub fn get(&self, name: &str) -> (r: Option<&Value>)
        ensures
            r is Some <==> self@.contains_key(name@),
            r matches Some(v) ==> v@ == self@[name@],
    {
        proof {
            use_type_invariant(self);
        }
        match self.find(name) {
            Some(i) => {
                proof {
                    lemma_pair_in_map(self.pairs(), i as int);
                }
                Some(&self.entries[i].1)
            },
            None => None,
        }
    }

    /// Sets the field `name`, in place of the value that it had.
    pub fn insert(&mut self, name: String, value: Value)
        ensures
            final(self)@ == old(self)@.insert(name@, value@),
    {
        proof {
            use_type_invariant(&*self);
        }
        let ghost before = self.pairs();
        let mut entries: Vec<(String, Value)> = Vec::new();
        let found = self.find(name.as_str());
        let ghost name_view = name@;
        let ghost value_view = value@;
        std::mem::swap(&mut entries, &mut self.entries);
        let ghost entries_before = entries@;
        match found {
            Some(i) => {
                entries.set(i, (name, value));
                proof {
                    let after = entries@.map_values(|e: (String, Value)| (e.0@, e.1@));
                    assert(after =~= before.update(i as int, (name_view, value_view)));
                    lemma_update_pair(before, i as int, name_view, value_view);
                }
            },
            None => {
                entries.push((name, value));
                proof {
                    let after = entries@.map_values(|e: (String, Value)| (e.0@, e.1@));
                    assert(after =~= before.push((name_view, value_view)));
                    lemma_push_pair(before, name_view, value_view);
                }
            },
        }
        self.entries = entries;
    }
}

proof fn lemma_update_pair(
    pairs: Seq<(Seq<char>, ValueView)>,
    i: int,
    name: Seq<char>,
    value: ValueView,
)
    requires
        distinct_names(pairs),
        0 <= i < pairs.len(),
        pairs[i].0 == name,
    ensures
        distinct_names(pairs.update(i, (name, value))),
        pairs_map(pairs.update(i, (name, value))) == pairs_map(pairs).insert(name, value),
{
    let after = pairs.update(i, (name, value));
    assert(distinct_names(after));
    let expected = pairs_map(pairs).insert(name, value);
    assert forall|k: Seq<char>| pairs_map(after).contains_key(k) <==> expected.contains_key(k) by {
        if has_name(after, k) {
            let j = choose|j: int| 0 <= j < after.len() && (#[trigger] after[j]).0 == k;
            assert(pairs[j].0 == k);
        }
        if has_name(pairs, k) {
            let j = choose|j: int| 0 <= j < pairs.len() && (#[trigger] pairs[j]).0 == k;
            assert(after[j].0 == k);
        }
        assert(after[i].0 == name);
    }
    assert forall|k: Seq<char>| pairs_map(after).contains_key(k) implies pairs_map(after)[k]
        == expected[k] by {
        let j = choose|j: int| 0 <= j < after.len() && (#[trigger] after[j]).0 == k;
        lemma_pair_in_map(after, j);
        lemma_pair_in_map(pairs, j);
        assert(pairs[i].0 == name);
        if k == name {
            assert(j == i) by {
                assert(pairs[j].0 == pairs[i].0);
            }
        }
    }
    assert(pairs_map(after) =~= expected);
}

proof fn lemma_push_pair(pairs: Seq<(Seq<char>, ValueView)>, name: Seq<char>, value: ValueView)
    requires
        distinct_names(pairs),
        !has_name(pairs, name),
    ensures
        distinct_names(pairs.push((name, value))),
        pairs_map(pairs.push((name, value))) == pairs_map(pairs).insert(name, value),
{
    let after = pairs.push((name, value));
    assert(distinct_names(after));
    let expected = pairs_map(pairs).insert(name, value);
    assert forall|k: Seq<char>| pairs_map(after).contains_key(k) <==> expected.contains_key(k) by {
        if has_name(after, k) {
            let j = choose|j: int| 0 <= j < after.len() && (#[trigger] after[j]).0 == k;
            if j < pairs.len() {
                assert(pairs[j].0 == k);
            }
        }
        if has_name(pairs, k) {
            let j = choose|j: int| 0 <= j < pairs.len() && (#[trigger] pairs[j]).0 == k;
            assert(after[j].0 == k);
        }
        assert(after[pairs.len() as int].0 == name);
    }
    assert forall|k: Seq<char>| pairs_map(after).contains_key(k) implies pairs_map(after)[k]
        == expected[k] by {
        let j = choose|j: int| 0 <= j < after.len() && (#[trigger] after[j]).0 == k;
        lemma_pair_in_map(after, j);
        if j < pairs.len() {
            lemma_pair_in_map(pairs, j);
            assert(k != name) by {
                assert(pairs[j].0 == k);
            }
        }
    }
    assert(pairs_map(after) =~= expected);
}

impl Clone for Fields {
    fn clone(&self) -> (r: Fields)
        ensures
            r@ == self@,
            r.pairs() == self.pairs(),
    {
        proof {
            use_type_invariant(self);
        }
        let mut entries: Vec<(String, Value)> = Vec::new();
        let mut i: usize = 0;
        while i < self.entries.len()
            invariant
                i <= self.entries.len(),
                entries.len() == i,
                forall|j: int|
                    0 <= j < i ==> (#[trigger] entries@[j]).0@ == self.entries@[j].0@
                        && entries@[j].1@ == self.entries@[j].1@,
            decreases self.entries.len() - i,
        {
            entries.push((self.entries[i].0.clone(), self.entries[i].1.clone()));
            i += 1;
        }
        assert(entries@.map_values(|e: (String, Value)| (e.0@, e.1@)) =~= self.pairs());
        Fields { entries }
    }
}

impl PartialEq for Fields {
    fn eq(&self, other: &Fields) -> (r: bool) {
        proof {
            use_type_invariant(self);
            use_type_invariant(other);
        }
        if self.entries.len() != other.entries.len() {
            proof {
                lemma_map_size(self.pairs());
                lemma_map_size(other.pairs());
            }
            return false;
        }
        let mut i: usize = 0;
        while i < self.entries.len()
            invariant
                i <= self.entries.len(),
                self.pairs().len() == self.entries.len(),
                distinct_names(self.pairs()),
                distinct_names(other.pairs()),
                forall|j: int|
                    0 <= j < i ==> other@.contains_key((#[trigger] self.pairs()[j]).0)
                        && other@[self.pairs()[j].0] == self.pairs()[j].1,
            decreases self.entries.len() - i,
        {
            assert(self.pairs()[i as int].0 == self.entries@[i as int].0@);
            proof {
                lemma_pair_in_map(self.pairs(), i as int);
            }
            match other.get(self.entries[i].0.as_str()) {
                Some(v) => if *v != self.entries[i].1 {
                    return false;
                },
                None => {
                    return false;
                },
            }
            i += 1;
        }
        proof {
            lemma_included_map_equal(self.pairs(), other.pairs());
        }
        true
    }
}

impl vstd::std_specs::cmp::PartialEqSpecImpl for Fields {
    open spec fn obeys_eq_spec() -> bool {
        true
    }

    open spec fn eq_spec(&self, other: &Fields) -> bool {
        self@ == other@
    }
}

impl Eq for Fields {

}

proof fn lemma_map_size(pairs: Seq<(Seq<char>, ValueView)>)
    requires
        distinct_names(pairs),
    ensures
        pairs_map(pairs).dom().finite(),
        pairs_map(pairs).dom().len() == pairs.len(),
    decreases pairs.len(),
{
    if pairs.len() == 0 {
        assert(pairs_map(pairs).dom() =~= Set::<Seq<char>>::empty());
    } else {
        let shorter = pairs.drop_last();
        let last = pairs.last();
        lemma_map_size(shorter);
        assert(!has_name(shorter, last.0)) by {
            if has_name(shorter, last.0) {
                let j = choose|j: int| 0 <= j < shorter.len() && (#[trigger] shorter[j]).0 == last.0;
                assert(pairs[j].0 == pairs[pairs.len() - 1].0);
            }
        }
        lemma_push_pair(shorter, last.0, last.1);
        assert(shorter.push(last) =~= pairs);
    }
}

proof fn lemma_included_map_equal(a: Seq<(Seq<char>, ValueView)>, b: Seq<(Seq<char>, ValueView)>)
    requires
        distinct_names(a),
        distinct_names(b),
        a.len() == b.len(),
        forall|j: int|
            0 <= j < a.len() ==> pairs_map(b).contains_key((#[trigger] a[j]).0)
                && pairs_map(b)[a[j].0] == a[j].1,
    ensures
        pairs_map(a) == pairs_map(b),
{
    lemma_map_size(a);
    lemma_map_size(b);
    let da = pairs_map(a).dom();
    let db = pairs_map(b).dom();
    assert(da.subset_of(db)) by {
        assert forall|k: Seq<char>| da.contains(k) implies db.contains(k) by {
            let j = choose|j: int| 0 <= j < a.len() && (#[trigger] a[j]).0 == k;
            assert(pairs_map(b).contains_key(a[j].0));
        }
    }
    vstd::set_lib::lemma_subset_equality(da, db);
    assert forall|k: Seq<char>| pairs_map(a).contains_key(k) implies pairs_map(a)[k]
        == pairs_map(b)[k] by {
        let j = choose|j: int| 0 <= j < a.len() && (#[trigger] a[j]).0 == k;
        lemma_pair_in_map(a, j);
    }
    assert(pairs_map(a) =~= pairs_map(b));
}

/// An indexed log line.
#[derive(Debug, PartialEq, Eq)]
pub struct Event {
    pub timestamp: Option<Timestamp>,
    pub raw: String,
    pub fields: Fields,
}

/// `Option`'s `Hash` of the standard library, of which nothing is stated.
pub assume_specification<T, H>[ <std::option::Option<T> as std::hash::Hash>::hash ](
    o: &std::option::Option<T>,
    state: &mut H,
) where T: std::hash::Hash, H: std::hash::Hasher
;

/// Events are hashed by their time and their line.
impl std::hash::Hash for Event {
    fn hash<H: std::hash::Hasher>(&self, state: &mut H) {
        self.timestamp.hash(state);
        self.raw.hash(state);
    }
}

/// What an [`Event`] holds.
#[verifier::ext_equal]
pub struct EventView {
    pub timestamp: Option<Instant>,
    pub raw: Seq<char>,
    pub fields: Map<Seq<char>, ValueView>,
}

/// The instant that an optional timestamp holds.
pub open spec fn instant(timestamp: Option<Timestamp>) -> Option<Instant> {
    match timestamp {
        Some(t) => Some(t@),
        None => None,
    }
}

impl View for Event {
    type V = EventView;

    open spec fn view(&self) -> EventView {
        EventView { timestamp: instant(self.timestamp), raw: self.raw@, fields: self.fields@ }
    }
}

impl EventView {
    /// Whether the timestamp, if there is one, is an instant that the calendar has.
    pub open spec fn valid(self) -> bool {
        self.timestamp matches Some(t) ==> t.valid()
    }
}

impl Event {
    pub fn new(timestamp: Option<Timestamp>, raw: String, fields: Fields) -> (r: Event)
        ensures
            r == (Event { timestamp, raw, fields }),
    {
        Event { timestamp, raw, fields }
    }
}

impl Clone for Event {
    fn clone(&self) -> (r: Event)
        ensures
            r@ == self@,
    {
        Event {
            timestamp: self.timestamp,
            raw: self.raw.clone(),
            fields: self.fields.clone(),
        }
    }
}

/// An event as it is written to disk: its timestamp in whole milliseconds since the Unix epoch.
#[derive(Debug, PartialEq, Eq)]
pub struct PersistedEvent {
    pub timestamp: Option<i64>,
    pub raw: String,
    pub fields: Fields,
}

/// What a [`PersistedEvent`] holds.
#[verifier::ext_equal]
pub struct PersistedView {
    pub timestamp: Option<int>,
    pub raw: Seq<char>,
    pub fields: Map<Seq<char>, ValueView>,
}

impl View for PersistedEvent {
    type V = PersistedView;

    open spec fn view(&self) -> PersistedView {
        PersistedView {
            timestamp: match self.timestamp {
                Some(millis) => Some(millis as int),
                None => None,
            },
            raw: self.raw@,
            fields: self.fields@,
        }
    }
}

/// The persisted form of an event.
pub open spec fn persisted(event: EventView) -> PersistedView {
    PersistedView {
        timestamp: match event.timestamp {
            Some(t) => Some(t.millis()),
            None => None,
        },
        raw: event.raw,
        fields: event.fields,
    }
}

/// The event that a persisted form stands for: a timestamp off the calendar is dropped.
pub open spec fn restored(event: PersistedView) -> EventView {
    EventView {
        timestamp: match event.timestamp {
            Some(millis) => if time::instant_of_millis(millis).valid() {
                Some(time::instant_of_millis(millis))
            } else {
                None
            },
            None => None,
        },
        raw: event.raw,
        fields: event.fields,
    }
}

impl PersistedEvent {
    pub fn new(timestamp: Option<i64>, raw: String, fields: Fields) -> (r: PersistedEvent)
        ensures
            r == (PersistedEvent { timestamp, raw, fields }),
    {
        PersistedEvent { timestamp, raw, fields }
    }

    pub fn from_event(event: &Event) -> (r: PersistedEvent)
        ensures
            r@ == persisted(event@),
    {
        let timestamp = match &event.timestamp {
            Some(timestamp) => Some(timestamp.timestamp_millis()),
            None => None,
        };
        Self::new(timestamp, event.raw.clone(), event.fields.clone())
    }

    pub fn into_event(self) -> (r: Event)
        ensures
            r@ == restored(self@),
    {
        let timestamp = match self.timestamp {
            Some(timestamp) => time::from_timestamp_millis(timestamp),
            None => None,
        };
        Event::new(timestamp, self.raw, self.fields)
    }
}

/// An event with its timestamp cut to the start of its millisecond.
pub open spec fn to_the_millisecond(event: EventView) -> EventView {
    EventView {
        timestamp: match event.timestamp {
            Some(t) => Some(
                Instant {
                    secs: t.secs + t.nanos / 1_000_000_000,
                    nanos: (t.nanos / 1_000_000 % 1000) * 1_000_000,
                },
            ),
            None => None,
        },
        ..event
    }
}

/// Whether an event's timestamp is a leap second in the last second of the calendar.
pub open spec fn past_the_calendar(event: EventView) -> bool {
    event.timestamp matches Some(t) && t.nanos >= 1_000_000_000 && t.secs == time::MAX_SECS
}

/// Persisting an event and restoring it keeps its text and fields, and its timestamp to the
/// millisecond.
pub proof fn law_persist_round_trip(event: EventView)
    requires
        event.valid(),
        !past_the_calendar(event),
    ensures
        restored(persisted(event)) == to_the_millisecond(event),
{
    if let Some(t) = event.timestamp {
        time::lemma_millis_round_trip(t);
    }
}

/// Persisting loses nothing more the second time.
pub proof fn law_persist_idempotent(event: PersistedView)
    ensures
        event.timestamp is None || restored(event).timestamp is Some ==> persisted(restored(event))
            == event,
{
    if let Some(millis) = event.timestamp {
        assert((millis % 1000) * 1_000_000 / 1_000_000 == millis % 1000);
    }
}

} // verus!
