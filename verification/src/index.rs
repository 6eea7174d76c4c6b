//! The in-memory store that queries run against.

use crate::arithmetic;
use crate::binary32;
use crate::event::{Event, EventView};
use crate::field_index;
use crate::field_index::FieldIndex;
use crate::parallel;
use crate::query;
use crate::sort;
use crate::query::{
    Aggregation, AggregationView, ComparisonOp, Limit, PlanView, Query, QueryPlan, QueryResult,
    QueryView, ResultView,
};
use crate::text;
use crate::time::{Instant, Timestamp};
use crate::time_index;
use crate::time_index::TimeIndex;
use crate::value::{Value, ValueView};
use std::collections::HashSet;
use vstd::prelude::*;

verus! {

broadcast use vstd::std_specs::hash::group_hash_axioms;

/// How far the index may grow past its capacity before it drops events.
pub const SLACK: usize = 1024;

/// Capacity of an index that none was asked for.
pub const DEFAULT_MAX_EVENTS: usize = 2_000_000;

/// The events that stay of those pushed: all of them up to the capacity and the slack, else the
/// most recent ones that fill the capacity.
pub open spec fn retained<T>(events: Seq<T>, capacity: nat) -> Seq<T> {
    if events.len() > capacity + SLACK {
        events.skip(events.len() - capacity)
    } else {
        events
    }
}

/// What is left of events once more are pushed behind them, one by one.
pub open spec fn pushed<T>(events: Seq<T>, more: Seq<T>, capacity: nat) -> Seq<T>
    decreases more.len(),
{
    if more.len() == 0 {
        events
    } else {
        retained(pushed(events, more.drop_last(), capacity).push(more.last()), capacity)
    }
}

/// The events that a query matches, in the order in which they were pushed.
pub open spec fn selected(events: Seq<EventView>, query: QueryView) -> Seq<EventView> {
    events.filter(|e: EventView| query::selects(query, e))
}

/// Why a number could not be computed.
#[derive(Debug, PartialEq, Eq)]
pub enum AggregationError {
    FieldNotFound(String),
    IncompatibleType(String),
    NoMatchingEvents,
    InvalidPercentile,
}

/// What an [`AggregationError`] holds.
pub enum AggregationErrorView {
    FieldNotFound(Seq<char>),
    IncompatibleType(Seq<char>),
    NoMatchingEvents,
    InvalidPercentile,
}

impl View for AggregationError {
    type V = AggregationErrorView;

    open spec fn view(&self) -> AggregationErrorView {
        match self {
            AggregationError::FieldNotFound(field) => AggregationErrorView::FieldNotFound(field@),
            AggregationError::IncompatibleType(field) => AggregationErrorView::IncompatibleType(
                field@,
            ),
            AggregationError::NoMatchingEvents => AggregationErrorView::NoMatchingEvents,
            AggregationError::InvalidPercentile => AggregationErrorView::InvalidPercentile,
        }
    }
}

/// How an error reads.
pub open spec fn aggregation_error_text(error: AggregationErrorView) -> Seq<char> {
    match error {
        AggregationErrorView::FieldNotFound(field) => "field '"@ + field
            + "' not found in any matching event"@,
        AggregationErrorView::IncompatibleType(field) => "field '"@ + field
            + "' has incompatible type for numeric aggregation"@,
        AggregationErrorView::NoMatchingEvents => "no matching events to aggregate"@,
        AggregationErrorView::InvalidPercentile => "percentile out of range (p1–p100)"@,
    }
}

impl AggregationError {
    /// How the error reads.
    pub fn to_text(&self) -> (r: String)
        ensures
            r@ == aggregation_error_text(self@),
    {
        match self {
            AggregationError::FieldNotFound(field) => text::concat(
                "field '",
                field.as_str(),
                "' not found in any matching event",
            ),
            AggregationError::IncompatibleType(field) => text::concat(
                "field '",
                field.as_str(),
                "' has incompatible type for numeric aggregation",
            ),
            AggregationError::NoMatchingEvents => "no matching events to aggregate".to_owned(),
            AggregationError::InvalidPercentile => "percentile out of range (p1–p100)".to_owned(),
        }
    }
}

/// The values of a field in those events that have it.
pub open spec fn field_values(events: Seq<EventView>, field: Seq<char>) -> Seq<ValueView>
    decreases events.len(),
{
    if events.len() == 0 {
        Seq::empty()
    } else if events.last().fields.contains_key(field) {
        field_values(events.drop_last(), field).push(events.last().fields[field])
    } else {
        field_values(events.drop_last(), field)
    }
}

/// The numbers that a field takes in those events that have it; an error where there is no event,
/// where some value is no number, or where no event has the field.
pub open spec fn field_numbers(events: Seq<EventView>, field: Seq<char>) -> Result<
    Seq<u32>,
    AggregationErrorView,
> {
    let values = field_values(events, field);
    if events.len() == 0 {
        Err(AggregationErrorView::NoMatchingEvents)
    } else if exists|i: int| 0 <= i < values.len() && !(#[trigger] values[i] is Number) {
        Err(AggregationErrorView::IncompatibleType(field))
    } else if values.len() == 0 {
        Err(AggregationErrorView::FieldNotFound(field))
    } else {
        Ok(values.map_values(|v: ValueView| v->Number_0))
    }
}

/// The part of the matching events that a limit leaves.
pub open spec fn limited<T>(events: Seq<T>, limit: Option<Limit>) -> Seq<T> {
    match limit {
        Some(Limit::Head(n)) => if n < events.len() {
            events.take(n as int)
        } else {
            events
        },
        Some(Limit::Tail(n)) => if n < events.len() {
            events.skip(events.len() - n)
        } else {
            events
        },
        None => events,
    }
}

/// Whether `least` is among some numbers and none of them comes before it in their total order.
pub open spec fn is_minimum(least: u32, numbers: Seq<u32>) -> bool {
    &&& numbers.contains(least)
    &&& forall|i: int|
        0 <= i < numbers.len() ==> binary32::total_key(least) <= binary32::total_key(
            #[trigger] numbers[i],
        )
}

/// Whether `greatest` is among some numbers and none of them comes after it in their total order.
pub open spec fn is_maximum(greatest: u32, numbers: Seq<u32>) -> bool {
    &&& numbers.contains(greatest)
    &&& forall|i: int|
        0 <= i < numbers.len() ==> binary32::total_key(#[trigger] numbers[i])
            <= binary32::total_key(greatest)
}

/// Whether `sorted` lists some numbers in ascending order.
pub open spec fn is_sorted_copy(sorted: Seq<u32>, numbers: Seq<u32>) -> bool {
    &&& sort::ascending_numbers(sorted)
    &&& sorted.to_multiset() == numbers.to_multiset()
}

/// Whether `n` has the given rank among some numbers in ascending order.
pub open spec fn is_ranked(n: u32, rank: int, numbers: Seq<u32>) -> bool {
    exists|sorted: Seq<u32>| #[trigger]
        is_sorted_copy(sorted, numbers) && 0 <= rank < sorted.len() && n == sorted[rank]
}

/// Whether a number is no fraction: it is zero or less, or greater than one.
pub open spec fn is_invalid_fraction(p: u32) -> bool {
    !binary32::is_nan(p) && (binary32::numeric_key(p) <= 0 || binary32::numeric_key(p)
        > binary32::ONE_BITS)
}

/// Whether `answer` is what a plan asks for of the events that its filter matches.
pub open spec fn answers(
    events: Seq<EventView>,
    plan: PlanView,
    answer: Result<ResultView, AggregationErrorView>,
) -> bool {
    match plan.aggregation {
        None => answer == Ok::<_, AggregationErrorView>(
            ResultView::Events(limited(events, plan.limit)),
        ),
        Some(AggregationView::Count) => answer == Ok::<_, AggregationErrorView>(
            ResultView::Count(events.len()),
        ),
        Some(AggregationView::CountBy(field)) => answer == Ok::<_, AggregationErrorView>(
            ResultView::CountBy(field_values(events, field).len()),
        ),
        Some(AggregationView::Sum(field)) => match field_numbers(events, field) {
            Ok(numbers) => answer == Ok::<_, AggregationErrorView>(
                ResultView::Scalar(arithmetic::total(numbers)),
            ),
            Err(error) => answer == Err::<ResultView, _>(error),
        },
        Some(AggregationView::Average(field)) => match field_numbers(events, field) {
            Ok(numbers) => answer == Ok::<_, AggregationErrorView>(
                ResultView::Scalar(arithmetic::average(numbers)),
            ),
            Err(error) => answer == Err::<ResultView, _>(error),
        },
        Some(AggregationView::Min(field)) => match field_numbers(events, field) {
            Ok(numbers) => answer matches Ok(ResultView::Scalar(n)) && is_minimum(n, numbers),
            Err(error) => answer == Err::<ResultView, _>(error),
        },
        Some(AggregationView::Max(field)) => match field_numbers(events, field) {
            Ok(numbers) => answer matches Ok(ResultView::Scalar(n)) && is_maximum(n, numbers),
            Err(error) => answer == Err::<ResultView, _>(error),
        },
        Some(AggregationView::Percentage(field, p)) => if is_invalid_fraction(p) {
            answer == Err::<ResultView, _>(AggregationErrorView::InvalidPercentile)
        } else {
            match field_numbers(events, field) {
                Ok(numbers) => answer matches Ok(ResultView::Scalar(n)) && is_ranked(
                    n,
                    arithmetic::percentile_rank(p as int, numbers.len()),
                    numbers,
                ),
                Err(error) => answer == Err::<ResultView, _>(error),
            }
        },
    }
}

/// Whether a plan has an answer of the events that its filter matches: a percentile has one where
/// its fraction is a number and its rank is that of one of the numbers to pick from.
pub open spec fn has_answer(events: Seq<EventView>, plan: PlanView) -> bool {
    match plan.aggregation {
        Some(AggregationView::Percentage(field, p)) => match field_numbers(events, field) {
            Ok(numbers) => is_invalid_fraction(p) || arithmetic::is_fraction(p)
                && arithmetic::percentile_rank(p as int, numbers.len()) < numbers.len(),
            Err(_) => true,
        },
        _ => true,
    }
}

/// What the outcome of a plan holds.
pub open spec fn outcome_view(outcome: Result<QueryResult, AggregationError>) -> Result<
    ResultView,
    AggregationErrorView,
> {
    match outcome {
        Ok(result) => Ok(result@),
        Err(error) => Err(error@),
    }
}

/// Events in the order in which they were pushed, with an index by field and one by time.
pub struct Index {
    pub events: Vec<Event>,
    pub lookup: Lookup,
}

/// Where events are by field and by time, and how many of them stay.
pub struct Lookup {
    field_index: FieldIndex,
    time_index: TimeIndex,
    max_events: usize,
}

impl Index {
    /// How many events stay when old ones are dropped.
    pub closed spec fn capacity(&self) -> nat {
        self.lookup.max_events as nat
    }

    /// The events, oldest first: what the field `events` holds.
    pub open spec fn stored(&self) -> Seq<Event> {
        self.events@
    }

    /// Both lookup structures lead to exactly the events that hold what they file.
    closed spec fn consistent(&self) -> bool {
        &&& self.lookup.field_index.wf()
        &&& self.lookup.time_index.wf()
        &&& forall|f: Seq<char>, v: ValueView, p: usize|
            #![trigger field_index::filed(self.lookup.field_index.view(), f, v, p)]
            field_index::filed(self.lookup.field_index.view(), f, v, p) <==> p < self.events@.len()
                && self.events@[p as int]@.fields.contains_pair(f, v)
        &&& forall|t: Instant, p: usize|
            #![trigger self.lookup.time_index.timed(t, p)]
            self.lookup.time_index.timed(t, p) <==> p < self.events@.len()
                && self.events@[p as int]@.timestamp == Some(t)
    }

    /// The lookup structures fit the events, of which there are no more than the capacity and the
    /// slack.
    pub closed spec fn wf(&self) -> bool {
        &&& self.consistent()
        &&& self.lookup.max_events <= usize::MAX - SLACK
        &&& self.events@.len() <= self.lookup.max_events + SLACK
    }

    /// What the events hold.
    pub open spec fn view(&self) -> Seq<EventView> {
        query::event_views(self.stored())
    }

    /// Whether `positions` are those of the events that a query matches.
    pub open spec fn finds(&self, positions: Seq<usize>, query: QueryView) -> bool {
        forall|p: usize| #[trigger]
            positions.contains(p) <==> p < self.stored().len() && query::selects(
                query,
                self.stored()[p as int]@,
            )
    }

    /// Whether positions come by the time of their events, and by position where that is the same.
    pub open spec fn chronological(&self, positions: Seq<usize>) -> bool {
        forall|i: int, j: int|
            0 <= i < j < positions.len() ==> {
                let p = #[trigger] positions[i];
                let q = #[trigger] positions[j];
                let s = self.stored()[p as int]@.timestamp->0;
                let t = self.stored()[q as int]@.timestamp->0;
                s.key() < t.key() || s == t && p < q
            }
    }

    pub fn new(max_events: Option<usize>) -> (r: Index)
        requires
            max_events matches Some(n) ==> n <= usize::MAX - SLACK,
        ensures
            r.wf(),
            r.stored().len() == 0,
            r.capacity() == (match max_events {
                Some(n) => n as nat,
                None => DEFAULT_MAX_EVENTS as nat,
            }),
            max_events is None ==> r.capacity() == 2_000_000,
    {
        Index {
            events: vec![],
            lookup: Lookup {
                field_index: FieldIndex::new(),
                time_index: TimeIndex::new(),
                max_events: match max_events {
                    Some(n) => n,
                    None => DEFAULT_MAX_EVENTS,
                },
            },
        }
    }

    pub fn push_event(&mut self, event: Event)
        requires
            old(self).wf(),
        ensures
            final(self).wf(),
            final(self).capacity() == old(self).capacity(),
            final(self).stored() == retained(old(self).stored().push(event), old(self).capacity()),
            final(self).view() == retained(old(self).view().push(event@), old(self).capacity()),
    {
        let ghost before = *self;
        let position = self.events.len();
        self.push_to_field_and_time_index(position, &event);
        self.events.push(event);
        proof {
            assert forall|f: Seq<char>, v: ValueView, p: usize|
                #![trigger field_index::filed(self.lookup.field_index.view(), f, v, p)]
                field_index::filed(self.lookup.field_index.view(), f, v, p) <==> p < self.events@.len()
                    && self.events@[p as int]@.fields.contains_pair(f, v) by {
                assert(field_index::filed(before.lookup.field_index.view(), f, v, p) <==> p
                    < before.events@.len() && before.events@[p as int]@.fields.contains_pair(f, v));
            }
            assert forall|t: Instant, p: usize|
                #![trigger self.lookup.time_index.timed(t, p)]
                self.lookup.time_index.timed(t, p) <==> p < self.events@.len()
                    && self.events@[p as int]@.timestamp == Some(t) by {
                assert(before.lookup.time_index.timed(t, p) <==> p < before.events@.len()
                    && before.events@[p as int]@.timestamp == Some(t));
            }
            assert(self.consistent());
        }
        if self.events.len() > self.lookup.max_events + SLACK {
            let ghost all = self.events@;
            let excess = self.events.len() - self.lookup.max_events;
            let kept = self.events.split_off(excess);
            self.events = kept;
            assert(self.events@ =~= all.skip(excess as int));
            self.reindex();
        }
        assert(self.view() =~= retained(before.view().push(event@), before.capacity()));
    }

    /// Number of events.
    pub fn event_count(&self) -> (r: usize)
        ensures
            r == self.stored().len(),
            r == self.view().len(),
    {
        self.events.len()
    }

    /// The event at a position, counted from the oldest.
    pub fn event(&self, i: usize) -> (r: &Event)
        requires
            i < self.stored().len(),
        ensures
            *r == self.stored()[i as int],
            r@ == self.view()[i as int],
    {
        &self.events[i]
    }

    /// The index holds no more events than its capacity and the slack.
    pub proof fn law_size_is_bounded(&self)
        requires
            self.wf(),
        ensures
            self.view().len() == self.stored().len(),
            self.view().len() <= self.capacity() + SLACK,
    {
    }

    /// The raw lines of the events, each ended by a line feed.
    pub fn to_text(&self) -> (r: String)
        ensures
            r@ == text::ended_lines(query::raw_lines(self.view())),
    {
        let ghost lines = query::raw_lines(self.view());
        let mut text = String::new();
        let mut i: usize = 0;
        while i < self.events.len()
            invariant
                i <= self.events@.len(),
                lines == query::raw_lines(self.view()),
                text@ == text::ended_lines(lines.take(i as int)),
            decreases self.events@.len() - i,
        {
            assert(lines.take(i + 1).drop_last() =~= lines.take(i as int));
            assert(lines.take(i + 1).last() == self.events@[i as int].raw@);
            text.append(self.events[i].raw.as_str());
            text::push(&mut text, '\n');
            i += 1;
        }
        assert(lines.take(lines.len() as int) =~= lines);
        text
    }

    /// Files an event under its fields and its timestamp.
    fn push_to_field_and_time_index(&mut self, i: usize, event: &Event)
        requires
            old(self).lookup.field_index.wf(),
            old(self).lookup.time_index.wf(),
            forall|t: Instant, p: usize| #[trigger] old(self).lookup.time_index.timed(t, p) ==> p < i,
        ensures
            final(self).lookup.field_index.wf(),
            final(self).lookup.time_index.wf(),
            final(self).events == old(self).events,
            final(self).lookup.max_events == old(self).lookup.max_events,
            forall|f: Seq<char>, v: ValueView, p: usize|
                #![trigger field_index::filed(final(self).lookup.field_index.view(), f, v, p)]
                field_index::filed(final(self).lookup.field_index.view(), f, v, p) <==> field_index::filed(
                    old(self).lookup.field_index.view(),
                    f,
                    v,
                    p,
                ) || (p == i && event@.fields.contains_pair(f, v)),
            forall|t: Instant, p: usize|
                #![trigger final(self).lookup.time_index.timed(t, p)]
                final(self).lookup.time_index.timed(t, p) <==> old(self).lookup.time_index.timed(t, p) || (p == i
                    && event@.timestamp == Some(t)),
    {
        let ghost before = self.lookup.field_index.view();
        let ghost pairs = event.fields.pairs();
        let n = event.fields.len();
        let mut k: usize = 0;
        while k < n
            invariant
                k <= n,
                n == pairs.len(),
                pairs == event.fields.pairs(),
                self.lookup.field_index.wf(),
                self.lookup.time_index == old(self).lookup.time_index,
                self.events == old(self).events,
                self.lookup.max_events == old(self).lookup.max_events,
                forall|f: Seq<char>, v: ValueView, p: usize|
                    #![trigger field_index::filed(self.lookup.field_index.view(), f, v, p)]
                    field_index::filed(self.lookup.field_index.view(), f, v, p) <==> field_index::filed(
                        before,
                        f,
                        v,
                        p,
                    ) || (p == i && exists|j: int|
                        0 <= j < k && #[trigger] pairs[j] == (f, v)),
            decreases n - k,
        {
            let ghost here = self.lookup.field_index.view();
            let name = event.fields.name(k);
            let value = event.fields.value(k);
            self.lookup.field_index.add(name, value, i);
            proof {
                field_index::lemma_filed_after_add(here, name@, value@, i);
                assert(pairs[k as int] == (name@, value@));
                assert forall|f: Seq<char>, v: ValueView, p: usize|
                    #![trigger field_index::filed(self.lookup.field_index.view(), f, v, p)]
                    field_index::filed(self.lookup.field_index.view(), f, v, p) <==> field_index::filed(
                        before,
                        f,
                        v,
                        p,
                    ) || (p == i && exists|j: int|
                        0 <= j < k + 1 && #[trigger] pairs[j] == (f, v)) by {
                    assert(field_index::filed(here, f, v, p) <==> field_index::filed(
                        before,
                        f,
                        v,
                        p,
                    ) || (p == i && exists|j: int| 0 <= j < k && #[trigger] pairs[j] == (f, v)));
                }
            }
            k += 1;
        }
        proof {
            assert forall|f: Seq<char>, v: ValueView| (exists|j: int|
                0 <= j < n && #[trigger] pairs[j] == (f, v)) <==> #[trigger] event@.fields.contains_pair(
                f,
                v,
            ) by {
                if exists|j: int| 0 <= j < n && #[trigger] pairs[j] == (f, v) {
                    let j = choose|j: int| 0 <= j < n && #[trigger] pairs[j] == (f, v);
                    crate::event::lemma_pair_in_map(pairs, j);
                }
                if event@.fields.contains_pair(f, v) {
                    let j = choose|j: int| 0 <= j < pairs.len() && (#[trigger] pairs[j]).0 == f;
                    crate::event::lemma_pair_in_map(pairs, j);
                    assert(pairs[j] == (f, v));
                }
            }
        }
        if let Some(timestamp) = event.timestamp {
            self.lookup.time_index.add(timestamp, i);
        }
    }

    /// Rebuilds both lookup structures from the events.
    fn reindex(&mut self)
        ensures
            final(self).consistent(),
            final(self).events@ == old(self).events@,
            final(self).lookup.max_events == old(self).lookup.max_events,
    {
        self.lookup.field_index = FieldIndex::new();
        self.lookup.time_index = TimeIndex::new();
        let mut events: Vec<Event> = Vec::new();
        std::mem::swap(&mut events, &mut self.events);
        let mut i: usize = 0;
        while i < events.len()
            invariant
                i <= events.len(),
                events@ == old(self).events@,
                self.lookup.max_events == old(self).lookup.max_events,
                self.lookup.field_index.wf(),
                self.lookup.time_index.wf(),
                forall|f: Seq<char>, v: ValueView, p: usize|
                    #![trigger field_index::filed(self.lookup.field_index.view(), f, v, p)]
                    field_index::filed(self.lookup.field_index.view(), f, v, p) <==> p < i
                        && events@[p as int]@.fields.contains_pair(f, v),
                forall|t: Instant, p: usize|
                    #![trigger self.lookup.time_index.timed(t, p)]
                    self.lookup.time_index.timed(t, p) <==> p < i && events@[p as int]@.timestamp == Some(
                        t,
                    ),
            decreases events.len() - i,
        {
            let ghost here = *self;
            self.push_to_field_and_time_index(i, &events[i]);
            i += 1;
        }
        self.events = events;
    }

    /// Tells whether a plan has an answer.
    pub fn can_apply(&self, query_plan: &QueryPlan) -> (r: bool)
        requires
            self.wf(),
            query::well_formed(query_plan.query@),
        ensures
            r == has_answer(selected(self.view(), query_plan.query@), query_plan@),
    {
        let Some(Aggregation::Percentage(field, p)) = &query_plan.aggregation else {
            return true;
        };
        if invalid_fraction(*p) {
            return true;
        }
        let events = self.apply_query(&query_plan.query);
        match numeric_values(&events, field.as_str()) {
            Err(_) => true,
            Ok(values) => *p > 0 && *p <= binary32::ONE_BITS && arithmetic::rank_of(
                *p,
                values.len(),
            ) < values.len(),
        }
    }

    /// Runs a plan.
    pub fn apply_query_plan<'a>(&'a self, query_plan: &QueryPlan) -> (r: Result<
        QueryResult<'a>,
        AggregationError,
    >)
        requires
            self.wf(),
            query::well_formed(query_plan.query@),
            has_answer(selected(self.view(), query_plan.query@), query_plan@),
        ensures
            answers(selected(self.view(), query_plan.query@), query_plan@, outcome_view(r)),
    {
        let mut events = self.apply_query(&query_plan.query);
        let ghost matching = query::borrowed_views(events@);
        let Some(aggregation) = &query_plan.aggregation else {
            match query_plan.limit {
                Some(Limit::Head(n)) => {
                    if n < events.len() {
                        events.truncate(n);
                    }
                },
                Some(Limit::Tail(n)) => {
                    if n < events.len() {
                        let excess = events.len() - n;
                        events = events.split_off(excess);
                    }
                },
                None => {},
            }
            assert(query::borrowed_views(events@) =~= limited(matching, query_plan.limit));
            return Ok(QueryResult::Events(events));
        };
        match aggregation {
            Aggregation::Count => Ok(QueryResult::Count(events.len())),
            Aggregation::Average(field) => match numeric_values(&events, field.as_str()) {
                Ok(values) => Ok(QueryResult::Scalar(arithmetic::mean(&values))),
                Err(error) => Err(error),
            },
            Aggregation::Percentage(field, p) => {
                if invalid_fraction(*p) {
                    return Err(AggregationError::InvalidPercentile);
                }
                match numeric_values(&events, field.as_str()) {
                    Ok(values) => {
                        let rank = arithmetic::rank_of(*p, values.len());
                        let sorted = sort::sort_numbers(&values);
                        assert(is_sorted_copy(sorted@, values@));
                        Ok(QueryResult::Scalar(sorted[rank]))
                    },
                    Err(error) => Err(error),
                }
            },
            Aggregation::Sum(field) => match numeric_values(&events, field.as_str()) {
                Ok(values) => Ok(QueryResult::Scalar(arithmetic::sum(&values))),
                Err(error) => Err(error),
            },
            Aggregation::Min(field) => match numeric_values(&events, field.as_str()) {
                Ok(values) => Ok(QueryResult::Scalar(minimum(&values))),
                Err(error) => Err(error),
            },
            Aggregation::Max(field) => match numeric_values(&events, field.as_str()) {
                Ok(values) => Ok(QueryResult::Scalar(maximum(&values))),
                Err(error) => Err(error),
            },
            Aggregation::CountBy(field) => Ok(
                QueryResult::CountBy(present_values(&events, field.as_str()).len()),
            ),
        }
    }

    /// The events that a query matches, oldest first.
    pub fn apply_query<'a>(&'a self, query: &Query) -> (r: Vec<&'a Event>)
        requires
            self.wf(),
            query::well_formed(query@),
        ensures
            query::borrowed_views(r@) == selected(self.view(), query@),
    {
        let positions = self.matching_indices(query);
        let mut events: Vec<&'a Event> = Vec::new();
        let mut i: usize = 0;
        while i < positions.len()
            invariant
                i <= positions.len(),
                events.len() == i,
                self.finds(positions@, query@),
                forall|j: int| 0 <= j < i ==> #[trigger] positions@[j] < self.events@.len(),
                forall|j: int|
                    0 <= j < i ==> *(#[trigger] events@[j]) == self.events@[positions@[j] as int],
            decreases positions.len() - i,
        {
            assert(positions@.contains(positions@[i as int]));
            events.push(&self.events[positions[i]]);
            i += 1;
        }
        proof {
            let views = self.view();
            let chosen = query::borrowed_views(events@);
            assert forall|j: int| 0 <= j < chosen.len() implies #[trigger] chosen[j]
                == views[positions@[j] as int] by {
                assert(*events@[j] == self.events@[positions@[j] as int]);
            }
            assert forall|p: int| 0 <= p < views.len() && query::selects(
                query@,
                #[trigger] views[p],
            ) implies exists|j: int| 0 <= j < positions@.len() && #[trigger] positions@[j] == p by {
                assert(positions@.contains(p as usize));
                let j = positions@.index_of(p as usize);
                assert(positions@[j] == p);
            }
            assert forall|j: int| 0 <= j < chosen.len() implies query::selects(
                query@,
                #[trigger] chosen[j],
            ) by {
                assert(positions@.contains(positions@[j]));
            }
            lemma_filter_by_positions(
                views,
                |e: EventView| query::selects(query@, e),
                positions@,
                chosen,
            );
        }
        events
    }

    /// The positions of the events that a query matches, ascending, each once.
    pub fn matching_indices(&self, query: &Query) -> (r: Vec<usize>)
        requires
            self.wf(),
            query::well_formed(query@),
        ensures
            sort::strictly_ascending(r@),
            self.finds(r@, query@),
    {
        sort::sort_and_dedup(self.collect_indices(query))
    }

    /// The positions of the events that a query matches, in any order.
    fn collect_indices(&self, query: &Query) -> (r: Vec<usize>)
        requires
            self.wf(),
            query::well_formed(query@),
        ensures
            self.finds(r@, query@),
        decreases query, 0int,
    {
        match query {
            Query::FieldComparison { field, op, value } => {
                self.field_comparison_indices(field, op, value)
            },
            Query::TimeRange { start, end } => self.time_range_indices(start, end),
            Query::And(queries) => self.and_indices(queries),
            Query::Or(queries) => self.or_indices(queries),
            Query::Not(query) => self.not_indices(query),
            Query::All() => self.all_indices(),
        }
    }

    fn all_indices(&self) -> (r: Vec<usize>)
        ensures
            self.finds(r@, QueryView::All),
    {
        let mut found: Vec<usize> = Vec::new();
        let mut i: usize = 0;
        while i < self.events.len()
            invariant
                i <= self.events.len(),
                found.len() == i,
                forall|j: int| 0 <= j < i ==> #[trigger] found@[j] == j,
            decreases self.events.len() - i,
        {
            found.push(i);
            i += 1;
        }
        assert forall|p: usize| #[trigger] found@.contains(p) <==> p < self.events@.len() by {
            if p < self.events@.len() {
                assert(found@[p as int] == p);
            }
        }
        found
    }

    fn field_comparison_indices(&self, field: &String, op: &ComparisonOp, value: &Value) -> (r: Vec<
        usize,
    >)
        requires
            self.wf(),
        ensures
            self.finds(
                r@,
                QueryView::FieldComparison { field: field@, op: *op, value: value@ },
            ),
    {
        let ghost index = self.lookup.field_index.view();
        let Some(column) = self.lookup.field_index.get(field.as_str()) else {
            assert forall|p: usize| p < self.events@.len() implies !(
            #[trigger] self.events@[p as int])@.fields.contains_key(field@) by {
                let v = self.events@[p as int]@.fields[field@];
                assert(!field_index::filed(index, field@, v, p));
            }
            return vec![];
        };
        let ghost slots = column.slots();
        let n = column.len();
        let mut found: Vec<usize> = Vec::new();
        let mut i: usize = 0;
        while i < n
            invariant
                i <= n,
                n == slots.len(),
                slots == column.slots(),
                forall|p: usize| #[trigger]
                    found@.contains(p) <==> exists|j: int|
                        0 <= j < i && query::compares(*op, (#[trigger] slots[j]).value@, value@)
                            && slots[j].positions@.contains(p),
            decreases n - i,
        {
            let slot = column.slot(i);
            let ghost before = found@;
            if compare(op, &slot.value, value) {
                let mut k: usize = 0;
                while k < slot.positions.len()
                    invariant
                        k <= slot.positions.len(),
                        found@ == before + slot.positions@.take(k as int),
                    decreases slot.positions.len() - k,
                {
                    found.push(slot.positions[k]);
                    k += 1;
                    assert(slot.positions@.take(k as int) =~= slot.positions@.take(k - 1).push(
                        slot.positions@[k - 1],
                    ));
                }
                assert(slot.positions@.take(slot.positions@.len() as int) =~= slot.positions@);
            }
            proof {
                assert forall|p: usize| #[trigger] found@.contains(p) <==> exists|j: int|
                    0 <= j < i + 1 && query::compares(*op, (#[trigger] slots[j]).value@, value@)
                        && slots[j].positions@.contains(p) by {
                    time_index::lemma_contains_concat(before, slot.positions@, p);
                    assert(slots[i as int] == *slot);
                    assert(before.contains(p) <==> exists|j: int|
                        0 <= j < i && query::compares(*op, (#[trigger] slots[j]).value@, value@)
                            && slots[j].positions@.contains(p));
                }
            }
            i += 1;
        }
        proof {
            assert forall|p: usize| #[trigger] found@.contains(p) <==> p < self.events@.len()
                && query::selects(
                QueryView::FieldComparison { field: field@, op: *op, value: value@ },
                self.events@[p as int]@,
            ) by {
                if found@.contains(p) {
                    let j = choose|j: int|
                        0 <= j < n && query::compares(*op, (#[trigger] slots[j]).value@, value@)
                            && slots[j].positions@.contains(p);
                    column.lemma_slot(j);
                    assert(field_index::filed(index, field@, slots[j].value@, p));
                }
                if p < self.events@.len() && query::selects(
                    QueryView::FieldComparison { field: field@, op: *op, value: value@ },
                    self.events@[p as int]@,
                ) {
                    let v = self.events@[p as int]@.fields[field@];
                    assert(field_index::filed(index, field@, v, p));
                    column.lemma_value(v);
                }
            }
        }
        found
    }

    fn time_range_indices(&self, start: &Option<Timestamp>, end: &Option<Timestamp>) -> (r: Vec<
        usize,
    >)
        requires
            self.wf(),
        ensures
            self.finds(
                r@,
                QueryView::TimeRange {
                    start: crate::event::instant(*start),
                    end: crate::event::instant(*end),
                },
            ),
            self.chronological(r@),
            r@.no_duplicates(),
    {
        let found = self.lookup.time_index.range(start, end);
        proof {
            let from = crate::event::instant(*start);
            let to = crate::event::instant(*end);
            let range = QueryView::TimeRange { start: from, end: to };
            assert forall|p: usize| #[trigger] found@.contains(p) <==> p < self.events@.len()
                && query::selects(range, self.events@[p as int]@) by {
                if p < self.events@.len() && query::selects(range, self.events@[p as int]@) {
                    let t = self.events@[p as int]@.timestamp->0;
                    assert(self.lookup.time_index.timed(t, p));
                }
            }
            assert(self.chronological(found@)) by {
                assert forall|i: int, j: int| 0 <= i < j < found@.len() implies {
                    let p = #[trigger] found@[i];
                    let q = #[trigger] found@[j];
                    let s = self.events@[p as int]@.timestamp->0;
                    let t = self.events@[q as int]@.timestamp->0;
                    s.key() < t.key() || s == t && p < q
                } by {
                    assert(self.lookup.time_index.earlier(found@[i], found@[j]));
                }
            }
        }
        found
    }

    /// Runs several queries at once.
    fn collect_each(&self, queries: &Vec<Query>) -> (r: Vec<Vec<usize>>)
        requires
            self.wf(),
            forall|j: int|
                0 <= j < queries@.len() ==> query::well_formed((#[trigger] queries@[j])@),
        ensures
            r@.len() == queries@.len(),
            forall|j: int|
                0 <= j < queries@.len() ==> self.finds((#[trigger] r@[j])@, queries@[j]@),
        decreases queries, 1int,
    {
        let run = |query: &Query| -> (found: Vec<usize>)
            requires
                self.wf(),
                query::well_formed(query@),
                queries@.contains(*query),
            ensures
                self.finds(found@, query@),
            {
                proof {
                    let j = queries@.index_of(*query);
                    assert(decreases_to!(queries => queries@[j]));
                }
                self.collect_indices(query)
            };
        parallel::map_each(queries, run)
    }

    fn and_indices(&self, queries: &Vec<Query>) -> (r: Vec<usize>)
        requires
            self.wf(),
            query::well_formed(QueryView::And(query::query_views(queries@))),
        ensures
            self.finds(r@, QueryView::And(query::query_views(queries@))),
        decreases queries, 2int,
    {
        let ghost parts = query::query_views(queries@);
        proof {
            query::lemma_query_views(queries@);
            assert forall|j: int| 0 <= j < queries@.len() implies query::well_formed(
                (#[trigger] queries@[j])@,
            ) by {
                assert(query::well_formed(parts[j]));
            }
        }
        let lists = self.collect_each(queries);
        let mut sets: Vec<HashSet<usize>> = Vec::new();
        let mut i: usize = 0;
        while i < lists.len()
            invariant
                i <= lists.len(),
                sets.len() == i,
                forall|j: int, p: usize|
                    0 <= j < i ==> (#[trigger] sets@[j]@.contains(p) <==> lists@[j]@.contains(p)),
            decreases lists.len() - i,
        {
            sets.push(set_of(&lists[i]));
            i += 1;
        }
        let first = &lists[0];
        let mut found: Vec<usize> = Vec::new();
        let mut i: usize = 0;
        while i < first.len()
            invariant
                i <= first.len(),
                sets.len() == lists.len(),
                lists.len() > 0,
                first@ == lists@[0]@,
                forall|j: int, p: usize|
                    0 <= j < sets.len() ==> (#[trigger] sets@[j]@.contains(p)
                        <==> lists@[j]@.contains(p)),
                forall|j: int|
                    0 <= j < i ==> (found@.contains(#[trigger] first@[j]) <==> in_all(
                        lists@,
                        first@[j],
                    )),
                forall|p: usize| #[trigger] found@.contains(p) ==> in_all(lists@, p),
            decreases first.len() - i,
        {
            let p = first[i];
            let ghost before = found@;
            assert(first@.contains(p));
            let mut everywhere = true;
            let mut k: usize = 1;
            while k < sets.len()
                invariant
                    1 <= k <= sets.len(),
                    sets.len() == lists.len(),
                    lists@[0]@.contains(p),
                    forall|j: int, q: usize|
                        0 <= j < sets.len() ==> (#[trigger] sets@[j]@.contains(q)
                            <==> lists@[j]@.contains(q)),
                    everywhere == (forall|j: int|
                        0 <= j < k ==> (#[trigger] lists@[j])@.contains(p)),
                decreases sets.len() - k,
            {
                if !sets[k].contains(&p) {
                    assert(!sets@[k as int]@.contains(p));
                    assert(!lists@[k as int]@.contains(p));
                    everywhere = false;
                } else {
                    assert(sets@[k as int]@.contains(p));
                }
                k += 1;
            }
            if everywhere {
                found.push(p);
            }
            proof {
                assert forall|q: usize| #[trigger] found@.contains(q) implies in_all(lists@, q) by {
                    let at = found@.index_of(q);
                    if at < before.len() {
                        assert(before.contains(q)) by {
                            assert(before[at] == q);
                        }
                    }
                }
                assert forall|j: int| 0 <= j < i + 1 implies (found@.contains(#[trigger] first@[j])
                    <==> in_all(lists@, first@[j])) by {
                    if in_all(lists@, first@[j]) {
                        if j < i {
                            let at = before.index_of(first@[j]);
                            assert(found@[at] == first@[j]);
                        } else {
                            assert(found@[before.len() as int] == p);
                        }
                    }
                }
            }
            i += 1;
        }
        proof {
            assert forall|p: usize| #[trigger] found@.contains(p) <==> p < self.events@.len()
                && query::selects(QueryView::And(parts), self.events@[p as int]@) by {
                if found@.contains(p) {
                    assert(lists@[0]@.contains(p));
                    assert forall|j: int| 0 <= j < parts.len() implies query::selects(
                        #[trigger] parts[j],
                        self.events@[p as int]@,
                    ) by {
                        assert(lists@[j]@.contains(p));
                        assert(self.finds(lists@[j]@, queries@[j]@));
                    }
                }
                if p < self.events@.len() && query::selects(
                    QueryView::And(parts),
                    self.events@[p as int]@,
                ) {
                    assert forall|j: int| 0 <= j < lists@.len() implies (
                    #[trigger] lists@[j])@.contains(p) by {
                        assert(self.finds(lists@[j]@, queries@[j]@));
                        assert(query::selects(parts[j], self.events@[p as int]@));
                    }
                    assert(lists@[0]@.contains(p));
                    let j = first@.index_of(p);
                    assert(found@.contains(first@[j]));
                }
            }
        }
        found
    }

    fn not_indices(&self, query: &Query) -> (r: Vec<usize>)
        requires
            self.wf(),
            query::well_formed(query@),
        ensures
            self.finds(r@, QueryView::Not(Box::new(query@))),
        decreases query, 1int,
    {
        let matched = set_of(&self.collect_indices(query));
        let mut found: Vec<usize> = Vec::new();
        let mut i: usize = 0;
        while i < self.events.len()
            invariant
                i <= self.events.len(),
                forall|p: usize| #[trigger]
                    found@.contains(p) <==> p < i && !matched@.contains(p),
            decreases self.events.len() - i,
        {
            let ghost before = found@;
            if !matched.contains(&i) {
                found.push(i);
            }
            proof {
                assert forall|p: usize| #[trigger] found@.contains(p) <==> p < i + 1
                    && !matched@.contains(p) by {
                    assert(before.contains(p) <==> p < i && !matched@.contains(p));
                    if before.contains(p) {
                        let at = before.index_of(p);
                        assert(found@[at] == p);
                    }
                    if p == i && !matched@.contains(p) {
                        assert(found@[before.len() as int] == p);
                    }
                    if found@.contains(p) {
                        let at = found@.index_of(p);
                        if at < before.len() {
                            assert(before[at] == p);
                        }
                    }
                }
            }
            i += 1;
        }
        found
    }

    fn or_indices(&self, queries: &Vec<Query>) -> (r: Vec<usize>)
        requires
            self.wf(),
            query::well_formed(QueryView::Or(query::query_views(queries@))),
        ensures
            self.finds(r@, QueryView::Or(query::query_views(queries@))),
        decreases queries, 2int,
    {
        let ghost parts = query::query_views(queries@);
        proof {
            query::lemma_query_views(queries@);
            assert(QueryView::Or(parts)->Or_0 == parts);
            assert forall|j: int| 0 <= j < queries@.len() implies query::well_formed(
                (#[trigger] queries@[j])@,
            ) by {
                assert(query::well_formed(parts[j]));
            }
        }
        let mut lists = self.collect_each(queries);
        let ghost all = lists@;
        let mut found: Vec<usize> = Vec::new();
        let mut i: usize = 0;
        while i < lists.len()
            invariant
                i <= lists.len(),
                all.len() == lists.len(),
                forall|j: int| i <= j < lists.len() ==> #[trigger] lists@[j] == all[j],
                forall|p: usize| #[trigger]
                    found@.contains(p) <==> exists|j: int|
                        0 <= j < i && (#[trigger] all[j])@.contains(p),
            decreases lists.len() - i,
        {
            let ghost before = found@;
            assert(lists@[i as int] == all[i as int]);
            found.append(&mut lists[i]);
            proof {
                assert forall|p: usize| #[trigger] found@.contains(p) <==> exists|j: int|
                    0 <= j < i + 1 && (#[trigger] all[j])@.contains(p) by {
                    time_index::lemma_contains_concat(before, all[i as int]@, p);
                    assert(before.contains(p) <==> exists|j: int|
                        0 <= j < i && (#[trigger] all[j])@.contains(p));
                }
            }
            i += 1;
        }
        proof {
            assert forall|p: usize| #[trigger] found@.contains(p) <==> p < self.events@.len()
                && query::selects(QueryView::Or(parts), self.events@[p as int]@) by {
                if found@.contains(p) {
                    let j = choose|j: int| 0 <= j < all.len() && (#[trigger] all[j])@.contains(p);
                    assert(self.finds(all[j]@, queries@[j]@));
                    assert(query::selects(parts[j], self.events@[p as int]@));
                }
                if p < self.events@.len() && query::selects(
                    QueryView::Or(parts),
                    self.events@[p as int]@,
                ) {
                    let j = choose|j: int|
                        0 <= j < parts.len() && query::selects(
                            #[trigger] parts[j],
                            self.events@[p as int]@,
                        );
                    assert(self.finds(all[j]@, queries@[j]@));
                    assert(all[j]@.contains(p));
                }
            }
        }
        found
    }
}

/// Whether a position is in every one of several lists.
spec fn in_all(lists: Seq<Vec<usize>>, p: usize) -> bool {
    forall|j: int| 0 <= j < lists.len() ==> (#[trigger] lists[j])@.contains(p)
}

/// Elements picked at ascending positions, where those positions are all that satisfy a predicate,
/// are the elements that satisfy it.
pub proof fn lemma_filter_by_positions<A>(
    s: Seq<A>,
    pred: spec_fn(A) -> bool,
    positions: Seq<usize>,
    chosen: Seq<A>,
)
    requires
        positions.len() == chosen.len(),
        sort::strictly_ascending(positions),
        forall|j: int| 0 <= j < positions.len() ==> #[trigger] positions[j] < s.len(),
        forall|j: int| 0 <= j < chosen.len() ==> #[trigger] chosen[j] == s[positions[j] as int],
        forall|j: int| 0 <= j < chosen.len() ==> pred(#[trigger] chosen[j]),
        forall|p: int|
            0 <= p < s.len() && pred(#[trigger] s[p]) ==> exists|j: int|
                0 <= j < positions.len() && #[trigger] positions[j] == p,
    ensures
        chosen == s.filter(pred),
    decreases s.len(),
{
    reveal(Seq::filter);
    if s.len() == 0 {
        assert(chosen.len() == 0) by {
            if chosen.len() > 0 {
                assert(chosen[0] == s[positions[0] as int]);
            }
        }
        assert(chosen =~= s.filter(pred));
    } else {
        let shorter = s.drop_last();
        let last = s.len() - 1;
        if pred(s[last]) {
            let j = choose|j: int| 0 <= j < positions.len() && #[trigger] positions[j] == last;
            assert(chosen[chosen.len() - 1] == s[positions[chosen.len() - 1] as int]);
            assert(j == positions.len() - 1) by {
                if j < positions.len() - 1 {
                    assert(positions[j] < positions[positions.len() - 1]);
                }
            }
            let fewer = positions.drop_last();
            let rest = chosen.drop_last();
            assert forall|k: int| 0 <= k < fewer.len() implies #[trigger] fewer[k]
                < shorter.len() by {
                assert(positions[k] < positions[j]);
            }
            assert forall|k: int| 0 <= k < rest.len() implies #[trigger] rest[k]
                == shorter[fewer[k] as int] by {
                assert(chosen[k] == s[positions[k] as int]);
                assert(fewer[k] < shorter.len());
            }
            assert forall|k: int| 0 <= k < rest.len() implies pred(#[trigger] rest[k]) by {
                assert(pred(chosen[k]));
            }
            assert forall|p: int| 0 <= p < shorter.len() && pred(
                #[trigger] shorter[p],
            ) implies exists|k: int| 0 <= k < fewer.len() && #[trigger] fewer[k] == p by {
                assert(pred(s[p]));
                let k = choose|k: int| 0 <= k < positions.len() && #[trigger] positions[k] == p;
                assert(fewer[k] == p);
            }
            lemma_filter_by_positions(shorter, pred, fewer, rest);
            assert(chosen =~= rest.push(s[last]));
        } else {
            assert forall|k: int| 0 <= k < positions.len() implies #[trigger] positions[k]
                < shorter.len() by {
                assert(pred(chosen[k]));
            }
            assert forall|k: int| 0 <= k < chosen.len() implies #[trigger] chosen[k]
                == shorter[positions[k] as int] by {
                assert(positions[k] < shorter.len());
            }
            assert forall|p: int| 0 <= p < shorter.len() && pred(
                #[trigger] shorter[p],
            ) implies exists|k: int| 0 <= k < positions.len() && #[trigger] positions[k] == p by {
                assert(pred(s[p]));
            }
            lemma_filter_by_positions(shorter, pred, positions, chosen);
        }
    }
}

/// The values of a field in those events that have it.
fn present_values<'a>(events: &Vec<&'a Event>, field: &str) -> (r: Vec<&'a Value>)
    ensures
        r@.map_values(|v: &Value| v@) == field_values(query::borrowed_views(events@), field@),
{
    let ghost views = query::borrowed_views(events@);
    let mut values: Vec<&'a Value> = Vec::new();
    let mut i: usize = 0;
    while i < events.len()
        invariant
            i <= events.len(),
            views == query::borrowed_views(events@),
            values@.map_values(|v: &Value| v@) == field_values(views.take(i as int), field@),
        decreases events.len() - i,
    {
        let ghost before = values@;
        let event: &'a Event = events[i];
        assert(views.take(i + 1).drop_last() =~= views.take(i as int));
        assert(views.take(i + 1).last() == event@);
        if let Some(value) = event.fields.get(field) {
            values.push(value);
            assert(values@.map_values(|v: &Value| v@) =~= before.map_values(|v: &Value| v@).push(
                value@,
            ));
        }
        i += 1;
    }
    assert(views.take(views.len() as int) =~= views);
    values
}

/// The numbers that a field takes in those events that have it.
fn numeric_values(events: &Vec<&Event>, field: &str) -> (r: Result<Vec<u32>, AggregationError>)
    ensures
        match field_numbers(query::borrowed_views(events@), field@) {
            Ok(numbers) => r matches Ok(values) && values@ == numbers && numbers.len() > 0,
            Err(error) => r matches Err(e) && e@ == error,
        },
{
    if events.len() == 0 {
        return Err(AggregationError::NoMatchingEvents);
    }
    let present = present_values(events, field);
    let ghost all = field_values(query::borrowed_views(events@), field@);
    let mut values: Vec<u32> = Vec::new();
    let mut i: usize = 0;
    while i < present.len()
        invariant
            i <= present.len(),
            events.len() > 0,
            values.len() == i,
            all == field_values(query::borrowed_views(events@), field@),
            all == present@.map_values(|v: &Value| v@),
            forall|j: int|
                0 <= j < i ==> #[trigger] all[j] is Number && all[j]->Number_0 == values@[j],
        decreases present.len() - i,
    {
        assert(all[i as int] == present@[i as int]@);
        match present[i] {
            Value::Number(n) => {
                values.push(*n);
            },
            _ => {
                return Err(AggregationError::IncompatibleType(field.to_owned()));
            },
        }
        i += 1;
    }
    if values.len() == 0 {
        return Err(AggregationError::FieldNotFound(field.to_owned()));
    }
    assert(values@ =~= all.map_values(|v: ValueView| v->Number_0));
    Ok(values)
}

/// Tells whether a number is no fraction.
fn invalid_fraction(p: u32) -> (r: bool)
    ensures
        r == is_invalid_fraction(p),
        !r && !binary32::is_nan(p) ==> arithmetic::is_fraction(p),
{
    p == 0 || p > binary32::ONE_BITS && p <= binary32::INFINITY_BITS || p >= binary32::SIGN_BIT && p
        - binary32::SIGN_BIT <= binary32::INFINITY_BITS
}

/// The least of some numbers.
fn minimum(values: &Vec<u32>) -> (r: u32)
    requires
        values@.len() > 0,
    ensures
        is_minimum(r, values@),
{
    let mut least = values[0];
    assert(values@.take(1)[0] == least);
    let mut i: usize = 1;
    while i < values.len()
        invariant
            1 <= i <= values.len(),
            is_minimum(least, values@.take(i as int)),
        decreases values.len() - i,
    {
        let ghost before = values@.take(i as int);
        let ghost after = values@.take(i + 1);
        assert(after =~= before.push(values@[i as int]));
        if binary32::rank(values[i]) < binary32::rank(least) {
            least = values[i];
            assert(after[i as int] == least);
        } else {
            let ghost k = before.index_of(least);
            assert(after[k] == least);
        }
        proof {
            assert forall|j: int| 0 <= j < after.len() implies binary32::total_key(least)
                <= binary32::total_key(#[trigger] after[j]) by {
                if j < i {
                    assert(after[j] == before[j]);
                }
            }
        }
        i += 1;
    }
    assert(values@.take(values@.len() as int) =~= values@);
    least
}

/// The greatest of some numbers.
fn maximum(values: &Vec<u32>) -> (r: u32)
    requires
        values@.len() > 0,
    ensures
        is_maximum(r, values@),
{
    let mut greatest = values[0];
    assert(values@.take(1)[0] == greatest);
    let mut i: usize = 1;
    while i < values.len()
        invariant
            1 <= i <= values.len(),
            is_maximum(greatest, values@.take(i as int)),
        decreases values.len() - i,
    {
        let ghost before = values@.take(i as int);
        let ghost after = values@.take(i + 1);
        assert(after =~= before.push(values@[i as int]));
        if binary32::rank(values[i]) > binary32::rank(greatest) {
            greatest = values[i];
            assert(after[i as int] == greatest);
        } else {
            let ghost k = before.index_of(greatest);
            assert(after[k] == greatest);
        }
        proof {
            assert forall|j: int| 0 <= j < after.len() implies binary32::total_key(
                #[trigger] after[j],
            ) <= binary32::total_key(greatest) by {
                if j < i {
                    assert(after[j] == before[j]);
                }
            }
        }
        i += 1;
    }
    assert(values@.take(values@.len() as int) =~= values@);
    greatest
}

/// The set of the positions in a list.
fn set_of(list: &Vec<usize>) -> (r: HashSet<usize>)
    ensures
        forall|p: usize| #[trigger] r@.contains(p) <==> list@.contains(p),
{
    let mut set: HashSet<usize> = HashSet::new();
    let mut i: usize = 0;
    while i < list.len()
        invariant
            i <= list.len(),
            forall|p: usize| #[trigger]
                set@.contains(p) <==> exists|j: int| 0 <= j < i && #[trigger] list@[j] == p,
        decreases list.len() - i,
    {
        set.insert(list[i]);
        i += 1;
    }
    set
}

/// Whether `candidate` stands in the relation `op` to `value`.
pub fn compare(op: &ComparisonOp, candidate: &Value, value: &Value) -> (r: bool)
    ensures
        r == query::compares(*op, candidate@, value@),
{
    match *op {
        ComparisonOp::Eq => *candidate == *value,
        ComparisonOp::Ne => *candidate != *value,
        ComparisonOp::Lt => *candidate < *value,
        ComparisonOp::Le => *candidate <= *value,
        ComparisonOp::Gt => *candidate > *value,
        ComparisonOp::Ge => *candidate >= *value,
        ComparisonOp::Contains => match (candidate, value) {
            (Value::String(c), Value::String(v)) => text::contains(c.as_str(), v.as_str()),
            _ => false,
        },
    }
}

} // verus!
