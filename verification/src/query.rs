//! Queries: what they ask for and which events they match.

use crate::decimal;
use crate::event::{Event, EventView};
use crate::text;
use crate::time::{Instant, Timestamp};
use crate::value;
use crate::value::{Value, ValueView};
use std::cmp::Ordering;
use vstd::prelude::*;
use vstd::string::*;

verus! {

#[derive(Debug, PartialEq, Eq, Clone, Copy, Structural)]
pub enum ComparisonOp {
    Eq,
    Ne,
    Lt,
    Le,
    Gt,
    Ge,
    Contains,
}

/// A filter over events.
#[derive(Debug, PartialEq)]
pub enum Query {
    FieldComparison { field: String, op: ComparisonOp, value: Value },
    TimeRange { start: Option<Timestamp>, end: Option<Timestamp> },
    And(Vec<Query>),
    Or(Vec<Query>),
    Not(Box<Query>),
    All(),
}

/// What a [`Query`] holds.
pub enum QueryView {
    FieldComparison { field: Seq<char>, op: ComparisonOp, value: ValueView },
    TimeRange { start: Option<Instant>, end: Option<Instant> },
    And(Seq<QueryView>),
    Or(Seq<QueryView>),
    Not(Box<QueryView>),
    All,
}

/// What a query holds.
pub open spec fn query_view(query: Query) -> QueryView
    decreases query,
{
    match query {
        Query::FieldComparison { field, op, value } => QueryView::FieldComparison {
            field: field@,
            op,
            value: value@,
        },
        Query::TimeRange { start, end } => QueryView::TimeRange {
            start: crate::event::instant(start),
            end: crate::event::instant(end),
        },
        Query::And(parts) => QueryView::And(query_views(parts@)),
        Query::Or(parts) => QueryView::Or(query_views(parts@)),
        Query::Not(inner) => QueryView::Not(Box::new(query_view(*inner))),
        Query::All() => QueryView::All,
    }
}

/// What each of several queries holds.
pub open spec fn query_views(queries: Seq<Query>) -> Seq<QueryView>
    decreases queries,
{
    if queries.len() == 0 {
        Seq::empty()
    } else {
        query_views(queries.drop_last()).push(query_view(queries.last()))
    }
}

/// Several queries are viewed one by one.
pub proof fn lemma_query_views(queries: Seq<Query>)
    ensures
        query_views(queries).len() == queries.len(),
        forall|i: int|
            0 <= i < queries.len() ==> #[trigger] query_views(queries)[i] == query_view(queries[i]),
    decreases queries.len(),
{
    if queries.len() > 0 {
        lemma_query_views(queries.drop_last());
        assert forall|i: int| 0 <= i < queries.len() implies #[trigger] query_views(queries)[i]
            == query_view(queries[i]) by {
            if i < queries.len() - 1 {
                assert(query_views(queries.drop_last())[i] == query_view(queries.drop_last()[i]));
            }
        }
    }
}

impl View for Query {
    type V = QueryView;

    open spec fn view(&self) -> QueryView {
        query_view(*self)
    }
}

/// Whether a candidate value stands in the relation `op` to a given value.
///
/// Only values of one type are ordered, and only strings contain one another.
pub open spec fn compares(op: ComparisonOp, candidate: ValueView, given: ValueView) -> bool {
    match op {
        ComparisonOp::Eq => candidate == given,
        ComparisonOp::Ne => candidate != given,
        ComparisonOp::Lt => value::value_order(candidate, given) == Some(Ordering::Less),
        ComparisonOp::Le => value::value_order(candidate, given) == Some(Ordering::Less)
            || value::value_order(candidate, given) == Some(Ordering::Equal),
        ComparisonOp::Gt => value::value_order(candidate, given) == Some(Ordering::Greater),
        ComparisonOp::Ge => value::value_order(candidate, given) == Some(Ordering::Greater)
            || value::value_order(candidate, given) == Some(Ordering::Equal),
        ComparisonOp::Contains => match (candidate, given) {
            (ValueView::String(hay), ValueView::String(needle)) => text::occurs_in(needle, hay),
            _ => false,
        },
    }
}

/// Whether an instant lies between two inclusive bounds, either of which may be open.
pub open spec fn in_range(t: Instant, start: Option<Instant>, end: Option<Instant>) -> bool {
    &&& start matches Some(s) ==> s.key() <= t.key()
    &&& end matches Some(e) ==> t.key() <= e.key()
}

/// Whether a query matches an event.
pub open spec fn selects(query: QueryView, event: EventView) -> bool
    decreases query,
{
    match query {
        QueryView::FieldComparison { field, op, value } => event.fields.contains_key(field)
            && compares(op, event.fields[field], value),
        QueryView::TimeRange { start, end } => event.timestamp matches Some(t) && in_range(
            t,
            start,
            end,
        ),
        QueryView::And(parts) => forall|i: int|
            0 <= i < parts.len() ==> selects(#[trigger] parts[i], event),
        QueryView::Or(parts) => exists|i: int|
            0 <= i < parts.len() && selects(#[trigger] parts[i], event),
        QueryView::Not(inner) => !selects(*inner, event),
        QueryView::All => true,
    }
}

/// Whether every conjunction in a query has a part, and no time range ends before it starts.
pub open spec fn well_formed(query: QueryView) -> bool
    decreases query,
{
    match query {
        QueryView::TimeRange { start: Some(s), end: Some(e) } => s.key() <= e.key(),
        QueryView::And(parts) => parts.len() > 0 && forall|i: int|
            0 <= i < parts.len() ==> well_formed(#[trigger] parts[i]),
        QueryView::Or(parts) => forall|i: int|
            0 <= i < parts.len() ==> well_formed(#[trigger] parts[i]),
        QueryView::Not(inner) => well_formed(*inner),
        _ => true,
    }
}

/// Whether the parts of a query nest at most so many levels deep.
pub open spec fn within(query: QueryView, levels: int) -> bool
    decreases query,
{
    levels > 0 && match query {
        QueryView::And(parts) => forall|i: int|
            0 <= i < parts.len() ==> within(#[trigger] parts[i], levels - 1),
        QueryView::Or(parts) => forall|i: int|
            0 <= i < parts.len() ==> within(#[trigger] parts[i], levels - 1),
        QueryView::Not(inner) => within(*inner, levels - 1),
        _ => true,
    }
}

/// Whether a query asks for the time by time ranges alone, and for every other field by comparisons
/// alone, where `time_field` holds the time, if any does.
pub open spec fn keeps_time_apart(query: QueryView, time_field: Option<Seq<char>>) -> bool
    decreases query,
{
    match query {
        QueryView::FieldComparison { field, .. } => time_field != Some(field),
        QueryView::TimeRange { .. } => time_field is Some,
        QueryView::And(parts) => forall|i: int|
            0 <= i < parts.len() ==> keeps_time_apart(#[trigger] parts[i], time_field),
        QueryView::Or(parts) => forall|i: int|
            0 <= i < parts.len() ==> keeps_time_apart(#[trigger] parts[i], time_field),
        QueryView::Not(inner) => keeps_time_apart(*inner, time_field),
        QueryView::All => true,
    }
}

/// How many of the matching events to return.
#[derive(Debug, PartialEq, Eq, Clone, Copy, Structural)]
pub enum Limit {
    /// The first so many.
    Head(usize),
    /// The last so many.
    Tail(usize),
}

/// A number computed from the matching events.
#[derive(Debug)]
pub enum Aggregation {
    Count,
    CountBy(String),
    Average(String),
    /// The percentile of a field, by the bits of a fraction.
    Percentage(String, u32),
    Sum(String),
    Min(String),
    Max(String),
}

/// What an [`Aggregation`] holds.
pub enum AggregationView {
    Count,
    CountBy(Seq<char>),
    Average(Seq<char>),
    Percentage(Seq<char>, u32),
    Sum(Seq<char>),
    Min(Seq<char>),
    Max(Seq<char>),
}

impl View for Aggregation {
    type V = AggregationView;

    open spec fn view(&self) -> AggregationView {
        match self {
            Aggregation::Count => AggregationView::Count,
            Aggregation::CountBy(field) => AggregationView::CountBy(field@),
            Aggregation::Average(field) => AggregationView::Average(field@),
            Aggregation::Percentage(field, p) => AggregationView::Percentage(field@, *p),
            Aggregation::Sum(field) => AggregationView::Sum(field@),
            Aggregation::Min(field) => AggregationView::Min(field@),
            Aggregation::Max(field) => AggregationView::Max(field@),
        }
    }
}

/// A filter with a pipeline stage.
#[derive(Debug)]
pub struct QueryPlan {
    pub query: Query,
    pub aggregation: Option<Aggregation>,
    pub limit: Option<Limit>,
}

/// What a [`QueryPlan`] holds.
pub struct PlanView {
    pub query: QueryView,
    pub aggregation: Option<AggregationView>,
    pub limit: Option<Limit>,
}

impl View for QueryPlan {
    type V = PlanView;

    open spec fn view(&self) -> PlanView {
        PlanView {
            query: self.query@,
            aggregation: match self.aggregation {
                Some(aggregation) => Some(aggregation@),
                None => None,
            },
            limit: self.limit,
        }
    }
}

impl QueryPlan {
    pub fn new(query: Query, aggregation: Option<Aggregation>, limit: Option<Limit>) -> (r:
        QueryPlan)
        ensures
            r == (QueryPlan { query, aggregation, limit }),
    {
        QueryPlan { query, aggregation, limit }
    }
}

/// What a plan asks for.
///
/// A number is a bit pattern of single precision.
#[derive(Debug, PartialEq)]
pub enum QueryResult<'a> {
    Events(Vec<&'a Event>),
    Count(usize),
    CountBy(usize),
    Scalar(u32),
}

/// What a [`QueryResult`] holds.
pub enum ResultView {
    Events(Seq<EventView>),
    Count(nat),
    CountBy(nat),
    Scalar(u32),
}

/// What each of several borrowed events holds.
pub open spec fn borrowed_views(events: Seq<&Event>) -> Seq<EventView> {
    events.map_values(|e: &Event| e@)
}

/// What each of several events holds.
pub open spec fn event_views(events: Seq<Event>) -> Seq<EventView> {
    events.map_values(|e: Event| e@)
}

impl<'a> View for QueryResult<'a> {
    type V = ResultView;

    open spec fn view(&self) -> ResultView {
        match self {
            QueryResult::Events(events) => ResultView::Events(borrowed_views(events@)),
            QueryResult::Count(n) => ResultView::Count(*n as nat),
            QueryResult::CountBy(n) => ResultView::CountBy(*n as nat),
            QueryResult::Scalar(bits) => ResultView::Scalar(*bits),
        }
    }
}

/// The raw lines of some events.
pub open spec fn raw_lines(events: Seq<EventView>) -> Seq<Seq<char>> {
    events.map_values(|e: EventView| e.raw)
}

/// How a result reads: the raw lines of events, a count in decimal notation, and `number_text` for
/// every other number.
pub open spec fn result_text(result: ResultView, number_text: Seq<char>) -> Seq<char> {
    match result {
        ResultView::Events(events) => text::joined_lines(raw_lines(events)),
        ResultView::Count(n) => decimal::decimal_text(n),
        ResultView::CountBy(n) => decimal::decimal_text(n),
        ResultView::Scalar(_) => number_text,
    }
}

impl<'a> QueryResult<'a> {
    /// How the result reads, given how its number reads.
    pub fn to_text(&self, number_text: &str) -> (r: String)
        ensures
            r@ == result_text(self@, number_text@),
    {
        match self {
            QueryResult::Events(events) => raw_text(events),
            QueryResult::Count(n) => decimal::decimal(*n as u64),
            QueryResult::CountBy(n) => decimal::decimal(*n as u64),
            QueryResult::Scalar(_) => number_text.to_owned(),
        }
    }
}

/// The raw lines of some events, with a line feed between each two.
fn raw_text(events: &Vec<&Event>) -> (r: String)
    ensures
        r@ == text::joined_lines(raw_lines(borrowed_views(events@))),
{
    let ghost lines = raw_lines(borrowed_views(events@));
    let mut joined = String::new();
    let mut i: usize = 0;
    while i < events.len()
        invariant
            i <= events.len(),
            lines == raw_lines(borrowed_views(events@)),
            joined@ == text::joined_lines(lines.take(i as int)),
        decreases events.len() - i,
    {
        let ghost before = lines.take(i as int);
        let ghost after = lines.take(i + 1);
        assert(after.drop_last() =~= before);
        assert(after.last() == events@[i as int].raw@);
        if i > 0 {
            text::push(&mut joined, '\n');
        }
        joined.append(events[i].raw.as_str());
        assert(joined@ =~= text::joined_lines(after));
        i += 1;
    }
    assert(lines.take(lines.len() as int) =~= lines);
    joined
}

impl Clone for Query {
    fn clone(&self) -> (r: Query)
        ensures
            r@ == self@,
    {
        duplicate(self)
    }
}

fn duplicate(query: &Query) -> (r: Query)
    ensures
        r@ == query@,
    decreases query,
{
    match query {
        Query::FieldComparison { field, op, value } => Query::FieldComparison {
            field: field.clone(),
            op: *op,
            value: value.clone(),
        },
        Query::TimeRange { start, end } => Query::TimeRange { start: *start, end: *end },
        Query::And(parts) => Query::And(duplicate_all(parts)),
        Query::Or(parts) => Query::Or(duplicate_all(parts)),
        Query::Not(inner) => Query::Not(Box::new(duplicate(inner))),
        Query::All() => Query::All(),
    }
}

fn duplicate_all(queries: &Vec<Query>) -> (r: Vec<Query>)
    ensures
        query_views(r@) == query_views(queries@),
    decreases queries,
{
    let mut copies: Vec<Query> = Vec::new();
    let mut i: usize = 0;
    while i < queries.len()
        invariant
            i <= queries.len(),
            copies.len() == i,
            forall|j: int| 0 <= j < i ==> (#[trigger] copies@[j])@ == queries@[j]@,
        decreases queries.len() - i,
    {
        assert(decreases_to!(queries => queries@[i as int]));
        copies.push(duplicate(&queries[i]));
        i += 1;
    }
    proof {
        lemma_query_views(copies@);
        lemma_query_views(queries@);
        assert(query_views(copies@) =~= query_views(queries@));
    }
    copies
}

} // verus!
