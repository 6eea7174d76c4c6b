//! Following: which new events a filter matches.

use crate::event::Event;
use crate::index;
use crate::query;
use crate::query::Query;
use vstd::prelude::*;

verus! {

/// Whether a filter matches an event.
pub fn matches_event(filter: &Query, event: &Event) -> (r: bool)
    ensures
        r == query::selects(filter@, event@),
    decreases filter, 0int,
{
    match filter {
        Query::FieldComparison { field, op, value } => match event.fields.get(field.as_str()) {
            Some(candidate) => index::compare(op, candidate, value),
            None => false,
        },
        Query::TimeRange { start, end } => match &event.timestamp {
            Some(t) => {
                let late_enough = match start {
                    Some(start) => !t.before(start),
                    None => true,
                };
                let early_enough = match end {
                    Some(end) => !end.before(t),
                    None => true,
                };
                late_enough && early_enough
            },
            None => false,
        },
        Query::And(parts) => {
            proof {
                query::lemma_query_views(parts@);
                assert(filter@->And_0 == query::query_views(parts@));
            }
            !any_matches(parts, event, false)
        },
        Query::Or(parts) => {
            proof {
                query::lemma_query_views(parts@);
                assert(filter@->Or_0 == query::query_views(parts@));
            }
            any_matches(parts, event, true)
        },
        Query::Not(inner) => !matches_event(inner, event),
        Query::All() => true,
    }
}

/// Whether any of some filters matches an event, or, if `wanted` is false, any does not.
fn any_matches(filters: &Vec<Query>, event: &Event, wanted: bool) -> (r: bool)
    ensures
        r == exists|i: int|
            0 <= i < filters@.len() && query::selects(
                #[trigger] query::query_views(filters@)[i],
                event@,
            ) == wanted,
    decreases filters, 1int,
{
    proof {
        query::lemma_query_views(filters@);
    }
    let mut i: usize = 0;
    while i < filters.len()
        invariant
            i <= filters@.len(),
            query::query_views(filters@).len() == filters@.len(),
            forall|j: int|
                0 <= j < filters@.len() ==> #[trigger] query::query_views(filters@)[j]
                    == query::query_view(filters@[j]),
            forall|j: int|
                0 <= j < i ==> query::selects(
                    #[trigger] query::query_views(filters@)[j],
                    event@,
                ) != wanted,
        decreases filters@.len() - i,
    {
        assert(decreases_to!(filters => filters@[i as int]));
        assert(query::query_views(filters@)[i as int] == query::query_view(filters@[i as int]));
        if matches_event(&filters[i], event) == wanted {
            return true;
        }
        i += 1;
    }
    false
}

} // verus!
