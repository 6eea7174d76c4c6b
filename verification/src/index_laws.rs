//! Laws of the index: what it keeps, and how filters and limits relate.

use crate::arithmetic;
use crate::binary32;
use crate::event::EventView;
use crate::grammar;
use crate::index;
use crate::index::AggregationErrorView;
use crate::query;
use crate::query::{AggregationView, Limit, PlanView, QueryView, ResultView};
use crate::time::Instant;
use vstd::prelude::*;

verus! {

/// The index holds the most recent events: at least as many as its capacity, if there were so many,
/// at most the slack more, and all of them as long as they fit.
pub proof fn law_most_recent_events_stay<T>(all: Seq<T>, capacity: nat)
    ensures
        ({
            let kept = index::pushed(Seq::empty(), all, capacity);
            &&& kept.len() <= all.len()
            &&& kept == all.skip(all.len() - kept.len())
            &&& kept.len() <= capacity + index::SLACK
            &&& kept.len() >= capacity || kept == all
            &&& all.len() <= capacity + index::SLACK ==> kept == all
        }),
    decreases all.len(),
{
    if all.len() > 0 {
        let front = all.drop_last();
        law_most_recent_events_stay(front, capacity);
        let before = index::pushed(Seq::empty(), front, capacity);
        let kept = index::pushed(Seq::empty(), all, capacity);
        assert(before.push(all.last()) =~= all.skip(all.len() - before.len() - 1));
        assert(kept =~= all.skip(all.len() - kept.len()));
        assert(all.skip(0) =~= all);
    } else {
        assert(all.skip(0) =~= all);
        assert(index::pushed(Seq::empty(), all, capacity) =~= all);
    }
}

/// Pushing as many events as fit changes nothing but to add them.
pub proof fn lemma_pushed_in_full<T>(events: Seq<T>, more: Seq<T>, capacity: nat)
    requires
        events.len() + more.len() <= capacity + index::SLACK,
    ensures
        index::pushed(events, more, capacity) == events + more,
    decreases more.len(),
{
    if more.len() == 0 {
        assert(events + more =~= events);
    } else {
        lemma_pushed_in_full(events, more.drop_last(), capacity);
        assert((events + more.drop_last()).push(more.last()) =~= events + more);
    }
}

/// Pushing some events and then others is pushing all.
pub proof fn lemma_pushed_in_turn<T>(events: Seq<T>, a: Seq<T>, b: Seq<T>, capacity: nat)
    ensures
        index::pushed(index::pushed(events, a, capacity), b, capacity) == index::pushed(
            events,
            a + b,
            capacity,
        ),
    decreases b.len(),
{
    if b.len() == 0 {
        assert(a + b =~= a);
    } else {
        lemma_pushed_in_turn(events, a, b.drop_last(), capacity);
        assert((a + b).drop_last() =~= a + b.drop_last());
    }
}

/// Changing each event and pushing is pushing and changing each.
pub proof fn lemma_pushed_mapped<T, U>(
    events: Seq<T>,
    more: Seq<T>,
    capacity: nat,
    f: spec_fn(T) -> U,
)
    ensures
        index::pushed(events.map_values(f), more.map_values(f), capacity) == index::pushed(
            events,
            more,
            capacity,
        ).map_values(f),
    decreases more.len(),
{
    if more.len() > 0 {
        lemma_pushed_mapped(events, more.drop_last(), capacity, f);
        assert(more.map_values(f).drop_last() =~= more.drop_last().map_values(f));
        let before = index::pushed(events, more.drop_last(), capacity);
        assert(before.map_values(f).push(f(more.last())) =~= before.push(more.last()).map_values(
            f,
        ));
        assert(index::pushed(events.map_values(f), more.map_values(f), capacity) =~= index::pushed(
            events,
            more,
            capacity,
        ).map_values(f));
    }
}

/// `NOT` matches every event that the inner filter does not, one that lacks the field among them.
pub proof fn law_not_matches_the_rest(inner: QueryView, event: EventView)
    ensures
        query::selects(QueryView::Not(Box::new(inner)), event) <==> !query::selects(inner, event),
        inner matches QueryView::FieldComparison { field, .. } ==> (!event.fields.contains_key(
            field,
        ) ==> query::selects(QueryView::Not(Box::new(inner)), event)),
{
    assert(QueryView::Not(Box::new(inner))->Not_0 == Box::new(inner));
    reveal_with_fuel(query::selects, 2);
}

/// Every event is matched by a filter or by its negation, and none by both.
pub proof fn law_filter_and_negation_share_the_events(events: Seq<EventView>, inner: QueryView)
    ensures
        index::selected(events, inner).len() + index::selected(
            events,
            QueryView::Not(Box::new(inner)),
        ).len() == events.len(),
    decreases events.len(),
{
    reveal(Seq::filter);
    if events.len() > 0 {
        law_filter_and_negation_share_the_events(events.drop_last(), inner);
    }
}

/// Adding a part to a conjunction narrows it, and adding one to a disjunction widens it.
pub proof fn law_parts_narrow_and_widen(parts: Seq<QueryView>, more: QueryView, event: EventView)
    ensures
        query::selects(QueryView::And(parts.push(more)), event) <==> query::selects(
            QueryView::And(parts),
            event,
        ) && query::selects(more, event),
        query::selects(QueryView::Or(parts.push(more)), event) <==> query::selects(
            QueryView::Or(parts),
            event,
        ) || query::selects(more, event),
{
    let wider = parts.push(more);
    assert(wider[parts.len() as int] == more);
    assert(QueryView::And(wider)->And_0 == wider && QueryView::And(parts)->And_0 == parts);
    assert(QueryView::Or(wider)->Or_0 == wider && QueryView::Or(parts)->Or_0 == parts);
    assert forall|i: int| 0 <= i < parts.len() implies parts[i] == wider[i] by {}
}

/// Both bounds of a time range are inclusive: an event stamped with the instant itself matches
/// either, and every stamped event matches one of the two.
pub proof fn law_time_bounds_are_inclusive(t: Instant, event: EventView)
    requires
        event.timestamp is Some,
    ensures
        ({
            let from = QueryView::TimeRange { start: Some(t), end: None };
            let until = QueryView::TimeRange { start: None, end: Some(t) };
            &&& query::selects(from, event) || query::selects(until, event)
            &&& event.timestamp == Some(t) ==> query::selects(from, event) && query::selects(
                until,
                event,
            )
        }),
{
}

/// A limit keeps the first matches, a tail the last, in the order in which they were.
pub proof fn law_limits_keep_the_ends<T>(events: Seq<T>, n: usize)
    ensures
        ({
            let head = index::limited(events, Some(Limit::Head(n)));
            let tail = index::limited(events, Some(Limit::Tail(n)));
            &&& head.len() == tail.len()
            &&& head.len() == (if n < events.len() {
                n as nat
            } else {
                events.len()
            })
            &&& head == events.take(head.len() as int)
            &&& tail == events.skip(events.len() - tail.len())
        }),
{
    assert(events.take(events.len() as int) =~= events);
    assert(events.skip(0) =~= events);
}

/// No more values of a field than events have it.
proof fn lemma_values_at_most_events(events: Seq<EventView>, field: Seq<char>)
    ensures
        index::field_values(events, field).len() <= events.len(),
    decreases events.len(),
{
    if events.len() > 0 {
        lemma_values_at_most_events(events.drop_last(), field);
    }
}

/// Over at most 2^24 events every plan has an answer, unless it asks for a percentile whose fraction
/// is not above zero and at most one.
pub proof fn law_plans_have_answers(events: Seq<EventView>, plan: PlanView)
    requires
        events.len() <= 0x100_0000,
        plan.aggregation matches Some(AggregationView::Percentage(_, p))
            ==> arithmetic::is_fraction(p),
    ensures
        index::has_answer(index::selected(events, plan.query), plan),
{
    let matching = index::selected(events, plan.query);
    events.lemma_filter_len(|e: EventView| query::selects(plan.query, e));
    if let Some(AggregationView::Percentage(field, p)) = plan.aggregation {
        lemma_values_at_most_events(matching, field);
        if let Ok(numbers) = index::field_numbers(matching, field) {
            arithmetic::law_ranks_are_in_bounds(p, numbers.len());
        }
    }
}

/// Two `NOT` cancel out: of several in a row only an odd one negates.
pub proof fn law_pairs_of_nots_cancel_out(nots: nat, inner: QueryView, event: EventView)
    ensures
        query::selects(grammar::negated(nots, inner), event) <==> if nots % 2 == 1 {
            !query::selects(inner, event)
        } else {
            query::selects(inner, event)
        },
{
    law_not_matches_the_rest(inner, event);
}

/// Numbers are sorted in one way only.
pub proof fn lemma_sorted_copies_agree(a: Seq<u32>, b: Seq<u32>, numbers: Seq<u32>)
    requires
        index::is_sorted_copy(a, numbers),
        index::is_sorted_copy(b, numbers),
    ensures
        a == b,
{
    let leq = |x: u32, y: u32| binary32::total_key(x) <= binary32::total_key(y);
    assert forall|x: u32, y: u32| #[trigger] leq(x, y) && #[trigger] leq(y, x) implies x == y by {}
    assert(vstd::relations::antisymmetric(leq));
    assert(vstd::relations::transitive(leq));
    assert(vstd::relations::strongly_connected(leq));
    assert forall|i: int, j: int| 0 <= i < j < a.len() implies #[trigger] leq(a[i], a[j]) by {}
    assert forall|i: int, j: int| 0 <= i < j < b.len() implies #[trigger] leq(b[i], b[j]) by {}
    vstd::seq_lib::lemma_sorted_unique(a, b, leq);
}

/// A sorted copy holds what the numbers hold.
pub proof fn lemma_sorted_copy_holds(sorted: Seq<u32>, numbers: Seq<u32>, n: u32)
    requires
        index::is_sorted_copy(sorted, numbers),
    ensures
        sorted.contains(n) <==> numbers.contains(n),
        sorted.len() == numbers.len(),
{
    broadcast use vstd::seq_lib::group_to_multiset_ensures;

    assert(sorted.contains(n) <==> sorted.to_multiset().count(n) > 0);
    assert(numbers.contains(n) <==> numbers.to_multiset().count(n) > 0);
    assert(sorted.to_multiset().len() == numbers.to_multiset().len());
}

/// Whether an aggregation of the same events gives a number.
pub open spec fn gives(
    events: Seq<EventView>,
    plan: PlanView,
    aggregation: AggregationView,
    n: u32,
) -> bool {
    index::answers(
        events,
        PlanView { aggregation: Some(aggregation), ..plan },
        Ok::<_, AggregationErrorView>(ResultView::Scalar(n)),
    )
}

/// Of the same events and field, the minimum is no greater than a percentile, that is no greater
/// than one of a greater fraction, and that no greater than the maximum. The minimum, the maximum
/// and every percentile are among the numbers, and of at most 2^24 numbers the percentile of the
/// whole is the maximum.
pub proof fn law_percentiles_ascend(
    events: Seq<EventView>,
    plan: PlanView,
    field: Seq<char>,
    p: u32,
    q: u32,
    least: u32,
    lower: u32,
    upper: u32,
    greatest: u32,
)
    requires
        arithmetic::is_fraction(p),
        arithmetic::is_fraction(q),
        p <= q,
        events.len() <= u64::MAX,
        gives(events, plan, AggregationView::Min(field), least),
        gives(events, plan, AggregationView::Percentage(field, p), lower),
        gives(events, plan, AggregationView::Percentage(field, q), upper),
        gives(events, plan, AggregationView::Max(field), greatest),
    ensures
        binary32::total_key(least) <= binary32::total_key(lower),
        binary32::total_key(lower) <= binary32::total_key(upper),
        binary32::total_key(upper) <= binary32::total_key(greatest),
        ({
            let numbers = index::field_numbers(events, field)->Ok_0;
            &&& numbers.contains(least) && numbers.contains(lower)
            &&& numbers.contains(upper) && numbers.contains(greatest)
            &&& q == binary32::ONE_BITS && numbers.len() <= 0x100_0000 ==> upper == greatest
        }),
{
    let numbers = index::field_numbers(events, field)->Ok_0;
    let i = arithmetic::percentile_rank(p as int, numbers.len());
    let j = arithmetic::percentile_rank(q as int, numbers.len());
    lemma_values_at_most_events(events, field);
    assert(index::field_numbers(events, field) is Ok);
    assert(index::is_ranked(lower, i, numbers) && index::is_ranked(upper, j, numbers));
    let sorted = choose|sorted: Seq<u32>| #[trigger]
        index::is_sorted_copy(sorted, numbers) && 0 <= i < sorted.len() && lower == sorted[i];
    let again = choose|sorted: Seq<u32>| #[trigger]
        index::is_sorted_copy(sorted, numbers) && 0 <= j < sorted.len() && upper == sorted[j];
    lemma_sorted_copies_agree(sorted, again, numbers);
    lemma_sorted_copy_holds(sorted, numbers, lower);
    lemma_sorted_copy_holds(sorted, numbers, upper);
    lemma_sorted_copy_holds(sorted, numbers, greatest);
    arithmetic::law_ranks_ascend(p, q, numbers.len());
    assert(sorted.contains(lower) && sorted.contains(upper));
    let a = numbers.index_of(lower);
    let b = numbers.index_of(upper);
    assert(numbers[a] == lower && numbers[b] == upper);
    if q == binary32::ONE_BITS && numbers.len() <= 0x100_0000 {
        arithmetic::law_the_whole_ends_with_the_last(numbers.len());
        let k = sorted.index_of(greatest);
        assert(sorted[k] == greatest);
        assert(binary32::total_key(sorted[k]) <= binary32::total_key(sorted[j]));
    }
}

/// Numbers that are in the total order are in the numeric order, where neither is a NaN.
pub proof fn law_total_order_extends_the_numeric_order(a: u32, b: u32)
    requires
        !binary32::is_nan(a),
        !binary32::is_nan(b),
        binary32::total_key(a) <= binary32::total_key(b),
    ensures
        binary32::numeric_key(a) <= binary32::numeric_key(b),
{
}

/// The average of the same events and field is the sum, divided by how many numbers there are.
pub proof fn law_the_average_divides_the_sum(
    events: Seq<EventView>,
    plan: PlanView,
    field: Seq<char>,
    sum: u32,
    average: u32,
)
    requires
        events.len() <= u64::MAX,
        gives(events, plan, AggregationView::Sum(field), sum),
        gives(events, plan, AggregationView::Average(field), average),
    ensures
        arithmetic::is_quotient(
            sum,
            arithmetic::of_count(index::field_numbers(events, field)->Ok_0.len()),
            average,
        ),
{
    let numbers = index::field_numbers(events, field)->Ok_0;
    lemma_values_at_most_events(events, field);
    arithmetic::law_average_is_rounded(numbers, average);
}

} // verus!
