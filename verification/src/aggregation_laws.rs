//! Laws of aggregation: which events and numbers an aggregation is of, and how its results relate to
//! them, to filters and to one another.

use crate::arithmetic;
use crate::binary32;
use crate::event::EventView;
use crate::index;
use crate::index::AggregationErrorView;
use crate::index_laws;
use crate::number_laws;
use crate::query;
use crate::query::{AggregationView, ComparisonOp, Limit, PlanView, ResultView};
use crate::rounding;
use crate::value::ValueView;
use vstd::prelude::*;

verus! {

/// Whether an aggregation of events comes to an answer, whatever else a plan holds.
pub open spec fn comes_to(
    events: Seq<EventView>,
    plan: PlanView,
    aggregation: AggregationView,
    answer: Result<ResultView, AggregationErrorView>,
) -> bool {
    index::answers(events, PlanView { aggregation: Some(aggregation), ..plan }, answer)
}

/// The events that have a field.
pub open spec fn having(events: Seq<EventView>, field: Seq<char>) -> Seq<EventView> {
    events.filter(|e: EventView| e.fields.contains_key(field))
}

/// The values of a field are those in the events that have it, one for each and in their order.
proof fn lemma_values_are_those_of_the_events(events: Seq<EventView>, field: Seq<char>)
    ensures
        index::field_values(events, field) == having(events, field).map_values(
            |e: EventView| e.fields[field],
        ),
    decreases events.len(),
{
    reveal(Seq::filter);
    let f = |e: EventView| e.fields[field];
    if events.len() > 0 {
        let front = events.drop_last();
        lemma_values_are_those_of_the_events(front, field);
        let shorter = having(front, field);
        if events.last().fields.contains_key(field) {
            assert(having(events, field) == shorter.push(events.last()));
            assert(shorter.push(events.last()).map_values(f) =~= shorter.map_values(f).push(
                f(events.last()),
            ));
        }
    }
    assert(index::field_values(events, field) =~= having(events, field).map_values(f));
}

/// `count` gives the number of events, and `count by` the number of those that have the field,
/// whatever their values are. Neither ever fails.
pub proof fn law_counts_are_of_events(
    events: Seq<EventView>,
    plan: PlanView,
    field: Seq<char>,
    count: Result<ResultView, AggregationErrorView>,
    count_by: Result<ResultView, AggregationErrorView>,
)
    requires
        comes_to(events, plan, AggregationView::Count, count),
        comes_to(events, plan, AggregationView::CountBy(field), count_by),
    ensures
        count == Ok::<_, AggregationErrorView>(ResultView::Count(events.len())),
        count_by == Ok::<_, AggregationErrorView>(
            ResultView::CountBy(
                events.filter(|e: EventView| e.fields.contains_key(field)).len(),
            ),
        ),
{
    lemma_values_are_those_of_the_events(events, field);
}

/// One more matching event raises `count` by one, and `count by` by one if it has the field, whatever
/// its value; `count by` is never more than `count`, and the same where every event has the field.
pub proof fn law_one_more_event_counts_one_more(
    events: Seq<EventView>,
    event: EventView,
    plan: PlanView,
    field: Seq<char>,
    count: nat,
    count_by: nat,
    later_count: nat,
    later_count_by: nat,
)
    requires
        comes_to(events, plan, AggregationView::Count, Ok(ResultView::Count(count))),
        comes_to(events, plan, AggregationView::CountBy(field), Ok(ResultView::CountBy(count_by))),
        comes_to(
            events.push(event),
            plan,
            AggregationView::Count,
            Ok(ResultView::Count(later_count)),
        ),
        comes_to(
            events.push(event),
            plan,
            AggregationView::CountBy(field),
            Ok(ResultView::CountBy(later_count_by)),
        ),
    ensures
        later_count == count + 1,
        later_count_by == count_by + if event.fields.contains_key(field) {
            1int
        } else {
            0
        },
        count_by <= count,
        (forall|i: int|
            0 <= i < events.len() ==> (#[trigger] events[i]).fields.contains_key(field)) <==> count
            == count_by,
{
    let all = events.push(event);
    let has = |e: EventView| e.fields.contains_key(field);
    lemma_values_are_those_of_the_events(events, field);
    lemma_values_are_those_of_the_events(all, field);
    assert(all.drop_last() =~= events);
    assert(having(all, field).len() == having(events, field).len() + if has(event) {
        1int
    } else {
        0
    }) by {
        reveal(Seq::filter);
    }
    lemma_full_filter(events, has);
}

/// A filter keeps at most all, and all only where all satisfy it.
proof fn lemma_full_filter<T>(s: Seq<T>, pred: spec_fn(T) -> bool)
    ensures
        s.filter(pred).len() <= s.len(),
        s.filter(pred).len() == s.len() <==> forall|i: int|
            0 <= i < s.len() ==> pred(#[trigger] s[i]),
    decreases s.len(),
{
    reveal(Seq::filter);
    if s.len() > 0 {
        let front = s.drop_last();
        lemma_full_filter(front, pred);
        if s.filter(pred).len() == s.len() {
            assert(pred(s.last()));
            assert forall|i: int| 0 <= i < s.len() implies pred(#[trigger] s[i]) by {
                if i < front.len() {
                    assert(pred(front[i]));
                }
            }
        }
        if forall|i: int| 0 <= i < s.len() ==> pred(#[trigger] s[i]) {
            assert forall|i: int| 0 <= i < front.len() implies pred(#[trigger] front[i]) by {
                assert(pred(s[i]));
            }
            assert(pred(s[s.len() - 1]));
        }
    }
}

/// The aggregation is of the numbers of a field: a sum, an average, a minimum, a maximum, or a
/// percentile of a fraction above zero and at most one.
pub open spec fn is_of_numbers(aggregation: AggregationView, field: Seq<char>) -> bool {
    match aggregation {
        AggregationView::Sum(f) => f == field,
        AggregationView::Average(f) => f == field,
        AggregationView::Min(f) => f == field,
        AggregationView::Max(f) => f == field,
        AggregationView::Percentage(f, p) => f == field && 0 < p <= 0x3f80_0000,
        _ => false,
    }
}

/// The numbers of a field are what the events that have it hold there, each once and in their order;
/// an event without the field counts for nothing.
pub proof fn law_numbers_are_those_of_the_events(
    events: Seq<EventView>,
    field: Seq<char>,
    numbers: Seq<u32>,
)
    ensures
        index::field_numbers(events, field) == Ok::<_, AggregationErrorView>(numbers) <==> {
            &&& numbers.len() > 0
            &&& having(events, field).map_values(|e: EventView| e.fields[field])
                == numbers.map_values(|n: u32| ValueView::Number(n))
        },
{
    let values = having(events, field).map_values(|e: EventView| e.fields[field]);
    let wrapped = numbers.map_values(|n: u32| ValueView::Number(n));
    lemma_values_are_those_of_the_events(events, field);
    let has = |e: EventView| e.fields.contains_key(field);
    lemma_full_filter(events, has);
    if numbers.len() > 0 && values == wrapped {
        assert forall|i: int| 0 <= i < values.len() implies #[trigger] values[i] is Number by {
            assert(wrapped[i] is Number);
        }
        let found = values.map_values(|v: ValueView| v->Number_0);
        assert forall|i: int| 0 <= i < numbers.len() implies #[trigger] found[i] == numbers[i] by {
            assert(values[i] == wrapped[i]);
        }
        assert(values.len() == wrapped.len());
        assert(found =~= numbers);
    }
    if index::field_numbers(events, field) == Ok::<_, AggregationErrorView>(numbers) {
        assert forall|i: int| 0 <= i < values.len() implies #[trigger] values[i] == wrapped[i] by {
            assert(values[i] is Number);
        }
        assert(values =~= wrapped);
    }
}

/// An aggregation of numbers fails in three cases and in no other: there is no event; an event has
/// something else than a number in the field; there are events, and none has the field.
pub proof fn law_numbers_are_missing_in_three_cases(
    events: Seq<EventView>,
    plan: PlanView,
    aggregation: AggregationView,
    field: Seq<char>,
    answer: Result<ResultView, AggregationErrorView>,
)
    requires
        is_of_numbers(aggregation, field),
        comes_to(events, plan, aggregation, answer),
    ensures
        answer == Err::<ResultView, _>(AggregationErrorView::NoMatchingEvents) <==> events.len()
            == 0,
        answer == Err::<ResultView, _>(AggregationErrorView::IncompatibleType(field)) <==> exists|
            i: int,
        |
            0 <= i < events.len() && (#[trigger] events[i]).fields.contains_key(field)
                && !(events[i].fields[field] is Number),
        answer == Err::<ResultView, _>(AggregationErrorView::FieldNotFound(field)) <==> {
            &&& events.len() > 0
            &&& forall|i: int|
                0 <= i < events.len() ==> !(#[trigger] events[i]).fields.contains_key(field)
        },
        answer is Ok ==> answer->Ok_0 is Scalar,
        answer is Err ==> answer->Err_0 is NoMatchingEvents || answer
            == Err::<ResultView, _>(AggregationErrorView::IncompatibleType(field)) || answer
            == Err::<ResultView, _>(AggregationErrorView::FieldNotFound(field)),
{
    let values = index::field_values(events, field);
    assert forall|i: int|
        0 <= i < events.len() && (#[trigger] events[i]).fields.contains_key(field) implies exists|
        j: int,
    |
        0 <= j < values.len() && #[trigger] values[j] == events[i].fields[field] by {
        let j = lemma_value_of_an_event(events, field, i);
        assert(values[j] == events[i].fields[field]);
    }
    assert forall|j: int| 0 <= j < values.len() implies exists|i: int|
        0 <= i < events.len() && (#[trigger] events[i]).fields.contains_key(field)
            && events[i].fields[field] == #[trigger] values[j] by {
        let i = lemma_event_of_a_value(events, field, j);
        assert(events[i].fields[field] == values[j]);
    }
    if values.len() > 0 {
        let i = lemma_event_of_a_value(events, field, 0);
        assert(events[i].fields.contains_key(field));
    }
}

/// An event that has a field has its value among those of the field.
proof fn lemma_value_of_an_event(events: Seq<EventView>, field: Seq<char>, i: int) -> (j: int)
    requires
        0 <= i < events.len(),
        events[i].fields.contains_key(field),
    ensures
        0 <= j < index::field_values(events, field).len(),
        index::field_values(events, field)[j] == events[i].fields[field],
{
    let has = |e: EventView| e.fields.contains_key(field);
    let found = having(events, field);
    lemma_values_are_those_of_the_events(events, field);
    events.lemma_filter_contains(has, i);
    assert(found.contains(events[i]));
    found.index_of(events[i])
}

/// Each value of a field is that of an event which has it.
proof fn lemma_event_of_a_value(events: Seq<EventView>, field: Seq<char>, j: int) -> (i: int)
    requires
        0 <= j < index::field_values(events, field).len(),
    ensures
        0 <= i < events.len(),
        events[i].fields.contains_key(field),
        index::field_values(events, field)[j] == events[i].fields[field],
{
    let has = |e: EventView| e.fields.contains_key(field);
    let found = having(events, field);
    lemma_values_are_those_of_the_events(events, field);
    events.lemma_filter_pred(has, j);
    assert(found.contains(found[j]));
    events.lemma_filter_contains_rev(has, found[j]);
    events.index_of(found[j])
}

/// Whether a fraction is out of range: a number that is not above zero, or one above one.
pub open spec fn out_of_range(p: u32) -> bool {
    p == 0 || 0x3f80_0000 < p <= 0x7f80_0000 || 0x8000_0000 <= p <= 0xff80_0000
}

/// A percentile of a fraction out of range is refused, whatever the events are.
pub proof fn law_percentiles_lie_in_range(
    events: Seq<EventView>,
    plan: PlanView,
    field: Seq<char>,
    p: u32,
    answer: Result<ResultView, AggregationErrorView>,
)
    requires
        comes_to(events, plan, AggregationView::Percentage(field, p), answer),
        out_of_range(p) || 0 < p <= 0x3f80_0000,
    ensures
        answer == Err::<ResultView, _>(AggregationErrorView::InvalidPercentile) <==> out_of_range(
            p,
        ),
{
}

/// An event without the field changes nothing of an aggregation over the field, where there are
/// other events.
pub proof fn law_events_without_the_field_change_nothing(
    events: Seq<EventView>,
    event: EventView,
    plan: PlanView,
    aggregation: AggregationView,
    field: Seq<char>,
    answer: Result<ResultView, AggregationErrorView>,
)
    requires
        is_of_numbers(aggregation, field) || aggregation == AggregationView::CountBy(field),
        !event.fields.contains_key(field),
        events.len() > 0,
    ensures
        comes_to(events.push(event), plan, aggregation, answer) <==> comes_to(
            events,
            plan,
            aggregation,
            answer,
        ),
{
    let all = events.push(event);
    assert(all.drop_last() =~= events);
    assert(index::field_values(all, field) == index::field_values(events, field));
    assert(index::field_numbers(all, field) == index::field_numbers(events, field));
}

/// The place of a number in the order of all of them: those with a sign first, the greatest of them
/// by its bits foremost, then those without one by their bits.
pub open spec fn place(bits: u32) -> int {
    if bits >= 0x8000_0000 {
        0xffff_ffff - bits
    } else {
        bits + 0x8000_0000
    }
}

/// No matching event has a number below the minimum or above the maximum, neither in the order of
/// all numbers nor by the `<` and `>` of filters, and one has each of the two.
pub proof fn law_no_event_lies_beyond_the_extremes(
    events: Seq<EventView>,
    plan: PlanView,
    field: Seq<char>,
    least: u32,
    greatest: u32,
)
    requires
        index_laws::gives(events, plan, AggregationView::Min(field), least),
        index_laws::gives(events, plan, AggregationView::Max(field), greatest),
    ensures
        forall|i: int|
            0 <= i < events.len() && (#[trigger] events[i]).fields.contains_key(field) ==> {
                let value = events[i].fields[field];
                &&& value is Number
                &&& place(least) <= place(value->Number_0) <= place(greatest)
                &&& !query::compares(ComparisonOp::Lt, value, ValueView::Number(least))
                &&& !query::compares(ComparisonOp::Gt, value, ValueView::Number(greatest))
            },
        exists|i: int|
            0 <= i < events.len() && (#[trigger] events[i]).fields.contains_pair(
                field,
                ValueView::Number(least),
            ),
        exists|i: int|
            0 <= i < events.len() && (#[trigger] events[i]).fields.contains_pair(
                field,
                ValueView::Number(greatest),
            ),
{
    let values = index::field_values(events, field);
    let numbers = index::field_numbers(events, field)->Ok_0;
    assert(index::field_numbers(events, field) is Ok);
    assert(numbers == values.map_values(|v: ValueView| v->Number_0));
    assert forall|i: int|
        0 <= i < events.len() && (#[trigger] events[i]).fields.contains_key(field) implies {
        let value = events[i].fields[field];
        &&& value is Number
        &&& place(least) <= place(value->Number_0) <= place(greatest)
        &&& !query::compares(ComparisonOp::Lt, value, ValueView::Number(least))
        &&& !query::compares(ComparisonOp::Gt, value, ValueView::Number(greatest))
    } by {
        let j = lemma_value_of_an_event(events, field, i);
        assert(values[j] is Number);
        assert(numbers[j] == values[j]->Number_0);
        assert(binary32::total_key(least) <= binary32::total_key(numbers[j]));
        assert(binary32::total_key(numbers[j]) <= binary32::total_key(greatest));
    }
    let a = numbers.index_of(least);
    let b = numbers.index_of(greatest);
    assert(values[a] is Number && values[b] is Number);
    assert(numbers[a] == least && numbers[b] == greatest);
    let i = lemma_event_of_a_value(events, field, a);
    assert(events[i].fields.contains_pair(field, ValueView::Number(least)));
    let i = lemma_event_of_a_value(events, field, b);
    assert(events[i].fields.contains_pair(field, ValueView::Number(greatest)));
}

/// An aggregation has one answer at most.
#[verifier::spinoff_prover]
pub proof fn law_answers_are_unique(
    events: Seq<EventView>,
    plan: PlanView,
    a: Result<ResultView, AggregationErrorView>,
    b: Result<ResultView, AggregationErrorView>,
)
    requires
        index::answers(events, plan, a),
        index::answers(events, plan, b),
    ensures
        a == b,
{
    match plan.aggregation {
        Some(AggregationView::Min(field)) => {
            if let Ok(numbers) = index::field_numbers(events, field) {
                let x = a->Ok_0->Scalar_0;
                let y = b->Ok_0->Scalar_0;
                assert(numbers[numbers.index_of(x)] == x && numbers[numbers.index_of(y)] == y);
            }
        },
        Some(AggregationView::Max(field)) => {
            if let Ok(numbers) = index::field_numbers(events, field) {
                let x = a->Ok_0->Scalar_0;
                let y = b->Ok_0->Scalar_0;
                assert(numbers[numbers.index_of(x)] == x && numbers[numbers.index_of(y)] == y);
            }
        },
        Some(AggregationView::Percentage(field, p)) => {
            if !index::is_invalid_fraction(p) && index::field_numbers(events, field) is Ok {
                let numbers = index::field_numbers(events, field)->Ok_0;
                let rank = arithmetic::percentile_rank(p as int, numbers.len());
                let x = a->Ok_0->Scalar_0;
                let y = b->Ok_0->Scalar_0;
                let s = choose|s: Seq<u32>| #[trigger]
                    index::is_sorted_copy(s, numbers) && 0 <= rank < s.len() && x == s[rank];
                let t = choose|t: Seq<u32>| #[trigger]
                    index::is_sorted_copy(t, numbers) && 0 <= rank < t.len() && y == t[rank];
                index_laws::lemma_sorted_copies_agree(s, t, numbers);
            }
        },
        _ => {},
    }
}

/// One more number is added to the sum, rounded.
pub proof fn law_sums_grow_number_by_number(
    events: Seq<EventView>,
    event: EventView,
    plan: PlanView,
    field: Seq<char>,
    n: u32,
    before: u32,
    after: u32,
)
    requires
        event.fields.contains_pair(field, ValueView::Number(n)),
        index_laws::gives(events, plan, AggregationView::Sum(field), before),
        index_laws::gives(events.push(event), plan, AggregationView::Sum(field), after),
    ensures
        arithmetic::is_sum(before, n, after),
{
    let all = events.push(event);
    assert(all.drop_last() =~= events);
    let numbers = index::field_numbers(events, field)->Ok_0;
    let more = index::field_numbers(all, field)->Ok_0;
    assert(index::field_numbers(events, field) is Ok && index::field_numbers(all, field) is Ok);
    assert(more =~= numbers.push(n));
    assert(more.drop_last() =~= numbers);
    arithmetic::law_sum_is_rounded(before, n, after);
}

/// A number that is the only one of a field, and no NaN, is its sum, its average, its minimum, its
/// maximum, and each of its percentiles.
#[verifier::spinoff_prover]
pub proof fn law_one_number_is_all_it_comes_to(
    event: EventView,
    plan: PlanView,
    aggregation: AggregationView,
    field: Seq<char>,
    n: u32,
    answer: Result<ResultView, AggregationErrorView>,
)
    requires
        event.fields.contains_pair(field, ValueView::Number(n)),
        n as int % 0x8000_0000 <= 0x7f80_0000,
        is_of_numbers(aggregation, field),
        comes_to(seq![event], plan, aggregation, answer),
    ensures
        answer == Ok::<_, AggregationErrorView>(ResultView::Scalar(n)),
{
    let events = seq![event];
    let one = seq![n];
    assert(events.drop_last() =~= Seq::<EventView>::empty());
    reveal_with_fuel(index::field_values, 2);
    assert(index::field_values(events, field) =~= seq![ValueView::Number(n)]);
    let numbers = index::field_numbers(events, field)->Ok_0;
    assert(numbers =~= one);
    assert(one.drop_last() =~= Seq::<u32>::empty());
    reveal_with_fuel(arithmetic::total, 2);
    number_laws::law_zero_adds_nothing(n);
    assert(arithmetic::total(one) == n);
    match aggregation {
        AggregationView::Average(_) => {
            lemma_one_divides_nothing(n);
            arithmetic::law_average_is_rounded(one, n);
        },
        AggregationView::Min(_) => {
            let x = answer->Ok_0->Scalar_0;
            assert(one[one.index_of(x)] == x);
        },
        AggregationView::Max(_) => {
            let x = answer->Ok_0->Scalar_0;
            assert(one[one.index_of(x)] == x);
        },
        AggregationView::Percentage(_, p) => {
            let x = answer->Ok_0->Scalar_0;
            let rank = arithmetic::percentile_rank(p as int, 1);
            arithmetic::law_ranks_are_in_bounds(p, 1);
            let sorted = choose|sorted: Seq<u32>| #[trigger]
                index::is_sorted_copy(sorted, one) && 0 <= rank < sorted.len() && x
                    == sorted[rank];
            index_laws::lemma_sorted_copy_holds(sorted, one, x);
            assert(sorted.contains(sorted[rank]));
            assert(one[one.index_of(x)] == x);
        },
        _ => {},
    }
}

/// Dividing by one changes nothing.
proof fn lemma_one_divides_nothing(n: u32)
    requires
        n as int % 0x8000_0000 <= 0x7f80_0000,
    ensures
        arithmetic::is_quotient(n, arithmetic::of_count(1), n),
{
    let k = binary32::magnitude(n);
    arithmetic::lemma_small_counts_are_exact(1);
    let d = vstd::arithmetic::power2::pow2(149);
    vstd::arithmetic::power2::lemma_pow2_pos(149);
    assert(1 * d == d);
    number_laws::lemma_nearest_is_there(rounding::units(k) * d, d, k);
}

/// How many of some numbers satisfy something does not depend on their order.
proof fn lemma_counted_in_any_order(a: Seq<u32>, b: Seq<u32>, pred: spec_fn(u32) -> bool)
    requires
        a.to_multiset() == b.to_multiset(),
    ensures
        a.filter(pred).len() == b.filter(pred).len(),
{
    lemma_counted_by_multiset(a, pred);
    lemma_counted_by_multiset(b, pred);
}

proof fn lemma_counted_by_multiset(s: Seq<u32>, pred: spec_fn(u32) -> bool)
    ensures
        s.filter(pred).len() == s.to_multiset().filter(pred).len(),
    decreases s.len(),
{
    broadcast use vstd::seq_lib::group_to_multiset_ensures;
    broadcast use vstd::multiset::group_multiset_axioms;

    reveal(Seq::filter);
    if s.len() == 0 {
        assert(s.to_multiset().filter(pred) =~= vstd::multiset::Multiset::<u32>::empty());
    } else {
        let front = s.drop_last();
        lemma_counted_by_multiset(front, pred);
        assert(s =~= front.push(s.last()));
        assert(s.to_multiset() =~= front.to_multiset().insert(s.last()));
        if pred(s.last()) {
            assert(s.to_multiset().filter(pred) =~= front.to_multiset().filter(pred).insert(
                s.last(),
            ));
        } else {
            assert(s.to_multiset().filter(pred) =~= front.to_multiset().filter(pred));
        }
    }
}

/// A filter that the first ones satisfy keeps those, and one that only the first ones may satisfy
/// keeps no more.
proof fn lemma_filter_of_the_first<T>(s: Seq<T>, pred: spec_fn(T) -> bool, n: int)
    requires
        0 <= n <= s.len(),
    ensures
        (forall|i: int| 0 <= i < n ==> pred(#[trigger] s[i])) ==> s.filter(pred).len() >= n,
        (forall|i: int| n <= i < s.len() ==> !pred(#[trigger] s[i])) ==> s.filter(pred).len() <= n,
{
    let a = s.take(n);
    let b = s.skip(n);
    assert(s =~= a + b);
    Seq::filter_distributes_over_add(a, b, pred);
    lemma_full_filter(a, pred);
    if forall|i: int| 0 <= i < n ==> pred(#[trigger] s[i]) {
        assert forall|i: int| 0 <= i < a.len() implies pred(#[trigger] a[i]) by {
            assert(pred(s[i]));
        }
    }
    if forall|i: int| n <= i < s.len() ==> !pred(#[trigger] s[i]) {
        assert forall|i: int| 0 <= i < b.len() implies !pred(#[trigger] b[i]) by {
            assert(!pred(s[n + i]));
        }
        assert(b.filter(pred).len() == 0) by {
            if b.filter(pred).len() > 0 {
                b.lemma_filter_pred(pred, 0);
                let x = b.filter(pred)[0];
                assert(b.filter(pred).contains(x));
                b.lemma_filter_contains_rev(pred, x);
                assert(!pred(b[b.index_of(x)]));
            }
        }
    }
}

/// The Nth percentile splits the numbers, of which there are at most 2^14, by their place in the
/// order: at least N in a hundred are at or below it, and at most N in a hundred are below it.
#[verifier::spinoff_prover]
pub proof fn law_percentiles_split_the_numbers(
    events: Seq<EventView>,
    plan: PlanView,
    field: Seq<char>,
    n: nat,
    percentile: u32,
)
    requires
        1 <= n <= 100,
        index::field_numbers(events, field)->Ok_0.len() <= 0x4000,
        index_laws::gives(
            events,
            plan,
            AggregationView::Percentage(field, arithmetic::fraction(n) as u32),
            percentile,
        ),
    ensures
        ({
            let numbers = index::field_numbers(events, field)->Ok_0;
            let up_to = numbers.filter(|x: u32| place(x) <= place(percentile));
            let below = numbers.filter(|x: u32| place(x) < place(percentile));
            &&& numbers.contains(percentile)
            &&& 100 * up_to.len() >= n * numbers.len()
            &&& 100 * below.len() <= n * numbers.len()
        }),
{
    let p = arithmetic::fraction(n);
    arithmetic::lemma_fraction_bounds(n);
    assert(index::field_numbers(events, field) is Ok);
    let numbers = index::field_numbers(events, field)->Ok_0;
    let rank = arithmetic::percentile_rank(p, numbers.len());
    let sorted = choose|sorted: Seq<u32>| #[trigger]
        index::is_sorted_copy(sorted, numbers) && 0 <= rank < sorted.len() && percentile
            == sorted[rank];
    index_laws::lemma_sorted_copy_holds(sorted, numbers, percentile);
    assert(sorted.contains(sorted[rank]));
    number_laws::law_percentiles_are_of_the_nearest_rank(n, numbers.len());
    let at_most = |x: u32| place(x) <= place(percentile);
    let less = |x: u32| place(x) < place(percentile);
    assert forall|i: int| 0 <= i < rank + 1 implies at_most(#[trigger] sorted[i]) by {
        assert(binary32::total_key(sorted[i]) <= binary32::total_key(sorted[rank]));
    }
    assert forall|i: int| rank <= i < sorted.len() implies !less(#[trigger] sorted[i]) by {
        assert(binary32::total_key(sorted[rank]) <= binary32::total_key(sorted[i]));
    }
    lemma_filter_of_the_first(sorted, at_most, rank + 1);
    lemma_filter_of_the_first(sorted, less, rank);
    lemma_counted_in_any_order(sorted, numbers, at_most);
    lemma_counted_in_any_order(sorted, numbers, less);
}

/// A limit or none: a plan without an aggregation gives the matching events themselves, in their
/// order; the first so many, the last so many, or all.
pub proof fn law_plans_without_aggregation_give_events(
    events: Seq<EventView>,
    plan: PlanView,
    n: usize,
    all: Result<ResultView, AggregationErrorView>,
    head: Result<ResultView, AggregationErrorView>,
    tail: Result<ResultView, AggregationErrorView>,
)
    requires
        index::answers(events, PlanView { aggregation: None, limit: None, ..plan }, all),
        index::answers(
            events,
            PlanView { aggregation: None, limit: Some(Limit::Head(n)), ..plan },
            head,
        ),
        index::answers(
            events,
            PlanView { aggregation: None, limit: Some(Limit::Tail(n)), ..plan },
            tail,
        ),
    ensures
        all == Ok::<_, AggregationErrorView>(ResultView::Events(events)),
        ({
            let kept = if n < events.len() {
                n as int
            } else {
                events.len() as int
            };
            &&& head == Ok::<_, AggregationErrorView>(ResultView::Events(events.take(kept)))
            &&& tail == Ok::<_, AggregationErrorView>(
                ResultView::Events(events.skip(events.len() - kept)),
            )
        }),
{
    index_laws::law_limits_keep_the_ends(events, n);
}

/// Numbers are sorted by their place in the order of all of them.
pub proof fn law_numbers_are_sorted_by_place(a: u32, b: u32)
    ensures
        binary32::total_key(a) <= binary32::total_key(b) <==> place(a) <= place(b),
        binary32::total_rank(a) <= binary32::total_rank(b) <==> place(a) <= place(b),
{
}

} // verus!
