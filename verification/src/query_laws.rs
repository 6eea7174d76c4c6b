//! Laws of filters: how comparisons relate, what makes a filter match an event, and which events a
//! filter gives.

use crate::event::EventView;
use crate::index;
use crate::index::Index;
use crate::query;
use crate::query::{ComparisonOp, Query, QueryView};
use crate::sort;
use crate::text;
use crate::time::Instant;
use crate::value;
use crate::value::ValueView;
use std::cmp::Ordering;
use vstd::prelude::*;

verus! {

/// The comparison of a field with a value.
pub open spec fn comparison(field: Seq<char>, op: ComparisonOp, value: ValueView) -> QueryView {
    QueryView::FieldComparison { field, op, value }
}

/// `=` holds between a value and itself, and between no other two, of whatever type; `!=` holds
/// exactly where `=` does not.
pub proof fn law_unequal_is_not_equal(a: ValueView, b: ValueView)
    ensures
        query::compares(ComparisonOp::Eq, a, b) <==> a == b,
        query::compares(ComparisonOp::Ne, a, b) <==> !query::compares(ComparisonOp::Eq, a, b),
{
}

/// The two are not of one type, or one is a number that is not ordered: a NaN.
pub open spec fn unordered(a: ValueView, b: ValueView) -> bool {
    match (a, b) {
        (ValueView::String(_), ValueView::String(_)) => false,
        (ValueView::Bool(_), ValueView::Bool(_)) => false,
        (ValueView::Number(x), ValueView::Number(y)) => x as int % 0x8000_0000 > 0x7f80_0000
            || y as int % 0x8000_0000 > 0x7f80_0000,
        _ => true,
    }
}

/// `<` and `>` are each other's mirror, and so are `<=` and `>=`. Of two values that are ordered,
/// exactly one of `<` and `>=` holds, and exactly one of `>` and `<=`; not both of `<` and `>` do,
/// and a value is at least and at most itself. Of two that are not, none of the four holds.
pub proof fn law_comparisons_mirror_one_another(a: ValueView, b: ValueView)
    ensures
        query::compares(ComparisonOp::Lt, a, b) <==> query::compares(ComparisonOp::Gt, b, a),
        query::compares(ComparisonOp::Le, a, b) <==> query::compares(ComparisonOp::Ge, b, a),
        !(query::compares(ComparisonOp::Lt, a, b) && query::compares(ComparisonOp::Gt, a, b)),
        if unordered(a, b) {
            &&& !query::compares(ComparisonOp::Lt, a, b)
            &&& !query::compares(ComparisonOp::Le, a, b)
            &&& !query::compares(ComparisonOp::Gt, a, b)
            &&& !query::compares(ComparisonOp::Ge, a, b)
        } else {
            &&& query::compares(ComparisonOp::Ge, a, b) <==> !query::compares(
                ComparisonOp::Lt,
                a,
                b,
            )
            &&& query::compares(ComparisonOp::Le, a, b) <==> !query::compares(
                ComparisonOp::Gt,
                a,
                b,
            )
            &&& a == b ==> query::compares(ComparisonOp::Le, a, b)
        },
{
    if let (ValueView::String(x), ValueView::String(y)) = (a, b) {
        lemma_before_is_lexicographic(x, y);
        lemma_before_is_lexicographic(y, x);
        lemma_first_difference(x, y);
    }
}

/// Whether two texts are alike up to a position, at which the first ends or has the lower character.
pub open spec fn lower_at(a: Seq<char>, b: Seq<char>, k: int) -> bool {
    &&& 0 <= k <= a.len()
    &&& k < b.len()
    &&& a.take(k) == b.take(k)
    &&& k == a.len() || a[k] < b[k]
}

/// Two texts differ somewhere first, or are the same.
proof fn lemma_first_difference(a: Seq<char>, b: Seq<char>)
    ensures
        a != b ==> (exists|k: int| lower_at(a, b, k)) || (exists|k: int| lower_at(b, a, k)),
        forall|j: int, k: int| lower_at(a, b, j) ==> !lower_at(b, a, k),
    decreases a.len(),
{
    assert forall|j: int, k: int| lower_at(a, b, j) implies !lower_at(b, a, k) by {
        if lower_at(b, a, k) {
            if j < k {
                assert(a.take(k)[j] == b.take(k)[j]);
            } else if k < j {
                assert(a.take(j)[k] == b.take(j)[k]);
            }
        }
    }
    if a.len() == 0 {
        if b.len() > 0 {
            assert(a.take(0) =~= b.take(0));
            assert(lower_at(a, b, 0));
        } else {
            assert(a =~= b);
        }
    } else if b.len() == 0 {
        assert(a.take(0) =~= b.take(0));
        assert(lower_at(b, a, 0));
    } else if a[0] != b[0] {
        assert(a.take(0) =~= b.take(0));
        assert(lower_at(a, b, 0) || lower_at(b, a, 0));
    } else {
        let x = a.skip(1);
        let y = b.skip(1);
        lemma_first_difference(x, y);
        if a != b {
            assert(x != y) by {
                if x == y {
                    assert(a =~= seq![a[0]] + x);
                    assert(b =~= seq![b[0]] + y);
                }
            }
            if exists|k: int| lower_at(x, y, k) {
                let k = choose|k: int| lower_at(x, y, k);
                lemma_lower_further_on(a, b, k);
            } else {
                let k = choose|k: int| lower_at(y, x, k);
                lemma_lower_further_on(b, a, k);
            }
        }
    }
}

/// A difference past the first character.
proof fn lemma_lower_further_on(a: Seq<char>, b: Seq<char>, k: int)
    requires
        a.len() > 0,
        b.len() > 0,
        a[0] == b[0],
        lower_at(a.skip(1), b.skip(1), k),
    ensures
        lower_at(a, b, k + 1),
{
    let x = a.take(k + 1);
    let y = b.take(k + 1);
    assert forall|i: int| 0 <= i < k + 1 implies #[trigger] x[i] == y[i] by {
        if i > 0 {
            assert(a.skip(1).take(k)[i - 1] == b.skip(1).take(k)[i - 1]);
        }
    }
    assert(x =~= y);
}

/// Comparing text character by character is to look for the first difference.
proof fn lemma_before_is_lexicographic(a: Seq<char>, b: Seq<char>)
    ensures
        text::text_before(a, b) <==> exists|k: int| lower_at(a, b, k),
    decreases a.len(),
{
    if b.len() == 0 {
    } else if a.len() == 0 {
        assert(a.take(0) =~= b.take(0));
        assert(lower_at(a, b, 0));
    } else if a[0] != b[0] {
        if a[0] < b[0] {
            assert(a.take(0) =~= b.take(0));
            assert(lower_at(a, b, 0));
        }
        assert forall|k: int| lower_at(a, b, k) implies k == 0 by {
            if k > 0 {
                assert(a.take(k)[0] == b.take(k)[0]);
            }
        }
    } else {
        let x = a.skip(1);
        let y = b.skip(1);
        lemma_before_is_lexicographic(x, y);
        if exists|k: int| lower_at(x, y, k) {
            let k = choose|k: int| lower_at(x, y, k);
            lemma_lower_further_on(a, b, k);
        }
        if exists|k: int| lower_at(a, b, k) {
            let k = choose|k: int| lower_at(a, b, k);
            assert(k > 0);
            let u = x.take(k - 1);
            let v = y.take(k - 1);
            assert forall|i: int| 0 <= i < k - 1 implies #[trigger] u[i] == v[i] by {
                assert(a.take(k)[i + 1] == b.take(k)[i + 1]);
            }
            assert(u =~= v);
            assert(lower_at(x, y, k - 1));
        }
    }
}

/// A string is less than another if, where they first differ, it ends or has the lower character.
pub proof fn law_strings_compare_at_the_first_difference(a: Seq<char>, b: Seq<char>)
    ensures
        query::compares(ComparisonOp::Lt, ValueView::String(a), ValueView::String(b)) <==> exists|
            k: int,
        |
            lower_at(a, b, k),
{
    lemma_before_is_lexicographic(a, b);
}

/// `false` is less than `true`, and nothing else is among booleans.
pub proof fn law_false_is_less_than_true(a: bool, b: bool)
    ensures
        query::compares(ComparisonOp::Lt, ValueView::Bool(a), ValueView::Bool(b)) <==> !a && b,
{
}

/// Numbers compare by what they are worth: those without a sign as their bits do, those with one the
/// other way round, and one with a sign is less than one without, but for the two zeros, neither of
/// which is less than the other.
pub proof fn law_numbers_compare_by_value(a: u32, b: u32)
    requires
        a <= 0x7f80_0000,
        b <= 0x7f80_0000,
    ensures
        ({
            let x = ValueView::Number(a);
            let y = ValueView::Number(b);
            let minus_x = ValueView::Number((a + 0x8000_0000) as u32);
            let minus_y = ValueView::Number((b + 0x8000_0000) as u32);
            &&& query::compares(ComparisonOp::Lt, x, y) <==> a < b
            &&& query::compares(ComparisonOp::Lt, minus_x, minus_y) <==> b < a
            &&& query::compares(ComparisonOp::Lt, minus_x, y) <==> a > 0 || b > 0
            &&& !query::compares(ComparisonOp::Lt, x, minus_y)
        }),
{
}

/// `<` and `<=` are transitive, together too.
pub proof fn law_comparisons_are_transitive(a: ValueView, b: ValueView, c: ValueView)
    ensures
        query::compares(ComparisonOp::Le, a, b) && query::compares(ComparisonOp::Le, b, c) ==> {
            &&& query::compares(ComparisonOp::Le, a, c)
            &&& query::compares(ComparisonOp::Lt, a, b) || query::compares(ComparisonOp::Lt, b, c)
                ==> query::compares(ComparisonOp::Lt, a, c)
        },
{
    if let (ValueView::String(x), ValueView::String(y)) = (a, b) {
        if let ValueView::String(z) = c {
            lemma_before_is_transitive(x, y, z);
        }
    }
}

proof fn lemma_before_is_transitive(a: Seq<char>, b: Seq<char>, c: Seq<char>)
    ensures
        text::text_before(a, b) && text::text_before(b, c) ==> text::text_before(a, c),
    decreases a.len(),
{
    if a.len() > 0 && b.len() > 0 && c.len() > 0 {
        lemma_before_is_transitive(a.skip(1), b.skip(1), c.skip(1));
    }
}

/// `~` holds between two strings exactly where the first is something, the second, and something
/// again; between values of which one is no string it never holds.
pub proof fn law_a_search_finds_every_part(candidate: ValueView, given: ValueView)
    ensures
        query::compares(ComparisonOp::Contains, candidate, given) <==> (candidate matches
            ValueView::String(hay) && given matches ValueView::String(needle) && exists|
            before: Seq<char>,
            after: Seq<char>,
        |
            hay == #[trigger] (before + needle + after)),
{
    if let (ValueView::String(hay), ValueView::String(needle)) = (candidate, given) {
        if text::occurs_in(needle, hay) {
            let i = choose|i: int|
                0 <= i && i + needle.len() <= hay.len() && #[trigger] hay.subrange(
                    i,
                    i + needle.len(),
                ) == needle;
            let before = hay.take(i);
            let after = hay.skip(i + needle.len());
            assert(hay =~= before + hay.subrange(i, i + needle.len()) + after);
            assert(hay == before + needle + after);
        }
        if exists|before: Seq<char>, after: Seq<char>| hay == #[trigger] (before + needle + after) {
            let (before, after) = choose|before: Seq<char>, after: Seq<char>|
                hay == #[trigger] (before + needle + after);
            let i = before.len() as int;
            assert(hay.subrange(i, i + needle.len()) =~= needle);
        }
    }
}

/// A comparison with a field never matches an event that lacks it, looks at nothing else of an event
/// that has it, and holds or not as it would of the value alone: the same for every event, wherever
/// it stands, and whatever its other fields, its time and its line are.
pub proof fn law_comparisons_look_at_their_field_alone(
    field: Seq<char>,
    op: ComparisonOp,
    value: ValueView,
    event: EventView,
)
    ensures
        ({
            let matched = query::selects(comparison(field, op, value), event);
            &&& !event.fields.contains_key(field) ==> !matched
            &&& event.fields.contains_key(field) ==> (matched <==> query::compares(
                op,
                event.fields[field],
                value,
            ))
        }),
{
}

/// Among the events that have a field, `=` and `!=` share them out with none left over, and so do `<`
/// and `>=`, and `>` and `<=`, where all are ordered with the value.
pub proof fn law_opposites_share_the_events(
    events: Seq<EventView>,
    field: Seq<char>,
    value: ValueView,
)
    ensures
        ({
            let having = events.filter(|e: EventView| e.fields.contains_key(field));
            let found = |op: ComparisonOp| index::selected(
                events,
                comparison(field, op, value),
            ).len();
            &&& found(ComparisonOp::Eq) + found(ComparisonOp::Ne) == having.len()
            &&& (forall|i: int|
                0 <= i < having.len() ==> !unordered((#[trigger] having[i]).fields[field], value))
                ==> {
                &&& found(ComparisonOp::Lt) + found(ComparisonOp::Ge) == having.len()
                &&& found(ComparisonOp::Gt) + found(ComparisonOp::Le) == having.len()
            }
        }),
    decreases events.len(),
{
    reveal(Seq::filter);
    if events.len() > 0 {
        let front = events.drop_last();
        let last = events.last();
        let has = |e: EventView| e.fields.contains_key(field);
        law_opposites_share_the_events(front, field, value);
        let shorter = front.filter(has);
        let having = events.filter(has);
        if forall|i: int|
            0 <= i < having.len() ==> !unordered((#[trigger] having[i]).fields[field], value) {
            assert forall|i: int| 0 <= i < shorter.len() implies !unordered(
                (#[trigger] shorter[i]).fields[field],
                value,
            ) by {
                assert(having[i] == shorter[i]);
            }
            if has(last) {
                assert(having[shorter.len() as int] == last);
            }
        }
        if has(last) {
            law_comparisons_mirror_one_another(last.fields[field], value);
        }
    }
}

/// A time range matches the events stamped no earlier than its start and no later than its end, by
/// seconds and then by nanoseconds; none that has no time.
pub proof fn law_time_ranges_hold_what_lies_between(
    start: Option<Instant>,
    end: Option<Instant>,
    event: EventView,
)
    requires
        start matches Some(s) ==> s.valid(),
        end matches Some(e) ==> e.valid(),
        event.valid(),
    ensures
        query::selects(QueryView::TimeRange { start, end }, event) <==> (event.timestamp matches
            Some(t) && (start matches Some(s) ==> (s.secs < t.secs || s.secs == t.secs && s.nanos
            <= t.nanos)) && (end matches Some(e) ==> (t.secs < e.secs || t.secs == e.secs
            && t.nanos <= e.nanos))),
{
}

/// A conjunction matches what each of its parts matches, a disjunction what any does; one without
/// parts matches everything, and nothing. To ask for all matches everything.
pub proof fn law_parts_decide(parts: Seq<QueryView>, event: EventView)
    ensures
        query::selects(QueryView::And(parts), event) <==> forall|i: int|
            0 <= i < parts.len() ==> query::selects(#[trigger] parts[i], event),
        query::selects(QueryView::Or(parts), event) <==> exists|i: int|
            0 <= i < parts.len() && query::selects(#[trigger] parts[i], event),
        query::selects(QueryView::All, event),
{
    assert(QueryView::And(parts)->And_0 == parts && QueryView::Or(parts)->Or_0 == parts);
}

/// A filter is run over events one by one: it gives each that it matches once, in the order in which
/// they came, and what it gives of some events and then others is what it gives of all.
pub proof fn law_events_are_matched_one_by_one(
    first: Seq<EventView>,
    second: Seq<EventView>,
    event: EventView,
    filter: QueryView,
)
    ensures
        index::selected(first + second, filter) == index::selected(first, filter)
            + index::selected(second, filter),
        index::selected(seq![event], filter) == if query::selects(filter, event) {
            seq![event]
        } else {
            Seq::empty()
        },
{
    let pred = |e: EventView| query::selects(filter, e);
    Seq::filter_distributes_over_add(first, second, pred);
    reveal(Seq::filter);
    let one = seq![event];
    assert(one.drop_last() =~= Seq::<EventView>::empty());
    assert(one.drop_last().filter(pred) =~= Seq::<EventView>::empty());
    assert(index::selected(one, filter) =~= if query::selects(filter, event) {
        seq![event]
    } else {
        Seq::empty()
    });
}

/// Values are ordered as filters compare them: less, greater, or, where both `<=` and `>=` hold,
/// equal; where neither holds they are not ordered.
pub proof fn law_values_are_ordered_as_they_compare(a: ValueView, b: ValueView)
    ensures
        value::value_order(a, b) == Some(Ordering::Less) <==> query::compares(
            ComparisonOp::Lt,
            a,
            b,
        ),
        value::value_order(a, b) == Some(Ordering::Greater) <==> query::compares(
            ComparisonOp::Lt,
            b,
            a,
        ),
        value::value_order(a, b) == Some(Ordering::Equal) <==> query::compares(
            ComparisonOp::Le,
            a,
            b,
        ) && query::compares(ComparisonOp::Le, b, a),
        value::value_order(a, b) is None <==> unordered(a, b),
{
    law_comparisons_mirror_one_another(a, b);
}

/// Positions that ascend and are found by a filter are those of the events that it gives, in their
/// order.
pub proof fn law_positions_are_those_of_the_events(
    index: Index,
    filter: QueryView,
    positions: Seq<usize>,
)
    requires
        index.finds(positions, filter),
        sort::strictly_ascending(positions),
    ensures
        index::selected(index.view(), filter) == positions.map_values(
            |p: usize| index.view()[p as int],
        ),
{
    let views = index.view();
    let chosen = positions.map_values(|p: usize| views[p as int]);
    assert forall|j: int| 0 <= j < positions.len() implies #[trigger] positions[j] < views.len() by {
        assert(positions.contains(positions[j]));
    }
    assert forall|p: int| 0 <= p < views.len() && query::selects(filter, #[trigger] views[p]) implies
        exists|j: int| 0 <= j < positions.len() && #[trigger] positions[j] == p by {
        assert(views.len() <= usize::MAX) by {
            assert(views.len() == index.events@.len());
            assert(index.events.len() == index.events@.len());
        }
        assert(positions.contains(p as usize));
        let j = positions.index_of(p as usize);
        assert(positions[j] == p);
    }
    assert forall|j: int| 0 <= j < chosen.len() implies query::selects(
        filter,
        #[trigger] chosen[j],
    ) by {
        assert(positions.contains(positions[j]));
    }
    index::lemma_filter_by_positions(
        views,
        |e: EventView| query::selects(filter, e),
        positions,
        chosen,
    );
}

/// A filter is seen as what it holds, part by part.
pub proof fn law_filters_are_seen_as_they_are(filter: Query)
    ensures
        filter matches Query::FieldComparison { field, op, value } ==> filter@ == comparison(
            field@,
            op,
            value@,
        ),
        filter matches Query::TimeRange { start, end } ==> (filter@ matches QueryView::TimeRange {
            start: s,
            end: e,
        } && (start is None <==> s is None) && (end is None <==> e is None) && (start matches Some(
            t,
        ) ==> s == Some(t@)) && (end matches Some(t) ==> e == Some(t@))),
        filter matches Query::And(parts) ==> (filter@ matches QueryView::And(views) && views.len()
            == parts@.len() && forall|i: int|
            0 <= i < parts@.len() ==> #[trigger] views[i] == parts@[i]@),
        filter matches Query::Or(parts) ==> (filter@ matches QueryView::Or(views) && views.len()
            == parts@.len() && forall|i: int|
            0 <= i < parts@.len() ==> #[trigger] views[i] == parts@[i]@),
        filter matches Query::Not(inner) ==> filter@ == QueryView::Not(Box::new((*inner)@)),
        filter is All ==> filter@ is All,
{
    match filter {
        Query::And(parts) => query::lemma_query_views(parts@),
        Query::Or(parts) => query::lemma_query_views(parts@),
        _ => {},
    }
}

} // verus!
