//! Laws of the query language: what the operators, the times and the stages of a query ask for.

use crate::arithmetic;
use crate::decimal;
use crate::event::EventView;
use crate::grammar;
use crate::grammar::Context;
use crate::grammar_laws;
use crate::index_laws;
use crate::json::JsonView;
use crate::line_laws;
use crate::literal;
use crate::narrowing;
use crate::parser;
use crate::phrases;
use crate::phrases::Phrase;
use crate::query;
use crate::query::{AggregationView, ComparisonOp, Limit, PlanView, QueryView};
use crate::query_laws;
use crate::tailer;
use crate::text;
use crate::time;
use crate::time::{Instant, Timestamp};
use crate::value;
use crate::value::ValueView;
use vstd::arithmetic::power2::pow2;
use vstd::prelude::*;

verus! {

/// Whether a token can be the field of a comparison that a query starts with.
pub open spec fn is_field_name(token: Seq<char>) -> bool {
    token != "("@ && token != "NOT"@ && token != "|"@
}

/// The plan of a query that is a comparison alone.
pub open spec fn asks(
    field: Seq<char>,
    operator: Seq<char>,
    token: Seq<char>,
    context: Context,
) -> Result<PlanView, grammar::ErrorView> {
    grammar::plan_of(seq![field, operator, token], context)
}

/// The plan that is a filter alone.
pub open spec fn plain(query: QueryView) -> PlanView {
    PlanView { query, aggregation: None, limit: None }
}

/// A query that is a comparison alone is read as one.
proof fn lemma_asks(field: Seq<char>, operator: Seq<char>, token: Seq<char>, context: Context)
    requires
        is_field_name(field),
    ensures
        asks(field, operator, token, context) == match grammar::simple(
            seq![field, operator, token],
            0,
            context,
        ) {
            Ok((query, _)) => Ok::<_, grammar::ErrorView>(plain(query)),
            Err(e) => Err(e),
        },
{
    let tokens = seq![field, operator, token];
    let none = Seq::<Seq<char>>::empty();
    if grammar::simple(tokens, 0, context) is Ok {
        let phrase = Phrase::Comparison(field, operator, token);
        assert(phrases::written(phrase) == tokens);
        assert(phrases::written(phrase) + none =~= tokens);
        phrases::law_filters_are_read_as_written(phrase, none, context);
    } else {
        assert(!grammar::token_is(tokens, 0, "("@));
        assert(!grammar::token_is(tokens, 0, "NOT"@));
        assert(grammar::leading_nots(tokens, 0) == 0);
        let e = grammar::simple(tokens, 0, context)->Err_0;
        assert(grammar::primary(tokens, 0, 0, context) == Err::<(QueryView, int), _>(e));
        assert(grammar::negation(tokens, 0, 0, context) == Err::<(QueryView, int), _>(e));
        assert(grammar::conjunction(tokens, 0, 0, context) == Err::<(QueryView, int), _>(e));
        assert(grammar::disjunction(tokens, 0, 0, context) == Err::<(QueryView, int), _>(e));
    }
}

/// The operators are told apart by how they are written.
proof fn lemma_operators_differ()
    ensures
        "="@ != "!="@ && "="@ != "<"@ && "="@ != "<="@ && "="@ != ">"@ && "="@ != ">="@ && "="@
            != "~"@,
        "!="@ != "<"@ && "!="@ != "<="@ && "!="@ != ">"@ && "!="@ != ">="@ && "!="@ != "~"@,
        "<"@ != "<="@ && "<"@ != ">"@ && "<"@ != ">="@ && "<"@ != "~"@,
        "<="@ != ">"@ && "<="@ != ">="@ && "<="@ != "~"@,
        ">"@ != ">="@ && ">"@ != "~"@ && ">="@ != "~"@,
{
    reveal_strlit("=");
    reveal_strlit("!=");
    reveal_strlit("<");
    reveal_strlit("<=");
    reveal_strlit(">");
    reveal_strlit(">=");
    reveal_strlit("~");
    assert("="@[0] != "<"@[0] && "="@[0] != ">"@[0] && "="@[0] != "~"@[0]);
    assert("<"@[0] != ">"@[0] && "<"@[0] != "~"@[0] && ">"@[0] != "~"@[0]);
    assert("!="@[0] != "<="@[0] && "!="@[0] != ">="@[0] && "<="@[0] != ">="@[0]);
    assert("="@.len() == 1 && "<"@.len() == 1 && ">"@.len() == 1 && "~"@.len() == 1);
    assert("!="@.len() == 2 && "<="@.len() == 2 && ">="@.len() == 2);
}

/// Which operator each one that is written denotes.
proof fn lemma_operators()
    ensures
        grammar::operator("="@) == Some(ComparisonOp::Eq),
        grammar::operator("!="@) == Some(ComparisonOp::Ne),
        grammar::operator("<"@) == Some(ComparisonOp::Lt),
        grammar::operator("<="@) == Some(ComparisonOp::Le),
        grammar::operator(">"@) == Some(ComparisonOp::Gt),
        grammar::operator(">="@) == Some(ComparisonOp::Ge),
        grammar::operator("~"@) == Some(ComparisonOp::Contains),
{
    lemma_operators_differ();
}

/// A query that is a comparison with an operator.
proof fn lemma_asks_with(
    field: Seq<char>,
    operator: Seq<char>,
    token: Seq<char>,
    context: Context,
    op: ComparisonOp,
)
    requires
        is_field_name(field),
        context.time_field != Some(field),
        grammar::operator(operator) == Some(op),
    ensures
        asks(field, operator, token, context) == Ok::<_, grammar::ErrorView>(
            plain(
                QueryView::FieldComparison { field, op, value: grammar::operand(op, token) },
            ),
        ),
{
    lemma_asks(field, operator, token, context);
}

/// Whether a query that is a comparison matches an event, with no stage behind it.
pub open spec fn finds(
    field: Seq<char>,
    operator: Seq<char>,
    token: Seq<char>,
    context: Context,
    event: EventView,
) -> bool {
    let plan = asks(field, operator, token, context);
    &&& plan == Ok::<_, grammar::ErrorView>(plain(plan->Ok_0.query))
    &&& query::selects(plan->Ok_0.query, event)
}

/// A query that compares a field asks for the events that have the field, with a value that stands so
/// to the one that is given: `=` and `!=` for the value itself and for every other, `<`, `<=`, `>` and
/// `>=` for those that come before or after it, and `~` for the strings that it is a part of, always
/// taken as it is written. Every other operator is refused.
#[verifier::spinoff_prover]
pub proof fn law_operators_ask_for_what_they_say(
    field: Seq<char>,
    operator: Seq<char>,
    token: Seq<char>,
    context: Context,
    event: EventView,
)
    requires
        is_field_name(field),
        context.time_field != Some(field),
    ensures
        ({
            let has = event.fields.contains_key(field);
            let found = event.fields[field];
            let given = value::value_of_token(token);
            &&& finds(field, "="@, token, context, event) <==> has && found == given
            &&& finds(field, "!="@, token, context, event) <==> has && found != given
            &&& finds(field, "<"@, token, context, event) <==> has && query::compares(
                ComparisonOp::Lt,
                found,
                given,
            )
            &&& finds(field, ">"@, token, context, event) <==> has && query::compares(
                ComparisonOp::Lt,
                given,
                found,
            )
            &&& finds(field, "<="@, token, context, event) <==> has && query::compares(
                ComparisonOp::Le,
                found,
                given,
            )
            &&& finds(field, ">="@, token, context, event) <==> has && query::compares(
                ComparisonOp::Le,
                given,
                found,
            )
            &&& finds(field, "~"@, token, context, event) <==> has && query::compares(
                ComparisonOp::Contains,
                found,
                ValueView::String(token),
            )
        }),
        operator != "="@ && operator != "!="@ && operator != "<"@ && operator != "<="@ && operator
            != ">"@ && operator != ">="@ && operator != "~"@ ==> asks(
            field,
            operator,
            token,
            context,
        ) == Err::<PlanView, _>(grammar::ErrorView::UnknownOperator(operator)),
{
    lemma_operators();
    lemma_asks_with(field, "="@, token, context, ComparisonOp::Eq);
    lemma_asks_with(field, "!="@, token, context, ComparisonOp::Ne);
    lemma_asks_with(field, "<"@, token, context, ComparisonOp::Lt);
    lemma_asks_with(field, "<="@, token, context, ComparisonOp::Le);
    lemma_asks_with(field, ">"@, token, context, ComparisonOp::Gt);
    lemma_asks_with(field, ">="@, token, context, ComparisonOp::Ge);
    lemma_asks_with(field, "~"@, token, context, ComparisonOp::Contains);
    lemma_asks(field, operator, token, context);
    let found = event.fields[field];
    let given = value::value_of_token(token);
    query_laws::law_comparisons_mirror_one_another(found, given);
    query_laws::law_comparisons_mirror_one_another(given, found);
}

/// A token is a number exactly if it reads as one, `true` and `false` are booleans, and every other
/// token stands for itself.
pub proof fn law_tokens_are_typed(token: Seq<char>)
    ensures
        value::value_of_token(token) is Number <==> literal::number_bits(token) is Some,
        value::value_of_token(token) == ValueView::Bool(true) <==> token == "true"@,
        value::value_of_token(token) == ValueView::Bool(false) <==> token == "false"@,
        value::value_of_token(token) is String ==> value::value_of_token(token)
            == ValueView::String(token),
{
    reveal_strlit("true");
    reveal_strlit("false");
    reveal_strlit("inf");
    reveal_strlit("infinity");
    reveal_strlit("nan");
    if token == "true"@ || token == "false"@ {
        let lower = token.map_values(|c: char| text::ascii_lowercase(c));
        assert(token[0] == 't' || token[0] == 'f');
        assert(lower[0] == token[0]);
        assert("inf"@[0] == 'i' && "infinity"@[0] == 'i' && "nan"@[0] == 'n');
        assert(!literal::spells(token, "inf"@));
        assert(!literal::spells(token, "infinity"@));
        assert(!literal::spells(token, "nan"@));
        assert(literal::leading_digits(token) == 0);
        assert(token.skip(0) =~= token);
        assert(literal::exponent_of(token) is None);
        assert(literal::literal_of(token) is None);
    }
    assert("true"@.len() != "false"@.len());
}

/// A number in a log is found by the query that asks for it: of a log line in which a name is last
/// that of a whole number, `name = number` matches the event, and `name != number` does not.
pub proof fn law_logged_numbers_are_found(
    line: Seq<char>,
    members: Seq<(Seq<char>, JsonView)>,
    i: int,
    bits: u64,
    n: nat,
    context: Context,
)
    requires
        0 <= i < members.len(),
        members[i].1 == JsonView::Number(Some(bits)),
        line_laws::is_last_scalar(members, members[i].0, i),
        bits < 0x7ff0_0000_0000_0000,
        narrowing::double_units(bits as int) == n * pow2(1074),
        is_field_name(members[i].0),
        context.time_field != Some(members[i].0),
    ensures
        ({
            let event = tailer::event_with(line, Some(members), context.time_field);
            let name = members[i].0;
            let number = decimal::decimal_text(n);
            &&& finds(name, "="@, number, context, event)
            &&& !finds(name, "!="@, number, context, event)
        }),
{
    let event = tailer::event_with(line, Some(members), context.time_field);
    let name = members[i].0;
    let number = decimal::decimal_text(n);
    line_laws::law_fields_are_the_scalar_members(line, members, context.time_field, name);
    line_laws::law_logged_numbers_are_those_of_queries(bits, n);
    assert(event.fields.contains_key(name)) by {
        assert(line_laws::is_scalar(members[i].1));
    }
    lemma_operators();
    lemma_asks_with(name, "="@, number, context, ComparisonOp::Eq);
    lemma_asks_with(name, "!="@, number, context, ComparisonOp::Ne);
}

/// A query that compares the time field with a time asks for the events stamped no earlier, with `>`,
/// or no later, with `<`: none that has no time. Every other operator is refused, and so is what is
/// no time.
pub proof fn law_time_bounds_ask_for_what_they_say(
    field: Seq<char>,
    operator: Seq<char>,
    token: Seq<char>,
    now: Instant,
    event: EventView,
)
    requires
        is_field_name(field),
        event.valid(),
        grammar::time_value(token, now) matches Some(t) ==> t.valid(),
    ensures
        ({
            let context = Context { time_field: Some(field), now };
            let from = asks(field, ">"@, token, context);
            let until = asks(field, "<"@, token, context);
            match grammar::time_value(token, now) {
                None => from is Err && until is Err,
                Some(t) => {
                    &&& from == Ok::<_, grammar::ErrorView>(plain(from->Ok_0.query))
                    &&& until == Ok::<_, grammar::ErrorView>(plain(until->Ok_0.query))
                    &&& query::selects(from->Ok_0.query, event) <==> (event.timestamp matches Some(
                        s,
                    ) && (t.secs < s.secs || t.secs == s.secs && t.nanos <= s.nanos))
                    &&& query::selects(until->Ok_0.query, event) <==> (event.timestamp matches Some(
                        s,
                    ) && (s.secs < t.secs || s.secs == t.secs && s.nanos <= t.nanos))
                },
            }
        }),
        operator != "<"@ && operator != ">"@ ==> asks(
            field,
            operator,
            token,
            Context { time_field: Some(field), now },
        ) == Err::<PlanView, _>(grammar::ErrorView::UnknownOperator(operator)),
{
    let context = Context { time_field: Some(field), now };
    lemma_operators_differ();
    lemma_asks(field, ">"@, token, context);
    lemma_asks(field, "<"@, token, context);
    lemma_asks(field, operator, token, context);
    if let Some(t) = grammar::time_value(token, now) {
        query_laws::law_time_ranges_hold_what_lies_between(Some(t), None, event);
        query_laws::law_time_ranges_hold_what_lies_between(None, Some(t), event);
    }
}

/// How many seconds a unit has: a second, a minute, an hour or a day.
pub open spec fn is_unit(unit: char, seconds: int) -> bool {
    ||| unit == 's' && seconds == 1
    ||| unit == 'm' && seconds == 60
    ||| unit == 'h' && seconds == 60 * 60
    ||| unit == 'd' && seconds == 24 * 60 * 60
}

/// `now` is the current time, and a minus sign, a number and a unit are the time so long before it,
/// wherever the calendar reaches back so far. Thus a minute ago is sixty seconds ago, an hour sixty
/// minutes, and a day twenty-four hours.
pub proof fn law_relative_times_count_back(n: nat, unit: char, seconds: int, now: Instant)
    requires
        now.valid(),
        now.nanos < 1_000_000_000,
        is_unit(unit, seconds),
    ensures
        grammar::time_value("now"@, now) == Some(now),
        ({
            let ago = seq!['-'] + decimal::decimal_text(n) + seq![unit];
            let then = grammar::time_value(ago, now);
            &&& then is Some <==> now.secs - n * seconds >= time::MIN_SECS
            &&& then matches Some(t) ==> t.secs == now.secs - n * seconds && t.nanos == now.nanos
        }),
{
    let digits = decimal::decimal_text(n);
    let ago = seq!['-'] + digits + seq![unit];
    decimal::lemma_decimal_text(n);
    reveal_strlit("now");
    assert(ago[0] == '-');
    assert("now"@[0] == 'n');
    assert(ago.subrange(1, ago.len() - 1) =~= digits);
    assert(ago.last() == unit);
    assert(grammar::seconds_ago(ago) == Some((n * seconds) as nat));
    assert(n * seconds >= 0) by (nonlinear_arith)
        requires
            seconds >= 1,
            n >= 0,
    ;
}

/// Whether a token is a minus sign, digits, and one of the four units.
pub open spec fn is_ago(token: Seq<char>) -> bool {
    &&& token.len() >= 3
    &&& token[0] == '-'
    &&& forall|i: int| 0 < i < token.len() - 1 ==> '0' <= (#[trigger] token[i]) <= '9'
    &&& exists|seconds: int| #[trigger] is_unit(token.last(), seconds)
}

/// Nothing else is a time: what is neither `now` nor a time ago is one in the RFC 3339 format, or
/// none.
pub proof fn law_nothing_else_is_a_time(token: Seq<char>, now: Instant)
    ensures
        grammar::seconds_ago(token) is Some <==> is_ago(token),
        token != "now"@ && !is_ago(token) ==> grammar::time_value(token, now)
            == time::rfc3339_instant(token),
{
    if token.len() >= 3 {
        let digits = token.subrange(1, token.len() - 1);
        if decimal::all_digits(digits) {
            assert forall|i: int| 0 < i < token.len() - 1 implies '0' <= (#[trigger] token[i])
                <= '9' by {
                assert(decimal::is_digit(digits[i - 1]));
            }
        }
        if forall|i: int| 0 < i < token.len() - 1 ==> '0' <= (#[trigger] token[i]) <= '9' {
            assert forall|i: int| 0 <= i < digits.len() implies decimal::is_digit(
                #[trigger] digits[i],
            ) by {
                assert('0' <= token[i + 1] <= '9');
            }
        }
        if let Some(seconds) = grammar::unit_seconds(token.last()) {
            assert(is_unit(token.last(), seconds as int));
        }
    }
}

/// `AND` asks for what all parts ask for, `OR` for what any asks for, an odd number of `NOT` for what
/// the filter behind them does not ask for, and parentheses change nothing.
pub proof fn law_words_mean_what_they_say(
    parts: Seq<Phrase>,
    phrase: Phrase,
    nots: nat,
    context: Context,
    event: EventView,
)
    ensures
        query::selects(phrases::meaning(Phrase::And(parts), context), event) <==> forall|i: int|
            0 <= i < parts.len() ==> query::selects(
                phrases::meaning(#[trigger] parts[i], context),
                event,
            ),
        query::selects(phrases::meaning(Phrase::Or(parts), context), event) <==> exists|i: int|
            0 <= i < parts.len() && query::selects(
                phrases::meaning(#[trigger] parts[i], context),
                event,
            ),
        query::selects(
            phrases::meaning(Phrase::Not(nots, Box::new(phrase)), context),
            event,
        ) <==> (query::selects(phrases::meaning(phrase, context), event) <==> nots % 2 == 0),
        query::selects(
            phrases::meaning(Phrase::Group(Box::new(phrase)), context),
            event,
        ) <==> query::selects(phrases::meaning(phrase, context), event),
{
    let meanings = phrases::meanings(parts, context);
    lemma_meanings(parts, context);
    query_laws::law_parts_decide(meanings, event);
    assert(Phrase::And(parts)->And_0 == parts && Phrase::Or(parts)->Or_0 == parts);
    assert(phrases::meaning(Phrase::And(parts), context) == QueryView::And(meanings));
    assert(phrases::meaning(Phrase::Or(parts), context) == QueryView::Or(meanings));
    if forall|i: int|
        0 <= i < parts.len() ==> query::selects(
            phrases::meaning(#[trigger] parts[i], context),
            event,
        ) {
        assert forall|i: int| 0 <= i < meanings.len() implies query::selects(
            #[trigger] meanings[i],
            event,
        ) by {
            assert(query::selects(phrases::meaning(parts[i], context), event));
        }
    }
    if forall|i: int| 0 <= i < meanings.len() ==> query::selects(#[trigger] meanings[i], event) {
        assert forall|i: int| 0 <= i < parts.len() implies query::selects(
            phrases::meaning(#[trigger] parts[i], context),
            event,
        ) by {
            assert(query::selects(meanings[i], event));
        }
    }
    if exists|i: int|
        0 <= i < parts.len() && query::selects(
            phrases::meaning(#[trigger] parts[i], context),
            event,
        ) {
        let i = choose|i: int|
            0 <= i < parts.len() && query::selects(
                phrases::meaning(#[trigger] parts[i], context),
                event,
            );
        assert(query::selects(meanings[i], event));
    }
    if exists|i: int| 0 <= i < meanings.len() && query::selects(#[trigger] meanings[i], event) {
        let i = choose|i: int|
            0 <= i < meanings.len() && query::selects(#[trigger] meanings[i], event);
        assert(query::selects(phrases::meaning(parts[i], context), event));
    }
    let inner = phrases::meaning(phrase, context);
    index_laws::law_pairs_of_nots_cancel_out(nots, inner, event);
    assert(Phrase::Not(nots, Box::new(phrase))->Not_1 == Box::new(phrase));
    assert(Phrase::Group(Box::new(phrase))->Group_0 == Box::new(phrase));
}

/// Phrases are given their meanings one by one.
proof fn lemma_meanings(parts: Seq<Phrase>, context: Context)
    ensures
        phrases::meanings(parts, context).len() == parts.len(),
        forall|i: int|
            0 <= i < parts.len() ==> #[trigger] phrases::meanings(parts, context)[i]
                == phrases::meaning(parts[i], context),
    decreases parts.len(),
{
    if parts.len() > 0 {
        let front = parts.drop_last();
        lemma_meanings(front, context);
        assert forall|i: int| 0 <= i < parts.len() implies #[trigger] phrases::meanings(
            parts,
            context,
        )[i] == phrases::meaning(parts[i], context) by {
            if i < front.len() {
                assert(phrases::meanings(front, context)[i] == phrases::meaning(front[i], context));
            }
        }
    }
}

/// The plan of a stage over all events.
pub open spec fn stage_plan(tokens: Seq<Seq<char>>, context: Context) -> Result<
    PlanView,
    grammar::ErrorView,
> {
    grammar::plan_of(seq!["|"@] + tokens, context)
}

/// The plan that aggregates all events.
pub open spec fn aggregated(aggregation: AggregationView) -> PlanView {
    PlanView { query: QueryView::All, aggregation: Some(aggregation), limit: None }
}

/// The keywords of stages are told apart.
proof fn lemma_keywords_differ()
    ensures
        "count"@ != "avg"@ && "count"@ != "sum"@ && "count"@ != "min"@ && "count"@ != "max"@
            && "count"@ != "limit"@ && "count"@ != "tail"@,
        "avg"@ != "sum"@ && "avg"@ != "min"@ && "avg"@ != "max"@ && "avg"@ != "limit"@ && "avg"@
            != "tail"@,
        "sum"@ != "min"@ && "sum"@ != "max"@ && "sum"@ != "limit"@ && "sum"@ != "tail"@,
        "min"@ != "max"@ && "min"@ != "limit"@ && "min"@ != "tail"@,
        "max"@ != "limit"@ && "max"@ != "tail"@ && "limit"@ != "tail"@,
{
    reveal_strlit("count");
    reveal_strlit("avg");
    reveal_strlit("sum");
    reveal_strlit("min");
    reveal_strlit("max");
    reveal_strlit("limit");
    reveal_strlit("tail");
    assert("avg"@[0] == 'a' && "sum"@[0] == 's' && "min"@[0] == 'm' && "max"@[0] == 'm');
    assert("min"@[1] == 'i' && "max"@[1] == 'a');
    assert("count"@[0] == 'c' && "limit"@[0] == 'l');
    assert("count"@.len() == 5 && "limit"@.len() == 5 && "tail"@.len() == 4);
    assert("avg"@.len() == 3 && "sum"@.len() == 3 && "min"@.len() == 3 && "max"@.len() == 3);
}

/// A stage with nothing before its bar.
proof fn lemma_stage_plan(tokens: Seq<Seq<char>>, context: Context)
    ensures
        stage_plan(tokens, context) == match grammar::stage(seq!["|"@] + tokens, 1) {
            Ok(stage) => Ok(grammar::plan_with(QueryView::All, stage)),
            Err(e) => Err(e),
        },
{
    let all = seq!["|"@] + tokens;
    assert(all[0] == "|"@);
}

/// `avg`, `sum`, `min` and `max`, in upper or lower case, aggregate the one field that follows, as it
/// is written, and `count by` that which follows `by`; `count` alone takes nothing.
#[verifier::spinoff_prover]
pub proof fn law_aggregations_are_named(
    keyword: Seq<char>,
    by: Seq<char>,
    field: Seq<char>,
    context: Context,
)
    ensures
        ({
            let name = text::lowercase(keyword);
            let plan = stage_plan(seq![keyword, field], context);
            &&& name == "avg"@ ==> plan == Ok::<_, grammar::ErrorView>(
                aggregated(AggregationView::Average(field)),
            )
            &&& name == "sum"@ ==> plan == Ok::<_, grammar::ErrorView>(
                aggregated(AggregationView::Sum(field)),
            )
            &&& name == "min"@ ==> plan == Ok::<_, grammar::ErrorView>(
                aggregated(AggregationView::Min(field)),
            )
            &&& name == "max"@ ==> plan == Ok::<_, grammar::ErrorView>(
                aggregated(AggregationView::Max(field)),
            )
            &&& name == "count"@ ==> stage_plan(seq![keyword], context) == Ok::<
                _,
                grammar::ErrorView,
            >(aggregated(AggregationView::Count))
            &&& name == "count"@ && text::lowercase(by) == "by"@ ==> stage_plan(
                seq![keyword, by, field],
                context,
            ) == Ok::<_, grammar::ErrorView>(aggregated(AggregationView::CountBy(field)))
        }),
{
    lemma_keywords_differ();
    let one = seq!["|"@] + seq![keyword];
    let two = seq!["|"@] + seq![keyword, field];
    let three = seq!["|"@] + seq![keyword, by, field];
    lemma_stage_plan(seq![keyword], context);
    lemma_stage_plan(seq![keyword, field], context);
    lemma_stage_plan(seq![keyword, by, field], context);
    assert(one[1] == keyword && one.len() == 2);
    assert(two[1] == keyword && two[2] == field && two.len() == 3);
    assert(three[1] == keyword && three[2] == by && three[3] == field && three.len() == 4);
}

/// `limit` and `tail` keep the first and the last so many events, for every number that fits.
pub proof fn law_limits_are_named(keyword: Seq<char>, n: usize, context: Context)
    ensures
        ({
            let name = text::lowercase(keyword);
            let plan = stage_plan(seq![keyword, decimal::decimal_text(n as nat)], context);
            &&& name == "limit"@ ==> plan == Ok::<_, grammar::ErrorView>(
                PlanView { query: QueryView::All, aggregation: None, limit: Some(Limit::Head(n)) },
            )
            &&& name == "tail"@ ==> plan == Ok::<_, grammar::ErrorView>(
                PlanView { query: QueryView::All, aggregation: None, limit: Some(Limit::Tail(n)) },
            )
        }),
{
    lemma_keywords_differ();
    let number = decimal::decimal_text(n as nat);
    let tokens = seq!["|"@] + seq![keyword, number];
    lemma_stage_plan(seq![keyword, number], context);
    decimal::law_decimal_round_trip(n as nat, usize::MAX as nat);
    assert(tokens[1] == keyword && tokens[2] == number && tokens.len() == 3);
}

/// `p` and a number are the percentile of that many in a hundred, from 1 to 100, of the one field
/// that follows; with every other number they are refused.
pub proof fn law_percentiles_are_named(
    keyword: Seq<char>,
    n: nat,
    field: Seq<char>,
    context: Context,
)
    requires
        text::lowercase(keyword) == seq!['p'] + decimal::decimal_text(n),
    ensures
        ({
            let plan = stage_plan(seq![keyword, field], context);
            &&& 1 <= n <= 100 ==> plan == Ok::<_, grammar::ErrorView>(
                aggregated(AggregationView::Percentage(field, arithmetic::fraction(n) as u32)),
            )
            &&& n == 0 || n > 100 ==> plan is Err
        }),
{
    let name = text::lowercase(keyword);
    let digits = decimal::decimal_text(n);
    let tokens = seq!["|"@] + seq![keyword, field];
    lemma_stage_plan(seq![keyword, field], context);
    decimal::lemma_decimal_text(n);
    assert(name[0] == 'p');
    reveal_strlit("count");
    reveal_strlit("avg");
    reveal_strlit("sum");
    reveal_strlit("min");
    reveal_strlit("max");
    reveal_strlit("limit");
    reveal_strlit("tail");
    assert("count"@[0] == 'c' && "avg"@[0] == 'a' && "sum"@[0] == 's' && "min"@[0] == 'm'
        && "max"@[0] == 'm' && "limit"@[0] == 'l' && "tail"@[0] == 't');
    assert(name.skip(1) =~= digits);
    assert(decimal::is_digit(digits[0]));
    assert(decimal::unsigned_digits(digits) == digits);
    assert(tokens[1] == keyword && tokens[2] == field && tokens.len() == 3);
}

/// A plan has an aggregation or a limit, never both, and one that starts with its stage is over all
/// events.
pub proof fn law_plans_have_one_stage(tokens: Seq<Seq<char>>, context: Context)
    ensures
        grammar::plan_of(tokens, context) matches Ok(plan) ==> {
            &&& !(plan.aggregation is Some && plan.limit is Some)
            &&& tokens[0] == "|"@ ==> plan.query == QueryView::All
            &&& tokens.len() > 0
        },
{
}

/// A filter that is written as the grammar asks is read if its parentheses nest at most 128 levels
/// deep, and refused if they nest deeper.
pub proof fn law_parentheses_nest_128_deep(phrase: Phrase, context: Context)
    requires
        phrases::proper(phrase, context),
        phrases::written(phrase)[0] != "|"@,
    ensures
        grammar::plan_of(phrases::written(phrase), context) is Ok <==> phrases::nests_within(
            phrase,
            128,
        ),
{
    let none = Seq::<Seq<char>>::empty();
    assert(phrases::written(phrase) + none =~= phrases::written(phrase));
    if phrases::nests_within(phrase, 128) {
        phrases::law_filters_are_read_as_written(phrase, none, context);
    } else {
        phrases::law_deep_nesting_is_refused(phrase, none, context);
    }
}

/// Nothing follows a stage: each takes as many tokens as it needs, and no more, and has its own
/// keyword. The number of a limit is the one that is written.
#[verifier::spinoff_prover]
pub proof fn law_stages_take_what_they_need(tokens: Seq<Seq<char>>, context: Context)
    requires
        stage_plan(tokens, context) is Ok,
    ensures
        ({
            let plan = stage_plan(tokens, context)->Ok_0;
            let name = text::lowercase(tokens[0]);
            &&& tokens.len() > 0
            &&& plan.query == QueryView::All
            &&& plan.aggregation is Some || plan.limit is Some
            &&& match plan.aggregation {
                Some(AggregationView::Count) => tokens.len() == 1 && name == "count"@,
                Some(AggregationView::CountBy(field)) => tokens.len() == 3 && tokens[2] == field
                    && name == "count"@ && text::lowercase(tokens[1]) == "by"@,
                Some(AggregationView::Average(field)) => tokens.len() == 2 && tokens[1] == field
                    && name == "avg"@,
                Some(AggregationView::Sum(field)) => tokens.len() == 2 && tokens[1] == field
                    && name == "sum"@,
                Some(AggregationView::Min(field)) => tokens.len() == 2 && tokens[1] == field
                    && name == "min"@,
                Some(AggregationView::Max(field)) => tokens.len() == 2 && tokens[1] == field
                    && name == "max"@,
                Some(AggregationView::Percentage(field, p)) => {
                    &&& tokens.len() == 2 && tokens[1] == field
                    &&& name.len() > 1 && name[0] == 'p'
                    &&& decimal::number_of(name.skip(1), 100) matches Some(n) && 1 <= n && p
                        == arithmetic::fraction(n) as u32
                },
                None => tokens.len() == 2 && name == match plan.limit->0 {
                    Limit::Head(_) => "limit"@,
                    Limit::Tail(_) => "tail"@,
                },
            }
            &&& plan.limit matches Some(limit) ==> decimal::number_of(tokens[1], usize::MAX as nat)
                == Some(
                match limit {
                    Limit::Head(n) => n as nat,
                    Limit::Tail(n) => n as nat,
                },
            )
        }),
{
    lemma_stage_plan(tokens, context);
    lemma_keywords_differ();
    let all = seq!["|"@] + tokens;
    assert(all.len() == tokens.len() + 1);
    if tokens.len() > 0 {
        assert(all[1] == tokens[0]);
    }
    if tokens.len() > 1 {
        assert(all[2] == tokens[1]);
    }
    if tokens.len() > 2 {
        assert(all[3] == tokens[2]);
    }
}

/// A stage is read the same wherever it stands.
proof fn lemma_stages_stand_anywhere(before: Seq<Seq<char>>, tokens: Seq<Seq<char>>)
    requires
        before.len() > 0,
    ensures
        grammar::stage(before + tokens, before.len() as int) == grammar::stage(
            seq!["|"@] + tokens,
            1,
        ),
{
    let a = before + tokens;
    let b = seq!["|"@] + tokens;
    let n = before.len() as int;
    assert(a.len() - n == b.len() - 1);
    if tokens.len() > 0 {
        assert(a[n] == tokens[0] && b[1] == tokens[0]);
    }
    if tokens.len() > 1 {
        assert(a[n + 1] == tokens[1] && b[2] == tokens[1]);
    }
    if tokens.len() > 2 {
        assert(a[n + 2] == tokens[2] && b[3] == tokens[2]);
    }
    if tokens.len() > 3 {
        assert(a[n + 3] == tokens[3] && b[4] == tokens[3]);
    }
}

/// A stage behind a filter is the stage that it is over all events, and leaves the filter what it is
/// alone; it is refused for the same reason or not at all.
#[verifier::spinoff_prover]
pub proof fn law_filters_and_stages_go_together(
    phrase: Phrase,
    tokens: Seq<Seq<char>>,
    context: Context,
)
    requires
        phrases::proper(phrase, context),
        phrases::nests_within(phrase, grammar::MAX_NESTING as int),
        phrases::written(phrase)[0] != "|"@,
    ensures
        ({
            let filter = phrases::written(phrase);
            let alone = grammar::plan_of(filter, context);
            let both = grammar::plan_of(filter + (seq!["|"@] + tokens), context);
            &&& alone is Ok
            &&& both == match stage_plan(tokens, context) {
                Ok(plan) => Ok::<_, grammar::ErrorView>(
                    PlanView { query: alone->Ok_0.query, ..plan },
                ),
                Err(e) => Err(e),
            }
        }),
{
    let filter = phrases::written(phrase);
    let rest = seq!["|"@] + tokens;
    let none = Seq::<Seq<char>>::empty();
    assert(rest[0] == "|"@);
    assert(filter + none =~= filter);
    phrases::law_filters_are_read_as_written(phrase, none, context);
    phrases::law_filters_are_read_as_written(phrase, rest, context);
    lemma_stage_plan(tokens, context);
    let before = filter.push("|"@);
    assert(filter + rest =~= before + tokens);
    lemma_stages_stand_anywhere(before, tokens);
}

/// A query is read by its tokens, whatever stands between them, with the time field and the current
/// time that it is asked with.
pub proof fn law_queries_are_read_by_their_tokens(
    tokens: Seq<Seq<char>>,
    field: &str,
    now: Timestamp,
)
    requires
        forall|i: int| 0 <= i < tokens.len() ==> grammar_laws::is_token(#[trigger] tokens[i]),
    ensures
        parser::parsed(grammar_laws::spaced(tokens), Some(field), now) == grammar::plan_of(
            tokens,
            Context { time_field: Some(field@), now: now@ },
        ),
        parser::parsed(grammar_laws::spaced(tokens), None, now) == grammar::plan_of(
            tokens,
            Context { time_field: None, now: now@ },
        ),
{
    grammar_laws::law_spaced_tokens_are_read_back(tokens);
}

} // verus!
