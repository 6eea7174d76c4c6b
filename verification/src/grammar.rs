//! The query language: its tokens, its grammar, and what each phrase means.

use crate::arithmetic;
use crate::decimal;
use crate::query;
use crate::query::{AggregationView, ComparisonOp, Limit, PlanView, QueryView};
use crate::text;
use crate::time;
use crate::time::Instant;
use crate::value;
use crate::value::ValueView;
use vstd::prelude::*;

verus! {

/// How deep parentheses may nest.
pub const MAX_NESTING: usize = 128;

/// What is wrong with a query.
pub enum ErrorView {
    IncorrectFormat(Seq<char>),
    UnknownOperator(Seq<char>),
}

/// Whether a character is a parenthesis.
pub open spec fn is_parenthesis(c: char) -> bool {
    c == '(' || c == ')'
}

/// Tokens with one more behind them, unless that one is empty.
pub open spec fn with_word(tokens: Seq<Seq<char>>, word: Seq<char>) -> Seq<Seq<char>> {
    if word.len() == 0 {
        tokens
    } else {
        tokens.push(word)
    }
}

/// The tokens that a text holds, and the word that it ends in.
pub open spec fn scanned(text: Seq<char>) -> (Seq<Seq<char>>, Seq<char>)
    decreases text.len(),
{
    if text.len() == 0 {
        (Seq::empty(), Seq::empty())
    } else {
        let (tokens, word) = scanned(text.drop_last());
        let c = text.last();
        if text::is_whitespace(c) {
            (with_word(tokens, word), Seq::empty())
        } else if is_parenthesis(c) {
            (with_word(tokens, word).push(seq![c]), Seq::empty())
        } else {
            (tokens, word.push(c))
        }
    }
}

/// The tokens of a query: words set apart by whitespace, and parentheses on their own.
pub open spec fn tokens_of(text: Seq<char>) -> Seq<Seq<char>> {
    let (tokens, word) = scanned(text);
    with_word(tokens, word)
}

/// What a query is read with: the field that holds timestamps, and the current time.
pub struct Context {
    pub time_field: Option<Seq<char>>,
    pub now: Instant,
}

/// Whether there is a token at a position that reads as given.
pub open spec fn token_is(tokens: Seq<Seq<char>>, pos: int, token: Seq<char>) -> bool {
    0 <= pos < tokens.len() && tokens[pos] == token
}

/// The error of a token that nothing allows at its position.
pub open spec fn unexpected(tokens: Seq<Seq<char>>, pos: int) -> ErrorView {
    ErrorView::IncorrectFormat("unexpected token '"@ + tokens[pos] + "'"@)
}

/// The operator that a token denotes.
pub open spec fn operator(token: Seq<char>) -> Option<ComparisonOp> {
    if token == "="@ {
        Some(ComparisonOp::Eq)
    } else if token == "!="@ {
        Some(ComparisonOp::Ne)
    } else if token == "<"@ {
        Some(ComparisonOp::Lt)
    } else if token == "<="@ {
        Some(ComparisonOp::Le)
    } else if token == ">"@ {
        Some(ComparisonOp::Gt)
    } else if token == ">="@ {
        Some(ComparisonOp::Ge)
    } else if token == "~"@ {
        Some(ComparisonOp::Contains)
    } else {
        None
    }
}

/// The value that an operator compares with: what a search is for is always a string.
pub open spec fn operand(op: ComparisonOp, token: Seq<char>) -> ValueView {
    if op == ComparisonOp::Contains {
        ValueView::String(token)
    } else {
        value::value_of_token(token)
    }
}

/// The seconds that a letter stands for: a second, a minute, an hour or a day.
pub open spec fn unit_seconds(unit: char) -> Option<nat> {
    if unit == 's' {
        Some(1)
    } else if unit == 'm' {
        Some(60)
    } else if unit == 'h' {
        Some(3_600)
    } else if unit == 'd' {
        Some(86_400)
    } else {
        None
    }
}

/// How many seconds ago a text says: a minus sign, digits and a unit.
pub open spec fn seconds_ago(token: Seq<char>) -> Option<nat> {
    let digits = token.subrange(1, token.len() - 1);
    if token.len() < 3 || token[0] != '-' || !decimal::all_digits(digits) {
        None
    } else {
        match unit_seconds(token.last()) {
            Some(seconds) => Some(decimal::digits_value(digits) * seconds),
            None => None,
        }
    }
}

/// The instant that a token names: `now`, a time ago, or an RFC 3339 text.
pub open spec fn time_value(token: Seq<char>, now: Instant) -> Option<Instant> {
    if token == "now"@ {
        Some(now)
    } else if seconds_ago(token) is Some {
        let then = now.earlier(seconds_ago(token)->0 as int);
        if then.valid() {
            Some(then)
        } else {
            None
        }
    } else {
        time::rfc3339_instant(token)
    }
}

/// A bound on the time field: three tokens.
pub open spec fn time_range(tokens: Seq<Seq<char>>, pos: int, now: Instant) -> Result<
    (QueryView, int),
    ErrorView,
> {
    if pos + 1 >= tokens.len() {
        Err(ErrorView::IncorrectFormat("expected operator"@))
    } else if tokens[pos + 1] != "<"@ && tokens[pos + 1] != ">"@ {
        Err(ErrorView::UnknownOperator(tokens[pos + 1]))
    } else if pos + 2 >= tokens.len() {
        Err(ErrorView::IncorrectFormat("expected datetime value"@))
    } else {
        match time_value(tokens[pos + 2], now) {
            Some(t) => Ok(
                (
                    if tokens[pos + 1] == "<"@ {
                        QueryView::TimeRange { start: None, end: Some(t) }
                    } else {
                        QueryView::TimeRange { start: Some(t), end: None }
                    },
                    pos + 3,
                ),
            ),
            None => Err(
                ErrorView::IncorrectFormat(
                    "invalid datetime, expected RFC 3339 (e.g. 2026-01-15T00:00:00Z)"@,
                ),
            ),
        }
    }
}

/// A comparison with a field: three tokens.
pub open spec fn field_comparison(tokens: Seq<Seq<char>>, pos: int) -> Result<
    (QueryView, int),
    ErrorView,
> {
    if pos >= tokens.len() {
        Err(ErrorView::IncorrectFormat("expected field name"@))
    } else if pos + 1 >= tokens.len() {
        Err(ErrorView::IncorrectFormat("expected operator"@))
    } else {
        match operator(tokens[pos + 1]) {
            None => Err(ErrorView::UnknownOperator(tokens[pos + 1])),
            Some(op) => if pos + 2 >= tokens.len() {
                Err(ErrorView::IncorrectFormat("expected value"@))
            } else {
                Ok(
                    (
                        QueryView::FieldComparison {
                            field: tokens[pos],
                            op,
                            value: operand(op, tokens[pos + 2]),
                        },
                        pos + 3,
                    ),
                )
            },
        }
    }
}

/// A comparison with a field or with the time.
pub open spec fn simple(tokens: Seq<Seq<char>>, pos: int, context: Context) -> Result<
    (QueryView, int),
    ErrorView,
> {
    if pos >= tokens.len() {
        Err(ErrorView::IncorrectFormat("expected field name"@))
    } else if context.time_field == Some(tokens[pos]) {
        time_range(tokens, pos, context.now)
    } else {
        field_comparison(tokens, pos)
    }
}

/// The error of a query that could not be read to its end; no query that is read gives it.
pub open spec fn no_progress() -> ErrorView {
    ErrorView::IncorrectFormat(Seq::empty())
}

/// A filter in parentheses, or a comparison.
pub open spec fn primary(
    tokens: Seq<Seq<char>>,
    pos: int,
    depth: nat,
    context: Context,
) -> Result<(QueryView, int), ErrorView>
    decreases tokens.len() - pos, 0int,
{
    if token_is(tokens, pos, "("@) {
        if depth >= MAX_NESTING {
            Err(ErrorView::IncorrectFormat("parentheses nested too deeply (maximum 128)"@))
        } else {
            match disjunction(tokens, pos + 1, depth + 1, context) {
                Err(e) => Err(e),
                Ok((inner, end)) => if token_is(tokens, end, ")"@) {
                    Ok((inner, end + 1))
                } else {
                    Err(ErrorView::IncorrectFormat("expected ')'"@))
                },
            }
        }
    } else {
        simple(tokens, pos, context)
    }
}

/// How many times `NOT` stands at a position.
pub open spec fn leading_nots(tokens: Seq<Seq<char>>, pos: int) -> nat
    decreases tokens.len() - pos,
{
    if token_is(tokens, pos, "NOT"@) {
        1 + leading_nots(tokens, pos + 1)
    } else {
        0
    }
}

/// The tokens that lead with `NOT`, and the one after them.
pub proof fn lemma_leading_nots(tokens: Seq<Seq<char>>, pos: int)
    ensures
        leading_nots(tokens, pos) > 0 ==> pos + leading_nots(tokens, pos) <= tokens.len(),
        !token_is(tokens, pos + leading_nots(tokens, pos), "NOT"@),
        forall|i: int|
            pos <= i < pos + leading_nots(tokens, pos) ==> #[trigger] tokens[i] == "NOT"@,
    decreases tokens.len() - pos,
{
    if token_is(tokens, pos, "NOT"@) {
        lemma_leading_nots(tokens, pos + 1);
    }
}

/// A filter after so many `NOT`, each two of which cancel out.
pub open spec fn negated(nots: nat, query: QueryView) -> QueryView {
    if nots % 2 == 1 {
        QueryView::Not(Box::new(query))
    } else {
        query
    }
}

/// A primary after any number of `NOT`.
pub open spec fn negation(
    tokens: Seq<Seq<char>>,
    pos: int,
    depth: nat,
    context: Context,
) -> Result<(QueryView, int), ErrorView>
    decreases tokens.len() - pos, 1int,
{
    let nots = leading_nots(tokens, pos);
    proof {
        lemma_leading_nots(tokens, pos);
    }
    match primary(tokens, pos + nots, depth, context) {
        Err(e) => Err(e),
        Ok((inner, end)) => Ok((negated(nots, inner), end)),
    }
}

/// The parts of a conjunction, of which some are read: negations with `AND` before each.
pub open spec fn more_conjuncts(
    parts: Seq<QueryView>,
    tokens: Seq<Seq<char>>,
    pos: int,
    depth: nat,
    context: Context,
) -> Result<(Seq<QueryView>, int), ErrorView>
    decreases tokens.len() - pos, 2int,
{
    if token_is(tokens, pos, "AND"@) {
        match negation(tokens, pos + 1, depth, context) {
            Err(e) => Err(e),
            Ok((next, end)) => if !(pos < end <= tokens.len()) {
                Err(no_progress())
            } else {
                more_conjuncts(parts.push(next), tokens, end, depth, context)
            },
        }
    } else {
        Ok((parts, pos))
    }
}

/// One filter alone, or the conjunction of several.
pub open spec fn all_of(parts: Seq<QueryView>) -> QueryView {
    if parts.len() == 1 {
        parts[0]
    } else {
        QueryView::And(parts)
    }
}

/// Negations with `AND` between them.
pub open spec fn conjunction(
    tokens: Seq<Seq<char>>,
    pos: int,
    depth: nat,
    context: Context,
) -> Result<(QueryView, int), ErrorView>
    decreases tokens.len() - pos, 3int,
{
    match negation(tokens, pos, depth, context) {
        Err(e) => Err(e),
        Ok((first, end)) => if !(pos < end <= tokens.len()) {
            Err(no_progress())
        } else {
            match more_conjuncts(seq![first], tokens, end, depth, context) {
                Err(e) => Err(e),
                Ok((parts, end)) => Ok((all_of(parts), end)),
            }
        },
    }
}

/// The parts of a disjunction, of which some are read: conjunctions with `OR` before each.
pub open spec fn more_disjuncts(
    parts: Seq<QueryView>,
    tokens: Seq<Seq<char>>,
    pos: int,
    depth: nat,
    context: Context,
) -> Result<(Seq<QueryView>, int), ErrorView>
    decreases tokens.len() - pos, 4int,
{
    if token_is(tokens, pos, "OR"@) {
        match conjunction(tokens, pos + 1, depth, context) {
            Err(e) => Err(e),
            Ok((next, end)) => if !(pos < end <= tokens.len()) {
                Err(no_progress())
            } else {
                more_disjuncts(parts.push(next), tokens, end, depth, context)
            },
        }
    } else {
        Ok((parts, pos))
    }
}

/// One filter alone, or the disjunction of several.
pub open spec fn any_of(parts: Seq<QueryView>) -> QueryView {
    if parts.len() == 1 {
        parts[0]
    } else {
        QueryView::Or(parts)
    }
}

/// Conjunctions with `OR` between them.
pub open spec fn disjunction(
    tokens: Seq<Seq<char>>,
    pos: int,
    depth: nat,
    context: Context,
) -> Result<(QueryView, int), ErrorView>
    decreases tokens.len() - pos, 5int,
{
    match conjunction(tokens, pos, depth, context) {
        Err(e) => Err(e),
        Ok((first, end)) => if !(pos < end <= tokens.len()) {
            Err(no_progress())
        } else {
            match more_disjuncts(seq![first], tokens, end, depth, context) {
                Err(e) => Err(e),
                Ok((parts, end)) => Ok((any_of(parts), end)),
            }
        },
    }
}

/// A stage of a pipeline: an aggregation or a limit.
pub enum Stage {
    Aggregate(AggregationView),
    Keep(Limit),
}

/// The stage `count`, or `count by` a field.
pub open spec fn count_stage(tokens: Seq<Seq<char>>, pos: int) -> Result<Stage, ErrorView> {
    if pos + 1 >= tokens.len() {
        Ok(Stage::Aggregate(AggregationView::Count))
    } else if text::lowercase(tokens[pos + 1]) != "by"@ {
        Err(unexpected(tokens, pos + 1))
    } else if pos + 2 >= tokens.len() {
        Err(ErrorView::IncorrectFormat("no field to count by"@))
    } else if pos + 3 < tokens.len() {
        Err(unexpected(tokens, pos + 3))
    } else {
        Ok(Stage::Aggregate(AggregationView::CountBy(tokens[pos + 2])))
    }
}

/// The one argument of a stage, with nothing after it; `missing` where there is none.
pub open spec fn sole_argument(tokens: Seq<Seq<char>>, pos: int, missing: Seq<char>) -> Result<
    Seq<char>,
    ErrorView,
> {
    if pos + 1 >= tokens.len() {
        Err(ErrorView::IncorrectFormat(missing))
    } else if pos + 2 < tokens.len() {
        Err(unexpected(tokens, pos + 2))
    } else {
        Ok(tokens[pos + 1])
    }
}

/// The error of an aggregation without a field.
pub open spec fn requires_field(name: Seq<char>) -> Seq<char> {
    "'"@ + name + "' requires a field name, e.g.: "@ + name + " latency_ms"@
}

/// The aggregation of that name over a field.
pub open spec fn field_aggregation(name: Seq<char>, field: Seq<char>) -> Option<AggregationView> {
    if name == "avg"@ {
        Some(AggregationView::Average(field))
    } else if name == "sum"@ {
        Some(AggregationView::Sum(field))
    } else if name == "min"@ {
        Some(AggregationView::Min(field))
    } else if name == "max"@ {
        Some(AggregationView::Max(field))
    } else {
        None
    }
}

/// A stage that aggregates one field.
pub open spec fn field_stage(tokens: Seq<Seq<char>>, pos: int, name: Seq<char>) -> Result<
    Stage,
    ErrorView,
> {
    match sole_argument(tokens, pos, requires_field(name)) {
        Err(e) => Err(e),
        Ok(field) => Ok(Stage::Aggregate(field_aggregation(name, field)->0)),
    }
}

/// The stage `p` with a percentage, of one field.
pub open spec fn percentile_stage(tokens: Seq<Seq<char>>, pos: int, name: Seq<char>) -> Result<
    Stage,
    ErrorView,
> {
    match decimal::number_of(name.skip(1), 255) {
        None => Err(ErrorView::IncorrectFormat("invalid percentile '"@ + name + "'"@)),
        Some(n) => if n == 0 || n > 100 {
            Err(
                ErrorView::IncorrectFormat(
                    "percentile must be 1-100, got "@ + decimal::decimal_text(n),
                ),
            )
        } else {
            match sole_argument(tokens, pos, "no field for '"@ + name + "' aggregation"@) {
                Err(e) => Err(e),
                Ok(field) => Ok(
                    Stage::Aggregate(
                        AggregationView::Percentage(field, arithmetic::fraction(n) as u32),
                    ),
                ),
            }
        },
    }
}

/// The stage `limit` or `tail` with a number of events.
pub open spec fn limit_stage(tokens: Seq<Seq<char>>, pos: int, name: Seq<char>) -> Result<
    Stage,
    ErrorView,
> {
    match sole_argument(tokens, pos, "'"@ + name + "' requires a number, e.g.: "@ + name + " 10"@) {
        Err(e) => Err(e),
        Ok(argument) => match decimal::number_of(argument, usize::MAX as nat) {
            None => Err(
                ErrorView::IncorrectFormat("invalid "@ + name + " '"@ + argument + "'"@),
            ),
            Some(n) => Ok(
                Stage::Keep(
                    if name == "limit"@ {
                        Limit::Head(n as usize)
                    } else {
                        Limit::Tail(n as usize)
                    },
                ),
            ),
        },
    }
}

/// The stage that stands behind a `|`. Its keyword may be in upper case.
pub open spec fn stage(tokens: Seq<Seq<char>>, pos: int) -> Result<Stage, ErrorView> {
    if pos >= tokens.len() {
        Err(ErrorView::IncorrectFormat("no aggregator after '|'"@))
    } else {
        let name = text::lowercase(tokens[pos]);
        if name == "count"@ {
            count_stage(tokens, pos)
        } else if field_aggregation(name, Seq::empty()) is Some {
            field_stage(tokens, pos, name)
        } else if name == "limit"@ || name == "tail"@ {
            limit_stage(tokens, pos, name)
        } else if name.len() > 0 && name[0] == 'p' {
            percentile_stage(tokens, pos, name)
        } else {
            Err(
                ErrorView::IncorrectFormat(
                    "unknown aggregator '"@ + name
                        + "'; expected: count, avg, or p<N> (e.g. p99)"@,
                ),
            )
        }
    }
}

/// The plan of a filter and a stage.
pub open spec fn plan_with(query: QueryView, stage: Stage) -> PlanView {
    match stage {
        Stage::Aggregate(aggregation) => PlanView {
            query,
            aggregation: Some(aggregation),
            limit: None,
        },
        Stage::Keep(limit) => PlanView { query, aggregation: None, limit: Some(limit) },
    }
}

/// The plan that the tokens of a query ask for.
pub open spec fn plan_of(tokens: Seq<Seq<char>>, context: Context) -> Result<PlanView, ErrorView> {
    if tokens.len() == 0 {
        Err(ErrorView::IncorrectFormat("empty query"@))
    } else if token_is(tokens, 0, "|"@) {
        match stage(tokens, 1) {
            Err(e) => Err(e),
            Ok(stage) => Ok(plan_with(QueryView::All, stage)),
        }
    } else {
        match disjunction(tokens, 0, 0, context) {
            Err(e) => Err(e),
            Ok((query, end)) => if end == tokens.len() {
                Ok(PlanView { query, aggregation: None, limit: None })
            } else if !token_is(tokens, end, "|"@) {
                Err(unexpected(tokens, end))
            } else {
                match stage(tokens, end + 1) {
                    Err(e) => Err(e),
                    Ok(stage) => Ok(plan_with(query, stage)),
                }
            },
        }
    }
}

} // verus!
