//! Reading queries.

use crate::arithmetic;
use crate::decimal;
use crate::grammar;
use crate::grammar::{Context, ErrorView, Stage};
use crate::query;
use crate::query::{Aggregation, ComparisonOp, Limit, PlanView, Query, QueryPlan, QueryView};
use crate::text;
use crate::time;
use crate::time::Timestamp;
use crate::value::Value;
use vstd::prelude::*;

verus! {

/// Why a query could not be read.
#[derive(Debug, PartialEq, Eq)]
pub enum ParseError {
    IncorrectFormat(String),
    UnknownOperator(String),
}

impl View for ParseError {
    type V = ErrorView;

    open spec fn view(&self) -> ErrorView {
        match self {
            ParseError::IncorrectFormat(message) => ErrorView::IncorrectFormat(message@),
            ParseError::UnknownOperator(operator) => ErrorView::UnknownOperator(operator@),
        }
    }
}

/// How an error reads.
pub open spec fn parse_error_text(error: ErrorView) -> Seq<char> {
    match error {
        ErrorView::IncorrectFormat(message) => "incorrect format: "@ + message,
        ErrorView::UnknownOperator(operator) => "unknown operator: "@ + operator,
    }
}

impl ParseError {
    /// How the error reads.
    pub fn to_text(&self) -> (r: String)
        ensures
            r@ == parse_error_text(self@),
    {
        match self {
            ParseError::IncorrectFormat(message) => text::concat2(
                "incorrect format: ",
                message.as_str(),
            ),
            ParseError::UnknownOperator(operator) => text::concat2(
                "unknown operator: ",
                operator.as_str(),
            ),
        }
    }
}

/// What each token reads.
pub open spec fn token_views(tokens: Seq<String>) -> Seq<Seq<char>> {
    tokens.map_values(|t: String| t@)
}

/// What a query asks for.
pub open spec fn parsed(
    query_string: Seq<char>,
    time_field: Option<&str>,
    now: Timestamp,
) -> Result<PlanView, ErrorView> {
    grammar::plan_of(
        grammar::tokens_of(query_string),
        Context {
            time_field: match time_field {
                Some(field) => Some(field@),
                None => None,
            },
            now: now@,
        },
    )
}

/// The error of a token that nothing allows at its position.
pub fn unexpected_token(tokens: &Vec<String>, pos: usize) -> (r: ParseError)
    requires
        pos < tokens@.len(),
    ensures
        r@ == grammar::unexpected(token_views(tokens@), pos as int),
{
    ParseError::IncorrectFormat(text::concat("unexpected token '", tokens[pos].as_str(), "'"))
}

fn incorrect(message: &str) -> (r: ParseError)
    ensures
        r@ == ErrorView::IncorrectFormat(message@),
{
    ParseError::IncorrectFormat(message.to_owned())
}

/// Splits a query into its tokens: words set apart by whitespace, and parentheses on their own.
pub fn tokenize(query_string: &str) -> (r: Vec<String>)
    ensures
        token_views(r@) == grammar::tokens_of(query_string@),
{
    let mut tokens: Vec<String> = Vec::new();
    let mut current = String::new();
    for c in it: query_string.chars()
        invariant
            it.seq() == query_string@,
            token_views(tokens@) == grammar::scanned(query_string@.take(it.index())).0,
            current@ == grammar::scanned(query_string@.take(it.index())).1,
    {
        proof {
            let seen = query_string@.take(it.index() + 1);
            assert(seen.drop_last() =~= query_string@.take(it.index()));
            assert(seen.last() == c);
        }
        let parenthesis = c == '(' || c == ')';
        if text::whitespace(c) {
            push_word(&mut tokens, &mut current);
        } else if parenthesis {
            push_word(&mut tokens, &mut current);
            let mut token = String::new();
            text::push(&mut token, c);
            let ghost before = tokens@;
            tokens.push(token);
            assert(token@ =~= seq![c]);
            assert(token_views(tokens@) =~= token_views(before).push(seq![c]));
        } else {
            text::push(&mut current, c);
        }
    }
    assert(query_string@.take(query_string@.len() as int) =~= query_string@);
    push_word(&mut tokens, &mut current);
    tokens
}

/// Takes a finished word over into the tokens, unless it is empty.
fn push_word(tokens: &mut Vec<String>, word: &mut String)
    ensures
        token_views(final(tokens)@) == grammar::with_word(token_views(old(tokens)@), old(word)@),
        final(word)@.len() == 0,
{
    let mut finished = String::new();
    std::mem::swap(&mut finished, word);
    if text::same(finished.as_str(), "") {
        assert(finished@.len() == 0) by {
            reveal_strlit("");
        }
    } else {
        assert(finished@.len() > 0) by {
            reveal_strlit("");
            if finished@.len() == 0 {
                assert(finished@ =~= ""@);
            }
        }
        tokens.push(finished);
        assert(token_views(tokens@) =~= token_views(old(tokens)@).push(finished@));
    }
}

/// What a query is read with.
#[derive(Clone, Copy)]
struct Reading<'a> {
    time_field: Option<&'a str>,
    now: Timestamp,
}

impl<'a> Reading<'a> {
    spec fn view(self) -> Context {
        Context {
            time_field: match self.time_field {
                Some(field) => Some(field@),
                None => None,
            },
            now: self.now@,
        }
    }
}

/// The token so many places after a position.
fn token_ahead(tokens: &Vec<String>, pos: usize, ahead: usize) -> (r: Option<&str>)
    requires
        pos <= tokens@.len(),
    ensures
        match r {
            Some(token) => pos + ahead < tokens@.len() && token@ == token_views(tokens@)[pos
                + ahead],
            None => pos + ahead >= tokens@.len(),
        },
        tokens@.len() <= usize::MAX,
{
    if ahead < tokens.len() - pos {
        Some(tokens[pos + ahead].as_str())
    } else {
        None
    }
}

/// Whether the token at a position reads as given.
fn token_is(tokens: &Vec<String>, pos: usize, token: &str) -> (r: bool)
    ensures
        r == grammar::token_is(token_views(tokens@), pos as int, token@),
        tokens@.len() <= usize::MAX,
{
    pos < tokens.len() && text::same(tokens[pos].as_str(), token)
}

/// Whether a phrase was read as the grammar says, up to where it says.
spec fn reads(
    r: Result<(Query, usize), ParseError>,
    phrase: Result<(QueryView, int), ErrorView>,
    pos: int,
    len: int,
) -> bool {
    match phrase {
        Ok((query, end)) => r matches Ok((q, p)) && q@ == query && p == end && pos < end <= len,
        Err(error) => r matches Err(e) && e@ == error,
    }
}

/// Reads the operator of a comparison.
fn parse_operator(token: &str) -> (r: Option<ComparisonOp>)
    ensures
        r == grammar::operator(token@),
{
    if text::same(token, "=") {
        Some(ComparisonOp::Eq)
    } else if text::same(token, "!=") {
        Some(ComparisonOp::Ne)
    } else if text::same(token, "<") {
        Some(ComparisonOp::Lt)
    } else if text::same(token, "<=") {
        Some(ComparisonOp::Le)
    } else if text::same(token, ">") {
        Some(ComparisonOp::Gt)
    } else if text::same(token, ">=") {
        Some(ComparisonOp::Ge)
    } else if text::same(token, "~") {
        Some(ComparisonOp::Contains)
    } else {
        None
    }
}

/// Reads a comparison with a field.
fn parse_field_comparison(tokens: &Vec<String>, pos: usize) -> (r: Result<
    (Query, usize),
    ParseError,
>)
    requires
        pos <= tokens@.len(),
    ensures
        reads(
            r,
            grammar::field_comparison(token_views(tokens@), pos as int),
            pos as int,
            tokens@.len() as int,
        ),
{
    let Some(field) = token_ahead(tokens, pos, 0) else {
        return Err(incorrect("expected field name"));
    };
    let Some(operator) = token_ahead(tokens, pos, 1) else {
        return Err(incorrect("expected operator"));
    };
    let Some(op) = parse_operator(operator) else {
        return Err(ParseError::UnknownOperator(operator.to_owned()));
    };
    let Some(value_token) = token_ahead(tokens, pos, 2) else {
        return Err(incorrect("expected value"));
    };
    let value = if op == ComparisonOp::Contains {
        Value::String(value_token.to_owned())
    } else {
        Value::from_string(value_token)
    };
    Ok((Query::FieldComparison { field: field.to_owned(), op, value }, pos + 3))
}

/// Reads how many seconds ago a token says; as many as there can be, where the calendar does not go
/// back that far.
fn parse_seconds_ago(token: &str) -> (r: Option<u64>)
    ensures
        match grammar::seconds_ago(token@) {
            None => r is None,
            Some(seconds) => r matches Some(s) && (s == seconds || s == u64::MAX && seconds
                > 20_000_000_000_000),
        },
{
    let chars = text::chars_of(token);
    if chars.len() < 3 || chars[0] != '-' {
        return None;
    }
    let unit = chars[chars.len() - 1];
    let seconds: u64 = if unit == 's' {
        1
    } else if unit == 'm' {
        60
    } else if unit == 'h' {
        3_600
    } else if unit == 'd' {
        86_400
    } else {
        return None;
    };
    match decimal::digits_between(&chars, 1, chars.len() - 1, 20_000_000_000_000) {
        None => None,
        Some(None) => {
            proof {
                let n = decimal::digits_value(token@.subrange(1, token@.len() - 1));
                assert(n * seconds >= n) by (nonlinear_arith)
                    requires
                        seconds >= 1,
                ;
            }
            Some(u64::MAX)
        },
        Some(Some(n)) => {
            assert(n * seconds <= 20_000_000_000_000 * 86_400) by (nonlinear_arith)
                requires
                    n <= 20_000_000_000_000,
                    seconds <= 86_400,
            ;
            Some(n * seconds)
        },
    }
}

/// Reads an instant: `now`, a time ago, or an RFC 3339 text.
fn parse_time_value(token: &str, now: Timestamp) -> (r: Option<Timestamp>)
    ensures
        match grammar::time_value(token@, now@) {
            Some(t) => r matches Some(x) && x@ == t,
            None => r is None,
        },
{
    if text::same(token, "now") {
        return Some(now);
    }
    match parse_seconds_ago(token) {
        None => time::parse_rfc3339(token),
        Some(seconds) => now.earlier(seconds),
    }
}

/// Reads a bound on the time field.
fn parse_time_range(tokens: &Vec<String>, pos: usize, now: Timestamp) -> (r: Result<
    (Query, usize),
    ParseError,
>)
    requires
        pos < tokens@.len(),
    ensures
        reads(
            r,
            grammar::time_range(token_views(tokens@), pos as int, now@),
            pos as int,
            tokens@.len() as int,
        ),
{
    let Some(operator) = token_ahead(tokens, pos, 1) else {
        return Err(incorrect("expected operator"));
    };
    let before = text::same(operator, "<");
    if !before && !text::same(operator, ">") {
        return Err(ParseError::UnknownOperator(operator.to_owned()));
    }
    let Some(time_token) = token_ahead(tokens, pos, 2) else {
        return Err(incorrect("expected datetime value"));
    };
    let Some(time_value) = parse_time_value(time_token, now) else {
        return Err(
            incorrect("invalid datetime, expected RFC 3339 (e.g. 2026-01-15T00:00:00Z)"),
        );
    };
    if before {
        Ok((Query::TimeRange { start: None, end: Some(time_value) }, pos + 3))
    } else {
        Ok((Query::TimeRange { start: Some(time_value), end: None }, pos + 3))
    }
}

/// Reads a comparison.
fn parse_simple(tokens: &Vec<String>, pos: usize, reading: Reading) -> (r: Result<
    (Query, usize),
    ParseError,
>)
    requires
        pos <= tokens@.len(),
    ensures
        reads(
            r,
            grammar::simple(token_views(tokens@), pos as int, reading.view()),
            pos as int,
            tokens@.len() as int,
        ),
{
    let Some(field) = token_ahead(tokens, pos, 0) else {
        return Err(incorrect("expected field name"));
    };
    let timed = match reading.time_field {
        Some(time_field) => text::same(time_field, field),
        None => false,
    };
    if timed {
        parse_time_range(tokens, pos, reading.now)
    } else {
        parse_field_comparison(tokens, pos)
    }
}

/// Views of queries, with one more behind them.
proof fn lemma_push_query(parts: Seq<Query>, next: Query)
    ensures
        query::query_views(parts.push(next)) == query::query_views(parts).push(next@),
{
    assert(parts.push(next).drop_last() =~= parts);
}

/// Reads a filter in parentheses, or a comparison.
fn parse_primary(tokens: &Vec<String>, pos: usize, depth: usize, reading: Reading) -> (r: Result<
    (Query, usize),
    ParseError,
>)
    requires
        pos <= tokens@.len(),
        depth <= grammar::MAX_NESTING,
    ensures
        reads(
            r,
            grammar::primary(token_views(tokens@), pos as int, depth as nat, reading.view()),
            pos as int,
            tokens@.len() as int,
        ),
    decreases tokens@.len() - pos, 0int,
{
    if !token_is(tokens, pos, "(") {
        return parse_simple(tokens, pos, reading);
    }
    if depth >= grammar::MAX_NESTING {
        return Err(incorrect("parentheses nested too deeply (maximum 128)"));
    }
    match parse_or(tokens, pos + 1, depth + 1, reading) {
        Err(e) => Err(e),
        Ok((inner, end)) => if token_is(tokens, end, ")") {
            Ok((inner, end + 1))
        } else {
            Err(incorrect("expected ')'"))
        },
    }
}

/// Reads a primary after any number of `NOT`.
fn parse_not(tokens: &Vec<String>, pos: usize, depth: usize, reading: Reading) -> (r: Result<
    (Query, usize),
    ParseError,
>)
    requires
        pos <= tokens@.len(),
        depth <= grammar::MAX_NESTING,
    ensures
        reads(
            r,
            grammar::negation(token_views(tokens@), pos as int, depth as nat, reading.view()),
            pos as int,
            tokens@.len() as int,
        ),
    decreases tokens@.len() - pos, 1int,
{
    let ghost views = token_views(tokens@);
    let mut start: usize = pos;
    let mut odd = false;
    while token_is(tokens, start, "NOT")
        invariant
            pos <= start <= tokens@.len(),
            views == token_views(tokens@),
            grammar::leading_nots(views, pos as int) == start - pos + grammar::leading_nots(
                views,
                start as int,
            ),
            odd == ((start - pos) % 2 == 1),
        decreases tokens@.len() - start,
    {
        start += 1;
        odd = !odd;
    }
    match parse_primary(tokens, start, depth, reading) {
        Err(e) => Err(e),
        Ok((inner, end)) => if odd {
            Ok((Query::Not(Box::new(inner)), end))
        } else {
            Ok((inner, end))
        },
    }
}

/// Reads negations with `AND` between them.
fn parse_and(tokens: &Vec<String>, pos: usize, depth: usize, reading: Reading) -> (r: Result<
    (Query, usize),
    ParseError,
>)
    requires
        pos <= tokens@.len(),
        depth <= grammar::MAX_NESTING,
    ensures
        reads(
            r,
            grammar::conjunction(token_views(tokens@), pos as int, depth as nat, reading.view()),
            pos as int,
            tokens@.len() as int,
        ),
    decreases tokens@.len() - pos, 3int,
{
    let ghost views = token_views(tokens@);
    let (first, first_end) = match parse_not(tokens, pos, depth, reading) {
        Err(e) => return Err(e),
        Ok(phrase) => phrase,
    };
    let mut parts: Vec<Query> = Vec::new();
    proof {
        lemma_push_query(parts@, first);
    }
    parts.push(first);
    let mut end = first_end;
    assert(query::query_views(parts@) =~= seq![first@]);
    while token_is(tokens, end, "AND")
        invariant
            pos < end <= tokens@.len(),
            depth <= grammar::MAX_NESTING,
            views == token_views(tokens@),
            parts@.len() > 0,
            grammar::more_conjuncts(
                query::query_views(parts@),
                views,
                end as int,
                depth as nat,
                reading.view(),
            ) == grammar::more_conjuncts(
                seq![first@],
                views,
                first_end as int,
                depth as nat,
                reading.view(),
            ),
            grammar::negation(views, pos as int, depth as nat, reading.view())
                == Ok::<_, ErrorView>((first@, first_end as int)),
            pos < first_end <= tokens@.len(),
        decreases tokens@.len() - end,
    {
        let (next, next_end) = match parse_not(tokens, end + 1, depth, reading) {
            Err(e) => return Err(e),
            Ok(phrase) => phrase,
        };
        proof {
            lemma_push_query(parts@, next);
        }
        parts.push(next);
        end = next_end;
    }
    proof {
        query::lemma_query_views(parts@);
    }
    if parts.len() == 1 {
        Ok((parts.swap_remove(0), end))
    } else {
        Ok((Query::And(parts), end))
    }
}

/// Reads conjunctions with `OR` between them.
fn parse_or(tokens: &Vec<String>, pos: usize, depth: usize, reading: Reading) -> (r: Result<
    (Query, usize),
    ParseError,
>)
    requires
        pos <= tokens@.len(),
        depth <= grammar::MAX_NESTING,
    ensures
        reads(
            r,
            grammar::disjunction(token_views(tokens@), pos as int, depth as nat, reading.view()),
            pos as int,
            tokens@.len() as int,
        ),
    decreases tokens@.len() - pos, 5int,
{
    let ghost views = token_views(tokens@);
    let (first, first_end) = match parse_and(tokens, pos, depth, reading) {
        Err(e) => return Err(e),
        Ok(phrase) => phrase,
    };
    let mut parts: Vec<Query> = Vec::new();
    proof {
        lemma_push_query(parts@, first);
    }
    parts.push(first);
    let mut end = first_end;
    assert(query::query_views(parts@) =~= seq![first@]);
    while token_is(tokens, end, "OR")
        invariant
            pos < end <= tokens@.len(),
            depth <= grammar::MAX_NESTING,
            views == token_views(tokens@),
            parts@.len() > 0,
            grammar::more_disjuncts(
                query::query_views(parts@),
                views,
                end as int,
                depth as nat,
                reading.view(),
            ) == grammar::more_disjuncts(
                seq![first@],
                views,
                first_end as int,
                depth as nat,
                reading.view(),
            ),
            grammar::conjunction(views, pos as int, depth as nat, reading.view())
                == Ok::<_, ErrorView>((first@, first_end as int)),
            pos < first_end <= tokens@.len(),
        decreases tokens@.len() - end,
    {
        let (next, next_end) = match parse_and(tokens, end + 1, depth, reading) {
            Err(e) => return Err(e),
            Ok(phrase) => phrase,
        };
        proof {
            lemma_push_query(parts@, next);
        }
        parts.push(next);
        end = next_end;
    }
    proof {
        query::lemma_query_views(parts@);
    }
    if parts.len() == 1 {
        Ok((parts.swap_remove(0), end))
    } else {
        Ok((Query::Or(parts), end))
    }
}

/// A stage of a pipeline: an aggregation or a limit.
#[derive(Debug)]
enum PipelineStage {
    Aggregate(Aggregation),
    Keep(Limit),
}

impl PipelineStage {
    spec fn view(self) -> Stage {
        match self {
            PipelineStage::Aggregate(aggregation) => Stage::Aggregate(aggregation@),
            PipelineStage::Keep(limit) => Stage::Keep(limit),
        }
    }
}

/// Whether a stage was read as the grammar says.
spec fn reads_stage(
    r: Result<PipelineStage, ParseError>,
    phrase: Result<Stage, ErrorView>,
) -> bool {
    match phrase {
        Ok(stage) => r matches Ok(s) && s.view() == stage,
        Err(error) => r matches Err(e) && e@ == error,
    }
}

/// Reads what follows `count`.
fn parse_count(tokens: &Vec<String>, pos: usize) -> (r: Result<PipelineStage, ParseError>)
    requires
        pos < tokens@.len(),
    ensures
        reads_stage(r, grammar::count_stage(token_views(tokens@), pos as int)),
{
    let Some(next) = token_ahead(tokens, pos, 1) else {
        return Ok(PipelineStage::Aggregate(Aggregation::Count));
    };
    if !text::same(text::to_lowercase(next).as_str(), "by") {
        return Err(unexpected_token(tokens, pos + 1));
    }
    let Some(field) = token_ahead(tokens, pos, 2) else {
        return Err(incorrect("no field to count by"));
    };
    if token_ahead(tokens, pos, 3).is_some() {
        return Err(unexpected_token(tokens, pos + 3));
    }
    Ok(PipelineStage::Aggregate(Aggregation::CountBy(field.to_owned())))
}

/// Reads the one argument of a stage, with nothing after it.
fn parse_argument<'a>(tokens: &'a Vec<String>, pos: usize, missing: &str) -> (r: Result<
    &'a str,
    ParseError,
>)
    requires
        pos < tokens@.len(),
    ensures
        match grammar::sole_argument(token_views(tokens@), pos as int, missing@) {
            Ok(argument) => r matches Ok(a) && a@ == argument,
            Err(error) => r matches Err(e) && e@ == error,
        },
{
    let Some(argument) = token_ahead(tokens, pos, 1) else {
        return Err(incorrect(missing));
    };
    if token_ahead(tokens, pos, 2).is_some() {
        return Err(unexpected_token(tokens, pos + 2));
    }
    Ok(argument)
}

/// Reads the field of an aggregation over one.
fn parse_field_stage(tokens: &Vec<String>, pos: usize, name: &str) -> (r: Result<
    PipelineStage,
    ParseError,
>)
    requires
        pos < tokens@.len(),
        grammar::field_aggregation(name@, Seq::empty()) is Some,
    ensures
        reads_stage(r, grammar::field_stage(token_views(tokens@), pos as int, name@)),
{
    let mut missing = text::concat("'", name, "' requires a field name, e.g.: ");
    missing.append(name);
    missing.append(" latency_ms");
    let field = match parse_argument(tokens, pos, missing.as_str()) {
        Err(e) => return Err(e),
        Ok(field) => field.to_owned(),
    };
    let aggregation = if text::same(name, "avg") {
        Aggregation::Average(field)
    } else if text::same(name, "sum") {
        Aggregation::Sum(field)
    } else if text::same(name, "min") {
        Aggregation::Min(field)
    } else {
        Aggregation::Max(field)
    };
    Ok(PipelineStage::Aggregate(aggregation))
}

/// Reads a percentage, and the field to take a percentile of.
fn parse_percentile(tokens: &Vec<String>, pos: usize, name: &str) -> (r: Result<
    PipelineStage,
    ParseError,
>)
    requires
        pos < tokens@.len(),
        name@.len() > 0,
    ensures
        reads_stage(r, grammar::percentile_stage(token_views(tokens@), pos as int, name@)),
{
    let digits = text::without_first(name);
    let Some(n) = decimal::parse_number(digits.as_str(), 255) else {
        return Err(
            ParseError::IncorrectFormat(text::concat("invalid percentile '", name, "'")),
        );
    };
    if n == 0 || n > 100 {
        return Err(
            ParseError::IncorrectFormat(
                text::concat2("percentile must be 1-100, got ", decimal::decimal(n).as_str()),
            ),
        );
    }
    let missing = text::concat("no field for '", name, "' aggregation");
    match parse_argument(tokens, pos, missing.as_str()) {
        Err(e) => Err(e),
        Ok(field) => Ok(
            PipelineStage::Aggregate(
                Aggregation::Percentage(field.to_owned(), arithmetic::fraction_of(n as u8)),
            ),
        ),
    }
}

/// Reads how many events to keep.
fn parse_limit(tokens: &Vec<String>, pos: usize, name: &str) -> (r: Result<
    PipelineStage,
    ParseError,
>)
    requires
        pos < tokens@.len(),
    ensures
        reads_stage(r, grammar::limit_stage(token_views(tokens@), pos as int, name@)),
{
    let mut missing = text::concat("'", name, "' requires a number, e.g.: ");
    missing.append(name);
    missing.append(" 10");
    let argument = match parse_argument(tokens, pos, missing.as_str()) {
        Err(e) => return Err(e),
        Ok(argument) => argument,
    };
    let Some(n) = decimal::parse_number(argument, usize::MAX as u64) else {
        let mut message = text::concat("invalid ", name, " '");
        message.append(argument);
        message.append("'");
        return Err(ParseError::IncorrectFormat(message));
    };
    if text::same(name, "limit") {
        Ok(PipelineStage::Keep(Limit::Head(n as usize)))
    } else {
        Ok(PipelineStage::Keep(Limit::Tail(n as usize)))
    }
}

/// Reads the stage that stands behind a `|`.
fn parse_aggregation(tokens: &Vec<String>, pos: usize) -> (r: Result<PipelineStage, ParseError>)
    requires
        pos <= tokens@.len(),
    ensures
        reads_stage(r, grammar::stage(token_views(tokens@), pos as int)),
{
    let Some(token) = token_ahead(tokens, pos, 0) else {
        return Err(incorrect("no aggregator after '|'"));
    };
    let lowered = text::to_lowercase(token);
    let name = lowered.as_str();
    if text::same(name, "count") {
        parse_count(tokens, pos)
    } else if text::same(name, "avg") || text::same(name, "sum") || text::same(name, "min")
        || text::same(name, "max") {
        parse_field_stage(tokens, pos, name)
    } else if text::same(name, "limit") || text::same(name, "tail") {
        parse_limit(tokens, pos, name)
    } else if text::starts_with(name, 'p') {
        parse_percentile(tokens, pos, name)
    } else {
        Err(
            ParseError::IncorrectFormat(
                text::concat(
                    "unknown aggregator '",
                    name,
                    "'; expected: count, avg, or p<N> (e.g. p99)",
                ),
            ),
        )
    }
}

/// The plan of a filter and a stage.
fn plan_with(query: Query, stage: PipelineStage) -> (r: QueryPlan)
    ensures
        r@ == grammar::plan_with(query@, stage.view()),
{
    match stage {
        PipelineStage::Aggregate(aggregation) => QueryPlan::new(query, Some(aggregation), None),
        PipelineStage::Keep(limit) => QueryPlan::new(query, None, Some(limit)),
    }
}

/// Reads a query, at the current time.
pub fn parse_query(query_string: &str, time_field: Option<&str>, now: Timestamp) -> (r: Result<
    QueryPlan,
    ParseError,
>)
    ensures
        match parsed(query_string@, time_field, now) {
            Ok(plan) => r matches Ok(p) && p@ == plan,
            Err(error) => r matches Err(e) && e@ == error,
        },
{
    let tokens = tokenize(query_string);
    let reading = Reading { time_field, now };
    if tokens.len() == 0 {
        return Err(incorrect("empty query"));
    }
    if token_is(&tokens, 0, "|") {
        return match parse_aggregation(&tokens, 1) {
            Err(e) => Err(e),
            Ok(stage) => Ok(plan_with(Query::All(), stage)),
        };
    }
    let (query, end) = match parse_or(&tokens, 0, 0, reading) {
        Err(e) => return Err(e),
        Ok(phrase) => phrase,
    };
    if end == tokens.len() {
        return Ok(QueryPlan::new(query, None, None));
    }
    if !token_is(&tokens, end, "|") {
        return Err(unexpected_token(&tokens, end));
    }
    match parse_aggregation(&tokens, end + 1) {
        Err(e) => Err(e),
        Ok(stage) => Ok(plan_with(query, stage)),
    }
}

} // verus!
