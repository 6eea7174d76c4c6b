//! What the daemon does with a client's request.

use crate::grammar;
use crate::grammar_laws;
use crate::index;
use crate::index::{AggregationErrorView, Index};
use crate::index_laws;
use crate::message::{Message, MessageKind, MessageView, WatchPayload};
use crate::parser;
use crate::query;
use crate::query::{Query, QueryResult, QueryView, ResultView};
use crate::text;
use crate::time::Timestamp;
use vstd::prelude::*;

verus! {

/// The most bytes that a request may have.
pub const MAX_REQUEST_BYTES: u64 = 1_048_576;

/// Why a request is not admitted.
#[derive(Debug, PartialEq, Eq)]
pub enum HandlerError {
    /// Reading the request failed, by what the message says.
    Io(String),
}

/// How an error reads.
pub open spec fn handler_error_text(error: HandlerError) -> Seq<char> {
    match error {
        HandlerError::Io(message) => "io error: "@ + message@,
    }
}

impl HandlerError {
    /// How the error reads.
    pub fn to_text(&self) -> (r: String)
        ensures
            r@ == handler_error_text(*self),
    {
        match self {
            HandlerError::Io(message) => text::concat2("io error: ", message.as_str()),
        }
    }
}

/// Admits a request by its length.
pub fn check_size(request_len: u64) -> (r: Result<(), HandlerError>)
    ensures
        request_len <= MAX_REQUEST_BYTES ==> r is Ok,
        request_len > MAX_REQUEST_BYTES ==> (r matches Err(HandlerError::Io(message)) && message@
            == "request exceeds maximum size"@),
        r is Ok <==> request_len <= 1024 * 1024,
{
    if request_len > MAX_REQUEST_BYTES {
        Err(HandlerError::Io("request exceeds maximum size".to_owned()))
    } else {
        Ok(())
    }
}

/// What to do with a request.
#[derive(Debug)]
pub enum Reaction<'a> {
    /// Send this response.
    Respond(Message),
    /// Send this result.
    Answer(QueryResult<'a>),
    /// Send this response and stop the daemon.
    Stop(Message),
    /// Read which file to watch from the request, and switch to it.
    Rewatch,
    /// Send every new event that the filter matches.
    Follow(Query),
}

/// What a [`Reaction`] holds.
pub enum ReactionView {
    Respond(MessageView),
    Answer(ResultView),
    Stop(MessageView),
    Rewatch,
    Follow(QueryView),
}

impl<'a> View for Reaction<'a> {
    type V = ReactionView;

    open spec fn view(&self) -> ReactionView {
        match self {
            Reaction::Respond(message) => ReactionView::Respond(message@),
            Reaction::Answer(result) => ReactionView::Answer(result@),
            Reaction::Stop(message) => ReactionView::Stop(message@),
            Reaction::Rewatch => ReactionView::Rewatch,
            Reaction::Follow(filter) => ReactionView::Follow(filter@),
        }
    }
}

/// The reaction that reports an error.
pub open spec fn refusal(said: Seq<char>) -> ReactionView {
    ReactionView::Respond(MessageView { message_kind: MessageKind::QueryError, data: said })
}

/// Whether a reaction reports the outcome of a plan.
pub open spec fn reports(
    reaction: ReactionView,
    outcome: Result<ResultView, AggregationErrorView>,
) -> bool {
    match outcome {
        Ok(result) => reaction == ReactionView::Answer(result),
        Err(error) => reaction == refusal(index::aggregation_error_text(error)),
    }
}

/// Whether a reaction is the one to a query over some events.
pub open spec fn answers_query(
    reaction: ReactionView,
    plan: Result<query::PlanView, grammar::ErrorView>,
    events: Seq<crate::event::EventView>,
) -> bool {
    match plan {
        Err(error) => reaction == refusal(parser::parse_error_text(error)),
        Ok(plan) => exists|outcome: Result<ResultView, AggregationErrorView>| #[trigger]
            index::answers(index::selected(events, plan.query), plan, outcome) && reports(
                reaction,
                outcome,
            ),
    }
}

/// Whether there is a reaction to a request over some events: a query that can be read has an
/// answer.
pub open spec fn is_answerable(
    kind: MessageKind,
    plan: Result<query::PlanView, grammar::ErrorView>,
    events: Seq<crate::event::EventView>,
) -> bool {
    kind is Query ==> match plan {
        Err(_) => true,
        Ok(plan) => index::has_answer(index::selected(events, plan.query), plan),
    }
}

/// The reaction to a query that is to be followed.
pub open spec fn followed(plan: Result<query::PlanView, grammar::ErrorView>) -> ReactionView {
    match plan {
        Err(error) => refusal(parser::parse_error_text(error)),
        Ok(plan) => if plan.aggregation is Some || plan.limit is Some {
            refusal("a followed query cannot have a pipeline stage"@)
        } else {
            ReactionView::Follow(plan.query)
        },
    }
}

/// What a query is read in.
spec fn context(time_field: Option<&str>, now: Timestamp) -> grammar::Context {
    grammar::Context {
        time_field: match time_field {
            Some(field) => Some(field@),
            None => None,
        },
        now: now@,
    }
}

/// Tells whether there is a reaction to a request.
///
/// There is one over at most 2^24 events. Over more, a percentile's rank, which is rounded to
/// single precision, may lie past the numbers to pick from.
pub fn can_handle(
    request: &Message,
    index: &Index,
    time_field: Option<&str>,
    now: Timestamp,
) -> (r: bool)
    requires
        index.wf(),
    ensures
        r == is_answerable(
            request.message_kind,
            parser::parsed(request.data@, time_field, now),
            index.view(),
        ),
        index.view().len() <= 0x100_0000 ==> r,
{
    proof {
        let plan = parser::parsed(request.data@, time_field, now);
        grammar_laws::law_parsed_plans_can_run(
            grammar::tokens_of(request.data@),
            context(time_field, now),
        );
        if plan is Ok && index.view().len() <= 0x100_0000 {
            index_laws::law_plans_have_answers(index.view(), plan->Ok_0);
        }
    }
    if index.event_count() <= 0x100_0000 {
        return true;
    }
    match request.message_kind {
        MessageKind::Query => match parser::parse_query(request.data.as_str(), time_field, now) {
            Err(_) => true,
            Ok(plan) => index.can_apply(&plan),
        },
        _ => true,
    }
}

/// Decides what to do with a request.
pub fn handle_client<'a>(
    request: &Message,
    index: &'a Index,
    time_field: Option<&str>,
    now: Timestamp,
) -> (r: Reaction<'a>)
    requires
        index.wf(),
        is_answerable(
            request.message_kind,
            parser::parsed(request.data@, time_field, now),
            index.view(),
        ),
    ensures
        reacts(
            r@,
            request.message_kind,
            parser::parsed(request.data@, time_field, now),
            index.view(),
        ),
{
    match request.message_kind {
        MessageKind::Query => answer_query(request.data.as_str(), index, time_field, now),
        MessageKind::Follow => follow(request.data.as_str(), time_field, now),
        MessageKind::Shutdown => {
            let empty = String::new();
            assert(empty@ =~= Seq::empty());
            Reaction::Stop(Message::new(MessageKind::ShutdownAck, empty))
        },
        MessageKind::Watch => Reaction::Rewatch,
        _ => refuse("invalid request kind".to_owned()),
    }
}

/// Whether a reaction is the one to a request over some events.
pub open spec fn reacts(
    reaction: ReactionView,
    kind: MessageKind,
    plan: Result<query::PlanView, grammar::ErrorView>,
    events: Seq<crate::event::EventView>,
) -> bool {
    match kind {
        MessageKind::Query => answers_query(reaction, plan, events),
        MessageKind::Follow => reaction == followed(plan),
        MessageKind::Shutdown => reaction == ReactionView::Stop(
            MessageView { message_kind: MessageKind::ShutdownAck, data: Seq::empty() },
        ),
        MessageKind::Watch => reaction == ReactionView::Rewatch,
        _ => reaction == refusal("invalid request kind"@),
    }
}

/// Decides what to do with what a client has sent: a request, or something that could not be read
/// as one, by what the message says. The latter is answered with an error, and does nothing else.
pub fn handle_request<'a>(
    decoded: &Result<Message, String>,
    index: &'a Index,
    time_field: Option<&str>,
    now: Timestamp,
) -> (r: Reaction<'a>)
    requires
        index.wf(),
        decoded matches Ok(request) ==> is_answerable(
            request.message_kind,
            parser::parsed(request.data@, time_field, now),
            index.view(),
        ),
    ensures
        match *decoded {
            Ok(request) => reacts(
                r@,
                request.message_kind,
                parser::parsed(request.data@, time_field, now),
                index.view(),
            ),
            Err(said) => r@ == refusal(said@),
        },
        r@ is Stop <==> (decoded matches Ok(request) && request.message_kind is Shutdown),
        r@ is Rewatch <==> (decoded matches Ok(request) && request.message_kind is Watch),
{
    match decoded {
        Ok(request) => handle_client(request, index, time_field, now),
        Err(said) => refuse(said.clone()),
    }
}

/// Decides on a decoded request, or on why it could not be decoded, for any index: gives nothing
/// where a query has no answer.
pub fn try_handle<'a>(
    decoded: &Result<Message, String>,
    index: &'a Index,
    time_field: Option<&str>,
    now: Timestamp,
) -> (r: Option<Reaction<'a>>)
    requires
        index.wf(),
    ensures
        match *decoded {
            Ok(request) => {
                let plan = parser::parsed(request.data@, time_field, now);
                match r {
                    Some(reaction) => is_answerable(request.message_kind, plan, index.view())
                        && reacts(reaction@, request.message_kind, plan, index.view()),
                    None => !is_answerable(request.message_kind, plan, index.view()),
                }
            },
            Err(said) => r matches Some(reaction) && reaction@ == refusal(said@),
        },
        index.view().len() <= 0x100_0000 ==> r is Some,
{
    if let Ok(request) = decoded {
        if !can_handle(request, index, time_field, now) {
            return None;
        }
    }
    Some(handle_request(decoded, index, time_field, now))
}

/// The response that reports an error.
fn refuse<'a>(said: String) -> (r: Reaction<'a>)
    ensures
        r@ == refusal(said@),
{
    Reaction::Respond(Message::new(MessageKind::QueryError, said))
}

/// Runs a query.
fn answer_query<'a>(
    data: &str,
    index: &'a Index,
    time_field: Option<&str>,
    now: Timestamp,
) -> (r: Reaction<'a>)
    requires
        index.wf(),
        is_answerable(
            MessageKind::Query,
            parser::parsed(data@, time_field, now),
            index.view(),
        ),
    ensures
        answers_query(r@, parser::parsed(data@, time_field, now), index.view()),
{
    let plan = match parser::parse_query(data, time_field, now) {
        Err(e) => {
            return refuse(e.to_text());
        },
        Ok(plan) => plan,
    };
    proof {
        grammar_laws::law_parsed_plans_can_run(
            grammar::tokens_of(data@),
            context(time_field, now),
        );
    }
    let outcome = index.apply_query_plan(&plan);
    let ghost seen = index::outcome_view(outcome);
    let reaction = match outcome {
        Err(e) => refuse(e.to_text()),
        Ok(result) => Reaction::Answer(result),
    };
    assert(reports(reaction@, seen));
    reaction
}

/// Reads a query that is to be followed.
fn follow<'a>(
    data: &str,
    time_field: Option<&str>,
    now: Timestamp,
) -> (r: Reaction<'a>)
    ensures
        r@ == followed(parser::parsed(data@, time_field, now)),
{
    match parser::parse_query(data, time_field, now) {
        Err(e) => refuse(e.to_text()),
        Ok(plan) => if plan.aggregation.is_some() || plan.limit.is_some() {
            refuse("a followed query cannot have a pipeline stage".to_owned())
        } else {
            Reaction::Follow(plan.query)
        },
    }
}

/// The response that carries a result, given how its number reads.
pub fn response(result: &QueryResult, number_text: &str) -> (r: Message)
    ensures
        r@ == (MessageView {
            message_kind: MessageKind::QueryResponse,
            data: query::result_text(result@, number_text@),
        }),
{
    Message::new(MessageKind::QueryResponse, result.to_text(number_text))
}

/// Takes a decoded request to watch a file: what to watch and what to respond, or, where it could
/// not be decoded, the response that says why.
pub fn rewatch(decoded: Result<WatchPayload, String>) -> (r: Result<
    (WatchPayload, Message),
    Message,
>)
    ensures
        match decoded {
            Ok(payload) => r matches Ok((p, m)) && p == payload && m@ == (MessageView {
                message_kind: MessageKind::WatchAck,
                data: Seq::empty(),
            }),
            Err(said) => r matches Err(m) && m@ == (MessageView {
                message_kind: MessageKind::QueryError,
                data: said@,
            }),
        },
{
    match decoded {
        Ok(payload) => {
            let empty = String::new();
            assert(empty@ =~= Seq::empty());
            Ok((payload, Message::new(MessageKind::WatchAck, empty)))
        },
        Err(said) => Err(Message::new(MessageKind::QueryError, said)),
    }
}

} // verus!
