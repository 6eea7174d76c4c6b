//! Laws of requests and responses: what each request leads to, how results read, and how a client
//! ends.

use crate::client;
use crate::client::{Mode, OutcomeView};
use crate::decimal;
use crate::event::EventView;
use crate::grammar;
use crate::handler;
use crate::handler::ReactionView;
use crate::index;
use crate::index::{AggregationErrorView, Index};
use crate::message::{MessageKind, MessageView};
use crate::parser;
use crate::query;
use crate::query::{PlanView, ResultView};
use crate::text;
use vstd::prelude::*;

verus! {

/// Whether a text ends in another.
pub open spec fn ends_in(text: Seq<char>, end: Seq<char>) -> bool {
    end.len() <= text.len() && text.skip(text.len() - end.len()) == end
}

/// The daemon is stopped by a request to stop alone, and watches another file on a request to watch
/// alone. A query is answered with its result, or with an error; nothing is followed but a filter
/// without a stage, on a request to follow. Whatever is refused is answered with an error, and does
/// nothing else.
pub proof fn law_requests_lead_to_what_they_ask_for(
    reaction: ReactionView,
    kind: MessageKind,
    plan: Result<PlanView, grammar::ErrorView>,
    events: Seq<EventView>,
)
    requires
        handler::reacts(reaction, kind, plan, events),
    ensures
        reaction is Stop <==> kind == MessageKind::Shutdown,
        reaction matches ReactionView::Stop(message) ==> message.message_kind
            == MessageKind::ShutdownAck && message.data.len() == 0,
        reaction is Rewatch <==> kind == MessageKind::Watch,
        reaction is Follow <==> kind == MessageKind::Follow && plan is Ok && plan->Ok_0.aggregation
            is None && plan->Ok_0.limit is None,
        reaction matches ReactionView::Follow(filter) ==> filter == plan->Ok_0.query,
        reaction matches ReactionView::Answer(result) ==> {
            &&& kind == MessageKind::Query
            &&& plan is Ok
            &&& index::answers(
                index::selected(events, plan->Ok_0.query),
                plan->Ok_0,
                Ok::<_, AggregationErrorView>(result),
            )
        },
        reaction matches ReactionView::Respond(message) ==> message.message_kind
            == MessageKind::QueryError,
        reaction is Respond && kind == MessageKind::Query && plan is Ok ==> exists|
            error: AggregationErrorView,
        |
            #![trigger index::aggregation_error_text(error)]
            index::answers(
                index::selected(events, plan->Ok_0.query),
                plan->Ok_0,
                Err::<ResultView, _>(error),
            ) && reaction->Respond_0.data == index::aggregation_error_text(error),
        kind == MessageKind::Query && plan is Ok && (plan->Ok_0.aggregation is None || (
        plan->Ok_0.aggregation matches Some(a) && (a is Count || a is CountBy))) ==> reaction is
            Answer,
        plan is Err && (kind == MessageKind::Query || kind == MessageKind::Follow) ==> reaction
            is Respond,
        kind == MessageKind::QueryResponse || kind == MessageKind::QueryError || kind
            == MessageKind::ShutdownAck || kind == MessageKind::WatchAck ==> reaction is Respond,
{
}

/// What cannot be read is answered with why, to its last letter.
pub proof fn law_refusals_say_why(error: grammar::ErrorView)
    ensures
        ends_in(
            parser::parse_error_text(error),
            match error {
                grammar::ErrorView::IncorrectFormat(message) => message,
                grammar::ErrorView::UnknownOperator(operator) => operator,
            },
        ),
        handler::refusal(parser::parse_error_text(error)) == ReactionView::Respond(
            MessageView {
                message_kind: MessageKind::QueryError,
                data: parser::parse_error_text(error),
            },
        ),
{
    match error {
        grammar::ErrorView::IncorrectFormat(message) => lemma_added_ends(
            "incorrect format: "@,
            message,
        ),
        grammar::ErrorView::UnknownOperator(operator) => lemma_added_ends(
            "unknown operator: "@,
            operator,
        ),
    }
}

proof fn lemma_added_ends(start: Seq<char>, end: Seq<char>)
    ensures
        ends_in(start + end, end),
{
    assert((start + end).skip(start.len() as int) =~= end);
}

/// Events read as their lines, as they are, one below the other in their order; a count reads as its
/// digits.
pub proof fn law_results_read_line_by_line(
    events: Seq<EventView>,
    event: EventView,
    n: nat,
    number_text: Seq<char>,
)
    ensures
        query::result_text(ResultView::Events(Seq::empty()), number_text).len() == 0,
        query::result_text(ResultView::Events(seq![event]), number_text) == event.raw,
        events.len() > 0 ==> query::result_text(
            ResultView::Events(events.push(event)),
            number_text,
        ) == query::result_text(ResultView::Events(events), number_text) + seq!['\n'] + event.raw,
        forall|bits: u32| #[trigger]
            query::result_text(ResultView::Scalar(bits), number_text) == number_text,
        decimal::number_of(query::result_text(ResultView::Count(n), number_text), n) == Some(n),
        decimal::number_of(query::result_text(ResultView::CountBy(n), number_text), n) == Some(n),
{
    decimal::law_decimal_round_trip(n, n);
    let none = query::raw_lines(Seq::<EventView>::empty());
    assert(none.len() == 0);
    let one = query::raw_lines(seq![event]);
    assert(one.len() == 1 && one[0] == event.raw);
    let before = query::raw_lines(events);
    let after = query::raw_lines(events.push(event));
    assert(after =~= before.push(event.raw));
    if events.len() > 0 {
        assert(after.drop_last() =~= before);
        assert(text::joined_lines(before).push('\n') =~= text::joined_lines(before) + seq!['\n']);
    }
}

/// The text of an index is the lines of its events, each with a line feed behind it.
pub proof fn law_the_text_of_an_index_is_its_lines(events: Seq<EventView>, event: EventView)
    ensures
        text::ended_lines(query::raw_lines(Seq::<EventView>::empty())).len() == 0,
        text::ended_lines(query::raw_lines(events.push(event))) == text::ended_lines(
            query::raw_lines(events),
        ) + event.raw + seq!['\n'],
{
    let before = query::raw_lines(events);
    let after = query::raw_lines(events.push(event));
    assert(after =~= before.push(event.raw));
    assert(after.drop_last() =~= before);
    let front = text::ended_lines(before) + event.raw;
    assert(front.push('\n') =~= front + seq!['\n']);
}

/// What an index holds is what its events hold, one by one.
pub proof fn law_an_index_shows_its_events(index: Index)
    ensures
        index.view().len() == index.events@.len(),
        forall|i: int|
            0 <= i < index.events@.len() ==> {
                let event = #[trigger] index.events@[i];
                &&& index.view()[i].raw == event.raw@
                &&& index.view()[i].fields == event.fields@
                &&& index.view()[i].timestamp is Some <==> event.timestamp is Some
                &&& event.timestamp matches Some(t) ==> index.view()[i].timestamp == Some(t@)
            },
{
}

/// A client prints what a response to its query says, as it is, and succeeds; in every other case it
/// fails, and where the daemon has said why, it says so. A daemon is stopped if it says so.
pub proof fn law_clients_tell_responses_apart(response: Option<MessageView>, printed: Seq<char>)
    ensures
        client::query_end(response) == OutcomeView::Print(printed) <==> (response matches Some(
            message,
        ) && message.message_kind == MessageKind::QueryResponse && message.data == printed),
        client::query_end(response) is Print <==> (response matches Some(message)
            && message.message_kind == MessageKind::QueryResponse),
        response matches Some(message) ==> (message.message_kind == MessageKind::QueryError ==> (
        client::query_end(response) matches OutcomeView::Fail(said) && ends_in(
            said,
            message.data,
        ))),
        client::stop_end(response) is Print <==> (response matches Some(message)
            && message.message_kind == MessageKind::ShutdownAck),
{
    if let Some(message) = response {
        lemma_added_ends("Error: "@, message.data);
    }
}

/// What an aggregation could not do is told with the name of its field, where that is why.
pub proof fn law_errors_name_the_field(field: Seq<char>)
    ensures
        exists|before: Seq<char>, after: Seq<char>|
            #![trigger before + field + after]
            index::aggregation_error_text(AggregationErrorView::FieldNotFound(field)) == before
                + field + after,
        exists|before: Seq<char>, after: Seq<char>|
            #![trigger before + field + after]
            index::aggregation_error_text(AggregationErrorView::IncompatibleType(field)) == before
                + field + after,
{
    let missing = index::aggregation_error_text(AggregationErrorView::FieldNotFound(field));
    assert(missing == "field '"@ + field + "' not found in any matching event"@);
    let wrong = index::aggregation_error_text(AggregationErrorView::IncompatibleType(field));
    assert(wrong == "field '"@ + field + "' has incompatible type for numeric aggregation"@);
}

/// To stop goes before everything else. Else a file alone is watched, a query alone is sent, and
/// followed where that is asked for; both or neither, or following without a query, makes no sense.
pub proof fn law_arguments_decide_the_mode(
    has_watch: bool,
    has_query: bool,
    stop: bool,
    follow: bool,
)
    ensures
        ({
            let mode = client::mode_of(has_watch, has_query, stop, follow);
            &&& mode == Mode::Stop <==> stop
            &&& mode == Mode::Daemon <==> !stop && !follow && has_watch && !has_query
            &&& mode == Mode::Query <==> !stop && !follow && has_query && !has_watch
            &&& mode == Mode::Follow <==> !stop && follow && has_query && !has_watch
        }),
{
}

} // verus!
