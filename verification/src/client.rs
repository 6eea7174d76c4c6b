//! What the command line asks for, and what a client makes of the daemon's responses.

use crate::message::{Message, MessageKind, MessageView};
use crate::text;
use vstd::prelude::*;

verus! {

/// What the program is run for.
#[derive(Debug, PartialEq, Eq, Clone, Copy, Structural)]
pub enum Mode {
    /// Stop the running daemon.
    Stop,
    /// Watch a file.
    Daemon,
    /// Send a query.
    Query,
    /// Send a query, and print new events that it matches as they come.
    Follow,
    /// Nothing that makes sense: explain the usage.
    Usage,
}

/// What the program is run for, by which arguments are there.
pub open spec fn mode_of(has_watch: bool, has_query: bool, stop: bool, follow: bool) -> Mode {
    if stop {
        Mode::Stop
    } else if has_watch && !has_query && !follow {
        Mode::Daemon
    } else if has_query && !has_watch {
        if follow {
            Mode::Follow
        } else {
            Mode::Query
        }
    } else {
        Mode::Usage
    }
}

/// Tells what the program is run for by which arguments are there.
pub fn mode(has_watch: bool, has_query: bool, stop: bool, follow: bool) -> (r: Mode)
    ensures
        r == if stop {
            Mode::Stop
        } else if has_watch && !has_query && !follow {
            Mode::Daemon
        } else if has_query && !has_watch {
            if follow {
                Mode::Follow
            } else {
                Mode::Query
            }
        } else {
            Mode::Usage
        },
        r == mode_of(has_watch, has_query, stop, follow),
{
    if stop {
        Mode::Stop
    } else if has_watch && !has_query && !follow {
        Mode::Daemon
    } else if has_query && !has_watch {
        if follow {
            Mode::Follow
        } else {
            Mode::Query
        }
    } else {
        Mode::Usage
    }
}

/// How a client ends.
#[derive(Debug, PartialEq, Eq)]
pub enum Outcome {
    /// Prints this and succeeds.
    Print(String),
    /// Prints this as an error and fails.
    Fail(String),
}

/// What an [`Outcome`] holds.
pub enum OutcomeView {
    Print(Seq<char>),
    Fail(Seq<char>),
}

impl View for Outcome {
    type V = OutcomeView;

    open spec fn view(&self) -> OutcomeView {
        match self {
            Outcome::Print(text) => OutcomeView::Print(text@),
            Outcome::Fail(text) => OutcomeView::Fail(text@),
        }
    }
}

/// What an optional message holds.
pub open spec fn optional_message(message: Option<Message>) -> Option<MessageView> {
    match message {
        Some(message) => Some(message@),
        None => None,
    }
}

/// How a query ends, by the response, if that could be read.
pub open spec fn query_end(response: Option<MessageView>) -> OutcomeView {
    match response {
        None => OutcomeView::Fail("Failed to parse daemon response."@),
        Some(message) => match message.message_kind {
            MessageKind::QueryResponse => OutcomeView::Print(message.data),
            MessageKind::QueryError => OutcomeView::Fail("Error: "@ + message.data),
            _ => OutcomeView::Fail("Unexpected response from daemon."@),
        },
    }
}

/// How stopping the daemon ends, by the response, if that could be read.
pub open spec fn stop_end(response: Option<MessageView>) -> OutcomeView {
    match response {
        None => OutcomeView::Fail("Failed to parse daemon response."@),
        Some(message) => match message.message_kind {
            MessageKind::ShutdownAck => OutcomeView::Print("Daemon stopped."@),
            _ => OutcomeView::Fail("Unexpected response from daemon."@),
        },
    }
}

/// Ends a query.
pub fn run_query(response: Option<Message>) -> (r: Outcome)
    ensures
        r@ == query_end(optional_message(response)),
{
    match response {
        None => Outcome::Fail("Failed to parse daemon response.".to_owned()),
        Some(message) => match message.message_kind {
            MessageKind::QueryResponse => Outcome::Print(message.data),
            MessageKind::QueryError => Outcome::Fail(
                text::concat2("Error: ", message.data.as_str()),
            ),
            _ => Outcome::Fail("Unexpected response from daemon.".to_owned()),
        },
    }
}

/// Ends the stopping of the daemon.
pub fn run_stop(response: Option<Message>) -> (r: Outcome)
    ensures
        r@ == stop_end(optional_message(response)),
{
    match response {
        None => Outcome::Fail("Failed to parse daemon response.".to_owned()),
        Some(message) => match message.message_kind {
            MessageKind::ShutdownAck => Outcome::Print("Daemon stopped.".to_owned()),
            _ => Outcome::Fail("Unexpected response from daemon.".to_owned()),
        },
    }
}

/// Tells whether a running daemon has taken over a file: if not, why.
pub fn send_watch(response: &Message) -> (r: Result<(), String>)
    ensures
        match response.message_kind {
            MessageKind::WatchAck => r is Ok,
            _ => r matches Err(said) && said@ == "unexpected response"@,
        },
{
    match response.message_kind {
        MessageKind::WatchAck => Ok(()),
        _ => Err("unexpected response".to_owned()),
    }
}

} // verus!
