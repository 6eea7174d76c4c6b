//! Messages between client and daemon.

use vstd::prelude::*;

verus! {

/// Where the daemon listens.
pub const SOCKET_PATH: &'static str = "/tmp/vigil.sock";

/// What a message is for.
#[derive(Debug, PartialEq, Eq, Clone, Copy, Structural)]
pub enum MessageKind {
    Query,
    QueryResponse,
    QueryError,
    Shutdown,
    ShutdownAck,
    Watch,
    WatchAck,
    Follow,
}

/// Which file to watch, and which of its fields holds the time.
#[derive(Debug, PartialEq, Eq)]
pub struct WatchPayload {
    pub path: String,
    pub time_field: Option<String>,
}

/// A request or a response.
#[derive(Debug, PartialEq, Eq)]
pub struct Message {
    pub message_kind: MessageKind,
    pub data: String,
}

/// What a [`Message`] holds.
pub struct MessageView {
    pub message_kind: MessageKind,
    pub data: Seq<char>,
}

impl View for Message {
    type V = MessageView;

    open spec fn view(&self) -> MessageView {
        MessageView { message_kind: self.message_kind, data: self.data@ }
    }
}

impl Message {
    pub fn new(message_kind: MessageKind, data: String) -> (r: Message)
        ensures
            r == (Message { message_kind, data }),
    {
        Message { message_kind, data }
    }
}

} // verus!
