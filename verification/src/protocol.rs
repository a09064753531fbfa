//! The typed messages the peers exchange, and their mathematical views.
//!
//! Each executable type carries `String` fields; its view replaces every
//! string by its character sequence, so contracts can speak of contents
//! rather than of particular heap values.

use vstd::prelude::*;

verus! {

/// One chat entry: who sent it and what it says.
#[derive(Debug, Clone, PartialEq, Eq)]
pub struct Message {
    pub sender: String,
    pub content: String,
}

/// The view of a [`Message`]: its two strings as character sequences.
pub struct MessageView {
    pub sender: Seq<char>,
    pub content: Seq<char>,
}

impl View for Message {
    type V = MessageView;

    open spec fn view(&self) -> MessageView {
        MessageView { sender: self.sender@, content: self.content@ }
    }
}

/// The views of a sequence of messages, in order.
pub open spec fn messages_view(v: Seq<Message>) -> Seq<MessageView> {
    Seq::new(v.len(), |i: int| v[i]@)
}

/// Everything a client may ask of the server.
#[derive(Debug, Clone, PartialEq, Eq)]
pub enum ClientToServer {
    /// Claim a handle; must be the first request on a fresh connection.
    Register { handle: String },
    /// Ask for a snapshot of the registered handles.
    ListUsers,
    /// Send one message to another registered handle.
    SendMessage { content: String, target: String },
    /// Ask for the chat log shared with `target`.
    GetMessages { target: String },
}

/// The view of a [`ClientToServer`] request.
pub enum ClientToServerView {
    Register { handle: Seq<char> },
    ListUsers,
    SendMessage { content: Seq<char>, target: Seq<char> },
    GetMessages { target: Seq<char> },
}

impl View for ClientToServer {
    type V = ClientToServerView;

    open spec fn view(&self) -> ClientToServerView {
        match self {
            ClientToServer::Register { handle } => ClientToServerView::Register {
                handle: handle@,
            },
            ClientToServer::ListUsers => ClientToServerView::ListUsers,
            ClientToServer::SendMessage { content, target } => ClientToServerView::SendMessage {
                content: content@,
                target: target@,
            },
            ClientToServer::GetMessages { target } => ClientToServerView::GetMessages {
                target: target@,
            },
        }
    }
}

/// Everything the server may tell a client.
#[derive(Debug, Clone, PartialEq, Eq)]
pub enum ServerToClient {
    /// The handle was granted.
    Registered { handle: String },
    /// The snapshot a `ListUsers` request asked for.
    UserList { users: Vec<String> },
    /// The chat log a `GetMessages` request asked for.
    ChatMessages { partner: String, messages: Vec<Message> },
    /// A message relayed from another participant.
    ChatMessage { sender: String, content: String },
    /// A domain error, reported to the requesting client only.
    Error { message: String },
}

/// The view of a [`ServerToClient`] reply.
pub enum ServerToClientView {
    Registered { handle: Seq<char> },
    UserList { users: Seq<Seq<char>> },
    ChatMessages { partner: Seq<char>, messages: Seq<MessageView> },
    ChatMessage { sender: Seq<char>, content: Seq<char> },
    Error { message: Seq<char> },
}

impl View for ServerToClient {
    type V = ServerToClientView;

    open spec fn view(&self) -> ServerToClientView {
        match self {
            ServerToClient::Registered { handle } => ServerToClientView::Registered {
                handle: handle@,
            },
            ServerToClient::UserList { users } => ServerToClientView::UserList {
                users: users.deep_view(),
            },
            ServerToClient::ChatMessages { partner, messages } => ServerToClientView::ChatMessages {
                partner: partner@,
                messages: messages_view(messages@),
            },
            ServerToClient::ChatMessage { sender, content } => ServerToClientView::ChatMessage {
                sender: sender@,
                content: content@,
            },
            ServerToClient::Error { message } => ServerToClientView::Error { message: message@ },
        }
    }
}

} // verus!
