//! Protocol message types shared by the server and the client, together with
//! their mathematical views.
//!
//! Two families travel on the wire: client-to-server frames
//! ([`ClientMessages`]) and server-to-client frames ([`ServerMessages`]).
//! [`Message`] is the server-internal record of one accepted chat message.
//! Each executable type has a ghost counterpart over `Seq<char>` that the
//! contracts of the codec, the registry and the handler speak about.

use vstd::prelude::*;

verus! {

/// Ghost view of one client-to-server protocol message.
pub enum ClientMsg {
    /// Handshake request carrying the desired display name.
    Connect { username: Seq<char> },
    /// A chat message from the session identified by `id`.
    Message { id: Seq<char>, content: Seq<char> },
}

/// Ghost view of one server-to-client protocol message.
pub enum ServerMsg {
    /// Handshake reply carrying the freshly assigned session identity.
    Connected { id: Seq<char> },
    /// Report of a malformed or unexpected frame; the connection stays open.
    ServerError { message: Seq<char> },
    /// One chat message fanned out to every registered session.
    Broadcast { sender_id: Seq<char>, sender_username: Seq<char>, content: Seq<char> },
}

/// Ghost view of one accepted chat message.
#[verifier::ext_equal]
pub struct MessageView {
    pub user_id: Seq<char>,
    pub username: Seq<char>,
    pub content: Seq<char>,
}

/// Client-to-server protocol messages.
#[derive(Clone, Debug, PartialEq, Eq)]
pub enum ClientMessages {
    /// Handshake request: register under this display name.
    Connect { username: String },
    /// Chat message from the session that owns `id`.
    Message { id: String, content: String },
}

/// Server-to-client protocol messages.
#[derive(Clone, Debug, PartialEq, Eq)]
pub enum ServerMessages {
    /// Handshake reply: the session identity assigned to this connection.
    Connected { id: String },
    /// The last frame from this connection was rejected; the connection
    /// remains usable.
    ServerError { message: String },
    /// A chat message relayed to every registered session.
    Broadcast { sender_id: String, sender_username: String, content: String },
}

/// One chat message accepted by the server: the sending session, its display
/// name at the time, and the text.
#[derive(Clone, Debug, PartialEq, Eq)]
pub struct Message {
    pub user_id: String,
    pub username: String,
    pub content: String,
}

impl View for ClientMessages {
    type V = ClientMsg;

    open spec fn view(&self) -> ClientMsg {
        match self {
            ClientMessages::Connect { username } => ClientMsg::Connect { username: username@ },
            ClientMessages::Message { id, content } => ClientMsg::Message {
                id: id@,
                content: content@,
            },
        }
    }
}

impl DeepView for ClientMessages {
    type V = ClientMsg;

    open spec fn deep_view(&self) -> ClientMsg {
        self.view()
    }
}

impl View for ServerMessages {
    type V = ServerMsg;

    open spec fn view(&self) -> ServerMsg {
        match self {
            ServerMessages::Connected { id } => ServerMsg::Connected { id: id@ },
            ServerMessages::ServerError { message } => ServerMsg::ServerError {
                message: message@,
            },
            ServerMessages::Broadcast { sender_id, sender_username, content } => {
                ServerMsg::Broadcast {
                    sender_id: sender_id@,
                    sender_username: sender_username@,
                    content: content@,
                }
            },
        }
    }
}

impl DeepView for ServerMessages {
    type V = ServerMsg;

    open spec fn deep_view(&self) -> ServerMsg {
        self.view()
    }
}

impl View for Message {
    type V = MessageView;

    open spec fn view(&self) -> MessageView {
        MessageView { user_id: self.user_id@, username: self.username@, content: self.content@ }
    }
}

impl DeepView for Message {
    type V = MessageView;

    open spec fn deep_view(&self) -> MessageView {
        self.view()
    }
}

impl Message {
    /// Builds the broadcast frame that carries this chat message to a
    /// recipient.
    pub fn to_broadcast(&self) -> (r: ServerMessages)
        ensures
            r@ == (ServerMsg::Broadcast {
                sender_id: self@.user_id,
                sender_username: self@.username,
                content: self@.content,
            }),
    {
        ServerMessages::Broadcast {
            sender_id: self.user_id.clone(),
            sender_username: self.username.clone(),
            content: self.content.clone(),
        }
    }
}

} // verus!
