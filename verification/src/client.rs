//! The client side of the protocol: the handshake that obtains a session
//! identity and the send path that frames outgoing chat messages.
//!
//! The surrounding I/O code opens the stream, writes the bytes these
//! functions build, and hands back the reply frames it reads; an
//! independent inbound listener decodes pushed frames with the same
//! [`crate::framing::FrameBuffer`] and [`crate::codec::parse_server_payload`].

use vstd::prelude::*;

use vstd::string::StringExecFns;

use crate::codec::{client_fits, encode_client, spec_client_payload, spec_frame};
use crate::messages::{ClientMessages, ClientMsg, ServerMessages, ServerMsg};

verus! {

/// Ghost view of a failed connection attempt.
pub enum ConnectErrorView {
    Rejected { message: Seq<char> },
    UnexpectedReply,
}

/// Why a connection attempt failed: the server said no, or it answered with
/// something other than a handshake reply.
#[derive(Clone, Debug, PartialEq, Eq)]
pub enum ConnectError {
    /// The server replied with an error; its text is kept.
    Rejected { message: String },
    /// The server's first frame was not a handshake reply.
    UnexpectedReply,
}

impl View for ConnectError {
    type V = ConnectErrorView;

    open spec fn view(&self) -> ConnectErrorView {
        match self {
            ConnectError::Rejected { message } => ConnectErrorView::Rejected {
                message: message@,
            },
            ConnectError::UnexpectedReply => ConnectErrorView::UnexpectedReply,
        }
    }
}

/// Why a send could not even be framed.  Transport failures, the peer
/// closing among them, are the I/O layer's to classify.
#[derive(Clone, Copy, Debug, PartialEq, Eq, Structural)]
pub enum SendError {
    /// No handshake has completed on this client.
    NotConnected,
    /// The message is too large for the wire format.
    TooLong,
}

/// The user-facing report of a failed transport write, with the
/// distinction the protocol owes its caller: a peer that closed the
/// connection asks for a reconnect, while any other failure is a plain
/// write error carrying the transport's own description.
pub fn send_failure_message(peer_closed: bool, detail: &str) -> (r: String)
    ensures
        peer_closed ==> r@ == "Connection closed. Please reconnect."@,
        !peer_closed ==> r@ == "Write error: "@ + detail@,
{
    if peer_closed {
        "Connection closed. Please reconnect.".to_owned()
    } else {
        let mut r = "Write error: ".to_owned();
        r.append(detail);
        r
    }
}

/// A client session: `None` until a handshake completes, then the session
/// identity the server assigned.
pub struct Client {
    id: Option<String>,
}

impl View for Client {
    type V = Option<Seq<char>>;

    closed spec fn view(&self) -> Option<Seq<char>> {
        self.id.deep_view()
    }
}

impl Client {
    /// A client with no session yet.
    pub fn new() -> (r: Client)
        ensures
            r@ is None,
    {
        Client { id: None }
    }

    /// The session identity, once connected.
    pub fn session_id(&self) -> (r: Option<String>)
        ensures
            (match r {
                Some(s) => self@ matches Some(v) && s@ == v,
                None => self@ is None,
            }),
    {
        match &self.id {
            Some(s) => Some(s.clone()),
            None => None,
        }
    }

    /// Whether a handshake has completed.
    pub fn is_connected(&self) -> (r: bool)
        ensures
            r == self@ is Some,
    {
        match &self.id {
            Some(s) => true,
            None => false,
        }
    }

    /// The handshake frame to send for `username`, or `None` when this
    /// client is already connected (connecting twice is a no-op: the
    /// caller keeps the existing identity) or the name cannot be framed.
    pub fn connect_frame(&self, username: &str) -> (r: Option<Vec<u8>>)
        ensures
            (match r {
                Some(b) => self@ is None && client_fits(
                    ClientMsg::Connect { username: username@ },
                ) && b@ == spec_frame(
                    spec_client_payload(ClientMsg::Connect { username: username@ }),
                ),
                None => self@ is Some || !client_fits(ClientMsg::Connect { username: username@ }),
            }),
    {
        match &self.id {
            Some(s) => None,
            None => encode_client(&ClientMessages::Connect { username: username.to_owned() }),
        }
    }

    /// Digests the server's first reply frame.  Exactly a `Connected` reply
    /// yields the identity and makes this client connected; an error reply
    /// or any other frame leaves it unconnected.  Once connected, the
    /// existing identity is returned whatever the reply says.
    pub fn complete_handshake(&mut self, reply: &ServerMessages) -> (r: Result<String, ConnectError>)
        ensures
            old(self)@ matches Some(v) ==> final(self)@ == old(self)@ && (r matches Ok(s) && s@
                == v),
            old(self)@ is None ==> (reply@ matches ServerMsg::Connected { id } ==> final(self)@
                == Some(id) && (r matches Ok(s) && s@ == id)),
            old(self)@ is None ==> (reply@ matches ServerMsg::ServerError { message }
                ==> final(self)@ is None && (r matches Err(e) && e@ == (ConnectErrorView::Rejected {
                message,
            }))),
            old(self)@ is None && reply@ is Broadcast ==> final(self)@ is None && (r matches Err(e)
                && e@ is UnexpectedReply),
    {
        match &self.id {
            Some(s) => Ok(s.clone()),
            None => {
                match reply {
                    ServerMessages::Connected { id } => {
                        self.id = Some(id.clone());
                        Ok(id.clone())
                    },
                    ServerMessages::ServerError { message } => {
                        Err(ConnectError::Rejected { message: message.clone() })
                    },
                    ServerMessages::Broadcast { sender_id, sender_username, content } => {
                        Err(ConnectError::UnexpectedReply)
                    },
                }
            },
        }
    }

    /// The wire frame carrying `content` from this session, built with the
    /// session's own identity.
    pub fn send_message(&self, content: &str) -> (r: Result<Vec<u8>, SendError>)
        ensures
            self@ is None ==> (r matches Err(e) && e is NotConnected),
            self@ matches Some(v) ==> (client_fits(ClientMsg::Message { id: v, content: content@ })
                ==> (r matches Ok(b) && b@ == spec_frame(
                spec_client_payload(ClientMsg::Message { id: v, content: content@ }),
            ))),
            self@ matches Some(v) ==> (!client_fits(ClientMsg::Message { id: v, content: content@ })
                ==> (r matches Err(e) && e is TooLong)),
    {
        match &self.id {
            None => Err(SendError::NotConnected),
            Some(id) => {
                match encode_client(
                    &ClientMessages::Message { id: id.clone(), content: content.to_owned() },
                ) {
                    Some(b) => Ok(b),
                    None => Err(SendError::TooLong),
                }
            },
        }
    }

    /// Forgets the session after the transport reported the peer gone; the
    /// client can then connect anew.
    pub fn disconnect(&mut self)
        ensures
            final(self)@ is None,
    {
        self.id = None;
    }
}

} // verus!
