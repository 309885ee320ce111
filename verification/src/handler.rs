//! The per-connection handler: a state machine from `AwaitingHandshake`
//! through `Active` to `Closed`.
//!
//! [`handle_event`] is one step of the machine: it takes the connection's
//! state, one decoded event, and the shared registry, and returns the next
//! state and the reply frame owed to this connection, if any.  A malformed
//! frame or a frame that is wrong for the state draws a `ServerError` reply
//! and keeps the connection open; only end-of-stream closes it, removing the
//! session from the registry.  A chat message is fanned out only when its
//! sender identity is this connection's own and still registered; anything
//! else is dropped without touching any outbound queue.
//!
//! [`Connection`] couples the machine with a frame buffer and drives one
//! step per complete frame, so the surrounding I/O loop only reads bytes,
//! hands them in, and writes the returned replies.

use vstd::prelude::*;

use crate::codec::{be32_val, client_wf, lemma_client_payload_injective, parse_client_payload, spec_client_payload};
use crate::framing::{incomplete_at, FrameBuffer};
use crate::messages::{ClientMessages, ClientMsg, Message, MessageView, ServerMessages, ServerMsg};
use crate::registry::{
    contains_id,
    id_issued,
    index_of_id,
    publish_model,
    Registry,
    RegistryView,
    SessionView,
};

verus! {

/// Ghost view of a handler state.
pub enum HandlerStateView {
    AwaitingHandshake,
    Active { session_id: Seq<char> },
    Closed,
}

/// Where a connection stands: before its handshake, active under a session
/// identity, or closed.
pub enum HandlerState {
    /// Nothing but `Connect` is acceptable yet.
    AwaitingHandshake,
    /// The handshake completed; the connection owns this session identity.
    Active { session_id: String },
    /// The peer is gone; the session, if any, has been removed.
    Closed,
}

impl View for HandlerState {
    type V = HandlerStateView;

    open spec fn view(&self) -> HandlerStateView {
        match self {
            HandlerState::AwaitingHandshake => HandlerStateView::AwaitingHandshake,
            HandlerState::Active { session_id } => HandlerStateView::Active {
                session_id: session_id@,
            },
            HandlerState::Closed => HandlerStateView::Closed,
        }
    }
}

/// Ghost view of one handler event.
pub enum HandlerEventView {
    Frame(ClientMsg),
    Malformed,
    Disconnected,
}

/// One thing that can happen on a connection: a whole frame decoded, a
/// whole frame that decodes to no message, or the end of the stream.
pub enum HandlerEvent {
    /// One complete, well-formed frame.
    Frame(ClientMessages),
    /// One complete frame whose payload encodes no message.
    Malformed,
    /// End of stream or unrecoverable read failure.
    Disconnected,
}

impl View for HandlerEvent {
    type V = HandlerEventView;

    open spec fn view(&self) -> HandlerEventView {
        match self {
            HandlerEvent::Frame(m) => HandlerEventView::Frame(m@),
            HandlerEvent::Malformed => HandlerEventView::Malformed,
            HandlerEvent::Disconnected => HandlerEventView::Disconnected,
        }
    }
}

/// Ghost view of the reply slot of one machine step.
pub open spec fn opt_msg_view(o: Option<ServerMessages>) -> Option<ServerMsg> {
    match o {
        Some(m) => Some(m@),
        None => None,
    }
}

/// The chat message the server accepts when the session carrying `id`
/// sends `content`: the sender's identity, its display name as registered,
/// and the text.
pub open spec fn accepted_message(ss: Seq<SessionView>, id: Seq<char>, content: Seq<char>) -> MessageView {
    MessageView { user_id: id, username: ss[index_of_id(ss, id)].username, content }
}

/// One step of the connection state machine, as a relation between the
/// state, the event, and the registry before, and the state, the reply and
/// the registry after.  It mirrors `handle_event` case by case; only the
/// handshake is relational, because the fresh identity may be any identity
/// never issued before.
pub open spec fn step_rel(
    s0: HandlerStateView,
    ev: HandlerEventView,
    r0: RegistryView,
    s1: HandlerStateView,
    rep: Option<ServerMsg>,
    r1: RegistryView,
) -> bool {
    match (s0, ev) {
        (HandlerStateView::Closed, _) => s1 is Closed && rep is None && r1 == r0,
        (_, HandlerEventView::Malformed) => s1 == s0 && r1 == r0 && rep == Some(
            ServerMsg::ServerError { message: "Invalid message format"@ },
        ),
        (HandlerStateView::AwaitingHandshake, HandlerEventView::Frame(cm)) => match cm {
            ClientMsg::Connect { username } => (s1 matches HandlerStateView::Active { session_id }
                && !id_issued(r0.issued, session_id) && !contains_id(r0.sessions, session_id)
                && r1.sessions == r0.sessions.push(
                (SessionView { id: session_id, username: username, outbox: Seq::empty() }),
            ) && r1.messages == r0.messages && r1.issued == r0.issued.push(session_id) && rep
                == Some(ServerMsg::Connected { id: session_id })),
            ClientMsg::Message { id, content } => s1 == s0 && r1 == r0 && rep == Some(
                ServerMsg::ServerError { message: "Handshake required"@ },
            ),
        },
        (HandlerStateView::Active { session_id }, HandlerEventView::Frame(cm)) => match cm {
            ClientMsg::Connect { username } => s1 == s0 && r1 == r0 && rep == Some(
                ServerMsg::ServerError { message: "Already connected"@ },
            ),
            ClientMsg::Message { id, content } => if id == session_id && contains_id(
                r0.sessions,
                id,
            ) {
                s1 == s0 && rep is None && r1.sessions == publish_model(
                    r0.sessions,
                    accepted_message(r0.sessions, id, content),
                ) && r1.messages == r0.messages.push(accepted_message(r0.sessions, id, content))
                    && r1.issued == r0.issued
            } else {
                s1 == s0 && rep is None && r1 == r0
            },
        },
        (HandlerStateView::AwaitingHandshake, HandlerEventView::Disconnected) => s1 is Closed && rep
            is None && r1 == r0,
        (HandlerStateView::Active { session_id }, HandlerEventView::Disconnected) => s1 is Closed
            && rep is None && r1.messages == r0.messages && r1.issued == r0.issued && (if
        contains_id(r0.sessions, session_id) {
            r1.sessions == r0.sessions.remove(index_of_id(r0.sessions, session_id))
        } else {
            r1.sessions == r0.sessions
        }),
    }
}

/// One step of the connection state machine.  Each case of the contract
/// pins the next state, the reply owed to this connection, and the exact
/// effect on the registry; a message from a sender that is not this
/// session, or not registered, changes nothing and reaches no outbound
/// queue.
pub fn handle_event(state: HandlerState, event: HandlerEvent, registry: &mut Registry) -> (r: (
    HandlerState,
    Option<ServerMessages>,
))
    requires
        old(registry).inv(),
    ensures
        final(registry).inv(),
        step_rel(state@, event@, old(registry)@, r.0@, opt_msg_view(r.1), final(registry)@),
        state@ is Closed ==> final(registry)@ == old(registry)@ && r.0@ is Closed && r.1 is None,
        state@ !is Closed && event@ is Malformed ==> final(registry)@ == old(registry)@ && r.0@
            == state@ && (r.1 matches Some(rep) && rep@ == (ServerMsg::ServerError {
            message: "Invalid message format"@,
        })),
        state@ is AwaitingHandshake ==> (event@ matches HandlerEventView::Frame(cm) ==> (cm matches
        ClientMsg::Connect { username } ==> (r.0@ matches HandlerStateView::Active { session_id }
            && !contains_id(old(registry)@.sessions, session_id) && final(registry)@.sessions
            == old(registry)@.sessions.push(
            (SessionView { id: session_id, username, outbox: Seq::empty() }),
        ) && final(registry)@.messages == old(registry)@.messages && !id_issued(
            old(registry)@.issued,
            session_id,
        ) && final(registry)@.issued == old(registry)@.issued.push(session_id) && (r.1 matches Some(
            rep,
        ) && rep@ == (ServerMsg::Connected { id: session_id }))))),
        state@ is Active ==> (event@ matches HandlerEventView::Frame(cm) ==> (cm is Connect
            ==> final(registry)@ == old(registry)@ && r.0@ == state@ && (r.1 matches Some(rep)
            && rep@ == (ServerMsg::ServerError { message: "Already connected"@ })))),
        state@ is AwaitingHandshake ==> (event@ matches HandlerEventView::Frame(cm) ==> (cm
            is Message ==> final(registry)@ == old(registry)@ && r.0@ == state@ && (r.1 matches
        Some(rep) && rep@ == (ServerMsg::ServerError { message: "Handshake required"@ })))),
        state@ matches HandlerStateView::Active { session_id } ==> (event@ matches
        HandlerEventView::Frame(cm) ==> (cm matches ClientMsg::Message { id, content } ==> (id
            == session_id && contains_id(old(registry)@.sessions, id) ==> final(registry)@.sessions
            == publish_model(
            old(registry)@.sessions,
            accepted_message(old(registry)@.sessions, id, content),
        ) && final(registry)@.messages == old(registry)@.messages.push(
            accepted_message(old(registry)@.sessions, id, content),
        ) && r.0@ == state@ && r.1 is None))),
        state@ matches HandlerStateView::Active { session_id } ==> (event@ matches
        HandlerEventView::Frame(cm) ==> (cm matches ClientMsg::Message { id, content } ==> ((id
            != session_id || !contains_id(old(registry)@.sessions, id)) ==> final(registry)@
            == old(registry)@ && r.0@ == state@ && r.1 is None))),
        state@ !is Closed && event@ is Disconnected ==> r.0@ is Closed && r.1 is None && final(registry)@.messages
            == old(registry)@.messages,
        state@ matches HandlerStateView::Active { session_id } ==> (event@ is Disconnected
            && contains_id(old(registry)@.sessions, session_id) ==> final(registry)@.sessions
            == old(registry)@.sessions.remove(index_of_id(old(registry)@.sessions, session_id))),
        state@ matches HandlerStateView::Active { session_id } ==> (event@ is Disconnected
            && !contains_id(old(registry)@.sessions, session_id) ==> final(registry)@.sessions
            == old(registry)@.sessions),
        state@ is AwaitingHandshake && event@ is Disconnected ==> final(registry)@.sessions
            == old(registry)@.sessions,
{
    match state {
        HandlerState::Closed => (HandlerState::Closed, None),
        HandlerState::AwaitingHandshake => {
            match event {
                HandlerEvent::Malformed => {
                    let rep = ServerMessages::ServerError {
                        message: "Invalid message format".to_owned(),
                    };
                    (HandlerState::AwaitingHandshake, Some(rep))
                },
                HandlerEvent::Disconnected => (HandlerState::Closed, None),
                HandlerEvent::Frame(ClientMessages::Connect { username }) => {
                    let id = registry.register(username.as_str());
                    let rep = ServerMessages::Connected { id: id.clone() };
                    (HandlerState::Active { session_id: id }, Some(rep))
                },
                HandlerEvent::Frame(ClientMessages::Message { id, content }) => {
                    let rep = ServerMessages::ServerError {
                        message: "Handshake required".to_owned(),
                    };
                    (HandlerState::AwaitingHandshake, Some(rep))
                },
            }
        },
        HandlerState::Active { session_id } => {
            match event {
                HandlerEvent::Malformed => {
                    let rep = ServerMessages::ServerError {
                        message: "Invalid message format".to_owned(),
                    };
                    (HandlerState::Active { session_id }, Some(rep))
                },
                HandlerEvent::Disconnected => {
                    registry.remove(&session_id);
                    (HandlerState::Closed, None)
                },
                HandlerEvent::Frame(ClientMessages::Connect { username }) => {
                    let rep = ServerMessages::ServerError {
                        message: "Already connected".to_owned(),
                    };
                    (HandlerState::Active { session_id }, Some(rep))
                },
                HandlerEvent::Frame(ClientMessages::Message { id, content }) => {
                    if id == session_id {
                        match registry.lookup(&id) {
                            Some(sender) => {
                                let m = Message {
                                    user_id: id,
                                    username: sender.username().clone(),
                                    content,
                                };
                                registry.publish(&m);
                                (HandlerState::Active { session_id }, None)
                            },
                            None => (HandlerState::Active { session_id }, None),
                        }
                    } else {
                        (HandlerState::Active { session_id }, None)
                    }
                },
            }
        },
    }
}

/// The event one whole payload produces: the message it encodes, or the
/// malformed-frame event when it encodes none.  `parse_client_payload`'s
/// contract makes this exactly what parsing returns.
pub open spec fn event_of_payload(p: Seq<u8>) -> HandlerEventView {
    if exists|m: ClientMsg| client_wf(m) && p == #[trigger] spec_client_payload(m) {
        HandlerEventView::Frame(
            choose|m: ClientMsg| client_wf(m) && p == #[trigger] spec_client_payload(m),
        )
    } else {
        HandlerEventView::Malformed
    }
}

/// The direct replies of a run: the step's reply, if any, in front of the
/// replies of the rest.
pub open spec fn prepend_reply(o: Option<ServerMsg>, rest: Seq<ServerMsg>) -> Seq<ServerMsg> {
    match o {
        Some(x) => seq![x] + rest,
        None => rest,
    }
}

/// A whole run of the connection over a byte buffer: while a complete
/// frame sits at the front, its payload's event is stepped through
/// `step_rel`, in arrival order; the run ends on the incomplete tail,
/// which is left over, and `reps` collects the direct replies in order.
/// A relation rather than a function only because each handshake may draw
/// any identity never issued before.
pub open spec fn run_rel(
    s0: HandlerStateView,
    r0: RegistryView,
    b: Seq<u8>,
    s1: HandlerStateView,
    reps: Seq<ServerMsg>,
    r1: RegistryView,
    leftover: Seq<u8>,
) -> bool
    decreases b.len(),
{
    if incomplete_at(b) {
        s1 == s0 && r1 == r0 && reps == Seq::<ServerMsg>::empty() && leftover == b
    } else {
        exists|smid: HandlerStateView, repmid: Option<ServerMsg>, rmid: RegistryView|
            {
                &&& #[trigger] step_rel(
                    s0,
                    event_of_payload(b.subrange(4, 4 + be32_val(b.take(4)))),
                    r0,
                    smid,
                    repmid,
                    rmid,
                )
                &&& (match repmid {
                    Some(x) => reps.len() > 0 && reps[0] == x && run_rel(
                        smid,
                        rmid,
                        b.skip(4 + be32_val(b.take(4))),
                        s1,
                        reps.drop_first(),
                        r1,
                        leftover,
                    ),
                    None => run_rel(
                        smid,
                        rmid,
                        b.skip(4 + be32_val(b.take(4))),
                        s1,
                        reps,
                        r1,
                        leftover,
                    ),
                })
            }
    }
}

/// One machine step in front of a run is a run over the whole buffer.
pub proof fn lemma_run_rel_cons(
    s0: HandlerStateView,
    r0: RegistryView,
    b: Seq<u8>,
    smid: HandlerStateView,
    repmid: Option<ServerMsg>,
    rmid: RegistryView,
    s1: HandlerStateView,
    reps: Seq<ServerMsg>,
    r1: RegistryView,
    leftover: Seq<u8>,
)
    requires
        !incomplete_at(b),
        step_rel(s0, event_of_payload(b.subrange(4, 4 + be32_val(b.take(4)))), r0, smid, repmid, rmid),
        run_rel(smid, rmid, b.skip(4 + be32_val(b.take(4))), s1, reps, r1, leftover),
    ensures
        run_rel(s0, r0, b, s1, prepend_reply(repmid, reps), r1, leftover),
{
    match repmid {
        Some(x) => {
            assert(prepend_reply(repmid, reps).drop_first() =~= reps);
            assert(prepend_reply(repmid, reps)[0] == x);
        },
        None => {
        },
    }
}

/// Ghost view of one connection: its state-machine state and the bytes
/// buffered towards the next frame./// Ghost view of one connection: its state-machine state and the bytes
/// buffered towards the next frame.
pub struct ConnectionView {
    pub state: HandlerStateView,
    pub buffered: Seq<u8>,
}

/// One server-side connection: the handler state machine coupled with the
/// frame reassembly buffer.  The I/O loop around it reads raw bytes, hands
/// them to [`Connection::on_chunk`], writes the returned reply frames back
/// to its peer, and calls [`Connection::on_disconnect`] when the stream
/// ends.
pub struct Connection {
    state: HandlerState,
    frames: FrameBuffer,
}

impl View for Connection {
    type V = ConnectionView;

    closed spec fn view(&self) -> ConnectionView {
        ConnectionView { state: self.state@, buffered: self.frames@ }
    }
}

impl Connection {
    /// A fresh connection: nothing buffered, handshake pending.
    pub fn new() -> (r: Connection)
        ensures
            r@.state is AwaitingHandshake,
            r@.buffered == Seq::<u8>::empty(),
    {
        Connection { state: HandlerState::AwaitingHandshake, frames: FrameBuffer::new() }
    }

    /// Feeds one received chunk and runs the state machine once per whole
    /// frame now available, in arrival order: exactly the run that
    /// `run_rel` relates over the buffered bytes plus this chunk.  Returns
    /// the replies owed to this connection, in order; broadcasts land in
    /// the registry's outbound queues.  On return the buffer holds only an
    /// incomplete tail frame.
    pub fn on_chunk(&mut self, chunk: &[u8], registry: &mut Registry) -> (replies: Vec<
        ServerMessages,
    >)
        requires
            old(registry).inv(),
        ensures
            final(registry).inv(),
            incomplete_at(final(self)@.buffered),
            run_rel(
                old(self)@.state,
                old(registry)@,
                old(self)@.buffered + chunk@,
                final(self)@.state,
                replies.deep_view(),
                final(registry)@,
                final(self)@.buffered,
            ),
            old(registry)@.messages.is_prefix_of(final(registry)@.messages),
            old(self)@.state is Closed ==> final(registry)@ == old(registry)@ && final(self)@.state
                is Closed && replies@.len() == 0,
    {
        self.frames.feed(chunk);
        let mut replies: Vec<ServerMessages> = Vec::new();
        let mut st = HandlerState::Closed;
        core::mem::swap(&mut st, &mut self.state);
        proof {
            assert(replies.deep_view() =~= Seq::<ServerMsg>::empty());
            assert forall|s1: HandlerStateView, rr: Seq<ServerMsg>, r1: RegistryView, lo: Seq<u8>|
                #[trigger] run_rel(st@, registry@, self.frames@, s1, rr, r1, lo) implies run_rel(
                old(self)@.state,
                old(registry)@,
                old(self)@.buffered + chunk@,
                s1,
                replies.deep_view() + rr,
                r1,
                lo,
            ) by {
                assert(replies.deep_view() + rr =~= rr);
            }
        }
        loop
            invariant
                registry.inv(),
                old(self)@.state is Closed ==> st@ is Closed && registry@ == old(registry)@
                    && replies@.len() == 0,
                old(registry)@.messages.is_prefix_of(registry@.messages),
                forall|s1: HandlerStateView, rr: Seq<ServerMsg>, r1: RegistryView, lo: Seq<u8>|
                    #[trigger] run_rel(st@, registry@, self.frames@, s1, rr, r1, lo) ==> run_rel(
                        old(self)@.state,
                        old(registry)@,
                        old(self)@.buffered + chunk@,
                        s1,
                        replies.deep_view() + rr,
                        r1,
                        lo,
                    ),
            ensures
                registry.inv(),
                incomplete_at(self.frames@),
                old(self)@.state is Closed ==> st@ is Closed && registry@ == old(registry)@
                    && replies@.len() == 0,
                old(registry)@.messages.is_prefix_of(registry@.messages),
                forall|s1: HandlerStateView, rr: Seq<ServerMsg>, r1: RegistryView, lo: Seq<u8>|
                    #[trigger] run_rel(st@, registry@, self.frames@, s1, rr, r1, lo) ==> run_rel(
                        old(self)@.state,
                        old(registry)@,
                        old(self)@.buffered + chunk@,
                        s1,
                        replies.deep_view() + rr,
                        r1,
                        lo,
                    ),
            decreases self.frames@.len(),
        {
            let ghost msgs_before = registry@.messages;
            let ghost st0 = st@;
            let ghost reg0 = registry@;
            let ghost bpre = self.frames@;
            let ghost rd0 = replies.deep_view();
            match self.frames.poll() {
                None => {
                    break ;
                },
                Some(payload) => {
                    let event = match parse_client_payload(payload.as_slice()) {
                        Ok(m) => {
                            proof {
                                let got = choose|mm: ClientMsg|
                                    client_wf(mm) && payload@ == #[trigger] spec_client_payload(
                                        mm,
                                    );
                                assert(client_wf(m@) && payload@ == spec_client_payload(m@));
                                assert(client_wf(got) && payload@ == spec_client_payload(got));
                                lemma_client_payload_injective(got, m@);
                                assert(event_of_payload(payload@) == HandlerEventView::Frame(m@));
                            }
                            HandlerEvent::Frame(m)
                        },
                        Err(_) => {
                            proof {
                                if exists|mm: ClientMsg|
                                    client_wf(mm) && payload@ == #[trigger] spec_client_payload(
                                        mm,
                                    ) {
                                    let mm = choose|mm: ClientMsg|
                                        client_wf(mm) && payload@
                                            == #[trigger] spec_client_payload(mm);
                                    assert(false);
                                }
                                assert(event_of_payload(payload@)
                                    == HandlerEventView::Malformed);
                            }
                            HandlerEvent::Malformed
                        },
                    };
                    let ghost ev = event@;
                    let stepped = handle_event(st, event, registry);
                    let ghost ov = opt_msg_view(stepped.1);
                    st = stepped.0;
                    match stepped.1 {
                        Some(rp) => {
                            let ghost rv = rp@;
                            replies.push(rp);
                            proof {
                                assert(replies.deep_view() =~= rd0.push(rv)) by {
                                    assert forall|j: int|
                                        0 <= j < replies@.len() implies replies.deep_view()[j]
                                        == rd0.push(rv)[j] by {
                                        assert(replies.deep_view()[j] == replies@[j]@);
                                    }
                                }
                            }
                        },
                        None => (),
                    }
                    proof {
                        assert(msgs_before.is_prefix_of(registry@.messages));
                        let ghost rdn = replies.deep_view();
                        assert forall|
                            s1: HandlerStateView,
                            rr: Seq<ServerMsg>,
                            r1: RegistryView,
                            lo: Seq<u8>,
                        |
                            #[trigger] run_rel(st@, registry@, self.frames@, s1, rr, r1, lo)
                            implies run_rel(
                            old(self)@.state,
                            old(registry)@,
                            old(self)@.buffered + chunk@,
                            s1,
                            rdn + rr,
                            r1,
                            lo,
                        ) by {
                            lemma_run_rel_cons(
                                st0,
                                reg0,
                                bpre,
                                st@,
                                ov,
                                registry@,
                                s1,
                                rr,
                                r1,
                                lo,
                            );
                            assert(run_rel(
                                old(self)@.state,
                                old(registry)@,
                                old(self)@.buffered + chunk@,
                                s1,
                                rd0 + prepend_reply(ov, rr),
                                r1,
                                lo,
                            ));
                            assert(rd0 + prepend_reply(ov, rr) =~= rdn + rr);
                        }
                    }
                },
            }
        }
        proof {
            assert(run_rel(
                st@,
                registry@,
                self.frames@,
                st@,
                Seq::<ServerMsg>::empty(),
                registry@,
                self.frames@,
            ));
            assert(replies.deep_view() + Seq::<ServerMsg>::empty() =~= replies.deep_view());
        }
        self.state = st;
        replies
    }

    /// The session identity this connection registered, while it is active.
    pub fn session_id(&self) -> (r: Option<String>)
        ensures
            (match r {
                Some(s) => self@.state matches HandlerStateView::Active { session_id } && s@
                    == session_id,
                None => self@.state !is Active,
            }),
    {
        match &self.state {
            HandlerState::Active { session_id } => Some(session_id.clone()),
            HandlerState::AwaitingHandshake => None,
            HandlerState::Closed => None,
        }
    }

    /// The peer is gone: runs the machine's final step, removing this
    /// connection's session from the registry and closing the state.
    pub fn on_disconnect(&mut self, registry: &mut Registry)
        requires
            old(registry).inv(),
        ensures
            final(registry).inv(),
            final(self)@.state is Closed,
            final(self)@.buffered == old(self)@.buffered,
            final(registry)@.messages == old(registry)@.messages,
            old(self)@.state matches HandlerStateView::Active { session_id } ==> (contains_id(
                old(registry)@.sessions,
                session_id,
            ) ==> final(registry)@.sessions == old(registry)@.sessions.remove(
                index_of_id(old(registry)@.sessions, session_id),
            )),
            old(self)@.state matches HandlerStateView::Active { session_id } ==> (!contains_id(
                old(registry)@.sessions,
                session_id,
            ) ==> final(registry)@.sessions == old(registry)@.sessions),
            old(self)@.state !is Active ==> final(registry)@.sessions == old(registry)@.sessions,
    {
        let mut st = HandlerState::Closed;
        core::mem::swap(&mut st, &mut self.state);
        let stepped = handle_event(st, HandlerEvent::Disconnected, registry);
        self.state = stepped.0;
    }
}

} // verus!
