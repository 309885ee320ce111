//! The session registry: the directory of connected, handshake-completed
//! users, each with its per-connection outbound queue, plus the ordered
//! history of accepted chat messages.
//!
//! All connection handlers share one registry; the process that owns it
//! serializes access, so every operation here describes one atomic step.
//! Fan-out is a registry operation because the registry is what holds every
//! session's outbound queue: publishing appends the broadcast frame to every
//! registered session's queue, the sender's included, and to no one else's.

use vstd::prelude::*;

use crate::messages::{Message, MessageView, ServerMessages, ServerMsg};

verus! {

/// Ghost view of one registered user.
#[verifier::ext_equal]
pub struct UserView {
    pub id: Seq<char>,
    pub username: Seq<char>,
}

/// One registered user: the session identity the server assigned and the
/// display name the client asked for.
#[derive(Clone, Debug)]
pub struct User {
    id: String,
    username: String,
}

impl View for User {
    type V = UserView;

    closed spec fn view(&self) -> UserView {
        UserView { id: self.id@, username: self.username@ }
    }
}

impl User {
    /// The session identity.
    pub fn id(&self) -> (r: &String)
        ensures
            r@ == self@.id,
    {
        &self.id
    }

    /// The display name.
    pub fn username(&self) -> (r: &String)
        ensures
            r@ == self@.username,
    {
        &self.username
    }
}

/// Ghost view of one session: the user's identity and name, and the frames
/// queued for delivery to this connection.
#[verifier::ext_equal]
pub struct SessionView {
    pub id: Seq<char>,
    pub username: Seq<char>,
    pub outbox: Seq<ServerMsg>,
}

struct Session {
    user: User,
    outbox: Vec<ServerMessages>,
}

impl Session {
    spec fn session_view(&self) -> SessionView {
        SessionView {
            id: self.user@.id,
            username: self.user@.username,
            outbox: self.outbox.deep_view(),
        }
    }
}

/// Ghost view of the whole registry: the sessions in registration order,
/// the message history in arrival order, and every session identity ever
/// issued, in issue order.
#[verifier::ext_equal]
pub struct RegistryView {
    pub sessions: Seq<SessionView>,
    pub messages: Seq<MessageView>,
    pub issued: Seq<Seq<char>>,
}

/// The identity has been issued at some point of the registry's lifetime.
pub open spec fn id_issued(issued: Seq<Seq<char>>, id: Seq<char>) -> bool {
    exists|i: int| 0 <= i < issued.len() && issued[i] == id
}

/// No two sessions share an identity.
pub open spec fn sessions_distinct(ss: Seq<SessionView>) -> bool {
    forall|i: int, j: int| 0 <= i < j < ss.len() ==> ss[i].id != ss[j].id
}

/// Some session carries this identity.
pub open spec fn contains_id(ss: Seq<SessionView>, id: Seq<char>) -> bool {
    exists|i: int| 0 <= i < ss.len() && ss[i].id == id
}

/// The index of the session carrying this identity (unique when the
/// identities are distinct).
pub open spec fn index_of_id(ss: Seq<SessionView>, id: Seq<char>) -> int {
    choose|i: int| 0 <= i < ss.len() && ss[i].id == id
}

/// The broadcast frame that carries one accepted chat message.
pub open spec fn broadcast_of(m: MessageView) -> ServerMsg {
    ServerMsg::Broadcast { sender_id: m.user_id, sender_username: m.username, content: m.content }
}

/// The registry after one message is fanned out: every session keeps its
/// identity and name, and the broadcast frame is appended to every outbound
/// queue.
pub open spec fn publish_model(ss: Seq<SessionView>, m: MessageView) -> Seq<SessionView> {
    ss.map_values(
        |s: SessionView|
            (SessionView { id: s.id, username: s.username, outbox: s.outbox.push(broadcast_of(m)) }),
    )
}

/// The directory of connected sessions and the chat history, shared by all
/// connection handlers.
pub struct Registry {
    sessions: Vec<Session>,
    messages: Vec<Message>,
    issued: Vec<String>,
}

impl View for Registry {
    type V = RegistryView;

    closed spec fn view(&self) -> RegistryView {
        RegistryView {
            sessions: Seq::new(self.sessions@.len(), |i: int| self.sessions@[i].session_view()),
            messages: self.messages.deep_view(),
            issued: self.issued.deep_view(),
        }
    }
}

impl Registry {
    /// The registry's invariant: session identities never repeat, and every
    /// live session carries an identity the registry itself issued.
    pub open spec fn inv(&self) -> bool {
        &&& sessions_distinct(self@.sessions)
        &&& forall|i: int|
            0 <= i < self@.sessions.len() ==> id_issued(
                self@.issued,
                #[trigger] self@.sessions[i].id,
            )
    }

    /// A fresh registry with no sessions and no history.
    pub fn new() -> (r: Registry)
        ensures
            r@.sessions == Seq::<SessionView>::empty(),
            r@.messages == Seq::<MessageView>::empty(),
            r@.issued == Seq::<Seq<char>>::empty(),
            r.inv(),
    {
        let r = Registry { sessions: Vec::new(), messages: Vec::new(), issued: Vec::new() };
        proof {
            assert(r@.sessions =~= Seq::<SessionView>::empty());
            assert(r@.messages =~= Seq::<MessageView>::empty());
            assert(r@.issued =~= Seq::<Seq<char>>::empty());
        }
        r
    }

    /// Relies on `uuid::Uuid::new_v4` and its hyphenated `Display` form: a
    /// freshly drawn random identifier.  The draw is random, so nothing is
    /// assumed about the value; the caller checks freshness itself.
    #[verifier::external_body]
    fn fresh_session_id() -> (r: String) {
        uuid::Uuid::new_v4().to_string()
    }

    /// The index of the session carrying `id`, if any.
    fn find_index(&self, id: &String) -> (r: Option<usize>)
        ensures
            (match r {
                Some(i) => i < self@.sessions.len() && self@.sessions[i as int].id == id@,
                None => !contains_id(self@.sessions, id@),
            }),
    {
        let mut i: usize = 0;
        while i < self.sessions.len()
            invariant
                i <= self@.sessions.len(),
                forall|j: int| 0 <= j < i ==> #[trigger] self@.sessions[j].id != id@,
            decreases self@.sessions.len() - i,
        {
            if self.sessions[i].user.id == *id {
                return Some(i);
            }
            i += 1;
        }
        None
    }

    /// Whether this identity was ever issued by this registry.
    fn issued_contains(&self, id: &String) -> (r: bool)
        ensures
            r == id_issued(self@.issued, id@),
    {
        let mut i: usize = 0;
        while i < self.issued.len()
            invariant
                i <= self@.issued.len(),
                forall|j: int| 0 <= j < i ==> #[trigger] self@.issued[j] != id@,
            decreases self@.issued.len() - i,
        {
            if self.issued[i] == *id {
                proof {
                    assert(self@.issued[i as int] == id@);
                }
                return true;
            }
            proof {
                assert(self.issued@[i as int]@ == self@.issued[i as int]);
            }
            i += 1;
        }
        false
    }

    /// A session identity longer than every identity ever issued; the
    /// length alone makes it fresh for the registry's whole lifetime.  Only
    /// the fallback path when a random draw collides.
    fn fresh_fallback_id(&self) -> (r: String)
        ensures
            !id_issued(self@.issued, r@),
    {
        let mut max_len: usize = 0;
        let mut i: usize = 0;
        while i < self.issued.len()
            invariant
                i <= self@.issued.len(),
                forall|j: int| 0 <= j < i ==> #[trigger] self@.issued[j].len() <= max_len,
            decreases self@.issued.len() - i,
        {
            let l = self.issued[i].as_str().unicode_len();
            proof {
                assert(self.issued@[i as int]@ == self@.issued[i as int]);
            }
            if l > max_len {
                max_len = l;
            }
            i += 1;
        }
        let mut r = String::new();
        let mut k: usize = 0;
        proof {
            reveal_strlit("x");
        }
        while k < max_len
            invariant
                r@.len() == k,
            decreases max_len - k,
        {
            proof {
                reveal_strlit("x");
            }
            r.append("x");
            k += 1;
        }
        r.append("x");
        proof {
            assert forall|j: int| 0 <= j < self@.issued.len() implies self@.issued[j] != r@ by {
                assert(self@.issued[j].len() <= max_len);
            }
        }
        r
    }

    /// Registers a new session under `username`: draws an identity never
    /// issued before in this registry's lifetime, appends the session with
    /// an empty outbound queue, records the identity as issued, and returns
    /// it.
    pub fn register(&mut self, username: &str) -> (id: String)
        requires
            old(self).inv(),
        ensures
            final(self).inv(),
            !id_issued(old(self)@.issued, id@),
            !contains_id(old(self)@.sessions, id@),
            final(self)@.issued == old(self)@.issued.push(id@),
            final(self)@.sessions == old(self)@.sessions.push(
                SessionView { id: id@, username: username@, outbox: Seq::empty() },
            ),
            final(self)@.messages == old(self)@.messages,
    {
        let candidate = Self::fresh_session_id();
        let id = if !self.issued_contains(&candidate) {
            candidate
        } else {
            self.fresh_fallback_id()
        };
        proof {
            assert forall|i: int|
                0 <= i < self@.sessions.len() implies self@.sessions[i].id != id@ by {
                assert(id_issued(self@.issued, self@.sessions[i].id));
            }
        }
        let user = User { id: id.clone(), username: username.to_owned() };
        let session = Session { user, outbox: Vec::new() };
        let ghost before = self@.sessions;
        let ghost issued_before = self@.issued;
        self.sessions.push(session);
        self.issued.push(id.clone());
        proof {
            assert(self@.sessions =~~= before.push(
                SessionView { id: id@, username: username@, outbox: Seq::empty() },
            ));
            assert(self@.issued =~~= issued_before.push(id@));
            assert forall|i: int, j: int|
                0 <= i < j < self@.sessions.len() implies self@.sessions[i].id
                != self@.sessions[j].id by {
                if j == self@.sessions.len() - 1 {
                    assert(before[i].id != id@);
                }
            }
            assert forall|i: int|
                0 <= i < self@.sessions.len() implies id_issued(
                self@.issued,
                #[trigger] self@.sessions[i].id,
            ) by {
                if i < self@.sessions.len() - 1 {
                    let w = choose|k: int|
                        0 <= k < issued_before.len() && issued_before[k] == before[i].id;
                    assert(self@.issued[w] == before[i].id);
                } else {
                    assert(self@.issued[self@.issued.len() - 1] == id@);
                }
            }
        }
        id
    }

    /// Looks the identity up and returns the user record, or `None` when no
    /// live session carries it.
    pub fn lookup(&self, id: &String) -> (r: Option<User>)
        requires
            self.inv(),
        ensures
            (match r {
                Some(u) => contains_id(self@.sessions, id@) && u@.id == id@ && u@.username
                    == self@.sessions[index_of_id(self@.sessions, id@)].username,
                None => !contains_id(self@.sessions, id@),
            }),
    {
        match self.find_index(id) {
            None => None,
            Some(j) => {
                let u = User {
                    id: id.clone(),
                    username: self.sessions[j].user.username.clone(),
                };
                proof {
                    assert(contains_id(self@.sessions, id@));
                    let ci = index_of_id(self@.sessions, id@);
                    assert(0 <= ci < self@.sessions.len() && self@.sessions[ci].id == id@);
                    assert(ci == j as int);
                }
                Some(u)
            },
        }
    }

    /// Removes the session carrying `id`.  Idempotent: removing an unknown
    /// identity changes nothing.
    pub fn remove(&mut self, id: &String)
        requires
            old(self).inv(),
        ensures
            final(self).inv(),
            final(self)@.messages == old(self)@.messages,
            final(self)@.issued == old(self)@.issued,
            !contains_id(old(self)@.sessions, id@) ==> final(self)@.sessions == old(
                self,
            )@.sessions,
            contains_id(old(self)@.sessions, id@) ==> final(self)@.sessions == old(
                self,
            )@.sessions.remove(index_of_id(old(self)@.sessions, id@)),
    {
        match self.find_index(id) {
            None => {
                proof {
                    assert(final(self)@.sessions =~= old(self)@.sessions);
                }
            },
            Some(j) => {
                let ghost before = self@.sessions;
                self.sessions.remove(j);
                proof {
                    let ci = index_of_id(before, id@);
                    assert(0 <= ci < before.len() && before[ci].id == id@);
                    assert(ci == j as int);
                    assert(self@.sessions =~= before.remove(j as int));
                    assert forall|x: int, y: int|
                        0 <= x < y < self@.sessions.len() implies self@.sessions[x].id
                        != self@.sessions[y].id by {
                        let ox = if x < j as int {
                            x
                        } else {
                            x + 1
                        };
                        let oy = if y < j as int {
                            y
                        } else {
                            y + 1
                        };
                        assert(self@.sessions[x] == before[ox]);
                        assert(self@.sessions[y] == before[oy]);
                    }
                    assert forall|x: int|
                        0 <= x < self@.sessions.len() implies id_issued(
                        self@.issued,
                        #[trigger] self@.sessions[x].id,
                    ) by {
                        let ox = if x < j as int {
                            x
                        } else {
                            x + 1
                        };
                        assert(self@.sessions[x] == before[ox]);
                        assert(id_issued(self@.issued, before[ox].id));
                    }
                }
            },
        }
    }

    /// How many sessions are registered.
    pub fn count(&self) -> (r: usize)
        ensures
            r == self@.sessions.len(),
    {
        self.sessions.len()
    }

    /// A point-in-time view of the display names, in registration order.
    pub fn snapshot(&self) -> (r: Vec<String>)
        ensures
            r.deep_view() == self@.sessions.map_values(|s: SessionView| s.username),
    {
        let mut r: Vec<String> = Vec::new();
        let mut i: usize = 0;
        while i < self.sessions.len()
            invariant
                i <= self@.sessions.len(),
                r@.len() == i,
                forall|j: int| 0 <= j < i ==> #[trigger] r@[j]@ == self@.sessions[j].username,
            decreases self@.sessions.len() - i,
        {
            r.push(self.sessions[i].user.username.clone());
            i += 1;
        }
        proof {
            assert(r.deep_view() =~= self@.sessions.map_values(|s: SessionView| s.username)) by {
                assert forall|j: int| 0 <= j < r@.len() implies r.deep_view()[j]
                    == self@.sessions.map_values(|s: SessionView| s.username)[j] by {
                    assert(r.deep_view()[j] == r@[j]@);
                    assert(r@[j]@ == self@.sessions[j].username);
                }
            }
        }
        r
    }

    /// Fans one accepted chat message out: appends it to the history and
    /// appends its broadcast frame to every registered session's outbound
    /// queue, the sender's included.
    pub fn publish(&mut self, msg: &Message)
        requires
            old(self).inv(),
        ensures
            final(self).inv(),
            final(self)@.messages == old(self)@.messages.push(msg@),
            final(self)@.issued == old(self)@.issued,
            final(self)@.sessions == publish_model(old(self)@.sessions, msg@),
    {
        let mut i: usize = 0;
        while i < self.sessions.len()
            invariant
                i <= self@.sessions.len(),
                self@.sessions.len() == old(self)@.sessions.len(),
                self@.messages == old(self)@.messages,
                self@.issued == old(self)@.issued,
                forall|j: int| i <= j < self@.sessions.len() ==> #[trigger] self@.sessions[j]
                    == old(self)@.sessions[j],
                forall|j: int| 0 <= j < i ==> #[trigger] self@.sessions[j] == (SessionView {
                    id: old(self)@.sessions[j].id,
                    username: old(self)@.sessions[j].username,
                    outbox: old(self)@.sessions[j].outbox.push(broadcast_of(msg@)),
                }),
            decreases self@.sessions.len() - i,
        {
            let ghost prev = self@.sessions;
            let ghost pv = self.sessions@;
            let b = msg.to_broadcast();
            let mut session = self.sessions.remove(i);
            session.outbox.push(b);
            self.sessions.insert(i, session);
            proof {
                assert(self.sessions@ =~= pv.update(i as int, self.sessions@[i as int]));
                assert forall|j: int|
                    0 <= j < self@.sessions.len() && j != i implies self@.sessions[j]
                    == prev[j] by {
                    assert(self.sessions@[j] == pv[j]);
                }
                assert(self@.sessions[i as int].outbox =~= prev[i as int].outbox.push(
                    broadcast_of(msg@),
                ));
                assert(self@.sessions[i as int] =~= (SessionView {
                    id: prev[i as int].id,
                    username: prev[i as int].username,
                    outbox: prev[i as int].outbox.push(broadcast_of(msg@)),
                }));
                assert forall|j: int| 0 <= j < i + 1 implies #[trigger] self@.sessions[j]
                    == (SessionView {
                    id: old(self)@.sessions[j].id,
                    username: old(self)@.sessions[j].username,
                    outbox: old(self)@.sessions[j].outbox.push(broadcast_of(msg@)),
                }) by {
                    if j < i as int {
                        assert(prev[j] == (SessionView {
                            id: old(self)@.sessions[j].id,
                            username: old(self)@.sessions[j].username,
                            outbox: old(self)@.sessions[j].outbox.push(broadcast_of(msg@)),
                        }));
                        assert(self@.sessions[j] == prev[j]);
                    } else {
                        assert(prev[j] == old(self)@.sessions[j]);
                    }
                }
                assert forall|j: int|
                    i + 1 <= j < self@.sessions.len() implies #[trigger] self@.sessions[j] == old(
                    self,
                )@.sessions[j] by {
                    assert(prev[j] == old(self)@.sessions[j]);
                    assert(self@.sessions[j] == prev[j]);
                }
            }
            i += 1;
        }
        let copy = Message {
            user_id: msg.user_id.clone(),
            username: msg.username.clone(),
            content: msg.content.clone(),
        };
        self.messages.push(copy);
        proof {
            assert(final(self)@.sessions =~~= publish_model(old(self)@.sessions, msg@));
            assert(final(self)@.messages =~~= old(self)@.messages.push(msg@));
            assert forall|x: int, y: int|
                0 <= x < y < final(self)@.sessions.len() implies final(self)@.sessions[x].id
                != final(self)@.sessions[y].id by {
                assert(old(self)@.sessions[x].id != old(self)@.sessions[y].id);
            }
            assert forall|x: int|
                0 <= x < final(self)@.sessions.len() implies id_issued(
                final(self)@.issued,
                #[trigger] final(self)@.sessions[x].id,
            ) by {
                assert(final(self)@.sessions[x].id == old(self)@.sessions[x].id);
                assert(id_issued(old(self)@.issued, old(self)@.sessions[x].id));
            }
        }
    }

    /// Hands back everything queued for the session carrying `id`, leaving
    /// its queue empty; an unknown identity yields nothing.  The
    /// connection's writer drains its own queue through this, so one stalled
    /// peer never holds up another session's delivery.
    pub fn take_outbox(&mut self, id: &String) -> (r: Vec<ServerMessages>)
        requires
            old(self).inv(),
        ensures
            final(self).inv(),
            final(self)@.messages == old(self)@.messages,
            final(self)@.issued == old(self)@.issued,
            !contains_id(old(self)@.sessions, id@) ==> r.deep_view() == Seq::<ServerMsg>::empty()
                && final(self)@.sessions == old(self)@.sessions,
            contains_id(old(self)@.sessions, id@) ==> r.deep_view() == old(self)@.sessions[
                index_of_id(old(self)@.sessions, id@)
            ].outbox && final(self)@.sessions == old(self)@.sessions.update(
                index_of_id(old(self)@.sessions, id@),
                SessionView {
                    id: old(self)@.sessions[index_of_id(old(self)@.sessions, id@)].id,
                    username: old(self)@.sessions[
                        index_of_id(old(self)@.sessions, id@)
                    ].username,
                    outbox: Seq::empty(),
                },
            ),
    {
        match self.find_index(id) {
            None => {
                let r: Vec<ServerMessages> = Vec::new();
                proof {
                    assert(r.deep_view() =~~= Seq::<ServerMsg>::empty());
                    assert(final(self)@.sessions =~= old(self)@.sessions);
                }
                r
            },
            Some(j) => {
                let ghost before = self@.sessions;
                let session = self.sessions.remove(j);
                let Session { user, outbox } = session;
                self.sessions.insert(j, Session { user, outbox: Vec::new() });
                proof {
                    let ci = index_of_id(before, id@);
                    assert(0 <= ci < before.len() && before[ci].id == id@);
                    assert(ci == j as int);
                    assert(final(self)@.sessions =~~= before.update(
                        j as int,
                        SessionView {
                            id: before[j as int].id,
                            username: before[j as int].username,
                            outbox: Seq::empty(),
                        },
                    ));
                    assert(final(self)@.messages =~= old(self)@.messages);
                    assert forall|x: int, y: int|
                        0 <= x < y < final(self)@.sessions.len() implies final(self)@.sessions[x].id
                        != final(self)@.sessions[y].id by {
                        assert(before[x].id != before[y].id);
                    }
                    assert forall|x: int|
                        0 <= x < final(self)@.sessions.len() implies id_issued(
                        final(self)@.issued,
                        #[trigger] final(self)@.sessions[x].id,
                    ) by {
                        assert(final(self)@.sessions[x].id == before[x].id);
                        assert(id_issued(old(self)@.issued, before[x].id));
                    }
                }
                outbox
            },
        }
    }

    /// The chat history, in arrival order.
    pub fn get_messages(&self) -> (r: Vec<Message>)
        ensures
            r.deep_view() == self@.messages,
    {
        let mut r: Vec<Message> = Vec::new();
        let mut i: usize = 0;
        while i < self.messages.len()
            invariant
                i <= self@.messages.len(),
                r@.len() == i,
                forall|j: int| 0 <= j < i ==> #[trigger] r@[j]@ == self@.messages[j],
            decreases self@.messages.len() - i,
        {
            let m = &self.messages[i];
            r.push(
                Message {
                    user_id: m.user_id.clone(),
                    username: m.username.clone(),
                    content: m.content.clone(),
                },
            );
            proof {
                assert(self.messages@[i as int]@ == self@.messages[i as int]);
            }
            i += 1;
        }
        proof {
            assert(r.deep_view() =~= self@.messages) by {
                assert forall|j: int| 0 <= j < r@.len() implies r.deep_view()[j]
                    == self@.messages[j] by {
                    assert(r.deep_view()[j] == r@[j]@);
                }
            }
        }
        r
    }

    /// The display names, in registration order, for the watching UI.
    pub fn get_users(&self) -> (r: Vec<String>)
        ensures
            r.deep_view() == self@.sessions.map_values(|s: SessionView| s.username),
    {
        self.snapshot()
    }

    /// How many users are connected, for the watching UI.
    pub fn get_users_len(&self) -> (r: usize)
        ensures
            r == self@.sessions.len(),
    {
        self.count()
    }
}

/// Session identities are unique for the registry's whole lifetime.  The
/// issued record only ever grows (`register` appends, every other
/// operation leaves it alone), so an identity once issued stays on it; and
/// `register` returns only identities not yet on it.  Hence an identity
/// issued later never equals one issued earlier, even one whose session
/// was removed in between.
pub proof fn lemma_lifetime_unique(
    issued_then: Seq<Seq<char>>,
    id_then: Seq<char>,
    issued_now: Seq<Seq<char>>,
    id_now: Seq<char>,
)
    requires
        id_issued(issued_then, id_then),
        issued_then.is_prefix_of(issued_now),
        !id_issued(issued_now, id_now),
    ensures
        id_now != id_then,
{
    let w = choose|i: int| 0 <= i < issued_then.len() && issued_then[i] == id_then;
    assert(issued_now.subrange(0, issued_then.len() as int)[w] == issued_then[w]);
    assert(issued_now[w] == id_then);
}

/// The registry a run of successful handshakes builds: one session per
/// handshake, in order, each with an empty outbound queue.
pub open spec fn after_handshakes(ids: Seq<Seq<char>>, usernames: Seq<Seq<char>>) -> Seq<
    SessionView,
>
    recommends
        ids.len() == usernames.len(),
    decreases ids.len(),
{
    if ids.len() == 0 {
        Seq::empty()
    } else {
        after_handshakes(ids.drop_last(), usernames.drop_last()).push(
            SessionView { id: ids.last(), username: usernames.last(), outbox: Seq::empty() },
        )
    }
}

/// After any number of successful handshakes the registry counts exactly
/// that many sessions, and its snapshot lists exactly the registered
/// display names, in order: none lost, none duplicated.
pub proof fn lemma_handshakes_accumulate(ids: Seq<Seq<char>>, usernames: Seq<Seq<char>>)
    requires
        ids.len() == usernames.len(),
    ensures
        after_handshakes(ids, usernames).len() == ids.len(),
        after_handshakes(ids, usernames).map_values(|s: SessionView| s.username) == usernames,
        forall|i: int|
            0 <= i < ids.len() ==> #[trigger] after_handshakes(ids, usernames)[i].id == ids[i],
    decreases ids.len(),
{
    if ids.len() == 0 {
        assert(after_handshakes(ids, usernames).map_values(|s: SessionView| s.username)
            =~= usernames);
    } else {
        lemma_handshakes_accumulate(ids.drop_last(), usernames.drop_last());
        assert(after_handshakes(ids, usernames).map_values(|s: SessionView| s.username)
            =~= usernames) by {
            let prior = after_handshakes(ids.drop_last(), usernames.drop_last());
            let whole = after_handshakes(ids, usernames);
            assert forall|i: int| 0 <= i < usernames.len() implies whole.map_values(
                |s: SessionView| s.username,
            )[i] == usernames[i] by {
                if i < usernames.len() - 1 {
                    assert(whole[i] == prior[i]);
                    assert(prior.map_values(|s: SessionView| s.username)[i]
                        == usernames.drop_last()[i]);
                }
            }
        }
        assert forall|i: int|
            0 <= i < ids.len() implies #[trigger] after_handshakes(ids, usernames)[i].id
            == ids[i] by {
            if i < ids.len() - 1 {
                assert(after_handshakes(ids, usernames)[i] == after_handshakes(
                    ids.drop_last(),
                    usernames.drop_last(),
                )[i]);
                assert(ids.drop_last()[i] == ids[i]);
            }
        }
    }
}

/// Messages published in order are delivered in that order: after two
/// publishes, every session registered at both points holds the two
/// broadcast frames at the end of its queue, first one first.  Sessions keep
/// their identity and name, and a session absent from the registry receives
/// nothing, because fan-out touches registered queues only.
pub proof fn lemma_publish_in_order(ss: Seq<SessionView>, m1: MessageView, m2: MessageView, i: int)
    requires
        0 <= i < ss.len(),
    ensures
        publish_model(publish_model(ss, m1), m2).len() == ss.len(),
        publish_model(publish_model(ss, m1), m2)[i].id == ss[i].id,
        publish_model(publish_model(ss, m1), m2)[i].username == ss[i].username,
        publish_model(publish_model(ss, m1), m2)[i].outbox == ss[i].outbox + seq![
            broadcast_of(m1),
            broadcast_of(m2),
        ],
{
    assert(publish_model(publish_model(ss, m1), m2)[i].outbox =~= ss[i].outbox + seq![
        broadcast_of(m1),
        broadcast_of(m2),
    ]);
}

} // verus!
