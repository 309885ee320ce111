use chat_relay::codec::{encode_client, frame_of_payload, parse_server_payload};
use chat_relay::framing::FrameBuffer;
use chat_relay::handler::Connection;
use chat_relay::messages::{ClientMessages, ServerMessages};
use chat_relay::registry::Registry;

fn connect_frame(username: &str) -> Vec<u8> {
    encode_client(&ClientMessages::Connect { username: username.to_string() }).expect("fits")
}

fn message_frame(id: &str, content: &str) -> Vec<u8> {
    encode_client(&ClientMessages::Message { id: id.to_string(), content: content.to_string() })
        .expect("fits")
}

fn handshake(conn: &mut Connection, registry: &mut Registry, username: &str) -> String {
    let replies = conn.on_chunk(&connect_frame(username), registry);
    assert_eq!(replies.len(), 1);
    match &replies[0] {
        ServerMessages::Connected { id } => id.clone(),
        other => panic!("expected Connected, got {:?}", other),
    }
}

fn broadcast(sender_id: &str, sender_username: &str, content: &str) -> ServerMessages {
    ServerMessages::Broadcast {
        sender_id: sender_id.to_string(),
        sender_username: sender_username.to_string(),
        content: content.to_string(),
    }
}

#[test]
fn register_updates_count_and_snapshot() {
    let mut r = Registry::new();
    assert_eq!(r.count(), 0);
    let a = r.register("alice");
    let b = r.register("bob");
    assert_ne!(a, b);
    assert_eq!(r.count(), 2);
    assert_eq!(r.snapshot(), vec!["alice".to_string(), "bob".to_string()]);
    assert_eq!(r.get_users(), vec!["alice".to_string(), "bob".to_string()]);
    assert_eq!(r.get_users_len(), 2);
}

#[test]
fn usernames_need_not_be_unique() {
    let mut r = Registry::new();
    let a = r.register("alice");
    let b = r.register("alice");
    assert_ne!(a, b);
    assert_eq!(r.count(), 2);
}

#[test]
fn lookup_finds_registered_session() {
    let mut r = Registry::new();
    let a = r.register("alice");
    let u = r.lookup(&a).expect("registered");
    assert_eq!(u.id(), &a);
    assert_eq!(u.username().as_str(), "alice");
    assert!(r.lookup(&"missing".to_string()).is_none());
}

#[test]
fn remove_is_idempotent() {
    let mut r = Registry::new();
    let a = r.register("alice");
    let b = r.register("bob");
    r.remove(&a);
    assert_eq!(r.count(), 1);
    assert_eq!(r.snapshot(), vec!["bob".to_string()]);
    r.remove(&a);
    assert_eq!(r.count(), 1);
    let _ = b;
}

#[test]
fn interleaved_register_remove_loses_nothing() {
    let mut r = Registry::new();
    let a = r.register("alice");
    let _b = r.register("bob");
    r.remove(&a);
    let _c = r.register("carol");
    assert_eq!(r.count(), 2);
    assert_eq!(r.snapshot(), vec!["bob".to_string(), "carol".to_string()]);
}

#[test]
fn removed_session_id_is_never_reissued() {
    // A dead session's identity stays retired for the registry's lifetime.
    let mut r = Registry::new();
    let a = r.register("alice");
    r.remove(&a);
    assert_eq!(r.count(), 0);
    let b = r.register("alice");
    assert_ne!(a, b);
    assert_eq!(r.count(), 1);
}

#[test]
fn publish_reaches_every_session_in_order() {
    let mut r = Registry::new();
    let a = r.register("alice");
    let b = r.register("bob");
    let m1 = chat_relay::messages::Message {
        user_id: a.clone(),
        username: "alice".to_string(),
        content: "one".to_string(),
    };
    let m2 = chat_relay::messages::Message {
        user_id: a.clone(),
        username: "alice".to_string(),
        content: "two".to_string(),
    };
    r.publish(&m1);
    r.publish(&m2);
    let expected = vec![broadcast(&a, "alice", "one"), broadcast(&a, "alice", "two")];
    assert_eq!(r.take_outbox(&a), expected);
    assert_eq!(r.take_outbox(&b), expected);
    // Draining empties the queue; nothing is delivered twice.
    assert!(r.take_outbox(&a).is_empty());
    assert_eq!(r.get_messages().len(), 2);
}

#[test]
fn session_removed_before_publish_receives_nothing() {
    let mut r = Registry::new();
    let a = r.register("alice");
    let b = r.register("bob");
    r.remove(&b);
    let m = chat_relay::messages::Message {
        user_id: a.clone(),
        username: "alice".to_string(),
        content: "hi".to_string(),
    };
    r.publish(&m);
    assert_eq!(r.take_outbox(&a).len(), 1);
    assert!(r.take_outbox(&b).is_empty());
}

#[test]
fn chat_scenario_two_clients() {
    let mut registry = Registry::new();

    let mut conn_a = Connection::new();
    let alice_id = handshake(&mut conn_a, &mut registry, "alice");
    assert_eq!(registry.count(), 1);

    let mut conn_b = Connection::new();
    let bob_id = handshake(&mut conn_b, &mut registry, "bob");
    assert_eq!(registry.count(), 2);

    // Alice sends "hi": no direct reply, a broadcast for everyone including her.
    let replies = conn_a.on_chunk(&message_frame(&alice_id, "hi"), &mut registry);
    assert!(replies.is_empty());
    let hi = broadcast(&alice_id, "alice", "hi");
    assert_eq!(registry.take_outbox(&alice_id), vec![hi.clone()]);
    assert_eq!(registry.take_outbox(&bob_id), vec![hi]);

    // Alice's later message is delivered after her first one.
    let _ = conn_a.on_chunk(&message_frame(&alice_id, "again"), &mut registry);
    assert_eq!(
        registry.take_outbox(&bob_id),
        vec![broadcast(&alice_id, "alice", "again")]
    );

    // Alice disconnects; a message from Bob reaches only Bob.
    conn_a.on_disconnect(&mut registry);
    assert_eq!(registry.count(), 1);
    let _ = conn_b.on_chunk(&message_frame(&bob_id, "bye"), &mut registry);
    assert!(registry.take_outbox(&alice_id).is_empty());
    assert_eq!(registry.take_outbox(&bob_id), vec![broadcast(&bob_id, "bob", "bye")]);
    assert_eq!(registry.snapshot(), vec!["bob".to_string()]);
}

#[test]
fn unknown_sender_is_dropped() {
    let mut registry = Registry::new();
    let mut conn = Connection::new();
    let id = handshake(&mut conn, &mut registry, "alice");

    let replies = conn.on_chunk(&message_frame("no-such-session", "spoof"), &mut registry);
    assert!(replies.is_empty());
    assert!(registry.take_outbox(&id).is_empty());
    assert!(registry.get_messages().is_empty());
}

#[test]
fn impersonation_is_dropped() {
    let mut registry = Registry::new();
    let mut conn_a = Connection::new();
    let alice_id = handshake(&mut conn_a, &mut registry, "alice");
    let mut conn_b = Connection::new();
    let bob_id = handshake(&mut conn_b, &mut registry, "bob");

    // Bob claims Alice's identity: dropped, no queue sees it.
    let replies = conn_b.on_chunk(&message_frame(&alice_id, "as alice"), &mut registry);
    assert!(replies.is_empty());
    assert!(registry.take_outbox(&alice_id).is_empty());
    assert!(registry.take_outbox(&bob_id).is_empty());
}

#[test]
fn unrecognized_tag_keeps_connection_usable() {
    let mut registry = Registry::new();
    let mut conn = Connection::new();

    // A well-framed payload with a tag no message uses.
    let bad = frame_of_payload(&vec![9u8, 1, 2, 3]).expect("fits");
    let replies = conn.on_chunk(&bad, &mut registry);
    assert_eq!(replies.len(), 1);
    assert_eq!(
        replies[0],
        ServerMessages::ServerError { message: "Invalid message format".to_string() }
    );
    assert_eq!(registry.count(), 0);

    // The same connection still completes a valid handshake.
    let id = handshake(&mut conn, &mut registry, "alice");
    assert_eq!(registry.count(), 1);
    assert!(registry.lookup(&id).is_some());
}

#[test]
fn second_connect_is_rejected_not_reregistered() {
    let mut registry = Registry::new();
    let mut conn = Connection::new();
    let _id = handshake(&mut conn, &mut registry, "alice");

    let replies = conn.on_chunk(&connect_frame("alice"), &mut registry);
    assert_eq!(replies.len(), 1);
    assert_eq!(
        replies[0],
        ServerMessages::ServerError { message: "Already connected".to_string() }
    );
    assert_eq!(registry.count(), 1);
}

#[test]
fn message_before_handshake_is_rejected() {
    let mut registry = Registry::new();
    let mut conn = Connection::new();
    let replies = conn.on_chunk(&message_frame("any", "hi"), &mut registry);
    assert_eq!(replies.len(), 1);
    assert_eq!(
        replies[0],
        ServerMessages::ServerError { message: "Handshake required".to_string() }
    );
    assert_eq!(registry.count(), 0);
}

#[test]
fn disconnect_before_handshake_registers_nothing() {
    let mut registry = Registry::new();
    let mut conn = Connection::new();
    conn.on_disconnect(&mut registry);
    assert_eq!(registry.count(), 0);
    // A closed connection ignores further input.
    let replies = conn.on_chunk(&connect_frame("alice"), &mut registry);
    assert!(replies.is_empty());
    assert_eq!(registry.count(), 0);
}

#[test]
fn end_to_end_client_server_exchange() {
    let mut registry = Registry::new();
    let mut conn = Connection::new();
    let mut client = chat_relay::client::Client::new();

    // Client -> server: handshake.
    let hello = client.connect_frame("alice").expect("frame");
    let replies = conn.on_chunk(&hello, &mut registry);
    assert_eq!(replies.len(), 1);

    // Server -> client: the reply travels framed and is decoded back.
    let wire = chat_relay::codec::encode_server(&replies[0]).expect("fits");
    let mut inbound = FrameBuffer::new();
    inbound.feed(&wire);
    let payload = inbound.poll().expect("one whole frame");
    let reply = parse_server_payload(&payload).expect("parses");
    let id = client.complete_handshake(&reply).expect("accepted");
    assert_eq!(registry.count(), 1);

    // Client sends a message; the broadcast comes back to it.
    let msg = client.send_message("hi all").expect("framed");
    let replies = conn.on_chunk(&msg, &mut registry);
    assert!(replies.is_empty());
    let queued = registry.take_outbox(&id);
    assert_eq!(queued, vec![broadcast(&id, "alice", "hi all")]);
}
