use chat_relay::client::{send_failure_message, Client, ConnectError, SendError};
use chat_relay::codec::{encode_client, encode_server, parse_client_payload, parse_server_payload};
use chat_relay::framing::FrameBuffer;
use chat_relay::messages::{ClientMessages, ServerMessages};

fn connect(username: &str) -> ClientMessages {
    ClientMessages::Connect { username: username.to_string() }
}

fn message(id: &str, content: &str) -> ClientMessages {
    ClientMessages::Message { id: id.to_string(), content: content.to_string() }
}

fn frame_of_client(m: &ClientMessages) -> Vec<u8> {
    encode_client(m).expect("message fits")
}

fn frame_of_server(m: &ServerMessages) -> Vec<u8> {
    encode_server(m).expect("message fits")
}

fn payloads_of(bytes: &[u8]) -> Vec<Vec<u8>> {
    let mut buf = FrameBuffer::new();
    buf.feed(bytes);
    let mut out = Vec::new();
    while let Some(p) = buf.poll() {
        out.push(p);
    }
    out
}

#[test]
fn round_trip_connect() {
    let m = connect("alice");
    let ps = payloads_of(&frame_of_client(&m));
    assert_eq!(ps.len(), 1);
    assert_eq!(parse_client_payload(&ps[0]), Ok(m));
}

#[test]
fn round_trip_message() {
    let m = message("some-session-id", "hello there");
    let ps = payloads_of(&frame_of_client(&m));
    assert_eq!(ps.len(), 1);
    assert_eq!(parse_client_payload(&ps[0]), Ok(m));
}

#[test]
fn round_trip_unicode_content() {
    let m = message("id-1", "héllo ☃ — grüße");
    let ps = payloads_of(&frame_of_client(&m));
    assert_eq!(parse_client_payload(&ps[0]), Ok(m));
}

#[test]
fn round_trip_empty_strings() {
    let m = message("", "");
    let ps = payloads_of(&frame_of_client(&m));
    assert_eq!(parse_client_payload(&ps[0]), Ok(m));
}

#[test]
fn round_trip_connected() {
    let m = ServerMessages::Connected { id: "u-1".to_string() };
    let ps = payloads_of(&frame_of_server(&m));
    assert_eq!(parse_server_payload(&ps[0]), Ok(m));
}

#[test]
fn round_trip_server_error() {
    let m = ServerMessages::ServerError { message: "Invalid message format".to_string() };
    let ps = payloads_of(&frame_of_server(&m));
    assert_eq!(parse_server_payload(&ps[0]), Ok(m));
}

#[test]
fn round_trip_broadcast() {
    let m = ServerMessages::Broadcast {
        sender_id: "u-1".to_string(),
        sender_username: "alice".to_string(),
        content: "hi".to_string(),
    };
    let ps = payloads_of(&frame_of_server(&m));
    assert_eq!(parse_server_payload(&ps[0]), Ok(m));
}

#[test]
fn encode_connect_exact_bytes() {
    // Frame: payload length 6, then tag 1, field length 1, byte 'a'.
    let bytes = frame_of_client(&connect("a"));
    assert_eq!(bytes, vec![0, 0, 0, 6, 1, 0, 0, 0, 1, 97]);
}

#[test]
fn encode_message_exact_bytes() {
    // Tag 2, then "id" (2 bytes) and "hi" (2 bytes), each length-prefixed.
    let bytes = frame_of_client(&message("id", "hi"));
    assert_eq!(
        bytes,
        vec![0, 0, 0, 13, 2, 0, 0, 0, 2, 105, 100, 0, 0, 0, 2, 104, 105]
    );
}

#[test]
fn chunked_feed_reassembles_stream() {
    // Two frames and the first half of a third, delivered one byte at a time.
    let m1 = connect("alice");
    let m2 = message("id-1", "first");
    let m3 = message("id-1", "second");
    let mut stream = frame_of_client(&m1);
    stream.extend_from_slice(&frame_of_client(&m2));
    let tail = frame_of_client(&m3);
    stream.extend_from_slice(&tail[..tail.len() / 2]);

    let mut buf = FrameBuffer::new();
    let mut seen = Vec::new();
    for b in stream.iter() {
        buf.feed(&[*b]);
        while let Some(p) = buf.poll() {
            seen.push(parse_client_payload(&p).expect("whole frames parse"));
        }
    }
    assert_eq!(seen, vec![m1, m2.clone()]);

    // The rest of the third frame completes it.
    buf.feed(&tail[tail.len() / 2..]);
    let p = buf.poll().expect("frame now complete");
    assert_eq!(parse_client_payload(&p), Ok(m3));
    assert!(buf.poll().is_none());
    let _ = m2;
}

#[test]
fn coalesced_frames_split_apart() {
    let m1 = connect("alice");
    let m2 = connect("bob");
    let mut stream = frame_of_client(&m1);
    stream.extend_from_slice(&frame_of_client(&m2));
    let ps = payloads_of(&stream);
    assert_eq!(ps.len(), 2);
    assert_eq!(parse_client_payload(&ps[0]), Ok(m1));
    assert_eq!(parse_client_payload(&ps[1]), Ok(m2));
}

#[test]
fn partial_frame_stays_pending() {
    let bytes = frame_of_client(&connect("alice"));
    let mut buf = FrameBuffer::new();
    buf.feed(&bytes[..3]);
    assert!(buf.poll().is_none());
    buf.feed(&bytes[3..bytes.len() - 1]);
    assert!(buf.poll().is_none());
    buf.feed(&bytes[bytes.len() - 1..]);
    assert!(buf.poll().is_some());
}

#[test]
fn empty_buffer_pending() {
    let mut buf = FrameBuffer::new();
    assert!(buf.poll().is_none());
}

#[test]
fn unknown_tag_is_framing_error() {
    // A well-framed payload whose tag belongs to no message.
    let payload = vec![9u8, 0, 0, 0, 1, 97];
    assert!(parse_client_payload(&payload).is_err());
    assert!(parse_server_payload(&payload).is_err());
}

#[test]
fn truncated_payload_is_framing_error() {
    // Tag says Connect, field length says 5, but only 2 bytes follow.
    let payload = vec![1u8, 0, 0, 0, 5, 97, 98];
    assert!(parse_client_payload(&payload).is_err());
}

#[test]
fn trailing_garbage_is_framing_error() {
    let mut payload = vec![1u8, 0, 0, 0, 1, 97];
    payload.push(0);
    assert!(parse_client_payload(&payload).is_err());
}

#[test]
fn invalid_utf8_is_framing_error() {
    let payload = vec![1u8, 0, 0, 0, 1, 0xFF];
    assert!(parse_client_payload(&payload).is_err());
}

#[test]
fn empty_payload_is_framing_error() {
    let payload: Vec<u8> = Vec::new();
    assert!(parse_client_payload(&payload).is_err());
}

#[test]
fn client_handshake_flow() {
    let mut c = Client::new();
    assert!(!c.is_connected());
    assert!(c.session_id().is_none());

    let frame = c.connect_frame("alice").expect("first connect builds a frame");
    let ps = payloads_of(&frame);
    assert_eq!(parse_client_payload(&ps[0]), Ok(connect("alice")));

    let reply = ServerMessages::Connected { id: "u-7".to_string() };
    assert_eq!(c.complete_handshake(&reply), Ok("u-7".to_string()));
    assert!(c.is_connected());
    assert_eq!(c.session_id(), Some("u-7".to_string()));
}

#[test]
fn client_connect_is_idempotent() {
    let mut c = Client::new();
    let _ = c.connect_frame("alice").expect("frame");
    let reply = ServerMessages::Connected { id: "u-7".to_string() };
    assert_eq!(c.complete_handshake(&reply), Ok("u-7".to_string()));

    // A second connect is a no-op: no new frame, the old identity sticks.
    assert!(c.connect_frame("alice").is_none());
    let other = ServerMessages::Connected { id: "u-8".to_string() };
    assert_eq!(c.complete_handshake(&other), Ok("u-7".to_string()));
    assert_eq!(c.session_id(), Some("u-7".to_string()));
}

#[test]
fn client_handshake_rejected() {
    let mut c = Client::new();
    let reply = ServerMessages::ServerError { message: "no".to_string() };
    match c.complete_handshake(&reply) {
        Err(ConnectError::Rejected { message }) => assert_eq!(message, "no"),
        other => panic!("expected rejection, got {:?}", other.is_ok()),
    }
    assert!(!c.is_connected());
}

#[test]
fn client_handshake_unexpected_reply() {
    let mut c = Client::new();
    let reply = ServerMessages::Broadcast {
        sender_id: "x".to_string(),
        sender_username: "y".to_string(),
        content: "z".to_string(),
    };
    assert!(matches!(c.complete_handshake(&reply), Err(ConnectError::UnexpectedReply)));
    assert!(!c.is_connected());
}

#[test]
fn client_send_requires_connection() {
    let c = Client::new();
    assert_eq!(c.send_message("hi"), Err(SendError::NotConnected));
}

#[test]
fn client_send_builds_frame() {
    let mut c = Client::new();
    let _ = c.connect_frame("alice");
    let reply = ServerMessages::Connected { id: "u-7".to_string() };
    let _ = c.complete_handshake(&reply);

    let bytes = c.send_message("hi").expect("framed");
    let ps = payloads_of(&bytes);
    assert_eq!(parse_client_payload(&ps[0]), Ok(message("u-7", "hi")));
}

#[test]
fn client_disconnect_resets() {
    let mut c = Client::new();
    let _ = c.connect_frame("alice");
    let _ = c.complete_handshake(&ServerMessages::Connected { id: "u-7".to_string() });
    c.disconnect();
    assert!(!c.is_connected());
    assert_eq!(c.send_message("hi"), Err(SendError::NotConnected));
    assert!(c.connect_frame("alice").is_some());
}

#[test]
fn send_failure_messages_are_distinct() {
    assert_eq!(
        send_failure_message(true, "ignored"),
        "Connection closed. Please reconnect."
    );
    assert_eq!(send_failure_message(false, "broken pipe"), "Write error: broken pipe");
}
