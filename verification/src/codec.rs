//! The wire codec: a 4-byte big-endian length prefix in front of every
//! payload, and a tagged payload encoding for each protocol message.
//!
//! The payload of a message is a tag byte followed by its string fields, each
//! carried as a 4-byte big-endian byte count and then the field's UTF-8
//! bytes.  `spec_client_payload` / `spec_server_payload` are the mathematical
//! definitions; the executable encoders and parsers are proved against them,
//! including the round trip: parsing the encoding of any message yields that
//! message back.

use vstd::prelude::*;
use vstd::arithmetic::div_mod::{
    lemma_div_denominator,
    lemma_fundamental_div_mod,
    lemma_fundamental_div_mod_converse,
};
use vstd::slice::slice_subrange;
use vstd::slice::slice_to_vec;
use vstd::string::StrSliceExecFns;
use vstd::string::StringSliceAdditionalSpecFns;
use vstd::utf8::{
    decode_utf8,
    decode_utf8_encode_utf8,
    encode_utf8,
    encode_utf8_decode_utf8,
    encode_utf8_valid_utf8,
    valid_utf8,
};

use crate::messages::{ClientMessages, ClientMsg, ServerMessages, ServerMsg};

verus! {

/// Largest value the 4-byte length prefix can carry.
pub const MAX_PREFIX: u64 = 0xFFFF_FFFF;

/// The four big-endian base-256 digits of `n`.
pub open spec fn spec_be32(n: int) -> Seq<u8>
    recommends
        0 <= n < 0x1_0000_0000,
{
    seq![
        ((n / 0x100_0000) % 256) as u8,
        ((n / 0x1_0000) % 256) as u8,
        ((n / 0x100) % 256) as u8,
        (n % 256) as u8,
    ]
}

/// The value of four bytes read as a big-endian integer.
pub open spec fn be32_val(b: Seq<u8>) -> int
    recommends
        b.len() == 4,
{
    (b[0] as int) * 0x100_0000 + (b[1] as int) * 0x1_0000 + (b[2] as int) * 0x100 + (b[3] as int)
}

/// Writing a value as four big-endian bytes and reading them back yields the
/// value.
pub proof fn lemma_be32_of_val(n: int)
    requires
        0 <= n < 0x1_0000_0000,
    ensures
        be32_val(spec_be32(n)) == n,
{
    let q1 = n / 256;
    lemma_fundamental_div_mod(n, 256);
    lemma_fundamental_div_mod(q1, 256);
    let q2 = q1 / 256;
    lemma_fundamental_div_mod(q2, 256);
    lemma_div_denominator(n, 256, 256);
    lemma_div_denominator(n, 0x1_0000, 256);
    assert(q2 == n / 0x1_0000);
    assert(q2 / 256 == n / 0x100_0000);
    assert(0 <= n % 256 < 256 && 0 <= q1 % 256 < 256 && 0 <= q2 % 256 < 256) by {
        lemma_fundamental_div_mod(n, 256);
    }
    assert((n / 0x100_0000) % 256 == n / 0x100_0000) by {
        lemma_fundamental_div_mod_converse(n / 0x100_0000, 256, 0, n / 0x100_0000);
    }
}

/// Reading four bytes as a big-endian integer and writing it back yields the
/// same four bytes.
pub proof fn lemma_be32_of_bytes(b: Seq<u8>)
    requires
        b.len() == 4,
    ensures
        0 <= be32_val(b) < 0x1_0000_0000,
        spec_be32(be32_val(b)) == b,
{
    let n = be32_val(b);
    let b0 = b[0] as int;
    let b1 = b[1] as int;
    let b2 = b[2] as int;
    let b3 = b[3] as int;
    lemma_fundamental_div_mod_converse(n, 0x100_0000, b0, b1 * 0x1_0000 + b2 * 0x100 + b3);
    lemma_fundamental_div_mod_converse(n, 0x1_0000, b0 * 0x100 + b1, b2 * 0x100 + b3);
    lemma_fundamental_div_mod_converse(n, 0x100, b0 * 0x1_0000 + b1 * 0x100 + b2, b3);
    lemma_fundamental_div_mod_converse(b0 * 0x100 + b1, 0x100, b0, b1);
    lemma_fundamental_div_mod_converse(b0 * 0x1_0000 + b1 * 0x100 + b2, 0x100, b0 * 0x100 + b1, b2);
    assert((n / 0x100_0000) % 256 == b0) by {
        lemma_fundamental_div_mod_converse(b0, 0x100, 0, b0);
    }
    assert(spec_be32(n) =~= b);
}

/// The four big-endian bytes of `n`, as a vector.
pub fn be32_bytes(n: u32) -> (r: Vec<u8>)
    ensures
        r@ == spec_be32(n as int),
        r@.len() == 4,
{
    let mut r: Vec<u8> = Vec::new();
    r.push((n / 0x100_0000) as u8);
    r.push(((n / 0x1_0000) % 256) as u8);
    r.push(((n / 0x100) % 256) as u8);
    r.push((n % 256) as u8);
    proof {
        assert(n / 0x100_0000 < 256);
        assert((n / 0x100_0000) as int == (n as int) / 0x100_0000 % 256) by {
            lemma_fundamental_div_mod_converse(
                (n as int) / 0x100_0000,
                256,
                0,
                (n as int) / 0x100_0000,
            );
        }
        assert(r@ =~= spec_be32(n as int));
    }
    r
}

/// The value of the first four bytes of `b`, read as a big-endian integer.
pub fn be32_read(b: &[u8]) -> (r: u32)
    requires
        b@.len() >= 4,
    ensures
        r as int == be32_val(b@.take(4)),
{
    let r = (b[0] as u32) * 0x100_0000 + (b[1] as u32) * 0x1_0000 + (b[2] as u32) * 0x100 + (
    b[3] as u32);
    proof {
        assert(b@.take(4)[0] == b@[0] && b@.take(4)[1] == b@[1] && b@.take(4)[2] == b@[2] && b@.take(
            4,
        )[3] == b@[3]);
    }
    r
}

/// Tag byte of a `Connect` payload.
pub const TAG_CONNECT: u8 = 1;

/// Tag byte of a `Message` payload.
pub const TAG_MESSAGE: u8 = 2;

/// Tag byte of a `Connected` payload.
pub const TAG_CONNECTED: u8 = 3;

/// Tag byte of a `ServerError` payload.
pub const TAG_SERVER_ERROR: u8 = 4;

/// Tag byte of a `Broadcast` payload.
pub const TAG_BROADCAST: u8 = 5;

/// A payload that is not the encoding of any protocol message: an unknown
/// tag, an inner length that does not match, or bytes that are not UTF-8.
/// Distinct from an incomplete frame, which is not an error.
#[derive(Clone, Copy, Debug, PartialEq, Eq, Structural)]
pub struct FramingError;

/// Wire form of one string field: a 4-byte big-endian byte count followed by
/// the field's UTF-8 bytes.
pub open spec fn spec_field(s: Seq<char>) -> Seq<u8> {
    spec_be32(encode_utf8(s).len() as int) + encode_utf8(s)
}

/// A field whose byte count fits the 4-byte prefix.
pub open spec fn field_wf(s: Seq<char>) -> bool {
    encode_utf8(s).len() <= MAX_PREFIX
}

/// Wire payload of one client-to-server message.
pub open spec fn spec_client_payload(m: ClientMsg) -> Seq<u8> {
    match m {
        ClientMsg::Connect { username } => seq![TAG_CONNECT] + spec_field(username),
        ClientMsg::Message { id, content } => seq![TAG_MESSAGE] + spec_field(id) + spec_field(
            content,
        ),
    }
}

/// Every field of the message fits its length prefix.
pub open spec fn client_wf(m: ClientMsg) -> bool {
    match m {
        ClientMsg::Connect { username } => field_wf(username),
        ClientMsg::Message { id, content } => field_wf(id) && field_wf(content),
    }
}

/// Wire payload of one server-to-client message.
pub open spec fn spec_server_payload(m: ServerMsg) -> Seq<u8> {
    match m {
        ServerMsg::Connected { id } => seq![TAG_CONNECTED] + spec_field(id),
        ServerMsg::ServerError { message } => seq![TAG_SERVER_ERROR] + spec_field(message),
        ServerMsg::Broadcast { sender_id, sender_username, content } => seq![TAG_BROADCAST]
            + spec_field(sender_id) + spec_field(sender_username) + spec_field(content),
    }
}

/// Every field of the message fits its length prefix.
pub open spec fn server_wf(m: ServerMsg) -> bool {
    match m {
        ServerMsg::Connected { id } => field_wf(id),
        ServerMsg::ServerError { message } => field_wf(message),
        ServerMsg::Broadcast { sender_id, sender_username, content } => field_wf(sender_id)
            && field_wf(sender_username) && field_wf(content),
    }
}

/// Complete wire frame carrying `p`: the length prefix, then the payload.
pub open spec fn spec_frame(p: Seq<u8>) -> Seq<u8>
    recommends
        p.len() <= MAX_PREFIX,
{
    spec_be32(p.len() as int) + p
}

/// The whole message, payload and frame prefix alike, fits on the wire.
pub open spec fn client_fits(m: ClientMsg) -> bool {
    client_wf(m) && spec_client_payload(m).len() <= MAX_PREFIX
}

/// The whole message, payload and frame prefix alike, fits on the wire.
pub open spec fn server_fits(m: ServerMsg) -> bool {
    server_wf(m) && spec_server_payload(m).len() <= MAX_PREFIX
}

/// Relies on `String::from_utf8` from std: it succeeds exactly on valid
/// UTF-8 input and then returns the string those bytes spell, which is the
/// unique decoding that vstd's UTF-8 model assigns to them.
#[verifier::external_body]
fn bytes_to_string(v: Vec<u8>) -> (r: Option<String>)
    ensures
        (match r {
            Some(s) => valid_utf8(v@) && s@ == decode_utf8(v@),
            None => !valid_utf8(v@),
        }),
{
    String::from_utf8(v).ok()
}

/// Appends a byte slice to a vector.
pub(crate) fn append_bytes(out: &mut Vec<u8>, src: &[u8])
    ensures
        final(out)@ == old(out)@ + src@,
{
    let mut i: usize = 0;
    while i < src.len()
        invariant
            i <= src@.len(),
            out@ == old(out)@ + src@.take(i as int),
        decreases src@.len() - i,
    {
        out.push(src[i]);
        proof {
            assert(old(out)@ + src@.take(i as int) + seq![src@[i as int]] =~= old(out)@ + src@.take(
                i + 1,
            ));
        }
        i += 1;
    }
    proof {
        assert(src@.take(src@.len() as int) =~= src@);
    }
}

/// Appends the wire form of one string field, refusing a field whose UTF-8
/// byte count overflows the 4-byte prefix.
fn encode_field(out: &mut Vec<u8>, s: &str) -> (ok: bool)
    ensures
        ok ==> field_wf(s@) && final(out)@ == old(out)@ + spec_field(s@),
        !ok ==> !field_wf(s@) && final(out)@ == old(out)@,
{
    let bytes = s.as_bytes_vec();
    if bytes.len() as u64 > MAX_PREFIX {
        return false;
    }
    let len_bytes = be32_bytes(bytes.len() as u32);
    append_bytes(out, len_bytes.as_slice());
    append_bytes(out, bytes.as_slice());
    proof {
        assert(old(out)@ + spec_be32(encode_utf8(s@).len() as int) + encode_utf8(s@) =~= old(out)@
            + spec_field(s@));
    }
    true
}

/// Wraps a payload in a frame: the payload's length as four big-endian
/// bytes, then the payload.  Refuses a payload longer than the prefix can
/// say.
pub fn frame_of_payload(payload: &Vec<u8>) -> (r: Option<Vec<u8>>)
    ensures
        (match r {
            Some(b) => payload@.len() <= MAX_PREFIX && b@ == spec_frame(payload@),
            None => payload@.len() > MAX_PREFIX,
        }),
{
    if payload.len() as u64 > MAX_PREFIX {
        return None;
    }
    let mut out = be32_bytes(payload.len() as u32);
    append_bytes(&mut out, payload.as_slice());
    Some(out)
}

/// Encodes one client-to-server message as a complete wire frame.
/// Returns `None` exactly when the message is too large for the wire format.
pub fn encode_client(m: &ClientMessages) -> (r: Option<Vec<u8>>)
    ensures
        (match r {
            Some(b) => client_fits(m@) && b@ == spec_frame(spec_client_payload(m@)),
            None => !client_fits(m@),
        }),
{
    let mut payload: Vec<u8> = Vec::new();
    match m {
        ClientMessages::Connect { username } => {
            payload.push(TAG_CONNECT);
            if !encode_field(&mut payload, username.as_str()) {
                return None;
            }
            proof {
                assert(payload@ =~= spec_client_payload(m@));
            }
        },
        ClientMessages::Message { id, content } => {
            payload.push(TAG_MESSAGE);
            if !encode_field(&mut payload, id.as_str()) {
                return None;
            }
            if !encode_field(&mut payload, content.as_str()) {
                return None;
            }
            proof {
                assert(payload@ =~= spec_client_payload(m@));
            }
        },
    }
    frame_of_payload(&payload)
}

/// Encodes one server-to-client message as a complete wire frame.
/// Returns `None` exactly when the message is too large for the wire format.
pub fn encode_server(m: &ServerMessages) -> (r: Option<Vec<u8>>)
    ensures
        (match r {
            Some(b) => server_fits(m@) && b@ == spec_frame(spec_server_payload(m@)),
            None => !server_fits(m@),
        }),
{
    let mut payload: Vec<u8> = Vec::new();
    match m {
        ServerMessages::Connected { id } => {
            payload.push(TAG_CONNECTED);
            if !encode_field(&mut payload, id.as_str()) {
                return None;
            }
            proof {
                assert(payload@ =~= spec_server_payload(m@));
            }
        },
        ServerMessages::ServerError { message } => {
            payload.push(TAG_SERVER_ERROR);
            if !encode_field(&mut payload, message.as_str()) {
                return None;
            }
            proof {
                assert(payload@ =~= spec_server_payload(m@));
            }
        },
        ServerMessages::Broadcast { sender_id, sender_username, content } => {
            payload.push(TAG_BROADCAST);
            if !encode_field(&mut payload, sender_id.as_str()) {
                return None;
            }
            if !encode_field(&mut payload, sender_username.as_str()) {
                return None;
            }
            if !encode_field(&mut payload, content.as_str()) {
                return None;
            }
            proof {
                assert(payload@ =~= spec_server_payload(m@));
            }
        },
    }
    frame_of_payload(&payload)
}

/// Two fields with the same wire form are the same field.
pub proof fn lemma_field_injective(s1: Seq<char>, s2: Seq<char>)
    requires
        spec_field(s1) == spec_field(s2),
    ensures
        s1 == s2,
{
    let e1 = encode_utf8(s1);
    let e2 = encode_utf8(s2);
    assert(spec_field(s1).len() == 4 + e1.len());
    assert(spec_field(s2).len() == 4 + e2.len());
    assert(e1 =~= e2) by {
        assert forall|i: int| 0 <= i < e1.len() implies e1[i] == e2[i] by {
            assert(spec_field(s1)[4 + i] == e1[i]);
            assert(spec_field(s2)[4 + i] == e2[i]);
        }
    }
    encode_utf8_decode_utf8(s1);
    encode_utf8_decode_utf8(s2);
}

/// A well-formed field's wire form starts with its UTF-8 byte count; two
/// such fields of equal wire prefix have the same byte count.
proof fn lemma_field_len_determined(s1: Seq<char>, s2: Seq<char>)
    requires
        field_wf(s1),
        field_wf(s2),
        spec_field(s1).take(4) == spec_field(s2).take(4),
    ensures
        encode_utf8(s1).len() == encode_utf8(s2).len(),
{
    let l1 = encode_utf8(s1).len() as int;
    let l2 = encode_utf8(s2).len() as int;
    assert(spec_be32(l1) =~= spec_field(s1).take(4));
    assert(spec_be32(l2) =~= spec_field(s2).take(4));
    lemma_be32_of_val(l1);
    lemma_be32_of_val(l2);
}

/// A well-formed field at the head of a byte string determines itself and
/// the remainder.
proof fn lemma_field_head(a: Seq<char>, rest: Seq<u8>, a2: Seq<char>, rest2: Seq<u8>)
    requires
        field_wf(a),
        field_wf(a2),
        spec_field(a) + rest == spec_field(a2) + rest2,
    ensures
        a == a2,
        rest == rest2,
{
    let fa = spec_field(a);
    let fa2 = spec_field(a2);
    let t = fa + rest;
    assert(fa.take(4) =~= fa2.take(4)) by {
        assert forall|i: int| 0 <= i < 4 implies fa.take(4)[i] == fa2.take(4)[i] by {
            assert(fa[i] == t[i]);
            assert(fa2[i] == (fa2 + rest2)[i]);
        }
    }
    lemma_field_len_determined(a, a2);
    assert(fa =~= fa2) by {
        assert forall|i: int| 0 <= i < fa.len() implies fa[i] == fa2[i] by {
            assert(fa[i] == t[i]);
            assert(fa2[i] == (fa2 + rest2)[i]);
        }
    }
    lemma_field_injective(a, a2);
    assert(t.len() == fa.len() + rest.len());
    assert((fa2 + rest2).len() == fa2.len() + rest2.len());
    assert(rest.len() == rest2.len());
    assert(rest =~= rest2) by {
        assert forall|i: int| 0 <= i < rest.len() implies rest[i] == rest2[i] by {
            assert(rest[i] == t[fa.len() + i]);
            assert(rest2[i] == (fa2 + rest2)[fa2.len() + i]);
        }
    }
}

/// Reads one string field at offset `off`: the 4-byte count, then that many
/// bytes decoded as UTF-8.  On success returns the field and the offset just
/// past it.  The second clause is the round trip: wherever the wire form of
/// a field sits at `off`, exactly that field is returned.
fn parse_field(p: &[u8], off: usize) -> (r: Result<(String, usize), FramingError>)
    requires
        off <= p@.len(),
    ensures
        (match r {
            Ok(f) => off + 4 <= f.1 <= p@.len() && field_wf(f.0@) && p@.subrange(
                off as int,
                f.1 as int,
            ) == spec_field(f.0@),
            Err(e) => true,
        }),
        forall|s: Seq<char>|
            field_wf(s) && off + spec_field(s).len() <= p@.len() && p@.subrange(
                off as int,
                off + spec_field(s).len(),
            ) == #[trigger] spec_field(s) ==> (r matches Ok(f) && f.0@ == s && f.1 as int == off
                + spec_field(s).len()),
{
    if p.len() - off < 4 {
        proof {
            assert forall|s: Seq<char>|
                field_wf(s) && off + spec_field(s).len() <= p@.len() implies false by {
                assert(spec_field(s).len() == 4 + encode_utf8(s).len());
            }
        }
        return Err(FramingError);
    }
    let header = slice_subrange(p, off, off + 4);
    let n = be32_read(header);
    proof {
        assert(header@.take(4) =~= header@);
        assert(n as int == be32_val(p@.subrange(off as int, off + 4)));
        assert forall|s: Seq<char>|
            field_wf(s) && off + spec_field(s).len() <= p@.len() && p@.subrange(
                off as int,
                off + spec_field(s).len(),
            ) == #[trigger] spec_field(s) implies n as int == encode_utf8(s).len() && spec_field(
            s,
        ).len() == 4 + encode_utf8(s).len() by {
            let l = encode_utf8(s).len() as int;
            let flen = spec_field(s).len() as int;
            assert(p@.subrange(off as int, off + 4) =~= spec_be32(l)) by {
                assert forall|i: int| 0 <= i < 4 implies p@.subrange(off as int, off + 4)[i]
                    == spec_be32(l)[i] by {
                    assert(p@.subrange(off as int, off + flen)[i] == p@[off + i]);
                    assert(spec_field(s)[i] == spec_be32(l)[i]);
                }
            }
            lemma_be32_of_val(l);
        }
    }
    if n as usize > p.len() - (off + 4) {
        return Err(FramingError);
    }
    let end = off + 4 + n as usize;
    let body = slice_to_vec(slice_subrange(p, off + 4, end));
    proof {
        assert forall|s: Seq<char>|
            field_wf(s) && off + spec_field(s).len() <= p@.len() && p@.subrange(
                off as int,
                off + spec_field(s).len(),
            ) == #[trigger] spec_field(s) implies body@ == encode_utf8(s) by {
            let l = encode_utf8(s).len() as int;
            let flen = spec_field(s).len() as int;
            assert(body@ =~= encode_utf8(s)) by {
                assert forall|i: int| 0 <= i < l implies body@[i] == encode_utf8(s)[i] by {
                    assert(body@[i] == p@[off + 4 + i]);
                    assert(p@.subrange(off as int, off + flen)[4 + i] == p@[off + 4 + i]);
                    assert(spec_field(s)[4 + i] == encode_utf8(s)[i]);
                }
            }
        }
    }
    match bytes_to_string(body) {
        None => {
            proof {
                assert forall|s: Seq<char>|
                    field_wf(s) && off + spec_field(s).len() <= p@.len() && p@.subrange(
                        off as int,
                        off + spec_field(s).len(),
                    ) == #[trigger] spec_field(s) implies false by {
                    encode_utf8_valid_utf8(s);
                }
            }
            Err(FramingError)
        },
        Some(t) => {
            proof {
                decode_utf8_encode_utf8(body@);
                assert(encode_utf8(t@) == body@);
                assert(p@.subrange(off as int, end as int) =~= spec_field(t@)) by {
                    lemma_be32_of_bytes(p@.subrange(off as int, off + 4));
                    assert(spec_be32(n as int) =~= p@.subrange(off as int, off + 4));
                    assert forall|i: int| 0 <= i < 4 + n implies p@.subrange(
                        off as int,
                        end as int,
                    )[i] == spec_field(t@)[i] by {
                        if i < 4 {
                            assert(spec_field(t@)[i] == spec_be32(n as int)[i]);
                            assert(p@.subrange(off as int, off + 4)[i] == p@[off + i]);
                        } else {
                            assert(spec_field(t@)[i] == body@[i - 4]);
                            assert(body@[i - 4] == p@.subrange(off + 4, end as int)[i - 4]);
                        }
                    }
                }
                assert forall|s: Seq<char>|
                    field_wf(s) && off + spec_field(s).len() <= p@.len() && p@.subrange(
                        off as int,
                        off + spec_field(s).len(),
                    ) == #[trigger] spec_field(s) implies t@ == s && end as int == off
                    + spec_field(s).len() by {
                    encode_utf8_decode_utf8(s);
                }
            }
            Ok((t, end))
        },
    }
}

/// Parses one payload as a client-to-server message.  The second clause is
/// the round trip: the payload of any well-formed message parses back to
/// exactly that message, so an `Err` also means the payload encodes no
/// message at all.
pub fn parse_client_payload(p: &[u8]) -> (r: Result<ClientMessages, FramingError>)
    ensures
        (match r {
            Ok(m) => client_wf(m@) && p@ == spec_client_payload(m@),
            Err(e) => true,
        }),
        forall|m: ClientMsg|
            client_wf(m) && p@ == #[trigger] spec_client_payload(m) ==> (r matches Ok(got)
                && got@ == m),
{
    if p.len() == 0 {
        proof {
            assert forall|m: ClientMsg|
                client_wf(m) && p@ == #[trigger] spec_client_payload(m) implies false by {
                assert(spec_client_payload(m).len() >= 5);
            }
        }
        return Err(FramingError);
    }
    let tag = p[0];
    if tag == TAG_CONNECT {
        proof {
            assert forall|m: ClientMsg|
                client_wf(m) && p@ == #[trigger] spec_client_payload(m) implies (m matches
            ClientMsg::Connect { username } && p@.subrange(1, 1 + spec_field(username).len() as int)
                == spec_field(username) && p@.len() == 1 + spec_field(username).len()) by {
                match m {
                    ClientMsg::Message { id, content } => {
                        assert(p@[0] == TAG_MESSAGE);
                    },
                    ClientMsg::Connect { username } => {
                        assert(p@.subrange(1, 1 + spec_field(username).len() as int) =~= spec_field(
                            username,
                        ));
                    },
                }
            }
        }
        match parse_field(p, 1) {
            Err(e) => Err(e),
            Ok((username, end)) => {
                if end != p.len() {
                    return Err(FramingError);
                }
                let r = ClientMessages::Connect { username };
                proof {
                    assert(p@ =~= spec_client_payload(r@));
                    assert forall|m: ClientMsg|
                        client_wf(m) && p@ == #[trigger] spec_client_payload(m) implies m
                        == r@ by {
                        lemma_client_payload_injective(m, r@);
                    }
                }
                Ok(r)
            },
        }
    } else if tag == TAG_MESSAGE {
        proof {
            assert forall|m: ClientMsg|
                client_wf(m) && p@ == #[trigger] spec_client_payload(m) implies (m matches
            ClientMsg::Message { id, content } && p@.subrange(1, 1 + spec_field(id).len() as int)
                == spec_field(id) && p@.len() == 1 + spec_field(id).len() + spec_field(
                content,
            ).len()) by {
                match m {
                    ClientMsg::Connect { username } => {
                        assert(p@[0] == TAG_CONNECT);
                    },
                    ClientMsg::Message { id, content } => {
                        assert(p@.subrange(1, 1 + spec_field(id).len() as int) =~= spec_field(id));
                    },
                }
            }
        }
        match parse_field(p, 1) {
            Err(e) => Err(e),
            Ok((id, end1)) => {
                proof {
                    assert forall|m: ClientMsg|
                        client_wf(m) && p@ == #[trigger] spec_client_payload(m) implies (m matches
                    ClientMsg::Message { id: mid, content } && p@.subrange(
                        end1 as int,
                        end1 + spec_field(content).len(),
                    ) == spec_field(content) && end1 + spec_field(content).len() == p@.len()) by {
                        match m {
                            ClientMsg::Message { id: mid, content } => {
                                assert(end1 as int == 1 + spec_field(mid).len());
                                assert(p@.subrange(end1 as int, end1 + spec_field(content).len() as int)
                                    =~= spec_field(content));
                            },
                            ClientMsg::Connect { username } => {
                            },
                        }
                    }
                }
                match parse_field(p, end1) {
                    Err(e) => Err(e),
                    Ok((content, end2)) => {
                        if end2 != p.len() {
                            return Err(FramingError);
                        }
                        let r = ClientMessages::Message { id, content };
                        proof {
                            assert(p@ =~= spec_client_payload(r@)) by {
                                assert(p@.subrange(1, end1 as int) == spec_field(r@->Message_id));
                                assert(p@.subrange(end1 as int, end2 as int) == spec_field(
                                    r@->Message_content,
                                ));
                                assert forall|i: int| 0 <= i < p@.len() implies p@[i]
                                    == spec_client_payload(r@)[i] by {
                                    if 1 <= i < end1 as int {
                                        assert(p@.subrange(1, end1 as int)[i - 1] == p@[i]);
                                    } else if end1 as int <= i {
                                        assert(p@.subrange(end1 as int, end2 as int)[i
                                            - end1 as int] == p@[i]);
                                    }
                                }
                            }
                            assert forall|m: ClientMsg|
                                client_wf(m) && p@ == #[trigger] spec_client_payload(m) implies m
                                == r@ by {
                                lemma_client_payload_injective(m, r@);
                            }
                        }
                        Ok(r)
                    },
                }
            },
        }
    } else {
        proof {
            assert forall|m: ClientMsg|
                client_wf(m) && p@ == #[trigger] spec_client_payload(m) implies false by {
                match m {
                    ClientMsg::Connect { username } => {
                        assert(p@[0] == TAG_CONNECT);
                    },
                    ClientMsg::Message { id, content } => {
                        assert(p@[0] == TAG_MESSAGE);
                    },
                }
            }
        }
        Err(FramingError)
    }
}

/// Serialization is injective: two well-formed client messages with the same
/// payload are the same message.  Together with the parsers' contracts this
/// states the round trip: encoding then decoding yields the original.
pub proof fn lemma_client_payload_injective(m1: ClientMsg, m2: ClientMsg)
    requires
        client_wf(m1),
        client_wf(m2),
        spec_client_payload(m1) == spec_client_payload(m2),
    ensures
        m1 == m2,
{
    let p1 = spec_client_payload(m1);
    let p2 = spec_client_payload(m2);
    assert(p1.skip(1) =~= p2.skip(1));
    match (m1, m2) {
        (ClientMsg::Connect { username: u1 }, ClientMsg::Connect { username: u2 }) => {
            assert(p1.skip(1) =~= spec_field(u1));
            assert(p2.skip(1) =~= spec_field(u2));
            lemma_field_injective(u1, u2);
        },
        (
            ClientMsg::Message { id: id1, content: c1 },
            ClientMsg::Message { id: id2, content: c2 },
        ) => {
            assert(p1.skip(1) =~= spec_field(id1) + spec_field(c1));
            assert(p2.skip(1) =~= spec_field(id2) + spec_field(c2));
            lemma_field_head(id1, spec_field(c1), id2, spec_field(c2));
            lemma_field_injective(c1, c2);
        },
        _ => {
            assert(p1[0] == p2[0]);
            assert(false);
        },
    }
}

/// Parses one payload as a server-to-client message.  The second clause is
/// the round trip: the payload of any well-formed message parses back to
/// exactly that message, so an `Err` also means the payload encodes no
/// message at all.
#[verifier::rlimit(60)]
pub fn parse_server_payload(p: &[u8]) -> (r: Result<ServerMessages, FramingError>)
    ensures
        (match r {
            Ok(m) => server_wf(m@) && p@ == spec_server_payload(m@),
            Err(e) => true,
        }),
        forall|m: ServerMsg|
            server_wf(m) && p@ == #[trigger] spec_server_payload(m) ==> (r matches Ok(got)
                && got@ == m),
{
    if p.len() == 0 {
        proof {
            assert forall|m: ServerMsg|
                server_wf(m) && p@ == #[trigger] spec_server_payload(m) implies false by {
                assert(spec_server_payload(m).len() >= 5);
            }
        }
        return Err(FramingError);
    }
    let tag = p[0];
    if tag == TAG_CONNECTED {
        proof {
            assert forall|m: ServerMsg|
                server_wf(m) && p@ == #[trigger] spec_server_payload(m) implies (m matches
            ServerMsg::Connected { id } && p@.subrange(1, 1 + spec_field(id).len() as int)
                == spec_field(id) && p@.len() == 1 + spec_field(id).len()) by {
                match m {
                    ServerMsg::Connected { id } => {
                        assert(p@.subrange(1, 1 + spec_field(id).len() as int) =~= spec_field(id));
                    },
                    ServerMsg::ServerError { message } => {
                        assert(p@[0] == TAG_SERVER_ERROR);
                    },
                    ServerMsg::Broadcast { sender_id, sender_username, content } => {
                        assert(p@[0] == TAG_BROADCAST);
                    },
                }
            }
        }
        match parse_field(p, 1) {
            Err(e) => Err(e),
            Ok((id, end)) => {
                if end != p.len() {
                    return Err(FramingError);
                }
                let r = ServerMessages::Connected { id };
                proof {
                    assert(p@ =~= spec_server_payload(r@));
                    assert forall|m: ServerMsg|
                        server_wf(m) && p@ == #[trigger] spec_server_payload(m) implies m
                        == r@ by {
                        lemma_server_payload_injective(m, r@);
                    }
                }
                Ok(r)
            },
        }
    } else if tag == TAG_SERVER_ERROR {
        proof {
            assert forall|m: ServerMsg|
                server_wf(m) && p@ == #[trigger] spec_server_payload(m) implies (m matches
            ServerMsg::ServerError { message } && p@.subrange(
                1,
                1 + spec_field(message).len() as int,
            ) == spec_field(message) && p@.len() == 1 + spec_field(message).len()) by {
                match m {
                    ServerMsg::Connected { id } => {
                        assert(p@[0] == TAG_CONNECTED);
                    },
                    ServerMsg::ServerError { message } => {
                        assert(p@.subrange(1, 1 + spec_field(message).len() as int) =~= spec_field(
                            message,
                        ));
                    },
                    ServerMsg::Broadcast { sender_id, sender_username, content } => {
                        assert(p@[0] == TAG_BROADCAST);
                    },
                }
            }
        }
        match parse_field(p, 1) {
            Err(e) => Err(e),
            Ok((message, end)) => {
                if end != p.len() {
                    return Err(FramingError);
                }
                let r = ServerMessages::ServerError { message };
                proof {
                    assert(p@ =~= spec_server_payload(r@));
                    assert forall|m: ServerMsg|
                        server_wf(m) && p@ == #[trigger] spec_server_payload(m) implies m
                        == r@ by {
                        lemma_server_payload_injective(m, r@);
                    }
                }
                Ok(r)
            },
        }
    } else if tag == TAG_BROADCAST {
        proof {
            assert forall|m: ServerMsg|
                server_wf(m) && p@ == #[trigger] spec_server_payload(m) implies (m matches
            ServerMsg::Broadcast { sender_id, sender_username, content } && p@.subrange(
                1,
                1 + spec_field(sender_id).len() as int,
            ) == spec_field(sender_id) && p@.len() == 1 + spec_field(sender_id).len() + spec_field(
                sender_username,
            ).len() + spec_field(content).len()) by {
                match m {
                    ServerMsg::Connected { id } => {
                        assert(p@[0] == TAG_CONNECTED);
                    },
                    ServerMsg::ServerError { message } => {
                        assert(p@[0] == TAG_SERVER_ERROR);
                    },
                    ServerMsg::Broadcast { sender_id, sender_username, content } => {
                        assert(p@.subrange(1, 1 + spec_field(sender_id).len() as int)
                            =~= spec_field(sender_id));
                    },
                }
            }
        }
        match parse_field(p, 1) {
            Err(e) => Err(e),
            Ok((sender_id, end1)) => {
                proof {
                    assert forall|m: ServerMsg|
                        server_wf(m) && p@ == #[trigger] spec_server_payload(m) implies (m matches
                    ServerMsg::Broadcast { sender_id: ms, sender_username, content }
                        && p@.subrange(
                        end1 as int,
                        end1 + spec_field(sender_username).len() as int,
                    ) == spec_field(sender_username)) by {
                        match m {
                            ServerMsg::Broadcast { sender_id: ms, sender_username, content } => {
                                assert(end1 as int == 1 + spec_field(ms).len());
                                assert(p@.subrange(
                                    end1 as int,
                                    end1 + spec_field(sender_username).len() as int,
                                ) =~= spec_field(sender_username));
                            },
                            _ => {},
                        }
                    }
                }
                match parse_field(p, end1) {
                    Err(e) => Err(e),
                    Ok((sender_username, end2)) => {
                        proof {
                            assert forall|m: ServerMsg|
                                server_wf(m) && p@ == #[trigger] spec_server_payload(
                                m,
                            ) implies (m matches ServerMsg::Broadcast {
                                sender_id: ms,
                                sender_username: mu,
                                content,
                            } && p@.subrange(
                                end2 as int,
                                end2 + spec_field(content).len() as int,
                            ) == spec_field(content) && end2 + spec_field(content).len()
                                == p@.len()) by {
                                match m {
                                    ServerMsg::Broadcast {
                                        sender_id: ms,
                                        sender_username: mu,
                                        content,
                                    } => {
                                        assert(end1 as int == 1 + spec_field(ms).len());
                                        assert(end2 as int == end1 + spec_field(mu).len());
                                        assert(p@.subrange(
                                            end2 as int,
                                            end2 + spec_field(content).len() as int,
                                        ) =~= spec_field(content));
                                    },
                                    _ => {},
                                }
                            }
                        }
                        match parse_field(p, end2) {
                            Err(e) => Err(e),
                            Ok((content, end3)) => {
                                if end3 != p.len() {
                                    return Err(FramingError);
                                }
                                let r = ServerMessages::Broadcast {
                                    sender_id,
                                    sender_username,
                                    content,
                                };
                                proof {
                                    assert(p@ =~= spec_server_payload(r@)) by {
                                        assert(p@.subrange(1, end1 as int) == spec_field(
                                            r@->Broadcast_sender_id,
                                        ));
                                        assert(p@.subrange(end1 as int, end2 as int)
                                            == spec_field(r@->Broadcast_sender_username));
                                        assert(p@.subrange(end2 as int, end3 as int)
                                            == spec_field(r@->Broadcast_content));
                                        assert forall|i: int| 0 <= i < p@.len() implies p@[i]
                                            == spec_server_payload(r@)[i] by {
                                            if 1 <= i < end1 as int {
                                                assert(p@.subrange(1, end1 as int)[i - 1]
                                                    == p@[i]);
                                            } else if end1 as int <= i < end2 as int {
                                                assert(p@.subrange(end1 as int, end2 as int)[i
                                                    - end1 as int] == p@[i]);
                                            } else if end2 as int <= i {
                                                assert(p@.subrange(end2 as int, end3 as int)[i
                                                    - end2 as int] == p@[i]);
                                            }
                                        }
                                    }
                                    assert forall|m: ServerMsg|
                                        server_wf(m) && p@ == #[trigger] spec_server_payload(
                                        m,
                                    ) implies m == r@ by {
                                        lemma_server_payload_injective(m, r@);
                                    }
                                }
                                Ok(r)
                            },
                        }
                    },
                }
            },
        }
    } else {
        proof {
            assert forall|m: ServerMsg|
                server_wf(m) && p@ == #[trigger] spec_server_payload(m) implies false by {
                match m {
                    ServerMsg::Connected { id } => {
                        assert(p@[0] == TAG_CONNECTED);
                    },
                    ServerMsg::ServerError { message } => {
                        assert(p@[0] == TAG_SERVER_ERROR);
                    },
                    ServerMsg::Broadcast { sender_id, sender_username, content } => {
                        assert(p@[0] == TAG_BROADCAST);
                    },
                }
            }
        }
        Err(FramingError)
    }
}

/// Serialization is injective: two well-formed server messages with the same
/// payload are the same message.  Together with the parsers' contracts this
/// states the round trip: encoding then decoding yields the original.
#[verifier::rlimit(100)]
#[verifier::spinoff_prover]
pub proof fn lemma_server_payload_injective(m1: ServerMsg, m2: ServerMsg)
    requires
        server_wf(m1),
        server_wf(m2),
        spec_server_payload(m1) == spec_server_payload(m2),
    ensures
        m1 == m2,
{
    let p1 = spec_server_payload(m1);
    let p2 = spec_server_payload(m2);
    assert(p1.skip(1) =~= p2.skip(1));
    match (m1, m2) {
        (ServerMsg::Connected { id: id1 }, ServerMsg::Connected { id: id2 }) => {
            assert(p1.skip(1) =~= spec_field(id1));
            assert(p2.skip(1) =~= spec_field(id2));
            lemma_field_injective(id1, id2);
        },
        (ServerMsg::ServerError { message: e1 }, ServerMsg::ServerError { message: e2 }) => {
            assert(p1.skip(1) =~= spec_field(e1));
            assert(p2.skip(1) =~= spec_field(e2));
            lemma_field_injective(e1, e2);
        },
        (
            ServerMsg::Broadcast { sender_id: s1, sender_username: u1, content: c1 },
            ServerMsg::Broadcast { sender_id: s2, sender_username: u2, content: c2 },
        ) => {
            assert(p1.skip(1) =~= spec_field(s1) + (spec_field(u1) + spec_field(c1)));
            assert(p2.skip(1) =~= spec_field(s2) + (spec_field(u2) + spec_field(c2)));
            lemma_field_head(
                s1,
                spec_field(u1) + spec_field(c1),
                s2,
                spec_field(u2) + spec_field(c2),
            );
            lemma_field_head(u1, spec_field(c1), u2, spec_field(c2));
            lemma_field_injective(c1, c2);
        },
        _ => {
            assert(p1[0] == p2[0]);
            assert(false);
        },
    }
}

} // verus!
