//! Connection packets in the netcode layout: a prefix byte with the packet
//! type in its low four bits and the number of sequence bytes in its high
//! four, the sequence (little-endian), and the sealed per-type data.
//!
//! ```txt
//! 0 denied      (empty)
//! 1 ... types:  0 request, 1 denied, 2 challenge, 3 response,
//!               4 keep-alive, 5 payload, 6 disconnect
//! ```

use vstd::prelude::*;
use crate::bytes::{
    lemma_le_read_bytes, lemma_le32,
    IoError, le_bytes, le_read, le32, le32_bytes, seq_len, seq_len_of, lemma_seq_len, read_uint_le, read_u32_le,
    push_uint_le, push_u32_le, push_all, array_at, copy_prefix, lemma_le_read_prefix,
};
use crate::crypto::{chacha_seal, seal_chacha20poly1305, open_chacha20poly1305, nonce_of, nonce_from_sequence, KEY, HMAC};
use crate::encrypted::{ad_of, associated_data, copy_range};
use crate::protection::Protection;

verus! {

pub const REQUEST: u8 = 0;
pub const DENIED: u8 = 1;
pub const CHALLENGE: u8 = 2;
pub const RESPONSE: u8 = 3;
pub const KEEP_ALIVE: u8 = 4;
pub const PAYLOAD: u8 = 5;
pub const DISCONNECT: u8 = 6;
/// The number of packet types.
pub const PACKET_NUMS: u8 = 7;

/// Length of the version info.
pub const VERSION_INFO_BYTES: usize = 13;
/// The version info: "NETCODE 1.02" and a zero byte.
pub const VERSION_INFO: [u8; VERSION_INFO_BYTES] = [78, 69, 84, 67, 79, 68, 69, 32, 49, 46, 48, 50, 0];

pub const MAX_PACKET_BYTES: usize = 1200;
pub const MAX_PAYLOAD_BYTES: usize = 1100;
pub const MAC_BYTES: usize = 16;
pub const CHALLENGE_TOKEN_BYTES: usize = 300;
pub const PRIVATE_BYTES: usize = 1024;
pub const CHALLENGE_INNER_SIZE: usize = 308;
pub const RESPONSE_INNER_SIZE: usize = 308;
pub const KEEP_ALIVE_INNER_SIZE: usize = 8;
/// Length of a request packet.
pub const REQUEST_BYTES: usize = 1062;

/// A connection packet.
pub enum Packet {
    Request {
        sequence: u64,
        version_info: [u8; VERSION_INFO_BYTES],
        protocol_id: u64,
        expire_timestamp: u64,
        private_data: [u8; PRIVATE_BYTES],
    },
    Denied { sequence: u64 },
    Challenge { sequence: u64, token_sequence: u64, token_data: [u8; CHALLENGE_TOKEN_BYTES] },
    Response { sequence: u64, token_sequence: u64, token_data: [u8; CHALLENGE_TOKEN_BYTES] },
    KeepAlive { sequence: u64, client_index: u32, max_clients: u32 },
    Payload { sequence: u64, len: usize, data: [u8; MAX_PAYLOAD_BYTES] },
    Disconnect { sequence: u64 },
}

/// The type code of a packet.
pub open spec fn type_of(p: Packet) -> u8 {
    match p {
        Packet::Request { .. } => REQUEST,
        Packet::Denied { .. } => DENIED,
        Packet::Challenge { .. } => CHALLENGE,
        Packet::Response { .. } => RESPONSE,
        Packet::KeepAlive { .. } => KEEP_ALIVE,
        Packet::Payload { .. } => PAYLOAD,
        Packet::Disconnect { .. } => DISCONNECT,
    }
}

/// The sequence of a packet.
pub open spec fn sequence_of(p: Packet) -> u64 {
    match p {
        Packet::Request { sequence, .. } => sequence,
        Packet::Denied { sequence } => sequence,
        Packet::Challenge { sequence, .. } => sequence,
        Packet::Response { sequence, .. } => sequence,
        Packet::KeepAlive { sequence, .. } => sequence,
        Packet::Payload { sequence, .. } => sequence,
        Packet::Disconnect { sequence } => sequence,
    }
}

/// The per-type data of an encrypted packet, before sealing.
pub open spec fn body_of(p: Packet) -> Seq<u8> {
    match p {
        Packet::Challenge { token_sequence, token_data, .. } => le_bytes(token_sequence, 8) + token_data@,
        Packet::Response { token_sequence, token_data, .. } => le_bytes(token_sequence, 8) + token_data@,
        Packet::KeepAlive { client_index, max_clients, .. } => le32_bytes(client_index) + le32_bytes(max_clients),
        Packet::Payload { len, data, .. } => data@.subrange(0, len as int),
        _ => seq![],
    }
}

/// The prefix byte of an encrypted packet.
pub open spec fn prefix_of(p: Packet) -> u8 {
    (type_of(p) | ((seq_len(sequence_of(p)) as u8) << 4u8)) as u8
}

/// The bytes that `write` produces.
pub open spec fn packet_bytes(p: Packet, key: Seq<u8>, protocol_id: u64) -> Seq<u8> {
    match p {
        Packet::Request { sequence, protocol_id: pid, expire_timestamp, private_data, .. } => seq![REQUEST]
            + VERSION_INFO@ + le_bytes(pid, 8) + le_bytes(expire_timestamp, 8) + le_bytes(sequence, 8)
            + private_data@,
        _ => seq![prefix_of(p)] + le_bytes(sequence_of(p), seq_len(sequence_of(p))) + chacha_seal(
            key,
            nonce_of(sequence_of(p)),
            ad_of(protocol_id, prefix_of(p)),
            body_of(p),
        ),
    }
}

/// The number of sequence bytes that a prefix byte announces.
pub open spec fn prefix_seq_bytes(prefix: u8) -> int {
    (prefix >> 4u8) as int
}

/// The checks on a received packet before its data is opened.
pub open spec fn header_ok(b: Seq<u8>) -> bool {
    &&& b.len() >= 1 + 1 + MAC_BYTES
    &&& (b[0] & 0xFu8) < PACKET_NUMS
    &&& 1 <= prefix_seq_bytes(b[0]) <= 8
    &&& b.len() - 1 >= prefix_seq_bytes(b[0]) + MAC_BYTES
}

/// The sequence of a received packet.
pub open spec fn packet_seq(b: Seq<u8>) -> u64 {
    le_read(b.subrange(1, 1 + prefix_seq_bytes(b[0])), prefix_seq_bytes(b[0]) as nat)
}

/// The sealed data of a received packet.
pub open spec fn packet_body(b: Seq<u8>) -> Seq<u8> {
    b.subrange(1 + prefix_seq_bytes(b[0]), b.len() as int)
}

/// `p` is what the opened data `m` of a packet of type `t` with sequence
/// `seq` reads as.
pub open spec fn decoded(p: Packet, t: u8, seq: u64, m: Seq<u8>) -> bool {
    match p {
        Packet::Denied { sequence } => t == DENIED && m.len() == 0 && sequence == seq,
        Packet::Challenge { sequence, token_sequence, token_data } => t == CHALLENGE && m.len() == CHALLENGE_INNER_SIZE
            && sequence == seq && token_sequence == le_read(m, 8) && token_data@ == m.subrange(8, 308),
        Packet::Response { sequence, token_sequence, token_data } => t == RESPONSE && m.len() == RESPONSE_INNER_SIZE
            && sequence == seq && token_sequence == le_read(m, 8) && token_data@ == m.subrange(8, 308),
        Packet::KeepAlive { sequence, client_index, max_clients } => t == KEEP_ALIVE && m.len() == KEEP_ALIVE_INNER_SIZE
            && sequence == seq && client_index == le32(m[0], m[1], m[2], m[3]) && max_clients == le32(m[4], m[5], m[6], m[7]),
        Packet::Payload { sequence, len, data } => t == PAYLOAD && 1 <= m.len() <= MAX_PAYLOAD_BYTES && sequence == seq
            && len == m.len() && data@.subrange(0, len as int) == m,
        Packet::Disconnect { sequence } => t == DISCONNECT && m.len() == 0 && sequence == seq,
        Packet::Request { .. } => false,
    }
}

/// Opened data of type `t` has the size that the type calls for.
pub open spec fn body_valid(t: u8, m: Seq<u8>) -> bool {
    ||| t == DENIED && m.len() == 0
    ||| t == CHALLENGE && m.len() == CHALLENGE_INNER_SIZE
    ||| t == RESPONSE && m.len() == RESPONSE_INNER_SIZE
    ||| t == KEEP_ALIVE && m.len() == KEEP_ALIVE_INNER_SIZE
    ||| t == PAYLOAD && 1 <= m.len() <= MAX_PAYLOAD_BYTES
    ||| t == DISCONNECT && m.len() == 0
}

impl Packet {
    /// Sets the sequence of an encrypted packet; a request keeps its own.
    pub fn set_sequence(&mut self, seq: u64)
        ensures
            type_of(*final(self)) == type_of(*old(self)),
            body_of(*final(self)) == body_of(*old(self)),
            *old(self) is Request ==> *final(self) == *old(self),
            !(*old(self) is Request) ==> sequence_of(*final(self)) == seq,
    {
        match self {
            Packet::Denied { sequence } => *sequence = seq,
            Packet::Challenge { sequence, .. } => *sequence = seq,
            Packet::Response { sequence, .. } => *sequence = seq,
            Packet::KeepAlive { sequence, .. } => *sequence = seq,
            Packet::Payload { sequence, .. } => *sequence = seq,
            Packet::Disconnect { sequence } => *sequence = seq,
            Packet::Request { .. } => {},
        }
    }

    /// The type code of the packet.
    pub fn packet_type(&self) -> (r: u8)
        ensures
            r == type_of(*self),
    {
        match self {
            Packet::Request { .. } => REQUEST,
            Packet::Denied { .. } => DENIED,
            Packet::Challenge { .. } => CHALLENGE,
            Packet::Response { .. } => RESPONSE,
            Packet::KeepAlive { .. } => KEEP_ALIVE,
            Packet::Payload { .. } => PAYLOAD,
            Packet::Disconnect { .. } => DISCONNECT,
        }
    }

    fn sequence(&self) -> (r: u64)
        ensures
            r == sequence_of(*self),
    {
        match self {
            Packet::Request { sequence, .. } => *sequence,
            Packet::Denied { sequence } => *sequence,
            Packet::Challenge { sequence, .. } => *sequence,
            Packet::Response { sequence, .. } => *sequence,
            Packet::KeepAlive { sequence, .. } => *sequence,
            Packet::Payload { sequence, .. } => *sequence,
            Packet::Disconnect { sequence } => *sequence,
        }
    }

    fn body(&self) -> (r: Vec<u8>)
        requires
            (*self matches Packet::Payload { len, .. } ==> len <= MAX_PAYLOAD_BYTES),
        ensures
            r@ == body_of(*self),
    {
        let mut out: Vec<u8> = Vec::new();
        match self {
            Packet::Challenge { token_sequence, token_data, .. } => {
                push_uint_le(&mut out, *token_sequence, 8);
                push_all(&mut out, token_data);
            },
            Packet::Response { token_sequence, token_data, .. } => {
                push_uint_le(&mut out, *token_sequence, 8);
                push_all(&mut out, token_data);
            },
            Packet::KeepAlive { client_index, max_clients, .. } => {
                push_u32_le(&mut out, *client_index);
                push_u32_le(&mut out, *max_clients);
            },
            Packet::Payload { len, data, .. } => {
                let d = copy_range(data, 0, *len);
                push_all(&mut out, d.as_slice());
            },
            _ => {},
        }
        assert(out@ =~= body_of(*self));
        out
    }

    /// Writes the packet to the start of `buffer`: a request as it is, any
    /// other packet with its prefix and sequence and its data sealed under
    /// `key`; fails, leaving `buffer`, when it does not fit.
    pub fn write(self, buffer: &mut [u8], key: &[u8; KEY], protocol_id: u64) -> (r: Result<usize, IoError>)
        requires
            (self matches Packet::Payload { len, .. } ==> len <= MAX_PAYLOAD_BYTES),
        ensures
            ({
                let out = packet_bytes(self, key@, protocol_id);
                &&& out.len() <= old(buffer)@.len() ==> r == Ok::<usize, IoError>(out.len() as usize) && final(buffer)@
                    == out + old(buffer)@.subrange(out.len() as int, old(buffer)@.len() as int)
                &&& out.len() > old(buffer)@.len() ==> r == Err::<usize, IoError>(IoError::WriteZero) && final(buffer)@
                    == old(buffer)@
            }),
            !(self is Request) ==> chacha_seal(key@, nonce_of(sequence_of(self)), ad_of(protocol_id, prefix_of(self)), body_of(
                self,
            )).len() == body_of(self).len() + MAC_BYTES,
    {
        let mut out: Vec<u8> = Vec::new();
        match &self {
            Packet::Request { sequence, protocol_id: pid, expire_timestamp, private_data, .. } => {
                out.push(REQUEST);
                let v = VERSION_INFO;
                push_all(&mut out, &v);
                push_uint_le(&mut out, *pid, 8);
                push_uint_le(&mut out, *expire_timestamp, 8);
                push_uint_le(&mut out, *sequence, 8);
                push_all(&mut out, private_data);
                assert(out@ =~= packet_bytes(self, key@, protocol_id));
            },
            _ => {
                let sequence = self.sequence();
                let t = self.packet_type();
                let sequence_bytes = seq_len_of(sequence);
                proof { lemma_seq_len(sequence); }
                let prefix: u8 = t | (sequence_bytes << 4);
                out.push(prefix);
                push_uint_le(&mut out, sequence, sequence_bytes as usize);
                let mut body = self.body();
                let add = associated_data(protocol_id, prefix);
                let nonce = nonce_from_sequence(sequence);
                let tag = seal_chacha20poly1305(key, &nonce, add.as_slice(), body.as_mut_slice());
                push_all(&mut out, body.as_slice());
                push_all(&mut out, &tag);
                assert(out@ =~= packet_bytes(self, key@, protocol_id));
            },
        }
        if out.len() > buffer.len() {
            return Err(IoError::WriteZero);
        }
        let n = copy_prefix(buffer, out.as_slice());
        Ok(n)
    }
}

/// Reads an encrypted packet: checks the prefix, reads the sequence, asks
/// `protection` about replays of keep-alive, payload and disconnect
/// packets, opens the data under `key` and reads it when its size fits the
/// type.
pub fn read_encrypted_packet<T: Protection>(buffer: &[u8], protection: &mut T, key: &[u8; KEY], protocol: u64) -> (r: Option<Packet>)
    requires
        buffer@.len() > 0 && 1 <= prefix_seq_bytes(buffer@[0]) <= 8 ==> buffer@.len() - 1 - prefix_seq_bytes(buffer@[0])
            <= MAX_PACKET_BYTES,
    ensures
        !header_ok(buffer@) ==> r is None,
        r is Some ==> header_ok(buffer@) && forall|m: Seq<u8>|
            #[trigger] chacha_seal(key@, nonce_of(packet_seq(buffer@)), ad_of(protocol, buffer@[0]), m) == packet_body(buffer@)
                ==> decoded(r.unwrap(), buffer@[0] & 0xFu8, packet_seq(buffer@), m),
        r is Some && (buffer@[0] & 0xFu8) >= KEEP_ALIVE ==> !old(protection).replayed(packet_seq(buffer@)),
        header_ok(buffer@) && (buffer@[0] & 0xFu8) >= KEEP_ALIVE ==> old(protection).records(
            packet_seq(buffer@),
            *final(protection),
        ),
        !(header_ok(buffer@) && (buffer@[0] & 0xFu8) >= KEEP_ALIVE) ==> *final(protection) == *old(protection),
        header_ok(buffer@) && ((buffer@[0] & 0xFu8) < KEEP_ALIVE || !old(protection).replayed(packet_seq(buffer@)))
            && (exists|m: Seq<u8>|
            #[trigger] chacha_seal(key@, nonce_of(packet_seq(buffer@)), ad_of(protocol, buffer@[0]), m) == packet_body(buffer@)
                && body_valid(buffer@[0] & 0xFu8, m)) ==> r is Some,
{
    if buffer.len() == 0 {
        return None;
    }
    let prefix_byte = buffer[0];
    let packet_type = prefix_byte & 0xF;
    let sequence_bytes = prefix_byte >> 4;
    if buffer.len() < 1 + 1 + MAC_BYTES {
        return None;
    }
    let rest = buffer.len() - 1;
    if packet_type >= PACKET_NUMS {
        return None;
    }
    if sequence_bytes < 1 || sequence_bytes > 8 {
        return None;
    }
    if rest < sequence_bytes as usize + MAC_BYTES {
        return None;
    }
    let sb = sequence_bytes as usize;
    let sequence = read_uint_le(buffer, 1, sb);
    if packet_type >= KEEP_ALIVE {
        if protection.packet_already_received(sequence) {
            return None;
        }
    }
    let body = copy_range(buffer, 1 + sb, buffer.len());
    decrypt_body(body.as_slice(), key, sequence, packet_type, prefix_byte, protocol)
}

fn decrypt_body(buffer: &[u8], key: &[u8; KEY], sequence: u64, t: u8, prefix: u8, protocol: u64) -> (r: Option<Packet>)
    requires
        buffer@.len() <= MAX_PACKET_BYTES,
    ensures
        r is Some <==> buffer@.len() >= MAC_BYTES && exists|m: Seq<u8>|
            #[trigger] chacha_seal(key@, nonce_of(sequence), ad_of(protocol, prefix), m) == buffer@ && body_valid(t, m),
        r is Some ==> forall|m: Seq<u8>|
            #[trigger] chacha_seal(key@, nonce_of(sequence), ad_of(protocol, prefix), m) == buffer@ ==> decoded(r.unwrap(), t, sequence, m),
{
    let len = buffer.len();
    if len < MAC_BYTES {
        return None;
    }
    let n = len - MAC_BYTES;
    let mut m = copy_range(buffer, 0, n);
    let tag: [u8; HMAC] = array_at(buffer, n);
    let add = associated_data(protocol, prefix);
    let nonce = nonce_from_sequence(sequence);
    assert(m@ + tag@ =~= buffer@);
    let ok = open_chacha20poly1305(key, &nonce, add.as_slice(), m.as_mut_slice(), &tag);
    if !ok {
        return None;
    }
    let ghost plain = m@;
    let d = m.as_slice();
    let r = if t == DENIED && n == 0 {
        Some(Packet::Denied { sequence })
    } else if t == CHALLENGE && n == CHALLENGE_INNER_SIZE {
        let ts = read_uint_le(d, 0, 8);
        let td: [u8; CHALLENGE_TOKEN_BYTES] = array_at(d, 8);
        proof { assert(d@.subrange(0, 8).subrange(0, 8) =~= d@.subrange(0, 8)); lemma_le_read_prefix(d@.subrange(0, 8), d@, 8); }
        Some(Packet::Challenge { sequence, token_sequence: ts, token_data: td })
    } else if t == RESPONSE && n == RESPONSE_INNER_SIZE {
        let ts = read_uint_le(d, 0, 8);
        let td: [u8; CHALLENGE_TOKEN_BYTES] = array_at(d, 8);
        proof { assert(d@.subrange(0, 8).subrange(0, 8) =~= d@.subrange(0, 8)); lemma_le_read_prefix(d@.subrange(0, 8), d@, 8); }
        Some(Packet::Response { sequence, token_sequence: ts, token_data: td })
    } else if t == KEEP_ALIVE && n == KEEP_ALIVE_INNER_SIZE {
        let ci = read_u32_le(d, 0);
        let mc = read_u32_le(d, 4);
        Some(Packet::KeepAlive { sequence, client_index: ci, max_clients: mc })
    } else if t == PAYLOAD && n >= 1 && n <= MAX_PAYLOAD_BYTES {
        let mut data = [0u8; MAX_PAYLOAD_BYTES];
        let _ = copy_prefix(&mut data, d);
        assert(data@.subrange(0, n as int) =~= plain);
        Some(Packet::Payload { sequence, len: n, data })
    } else if t == DISCONNECT && n == 0 {
        Some(Packet::Disconnect { sequence })
    } else {
        None
    };
    proof {
        assert forall|x: Seq<u8>| #[trigger] chacha_seal(key@, nonce_of(sequence), ad_of(protocol, prefix), x) == buffer@
            implies x == plain by {}
        if r is None {
            assert forall|x: Seq<u8>| #[trigger] chacha_seal(key@, nonce_of(sequence), ad_of(protocol, prefix), x) == buffer@
                implies !body_valid(t, x) by {
                assert(x == plain);
            }
        }
    }
    r
}

/// Two packets carry the same sequence and content (a payload only up to
/// its length).
pub open spec fn same_packet(q: Packet, p: Packet) -> bool {
    match (q, p) {
        (Packet::Denied { sequence: a }, Packet::Denied { sequence: b }) => a == b,
        (Packet::Disconnect { sequence: a }, Packet::Disconnect { sequence: b }) => a == b,
        (
            Packet::Challenge { sequence: a, token_sequence: b, token_data: c },
            Packet::Challenge { sequence: d, token_sequence: e, token_data: f },
        ) => a == d && b == e && c@ == f@,
        (
            Packet::Response { sequence: a, token_sequence: b, token_data: c },
            Packet::Response { sequence: d, token_sequence: e, token_data: f },
        ) => a == d && b == e && c@ == f@,
        (
            Packet::KeepAlive { sequence: a, client_index: b, max_clients: c },
            Packet::KeepAlive { sequence: d, client_index: e, max_clients: f },
        ) => a == d && b == e && c == f,
        (Packet::Payload { sequence: a, len: b, data: c }, Packet::Payload { sequence: d, len: e, data: f }) => a == d
            && b == e && c@.subrange(0, b as int) == f@.subrange(0, e as int),
        _ => false,
    }
}

/// An encrypted packet that `write` produces passes the reader's checks,
/// carries its sequence, and its data opens to exactly the packet's
/// content: reading it back gives the same packet.
pub proof fn law_netcode_roundtrip(p: Packet, key: Seq<u8>, protocol: u64)
    requires
        !(p is Request),
        (p matches Packet::Payload { len, .. } ==> 1 <= len <= MAX_PAYLOAD_BYTES),
        chacha_seal(key, nonce_of(sequence_of(p)), ad_of(protocol, prefix_of(p)), body_of(p)).len() == body_of(p).len()
            + MAC_BYTES,
    ensures
        ({
            let b = packet_bytes(p, key, protocol);
            let seq = sequence_of(p);
            &&& header_ok(b)
            &&& b[0] & 0xFu8 == type_of(p)
            &&& packet_seq(b) == seq
            &&& packet_body(b) == chacha_seal(key, nonce_of(seq), ad_of(protocol, b[0]), body_of(p))
            &&& body_valid(type_of(p), body_of(p))
            &&& forall|q: Packet| decoded(q, type_of(p), seq, body_of(p)) ==> #[trigger] same_packet(q, p)
        }),
{
    let seq = sequence_of(p);
    let b = packet_bytes(p, key, protocol);
    let sb = seq_len(seq);
    lemma_seq_len(seq);
    let t = type_of(p);
    let s8 = sb as u8;
    assert((t | (s8 << 4u8)) & 0xFu8 == t && (t | (s8 << 4u8)) >> 4u8 == s8) by (bit_vector)
        requires t <= 6, 1 <= s8 <= 8;
    assert(b[0] == prefix_of(p));
    assert(b.subrange(1, 1 + sb as int) =~= le_bytes(seq, sb));
    lemma_le_read_bytes(seq, sb);
    assert(packet_body(b) =~= chacha_seal(key, nonce_of(seq), ad_of(protocol, b[0]), body_of(p)));
    assert forall|q: Packet| decoded(q, t, seq, body_of(p)) implies #[trigger] same_packet(q, p) by {
        match p {
            Packet::Challenge { token_sequence, token_data, .. } => {
                let m = body_of(p);
                assert(m.subrange(0, 8) =~= le_bytes(token_sequence, 8));
                assert(le_bytes(token_sequence, 8).subrange(0, 8) =~= le_bytes(token_sequence, 8));
                lemma_le_read_prefix(m, le_bytes(token_sequence, 8), 8);
                lemma_le_read_bytes(token_sequence, 8);
                assert(m.subrange(8, 308) =~= token_data@);
            },
            Packet::Response { token_sequence, token_data, .. } => {
                let m = body_of(p);
                assert(m.subrange(0, 8) =~= le_bytes(token_sequence, 8));
                assert(le_bytes(token_sequence, 8).subrange(0, 8) =~= le_bytes(token_sequence, 8));
                lemma_le_read_prefix(m, le_bytes(token_sequence, 8), 8);
                lemma_le_read_bytes(token_sequence, 8);
                assert(m.subrange(8, 308) =~= token_data@);
            },
            Packet::KeepAlive { client_index, max_clients, .. } => {
                lemma_le32(client_index);
                lemma_le32(max_clients);
            },
            _ => {},
        }
    }
}

} // verus!
