//! Encrypted connection packets with a five-bit packet kind and a sequence
//! of one to eight bytes:
//!
//! `[prefix: kind | (sequence bytes - 1) << 5] [sequence, little-endian]
//! [ciphertext] [tag]`

use vstd::prelude::*;
use crate::bytes::{
    IoError, le_bytes, le_read, le32, le32_bytes, low_bytes, seq_len, seq_len_of, lemma_le_read_bytes,
    lemma_le_read_prefix, lemma_seq_len, lemma_le32, push_uint_le, push_u32_le, push_all, read_uint_le,
    read_u32_le,
};
use crate::crypto::{chacha_seal, seal_chacha20poly1305, open_chacha20poly1305, nonce_of, nonce_from_sequence, KEY, HMAC};
use crate::protection::Protection;
use crate::protocol::{VERSION, VERSION_LEN, version_bytes};

verus! {

pub const REQUEST: u8 = 0;
pub const DENIED: u8 = 1;
pub const CHALLENGE: u8 = 2;
pub const RESPONSE: u8 = 3;
pub const KEEP_ALIVE: u8 = 4;
pub const DISCONNECT: u8 = 5;
pub const RESERVED_0: u8 = 6;
pub const RESERVED_1: u8 = 7;
pub const PAYLOAD: u8 = 8;

/// The largest payload channel: kinds from `PAYLOAD` up to 31 carry
/// channels 0 to 23.
pub const MAX_CHANNEL_ID: u8 = 23;
pub const MAX_PACKET_BYTES: usize = 1200;
pub const MAX_PAYLOAD_BYTES: usize = 1100;
pub const MAC_BYTES: usize = 16;
/// Challenge token length in bytes.
pub const CHALLENGE_BYTES: usize = 300;
pub const CHALLENGE_INNER_SIZE: usize = 308;
pub const RESPONSE_INNER_SIZE: usize = 308;
pub const KEEP_ALIVE_INNER_SIZE: usize = 8;
/// The smallest packet: prefix, one sequence byte and a tag.
pub const MIN_PACKET_BYTES: usize = 18;

/// A set of packet kinds that a reader accepts; bit `k` stands for kind
/// `k`, and the `PAYLOAD` bit for every payload channel.
#[derive(Debug, PartialEq, Eq, Structural, Clone, Copy)]
pub struct Allowed {
    pub bits: u16,
}

impl Allowed {
    #[allow(non_snake_case)]
    pub fn REQUEST() -> (r: Allowed) ensures r.bits == 1 { Allowed { bits: 1 } }
    #[allow(non_snake_case)]
    pub fn DENIED() -> (r: Allowed) ensures r.bits == 2 { Allowed { bits: 2 } }
    #[allow(non_snake_case)]
    pub fn CHALLENGE() -> (r: Allowed) ensures r.bits == 4 { Allowed { bits: 4 } }
    #[allow(non_snake_case)]
    pub fn RESPONSE() -> (r: Allowed) ensures r.bits == 8 { Allowed { bits: 8 } }
    #[allow(non_snake_case)]
    pub fn KEEP_ALIVE() -> (r: Allowed) ensures r.bits == 16 { Allowed { bits: 16 } }
    #[allow(non_snake_case)]
    pub fn DISCONNECT() -> (r: Allowed) ensures r.bits == 32 { Allowed { bits: 32 } }
    #[allow(non_snake_case)]
    pub fn PAYLOAD() -> (r: Allowed) ensures r.bits == 256 { Allowed { bits: 256 } }
    #[allow(non_snake_case)]
    pub fn CLIENT_CONNECTED() -> (r: Allowed) ensures r.bits == 304 { Allowed { bits: 304 } }
    #[allow(non_snake_case)]
    pub fn CLIENT_SENDING_RESPONSE() -> (r: Allowed) ensures r.bits == 18 { Allowed { bits: 18 } }
    #[allow(non_snake_case)]
    pub fn CLIENT_SENDING_REQUEST() -> (r: Allowed) ensures r.bits == 6 { Allowed { bits: 6 } }

    /// The set holds packet kind `p`.
    pub open spec fn allows(self, p: u8) -> bool {
        if p < RESERVED_0 {
            self.bits & (1u16 << p) != 0
        } else if p >= PAYLOAD {
            self.bits & (1u16 << PAYLOAD) != 0
        } else {
            false
        }
    }

    /// All kinds of `other` are in this set.
    pub fn contains(self, other: Allowed) -> (r: bool)
        ensures
            r == (self.bits & other.bits == other.bits),
    {
        self.bits & other.bits == other.bits
    }

    /// The set holds packet kind `p`.
    pub fn packet_type(self, p: u8) -> (r: bool)
        ensures
            r == self.allows(p),
    {
        let b = self.bits;
        if p < RESERVED_0 {
            let m: u16 = 1u16 << p;
            assert((b & m == m) == (b & m != 0)) by (bit_vector)
                requires m == 1u16 << p, p < 6;
            self.contains(Allowed { bits: m })
        } else if p >= PAYLOAD {
            assert((b & 256 == 256) == (b & (1u16 << 8u8) != 0)) by (bit_vector);
            self.contains(Allowed { bits: 256 })
        } else {
            false
        }
    }
}

/// A decrypted connection packet.
pub enum Encrypted {
    Denied,
    Challenge { challenge_sequence: u64, challenge_data: [u8; CHALLENGE_BYTES] },
    Response { challenge_sequence: u64, challenge_data: [u8; CHALLENGE_BYTES] },
    KeepAlive { client_index: u32, max_clients: u32 },
    Disconnect,
    Payload { sequence: u64, channel: u8, len: usize, data: [u8; MAX_PAYLOAD_BYTES] },
}

/// The associated data of a packet: version, protocol id and prefix byte.
pub open spec fn ad_of(protocol: u64, prefix: u8) -> Seq<u8> {
    version_bytes() + le_bytes(protocol, 8) + seq![prefix]
}

/// The kind code of a packet.
pub open spec fn kind_code(p: Encrypted) -> u8 {
    match p {
        Encrypted::Denied => DENIED,
        Encrypted::Challenge { .. } => CHALLENGE,
        Encrypted::Response { .. } => RESPONSE,
        Encrypted::KeepAlive { .. } => KEEP_ALIVE,
        Encrypted::Disconnect => DISCONNECT,
        Encrypted::Payload { channel, .. } => (PAYLOAD + channel) as u8,
    }
}

/// The plaintext body of a packet.
pub open spec fn body_bytes(p: Encrypted) -> Seq<u8> {
    match p {
        Encrypted::Denied => seq![],
        Encrypted::Challenge { challenge_sequence, challenge_data } => le_bytes(challenge_sequence, 8)
            + challenge_data@,
        Encrypted::Response { challenge_sequence, challenge_data } => le_bytes(challenge_sequence, 8)
            + challenge_data@,
        Encrypted::KeepAlive { client_index, max_clients } => le32_bytes(client_index) + le32_bytes(
            max_clients,
        ),
        Encrypted::Disconnect => seq![],
        Encrypted::Payload { len, data, .. } => data@.subrange(0, len as int),
    }
}

/// A packet that `write` accepts: a payload names a channel and fits.
pub open spec fn writable(p: Encrypted) -> bool {
    match p {
        Encrypted::Payload { channel, len, .. } => channel <= MAX_CHANNEL_ID && len <= MAX_PAYLOAD_BYTES,
        _ => true,
    }
}

/// The prefix byte of packet `p` sent with sequence `seq`.
pub open spec fn prefix_of(p: Encrypted, seq: u64) -> u8 {
    (kind_code(p) | (((seq_len(seq) - 1) as u8) << 5u8)) as u8
}

/// The bytes of packet `p` sent with sequence `seq`.
pub open spec fn packet_bytes(p: Encrypted, key: Seq<u8>, protocol: u64, seq: u64) -> Seq<u8> {
    seq![prefix_of(p, seq)] + le_bytes(seq, seq_len(seq)) + chacha_seal(
        key,
        nonce_of(seq),
        ad_of(protocol, prefix_of(p, seq)),
        body_bytes(p),
    )
}

/// A decrypted body of `kind` has the size that the kind calls for.
pub open spec fn body_valid(kind: u8, m: Seq<u8>) -> bool {
    ||| kind == DENIED && m.len() == 0
    ||| kind == CHALLENGE && m.len() == CHALLENGE_INNER_SIZE
    ||| kind == RESPONSE && m.len() == RESPONSE_INNER_SIZE
    ||| kind == KEEP_ALIVE && m.len() == KEEP_ALIVE_INNER_SIZE
    ||| kind == DISCONNECT && m.len() == 0
    ||| kind >= PAYLOAD && m.len() <= MAX_PAYLOAD_BYTES
}

/// `p` is what reading the decrypted body `m` of a packet of `kind` with
/// sequence `seq` gives.
pub open spec fn decoded(p: Encrypted, kind: u8, seq: u64, m: Seq<u8>) -> bool {
    match p {
        Encrypted::Denied => kind == DENIED && m.len() == 0,
        Encrypted::Challenge { challenge_sequence, challenge_data } => kind == CHALLENGE && m.len()
            == CHALLENGE_INNER_SIZE && challenge_sequence == le_read(m, 8) && challenge_data@ == m.subrange(
            8,
            CHALLENGE_INNER_SIZE as int,
        ),
        Encrypted::Response { challenge_sequence, challenge_data } => kind == RESPONSE && m.len()
            == RESPONSE_INNER_SIZE && challenge_sequence == le_read(m, 8) && challenge_data@ == m.subrange(
            8,
            RESPONSE_INNER_SIZE as int,
        ),
        Encrypted::KeepAlive { client_index, max_clients } => kind == KEEP_ALIVE && m.len()
            == KEEP_ALIVE_INNER_SIZE && client_index == le32(m[0], m[1], m[2], m[3]) && max_clients
            == le32(m[4], m[5], m[6], m[7]),
        Encrypted::Disconnect => kind == DISCONNECT && m.len() == 0,
        Encrypted::Payload { sequence, channel, len, data } => kind >= PAYLOAD && m.len()
            <= MAX_PAYLOAD_BYTES && sequence == seq && channel == kind - PAYLOAD && len == m.len()
            && data@.subrange(0, len as int) == m,
    }
}

/// Two packets carry the same content (a payload only up to its length);
/// a payload read back carries the sequence it was sent with.
pub open spec fn same_packet(q: Encrypted, p: Encrypted, seq: u64) -> bool {
    match (q, p) {
        (Encrypted::Denied, Encrypted::Denied) => true,
        (
            Encrypted::Challenge { challenge_sequence: a, challenge_data: b },
            Encrypted::Challenge { challenge_sequence: c, challenge_data: d },
        ) => a == c && b@ == d@,
        (
            Encrypted::Response { challenge_sequence: a, challenge_data: b },
            Encrypted::Response { challenge_sequence: c, challenge_data: d },
        ) => a == c && b@ == d@,
        (
            Encrypted::KeepAlive { client_index: a, max_clients: b },
            Encrypted::KeepAlive { client_index: c, max_clients: d },
        ) => a == c && b == d,
        (Encrypted::Disconnect, Encrypted::Disconnect) => true,
        (
            Encrypted::Payload { sequence: s1, channel: c1, len: l1, data: d1 },
            Encrypted::Payload { sequence: _, channel: c2, len: l2, data: d2 },
        ) => s1 == seq && c1 == c2 && l1 == l2 && d1@.subrange(0, l1 as int) == d2@.subrange(0, l2 as int),
        _ => false,
    }
}

/// The number of sequence bytes that a prefix byte announces.
pub open spec fn prefix_seq_bytes(prefix: u8) -> int {
    ((prefix >> 5u8) + 1) as int
}

/// The checks on a received packet before its body is opened: long
/// enough, a kind that is not reserved and is allowed, and room for the
/// sequence and a tag.
pub open spec fn header_ok(b: Seq<u8>, allowed: Allowed) -> bool {
    &&& b.len() >= MIN_PACKET_BYTES
    &&& (b[0] & 0x1f) != RESERVED_0
    &&& (b[0] & 0x1f) != RESERVED_1
    &&& allowed.allows(b[0] & 0x1f)
    &&& b.len() - 1 >= prefix_seq_bytes(b[0]) + MAC_BYTES
}

/// The sequence of a received packet.
pub open spec fn packet_seq(b: Seq<u8>) -> u64 {
    le_read(b.subrange(1, 1 + prefix_seq_bytes(b[0])), prefix_seq_bytes(b[0]) as nat)
}

/// The sealed body of a received packet.
pub open spec fn packet_body(b: Seq<u8>) -> Seq<u8> {
    b.subrange(1 + prefix_seq_bytes(b[0]), b.len() as int)
}

/// The associated data of a packet: version, protocol id and prefix byte.
pub fn associated_data(protocol: u64, prefix: u8) -> (r: Vec<u8>)
    ensures
        r@ == ad_of(protocol, prefix),
{
    let mut out: Vec<u8> = Vec::new();
    let v = VERSION;
    assert(v@ =~= version_bytes());
    push_all(&mut out, &v);
    push_uint_le(&mut out, protocol, 8);
    out.push(prefix);
    assert(out@ =~= ad_of(protocol, prefix));
    out
}

/// The number of bytes, from one to eight, that a sequence needs.
pub fn sequence_number_bytes_required(sequence: u64) -> (r: u8)
    ensures
        r == seq_len(sequence),
{
    seq_len_of(sequence)
}

/// Copies a 16-byte tag out of `s` at `off`.
fn tag_at(s: &[u8], off: usize) -> (r: [u8; HMAC])
    requires
        off + HMAC <= s@.len(),
    ensures
        r@ == s@.subrange(off as int, off + HMAC),
{
    let mut t = [0u8; HMAC];
    let slen = s.len();
    let mut i: usize = 0;
    while i < HMAC
        invariant
            slen == s@.len(),
            i <= HMAC,
            off + HMAC <= s@.len(),
            t@.len() == HMAC,
            forall|j: int| 0 <= j < i ==> t@[j] == s@[off + j],
        decreases HMAC - i,
    {
        assert(off + i < s@.len());
        t[i] = s[off + i];
        i = i + 1;
    }
    assert(t@ =~= s@.subrange(off as int, off + HMAC));
    t
}

/// The bytes of `s` from `a` to `b`, copied.
pub fn copy_range(s: &[u8], a: usize, b: usize) -> (r: Vec<u8>)
    requires
        a <= b <= s@.len(),
    ensures
        r@ == s@.subrange(a as int, b as int),
{
    let mut out: Vec<u8> = Vec::new();
    let mut i = a;
    while i < b
        invariant
            a <= i <= b,
            b <= s@.len(),
            out@ == s@.subrange(a as int, i as int),
        decreases b - i,
    {
        out.push(s[i]);
        assert(out@ =~= s@.subrange(a as int, i + 1));
        i = i + 1;
    }
    out
}

/// The 300 bytes of `s` from `off`, as an array.
fn challenge_array(s: &[u8], off: usize) -> (r: [u8; CHALLENGE_BYTES])
    requires
        off + CHALLENGE_BYTES <= s@.len(),
    ensures
        r@ == s@.subrange(off as int, off + CHALLENGE_BYTES),
{
    let mut t = [0u8; CHALLENGE_BYTES];
    let slen = s.len();
    let mut i: usize = 0;
    while i < CHALLENGE_BYTES
        invariant
            slen == s@.len(),
            i <= CHALLENGE_BYTES,
            off + CHALLENGE_BYTES <= s@.len(),
            t@.len() == CHALLENGE_BYTES,
            forall|j: int| 0 <= j < i ==> t@[j] == s@[off + j],
        decreases CHALLENGE_BYTES - i,
    {
        assert(off + i < s@.len());
        t[i] = s[off + i];
        i = i + 1;
    }
    assert(t@ =~= s@.subrange(off as int, off + CHALLENGE_BYTES));
    t
}

/// Up to 1100 bytes of `s`, at the start of a payload array.
fn payload_array(s: &[u8]) -> (r: [u8; MAX_PAYLOAD_BYTES])
    requires
        s@.len() <= MAX_PAYLOAD_BYTES,
    ensures
        r@.subrange(0, s@.len() as int) == s@,
{
    let mut t = [0u8; MAX_PAYLOAD_BYTES];
    let mut i: usize = 0;
    while i < s.len()
        invariant
            i <= s@.len(),
            s@.len() <= MAX_PAYLOAD_BYTES,
            t@.len() == MAX_PAYLOAD_BYTES,
            forall|j: int| 0 <= j < i ==> t@[j] == s@[j],
        decreases s@.len() - i,
    {
        t[i] = s[i];
        i = i + 1;
    }
    assert(t@.subrange(0, s@.len() as int) =~= s@);
    t
}

impl Encrypted {
    const MIN_PACKET_BYTES: usize = 18;

    /// The kind code of this packet.
    pub fn kind(&self) -> (r: u8)
        requires
            writable(*self),
        ensures
            r == kind_code(*self),
    {
        match self {
            Encrypted::Denied => DENIED,
            Encrypted::Challenge { .. } => CHALLENGE,
            Encrypted::Response { .. } => RESPONSE,
            Encrypted::KeepAlive { .. } => KEEP_ALIVE,
            Encrypted::Disconnect => DISCONNECT,
            Encrypted::Payload { channel, .. } => PAYLOAD + *channel,
        }
    }

    /// The plaintext body of this packet.
    pub fn body(&self) -> (r: Vec<u8>)
        requires
            writable(*self),
        ensures
            r@ == body_bytes(*self),
    {
        let mut out: Vec<u8> = Vec::new();
        match self {
            Encrypted::Denied => {},
            Encrypted::Challenge { challenge_sequence, challenge_data } => {
                push_uint_le(&mut out, *challenge_sequence, 8);
                push_all(&mut out, challenge_data);
            },
            Encrypted::Response { challenge_sequence, challenge_data } => {
                push_uint_le(&mut out, *challenge_sequence, 8);
                push_all(&mut out, challenge_data);
            },
            Encrypted::KeepAlive { client_index, max_clients } => {
                push_u32_le(&mut out, *client_index);
                push_u32_le(&mut out, *max_clients);
            },
            Encrypted::Disconnect => {},
            Encrypted::Payload { len, data, .. } => {
                let d = copy_range(data, 0, *len);
                push_all(&mut out, d.as_slice());
            },
        }
        assert(out@ =~= body_bytes(*self));
        out
    }

    /// Reads an encrypted packet: checks the prefix against the allowed
    /// kinds, reads the sequence, asks `protection` about replays of
    /// keep-alive, disconnect and payload packets, and opens the body.
    pub fn read<T: Protection>(
        buffer: &[u8],
        protection: &mut T,
        key: &[u8; KEY],
        protocol: u64,
        allowed: Allowed,
    ) -> (r: Option<Self>)
        requires
            buffer@.len() > 0 ==> buffer@.len() - 1 - prefix_seq_bytes(buffer@[0]) <= MAX_PACKET_BYTES,
        ensures
            !header_ok(buffer@, allowed) ==> r is None,
            r is Some ==> header_ok(buffer@, allowed) && forall|m: Seq<u8>|
                #[trigger] chacha_seal(key@, nonce_of(packet_seq(buffer@)), ad_of(protocol, buffer@[0]), m)
                    == packet_body(buffer@) ==> decoded(r.unwrap(), buffer@[0] & 0x1f, packet_seq(buffer@), m),
            r is Some && (buffer@[0] & 0x1f) >= KEEP_ALIVE ==> !old(protection).replayed(packet_seq(buffer@)),
            header_ok(buffer@, allowed) && (buffer@[0] & 0x1f) >= KEEP_ALIVE ==> old(protection).records(
                packet_seq(buffer@),
                *final(protection),
            ),
            !(header_ok(buffer@, allowed) && (buffer@[0] & 0x1f) >= KEEP_ALIVE) ==> *final(protection) == *old(
                protection,
            ),
            header_ok(buffer@, allowed) && ((buffer@[0] & 0x1f) < KEEP_ALIVE || !old(protection).replayed(
                packet_seq(buffer@),
            )) && (exists|m: Seq<u8>|
                #[trigger] chacha_seal(key@, nonce_of(packet_seq(buffer@)), ad_of(protocol, buffer@[0]), m)
                    == packet_body(buffer@) && body_valid(buffer@[0] & 0x1f, m)) ==> r is Some,
    {
        if buffer.len() < Self::MIN_PACKET_BYTES {
            return None;
        }
        let prefix = buffer[0];
        let kind = prefix & 0x1f;
        assert(prefix >> 5u8 <= 7) by (bit_vector);
        let sequence_bytes = (prefix >> 5) + 1;
        if kind == RESERVED_0 || kind == RESERVED_1 {
            return None;
        }
        if !allowed.packet_type(kind) {
            return None;
        }
        if buffer.len() - 1 < sequence_bytes as usize + MAC_BYTES {
            return None;
        }
        let sb = sequence_bytes as usize;
        assert(sb <= 8) by (bit_vector)
            requires sb == ((prefix >> 5u8) + 1) as usize;
        let sequence = read_uint_le(buffer, 1, sb);
        if kind >= KEEP_ALIVE {
            if protection.packet_already_received(sequence) {
                return None;
            }
        }
        let body = copy_range(buffer, 1 + sb, buffer.len());
        Self::decrypt(body.as_slice(), key, sequence, kind, prefix, protocol)
    }

    /// Opens the sealed body of a packet of `kind` and reads it when its
    /// size fits the kind.
    pub fn decrypt(buffer: &[u8], key: &[u8; KEY], sequence: u64, kind: u8, prefix: u8, protocol: u64) -> (r: Option<Self>)
        requires
            buffer@.len() <= MAX_PACKET_BYTES,
        ensures
            r is Some <==> buffer@.len() >= MAC_BYTES && exists|m: Seq<u8>|
                #[trigger] chacha_seal(key@, nonce_of(sequence), ad_of(protocol, prefix), m) == buffer@
                    && body_valid(kind, m),
            r is Some ==> forall|m: Seq<u8>|
                #[trigger] chacha_seal(key@, nonce_of(sequence), ad_of(protocol, prefix), m) == buffer@
                    ==> decoded(r.unwrap(), kind, sequence, m),
    {
        let len = buffer.len();
        if len < MAC_BYTES {
            return None;
        }
        let n = len - MAC_BYTES;
        let mut m = copy_range(buffer, 0, n);
        let tag = tag_at(buffer, n);
        let add = associated_data(protocol, prefix);
        let nonce = nonce_from_sequence(sequence);
        let ghost ct = m@;
        assert(ct + tag@ =~= buffer@);
        let ok = open_chacha20poly1305(key, &nonce, add.as_slice(), m.as_mut_slice(), &tag);
        if !ok {
            return None;
        }
        let ghost plain = m@;
        let d = m.as_slice();
        assert(d@ == plain);
        let r = if kind == DENIED && n == 0 {
            Some(Encrypted::Denied)
        } else if kind == CHALLENGE && n == CHALLENGE_INNER_SIZE {
            let cs = read_uint_le(d, 0, 8);
            let cd = challenge_array(d, 8);
            assert(d@.subrange(0, 8).subrange(0, 8) =~= d@.subrange(0, 8));
            proof { lemma_le_read_prefix(d@.subrange(0, 8), d@, 8); }
            Some(Encrypted::Challenge { challenge_sequence: cs, challenge_data: cd })
        } else if kind == RESPONSE && n == RESPONSE_INNER_SIZE {
            let cs = read_uint_le(d, 0, 8);
            let cd = challenge_array(d, 8);
            assert(d@.subrange(0, 8).subrange(0, 8) =~= d@.subrange(0, 8));
            proof { lemma_le_read_prefix(d@.subrange(0, 8), d@, 8); }
            Some(Encrypted::Response { challenge_sequence: cs, challenge_data: cd })
        } else if kind == KEEP_ALIVE && n == KEEP_ALIVE_INNER_SIZE {
            let ci = read_u32_le(d, 0);
            let mc = read_u32_le(d, 4);
            Some(Encrypted::KeepAlive { client_index: ci, max_clients: mc })
        } else if kind == DISCONNECT && n == 0 {
            Some(Encrypted::Disconnect)
        } else if kind >= PAYLOAD && n <= MAX_PAYLOAD_BYTES {
            let data = payload_array(d);
            Some(Encrypted::Payload { sequence, data, len: n, channel: kind - PAYLOAD })
        } else {
            None
        };
        proof {
            assert forall|x: Seq<u8>| #[trigger] chacha_seal(key@, nonce_of(sequence), ad_of(protocol, prefix), x)
                == buffer@ implies x == plain by {}
            if r is None {
                assert forall|x: Seq<u8>| #[trigger] chacha_seal(key@, nonce_of(sequence), ad_of(protocol, prefix), x)
                    == buffer@ implies !body_valid(kind, x) by {
                    assert(x == plain);
                }
            }
        }
        r
    }

    /// Writes this packet, sealed under `key` with `sequence`, to the start
    /// of `buffer`; fails, leaving `buffer` as it was, when it does not fit.
    pub fn write(self, buffer: &mut [u8], key: &[u8; KEY], protocol_id: u64, sequence: u64) -> (r: Result<usize, IoError>)
        requires
            writable(self),
        ensures
            packet_bytes(self, key@, protocol_id, sequence).len() <= old(buffer)@.len() ==> r
                == Ok::<usize, IoError>(packet_bytes(self, key@, protocol_id, sequence).len() as usize) && final(buffer)@
                == packet_bytes(self, key@, protocol_id, sequence) + old(buffer)@.subrange(
                packet_bytes(self, key@, protocol_id, sequence).len() as int,
                old(buffer)@.len() as int,
            ),
            packet_bytes(self, key@, protocol_id, sequence).len() > old(buffer)@.len() ==> r
                == Err::<usize, IoError>(IoError::WriteZero) && final(buffer)@ == old(buffer)@,
            packet_bytes(self, key@, protocol_id, sequence).len() == 1 + seq_len(sequence) + body_bytes(self).len()
                + MAC_BYTES,
            chacha_seal(key@, nonce_of(sequence), ad_of(protocol_id, prefix_of(self, sequence)), body_bytes(self)).len()
                == body_bytes(self).len() + MAC_BYTES,
    {
        let kind = self.kind();
        let sequence_bytes = sequence_number_bytes_required(sequence);
        proof { lemma_seq_len(sequence); }
        let prefix: u8 = kind | ((sequence_bytes - 1) << 5);
        let mut out: Vec<u8> = Vec::new();
        out.push(prefix);
        push_uint_le(&mut out, sequence, sequence_bytes as usize);
        let mut body = self.body();
        let add = associated_data(protocol_id, prefix);
        let nonce = nonce_from_sequence(sequence);
        let ghost plain = body@;
        let tag = seal_chacha20poly1305(key, &nonce, add.as_slice(), body.as_mut_slice());
        push_all(&mut out, body.as_slice());
        push_all(&mut out, &tag);
        assert(out@ =~= packet_bytes(self, key@, protocol_id, sequence));
        if out.len() > buffer.len() {
            return Err(IoError::WriteZero);
        }
        let n = crate::bytes::copy_prefix(buffer, out.as_slice());
        Ok(n)
    }
}

proof fn lemma_prefix_bits(k: u8, s: u8)
    requires
        k <= 31,
        s <= 7,
    ensures
        (k | (s << 5u8)) & 0x1f == k,
        ((k | (s << 5u8)) >> 5u8) == s,
{
    assert((k | (s << 5u8)) & 0x1f == k && ((k | (s << 5u8)) >> 5u8) == s) by (bit_vector)
        requires k <= 31, s <= 7;
}

/// A packet written with sequence `seq` passes the reader's checks for any
/// allowed set that holds its kind, carries `seq`, and its body opens to
/// exactly the packet's content: reading it back gives the same packet.
pub proof fn law_encrypted_roundtrip(p: Encrypted, key: Seq<u8>, protocol: u64, seq: u64, allowed: Allowed)
    requires
        writable(p),
        allowed.allows(kind_code(p)),
        chacha_seal(key, nonce_of(seq), ad_of(protocol, prefix_of(p, seq)), body_bytes(p)).len()
            == body_bytes(p).len() + HMAC,
    ensures
        ({
            let b = packet_bytes(p, key, protocol, seq);
            &&& header_ok(b, allowed)
            &&& b[0] & 0x1f == kind_code(p)
            &&& b.len() - 1 - prefix_seq_bytes(b[0]) <= MAX_PACKET_BYTES
            &&& packet_seq(b) == seq
            &&& packet_body(b) == chacha_seal(key, nonce_of(seq), ad_of(protocol, b[0]), body_bytes(p))
            &&& body_valid(kind_code(p), body_bytes(p))
            &&& forall|q: Encrypted| decoded(q, kind_code(p), seq, body_bytes(p)) ==> #[trigger] same_packet(q, p, seq)
        }),
{
    let b = packet_bytes(p, key, protocol, seq);
    let sb = seq_len(seq);
    lemma_seq_len(seq);
    let k = kind_code(p);
    lemma_prefix_bits(k, (sb - 1) as u8);
    let sealed = chacha_seal(key, nonce_of(seq), ad_of(protocol, prefix_of(p, seq)), body_bytes(p));
    assert(b[0] == prefix_of(p, seq));
    assert(prefix_seq_bytes(b[0]) == sb);
    assert(b.subrange(1, 1 + sb as int) =~= le_bytes(seq, sb));
    lemma_le_read_bytes(seq, sb);
    assert(packet_body(b) =~= sealed);
    assert forall|q: Encrypted| decoded(q, k, seq, body_bytes(p)) implies #[trigger] same_packet(q, p, seq) by {
        match p {
            Encrypted::Challenge { challenge_sequence, challenge_data } => {
                let m = body_bytes(p);
                assert(m.subrange(0, 8) =~= le_bytes(challenge_sequence, 8));
                assert(le_bytes(challenge_sequence, 8).subrange(0, 8) =~= le_bytes(challenge_sequence, 8));
                lemma_le_read_prefix(m, le_bytes(challenge_sequence, 8), 8);
                lemma_le_read_bytes(challenge_sequence, 8);
                assert(m.subrange(8, CHALLENGE_INNER_SIZE as int) =~= challenge_data@);
            },
            Encrypted::Response { challenge_sequence, challenge_data } => {
                let m = body_bytes(p);
                assert(m.subrange(0, 8) =~= le_bytes(challenge_sequence, 8));
                assert(le_bytes(challenge_sequence, 8).subrange(0, 8) =~= le_bytes(challenge_sequence, 8));
                lemma_le_read_prefix(m, le_bytes(challenge_sequence, 8), 8);
                lemma_le_read_bytes(challenge_sequence, 8);
                assert(m.subrange(8, RESPONSE_INNER_SIZE as int) =~= challenge_data@);
            },
            Encrypted::KeepAlive { client_index, max_clients } => {
                lemma_le32(client_index);
                lemma_le32(max_clients);
            },
            _ => {},
        }
    }
}

} // verus!
