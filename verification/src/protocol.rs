//! The connection protocol: four-byte big-endian packet headers, sealed
//! request, challenge and payload packets, and the compact packet framing
//! with a variable-length sequence.
//!
//! A header is a big-endian 32-bit word: the packet kind in the two high
//! bits, the low 30 bits of the sequence in the rest.

use vstd::prelude::*;
use crate::bytes::{be32, be32_bytes, lemma_be32, u32_be_array, le_bytes, le32_bytes, u64_le_array, push_all,
    array_at, write_at, push_u32_le};
use crate::crypto::{chacha_seal, seal_chacha20poly1305, open_chacha20poly1305, MAX_MESSAGE};
use crate::encrypted::copy_range;
use crate::token::{ChallengeToken, challenge_sealed, CHALLENGE_LEN, CHALLENGE_PACKET, PrivateToken, PRIVATE_LEN,
    private_ad, zeros};
use crate::bytes::{le_read, u64_from_le_array, seq_len, seq_len_of, lemma_seq_len, read_uint_le, push_uint_le,
    copy_prefix, IoError, lemma_le_read_bytes, lemma_le64_roundtrip};
use crate::crypto::xchacha_seal;

verus! {

pub const KEY: usize = 32;
pub const HMAC: usize = 16;
pub const NONCE: usize = 12;
pub const XNONCE: usize = 24;

/// Protocol version length.
pub const VERSION_LEN: usize = 4;

/// Protocol version: "ONI" and a zero byte.
pub const VERSION: [u8; VERSION_LEN] = [79, 78, 73, 0];

/// The protocol version bytes.
pub open spec fn version_bytes() -> Seq<u8> {
    seq![79u8, 78u8, 73u8, 0u8]
}

/// Maximum Transmission Unit.
pub const MTU: usize = 1200;
/// Header size in bytes.
pub const HEADER: usize = 4;
/// Overhead in bytes.
pub const OVERHEAD: usize = 20;
/// Max length of payload in bytes.
pub const MAX_PAYLOAD: usize = 1180;

pub const CHALLENGE_PACKET_LEN: usize = 328;
pub const RESPONSE_PACKET_LEN: usize = 328;
pub const DENIED_PACKET_LEN: usize = 20;
pub const DISCONNECT_PACKET_LEN: usize = 20;
pub const REQUEST_PACKET_LEN: usize = 1200;

pub const NUM_DISCONNECT_PACKETS: usize = 10;
pub const PACKET_SEND_RATE: u64 = 10;

pub const REQUEST: u8 = 0;
pub const CHALLENGE: u8 = 1;
pub const RESPONSE: u8 = 1;
pub const DISCONNECT: u8 = 2;
pub const DENIED: u8 = 2;
pub const PAYLOAD: u8 = 3;
pub const KEEP_ALIVE: u8 = 3;

const PREFIX_SHIFT: u32 = 30;
const SEQUENCE_MASK: u32 = 0x3FFF_FFFF;

/// The header word of a packet: the kind's two low bits on top, the low 30
/// bits of the sequence below.
pub open spec fn header_word(kind: u8, seq: u32) -> u32 {
    (((kind as u32) << 30u32) | (seq & 0x3FFF_FFFFu32)) as u32
}

/// The four header bytes of a packet.
pub open spec fn header_bytes(kind: u8, seq: u32) -> Seq<u8> {
    be32_bytes(header_word(kind, seq))
}

/// The header word that the first four bytes of `b` hold.
pub open spec fn word_of(b: Seq<u8>) -> u32 {
    be32(b[0], b[1], b[2], b[3])
}

/// The kind that a header holds.
pub open spec fn kind_of(b: Seq<u8>) -> u8 {
    ((word_of(b) >> 30u32) & 3u32) as u8
}

/// The sequence that a header holds.
pub open spec fn seq_of(b: Seq<u8>) -> u32 {
    word_of(b) & 0x3FFF_FFFFu32
}

/// The header of a packet of `kind` with sequence `seq`.
pub fn write_header(kind: u8, seq: u32) -> (r: [u8; 4])
    ensures
        r@ == header_bytes(kind, seq),
{
    u32_be_array(((kind as u32) << PREFIX_SHIFT) | (seq & SEQUENCE_MASK))
}

/// Splits a four-byte header into kind and sequence; fails on any other
/// length.
pub fn extract_header(buffer: &[u8]) -> (r: Result<(u8, u32), ()>)
    ensures
        r is Ok <==> buffer@.len() == HEADER,
        r is Ok ==> r.unwrap() == (kind_of(buffer@), seq_of(buffer@)),
{
    if buffer.len() != HEADER {
        return Err(());
    }
    let prefix: u32 = ((buffer[0] as u32) << 24) | ((buffer[1] as u32) << 16) | ((buffer[2] as u32) << 8)
        | (buffer[3] as u32);
    let kind = (prefix >> PREFIX_SHIFT) & 0b11;
    let sequence = prefix & SEQUENCE_MASK;
    Ok((kind as u8, sequence))
}

/// Reading back a written header gives its kind, for the four kinds, and
/// the low 30 bits of its sequence.
pub proof fn law_header_roundtrip(kind: u8, seq: u32)
    requires
        kind <= 3,
    ensures
        kind_of(header_bytes(kind, seq)) == kind,
        seq_of(header_bytes(kind, seq)) == seq & 0x3FFF_FFFFu32,
        seq < 0x4000_0000 ==> seq_of(header_bytes(kind, seq)) == seq,
{
    let w = header_word(kind, seq);
    lemma_be32(w);
    assert(word_of(header_bytes(kind, seq)) == w);
    let k = kind as u32;
    assert(((((k << 30u32) | (seq & 0x3FFF_FFFFu32)) >> 30u32) & 3u32) == k && (((k << 30u32) | (seq
        & 0x3FFF_FFFFu32)) & 0x3FFF_FFFFu32) == seq & 0x3FFF_FFFFu32 && (seq < 0x4000_0000 ==> seq & 0x3FFF_FFFFu32
        == seq)) by (bit_vector)
        requires k <= 3;
}

/// The nonce of a header packet: four zero bytes, the 32-bit sequence
/// little-endian, four zero bytes.
pub open spec fn header_nonce(seq: u32) -> Seq<u8> {
    seq![0u8, 0u8, 0u8, 0u8] + le32_bytes(seq) + seq![0u8, 0u8, 0u8, 0u8]
}

/// The associated data of a sealed packet: version, protocol id
/// (little-endian) and the packet's kind or prefix byte.
pub open spec fn packet_ad(protocol: u64, prefix: u8) -> Seq<u8> {
    version_bytes() + le_bytes(protocol, 8) + seq![prefix]
}

/// What sealing `m` in a header packet of `kind` gives: ciphertext and tag.
pub open spec fn packet_seal(key: Seq<u8>, protocol: u64, kind: u8, seq: u32, m: Seq<u8>) -> Seq<u8> {
    chacha_seal(key, header_nonce(seq), packet_ad(protocol, kind), m)
}

/// A whole header packet: header, ciphertext and tag.
pub open spec fn sealed_packet(key: Seq<u8>, protocol: u64, kind: u8, seq: u32, m: Seq<u8>) -> Seq<u8> {
    header_bytes(kind, seq) + packet_seal(key, protocol, kind, seq, m)
}

/// `m` is a plaintext of the header packet `b`: sealing it under the kind
/// and sequence of `b`'s header gives the rest of `b`.
pub open spec fn opens_to(key: Seq<u8>, protocol: u64, b: Seq<u8>, m: Seq<u8>) -> bool {
    packet_seal(key, protocol, kind_of(b), seq_of(b), m) == b.subrange(HEADER as int, b.len() as int)
}

proof fn lemma_opens_to(key: Seq<u8>, protocol: u64, b: Seq<u8>, kind: u8, seq: u32, ct: Seq<u8>)
    requires
        b.len() >= HEADER,
        kind == kind_of(b),
        seq == seq_of(b),
        ct == b.subrange(HEADER as int, b.len() as int),
    ensures
        forall|m: Seq<u8>|
            #![trigger opens_to(key, protocol, b, m)]
            #![trigger packet_seal(key, protocol, kind, seq, m)]
            opens_to(key, protocol, b, m) <==> packet_seal(key, protocol, kind, seq, m) == ct,
{
}

fn header_nonce_bytes(seq: u32) -> (r: [u8; NONCE])
    ensures
        r@ == header_nonce(seq),
{
    let mut v: Vec<u8> = Vec::new();
    let z = [0u8; 4];
    push_all(&mut v, &z);
    push_u32_le(&mut v, seq);
    push_all(&mut v, &z);
    assert(v@ =~= header_nonce(seq));
    array_at(v.as_slice(), 0)
}

fn packet_ad_bytes(protocol: u64, prefix: u8) -> (r: Vec<u8>)
    ensures
        r@ == packet_ad(protocol, prefix),
{
    let mut v: Vec<u8> = Vec::new();
    let version = VERSION;
    assert(version@ =~= version_bytes());
    push_all(&mut v, &version);
    let p = u64_le_array(protocol);
    push_all(&mut v, &p);
    v.push(prefix);
    assert(v@ =~= packet_ad(protocol, prefix));
    v
}

/// Seals `m` in place for a header packet of `kind` and returns the tag.
pub fn encrypt_packet(protocol: u64, kind: u8, seq: u32, m: &mut [u8], k: &[u8; KEY]) -> (r: [u8; HMAC])
    requires
        old(m)@.len() <= MAX_MESSAGE,
    ensures
        final(m)@.len() == old(m)@.len(),
        final(m)@ + r@ == packet_seal(k@, protocol, kind, seq, old(m)@),
{
    let n = header_nonce_bytes(seq);
    let ad = packet_ad_bytes(protocol, kind);
    seal_chacha20poly1305(k, &n, ad.as_slice(), m)
}

/// Opens `c` with tag `t` in place; fails, leaving `c`, when they do not
/// authenticate.
pub fn decrypt_packet(protocol: u64, kind: u8, seq: u32, c: &mut [u8], t: [u8; HMAC], k: &[u8; KEY]) -> (r: Result<(), ()>)
    requires
        old(c)@.len() <= MAX_MESSAGE,
    ensures
        final(c)@.len() == old(c)@.len(),
        r is Ok <==> exists|m: Seq<u8>| #[trigger] packet_seal(k@, protocol, kind, seq, m) == old(c)@ + t@,
        r is Ok ==> forall|m: Seq<u8>| #[trigger] packet_seal(k@, protocol, kind, seq, m) == old(c)@ + t@ ==> final(c)@ == m,
        r is Err ==> final(c)@ == old(c)@,
{
    let n = header_nonce_bytes(seq);
    let ad = packet_ad_bytes(protocol, kind);
    let ok = open_chacha20poly1305(k, &n, ad.as_slice(), c, &t);
    proof {
        if ok {
            let m = choose|m: Seq<u8>| #[trigger] chacha_seal(k@, n@, ad@, m) == old(c)@ + t@;
            assert(packet_seal(k@, protocol, kind, seq, m) == old(c)@ + t@);
        } else {
            assert forall|m: Seq<u8>| #[trigger] packet_seal(k@, protocol, kind, seq, m) != old(c)@ + t@ by {
                assert(chacha_seal(k@, n@, ad@, m) == packet_seal(k@, protocol, kind, seq, m));
            }
        }
    }
    if ok {
        Ok(())
    } else {
        Err(())
    }
}

fn simple_packet(protocol: u64, key: &[u8; KEY], kind: u8, seq: u32) -> (r: [u8; OVERHEAD])
    ensures
        r@ == sealed_packet(key@, protocol, kind, seq, seq![]),
{
    let header = write_header(kind, seq);
    let mut empty: [u8; 0] = [];
    assert(empty@ =~= seq![]);
    let hmac = encrypt_packet(protocol, kind, seq, &mut empty, key);
    assert(empty@ =~= seq![]);
    let mut v: Vec<u8> = Vec::new();
    push_all(&mut v, &header);
    push_all(&mut v, &hmac);
    assert(v@ =~= sealed_packet(key@, protocol, kind, seq, seq![]));
    array_at(v.as_slice(), 0)
}

/// A keep-alive packet: header and the tag of an empty message.
pub fn keep_alive_packet(protocol: u64, seq: u32, key: &[u8; KEY]) -> (r: [u8; OVERHEAD])
    ensures
        r@ == sealed_packet(key@, protocol, KEEP_ALIVE, seq, seq![]),
{
    simple_packet(protocol, key, KEEP_ALIVE, seq)
}

/// A disconnect packet: header and the tag of an empty message.
pub fn disconnect_packet(protocol: u64, seq: u32, key: &[u8; KEY]) -> (r: [u8; OVERHEAD])
    ensures
        r@ == sealed_packet(key@, protocol, DISCONNECT, seq, seq![]),
{
    simple_packet(protocol, key, DISCONNECT, seq)
}

/// A denied packet: header and the tag of an empty message.
pub fn denied_packet(protocol: u64, seq: u32, key: &[u8; KEY]) -> (r: [u8; OVERHEAD])
    ensures
        r@ == sealed_packet(key@, protocol, DENIED, seq, seq![]),
{
    simple_packet(protocol, key, DENIED, seq)
}

/// The payload packet that carries `payload`, cut to `MAX_PAYLOAD` bytes:
/// header, ciphertext and tag. The caller sends it.
pub fn send_payload(protocol: u64, seq: u32, key: &[u8; KEY], payload: &[u8]) -> (r: Vec<u8>)
    ensures
        r@ == sealed_packet(
            key@,
            protocol,
            PAYLOAD,
            seq,
            payload@.subrange(0, if payload@.len() <= MAX_PAYLOAD { payload@.len() as int } else { MAX_PAYLOAD as int }),
        ),
        r@.len() == (if payload@.len() <= MAX_PAYLOAD { payload@.len() as int } else { MAX_PAYLOAD as int }) + OVERHEAD,
{
    let len = if payload.len() <= MAX_PAYLOAD { payload.len() } else { MAX_PAYLOAD };
    let mut m: Vec<u8> = copy_range(payload, 0, len);
    let header = write_header(PAYLOAD, seq);
    let hmac = encrypt_packet(protocol, PAYLOAD, seq, m.as_mut_slice(), key);
    let mut packet: Vec<u8> = Vec::new();
    push_all(&mut packet, &header);
    push_all(&mut packet, m.as_slice());
    push_all(&mut packet, &hmac);
    assert(packet@ =~= header@ + (m@ + hmac@));
    packet
}

/// A challenge packet: header and the sealed sequence and challenge token.
pub fn new_challenge_packet(protocol: u64, seq: u32, key: &[u8; KEY], challenge: &[u8; 308]) -> (r: [u8; CHALLENGE_PACKET_LEN])
    ensures
        r@ == sealed_packet(key@, protocol, CHALLENGE, seq, challenge@),
{
    let mut m: Vec<u8> = copy_range(challenge, 0, 308);
    assert(m@ =~= challenge@);
    let header = write_header(CHALLENGE, seq);
    let hmac = encrypt_packet(protocol, CHALLENGE, seq, m.as_mut_slice(), key);
    let mut packet: Vec<u8> = Vec::new();
    push_all(&mut packet, &header);
    push_all(&mut packet, m.as_slice());
    push_all(&mut packet, &hmac);
    assert(packet@ =~= header@ + (m@ + hmac@));
    array_at(packet.as_slice(), 0)
}

/// Opens a header packet: checks its length, asks `filter` about the
/// sequence (a `true` drops the packet), and opens the ciphertext. Gives
/// the plaintext.
pub fn read_packet<F: FnOnce(u32) -> bool>(protocol: u64, key: &[u8; KEY], buf: &[u8], filter: F) -> (r: Result<Vec<u8>, ()>)
    requires
        buf@.len() <= MAX_MESSAGE,
        forall|s: u32| call_requires(filter, (s,)),
    ensures
        buf@.len() < OVERHEAD ==> r is Err,
        r is Ok ==> {
            &&& buf@.len() >= OVERHEAD
            &&& call_ensures(filter, (seq_of(buf@),), false)
            &&& exists|m: Seq<u8>| #[trigger] opens_to(key@, protocol, buf@, m)
            &&& forall|m: Seq<u8>| #[trigger] opens_to(key@, protocol, buf@, m) ==> r.unwrap()@ == m
        },
        r is Err && buf@.len() >= OVERHEAD ==> call_ensures(filter, (seq_of(buf@),), true) || !exists|m: Seq<u8>|
            #[trigger] opens_to(key@, protocol, buf@, m),
{
    if buf.len() < HEADER + HMAC {
        return Err(());
    }
    let len = buf.len();
    let header = copy_range(buf, 0, HEADER);
    let mut ciphertext = copy_range(buf, HEADER, len - HMAC);
    let tag: [u8; HMAC] = array_at(buf, len - HMAC);
    proof {
        assert(ciphertext@ + tag@ =~= buf@.subrange(HEADER as int, len as int));
        assert(header@[0] == buf@[0] && header@[1] == buf@[1] && header@[2] == buf@[2] && header@[3] == buf@[3]);
    }
    let (kind, seq) = match extract_header(header.as_slice()) {
        Ok(h) => h,
        Err(_) => return Err(()),
    };
    if filter(seq) {
        return Err(());
    }
    proof {
        lemma_opens_to(key@, protocol, buf@, kind, seq, ciphertext@ + tag@);
    }
    match decrypt_packet(protocol, kind, seq, ciphertext.as_mut_slice(), tag, key) {
        Ok(()) => Ok(ciphertext),
        Err(()) => Err(()),
    }
}

/// `tok` is what opening the challenge packet `b` under `recv_key`, and
/// then the challenge token in it under `challenge_key`, gives.
pub open spec fn response_token(recv_key: Seq<u8>, challenge_key: Seq<u8>, protocol: u64, b: Seq<u8>, tok: Seq<u8>) -> bool {
    &&& exists|m: Seq<u8>| #[trigger] opens_to(recv_key, protocol, b, m)
    &&& forall|m: Seq<u8>| #[trigger] opens_to(recv_key, protocol, b, m) ==> {
        let seq = crate::bytes::le_read(m.subrange(0, 8), 8);
        let sealed = m.subrange(8, 8 + CHALLENGE_LEN);
        forall|t: Seq<u8>| #[trigger] chacha_seal(challenge_key, crate::crypto::nonce_of(seq), seq![], t) == sealed
            ==> tok == t + sealed.subrange((CHALLENGE_LEN - HMAC) as int, CHALLENGE_LEN as int)
    }
}

/// Opening the challenge packet `b` under `recv_key`, or the challenge
/// token in it under `challenge_key`, fails.
pub open spec fn response_fails(recv_key: Seq<u8>, challenge_key: Seq<u8>, protocol: u64, b: Seq<u8>) -> bool {
    ||| b.len() != CHALLENGE_PACKET_LEN
    ||| !(exists|m: Seq<u8>| #[trigger] opens_to(recv_key, protocol, b, m))
    ||| exists|m: Seq<u8>| #![trigger opens_to(recv_key, protocol, b, m)] opens_to(recv_key, protocol, b, m) && !exists|t: Seq<u8>|
            #[trigger] chacha_seal(challenge_key, crate::crypto::nonce_of(crate::bytes::le_read(m.subrange(0, 8), 8)), seq![], t) == m.subrange(8, 8 + CHALLENGE_LEN)
}

/// The two kinds of packet that carry a challenge token.
pub struct ChallengePacket {
    sequence: [u8; 8],
    token: [u8; CHALLENGE_LEN],
}

/// A response packet has the layout of a challenge packet.
pub type ResponsePacket = ChallengePacket;

impl ChallengePacket {
    /// Opens a challenge packet under `recv_key`, then the challenge token
    /// in it under `challenge_key`.
    pub fn open_token(protocol: u64, buf: &mut [u8], recv_key: &[u8; KEY], challenge_key: &[u8; KEY]) -> (r: Result<ChallengeToken, ()>)
        ensures
            final(buf)@.len() == old(buf)@.len(),
            r is Ok ==> exists|m: Seq<u8>| #[trigger] opens_to(recv_key@, protocol, old(buf)@, m),
            r is Ok ==> forall|m: Seq<u8>| #[trigger] opens_to(recv_key@, protocol, old(buf)@, m) ==> {
                let seq = crate::bytes::le_read(m.subrange(0, 8), 8);
                let sealed = m.subrange(8, 8 + CHALLENGE_LEN);
                forall|t: Seq<u8>| #[trigger] chacha_seal(challenge_key@, crate::crypto::nonce_of(seq), seq![], t) == sealed
                    ==> r.unwrap()@ == t + sealed.subrange((CHALLENGE_LEN - HMAC) as int, CHALLENGE_LEN as int)
            },
            r is Err ==> old(buf)@.len() != CHALLENGE_PACKET_LEN || !(exists|m: Seq<u8>| #[trigger] opens_to(recv_key@, protocol, old(buf)@, m))
                || exists|m: Seq<u8>| #![trigger opens_to(recv_key@, protocol, old(buf)@, m)] opens_to(recv_key@, protocol, old(buf)@, m) && !exists|t: Seq<u8>|
                    #[trigger] chacha_seal(challenge_key@, crate::crypto::nonce_of(crate::bytes::le_read(m.subrange(0, 8), 8)), seq![], t) == m.subrange(8, 8 + CHALLENGE_LEN),
    {
        let ciphertext = Self::client_read(protocol, buf, recv_key);
        match ciphertext {
            Ok(mut c) => Self::read(&mut c, challenge_key),
            Err(()) => Err(()),
        }
    }

    /// Opens a challenge packet under `key` and gives the sequence and
    /// sealed token that it carries; the plaintext also replaces the
    /// ciphertext in `buf`.
    pub fn client_read(protocol: u64, buf: &mut [u8], key: &[u8; KEY]) -> (r: Result<[u8; CHALLENGE_PACKET], ()>)
        ensures
            r is Ok <==> old(buf)@.len() == CHALLENGE_PACKET_LEN && exists|m: Seq<u8>| #[trigger] opens_to(key@, protocol, old(buf)@, m),
            r is Ok ==> forall|m: Seq<u8>| #[trigger] opens_to(key@, protocol, old(buf)@, m) ==> r.unwrap()@ == m,
            r is Ok ==> final(buf)@ == old(buf)@.subrange(0, HEADER as int) + r.unwrap()@ + old(buf)@.subrange(
                (HEADER + CHALLENGE_PACKET) as int,
                CHALLENGE_PACKET_LEN as int,
            ),
            r is Err ==> final(buf)@ == old(buf)@,
    {
        if buf.len() != CHALLENGE_PACKET_LEN {
            return Err(());
        }
        let header = copy_range(buf, 0, HEADER);
        let mut ciphertext = copy_range(buf, HEADER, HEADER + CHALLENGE_PACKET);
        let tag: [u8; HMAC] = array_at(buf, HEADER + CHALLENGE_PACKET);
        proof {
            assert(ciphertext@ + tag@ =~= old(buf)@.subrange(HEADER as int, CHALLENGE_PACKET_LEN as int));
            assert(header@[0] == buf@[0] && header@[1] == buf@[1] && header@[2] == buf@[2] && header@[3] == buf@[3]);
        }
        let (kind, seq) = match extract_header(header.as_slice()) {
            Ok(h) => h,
            Err(_) => return Err(()),
        };
        proof {
            lemma_opens_to(key@, protocol, old(buf)@, kind, seq, ciphertext@ + tag@);
        }
        match decrypt_packet(protocol, kind, seq, ciphertext.as_mut_slice(), tag, key) {
            Ok(()) => {
                let out: [u8; CHALLENGE_PACKET] = array_at(ciphertext.as_slice(), 0);
                assert(out@ =~= ciphertext@);
                write_at(buf, HEADER, &out);
                Ok(out)
            },
            Err(()) => Err(()),
        }
    }

    /// The sequence, little-endian, followed by `token` sealed under `key`
    /// with that sequence.
    pub fn write(sequence: u64, key: &[u8; KEY], token: ChallengeToken) -> (r: [u8; CHALLENGE_PACKET])
        ensures
            r@ == le_bytes(sequence, 8) + challenge_sealed(token@, sequence, key@),
    {
        let p = Self { sequence: u64_le_array(sequence), token: token.encrypt(sequence, key) };
        let mut v: Vec<u8> = Vec::new();
        push_all(&mut v, &p.sequence);
        push_all(&mut v, &p.token);
        array_at(v.as_slice(), 0)
    }

    /// Reads the sequence from the first eight bytes and opens the token
    /// sealed in the rest; fails on any length but 308.
    pub fn read(buf: &mut [u8], key: &[u8; KEY]) -> (r: Result<ChallengeToken, ()>)
        ensures
            final(buf)@ == old(buf)@,
            old(buf)@.len() != CHALLENGE_PACKET ==> r is Err,
            old(buf)@.len() == CHALLENGE_PACKET ==> ({
                let seq = crate::bytes::le_read(old(buf)@.subrange(0, 8), 8);
                let sealed = old(buf)@.subrange(8, 8 + CHALLENGE_LEN);
                &&& r is Ok <==> exists|t: Seq<u8>| #[trigger] chacha_seal(key@, crate::crypto::nonce_of(seq), seq![], t) == sealed
                &&& r is Ok ==> forall|t: Seq<u8>|
                    #[trigger] chacha_seal(key@, crate::crypto::nonce_of(seq), seq![], t) == sealed ==> r.unwrap()@ == t
                        + sealed.subrange((CHALLENGE_LEN - HMAC) as int, CHALLENGE_LEN as int)
            }),
    {
        if buf.len() == CHALLENGE_PACKET {
            let b: [u8; CHALLENGE_PACKET] = array_at(buf, 0);
            assert(b@ =~= buf@);
            ChallengeToken::decode_packet(&b, key)
        } else {
            Err(())
        }
    }
}

/// The packet that closes a connection or refuses one: a header and the
/// tag of an empty message.
pub struct EmptyPacket;

impl EmptyPacket {
    /// Accepts a 20-byte packet whose tag authenticates its header.
    pub fn read(protocol: u64, buf: &[u8], key: &[u8; KEY]) -> (r: Result<(), ()>)
        ensures
            r is Ok <==> buf@.len() == OVERHEAD && exists|m: Seq<u8>| #[trigger] opens_to(key@, protocol, buf@, m),
            r is Ok ==> forall|m: Seq<u8>| #[trigger] opens_to(key@, protocol, buf@, m) ==> m.len() == 0,
    {
        if buf.len() != HEADER + HMAC {
            return Err(());
        }
        let header = copy_range(buf, 0, HEADER);
        let tag: [u8; HMAC] = array_at(buf, HEADER);
        let mut empty: [u8; 0] = [];
        proof {
            assert(empty@ + tag@ =~= buf@.subrange(HEADER as int, OVERHEAD as int));
            assert(header@[0] == buf@[0] && header@[1] == buf@[1] && header@[2] == buf@[2] && header@[3] == buf@[3]);
        }
        let (kind, seq) = match extract_header(header.as_slice()) {
            Ok(h) => h,
            Err(_) => return Err(()),
        };
        proof {
            lemma_opens_to(key@, protocol, buf@, kind, seq, empty@ + tag@);
        }
        decrypt_packet(protocol, kind, seq, &mut empty, tag, key)
    }
}

/// The first packet a client sends: prefix, version, protocol id, expire
/// timestamp, nonce, reserved bytes and the sealed private token, 1200
/// bytes in all.
pub struct RequestPacket {
    prefix: u8,
    version: [u8; VERSION_LEN],
    protocol: [u8; 8],
    expire: [u8; 8],
    nonce: [u8; XNONCE],
    _reserved: [u8; 131],
    token: [u8; PRIVATE_LEN],
}

impl View for RequestPacket {
    type V = Seq<u8>;

    /// The packet's 1200 bytes.
    closed spec fn view(&self) -> Seq<u8> {
        seq![self.prefix] + self.version@ + self.protocol@ + self.expire@ + self.nonce@ + self._reserved@
            + self.token@
    }
}

/// The bytes of a request packet.
pub open spec fn request_bytes(protocol: u64, expire: u64, nonce: Seq<u8>, token: Seq<u8>) -> Seq<u8> {
    seq![REQUEST] + version_bytes() + le_bytes(protocol, 8) + le_bytes(expire, 8) + nonce + zeros(131) + token
}

/// The protocol id of a request packet.
pub open spec fn request_protocol(b: Seq<u8>) -> u64 {
    le_read(b.subrange(5, 13), 8)
}

/// The expire timestamp of a request packet.
pub open spec fn request_expire(b: Seq<u8>) -> u64 {
    le_read(b.subrange(13, 21), 8)
}

/// The nonce of a request packet.
pub open spec fn request_nonce(b: Seq<u8>) -> Seq<u8> {
    b.subrange(21, 45)
}

/// The sealed private token of a request packet.
pub open spec fn request_token(b: Seq<u8>) -> Seq<u8> {
    b.subrange(176, 1200)
}

/// Some private token opens from the request packet `b` under `key`.
pub open spec fn request_opens(key: Seq<u8>, b: Seq<u8>) -> bool {
    exists|m: Seq<u8>|
        #[trigger] xchacha_seal(key, request_nonce(b), private_ad(request_protocol(b), request_expire(b)), m)
            == request_token(b)
}

/// `tok` is the private token that opens from the request packet `b`
/// under `key`: the plaintext with the sealed token's tag.
pub open spec fn request_opened(key: Seq<u8>, b: Seq<u8>, tok: Seq<u8>) -> bool {
    forall|m: Seq<u8>|
        #[trigger] xchacha_seal(key, request_nonce(b), private_ad(request_protocol(b), request_expire(b)), m)
            == request_token(b) ==> tok == m + request_token(b).subrange((PRIVATE_LEN - HMAC) as int, PRIVATE_LEN as int)
}

/// A server accepts a request packet with the request prefix, the
/// protocol version, its own protocol id and an expire timestamp after
/// now.
pub open spec fn request_valid(b: Seq<u8>, protocol: u64, timestamp: u64) -> bool {
    &&& b[0] == REQUEST
    &&& b.subrange(1, 5) == version_bytes()
    &&& request_protocol(b) == protocol
    &&& request_expire(b) > timestamp
}

/// A request whose connect token expires at or before `timestamp` is not
/// valid, whatever else it holds.
pub proof fn law_expired_request_invalid(b: Seq<u8>, protocol: u64, timestamp: u64)
    requires
        request_expire(b) <= timestamp,
    ensures
        !request_valid(b, protocol, timestamp),
{
}

impl RequestPacket {
    /// A request packet has 1200 bytes.
    pub proof fn lemma_len(&self)
        ensures
            self@.len() == REQUEST_PACKET_LEN,
    {
    }

    pub(crate) fn from_bytes(b: &[u8]) -> (r: Self)
        requires
            b@.len() == REQUEST_PACKET_LEN,
        ensures
            r@ == b@,
    {
        let r = RequestPacket {
            prefix: b[0],
            version: array_at(b, 1),
            protocol: array_at(b, 5),
            expire: array_at(b, 13),
            nonce: array_at(b, 21),
            _reserved: array_at(b, 45),
            token: array_at(b, 176),
        };
        assert(r@ =~= b@);
        r
    }

    /// The expire timestamp.
    pub fn expire(&self) -> (r: u64)
        ensures
            r == request_expire(self@),
    {
        assert(self@.subrange(13, 21) =~= self.expire@);
        u64_from_le_array(self.expire)
    }

    /// Opens the private token under `private_key`, bound to the packet's
    /// protocol id and expire timestamp.
    pub fn open_token(&self, private_key: &[u8; KEY]) -> (r: Result<PrivateToken, ()>)
        ensures
            ({
                let ad = private_ad(request_protocol(self@), request_expire(self@));
                let n = request_nonce(self@);
                let t = request_token(self@);
                &&& r is Ok <==> exists|m: Seq<u8>| #[trigger] xchacha_seal(private_key@, n, ad, m) == t
                &&& r is Ok ==> forall|m: Seq<u8>| #[trigger] xchacha_seal(private_key@, n, ad, m) == t ==> r.unwrap()@
                    == m + t.subrange((PRIVATE_LEN - HMAC) as int, PRIVATE_LEN as int)
            }),
    {
        assert(self@.subrange(5, 13) =~= self.protocol@);
        assert(self@.subrange(21, 45) =~= self.nonce@);
        assert(self@.subrange(176, 1200) =~= self.token@);
        let protocol = u64_from_le_array(self.protocol);
        let expire = self.expire();
        let r = PrivateToken::decrypt(&self.token, protocol, expire, &self.nonce, private_key);
        assert(private_ad(protocol, expire) == private_ad(request_protocol(self@), request_expire(self@)));
        assert(self.nonce@ == request_nonce(self@));
        assert(self.token@ == request_token(self@));
        assert(r is Ok <==> exists|m: Seq<u8>| #[trigger] xchacha_seal(private_key@, request_nonce(self@), private_ad(request_protocol(self@), request_expire(self@)), m) == request_token(self@));
        r
    }

    pub fn is_valid(&self, protocol: u64, timestamp: u64) -> (r: bool)
        ensures
            r == request_valid(self@, protocol, timestamp),
            request_expire(self@) <= timestamp ==> !r,
    {
        assert(self@.subrange(1, 5) =~= self.version@);
        assert(self@.subrange(5, 13) =~= self.protocol@);
        if self.prefix != REQUEST {
            return false;
        }
        let v = VERSION;
        assert(v@ =~= version_bytes());
        let mut i: usize = 0;
        while i < VERSION_LEN
            invariant
                i <= VERSION_LEN,
                v@ == version_bytes(),
                forall|j: int| 0 <= j < i ==> self.version@[j] == version_bytes()[j],
            decreases VERSION_LEN - i,
        {
            if self.version[i] != v[i] {
                assert(self.version@[i as int] != version_bytes()[i as int]);
                assert(self@.subrange(1, 5)[i as int] != version_bytes()[i as int]);
                return false;
            }
            i = i + 1;
        }
        assert(self.version@ =~= version_bytes());
        if u64_from_le_array(self.protocol) != protocol {
            return false;
        }
        if self.expire() <= timestamp {
            return false;
        }
        true
    }

    /// A request packet for the given protocol id, expire timestamp, nonce
    /// and sealed private token.
    pub fn new(protocol: u64, expire: u64, nonce: [u8; XNONCE], token: [u8; PRIVATE_LEN]) -> (r: Self)
        ensures
            r@ == request_bytes(protocol, expire, nonce@, token@),
    {
        let reserved = [0u8; 131];
        assert(reserved@ =~= zeros(131));
        let r = Self {
            prefix: REQUEST,
            version: VERSION,
            protocol: u64_le_array(protocol),
            expire: u64_le_array(expire),
            nonce,
            _reserved: reserved,
            token,
        };
        assert(VERSION@ =~= version_bytes());
        assert(r@ =~= request_bytes(protocol, expire, nonce@, token@));
        r
    }

    /// The packet's 1200 bytes.
    pub fn write(self) -> (r: [u8; MTU])
        ensures
            r@ == self@,
    {
        let mut v: Vec<u8> = Vec::new();
        v.push(self.prefix);
        push_all(&mut v, &self.version);
        push_all(&mut v, &self.protocol);
        push_all(&mut v, &self.expire);
        push_all(&mut v, &self.nonce);
        push_all(&mut v, &self._reserved);
        push_all(&mut v, &self.token);
        assert(v@ =~= self@);
        array_at(v.as_slice(), 0)
    }

    /// Reads a request packet and opens its private token: fails unless
    /// `buf` is 1200 bytes that a server accepts (see `request_valid`) and
    /// the token opens under `key`. Gives the expire timestamp and token.
    pub fn open(buf: &mut [u8], protocol: u64, timestamp: u64, key: &[u8; KEY]) -> (r: Result<(u64, PrivateToken), ()>)
        ensures
            final(buf)@ == old(buf)@,
            ({
                let b = old(buf)@;
                let ad = private_ad(request_protocol(b), request_expire(b));
                let n = request_nonce(b);
                let t = request_token(b);
                &&& r is Ok <==> b.len() == REQUEST_PACKET_LEN && request_valid(b, protocol, timestamp)
                    && exists|m: Seq<u8>| #[trigger] xchacha_seal(key@, n, ad, m) == t
                &&& r is Ok ==> r.unwrap().0 == request_expire(b)
                &&& b.len() == REQUEST_PACKET_LEN && request_expire(b) <= timestamp ==> r is Err
                &&& r is Ok ==> forall|m: Seq<u8>| #[trigger] xchacha_seal(key@, n, ad, m) == t ==> r.unwrap().1@
                    == m + t.subrange((PRIVATE_LEN - HMAC) as int, PRIVATE_LEN as int)
            }),
    {
        let r = match Self::read(buf, protocol, timestamp) {
            Ok(r) => r,
            Err(()) => return Err(()),
        };
        let token = match r.open_token(key) {
            Ok(t) => t,
            Err(()) => return Err(()),
        };
        Ok((r.expire(), token))
    }

    fn read(buf: &[u8], protocol: u64, timestamp: u64) -> (r: Result<Self, ()>)
        ensures
            r is Ok <==> buf@.len() == REQUEST_PACKET_LEN && request_valid(buf@, protocol, timestamp),
            r is Ok ==> r.unwrap()@ == buf@,
    {
        if buf.len() == MTU {
            let r = Self::from_bytes(buf);
            if !r.is_valid(protocol, timestamp) {
                return Err(());
            }
            Ok(r)
        } else {
            Err(())
        }
    }
}

// ---------------------------------------------------------------------------
// Compact framing
//
// ```txt
// [vvvvvvv0] [sequence 1-8 bytes] [ciphertext] [hmac] - payload packet
// [xxxxxx10] 14 bits sequence in 2 bytes (including prefix)
// [xxxxx100] 21 bits sequence in 3 bytes
// ...
// [10000000] 56 bits sequence in 8 bytes
// [00000000] 64 bits sequence in 9 bytes
// [00000001] [content ....] - request packet
// [0000xxx1] - reserved
// [0010sss1] [sequence 1-8 bytes] [ciphertext] [hmac] - challenge / response packets
// [0011sss1] [sequence 1-8 bytes] [ciphertext] [hmac] - disconnect / denied packets
//      sss   - size of the sequence number less one
// [01xxxxx1], [10xxxxx1], [11xxxxx1] - reserved
// ```

/// A packet in the compact framing, as `Packet::decode` splits it.
#[derive(Debug, PartialEq)]
pub enum Packet {
    Payload {
        /// The ciphertext.
        buf: Vec<u8>,
        /// Sequence number of this packet.
        seq: u64,
        /// The tag.
        tag: [u8; HMAC],
    },
    Handshake {
        /// The ciphertext.
        buf: Vec<u8>,
        /// Sequence number of this packet.
        seq: u64,
        /// The tag.
        tag: [u8; HMAC],
    },
    Close {
        /// The ciphertext.
        buf: Vec<u8>,
        /// Sequence number of this packet.
        seq: u64,
        /// The tag.
        tag: [u8; HMAC],
    },
    Request {
        /// Everything after the prefix byte.
        buf: Vec<u8>,
    },
    Invalid(Vec<u8>),
}

/// The smallest packet that is not invalid: prefix, one sequence byte and
/// the tag.
pub const MIN_PACKET: usize = 18;

/// The number of prefix and sequence bytes of a payload packet: one more
/// than the trailing zeros of its prefix byte.
pub open spec fn payload_z(p: u8) -> nat {
    if p % 2 != 0 {
        1
    } else if p % 4 != 0 {
        2
    } else if p % 8 != 0 {
        3
    } else if p % 16 != 0 {
        4
    } else if p % 32 != 0 {
        5
    } else if p % 64 != 0 {
        6
    } else if p % 128 != 0 {
        7
    } else if p != 0 {
        8
    } else {
        9
    }
}

/// The number of sequence bytes of a handshake or close packet.
pub open spec fn framed_seq_len(p: u8) -> nat {
    (((p & 0x0Eu8) >> 1u8) + 1) as nat
}

/// What `Packet::decode` makes of `b`: 0 invalid, 1 payload, 2 handshake,
/// 3 close, 4 request.
pub open spec fn frame_class(b: Seq<u8>) -> int {
    if b.len() < MIN_PACKET {
        0
    } else if b[0] % 2 == 0 {
        if b.len() >= HMAC + payload_z(b[0]) { 1 } else { 0 }
    } else if b[0] & 0xC0u8 != 0 {
        0
    } else if b[0] & 0x20u8 != 0 {
        if b.len() >= 1 + HMAC + framed_seq_len(b[0]) {
            if b[0] & 0x10u8 != 0 { 3 } else { 2 }
        } else {
            0
        }
    } else if b[0] == 1 {
        4
    } else {
        0
    }
}

/// The sequence of a payload packet: with a zero prefix, the eight bytes
/// after it; otherwise the first `z` bytes, little-endian, without their
/// low `z` bits.
pub open spec fn payload_seq(b: Seq<u8>) -> u64 {
    let z = payload_z(b[0]);
    if z == 9 {
        le_read(b.subrange(1, 9), 8)
    } else {
        le_read(b.subrange(0, z as int), z) >> (z as u64)
    }
}

/// The sequence of a handshake or close packet.
pub open spec fn framed_seq(b: Seq<u8>) -> u64 {
    let n = framed_seq_len(b[0]);
    le_read(b.subrange(1, 1 + n as int), n)
}

/// The nonce of a compact packet: the sequence little-endian, then four
/// zero bytes.
pub open spec fn compact_nonce(seq: u64) -> Seq<u8> {
    le_bytes(seq, 8) + seq![0u8, 0u8, 0u8, 0u8]
}

/// Ciphertext and tag of `m` in a compact packet.
pub open spec fn compact_seal(key: Seq<u8>, protocol: u64, prefix: u8, seq: u64, m: Seq<u8>) -> Seq<u8> {
    chacha_seal(key, compact_nonce(seq), packet_ad(protocol, prefix), m)
}

/// The prefix byte of a handshake packet: the number of sequence bytes,
/// less one, in the `sss` bits.
pub open spec fn handshake_prefix(seq: u64) -> u8 {
    (0x21u8 | (((seq_len(seq) - 1) as u8) << 1u8)) as u8
}

/// The prefix byte of a close packet, as `handshake_prefix`.
pub open spec fn close_prefix(seq: u64) -> u8 {
    (0x31u8 | (((seq_len(seq) - 1) as u8) << 1u8)) as u8
}

/// The number of bytes that the prefix and sequence of a payload packet
/// take: seven sequence bits per byte, two bytes at least; from 2^56 on,
/// a zero byte and the eight bytes of the sequence.
pub open spec fn payload_len(seq: u64) -> nat {
    if seq < 0x4000 {
        2
    } else if seq < 0x20_0000 {
        3
    } else if seq < 0x1000_0000 {
        4
    } else if seq < 0x8_0000_0000 {
        5
    } else if seq < 0x400_0000_0000 {
        6
    } else if seq < 0x2_0000_0000_0000 {
        7
    } else if seq < 0x100_0000_0000_0000 {
        8
    } else {
        9
    }
}

/// The word whose low bytes start a payload packet below 2^56: the
/// sequence doubled and marked with a one bit, above as many zero bits as
/// the header has bytes less one.
pub open spec fn payload_word(seq: u64) -> u64 {
    (((2 * seq + 1) as u64) << ((payload_len(seq) - 1) as u64)) as u64
}

/// The prefix and sequence bytes of a payload packet.
pub open spec fn payload_header(seq: u64) -> Seq<u8> {
    if payload_len(seq) == 9 {
        seq![0u8] + le_bytes(seq, 8)
    } else {
        le_bytes(payload_word(seq), payload_len(seq))
    }
}

/// What a framed write leaves in a buffer of length `len` that held `old`:
/// as much of `out` as fits, then the rest of `old`.
pub open spec fn written(out: Seq<u8>, old: Seq<u8>) -> Seq<u8> {
    let n = if out.len() <= old.len() { out.len() } else { old.len() };
    out.subrange(0, n as int) + old.subrange(n as int, old.len() as int)
}

/// The number of bytes, from one to eight, that a sequence needs.
pub fn sequence_bytes_required(sequence: u64) -> (r: u32)
    ensures
        r == seq_len(sequence),
{
    seq_len_of(sequence) as u32
}

fn compact_nonce_bytes(seq: u64) -> (r: [u8; NONCE])
    ensures
        r@ == compact_nonce(seq),
{
    let mut v: Vec<u8> = Vec::new();
    push_uint_le(&mut v, seq, 8);
    let z = [0u8; 4];
    push_all(&mut v, &z);
    assert(v@ =~= compact_nonce(seq));
    array_at(v.as_slice(), 0)
}

impl Packet {
    /// Writes a close packet with an empty message.
    pub fn encode_close(protocol: u64, buf: &mut [u8], seq: u64, k: &[u8; KEY]) -> (r: Result<usize, IoError>)
        ensures
            ({
                let header = seq![close_prefix(seq)] + le_bytes(seq, seq_len(seq));
                let out = header + compact_seal(k@, protocol, close_prefix(seq), seq, seq![]);
                &&& final(buf)@ == written(out, old(buf)@)
                &&& r is Ok <==> old(buf)@.len() >= out.len()
                &&& r is Ok ==> r.unwrap() == out.len()
                &&& r is Err ==> r == Err::<usize, IoError>(IoError::WriteZero)
            }),
    {
        let mut empty: [u8; 0] = [];
        assert(empty@ =~= seq![]);
        Self::encode_close_custom(protocol, buf, seq, k, &mut empty)
    }

    /// Writes a handshake packet: prefix, sequence, `m` sealed in place and
    /// the tag. As much as fits is written; fails with `WriteZero` when not
    /// all of it does. `m` is sealed once the prefix and sequence fit.
    pub fn encode_handshake(protocol: u64, buf: &mut [u8], seq: u64, k: &[u8; KEY], m: &mut [u8]) -> (r: Result<usize, IoError>)
        requires
            old(m)@.len() <= MAX_MESSAGE,
        ensures
            ({
                let header = seq![handshake_prefix(seq)] + le_bytes(seq, seq_len(seq));
                let out = header + compact_seal(k@, protocol, handshake_prefix(seq), seq, old(m)@);
                &&& final(buf)@ == written(out, old(buf)@)
                &&& r is Ok <==> old(buf)@.len() >= out.len()
                &&& r is Ok ==> r.unwrap() == out.len()
                &&& r is Err ==> r == Err::<usize, IoError>(IoError::WriteZero)
                &&& old(buf)@.len() >= header.len() ==> final(m)@ == out.subrange(header.len() as int, (header.len() + old(m)@.len()) as int)
                &&& old(buf)@.len() >= header.len() ==> out.len() == header.len() + old(m)@.len() + HMAC
                &&& old(buf)@.len() < header.len() ==> final(m)@ == old(m)@
            }),
    {
        let sss = sequence_bytes_required(seq);
        proof { lemma_seq_len(seq); }
        let prefix: u8 = 0b0010_0001 | (((sss - 1) as u8) << 1);
        let mut header: Vec<u8> = Vec::new();
        header.push(prefix);
        push_uint_le(&mut header, seq, sss as usize);
        Self::write_framed(protocol, buf, seq, k, m, prefix, &header)
    }

    /// Writes a close packet with message `m`; see `encode_handshake`.
    pub fn encode_close_custom(protocol: u64, buf: &mut [u8], seq: u64, k: &[u8; KEY], m: &mut [u8]) -> (r: Result<usize, IoError>)
        requires
            old(m)@.len() <= MAX_MESSAGE,
        ensures
            ({
                let header = seq![close_prefix(seq)] + le_bytes(seq, seq_len(seq));
                let out = header + compact_seal(k@, protocol, close_prefix(seq), seq, old(m)@);
                &&& final(buf)@ == written(out, old(buf)@)
                &&& r is Ok <==> old(buf)@.len() >= out.len()
                &&& r is Ok ==> r.unwrap() == out.len()
                &&& r is Err ==> r == Err::<usize, IoError>(IoError::WriteZero)
                &&& old(buf)@.len() >= header.len() ==> final(m)@ == out.subrange(header.len() as int, (header.len() + old(m)@.len()) as int)
                &&& old(buf)@.len() >= header.len() ==> out.len() == header.len() + old(m)@.len() + HMAC
                &&& old(buf)@.len() < header.len() ==> final(m)@ == old(m)@
            }),
    {
        let sss = sequence_bytes_required(seq);
        proof { lemma_seq_len(seq); }
        let prefix: u8 = 0b0011_0001 | (((sss - 1) as u8) << 1);
        let mut header: Vec<u8> = Vec::new();
        header.push(prefix);
        push_uint_le(&mut header, seq, sss as usize);
        Self::write_framed(protocol, buf, seq, k, m, prefix, &header)
    }

    /// Writes a keep-alive: a payload packet with an empty message.
    pub fn encode_keep_alive(protocol: u64, buf: &mut [u8], seq: u64, k: &[u8; KEY]) -> (r: Result<usize, IoError>)
        ensures
            ({
                let out = payload_header(seq) + compact_seal(k@, protocol, 0, seq, seq![]);
                &&& final(buf)@ == written(out, old(buf)@)
                &&& r is Ok <==> old(buf)@.len() >= out.len()
                &&& r is Ok ==> r.unwrap() == out.len()
                &&& r is Err ==> r == Err::<usize, IoError>(IoError::WriteZero)
            }),
    {
        let mut empty: [u8; 0] = [];
        assert(empty@ =~= seq![]);
        Self::encode_payload(protocol, buf, seq, k, &mut empty)
    }

    /// Writes a payload packet: the payload header of `seq`, `m` sealed in
    /// place (with a zero prefix in the associated data) and the tag; see
    /// `encode_handshake` for a buffer that is too short.
    pub fn encode_payload(protocol: u64, buf: &mut [u8], seq: u64, k: &[u8; KEY], m: &mut [u8]) -> (r: Result<usize, IoError>)
        requires
            old(m)@.len() <= MAX_MESSAGE,
        ensures
            ({
                let header = payload_header(seq);
                let out = header + compact_seal(k@, protocol, 0, seq, old(m)@);
                &&& final(buf)@ == written(out, old(buf)@)
                &&& r is Ok <==> old(buf)@.len() >= out.len()
                &&& r is Ok ==> r.unwrap() == out.len()
                &&& r is Err ==> r == Err::<usize, IoError>(IoError::WriteZero)
                &&& old(buf)@.len() >= header.len() ==> final(m)@ == out.subrange(header.len() as int, (header.len() + old(m)@.len()) as int)
                &&& old(buf)@.len() >= header.len() ==> out.len() == header.len() + old(m)@.len() + HMAC
                &&& old(buf)@.len() < header.len() ==> final(m)@ == old(m)@
            }),
    {
        let bytes: usize = if seq < 0x4000 {
            2
        } else if seq < 0x20_0000 {
            3
        } else if seq < 0x1000_0000 {
            4
        } else if seq < 0x8_0000_0000 {
            5
        } else if seq < 0x400_0000_0000 {
            6
        } else if seq < 0x2_0000_0000_0000 {
            7
        } else if seq < 0x100_0000_0000_0000 {
            8
        } else {
            9
        };
        let mut header: Vec<u8> = Vec::new();
        if bytes == 9 {
            header.push(0);
            push_uint_le(&mut header, seq, 8);
        } else {
            let x: u64 = (2 * seq + 1) << ((bytes - 1) as u64);
            push_uint_le(&mut header, x, bytes);
        }
        proof {
            assert(header@ =~= payload_header(seq));
        }
        Self::write_framed(protocol, buf, seq, k, m, 0, &header)
    }

    fn write_framed(protocol: u64, buf: &mut [u8], seq: u64, k: &[u8; KEY], m: &mut [u8], prefix: u8, header: &Vec<u8>) -> (r: Result<usize, IoError>)
        requires
            header@.len() <= 9,
            old(m)@.len() <= MAX_MESSAGE,
        ensures
            ({
                let out = header@ + compact_seal(k@, protocol, prefix, seq, old(m)@);
                &&& final(buf)@ == written(out, old(buf)@)
                &&& r is Ok <==> old(buf)@.len() >= out.len()
                &&& r is Ok ==> r.unwrap() == out.len()
                &&& r is Err ==> r == Err::<usize, IoError>(IoError::WriteZero)
                &&& old(buf)@.len() >= header@.len() ==> final(m)@ == out.subrange(header@.len() as int, (header@.len() + old(m)@.len()) as int)
                &&& old(buf)@.len() >= header@.len() ==> out.len() == header@.len() + old(m)@.len() + HMAC
                &&& old(buf)@.len() < header@.len() ==> final(m)@ == old(m)@
            }),
    {
        let ghost out = header@ + compact_seal(k@, protocol, prefix, seq, old(m)@);
        if buf.len() < header.len() {
            let n = copy_prefix(buf, header.as_slice());
            assert(out.subrange(0, n as int) =~= header@.subrange(0, n as int));
            return Err(IoError::WriteZero);
        }
        let tag = Self::seal(protocol, m, seq, prefix, k);
        let mut v: Vec<u8> = Vec::new();
        push_all(&mut v, header.as_slice());
        push_all(&mut v, m);
        push_all(&mut v, &tag);
        assert(v@ =~= out);
        assert(final(m)@ =~= out.subrange(header@.len() as int, (header@.len() + old(m)@.len()) as int));
        let n = copy_prefix(buf, v.as_slice());
        if n < v.len() {
            Err(IoError::WriteZero)
        } else {
            Ok(v.len())
        }
    }

    /// Splits a packet of the compact framing; see `frame_class` for which
    /// variant comes out.
    pub fn decode(buf: &[u8]) -> (r: Self)
        ensures
            ({
                let b = buf@;
                let len = b.len() as int;
                match r {
                    Packet::Invalid(v) => frame_class(b) == 0 && v@ == b,
                    Packet::Payload { buf: v, seq, tag } => {
                        &&& frame_class(b) == 1
                        &&& seq == payload_seq(b)
                        &&& v@ == b.subrange(payload_z(b[0]) as int, len - HMAC)
                        &&& tag@ == b.subrange(len - HMAC, len)
                    },
                    Packet::Handshake { buf: v, seq, tag } => {
                        &&& frame_class(b) == 2
                        &&& seq == framed_seq(b)
                        &&& v@ == b.subrange(1 + framed_seq_len(b[0]) as int, len - HMAC)
                        &&& tag@ == b.subrange(len - HMAC, len)
                    },
                    Packet::Close { buf: v, seq, tag } => {
                        &&& frame_class(b) == 3
                        &&& seq == framed_seq(b)
                        &&& v@ == b.subrange(1 + framed_seq_len(b[0]) as int, len - HMAC)
                        &&& tag@ == b.subrange(len - HMAC, len)
                    },
                    Packet::Request { buf: v } => frame_class(b) == 4 && v@ == b.subrange(1, len),
                }
            }),
    {
        let len = buf.len();
        if len < 2 + HMAC {
            return Packet::Invalid(copy_range(buf, 0, len));
        }
        let prefix = buf[0];
        if prefix % 2 == 0 {
            let z: usize = if prefix % 4 != 0 {
                2
            } else if prefix % 8 != 0 {
                3
            } else if prefix % 16 != 0 {
                4
            } else if prefix % 32 != 0 {
                5
            } else if prefix % 64 != 0 {
                6
            } else if prefix % 128 != 0 {
                7
            } else if prefix != 0 {
                8
            } else {
                9
            };
            assert(z == payload_z(prefix));
            if len >= HMAC + z {
                let seq: u64 = if z == 9 {
                    read_uint_le(buf, 1, 8)
                } else {
                    read_uint_le(buf, 0, z) >> (z as u64)
                };
                let body = copy_range(buf, z, len - HMAC);
                let tag: [u8; HMAC] = array_at(buf, len - HMAC);
                Packet::Payload { seq, buf: body, tag }
            } else {
                Packet::Invalid(copy_range(buf, 0, len))
            }
        } else if prefix & 0b1100_0000 != 0 {
            Packet::Invalid(copy_range(buf, 0, len))
        } else if prefix & 0b0010_0000 != 0 {
            let typ = prefix & 0b0001_0000 != 0;
            let sss = (prefix & 0b0000_1110) >> 1;
            assert((prefix & 0x0Eu8) >> 1u8 <= 7) by (bit_vector);
            let n: usize = (sss + 1) as usize;
            assert(n == framed_seq_len(prefix));
            if len >= 1 + HMAC + n {
                let seq = read_uint_le(buf, 1, n);
                let body = copy_range(buf, 1 + n, len - HMAC);
                let tag: [u8; HMAC] = array_at(buf, len - HMAC);
                if typ {
                    Packet::Close { seq, buf: body, tag }
                } else {
                    Packet::Handshake { seq, buf: body, tag }
                }
            } else {
                Packet::Invalid(copy_range(buf, 0, len))
            }
        } else if prefix == 1 {
            Packet::Request { buf: copy_range(buf, 1, len) }
        } else {
            Packet::Invalid(copy_range(buf, 0, len))
        }
    }

    /// Seals `m` in place for a compact packet with this prefix and returns
    /// the tag.
    pub fn seal(protocol: u64, m: &mut [u8], seq: u64, prefix: u8, k: &[u8; KEY]) -> (r: [u8; HMAC])
        requires
            old(m)@.len() <= MAX_MESSAGE,
        ensures
            final(m)@.len() == old(m)@.len(),
            final(m)@ + r@ == compact_seal(k@, protocol, prefix, seq, old(m)@),
    {
        let n = compact_nonce_bytes(seq);
        let ad = packet_ad_bytes(protocol, prefix);
        seal_chacha20poly1305(k, &n, ad.as_slice(), m)
    }

    /// Opens `c` with tag `t` in place; fails, leaving `c`, when they do not
    /// authenticate.
    pub fn open(protocol: u64, c: &mut [u8], seq: u64, prefix: u8, t: &[u8; HMAC], k: &[u8; KEY]) -> (r: Result<(), ()>)
        requires
            old(c)@.len() <= MAX_MESSAGE,
        ensures
            final(c)@.len() == old(c)@.len(),
            r is Ok <==> exists|m: Seq<u8>| #[trigger] compact_seal(k@, protocol, prefix, seq, m) == old(c)@ + t@,
            r is Ok ==> forall|m: Seq<u8>| #[trigger] compact_seal(k@, protocol, prefix, seq, m) == old(c)@ + t@ ==> final(c)@ == m,
            r is Err ==> final(c)@ == old(c)@,
    {
        let n = compact_nonce_bytes(seq);
        let ad = packet_ad_bytes(protocol, prefix);
        let ok = open_chacha20poly1305(k, &n, ad.as_slice(), c, t);
        proof {
            if ok {
                let m = choose|m: Seq<u8>| #[trigger] chacha_seal(k@, n@, ad@, m) == old(c)@ + t@;
                assert(compact_seal(k@, protocol, prefix, seq, m) == old(c)@ + t@);
            } else {
                assert forall|m: Seq<u8>| #[trigger] compact_seal(k@, protocol, prefix, seq, m) != old(c)@ + t@ by {
                    assert(chacha_seal(k@, n@, ad@, m) == compact_seal(k@, protocol, prefix, seq, m));
                }
            }
        }
        if ok {
            Ok(())
        } else {
            Err(())
        }
    }
}

/// A header packet of one of the four kinds, with a sequence below 2^30,
/// opens under the same key and protocol id to the message sealed in it.
pub proof fn law_sealed_packet_opens(key: Seq<u8>, protocol: u64, kind: u8, seq: u32, m: Seq<u8>)
    requires
        kind <= 3,
        seq < 0x4000_0000,
    ensures
        opens_to(key, protocol, sealed_packet(key, protocol, kind, seq, m), m),
{
    let b = sealed_packet(key, protocol, kind, seq, m);
    let h = header_bytes(kind, seq);
    law_header_roundtrip(kind, seq);
    assert(b[0] == h[0] && b[1] == h[1] && b[2] == h[2] && b[3] == h[3]);
    assert(word_of(b) == word_of(h));
    assert(b.subrange(HEADER as int, b.len() as int) =~= packet_seal(key, protocol, kind, seq, m));
}

/// A request packet made from a protocol id, an expire timestamp after
/// `timestamp`, a nonce and a sealed token is accepted by a server of that
/// protocol at `timestamp`, and gives back each of them.
pub proof fn law_request_roundtrip(protocol: u64, expire: u64, nonce: Seq<u8>, token: Seq<u8>, timestamp: u64)
    requires
        nonce.len() == XNONCE,
        token.len() == PRIVATE_LEN,
        expire > timestamp,
    ensures
        ({
            let b = request_bytes(protocol, expire, nonce, token);
            &&& b.len() == REQUEST_PACKET_LEN
            &&& request_valid(b, protocol, timestamp)
            &&& request_protocol(b) == protocol
            &&& request_expire(b) == expire
            &&& request_nonce(b) == nonce
            &&& request_token(b) == token
        }),
{
    let b = request_bytes(protocol, expire, nonce, token);
    assert(b.subrange(1, 5) =~= version_bytes());
    assert(b.subrange(5, 13) =~= le_bytes(protocol, 8));
    assert(b.subrange(13, 21) =~= le_bytes(expire, 8));
    lemma_le64_roundtrip(protocol);
    lemma_le64_roundtrip(expire);
    assert(request_nonce(b) =~= nonce);
    assert(request_token(b) =~= token);
}

/// A payload packet written for any sequence decodes as a payload packet
/// of that sequence, with as many header bytes as the encoder wrote, and
/// its ciphertext and tag are what sealing gave.
pub proof fn law_payload_roundtrip(key: Seq<u8>, protocol: u64, seq: u64, m: Seq<u8>, out: Seq<u8>)
    requires
        out == payload_header(seq) + compact_seal(key, protocol, 0, seq, m),
        compact_seal(key, protocol, 0, seq, m).len() == m.len() + HMAC,
    ensures
        frame_class(out) == 1,
        payload_z(out[0]) == payload_len(seq),
        payload_seq(out) == seq,
        out.subrange(payload_len(seq) as int, out.len() as int) == compact_seal(key, protocol, 0, seq, m),
{
    let n = payload_len(seq);
    let h = payload_header(seq);
    assert(out.subrange(0, n as int) =~= h);
    assert(out.subrange(n as int, out.len() as int) =~= compact_seal(key, protocol, 0, seq, m));
    if n == 9 {
        assert(out[0] == 0);
        assert(out.subrange(1, 9) =~= le_bytes(seq, 8));
        lemma_le_read_bytes(seq, 8);
    } else {
        let k = (n - 1) as u64;
        let w = payload_word(seq);
        assert(w == ((2 * seq + 1) as u64) << k);
        assert({
            let w = ((2 * seq + 1) as u64) << k;
            let b = ((w >> 0u64) & 0xff) as u8;
            &&& b % 2 == 0
            &&& (k >= 2 ==> b % 4 == 0) && (k == 1 ==> b % 4 != 0)
            &&& (k >= 3 ==> b % 8 == 0) && (k == 2 ==> b % 8 != 0)
            &&& (k >= 4 ==> b % 16 == 0) && (k == 3 ==> b % 16 != 0)
            &&& (k >= 5 ==> b % 32 == 0) && (k == 4 ==> b % 32 != 0)
            &&& (k >= 6 ==> b % 64 == 0) && (k == 5 ==> b % 64 != 0)
            &&& (k >= 7 ==> b % 128 == 0) && (k == 6 ==> b % 128 != 0)
            &&& (k == 7 ==> b != 0)
            &&& (k < 7 ==> (w & (((1u64 << (8 * (k + 1))) - 1) as u64)) >> (k + 1) == seq)
            &&& (k == 7 ==> w >> 8u64 == seq)
        }) by (bit_vector)
            requires
                1 <= k <= 7,
                k == 1 ==> seq < 0x4000,
                k == 2 ==> seq < 0x20_0000,
                k == 3 ==> seq < 0x1000_0000,
                k == 4 ==> seq < 0x8_0000_0000,
                k == 5 ==> seq < 0x400_0000_0000,
                k == 6 ==> seq < 0x2_0000_0000_0000,
                k == 7 ==> seq < 0x100_0000_0000_0000,
        ;
        assert(out[0] == h[0]);
        assert(payload_z(out[0]) == n);
        lemma_le_read_bytes(w, n);
    }
}

/// A handshake or close packet that the encoder writes decodes as a
/// packet of the same kind and sequence, whose ciphertext and tag are what
/// sealing gave.
pub proof fn law_framed_roundtrip(key: Seq<u8>, protocol: u64, seq: u64, m: Seq<u8>, close: bool, out: Seq<u8>)
    requires
        out == seq![if close { close_prefix(seq) } else { handshake_prefix(seq) }] + le_bytes(seq, seq_len(seq))
            + compact_seal(key, protocol, if close { close_prefix(seq) } else { handshake_prefix(seq) }, seq, m),
        compact_seal(key, protocol, if close { close_prefix(seq) } else { handshake_prefix(seq) }, seq, m).len()
            == m.len() + HMAC,
    ensures
        frame_class(out) == if close { 3int } else { 2int },
        framed_seq_len(out[0]) == seq_len(seq),
        framed_seq(out) == seq,
        out.subrange(1 + seq_len(seq) as int, out.len() as int) == compact_seal(
            key,
            protocol,
            out[0],
            seq,
            m,
        ),
{
    let n = seq_len(seq);
    lemma_seq_len(seq);
    let k = (n - 1) as u8;
    assert({
        let h = (0x21u8 | (k << 1u8)) as u8;
        let c = (0x31u8 | (k << 1u8)) as u8;
        &&& h % 2 == 1 && h & 0xC0u8 == 0 && h & 0x20u8 != 0 && h & 0x10u8 == 0 && (h & 0x0Eu8) >> 1u8 == k
        &&& c % 2 == 1 && c & 0xC0u8 == 0 && c & 0x20u8 != 0 && c & 0x10u8 != 0 && (c & 0x0Eu8) >> 1u8 == k
    }) by (bit_vector)
        requires k <= 7;
    assert(out[0] == if close { (0x31u8 | (k << 1u8)) as u8 } else { (0x21u8 | (k << 1u8)) as u8 });
    assert(out.subrange(1, 1 + n as int) =~= le_bytes(seq, n));
    lemma_le_read_bytes(seq, n);
    assert(out.subrange(1 + n as int, out.len() as int) =~= compact_seal(key, protocol, out[0], seq, m));
}

} // verus!
