//! What a server keeps about clients that are connecting: the keys of each
//! pending address, and which private tokens were already used, from
//! where, until when.

use vstd::prelude::*;
use crate::addr::Addr;
use crate::assoc::{AddrMap, AssocMap};
use crate::bytes::{le_bytes, le_read, le32, u64_from_le_array, array_at};
use crate::crypto::{chacha_seal, nonce_of, KEY, HMAC};
use crate::protocol::{
    Packet, RequestPacket, ChallengePacket, compact_seal, handshake_prefix, written, request_valid,
    request_protocol, request_expire, request_nonce, request_token, response_token, response_fails, sealed_packet,
    new_challenge_packet, CHALLENGE, CHALLENGE_PACKET_LEN,
};
use crate::token::{ChallengeToken, PrivateToken, CHALLENGE_LEN, CHALLENGE_PACKET, challenge_sealed, zeros, private_ad};
use crate::crypto::xchacha_seal;
use crate::bytes::seq_len;
use crate::utils::{keygen, time_secs};

verus! {

/// The keys and limits of one connecting client.
#[derive(Clone, Copy)]
pub struct KeyPair {
    /// When the client's connect token expires.
    pub expire: u64,
    /// Seconds without packets after which the connection times out.
    pub timeout: u32,
    pub send_key: [u8; KEY],
    pub recv_key: [u8; KEY],
}

impl KeyPair {
    fn new(expire: u64, token: &PrivateToken) -> (r: Self)
        ensures
            r.expire == expire,
            r.timeout == le32(token@[8], token@[9], token@[10], token@[11]),
            r.send_key@ == token@.subrange(80, 112),
            r.recv_key@ == token@.subrange(48, 80),
    {
        Self { recv_key: *token.client_key(), send_key: *token.server_key(), timeout: token.timeout(), expire }
    }

    pub fn send_key(&self) -> (r: &[u8; KEY])
        ensures
            *r == self.send_key,
    {
        &self.send_key
    }

    pub fn recv_key(&self) -> (r: &[u8; KEY])
        ensures
            *r == self.recv_key,
    {
        &self.recv_key
    }

    pub fn timeout_secs(&self) -> (r: u32)
        ensures
            r == self.timeout,
    {
        self.timeout
    }

    /// The timeout in seconds.
    pub fn timeout(&self) -> (r: u64)
        ensures
            r == self.timeout,
    {
        self.timeout as u64
    }
}

/// The 128-bit key under which a token's tag is remembered: its bytes,
/// little-endian.
pub open spec fn tag_fold(s: Seq<u8>, i: int) -> u128
    decreases 16 - i,
{
    if i >= 16 {
        0
    } else {
        ((tag_fold(s, i + 1) << 8u128) | (s[i] as u128)) as u128
    }
}

fn tag_key(t: &[u8; HMAC]) -> (r: u128)
    ensures
        r == tag_fold(t@, 0),
{
    let mut v: u128 = 0;
    let mut i: usize = 16;
    while i > 0
        invariant
            i <= 16,
            v == tag_fold(t@, i as int),
        decreases i,
    {
        i = i - 1;
        v = (v << 8) | (t[i] as u128);
    }
    v
}

/// A server's state for connecting clients.
pub struct Incoming {
    protocol: u64,
    timestamp: u64,
    private: [u8; KEY],
    key: [u8; KEY],
    sequence: u64,
    pending: AddrMap<KeyPair>,
    token_history: AssocMap<u128, (Addr, u64)>,
}

impl Incoming {
    pub closed spec fn protocol(&self) -> u64 {
        self.protocol
    }

    /// The time, in seconds, of the last update.
    pub closed spec fn timestamp(&self) -> u64 {
        self.timestamp
    }

    /// The key that private tokens are sealed under.
    pub closed spec fn private_key(&self) -> Seq<u8> {
        self.private@
    }

    /// The key that challenge tokens are sealed under.
    pub closed spec fn challenge_key(&self) -> Seq<u8> {
        self.key@
    }

    /// The sequence of the next challenge token.
    pub closed spec fn challenge_sequence(&self) -> u64 {
        self.sequence
    }

    /// The keys of each connecting address.
    pub closed spec fn pending(&self) -> Map<Addr, KeyPair> {
        self.pending@
    }

    /// For the tag of each used private token: where it came from and
    /// when it expires.
    pub closed spec fn history(&self) -> Map<u128, (Addr, u64)> {
        self.token_history@
    }

    /// State for a server of `protocol` whose private tokens are sealed
    /// under `private`, at time `timestamp`, sealing challenge tokens
    /// under `key`.
    pub fn with_key(protocol: u64, private: [u8; KEY], key: [u8; KEY], timestamp: u64) -> (r: Self)
        ensures
            r.protocol() == protocol,
            r.private_key() == private@,
            r.challenge_key() == key@,
            r.timestamp() == timestamp,
            r.challenge_sequence() == 0,
            r.pending() == Map::<Addr, KeyPair>::empty(),
            r.history() == Map::<u128, (Addr, u64)>::empty(),
    {
        Self { protocol, private, key, sequence: 0, timestamp, pending: AddrMap::new(), token_history: AssocMap::new() }
    }

    /// State for a server of `protocol`, with a fresh challenge key, at the
    /// current time; `None` when the system clock cannot be read.
    pub fn new(protocol: u64, private: [u8; KEY]) -> (r: Option<Self>)
        ensures
            r is Some ==> {
                let i = r.unwrap();
                &&& i.protocol() == protocol
                &&& i.private_key() == private@
                &&& i.challenge_sequence() == 0
                &&& i.pending() == Map::<Addr, KeyPair>::empty()
                &&& i.history() == Map::<u128, (Addr, u64)>::empty()
            },
    {
        match time_secs() {
            Some(now) => Some(Self::with_key(protocol, private, keygen(), now)),
            None => None,
        }
    }

    /// Checks a request packet against the protocol id and the time of the
    /// last update, and opens its private token.
    pub fn open_request(&self, r: &RequestPacket) -> (res: Result<(u64, PrivateToken), ()>)
        ensures
            ({
                let b = r@;
                let ad = private_ad(request_protocol(b), request_expire(b));
                let n = request_nonce(b);
                let t = request_token(b);
                &&& res is Ok <==> request_valid(b, self.protocol(), self.timestamp())
                    && exists|m: Seq<u8>| #[trigger] xchacha_seal(self.private_key(), n, ad, m) == t
                &&& res is Ok ==> res.unwrap().0 == request_expire(b)
                &&& request_expire(b) <= self.timestamp() ==> res is Err
                &&& res is Ok ==> forall|m: Seq<u8>| #[trigger] xchacha_seal(self.private_key(), n, ad, m) == t
                    ==> res.unwrap().1@ == m + t.subrange((crate::token::PRIVATE_LEN - HMAC) as int, crate::token::PRIVATE_LEN as int)
            }),
    {
        if !r.is_valid(self.protocol, self.timestamp) {
            return Err(());
        }
        proof { r.lemma_len(); }
        let ghost b = r@;
        let ghost ad = private_ad(request_protocol(b), request_expire(b));
        let ghost n = request_nonce(b);
        let ghost t = request_token(b);
        let opened = r.open_token(&self.private);
        assert(self.private@ == self.private_key());
        assert(opened is Ok <==> exists|m: Seq<u8>| #[trigger] xchacha_seal(self.private_key(), n, ad, m) == t);
        let token = match opened {
            Ok(t) => t,
            Err(()) => return Err(()),
        };
        let e = r.expire();
        assert(forall|m: Seq<u8>| #[trigger] xchacha_seal(self.private_key(), n, ad, m) == t
                    ==> token@ == m + t.subrange((crate::token::PRIVATE_LEN - HMAC) as int, crate::token::PRIVATE_LEN as int));
        Ok((e, token))
    }

    /// Opens a response from `addr`: its body under the pending receive
    /// key of `addr`, then the challenge token in it under the challenge
    /// key. Gives the pending send key and the token.
    pub fn open_response(&self, buf: &mut [u8; CHALLENGE_PACKET], addr: &Addr, seq: u64, prefix: u8, tag: &[u8; HMAC]) -> (r: Result<([u8; KEY], ChallengeToken), ()>)
        ensures
            !self.pending().contains_key(*addr) ==> r is Err && final(buf)@ == old(buf)@,
            r is Ok ==> self.pending().contains_key(*addr) && r.unwrap().0 == self.pending()[*addr].send_key,
            r is Ok ==> exists|m: Seq<u8>| #[trigger] compact_seal(self.pending()[*addr].recv_key@, self.protocol(), prefix, seq, m) == old(buf)@ + tag@,
            r is Ok ==> forall|m: Seq<u8>| #[trigger] compact_seal(self.pending()[*addr].recv_key@, self.protocol(), prefix, seq, m) == old(buf)@ + tag@ ==> {
                let s = le_read(m.subrange(0, 8), 8);
                let sealed = m.subrange(8, 8 + CHALLENGE_LEN);
                &&& final(buf)@ == m
                &&& forall|t: Seq<u8>| #[trigger] chacha_seal(self.challenge_key(), nonce_of(s), seq![], t) == sealed
                    ==> r.unwrap().1@ == t + sealed.subrange((CHALLENGE_LEN - HMAC) as int, CHALLENGE_LEN as int)
            },
            r is Err && self.pending().contains_key(*addr) ==> !(exists|m: Seq<u8>| #[trigger] compact_seal(self.pending()[*addr].recv_key@, self.protocol(), prefix, seq, m) == old(buf)@ + tag@)
                || exists|m: Seq<u8>| #![trigger compact_seal(self.pending()[*addr].recv_key@, self.protocol(), prefix, seq, m)]
                    compact_seal(self.pending()[*addr].recv_key@, self.protocol(), prefix, seq, m) == old(buf)@ + tag@
                    && !exists|t: Seq<u8>| #[trigger] chacha_seal(self.challenge_key(), nonce_of(le_read(m.subrange(0, 8), 8)), seq![], t) == m.subrange(8, 8 + CHALLENGE_LEN),
    {
        let pending = match self.pending.get(addr) {
            Some(p) => *p,
            None => return Err(()),
        };
        let ghost k = pending.recv_key@;
        let ghost b0 = buf@;
        match Packet::open(self.protocol, buf, seq, prefix, tag, &pending.recv_key) {
            Ok(()) => {},
            Err(()) => {
                proof {
                    assert(self.pending()[*addr].recv_key@ == k);
                }
                return Err(());
            },
        }
        proof {
            assert(self.pending()[*addr].recv_key@ == k);
            let m0 = choose|m: Seq<u8>| #[trigger] compact_seal(k, self.protocol, prefix, seq, m) == b0 + tag@;
            assert(compact_seal(self.pending()[*addr].recv_key@, self.protocol(), prefix, seq, m0) == old(buf)@ + tag@);
            assert(buf@ == m0);
        }
        let s: [u8; 8] = array_at(buf, 0);
        let s = u64_from_le_array(s);
        let cc: [u8; CHALLENGE_LEN] = array_at(buf, 8);
        proof {
            assert(buf@.subrange(0, 8) =~= buf@.subrange(0, 8));
        }
        let token = match ChallengeToken::decrypt(cc, s, &self.key) {
            Ok(t) => t,
            Err(()) => return Err(()),
        };
        Ok((pending.send_key, token))
    }

    /// Writes the challenge packet for a client that sent `token`: a
    /// handshake packet under the token's server key carrying the next
    /// challenge sequence and the challenge token (client id and user
    /// data) sealed under the challenge key. Gives its length.
    pub fn gen_challenge(&mut self, seq: u64, buf: &mut [u8], token: &PrivateToken) -> (r: usize)
        requires
            old(buf)@.len() >= 1 + seq_len(seq) + CHALLENGE_PACKET + HMAC,
        ensures
            old(self).challenge_sequence() < u64::MAX ==> final(self).challenge_sequence() == old(self).challenge_sequence() + 1,
            old(self).challenge_sequence() == u64::MAX ==> final(self).challenge_sequence() == 0,
            final(self).pending() == old(self).pending(),
            final(self).history() == old(self).history(),
            final(self).protocol() == old(self).protocol(),
            final(self).timestamp() == old(self).timestamp(),
            final(self).challenge_key() == old(self).challenge_key(),
            final(self).private_key() == old(self).private_key(),
            r == 1 + seq_len(seq) + CHALLENGE_PACKET + HMAC,
            ({
                let cseq = old(self).challenge_sequence();
                let ct = le_bytes(le_read(token@.subrange(0, 8), 8), 8) + zeros(20) + token@.subrange(752, 1008) + zeros(HMAC as nat);
                let m = le_bytes(cseq, 8) + challenge_sealed(ct, cseq, old(self).challenge_key());
                let out = seq![handshake_prefix(seq)] + le_bytes(seq, seq_len(seq)) + compact_seal(
                    token@.subrange(80, 112),
                    old(self).protocol(),
                    handshake_prefix(seq),
                    seq,
                    m,
                );
                final(buf)@ == written(out, old(buf)@)
            }),
    {
        let client_id = token.client_id();
        let key = token.server_key();
        let cseq = self.sequence;
        self.sequence = self.sequence.wrapping_add(1);
        let ct = ChallengeToken::new(client_id, *token.user());
        let mut m = ChallengePacket::write(cseq, &self.key, ct);
        proof { crate::bytes::lemma_le64_roundtrip(client_id); }
        match Packet::encode_handshake(self.protocol, buf, seq, key, &mut m) {
            Ok(n) => n,
            Err(_) => 0,
        }
    }

    /// Forgets the pending keys of `addr` and gives them.
    pub fn remove(&mut self, addr: &Addr) -> (r: Option<KeyPair>)
        ensures
            final(self).pending() == old(self).pending().remove(*addr),
            r is Some <==> old(self).pending().contains_key(*addr),
            r is Some ==> r.unwrap() == old(self).pending()[*addr],
            final(self).history() == old(self).history(),
            final(self).protocol() == old(self).protocol(),
            final(self).timestamp() == old(self).timestamp(),
            final(self).challenge_key() == old(self).challenge_key(),
            final(self).private_key() == old(self).private_key(),
            final(self).challenge_sequence() == old(self).challenge_sequence(),
    {
        self.pending.remove(addr)
    }

    /// Remembers the keys from `token` for `addr`, unless `addr` has some.
    pub fn insert(&mut self, addr: Addr, expire: u64, token: &PrivateToken)
        ensures
            old(self).pending().contains_key(addr) ==> final(self).pending() == old(self).pending(),
            !old(self).pending().contains_key(addr) ==> {
                &&& final(self).pending().dom() == old(self).pending().dom().insert(addr)
                &&& forall|b: Addr| #[trigger] old(self).pending().contains_key(b) ==> final(self).pending()[b] == old(self).pending()[b]
                &&& final(self).pending()[addr].expire == expire
                &&& final(self).pending()[addr].timeout == le32(token@[8], token@[9], token@[10], token@[11])
                &&& final(self).pending()[addr].send_key@ == token@.subrange(80, 112)
                &&& final(self).pending()[addr].recv_key@ == token@.subrange(48, 80)
            },
            final(self).history() == old(self).history(),
            final(self).protocol() == old(self).protocol(),
            final(self).timestamp() == old(self).timestamp(),
            final(self).challenge_key() == old(self).challenge_key(),
            final(self).private_key() == old(self).private_key(),
            final(self).challenge_sequence() == old(self).challenge_sequence(),
    {
        if !self.pending.contains(&addr) {
            let kp = KeyPair::new(expire, token);
            self.pending.insert(addr, kp);
        }
    }

    /// Records that the token with tag `hmac` came from `addr` and expires
    /// at `expire`, unless its tag is known; true when the tag was unknown
    /// or came from `addr` before.
    pub fn add_token_history(&mut self, hmac: [u8; HMAC], addr: Addr, expire: u64) -> (r: bool)
        ensures
            ({
                let k = tag_fold(hmac@, 0);
                &&& old(self).history().contains_key(k) ==> r == (old(self).history()[k].0 == addr) && final(self).history()
                    == old(self).history()
                &&& !old(self).history().contains_key(k) ==> r && final(self).history() == old(self).history().insert(
                    k,
                    (addr, expire),
                )
            }),
            final(self).pending() == old(self).pending(),
            final(self).protocol() == old(self).protocol(),
            final(self).timestamp() == old(self).timestamp(),
            final(self).challenge_key() == old(self).challenge_key(),
            final(self).private_key() == old(self).private_key(),
            final(self).challenge_sequence() == old(self).challenge_sequence(),
    {
        let k = tag_key(&hmac);
        match self.token_history.get(&k) {
            Some(v) => v.0 == addr,
            None => {
                self.token_history.insert(k, (addr, expire));
                true
            },
        }
    }

    /// Drops the pending keys and used tokens that expired by `timestamp`
    /// and records the time.
    pub fn update_at(&mut self, timestamp: u64)
        ensures
            final(self).timestamp() == timestamp,
            forall|a: Addr| #[trigger] final(self).pending().contains_key(a) <==> old(self).pending().contains_key(a)
                && old(self).pending()[a].expire > timestamp,
            forall|a: Addr| #[trigger] final(self).pending().contains_key(a) ==> final(self).pending()[a] == old(self).pending()[a],
            forall|k: u128| #[trigger] final(self).history().contains_key(k) <==> old(self).history().contains_key(k)
                && old(self).history()[k].1 > timestamp,
            forall|k: u128| #[trigger] final(self).history().contains_key(k) ==> final(self).history()[k] == old(self).history()[k],
            final(self).protocol() == old(self).protocol(),
            final(self).challenge_key() == old(self).challenge_key(),
            final(self).private_key() == old(self).private_key(),
            final(self).challenge_sequence() == old(self).challenge_sequence(),
    {
        self.pending.retain(|p: &KeyPair| -> (b: bool)
            ensures
                b == (p.expire > timestamp),
            { p.expire > timestamp });
        self.token_history.retain(|v: &(Addr, u64)| -> (b: bool)
            ensures
                b == (v.1 > timestamp),
            { v.1 > timestamp });
        self.timestamp = timestamp;
    }

    /// Drops what expired by the current time; see `update_at`. Gives
    /// `false`, changing nothing, when the system clock cannot be read.
    pub fn update(&mut self) -> (r: bool)
        ensures
            !r ==> *final(self) == *old(self),
            r ==> updated(*old(self), *final(self)),
    {
        match time_secs() {
            Some(timestamp) => {
                self.update_at(timestamp);
                true
            },
            None => false,
        }
    }

    /// The challenge packet for a client that sent `token`, with header
    /// sequence `seq`: the next challenge sequence and the challenge token
    /// (client id and user data) sealed under the challenge key, sealed in
    /// turn under the token's server key.
    pub fn challenge_packet(&mut self, seq: u32, token: &PrivateToken) -> (r: [u8; CHALLENGE_PACKET_LEN])
        ensures
            old(self).challenge_sequence() < u64::MAX ==> final(self).challenge_sequence() == old(self).challenge_sequence() + 1,
            old(self).challenge_sequence() == u64::MAX ==> final(self).challenge_sequence() == 0,
            final(self).pending() == old(self).pending(),
            final(self).history() == old(self).history(),
            final(self).protocol() == old(self).protocol(),
            final(self).timestamp() == old(self).timestamp(),
            final(self).challenge_key() == old(self).challenge_key(),
            final(self).private_key() == old(self).private_key(),
            ({
                let cseq = old(self).challenge_sequence();
                let ct = le_bytes(le_read(token@.subrange(0, 8), 8), 8) + zeros(20) + token@.subrange(752, 1008) + zeros(HMAC as nat);
                r@ == sealed_packet(
                    token@.subrange(80, 112),
                    old(self).protocol(),
                    CHALLENGE,
                    seq,
                    le_bytes(cseq, 8) + challenge_sealed(ct, cseq, old(self).challenge_key()),
                )
            }),
    {
        let client_id = token.client_id();
        let cseq = self.sequence;
        self.sequence = self.sequence.wrapping_add(1);
        let ct = ChallengeToken::new(client_id, *token.user());
        let m = ChallengePacket::write(cseq, &self.key, ct);
        proof { crate::bytes::lemma_le64_roundtrip(client_id); }
        new_challenge_packet(self.protocol, seq, token.server_key(), &m)
    }

    /// Opens a response packet from `addr` under its pending receive key,
    /// then the challenge token in it under the challenge key. Gives the
    /// pending send key and the token.
    pub fn open_response_packet(&self, buf: &mut [u8], addr: &Addr) -> (r: Result<([u8; KEY], ChallengeToken), ()>)
        ensures
            final(buf)@.len() == old(buf)@.len(),
            !self.pending().contains_key(*addr) ==> r is Err,
            r is Ok ==> self.pending().contains_key(*addr) && r.unwrap().0 == self.pending()[*addr].send_key
                && response_token(self.pending()[*addr].recv_key@, self.challenge_key(), self.protocol(), old(buf)@, r.unwrap().1@),
            r is Err && self.pending().contains_key(*addr) ==> response_fails(
                self.pending()[*addr].recv_key@,
                self.challenge_key(),
                self.protocol(),
                old(buf)@,
            ),
    {
        let pending = match self.pending.get(addr) {
            Some(p) => *p,
            None => return Err(()),
        };
        match ChallengePacket::open_token(self.protocol, buf, &pending.recv_key, &self.key) {
            Ok(t) => Ok((pending.send_key, t)),
            Err(()) => Err(()),
        }
    }
}

/// `t` is `s` after dropping, at `t`'s timestamp, the pending clients and
/// used tokens that expired: each kept entry is unchanged, and protocol,
/// keys and challenge sequence stay.
pub open spec fn updated(s: Incoming, t: Incoming) -> bool {
    &&& t.protocol() == s.protocol()
    &&& t.challenge_key() == s.challenge_key()
    &&& t.private_key() == s.private_key()
    &&& t.challenge_sequence() == s.challenge_sequence()
    &&& forall|a: Addr| #[trigger] t.pending().contains_key(a) <==> s.pending().contains_key(a)
        && s.pending()[a].expire > t.timestamp()
    &&& forall|a: Addr| #[trigger] t.pending().contains_key(a) ==> t.pending()[a] == s.pending()[a]
    &&& forall|k: u128| #[trigger] t.history().contains_key(k) <==> s.history().contains_key(k)
        && s.history()[k].1 > t.timestamp()
    &&& forall|k: u128| #[trigger] t.history().contains_key(k) ==> t.history()[k] == s.history()[k]
}

} // verus!
