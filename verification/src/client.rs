//! The client side of a connection, as a state machine: the caller owns
//! the socket and the clock, hands in each received packet and the time,
//! and sends what the client gives back.
//!
//! Times are milliseconds on the caller's clock.

use vstd::prelude::*;
use crate::protocol::{
    RequestPacket, ChallengePacket, EmptyPacket, send_payload, disconnect_packet, new_challenge_packet, read_packet,
    opens_to, seq_of, sealed_packet, kind_of, MAX_PAYLOAD, OVERHEAD, MTU, CHALLENGE_PACKET_LEN, PAYLOAD, DISCONNECT,
    DENIED, CHALLENGE, NUM_DISCONNECT_PACKETS, HEADER, request_bytes,
};
use crate::protection::{ReplayProtection, replay_step};
use crate::token::{PublicToken, PRIVATE_LEN, CHALLENGE_PACKET};
use crate::crypto::{KEY, XNONCE};
use crate::bytes::le_read;

verus! {

/// Milliseconds between two packets that the client sends unasked.
pub const PACKET_SEND_DELTA: u64 = 100;

/// The two steps of connecting.
#[derive(Debug, Clone, Copy, PartialOrd, PartialEq, Eq, Structural)]
pub enum ConnectingState {
    SendingRequest,
    SendingResponse,
}

/// Why a connection failed.
#[derive(Debug, Clone, Copy, PartialOrd, PartialEq, Eq, Structural)]
pub enum Error {
    ConnectTokenExpired,
    InvalidConnectToken,
    ConnectionTimedOut,
    ConnectionResponseTimedOut,
    ConnectionRequestTimedOut,
    ConnectionDenied,
}

/// Where a client stands.
#[derive(Debug, Clone, Copy, PartialOrd, PartialEq, Eq, Structural)]
pub enum State {
    Disconnected,
    Connecting(ConnectingState),
    Connected,
    Failed(Error),
}

/// The error that a timeout in `s` gives.
pub open spec fn timeout_error(s: State) -> Error {
    match s {
        State::Connected => Error::ConnectionTimedOut,
        State::Connecting(ConnectingState::SendingRequest) => Error::ConnectionRequestTimedOut,
        _ => Error::ConnectionResponseTimedOut,
    }
}

/// A header packet of at least the minimal size: its two kind bits.
pub open spec fn top_bits(b: Seq<u8>) -> u8 {
    b[0] >> 6u8
}

/// The packet opens under `key` as an empty packet of 20 bytes.
pub open spec fn empty_ok(key: Seq<u8>, protocol: u64, b: Seq<u8>) -> bool {
    b.len() == OVERHEAD && exists|m: Seq<u8>| #[trigger] opens_to(key, protocol, b, m)
}

/// The packet opens under `key` as a challenge packet.
pub open spec fn challenge_ok(key: Seq<u8>, protocol: u64, b: Seq<u8>) -> bool {
    b.len() == CHALLENGE_PACKET_LEN && exists|m: Seq<u8>| #[trigger] opens_to(key, protocol, b, m)
}

/// The state after a packet of `kind` arrives in state `s`, given whether
/// it opens as an empty packet and as a challenge packet.
pub open spec fn next_state(s: State, kind: u8, empty: bool, challenge: bool) -> State {
    match s {
        State::Connected => if kind == DISCONNECT && empty { State::Disconnected } else { s },
        State::Connecting(c) => {
            if kind == DENIED && empty {
                State::Failed(Error::ConnectionDenied)
            } else if c == ConnectingState::SendingRequest && kind == CHALLENGE && challenge {
                State::Connecting(ConnectingState::SendingResponse)
            } else if c == ConnectingState::SendingResponse && kind == PAYLOAD {
                State::Connected
            } else {
                s
            }
        },
        _ => s,
    }
}

/// A connecting client, in either step, that gets a denial packet which
/// opens under its receive key as an empty packet fails with
/// `ConnectionDenied`.
pub proof fn law_denied_fails(c: ConnectingState, key: Seq<u8>, protocol: u64, b: Seq<u8>)
    requires
        b.len() > 0,
        top_bits(b) == DENIED,
        empty_ok(key, protocol, b),
    ensures
        next_state(State::Connecting(c), top_bits(b), empty_ok(key, protocol, b), challenge_ok(key, protocol, b))
            == State::Failed(Error::ConnectionDenied),
{
}

/// Whether `read_protected` takes packet `b` from a window at
/// `(recent, bits)`: its sequence is below 2^30 - 1, the window has not
/// seen it and does not find it too old, and it opens under `key`.
pub open spec fn protected_ok(recent: u64, bits: Seq<bool>, key: Seq<u8>, protocol: u64, b: Seq<u8>) -> bool {
    &&& seq_of(b) < 0x3FFF_FFFF
    &&& !replay_step(recent, bits, seq_of(b) as u64).2
    &&& exists|m: Seq<u8>| #[trigger] opens_to(key, protocol, b, m)
}

/// The replay window `(recent, bits)` after `read_protected` looked at
/// packet `b`: a sequence of 2^30 - 1 or more leaves it, any other is
/// recorded.
pub open spec fn protected_window(recent: u64, bits: Seq<bool>, b: Seq<u8>) -> (u64, Seq<bool>) {
    if seq_of(b) < 0x3FFF_FFFF {
        let (s2, b2, _) = replay_step(recent, bits, seq_of(b) as u64);
        (s2, b2)
    } else {
        (recent, bits)
    }
}

/// The message that packet `b` opens to under `key`.
pub open spec fn opened(key: Seq<u8>, protocol: u64, b: Seq<u8>) -> Seq<u8> {
    choose|m: Seq<u8>| #[trigger] opens_to(key, protocol, b, m)
}

/// Reads a header packet whose sequence passes the replay window: a
/// sequence of 2^30 - 1 or more, or one that the window has seen or that
/// is too old for it, drops the packet (the window records the sequence
/// either way).
pub fn read_protected(rp: &mut ReplayProtection, protocol: u64, key: &[u8; KEY], buf: &[u8]) -> (r: Result<Vec<u8>, ()>)
    requires
        old(rp).wf(),
        old(rp).recent() < 0x4000_0000,
        buf@.len() >= OVERHEAD,
        buf@.len() <= crate::crypto::MAX_MESSAGE,
    ensures
        final(rp).wf(),
        final(rp).recent() < 0x4000_0000,
        r is Ok ==> exists|m: Seq<u8>| #[trigger] opens_to(key@, protocol, buf@, m),
        r is Ok ==> forall|m: Seq<u8>| #[trigger] opens_to(key@, protocol, buf@, m) ==> r.unwrap()@ == m,
        r is Ok <==> protected_ok(old(rp).recent(), old(rp).bits(), key@, protocol, buf@),
        r is Ok ==> r.unwrap()@ == opened(key@, protocol, buf@),
        (final(rp).recent(), final(rp).bits()) == protected_window(old(rp).recent(), old(rp).bits(), buf@),
        seq_of(buf@) >= 0x3FFF_FFFF ==> r is Err && *final(rp) == *old(rp),
        seq_of(buf@) < 0x3FFF_FFFF ==> ({
            let (s2, b2, seen) = crate::protection::replay_step(old(rp).recent(), old(rp).bits(), seq_of(buf@) as u64);
            &&& final(rp).recent() == s2
            &&& final(rp).bits() == b2
            &&& seen ==> r is Err
            &&& !seen && (exists|m: Seq<u8>| #[trigger] opens_to(key@, protocol, buf@, m)) ==> r is Ok
        }),
{
    let header = crate::encrypted::copy_range(buf, 0, HEADER);
    proof {
        assert(header@[0] == buf@[0] && header@[1] == buf@[1] && header@[2] == buf@[2] && header@[3] == buf@[3]);
    }
    let seq = match crate::protocol::extract_header(header.as_slice()) {
        Ok((_, s)) => s,
        Err(()) => return Err(()),
    };
    let drop = if seq >= 0x3FFF_FFFF {
        true
    } else {
        rp.packet_already_received(seq as u64)
    };
    let filter = |_s: u32| -> (b: bool)
        ensures
            b == drop,
        { drop };
    read_packet(protocol, key, buf, filter)
}

/// A client.
pub struct Client {
    state: State,
    protocol: u64,
    expire_timestamp: u64,
    expire: u64,
    timeout: u64,
    nonce: [u8; XNONCE],
    token: [u8; PRIVATE_LEN],
    time: u64,
    start_time: u64,
    last_send: u64,
    last_recv: u64,
    send_key: [u8; KEY],
    recv_key: [u8; KEY],
    sequence: u32,
    response: [u8; CHALLENGE_PACKET],
    replay_protection: ReplayProtection,
    recv_queue: Vec<Vec<u8>>,
}

impl Client {
    /// The replay window is in order and holds a header sequence.
    pub closed spec fn wf(&self) -> bool {
        &&& self.replay_protection.wf()
        &&& self.replay_protection.recent() < 0x4000_0000
    }

    pub closed spec fn spec_state(&self) -> State {
        self.state
    }

    pub closed spec fn spec_protocol(&self) -> u64 {
        self.protocol
    }

    pub closed spec fn spec_time(&self) -> u64 {
        self.time
    }

    pub closed spec fn spec_start(&self) -> u64 {
        self.start_time
    }

    /// How long the connect token lives, in milliseconds.
    pub closed spec fn spec_expire(&self) -> u64 {
        self.expire
    }

    /// How long the connection lives without packets, in milliseconds.
    pub closed spec fn spec_timeout(&self) -> u64 {
        self.timeout
    }

    pub closed spec fn spec_last_send(&self) -> u64 {
        self.last_send
    }

    pub closed spec fn spec_last_recv(&self) -> u64 {
        self.last_recv
    }

    pub closed spec fn spec_send_key(&self) -> Seq<u8> {
        self.send_key@
    }

    pub closed spec fn spec_recv_key(&self) -> Seq<u8> {
        self.recv_key@
    }

    /// The sequence of the next packet sent.
    pub closed spec fn spec_sequence(&self) -> u32 {
        self.sequence
    }

    /// The sequence and challenge token that the server sent.
    pub closed spec fn spec_response(&self) -> Seq<u8> {
        self.response@
    }

    /// The request packet that the client sends while it asks to connect.
    pub closed spec fn spec_request(&self) -> Seq<u8> {
        request_bytes(self.protocol, self.expire_timestamp, self.nonce@, self.token@)
    }

    /// Payloads received and not yet taken.
    pub closed spec fn spec_queue(&self) -> Seq<Seq<u8>> {
        self.recv_queue@.map_values(|v: Vec<u8>| v@)
    }

    /// The replay window: the most recent sequence received and the
    /// window's flags.
    pub closed spec fn spec_window(&self) -> (u64, Seq<bool>) {
        (self.replay_protection.recent(), self.replay_protection.bits())
    }

    /// A disconnected client for `token` on `protocol`, at time `now`.
    pub fn new(protocol: u64, token: &PublicToken, now: u64) -> (r: Self)
        requires
            le_read(token@.subrange(12, 20), 8) <= le_read(token@.subrange(20, 28), 8),
        ensures
            r.wf(),
            r.spec_state() == State::Disconnected,
            r.spec_protocol() == protocol,
            r.spec_time() == now,
            r.spec_start() == now,
            r.spec_last_recv() == now,
            r.spec_last_send() == if now >= 1000 { now - 1000 } else { 0 },
            r.spec_expire() == if (le_read(token@.subrange(20, 28), 8) - le_read(token@.subrange(12, 20), 8)) * 1000
                <= u64::MAX { (le_read(token@.subrange(20, 28), 8) - le_read(token@.subrange(12, 20), 8)) * 1000 } else {
                u64::MAX as int
            },
            r.spec_timeout() == crate::bytes::le32(token@[28], token@[29], token@[30], token@[31]) * 1000,
            r.spec_send_key() == token@.subrange(320, 352),
            r.spec_recv_key() == token@.subrange(352, 384),
            r.spec_sequence() == 0,
            r.spec_queue() == Seq::<Seq<u8>>::empty(),
            r.spec_request() == request_bytes(protocol, le_read(token@.subrange(20, 28), 8), token@.subrange(296, 320), token@.subrange(384, 1408)),
    {
        let expire_ts = token.expire_timestamp();
        let create_ts = token.create_timestamp();
        let life = expire_ts - create_ts;
        let expire = if life <= u64::MAX / 1000 { life * 1000 } else { u64::MAX };
        let timeout = (token.timeout_seconds() as u64) * 1000;
        let r = Self {
            state: State::Disconnected,
            protocol,
            expire_timestamp: expire_ts,
            expire,
            timeout,
            nonce: token.nonce(),
            token: *token.token(),
            time: now,
            start_time: now,
            last_send: now.saturating_sub(1000),
            last_recv: now,
            send_key: token.client_key(),
            recv_key: token.server_key(),
            sequence: 0,
            response: [0u8; CHALLENGE_PACKET],
            replay_protection: ReplayProtection::new(),
            recv_queue: Vec::new(),
        };
        assert(r.spec_queue() =~= Seq::<Seq<u8>>::empty());
        r
    }

    pub fn state(&self) -> (r: State)
        ensures
            r == self.spec_state(),
    {
        self.state
    }

    /// Starts connecting; the caller connects the socket.
    pub fn connect(&mut self)
        requires
            old(self).wf(),
        ensures
            final(self).wf(),
            final(self).spec_state() == State::Connecting(ConnectingState::SendingRequest),
            final(self).spec_time() == old(self).spec_time(),
            final(self).spec_queue() == old(self).spec_queue(),
            final(self).spec_sequence() == old(self).spec_sequence(),
            final(self).spec_last_send() == old(self).spec_last_send(),
            final(self).spec_last_recv() == old(self).spec_last_recv(),
    {
        self.state = State::Connecting(ConnectingState::SendingRequest);
    }

    /// Takes the oldest payload received.
    pub fn recv(&mut self) -> (r: Option<Vec<u8>>)
        requires
            old(self).wf(),
        ensures
            final(self).wf(),
            old(self).spec_queue().len() == 0 ==> r is None && final(self).spec_queue() == old(self).spec_queue(),
            old(self).spec_queue().len() > 0 ==> r is Some && r.unwrap()@ == old(self).spec_queue()[0]
                && final(self).spec_queue() == old(self).spec_queue().drop_first(),
            final(self).spec_state() == old(self).spec_state(),
            final(self).spec_sequence() == old(self).spec_sequence(),
    {
        if self.recv_queue.len() == 0 {
            None
        } else {
            let v = self.recv_queue.remove(0);
            proof {
                assert(final(self).spec_queue() =~= old(self).spec_queue().drop_first());
            }
            Some(v)
        }
    }

    fn next_seq(&mut self) -> (s: u32)
        ensures
            s == old(self).sequence,
            final(self).sequence == (if old(self).sequence == u32::MAX { 0 } else { old(self).sequence + 1 }),
            final(self).state == old(self).state,
            final(self).time == old(self).time,
            final(self).last_send == old(self).last_send,
            final(self).last_recv == old(self).last_recv,
            final(self).recv_queue == old(self).recv_queue,
            final(self).send_key == old(self).send_key,
            final(self).recv_key == old(self).recv_key,
            final(self).protocol == old(self).protocol,
            final(self).response == old(self).response,
            final(self).replay_protection == old(self).replay_protection,
            final(self).nonce == old(self).nonce,
            final(self).token == old(self).token,
            final(self).expire_timestamp == old(self).expire_timestamp,
    {
        let s = self.sequence;
        self.sequence = self.sequence.wrapping_add(1);
        s
    }

    /// A payload packet with the next sequence; records the send.
    pub fn send(&mut self, buf: &[u8]) -> (r: Vec<u8>)
        requires
            old(self).wf(),
        ensures
            final(self).wf(),
            r@ == sealed_packet(
                old(self).spec_send_key(),
                old(self).spec_protocol(),
                PAYLOAD,
                old(self).spec_sequence(),
                buf@.subrange(0, if buf@.len() <= MAX_PAYLOAD { buf@.len() as int } else { MAX_PAYLOAD as int }),
            ),
            final(self).spec_sequence() == (if old(self).spec_sequence() == u32::MAX { 0 } else { old(self).spec_sequence() + 1 }),
            final(self).spec_last_send() == old(self).spec_time(),
            final(self).spec_state() == old(self).spec_state(),
            final(self).spec_queue() == old(self).spec_queue(),
            final(self).spec_time() == old(self).spec_time(),
            final(self).spec_last_recv() == old(self).spec_last_recv(),
    {
        let seq = self.next_seq();
        let key = self.send_key;
        let p = send_payload(self.protocol, seq, &key, buf);
        self.last_send = self.time;
        p
    }

    /// Closes the connection: gives ten disconnect packets with the next
    /// sequences.
    pub fn close(&mut self) -> (r: Vec<[u8; OVERHEAD]>)
        requires
            old(self).wf(),
        ensures
            final(self).wf(),
            final(self).spec_state() == State::Disconnected,
            r@.len() == NUM_DISCONNECT_PACKETS,
            forall|i: int| 0 <= i < NUM_DISCONNECT_PACKETS ==> #[trigger] r@[i]@ == sealed_packet(
                old(self).spec_send_key(),
                old(self).spec_protocol(),
                DISCONNECT,
                ((old(self).spec_sequence() + i) % 0x1_0000_0000) as u32,
                seq![],
            ),
    {
        let mut out: Vec<[u8; OVERHEAD]> = Vec::new();
        let mut i: usize = 0;
        while i < NUM_DISCONNECT_PACKETS
            invariant
                i <= NUM_DISCONNECT_PACKETS,
                out@.len() == i,
                self.send_key == old(self).send_key,
                self.protocol == old(self).protocol,
                self.sequence == (old(self).sequence + i) % 0x1_0000_0000,
                self.wf(),
                forall|j: int| 0 <= j < i ==> #[trigger] out@[j]@ == sealed_packet(
                    old(self).spec_send_key(),
                    old(self).spec_protocol(),
                    DISCONNECT,
                    ((old(self).spec_sequence() + j) % 0x1_0000_0000) as u32,
                    seq![],
                ),
            decreases NUM_DISCONNECT_PACKETS - i,
        {
            let seq = self.next_seq();
            out.push(disconnect_packet(self.protocol, seq, &self.send_key));
            self.last_send = self.time;
            i = i + 1;
        }
        self.state = State::Disconnected;
        out
    }

    /// Advances the clock to `now` and checks the token's lifetime and the
    /// connection's timeout. Gives false when the client is not (or no
    /// longer) connecting or connected; then there is nothing to receive
    /// or send.
    pub fn update(&mut self, now: u64) -> (r: bool)
        requires
            old(self).wf(),
        ensures
            final(self).wf(),
            final(self).spec_queue() == old(self).spec_queue(),
            final(self).spec_sequence() == old(self).spec_sequence(),
            final(self).spec_last_send() == old(self).spec_last_send(),
            final(self).spec_last_recv() == old(self).spec_last_recv(),
            match old(self).spec_state() {
                State::Disconnected | State::Failed(_) => !r && final(self).spec_state() == old(self).spec_state()
                    && final(self).spec_time() == old(self).spec_time(),
                _ => {
                    &&& final(self).spec_time() == now
                    &&& now - old(self).spec_start() >= old(self).spec_expire() ==> !r && final(self).spec_state()
                        == State::Failed(Error::ConnectTokenExpired)
                    &&& !(now - old(self).spec_start() >= old(self).spec_expire()) && old(self).spec_last_recv()
                        + old(self).spec_timeout() < now ==> !r && final(self).spec_state() == State::Failed(
                        timeout_error(old(self).spec_state()),
                    )
                    &&& !(now - old(self).spec_start() >= old(self).spec_expire()) && !(old(self).spec_last_recv()
                        + old(self).spec_timeout() < now) ==> r && final(self).spec_state() == old(self).spec_state()
                },
            },
    {
        match self.state {
            State::Disconnected | State::Failed(_) => return false,
            _ => {},
        }
        self.time = now;
        let elapsed: i128 = (now as i128) - (self.start_time as i128);
        if elapsed >= self.expire as i128 {
            self.state = State::Failed(Error::ConnectTokenExpired);
            return false;
        }
        if (self.last_recv as u128) + (self.timeout as u128) < (now as u128) {
            let e = match self.state {
                State::Connected => Error::ConnectionTimedOut,
                State::Connecting(ConnectingState::SendingRequest) => Error::ConnectionRequestTimedOut,
                _ => Error::ConnectionResponseTimedOut,
            };
            self.state = State::Failed(e);
            return false;
        }
        true
    }

    /// The packet that is due, if one is: a keep-alive when connected, the
    /// request or the response while connecting; none until
    /// `PACKET_SEND_DELTA` passed since the last send.
    pub fn poll_send(&mut self) -> (r: Option<Vec<u8>>)
        requires
            old(self).wf(),
        ensures
            final(self).wf(),
            final(self).spec_state() == old(self).spec_state(),
            final(self).spec_queue() == old(self).spec_queue(),
            !(old(self).spec_last_send() + PACKET_SEND_DELTA < old(self).spec_time()) ==> r is None && final(self).spec_sequence()
                == old(self).spec_sequence() && final(self).spec_last_send() == old(self).spec_last_send(),
            old(self).spec_last_send() + PACKET_SEND_DELTA < old(self).spec_time() ==> match old(self).spec_state() {
                State::Connected => r is Some && r.unwrap()@ == sealed_packet(
                    old(self).spec_send_key(),
                    old(self).spec_protocol(),
                    PAYLOAD,
                    old(self).spec_sequence(),
                    seq![],
                ) && final(self).spec_last_send() == old(self).spec_time(),
                State::Connecting(ConnectingState::SendingRequest) => r is Some && r.unwrap()@ == old(self).spec_request()
                    && final(self).spec_last_send() == old(self).spec_time() && final(self).spec_sequence() == old(self).spec_sequence(),
                State::Connecting(ConnectingState::SendingResponse) => r is Some && r.unwrap()@ == sealed_packet(
                    old(self).spec_send_key(),
                    old(self).spec_protocol(),
                    CHALLENGE,
                    old(self).spec_sequence(),
                    old(self).spec_response(),
                ) && final(self).spec_last_send() == old(self).spec_time(),
                _ => r is None && final(self).spec_sequence() == old(self).spec_sequence(),
            },
    {
        if (self.last_send as u128) + (PACKET_SEND_DELTA as u128) < (self.time as u128) {
            match self.state {
                State::Connected => {
                    let empty: [u8; 0] = [];
                    let p = self.send(&empty);
                    proof {
                        assert(empty@.subrange(0, 0) =~= seq![]);
                    }
                    Some(p)
                },
                State::Connecting(ConnectingState::SendingRequest) => Some(self.send_request()),
                State::Connecting(ConnectingState::SendingResponse) => Some(self.send_response()),
                _ => None,
            }
        } else {
            None
        }
    }

    fn send_request(&mut self) -> (r: Vec<u8>)
        requires
            old(self).wf(),
        ensures
            final(self).wf(),
            r@ == old(self).spec_request(),
            final(self).spec_last_send() == old(self).spec_time(),
            final(self).spec_sequence() == old(self).spec_sequence(),
            final(self).spec_state() == old(self).spec_state(),
            final(self).spec_queue() == old(self).spec_queue(),
            final(self).spec_time() == old(self).spec_time(),
    {
        let req = RequestPacket::new(self.protocol, self.expire_timestamp, self.nonce, self.token);
        let b = req.write();
        self.last_send = self.time;
        let mut v: Vec<u8> = Vec::new();
        crate::bytes::push_all(&mut v, &b);
        v
    }

    fn send_response(&mut self) -> (r: Vec<u8>)
        requires
            old(self).wf(),
        ensures
            final(self).wf(),
            r@ == sealed_packet(
                old(self).spec_send_key(),
                old(self).spec_protocol(),
                CHALLENGE,
                old(self).spec_sequence(),
                old(self).spec_response(),
            ),
            final(self).spec_last_send() == old(self).spec_time(),
            final(self).spec_sequence() == (if old(self).spec_sequence() == u32::MAX { 0 } else { old(self).spec_sequence() + 1 }),
            final(self).spec_state() == old(self).spec_state(),
            final(self).spec_queue() == old(self).spec_queue(),
            final(self).spec_time() == old(self).spec_time(),
            final(self).spec_last_recv() == old(self).spec_last_recv(),
            final(self).protocol == old(self).protocol,
            final(self).recv_queue == old(self).recv_queue,
            final(self).state == old(self).state,
            final(self).response == old(self).response,
    {
        let seq = self.next_seq();
        let resp = new_challenge_packet(self.protocol, seq, &self.send_key, &self.response);
        self.last_send = self.time;
        let mut v: Vec<u8> = Vec::new();
        crate::bytes::push_all(&mut v, &resp);
        v
    }

    /// Handles a packet that arrived: a payload while connected (or as the
    /// first sign of being connected), a disconnect, a denial, or the
    /// challenge, which gives the response to send at once.
    pub fn process_packet(&mut self, buf: &mut [u8]) -> (r: Option<Vec<u8>>)
        requires
            old(self).wf(),
            old(buf)@.len() <= crate::crypto::MAX_MESSAGE,
        ensures
            final(self).wf(),
            final(self).spec_protocol() == old(self).spec_protocol(),
            final(self).spec_time() == old(self).spec_time(),
            ({
                let b = old(buf)@;
                let key = old(self).spec_recv_key();
                let p = old(self).spec_protocol();
                &&& b.len() < OVERHEAD ==> r is None && final(self).spec_state() == old(self).spec_state()
                    && final(self).spec_queue() == old(self).spec_queue()
                &&& b.len() >= OVERHEAD ==> final(self).spec_state() == next_state(
                    old(self).spec_state(),
                    top_bits(b),
                    empty_ok(key, p, b),
                    challenge_ok(key, p, b),
                )
                &&& old(self).spec_state() is Connecting && b.len() > 0 && top_bits(b) == DENIED && empty_ok(key, p, b)
                    ==> final(self).spec_state() == State::Failed(Error::ConnectionDenied)
                &&& r is Some ==> {
                    &&& old(self).spec_state() == State::Connecting(ConnectingState::SendingRequest)
                    &&& b.len() >= OVERHEAD && top_bits(b) == CHALLENGE && challenge_ok(key, p, b)
                    &&& forall|m: Seq<u8>| #[trigger] opens_to(key, p, b, m) ==> final(self).spec_response() == m
                        && r.unwrap()@ == sealed_packet(old(self).spec_send_key(), p, CHALLENGE, old(self).spec_sequence(), m)
                }
                &&& (b.len() >= OVERHEAD && old(self).spec_state() == State::Connecting(ConnectingState::SendingRequest)
                    && top_bits(b) == CHALLENGE && challenge_ok(key, p, b)) ==> r is Some
                &&& final(self).spec_queue() == old(self).spec_queue() || {
                    &&& b.len() >= OVERHEAD && top_bits(b) == PAYLOAD
                    &&& (old(self).spec_state() == State::Connected || old(self).spec_state() == State::Connecting(
                        ConnectingState::SendingResponse,
                    ))
                    &&& exists|m: Seq<u8>| #[trigger] opens_to(key, p, b, m) && m.len() > 0
                        && final(self).spec_queue() == old(self).spec_queue().push(m)
                }
            }),
    {
        if buf.len() < OVERHEAD {
            return None;
        }
        let kind = buf[0] >> 6;
        let state = self.state;
        proof {
            assert(kind == top_bits(old(buf)@));
        }
        match state {
            State::Connected => {
                if kind == PAYLOAD {
                    self.process_payload(buf);
                } else if kind == DISCONNECT {
                    self.process_disconnect(buf);
                }
                None
            },
            State::Connecting(c) => {
                if kind == DENIED {
                    self.process_denied(buf);
                    None
                } else if c == ConnectingState::SendingRequest && kind == CHALLENGE {
                    self.process_challenge(buf)
                } else if c == ConnectingState::SendingResponse && kind == PAYLOAD {
                    self.state = State::Connected;
                    self.process_payload(buf);
                    None
                } else {
                    None
                }
            },
            _ => None,
        }
    }

    fn process_challenge(&mut self, buf: &mut [u8]) -> (r: Option<Vec<u8>>)
        requires
            old(self).wf(),
        ensures
            final(self).wf(),
            final(self).protocol == old(self).protocol,
            final(self).time == old(self).time,
            final(self).recv_queue == old(self).recv_queue,
            r is Some <==> challenge_ok(old(self).spec_recv_key(), old(self).spec_protocol(), old(buf)@),
            r is Some ==> final(self).state == State::Connecting(ConnectingState::SendingResponse),
            r is None ==> final(self).state == old(self).state,
            r is Some ==> forall|m: Seq<u8>| #[trigger] opens_to(old(self).spec_recv_key(), old(self).spec_protocol(), old(buf)@, m)
                ==> final(self).spec_response() == m && r.unwrap()@ == sealed_packet(
                    old(self).spec_send_key(),
                    old(self).spec_protocol(),
                    CHALLENGE,
                    old(self).spec_sequence(),
                    m,
                ),
    {
        let response = match ChallengePacket::client_read(self.protocol, buf, &self.recv_key) {
            Ok(r) => r,
            Err(()) => return None,
        };
        self.response = response;
        self.state = State::Connecting(ConnectingState::SendingResponse);
        Some(self.send_response())
    }

    fn process_denied(&mut self, buf: &mut [u8])
        requires
            old(self).wf(),
        ensures
            final(self).wf(),
            final(self).protocol == old(self).protocol,
            final(self).time == old(self).time,
            final(self).recv_queue == old(self).recv_queue,
            final(self).state == if empty_ok(old(self).spec_recv_key(), old(self).spec_protocol(), old(buf)@) {
                State::Failed(Error::ConnectionDenied)
            } else {
                old(self).state
            },
    {
        if EmptyPacket::read(self.protocol, buf, &self.recv_key).is_ok() {
            self.state = State::Failed(Error::ConnectionDenied);
        }
    }

    fn process_disconnect(&mut self, buf: &mut [u8])
        requires
            old(self).wf(),
        ensures
            final(self).wf(),
            final(self).protocol == old(self).protocol,
            final(self).time == old(self).time,
            final(self).recv_queue == old(self).recv_queue,
            final(self).state == if empty_ok(old(self).spec_recv_key(), old(self).spec_protocol(), old(buf)@) {
                State::Disconnected
            } else {
                old(self).state
            },
    {
        if EmptyPacket::read(self.protocol, buf, &self.recv_key).is_ok() {
            self.state = State::Disconnected;
        }
    }

    fn process_payload(&mut self, buf: &mut [u8])
        requires
            old(self).wf(),
            old(buf)@.len() >= OVERHEAD,
            old(buf)@.len() <= crate::crypto::MAX_MESSAGE,
        ensures
            final(self).wf(),
            final(buf)@ == old(buf)@,
            ({
                let (recent, bits) = old(self).spec_window();
                let key = old(self).spec_recv_key();
                let p = old(self).spec_protocol();
                let b = old(buf)@;
                let ok = protected_ok(recent, bits, key, p, b);
                let m = opened(key, p, b);
                &&& final(self).spec_window() == protected_window(recent, bits, b)
                &&& final(self).last_recv == if ok { old(self).time } else { old(self).last_recv }
                &&& final(self).spec_queue() == if ok && m.len() > 0 { old(self).spec_queue().push(m) } else {
                    old(self).spec_queue()
                }
                &&& ok && m.len() > 0 ==> opens_to(key, p, b, m)
            }),
            final(self).state == old(self).state,
            final(self).protocol == old(self).protocol,
            final(self).expire_timestamp == old(self).expire_timestamp,
            final(self).expire == old(self).expire,
            final(self).timeout == old(self).timeout,
            final(self).nonce == old(self).nonce,
            final(self).token == old(self).token,
            final(self).time == old(self).time,
            final(self).start_time == old(self).start_time,
            final(self).last_send == old(self).last_send,
            final(self).send_key == old(self).send_key,
            final(self).recv_key == old(self).recv_key,
            final(self).sequence == old(self).sequence,
            final(self).response == old(self).response,
    {
        let ghost key = self.recv_key@;
        let mut rp = ReplayProtection::new();
        std::mem::swap(&mut rp, &mut self.replay_protection);
        let got = read_protected(&mut rp, self.protocol, &self.recv_key, buf);
        self.replay_protection = rp;
        match got {
            Ok(p) => {
                self.last_recv = self.time;
                if p.len() != 0 {
                    let ghost q = p@;
                    proof {
                        let m = choose|m: Seq<u8>| #[trigger] opens_to(key, self.protocol, old(buf)@, m);
                        assert(q == m);
                        assert(opens_to(old(self).spec_recv_key(), old(self).spec_protocol(), old(buf)@, q));
                    }
                    self.recv_queue.push(p);
                    proof {
                        assert(self.spec_queue() =~= old(self).spec_queue().push(q));
                    }
                }
            },
            Err(()) => {},
        }
    }
}

} // verus!
