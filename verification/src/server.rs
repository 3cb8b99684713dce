//! The server side of the protocol, as a state machine: the caller owns
//! the socket and the clock, hands in each datagram with its source
//! address, and sends what the server gives back.
//!
//! Times are milliseconds on the caller's clock.

use vstd::prelude::*;
use crate::addr::Addr;
use crate::assoc::AddrMap;
use std::collections::HashMap;
use crate::client::{read_protected, protected_ok, protected_window, opened};
use crate::crypto::{KEY, xchacha_seal};
use crate::incoming::{Incoming, KeyPair, tag_fold, updated};
use crate::protection::ReplayProtection;
use crate::protocol::{
    RequestPacket, keep_alive_packet, disconnect_packet, denied_packet, send_payload, opens_to, sealed_packet,
    response_token, response_fails, request_valid, request_protocol, request_expire, request_nonce, request_token, MAX_PAYLOAD,
    request_opens, request_opened, kind_of,
    OVERHEAD, MTU, REQUEST, CHALLENGE, DISCONNECT, PAYLOAD, KEEP_ALIVE, CHALLENGE_PACKET_LEN, REQUEST_PACKET_LEN,
    NUM_DISCONNECT_PACKETS,
};
use crate::token::{PrivateToken, DATA, USER, PRIVATE_LEN, private_ad};
use crate::bytes::{le_read, write_at};
use crate::server_list::ServerList;

verus! {

broadcast use vstd::std_specs::hash::group_hash_axioms;

/// Milliseconds between keep-alive packets.
pub const PACKET_SEND_DELTA: u64 = 100;

/// A connected client.
pub struct Conn {
    id: u64,
    last_recv: u64,
    last_send: u64,
    timeout: u64,
    send_key: [u8; KEY],
    recv_key: [u8; KEY],
    sequence: u32,
    replay_protection: ReplayProtection,
    queue: Vec<Vec<u8>>,
    closed: bool,
}

impl Conn {
    /// The replay window is in order and holds a header sequence.
    pub closed spec fn wf(&self) -> bool {
        &&& self.replay_protection.wf()
        &&& self.replay_protection.recent() < 0x4000_0000
    }

    /// The client's id.
    pub closed spec fn spec_id(&self) -> u64 {
        self.id
    }

    pub closed spec fn spec_send_key(&self) -> Seq<u8> {
        self.send_key@
    }

    pub closed spec fn spec_recv_key(&self) -> Seq<u8> {
        self.recv_key@
    }

    pub closed spec fn spec_last_recv(&self) -> u64 {
        self.last_recv
    }

    pub closed spec fn spec_last_send(&self) -> u64 {
        self.last_send
    }

    /// Milliseconds without packets after which the connection times out.
    pub closed spec fn spec_timeout(&self) -> u64 {
        self.timeout
    }

    pub closed spec fn spec_sequence(&self) -> u32 {
        self.sequence
    }

    pub closed spec fn spec_closed(&self) -> bool {
        self.closed
    }

    /// Payloads received and not yet taken.
    pub closed spec fn spec_queue(&self) -> Seq<Seq<u8>> {
        self.queue@.map_values(|v: Vec<u8>| v@)
    }

    /// The replay window: the most recent sequence received and the
    /// window's flags.
    pub closed spec fn spec_window(&self) -> (u64, Seq<bool>) {
        (self.replay_protection.recent(), self.replay_protection.bits())
    }

    fn new(id: u64, time: u64, keys: KeyPair) -> (r: Self)
        ensures
            r.wf(),
            r.spec_id() == id,
            r.spec_last_recv() == time,
            r.spec_last_send() == time,
            r.spec_timeout() == keys.timeout * 1000,
            r.spec_send_key() == keys.send_key@,
            r.spec_recv_key() == keys.recv_key@,
            r.spec_sequence() == 1,
            !r.spec_closed(),
            r.spec_queue() == Seq::<Seq<u8>>::empty(),
    {
        let r = Conn {
            id,
            last_send: time,
            last_recv: time,
            timeout: (keys.timeout as u64) * 1000,
            send_key: keys.send_key,
            recv_key: keys.recv_key,
            sequence: 1,
            replay_protection: ReplayProtection::new(),
            queue: Vec::new(),
            closed: false,
        };
        assert(r.spec_queue() =~= Seq::<Seq<u8>>::empty());
        r
    }

    /// The connection is closed or timed out at `time`.
    fn check(&self, time: u64) -> (r: bool)
        ensures
            r == (self.spec_closed() || self.spec_last_recv() + self.spec_timeout() < time),
    {
        self.closed || (self.last_recv as u128) + (self.timeout as u128) < (time as u128)
    }

    fn seq_send(&mut self, time: u64) -> (s: u32)
        requires
            old(self).wf(),
        ensures
            final(self).wf(),
            s == old(self).spec_sequence(),
            final(self).spec_sequence() == (if old(self).spec_sequence() == u32::MAX { 0 } else { old(self).spec_sequence() + 1 }),
            final(self).spec_last_send() == time,
            final(self).spec_id() == old(self).spec_id(),
            final(self).spec_send_key() == old(self).spec_send_key(),
            final(self).spec_recv_key() == old(self).spec_recv_key(),
            final(self).spec_last_recv() == old(self).spec_last_recv(),
            final(self).spec_timeout() == old(self).spec_timeout(),
            final(self).spec_closed() == old(self).spec_closed(),
            final(self).spec_queue() == old(self).spec_queue(),
            final(self).spec_window() == old(self).spec_window(),
    {
        self.last_send = time;
        let s = self.sequence;
        self.sequence = self.sequence.wrapping_add(1);
        s
    }

    fn process_payload(&mut self, protocol: u64, time: u64, buf: &[u8]) -> (r: Option<Vec<u8>>)
        requires
            old(self).wf(),
            buf@.len() <= crate::crypto::MAX_MESSAGE,
        ensures
            final(self).wf(),
            ({
                let (recent, bits) = old(self).spec_window();
                let key = old(self).spec_recv_key();
                let ok = buf@.len() >= OVERHEAD && protected_ok(recent, bits, key, protocol, buf@);
                let m = opened(key, protocol, buf@);
                payload_conn(*final(self), *old(self), ok, m, buf@, time)
                    && (r is Some <==> ok && m.len() > 0) && (r is Some ==> r.unwrap()@ == m)
            }),
            buf@.len() >= OVERHEAD && protected_ok(
                old(self).spec_window().0,
                old(self).spec_window().1,
                old(self).spec_recv_key(),
                protocol,
                buf@,
            ) ==> final(self).spec_last_recv() == time,
    {
        if buf.len() < OVERHEAD {
            return None;
        }
        let ghost key = self.recv_key@;
        let mut rp = ReplayProtection::new();
        std::mem::swap(&mut rp, &mut self.replay_protection);
        let got = read_protected(&mut rp, protocol, &self.recv_key, buf);
        self.replay_protection = rp;
        match got {
            Ok(p) => {
                self.last_recv = time;
                if p.len() != 0 {
                    let ghost q = p@;
                    let out = crate::encrypted::copy_range(p.as_slice(), 0, p.len());
                    assert(out@ =~= q);
                    self.queue.push(p);
                    proof {
                        let m = choose|m: Seq<u8>| #[trigger] opens_to(key, protocol, buf@, m);
                        assert(q == m);
                        assert(self.spec_queue() =~= old(self).spec_queue().push(q));
                    }
                    Some(out)
                } else {
                    None
                }
            },
            Err(()) => None,
        }
    }

    fn process_disconnect(&mut self, protocol: u64, buf: &[u8]) -> (r: bool)
        requires
            old(self).wf(),
        ensures
            final(self).wf(),
            r == (buf@.len() == OVERHEAD && protected_ok(
                old(self).spec_window().0,
                old(self).spec_window().1,
                old(self).spec_recv_key(),
                protocol,
                buf@,
            )),
            r ==> exists|m: Seq<u8>| #[trigger] opens_to(old(self).spec_recv_key(), protocol, buf@, m),
            disconnect_conn(*final(self), *old(self), buf@),
    {
        if buf.len() != OVERHEAD {
            return false;
        }
        let mut rp = ReplayProtection::new();
        std::mem::swap(&mut rp, &mut self.replay_protection);
        let ghost key = self.recv_key@;
        let got = read_protected(&mut rp, protocol, &self.recv_key, buf);
        self.replay_protection = rp;
        proof {
            assert(key == old(self).spec_recv_key());
        }
        got.is_ok()
    }
}

/// Why the server refused a packet.
pub enum ConnectionError {
    InvalidPacket,
    AlreadyConnected,
    TokenAlreadyUsed,
    /// The server is full: answer with a denied packet under this key.
    ConnectionDenied([u8; KEY]),
}

/// What the server makes of a packet it accepts.
pub enum Reply {
    /// Nothing to send back.
    Nothing,
    /// Send back the first bytes of the buffer, this many.
    Send(usize),
    /// A client is connected: send back the first bytes of the buffer,
    /// this many; the client has this id and user data.
    Accepted { len: usize, id: u64, user: [u8; USER] },
}

/// A server.
pub struct Server {
    time: u64,
    protocol: u64,
    local_addr: Addr,
    connected: AddrMap<Conn>,
    connected_by_id: HashMap<u64, Addr>,
    incoming: Incoming,
    global_sequence: u32,
    capacity: usize,
}

impl Server {
    /// Every connection is in order, and the addresses by id are exactly
    /// the connections' ids.
    pub closed spec fn wf(&self) -> bool {
        &&& self.incoming.protocol() == self.protocol
        &&& forall|a: Addr| #[trigger] self.connected@.contains_key(a) ==> self.connected@[a].wf()
        &&& forall|a: Addr| #[trigger] self.connected@.contains_key(a) ==> self.connected_by_id@.contains_key(
            self.connected@[a].spec_id(),
        ) && self.connected_by_id@[self.connected@[a].spec_id()] == a
        &&& forall|id: u64| #[trigger] self.connected_by_id@.contains_key(id) ==> self.connected@.contains_key(
            self.connected_by_id@[id],
        ) && self.connected@[self.connected_by_id@[id]].spec_id() == id
    }

    pub closed spec fn spec_time(&self) -> u64 {
        self.time
    }

    pub closed spec fn spec_protocol(&self) -> u64 {
        self.protocol
    }

    pub closed spec fn spec_local_addr(&self) -> Addr {
        self.local_addr
    }

    /// The connections by address.
    pub closed spec fn spec_connected(&self) -> Map<Addr, Conn> {
        self.connected@
    }

    /// The addresses of the connections by client id.
    pub closed spec fn spec_by_id(&self) -> Map<u64, Addr> {
        self.connected_by_id@
    }

    pub closed spec fn spec_incoming(&self) -> Incoming {
        self.incoming
    }

    /// The sequence of the next packet that is not sent on a connection.
    pub closed spec fn spec_sequence(&self) -> u32 {
        self.global_sequence
    }

    /// The capacity (zero: no limit).
    pub closed spec fn spec_capacity(&self) -> usize {
        self.capacity
    }

    /// A server for `protocol` at `local_addr` whose private tokens are
    /// sealed under `private`, at time `now`.
    pub fn new(protocol: u64, private: [u8; KEY], local_addr: Addr, now: u64) -> (r: Option<Self>)
        ensures
            r is Some ==> {
                let sv = r.unwrap();
                &&& sv.wf()
                &&& sv.spec_time() == now
                &&& sv.spec_protocol() == protocol
                &&& sv.spec_local_addr() == local_addr
                &&& sv.spec_connected() == Map::<Addr, Conn>::empty()
                &&& sv.spec_by_id() == Map::<u64, Addr>::empty()
                &&& sv.spec_sequence() == 0x0100_0000
                &&& sv.spec_capacity() == 0
                &&& sv.spec_incoming().protocol() == protocol
                &&& sv.spec_incoming().private_key() == private@
                &&& sv.spec_incoming().challenge_sequence() == 0
                &&& sv.spec_incoming().pending() == Map::<Addr, KeyPair>::empty()
                &&& sv.spec_incoming().history() == Map::<u128, (Addr, u64)>::empty()
            },
    {
        let incoming = match Incoming::new(protocol, private) {
            Some(i) => i,
            None => return None,
        };
        Some(Self {
            time: now,
            protocol,
            local_addr,
            incoming,
            connected: AddrMap::new(),
            connected_by_id: HashMap::new(),
            global_sequence: 0x0100_0000,
            capacity: 0,
        })
    }

    pub fn local_addr(&self) -> (r: Addr)
        ensures
            r == self.spec_local_addr(),
    {
        self.local_addr
    }

    fn is_already_connected(&self, addr: &Addr, id: u64) -> (r: bool)
        ensures
            r == (self.spec_connected().contains_key(*addr) || self.spec_by_id().contains_key(id)),
    {
        self.connected.contains(addr) || self.connected_by_id.contains_key(&id)
    }

    /// Whether another client may connect (as written: with no capacity, or
    /// once the capacity is reached).
    fn can_connect(&self) -> (r: bool)
        ensures
            r == (self.spec_capacity() == 0 || self.spec_capacity() <= self.spec_connected().dom().len()),
    {
        let n = self.connected.len();
        self.capacity == 0 || self.capacity <= n
    }

    fn next_global(&mut self) -> (s: u32)
        ensures
            s == old(self).global_sequence,
            final(self).global_sequence == (if old(self).global_sequence == u32::MAX { 0 } else { old(self).global_sequence + 1 }),
            final(self).connected == old(self).connected,
            final(self).connected_by_id == old(self).connected_by_id,
            final(self).incoming == old(self).incoming,
            final(self).time == old(self).time,
            final(self).protocol == old(self).protocol,
            final(self).capacity == old(self).capacity,
            final(self).local_addr == old(self).local_addr,
    {
        let s = self.global_sequence;
        self.global_sequence = self.global_sequence.wrapping_add(1);
        s
    }

    /// A denied packet under `key`, with the next global sequence.
    pub fn denied_packet(&mut self, key: &[u8; KEY]) -> (r: [u8; OVERHEAD])
        requires
            old(self).wf(),
        ensures
            final(self).wf(),
            r@ == sealed_packet(key@, old(self).spec_protocol(), crate::protocol::DENIED, old(self).spec_sequence(), seq![]),
            final(self).spec_sequence() == (if old(self).spec_sequence() == u32::MAX { 0 } else { old(self).spec_sequence() + 1 }),
            final(self).spec_connected() == old(self).spec_connected(),
            final(self).spec_by_id() == old(self).spec_by_id(),
            final(self).spec_incoming() == old(self).spec_incoming(),
    {
        let seq = self.next_global();
        denied_packet(self.protocol, seq, key)
    }

    fn process_request<F: Fn(&[u8; DATA]) -> Result<ServerList, ()>>(&mut self, buf: &mut [u8], addr: Addr, deserialize: F) -> (r: Result<Reply, ConnectionError>)
        requires
            old(self).wf(),
            forall|d: &[u8; DATA]| #[trigger] deserialize.requires((d,)),
        ensures
            final(self).wf(),
            final(self).spec_connected() == old(self).spec_connected(),
            final(self).spec_by_id() == old(self).spec_by_id(),
            final(self).spec_time() == old(self).spec_time(),
            final(self).spec_protocol() == old(self).spec_protocol(),
            final(self).spec_local_addr() == old(self).spec_local_addr(),
            final(self).spec_capacity() == old(self).spec_capacity(),
            request_result(*old(self), old(buf)@, addr, r, *final(self), final(buf)@, deserialize),
    {
        if buf.len() != REQUEST_PACKET_LEN {
            return Err(ConnectionError::InvalidPacket);
        }
        let req = RequestPacket::from_bytes(buf);
        let ghost inc = self.incoming;
        let (expire, token) = match self.incoming.open_request(&req) {
            Ok(x) => x,
            Err(()) => return Err(ConnectionError::InvalidPacket),
        };
        proof {
            token.lemma_len();
            assert(request_opened(inc.private_key(), old(buf)@, token@));
        }
        let d = token.data();
        let list = match deserialize(d) {
            Ok(l) => l,
            Err(()) => return Err(ConnectionError::InvalidPacket),
        };
        if !list.contains(&self.local_addr) {
            return Err(ConnectionError::InvalidPacket);
        }
        proof {
            assert(deserialize.ensures((d,), Ok::<ServerList, ()>(list)));
        }
        let id = token.client_id();
        if self.is_already_connected(&addr, id) {
            return Err(ConnectionError::AlreadyConnected);
        }
        let hmac = *token.hmac();
        if !self.incoming.add_token_history(hmac, addr, expire) {
            proof {
                let b = old(buf)@;
                assert(hmac@ == token@.subrange(1008, 1024));
                assert(used_elsewhere(inc, token@, addr));
                assert(!already_connected(*old(self), addr, le_read(token@.subrange(0, 8), 8)));
                assert forall|tok: Seq<u8>| #[trigger] request_opened(inc.private_key(), b, tok) implies tok == token@ by {
                    lemma_opened_unique(inc.private_key(), b, tok, token@);
                }
                let rr = Err::<Reply, ConnectionError>(ConnectionError::TokenAlreadyUsed);
                let ss = *old(self);
                assert(ss.spec_incoming() == inc);
                assert(b.len() == REQUEST_PACKET_LEN && request_valid(b, inc.protocol(), inc.timestamp()) && request_opens(
                    inc.private_key(),
                    b,
                ));
                assert(request_opened(inc.private_key(), b, token@));
                assert forall|tok: Seq<u8>| #[trigger] request_opened(inc.private_key(), b, tok) && lists_server(
                    deserialize,
                    tok,
                    ss.spec_local_addr(),
                ) implies {
                    let id = le_read(tok.subrange(0, 8), 8);
                    &&& already_connected(ss, addr, id) ==> (rr matches Err(ConnectionError::AlreadyConnected))
                    &&& !already_connected(ss, addr, id) && used_elsewhere(inc, tok, addr) ==> (rr matches Err(
                        ConnectionError::TokenAlreadyUsed,
                    ))
                    &&& !already_connected(ss, addr, id) && !used_elsewhere(inc, tok, addr) ==> false
                } by {
                    lemma_opened_unique(inc.private_key(), b, tok, token@);
                }
                assert(request_result(ss, b, addr, rr, *self, buf@, deserialize));
            }
            return Err(ConnectionError::TokenAlreadyUsed);
        }
        if !self.can_connect() {
            let k = *token.server_key();
            proof {
                let b = old(buf)@;
                let ss = *old(self);
                assert(ss.spec_incoming() == inc);
                assert(request_opened(inc.private_key(), b, token@) && k@ == token@.subrange(80, 112));
            }
            return Err(ConnectionError::ConnectionDenied(k));
        }
        self.incoming.insert(addr, expire, &token);
        let seq = self.next_global();
        let packet = self.incoming.challenge_packet(seq, &token);
        write_at(buf, 0, &packet);
        proof {
            let b = old(buf)@;
            let ss = *old(self);
            let inc2 = ss.spec_incoming();
            assert(inc2 == inc);
            assert(b == req@);
            assert(final(buf)@.subrange(0, CHALLENGE_PACKET_LEN as int) =~= packet@);
            assert(self.incoming.history().contains_key(tag_fold(token@.subrange(1008, 1024), 0)));
            let tok = token@;
            assert(request_opened(inc2.private_key(), b, tok));
            let dd = *d;
            assert(dd@ == tok.subrange(112, 752));
            assert(deserialize.ensures((&dd,), Ok::<ServerList, ()>(list)) && list@.contains(ss.spec_local_addr()));
        }
        Ok(Reply::Send(CHALLENGE_PACKET_LEN))
    }

    #[verifier::rlimit(40)]
    fn process_response(&mut self, buf: &mut [u8], addr: Addr) -> (r: Result<Reply, ConnectionError>)
        requires
            old(self).wf(),
            old(buf)@.len() >= OVERHEAD,
        ensures
            final(self).wf(),
            final(self).spec_time() == old(self).spec_time(),
            final(self).spec_protocol() == old(self).spec_protocol(),
            final(self).spec_local_addr() == old(self).spec_local_addr(),
            final(self).spec_capacity() == old(self).spec_capacity(),
            final(self).spec_sequence() == old(self).spec_sequence(),
            response_result(*old(self), old(buf)@, addr, r, *final(self), final(buf)@),
    {
        let ghost inc = self.incoming;
        let (send_key, token) = match self.incoming.open_response_packet(buf, &addr) {
            Ok(x) => x,
            Err(()) => return Err(ConnectionError::InvalidPacket),
        };
        let id = token.client_id();
        let ghost b = old(buf)@;
        let ghost rk = inc.pending()[addr].recv_key@;
        proof {
            assert((*old(self)).spec_incoming() == inc);
            assert(response_token(rk, inc.challenge_key(), inc.protocol(), b, token@));
            assert forall|tok: Seq<u8>| !response_fails(rk, inc.challenge_key(), inc.protocol(), b)
                && #[trigger] response_token(rk, inc.challenge_key(), inc.protocol(), b, tok) implies tok == token@ by {
                lemma_response_unique(rk, inc.challenge_key(), inc.protocol(), b, tok, token@);
            }
        }
        if self.is_already_connected(&addr, id) {
            proof {
                assert(already_connected(*old(self), addr, le_read(token@.subrange(0, 8), 8)));
            }
            return Err(ConnectionError::AlreadyConnected);
        }
        if !self.can_connect() {
            proof {
                assert(!can_take(*old(self)));
                assert(!already_connected(*old(self), addr, le_read(token@.subrange(0, 8), 8)));
            }
            return Err(ConnectionError::ConnectionDenied(send_key));
        }
        proof {
            assert(can_take(*old(self)));
            assert(!already_connected(*old(self), addr, le_read(token@.subrange(0, 8), 8)));
        }
        let keys = match self.incoming.remove(&addr) {
            Some(k) => k,
            None => return Err(ConnectionError::InvalidPacket),
        };
        let packet = keep_alive_packet(self.protocol, 0, &keys.send_key);
        write_at(buf, 0, &packet);
        let conn = Conn::new(id, self.time, keys);
        let ghost before_conn = self.connected@;
        let ghost before_id = self.connected_by_id@;
        self.connected_by_id.insert(id, addr);
        self.connected.insert(addr, conn);
        let user = *token.user();
        proof {
            let ss = *old(self);
            let inc2 = ss.spec_incoming();
            assert(inc2 == inc);
            let tok = token@;
            assert(response_token(inc2.pending()[addr].recv_key@, inc2.challenge_key(), inc2.protocol(), old(buf)@, tok));
            assert(final(buf)@.subrange(0, OVERHEAD as int) =~= packet@);
            let t = *self;
            let kk = inc2.pending()[addr];
            assert(kk == keys);
            assert(t.spec_connected() == ss.spec_connected().insert(addr, t.spec_connected()[addr]));
            assert(t.spec_connected()[addr].spec_id() == le_read(tok.subrange(0, 8), 8));
            assert(t.spec_connected()[addr].spec_send_key() == kk.send_key@);
            assert(t.spec_connected()[addr].spec_recv_key() == kk.recv_key@);
            assert(t.spec_connected()[addr].spec_timeout() == kk.timeout * 1000);
            assert(t.spec_connected()[addr].spec_last_recv() == ss.spec_time());
            assert(t.spec_connected()[addr].spec_queue() == Seq::<Seq<u8>>::empty());
            assert(t.spec_by_id() == ss.spec_by_id().insert(le_read(tok.subrange(0, 8), 8), addr));
            assert(t.spec_incoming().pending() == inc2.pending().remove(addr));
            assert(user@ == tok.subrange(28, 284));
            assert(final(buf)@.subrange(0, OVERHEAD as int) == sealed_packet(kk.send_key@, inc2.protocol(), KEEP_ALIVE, 0, seq![]));
            assert forall|a: Addr| #[trigger] self.connected@.contains_key(a) implies self.connected@[a].wf() by {
                if a != addr {
                    assert(before_conn.contains_key(a));
                }
            }
            assert forall|a: Addr| #[trigger] self.connected@.contains_key(a) implies self.connected_by_id@.contains_key(
                self.connected@[a].spec_id(),
            ) && self.connected_by_id@[self.connected@[a].spec_id()] == a by {
                if a != addr {
                    assert(before_conn.contains_key(a));
                    assert(before_id.contains_key(before_conn[a].spec_id()));
                    assert(before_conn[a].spec_id() != id);
                }
            }
            assert forall|i: u64| #[trigger] self.connected_by_id@.contains_key(i) implies self.connected@.contains_key(
                self.connected_by_id@[i],
            ) && self.connected@[self.connected_by_id@[i]].spec_id() == i by {
                if i != id {
                    assert(before_id.contains_key(i));
                    assert(before_conn.contains_key(before_id[i]));
                    assert(before_id[i] != addr);
                }
            }
        }
        Ok(Reply::Accepted { len: OVERHEAD, id, user })
    }

    fn process_disconnect_from(&mut self, buf: &[u8], addr: Addr) -> (r: Reply)
        requires
            old(self).wf(),
        ensures
            final(self).wf(),
            r is Nothing,
            final(self).spec_time() == old(self).spec_time(),
            final(self).spec_protocol() == old(self).spec_protocol(),
            final(self).spec_local_addr() == old(self).spec_local_addr(),
            final(self).spec_capacity() == old(self).spec_capacity(),
            disconnect_result(*old(self), buf@, addr, *final(self)),
    {
        let ghost before_conn = self.connected@;
        let ghost before_id = self.connected_by_id@;
        let mut c = match self.connected.remove(&addr) {
            Some(c) => c,
            None => {
                proof { assert(self.connected@ =~= before_conn); }
                return Reply::Nothing;
            },
        };
        if c.process_disconnect(self.protocol, buf) {
            let id = c.id;
            self.connected_by_id.remove(&id);
            proof {
                assert forall|a: Addr| #[trigger] self.connected@.contains_key(a) implies self.connected_by_id@.contains_key(
                    self.connected@[a].spec_id(),
                ) && self.connected_by_id@[self.connected@[a].spec_id()] == a by {
                    assert(before_conn.contains_key(a));
                    assert(before_id[before_conn[a].spec_id()] == a);
                }
                assert forall|i: u64| #[trigger] self.connected_by_id@.contains_key(i) implies self.connected@.contains_key(
                    self.connected_by_id@[i],
                ) && self.connected@[self.connected_by_id@[i]].spec_id() == i by {
                    assert(before_id.contains_key(i));
                    assert(before_id[i] != addr);
                }
            }
        } else {
            self.connected.insert(addr, c);
            proof {
                assert(self.connected@.dom() =~= before_conn.dom());
                assert forall|a: Addr| #[trigger] self.connected@.contains_key(a) implies self.connected_by_id@.contains_key(
                    self.connected@[a].spec_id(),
                ) && self.connected_by_id@[self.connected@[a].spec_id()] == a by {
                    assert(before_conn.contains_key(a));
                }
                assert forall|i: u64| #[trigger] self.connected_by_id@.contains_key(i) implies self.connected@.contains_key(
                    self.connected_by_id@[i],
                ) && self.connected@[self.connected_by_id@[i]].spec_id() == i by {
                    assert(before_id.contains_key(i));
                }
            }
        }
        Reply::Nothing
    }

    fn process_payload_from(&mut self, buf: &[u8], addr: Addr) -> (r: Reply)
        requires
            old(self).wf(),
            buf@.len() <= crate::crypto::MAX_MESSAGE,
        ensures
            final(self).wf(),
            r is Nothing,
            final(self).spec_time() == old(self).spec_time(),
            final(self).spec_protocol() == old(self).spec_protocol(),
            final(self).spec_local_addr() == old(self).spec_local_addr(),
            final(self).spec_capacity() == old(self).spec_capacity(),
            payload_result(*old(self), buf@, addr, *final(self)),
    {
        let ghost before_conn = self.connected@;
        let ghost before_id = self.connected_by_id@;
        let mut c = match self.connected.remove(&addr) {
            Some(c) => c,
            None => {
                proof { assert(self.connected@ =~= before_conn); }
                return Reply::Nothing;
            },
        };
        let _ = c.process_payload(self.protocol, self.time, buf);
        self.connected.insert(addr, c);
        proof {
            assert(self.connected@.dom() =~= before_conn.dom());
            assert forall|a: Addr| #[trigger] self.connected@.contains_key(a) implies self.connected_by_id@.contains_key(
                self.connected@[a].spec_id(),
            ) && self.connected_by_id@[self.connected@[a].spec_id()] == a by {
                assert(before_conn.contains_key(a));
            }
            assert forall|i: u64| #[trigger] self.connected_by_id@.contains_key(i) implies self.connected@.contains_key(
                self.connected_by_id@[i],
            ) && self.connected@[self.connected_by_id@[i]].spec_id() == i by {
                assert(before_id.contains_key(i));
            }
        }
        Reply::Nothing
    }

    /// Handles a datagram from `addr`: a request (answered with a
    /// challenge packet written to the start of `buf`), a response
    /// (answered with a keep-alive, and the client is connected), a
    /// disconnect, or a payload. `deserialize` reads the server list from
    /// the open data of a request's token.
    pub fn process_packet<F: Fn(&[u8; DATA]) -> Result<ServerList, ()>>(&mut self, buf: &mut [u8], addr: Addr, deserialize: F) -> (r: Result<Reply, ConnectionError>)
        requires
            old(self).wf(),
            forall|d: &[u8; DATA]| #[trigger] deserialize.requires((d,)),
            old(buf)@.len() <= crate::crypto::MAX_MESSAGE,
        ensures
            final(self).wf(),
            final(self).spec_time() == old(self).spec_time(),
            final(self).spec_protocol() == old(self).spec_protocol(),
            final(self).spec_local_addr() == old(self).spec_local_addr(),
            final(self).spec_capacity() == old(self).spec_capacity(),
            ({
                let b = old(buf)@;
                &&& b.len() < OVERHEAD ==> (r matches Err(ConnectionError::InvalidPacket)) && *final(self) == *old(self)
                &&& b.len() >= OVERHEAD && b[0] >> 6u8 == REQUEST ==> request_result(
                    *old(self),
                    b,
                    addr,
                    r,
                    *final(self),
                    final(buf)@,
                    deserialize,
                ) && final(self).spec_connected() == old(self).spec_connected() && final(self).spec_by_id()
                    == old(self).spec_by_id()
                &&& b.len() >= OVERHEAD && b[0] >> 6u8 == CHALLENGE ==> response_result(
                    *old(self),
                    b,
                    addr,
                    r,
                    *final(self),
                    final(buf)@,
                ) && final(self).spec_sequence() == old(self).spec_sequence()
                &&& b.len() >= OVERHEAD && b[0] >> 6u8 == DISCONNECT ==> (r matches Ok(Reply::Nothing))
                    && disconnect_result(*old(self), b, addr, *final(self))
                &&& b.len() >= OVERHEAD && b[0] >> 6u8 == PAYLOAD ==> (r matches Ok(Reply::Nothing))
                    && payload_result(*old(self), b, addr, *final(self))
            }),
    {
        if buf.len() < OVERHEAD {
            return Err(ConnectionError::InvalidPacket);
        }
        let prefix = buf[0];
        let kind = prefix >> 6;
        if kind == REQUEST {
            self.process_request(buf, addr, deserialize)
        } else if kind == CHALLENGE {
            self.process_response(buf, addr)
        } else if kind == DISCONNECT {
            Ok(self.process_disconnect_from(buf, addr))
        } else {
            proof {
                assert((prefix >> 6u8) <= 3) by (bit_vector);
            }
            Ok(self.process_payload_from(buf, addr))
        }
    }

    /// Starts an update at time `now`: drops the pending clients and used
    /// tokens that expired by the system clock. Gives `false`, dropping
    /// nothing, when that clock cannot be read.
    pub fn begin_update(&mut self, now: u64) -> (r: bool)
        requires
            old(self).wf(),
        ensures
            final(self).wf(),
            final(self).spec_time() == now,
            final(self).spec_connected() == old(self).spec_connected(),
            final(self).spec_by_id() == old(self).spec_by_id(),
            final(self).spec_sequence() == old(self).spec_sequence(),
            final(self).spec_protocol() == old(self).spec_protocol(),
            final(self).spec_local_addr() == old(self).spec_local_addr(),
            final(self).spec_capacity() == old(self).spec_capacity(),
            r ==> updated(old(self).spec_incoming(), final(self).spec_incoming()),
            !r ==> final(self).spec_incoming() == old(self).spec_incoming(),
    {
        let r = self.incoming.update();
        self.time = now;
        r
    }

    /// The packet that carries `payload` to the client at `addr` (an empty
    /// payload closes the connection and gives a disconnect packet), with
    /// the connection's next sequence; none for an unknown address.
    pub fn send_client(&mut self, addr: Addr, payload: &[u8]) -> (r: Option<Vec<u8>>)
        requires
            old(self).wf(),
        ensures
            final(self).wf(),
            final(self).spec_time() == old(self).spec_time(),
            final(self).spec_by_id() == old(self).spec_by_id(),
            final(self).spec_connected().dom() == old(self).spec_connected().dom(),
            r is Some <==> old(self).spec_connected().contains_key(addr),
            r is Some ==> {
                let c = old(self).spec_connected()[addr];
                let kind = if payload@.len() == 0 { DISCONNECT } else { PAYLOAD };
                let m = if payload@.len() <= MAX_PAYLOAD { payload@ } else { payload@.subrange(0, MAX_PAYLOAD as int) };
                &&& r.unwrap()@ == sealed_packet(c.spec_send_key(), old(self).spec_protocol(), kind, c.spec_sequence(), m)
                &&& final(self).spec_connected()[addr].spec_last_send() == old(self).spec_time()
            },
    {
        let ghost before_conn = self.connected@;
        let ghost before_id = self.connected_by_id@;
        let mut c = match self.connected.remove(&addr) {
            Some(c) => c,
            None => {
                proof { assert(self.connected@ =~= before_conn); }
                return None;
            },
        };
        let seq = c.seq_send(self.time);
        let packet = if payload.len() == 0 {
            let p = disconnect_packet(self.protocol, seq, &c.send_key);
            let mut v: Vec<u8> = Vec::new();
            crate::bytes::push_all(&mut v, &p);
            proof { assert(payload@ =~= seq![]); }
            v
        } else {
            send_payload(self.protocol, seq, &c.send_key, payload)
        };
        proof {
            assert(payload@.len() <= MAX_PAYLOAD ==> payload@.subrange(0, payload@.len() as int) =~= payload@);
        }
        self.connected.insert(addr, c);
        proof {
            assert(self.connected@.dom() =~= before_conn.dom());
            assert forall|a: Addr| #[trigger] self.connected@.contains_key(a) implies self.connected@[a].wf() by {
                assert(before_conn.contains_key(a));
            }
            assert forall|a: Addr| #[trigger] self.connected@.contains_key(a) implies self.connected_by_id@.contains_key(
                self.connected@[a].spec_id(),
            ) && self.connected_by_id@[self.connected@[a].spec_id()] == a by {
                assert(before_conn.contains_key(a));
            }
            assert forall|i: u64| #[trigger] self.connected_by_id@.contains_key(i) implies self.connected@.contains_key(
                self.connected_by_id@[i],
            ) && self.connected@[self.connected_by_id@[i]].spec_id() == i by {
                assert(before_id.contains_key(i));
            }
        }
        Some(packet)
    }

    /// The oldest payload received from the client at `addr`.
    pub fn recv_client(&mut self, addr: Addr) -> (r: Option<Vec<u8>>)
        requires
            old(self).wf(),
        ensures
            final(self).wf(),
            final(self).spec_by_id() == old(self).spec_by_id(),
            final(self).spec_connected().dom() == old(self).spec_connected().dom(),
            !old(self).spec_connected().contains_key(addr) ==> r is None,
            old(self).spec_connected().contains_key(addr) ==> {
                let q = old(self).spec_connected()[addr].spec_queue();
                &&& q.len() == 0 ==> r is None
                &&& q.len() > 0 ==> r is Some && r.unwrap()@ == q[0] && final(self).spec_connected()[addr].spec_queue()
                    == q.drop_first()
            },
    {
        let ghost before_conn = self.connected@;
        let ghost before_id = self.connected_by_id@;
        let mut c = match self.connected.remove(&addr) {
            Some(c) => c,
            None => {
                proof { assert(self.connected@ =~= before_conn); }
                return None;
            },
        };
        let r = if c.queue.len() == 0 {
            None
        } else {
            let ghost q = c.spec_queue();
            let v = c.queue.remove(0);
            proof { assert(c.spec_queue() =~= q.drop_first()); }
            Some(v)
        };
        self.connected.insert(addr, c);
        proof {
            assert(self.connected@.dom() =~= before_conn.dom());
            assert forall|a: Addr| #[trigger] self.connected@.contains_key(a) implies self.connected@[a].wf() by {
                assert(before_conn.contains_key(a));
            }
            assert forall|a: Addr| #[trigger] self.connected@.contains_key(a) implies self.connected_by_id@.contains_key(
                self.connected@[a].spec_id(),
            ) && self.connected_by_id@[self.connected@[a].spec_id()] == a by {
                assert(before_conn.contains_key(a));
            }
            assert forall|i: u64| #[trigger] self.connected_by_id@.contains_key(i) implies self.connected@.contains_key(
                self.connected_by_id@[i],
            ) && self.connected@[self.connected_by_id@[i]].spec_id() == i by {
                assert(before_id.contains_key(i));
            }
        }
        r
    }

    /// Drops the connections that are closed or timed out at the current
    /// time, with their ids; gives the ids.
    pub fn check_timeouts(&mut self) -> (r: Vec<u64>)
        requires
            old(self).wf(),
        ensures
            final(self).wf(),
            final(self).spec_time() == old(self).spec_time(),
            forall|a: Addr| #[trigger] final(self).spec_connected().contains_key(a) <==> old(self).spec_connected().contains_key(a)
                && !(old(self).spec_connected()[a].spec_closed() || old(self).spec_connected()[a].spec_last_recv()
                + old(self).spec_connected()[a].spec_timeout() < old(self).spec_time()),
            forall|a: Addr| #[trigger] final(self).spec_connected().contains_key(a) ==> final(self).spec_connected()[a]
                == old(self).spec_connected()[a],
            final(self).spec_protocol() == old(self).spec_protocol(),
            final(self).spec_incoming() == old(self).spec_incoming(),
            final(self).spec_sequence() == old(self).spec_sequence(),
            forall|i: int| 0 <= i < r@.len() ==> dropped_id(old(self).spec_connected(), final(self).spec_connected(), #[trigger] r@[i]),
            forall|a: Addr| #[trigger] old(self).spec_connected().contains_key(a) && !final(self).spec_connected().contains_key(a)
                ==> r@.contains(old(self).spec_connected()[a].spec_id()),
    {
        let keys = self.connected.keys();
        let mut removed: Vec<u64> = Vec::new();
        let mut i: usize = 0;
        let ghost s = self.connected@;
        while i < keys.len()
            invariant
                self.wf(),
                self.time == old(self).time,
                s == old(self).connected@,
                i <= keys@.len(),
                forall|j: int| 0 <= j < keys@.len() ==> s.contains_key(#[trigger] keys@[j]),
                forall|k: Addr| #[trigger] s.contains_key(k) ==> keys@.contains(k),
                forall|a: Addr| #[trigger] self.connected@.contains_key(a) ==> s.contains_key(a) && self.connected@[a] == s[a],
                forall|a: Addr| #[trigger] s.contains_key(a) && !self.connected@.contains_key(a) ==> (s[a].spec_closed()
                    || s[a].spec_last_recv() + s[a].spec_timeout() < self.time),
                forall|j: int| 0 <= j < i ==> (#[trigger] self.connected@.contains_key(keys@[j]) ==> !(s[keys@[j]].spec_closed()
                    || s[keys@[j]].spec_last_recv() + s[keys@[j]].spec_timeout() < self.time)),
                forall|a: Addr| #[trigger] s.contains_key(a) && !(exists|j: int| 0 <= j < i && keys@[j] == a)
                    ==> self.connected@.contains_key(a),
                self.protocol == old(self).protocol,
                self.incoming == old(self).incoming,
                self.global_sequence == old(self).global_sequence,
                forall|j: int| 0 <= j < removed@.len() ==> dropped_id(s, self.connected@, #[trigger] removed@[j]),
                forall|a: Addr| #[trigger] s.contains_key(a) && !self.connected@.contains_key(a) ==> removed@.contains(
                    s[a].spec_id(),
                ),
            decreases keys@.len() - i,
        {
            let a = keys[i];
            let ghost removed_before = removed@;
            let ghost conn_start = self.connected@;
            let expired = match self.connected.get(&a) {
                Some(c) => c.check(self.time),
                None => false,
            };
            if expired {
                let ghost before_conn = self.connected@;
                let ghost before_id = self.connected_by_id@;
                let c = self.connected.remove(&a);
                match c {
                    Some(c) => {
                        let id = c.id;
                        self.connected_by_id.remove(&id);
                        removed.push(id);
                        proof {
                            assert forall|b: Addr| #[trigger] self.connected@.contains_key(b) implies self.connected_by_id@.contains_key(
                                self.connected@[b].spec_id(),
                            ) && self.connected_by_id@[self.connected@[b].spec_id()] == b by {
                                assert(before_conn.contains_key(b));
                                assert(before_id[before_conn[b].spec_id()] == b);
                            }
                            assert forall|k: u64| #[trigger] self.connected_by_id@.contains_key(k) implies self.connected@.contains_key(
                                self.connected_by_id@[k],
                            ) && self.connected@[self.connected_by_id@[k]].spec_id() == k by {
                                assert(before_id.contains_key(k));
                                assert(before_id[k] != a);
                            }
                        }
                    },
                    None => {},
                }
            }
            proof {
                assert(forall|b: Addr| #[trigger] self.connected@.contains_key(b) ==> conn_start.contains_key(b));
                assert(removed_before.len() <= removed@.len());
                assert(forall|j: int| 0 <= j < removed_before.len() ==> removed@[j] == removed_before[j]);
                assert(removed@.len() > removed_before.len() ==> removed@.len() == removed_before.len() + 1
                    && conn_start.contains_key(a) && !self.connected@.contains_key(a) && s[a].spec_id() == removed@[removed_before.len() as int]);
                assert(removed@.len() == removed_before.len() ==> self.connected@ == conn_start);
                assert forall|j: int| 0 <= j < removed@.len() implies dropped_id(s, self.connected@, #[trigger] removed@[j]) by {
                    if j < removed_before.len() {
                        assert(dropped_id(s, conn_start, removed_before[j]));
                        let b = choose|b: Addr| #[trigger] s.contains_key(b) && !conn_start.contains_key(b)
                            && s[b].spec_id() == removed_before[j];
                        assert(s.contains_key(b) && !self.connected@.contains_key(b));
                    } else {
                        assert(s.contains_key(a) && !self.connected@.contains_key(a));
                    }
                }
                assert forall|b: Addr| #[trigger] s.contains_key(b) && !self.connected@.contains_key(b)
                    implies removed@.contains(s[b].spec_id()) by {
                    if conn_start.contains_key(b) {
                        assert(b == a);
                        assert(removed@[removed_before.len() as int] == s[b].spec_id());
                    } else {
                        assert(removed_before.contains(s[b].spec_id()));
                        let j = choose|j: int| 0 <= j < removed_before.len() && removed_before[j] == s[b].spec_id();
                        assert(removed@[j] == removed_before[j]);
                    }
                }
                assert forall|b: Addr| #[trigger] s.contains_key(b) && !(exists|j: int| 0 <= j < i + 1 && keys@[j] == b)
                    implies self.connected@.contains_key(b) by {
                    assert(!(exists|j: int| 0 <= j < i && keys@[j] == b));
                    assert(keys@[i as int] != b);
                }
            }
            i = i + 1;
        }
        proof {
            assert forall|a: Addr| #[trigger] self.connected@.contains_key(a) implies !(s[a].spec_closed()
                || s[a].spec_last_recv() + s[a].spec_timeout() < self.time) by {
                assert(keys@.contains(a));
                let j = choose|j: int| 0 <= j < keys@.len() && keys@[j] == a;
                assert(self.connected@.contains_key(keys@[j]));
            }
        }
        removed
    }

    /// Keep-alive packets, with each connection's next sequence, for the
    /// connections whose last send is less than `PACKET_SEND_DELTA` before
    /// now (the comparison stands as it is written).
    #[verifier::rlimit(60)]
    #[verifier::spinoff_prover]
    pub fn keep_alives(&mut self) -> (r: Vec<(Addr, [u8; OVERHEAD])>)
        requires
            old(self).wf(),
        ensures
            final(self).wf(),
            final(self).spec_time() == old(self).spec_time(),
            final(self).spec_by_id() == old(self).spec_by_id(),
            final(self).spec_connected().dom() == old(self).spec_connected().dom(),
            final(self).spec_protocol() == old(self).spec_protocol(),
            final(self).spec_incoming() == old(self).spec_incoming(),
            final(self).spec_sequence() == old(self).spec_sequence(),
            forall|a: Addr| #[trigger] old(self).spec_connected().contains_key(a) ==> kept_alive(
                final(self).spec_connected()[a],
                old(self).spec_connected()[a],
                old(self).spec_time(),
            ),
            forall|i: int| 0 <= i < r@.len() ==> {
                let (a, p) = #[trigger] r@[i];
                let c = old(self).spec_connected()[a];
                &&& old(self).spec_connected().contains_key(a)
                &&& wants_keep_alive(c, old(self).spec_time())
                &&& p@ == sealed_packet(c.spec_send_key(), old(self).spec_protocol(), KEEP_ALIVE, c.spec_sequence(), seq![])
            },
            forall|a: Addr| #[trigger] old(self).spec_connected().contains_key(a) && wants_keep_alive(
                old(self).spec_connected()[a],
                old(self).spec_time(),
            ) ==> exists|i: int| 0 <= i < r@.len() && (#[trigger] r@[i]).0 == a,
            forall|i: int, j: int| 0 <= i < j < r@.len() ==> (#[trigger] r@[i]).0 != (#[trigger] r@[j]).0,
    {
        let keys = self.connected.keys();
        let mut out: Vec<(Addr, [u8; OVERHEAD])> = Vec::new();
        let ghost s = self.connected@;
        let mut i: usize = 0;
        while i < keys.len()
            invariant
                self.wf(),
                self.time == old(self).time,
                self.protocol == old(self).protocol,
                self.connected_by_id@ == old(self).connected_by_id@,
                s == old(self).connected@,
                i <= keys@.len(),
                forall|j: int| 0 <= j < keys@.len() ==> s.contains_key(#[trigger] keys@[j]),
                forall|j: int, k: int| 0 <= j < k < keys@.len() ==> keys@[j] != keys@[k],
                self.connected@.dom() == s.dom(),
                forall|a: Addr| #[trigger] s.contains_key(a) && !(exists|j: int| 0 <= j < i && keys@[j] == a)
                    ==> self.connected@[a] == s[a],
                forall|a: Addr| #[trigger] s.contains_key(a) ==> same_conn_keys(self.connected@[a], s[a]),
                forall|a: Addr| #[trigger] s.contains_key(a) ==> keys@.contains(a),
                forall|k: int| 0 <= k < i ==> kept_alive(self.connected@[#[trigger] keys@[k]], s[keys@[k]], self.time),
                forall|k: int| 0 <= k < i && wants_keep_alive(s[#[trigger] keys@[k]], self.time) ==> exists|j: int|
                    0 <= j < out@.len() && (#[trigger] out@[j]).0 == keys@[k],
                forall|j1: int, j2: int| 0 <= j1 < j2 < out@.len() ==> (#[trigger] out@[j1]).0 != (#[trigger] out@[j2]).0,
                self.incoming == old(self).incoming,
                self.global_sequence == old(self).global_sequence,
                forall|j: int| 0 <= j < out@.len() ==> {
                    let (a, p) = #[trigger] out@[j];
                    let c = s[a];
                    &&& s.contains_key(a)
                    &&& exists|k: int| 0 <= k < i && keys@[k] == a
                    &&& c.spec_last_send() + PACKET_SEND_DELTA > self.time
                    &&& p@ == sealed_packet(c.spec_send_key(), self.protocol, KEEP_ALIVE, c.spec_sequence(), seq![])
                },
            decreases keys@.len() - i,
        {
            let a = keys[i];
            let ghost before_conn = self.connected@;
            let ghost before_id = self.connected_by_id@;
            let ghost out_before = out@;
            let mut c = match self.connected.remove(&a) {
                Some(c) => c,
                None => {
                    proof { assert(false); }
                    return out;
                },
            };
            if (c.last_send as u128) + (PACKET_SEND_DELTA as u128) > (self.time as u128) {
                let seq = c.seq_send(self.time);
                let p = keep_alive_packet(self.protocol, seq, &c.send_key);
                out.push((a, p));
            }
            self.connected.insert(a, c);
            proof {
                assert(self.connected@.dom() =~= before_conn.dom());
                assert forall|b: Addr| #[trigger] self.connected@.contains_key(b) implies self.connected@[b].wf() by {
                    assert(before_conn.contains_key(b));
                }
                assert forall|b: Addr| #[trigger] self.connected@.contains_key(b) implies self.connected_by_id@.contains_key(
                    self.connected@[b].spec_id(),
                ) && self.connected_by_id@[self.connected@[b].spec_id()] == b by {
                    assert(before_conn.contains_key(b));
                }
                assert forall|k: u64| #[trigger] self.connected_by_id@.contains_key(k) implies self.connected@.contains_key(
                    self.connected_by_id@[k],
                ) && self.connected@[self.connected_by_id@[k]].spec_id() == k by {
                    assert(before_id.contains_key(k));
                }
                assert forall|b: Addr| #[trigger] s.contains_key(b) && !(exists|j: int| 0 <= j < i + 1 && keys@[j] == b)
                    implies self.connected@[b] == s[b] by {
                    assert(!(exists|j: int| 0 <= j < i && keys@[j] == b));
                }
                assert forall|j: int| 0 <= j < out@.len() implies {
                    let (b, p) = #[trigger] out@[j];
                    let c = s[b];
                    &&& s.contains_key(b)
                    &&& exists|k: int| 0 <= k < i + 1 && keys@[k] == b
                    &&& c.spec_last_send() + PACKET_SEND_DELTA > self.time
                    &&& p@ == sealed_packet(c.spec_send_key(), self.protocol, KEEP_ALIVE, c.spec_sequence(), seq![])
                } by {
                    if j == out@.len() - 1 && out@[j].0 == a {
                        assert(keys@[i as int] == a);
                    }
                }
                assert forall|k: int| 0 <= k < i + 1 implies kept_alive(self.connected@[#[trigger] keys@[k]], s[keys@[k]], self.time) by {
                    if k < i {
                        assert(keys@[k] != a);
                    }
                }
                assert forall|k: int| 0 <= k < i + 1 && wants_keep_alive(s[#[trigger] keys@[k]], self.time) implies exists|j: int|
                    0 <= j < out@.len() && (#[trigger] out@[j]).0 == keys@[k] by {
                    if k < i {
                        let j = choose|j: int| 0 <= j < out_before.len() && (#[trigger] out_before[j]).0 == keys@[k];
                        assert(out@[j] == out_before[j]);
                    } else {
                        assert(out@[out@.len() - 1].0 == a);
                    }
                }
                assert forall|j1: int, j2: int| 0 <= j1 < j2 < out@.len() implies (#[trigger] out@[j1]).0 != (#[trigger] out@[j2]).0 by {
                    if j2 >= out_before.len() {
                        assert(out@[j1] == out_before[j1]);
                        let (b, pb) = out_before[j1];
                        assert(exists|k: int| 0 <= k < i && keys@[k] == b);
                        let k = choose|k: int| 0 <= k < i && keys@[k] == b;
                        assert(keys@[k] != keys@[i as int]);
                    } else {
                        assert(out@[j1] == out_before[j1] && out@[j2] == out_before[j2]);
                    }
                }
            }
            i = i + 1;
        }
        proof {
            assert forall|b: Addr| #[trigger] s.contains_key(b) implies kept_alive(self.connected@[b], s[b], self.time) by {
                let k = choose|k: int| 0 <= k < keys@.len() && keys@[k] == b;
            }
            assert forall|b: Addr| #[trigger] s.contains_key(b) && wants_keep_alive(s[b], self.time) implies exists|j: int|
                0 <= j < out@.len() && (#[trigger] out@[j]).0 == b by {
                let k = choose|k: int| 0 <= k < keys@.len() && keys@[k] == b;
            }
        }
        out
    }

    /// Closes the connection at `addr`: marks it closed (the next check of
    /// timeouts drops it) and gives ten disconnect packets; nothing when it
    /// is unknown or already closed.
    pub fn close_client(&mut self, addr: Addr) -> (r: Vec<Vec<u8>>)
        requires
            old(self).wf(),
        ensures
            final(self).wf(),
            final(self).spec_by_id() == old(self).spec_by_id(),
            final(self).spec_connected().dom() == old(self).spec_connected().dom(),
            !old(self).spec_connected().contains_key(addr) || old(self).spec_connected()[addr].spec_closed() ==> r@.len() == 0,
            old(self).spec_connected().contains_key(addr) && !old(self).spec_connected()[addr].spec_closed() ==> {
                &&& r@.len() == NUM_DISCONNECT_PACKETS
                &&& final(self).spec_connected()[addr].spec_closed()
            },
    {
        let mut out: Vec<Vec<u8>> = Vec::new();
        let ghost before_conn = self.connected@;
        let ghost before_id = self.connected_by_id@;
        let mut c = match self.connected.remove(&addr) {
            Some(c) => c,
            None => {
                proof { assert(self.connected@ =~= before_conn); }
                return out;
            },
        };
        if c.closed {
            self.connected.insert(addr, c);
            proof {
                assert(self.connected@ =~= before_conn);
            }
            return out;
        }
        c.closed = true;
        let mut i: usize = 0;
        while i < NUM_DISCONNECT_PACKETS
            invariant
                i <= NUM_DISCONNECT_PACKETS,
                out@.len() == i,
                c.wf(),
                c.spec_closed(),
                c.spec_id() == before_conn[addr].spec_id(),
            decreases NUM_DISCONNECT_PACKETS - i,
        {
            let seq = c.seq_send(self.time);
            let p = disconnect_packet(self.protocol, seq, &c.send_key);
            let mut v: Vec<u8> = Vec::new();
            crate::bytes::push_all(&mut v, &p);
            out.push(v);
            i = i + 1;
        }
        self.connected.insert(addr, c);
        proof {
            assert(self.connected@.dom() =~= before_conn.dom());
            assert forall|b: Addr| #[trigger] self.connected@.contains_key(b) implies self.connected@[b].wf() by {
                assert(before_conn.contains_key(b));
            }
            assert forall|b: Addr| #[trigger] self.connected@.contains_key(b) implies self.connected_by_id@.contains_key(
                self.connected@[b].spec_id(),
            ) && self.connected_by_id@[self.connected@[b].spec_id()] == b by {
                assert(before_conn.contains_key(b));
            }
            assert forall|k: u64| #[trigger] self.connected_by_id@.contains_key(k) implies self.connected@.contains_key(
                self.connected_by_id@[k],
            ) && self.connected@[self.connected_by_id@[k]].spec_id() == k by {
                assert(before_id.contains_key(k));
            }
        }
        out
    }
}

/// What handling a disconnect packet `b` from `addr` gives.
pub open spec fn disconnect_result(s: Server, b: Seq<u8>, addr: Addr, t: Server) -> bool {
    &&& t.spec_incoming() == s.spec_incoming()
    &&& t.spec_sequence() == s.spec_sequence()
    &&& !s.spec_connected().contains_key(addr) ==> t.spec_connected() == s.spec_connected() && t.spec_by_id()
        == s.spec_by_id()
    &&& s.spec_connected().contains_key(addr) ==> {
        let c = s.spec_connected()[addr];
        let ok = b.len() == OVERHEAD && protected_ok(c.spec_window().0, c.spec_window().1, c.spec_recv_key(), s.spec_protocol(), b);
        &&& ok ==> t.spec_connected() == s.spec_connected().remove(addr) && t.spec_by_id() == s.spec_by_id().remove(
            c.spec_id(),
        )
        &&& !ok ==> t.spec_connected().dom() == s.spec_connected().dom() && t.spec_by_id() == s.spec_by_id()
            && disconnect_conn(t.spec_connected()[addr], c, b) && forall|a: Addr| a != addr
            && #[trigger] s.spec_connected().contains_key(a) ==> t.spec_connected()[a] == s.spec_connected()[a]
    }
}

/// What handling a payload packet `b` from `addr` gives: the connection at
/// `addr`, if there is one, takes the packet when its replay window and key
/// let it; nothing else changes.
pub open spec fn payload_result(s: Server, b: Seq<u8>, addr: Addr, t: Server) -> bool {
    &&& t.spec_incoming() == s.spec_incoming()
    &&& t.spec_sequence() == s.spec_sequence()
    &&& t.spec_by_id() == s.spec_by_id()
    &&& t.spec_connected().dom() == s.spec_connected().dom()
    &&& !s.spec_connected().contains_key(addr) ==> t.spec_connected() == s.spec_connected()
    &&& forall|a: Addr| a != addr && #[trigger] s.spec_connected().contains_key(a) ==> t.spec_connected()[a]
        == s.spec_connected()[a]
    &&& s.spec_connected().contains_key(addr) ==> {
        let c = s.spec_connected()[addr];
        let key = c.spec_recv_key();
        let ok = b.len() >= OVERHEAD && protected_ok(c.spec_window().0, c.spec_window().1, key, s.spec_protocol(), b);
        payload_conn(t.spec_connected()[addr], c, ok, opened(key, s.spec_protocol(), b), b, s.spec_time())
    }
}

/// A server that hands a payload packet from a connected address to its
/// connection, where the packet passes the replay window and opens under
/// the connection's receive key, counts that connection as heard from at
/// the server's time, whatever the message; the other connections do not
/// change.
pub proof fn law_server_payload_refreshes(s: Server, b: Seq<u8>, addr: Addr, t: Server)
    requires
        payload_result(s, b, addr, t),
        s.spec_connected().contains_key(addr),
        b.len() >= OVERHEAD,
        protected_ok(
            s.spec_connected()[addr].spec_window().0,
            s.spec_connected()[addr].spec_window().1,
            s.spec_connected()[addr].spec_recv_key(),
            s.spec_protocol(),
            b,
        ),
    ensures
        t.spec_connected().contains_key(addr),
        t.spec_connected()[addr].spec_last_recv() == s.spec_time(),
        forall|a: Addr| a != addr && #[trigger] s.spec_connected().contains_key(a) ==> t.spec_connected()[a]
            == s.spec_connected()[a],
{
}

/// Two states of one connection with the same client and keys.
pub open spec fn same_conn_keys(d: Conn, c: Conn) -> bool {
    &&& d.spec_id() == c.spec_id()
    &&& d.spec_send_key() == c.spec_send_key()
    &&& d.spec_recv_key() == c.spec_recv_key()
    &&& d.spec_closed() == c.spec_closed()
}

/// Two states of one connection with the same client, keys, timeout,
/// sequence and closed flag.
pub open spec fn same_conn(d: Conn, c: Conn) -> bool {
    &&& d.spec_id() == c.spec_id()
    &&& d.spec_send_key() == c.spec_send_key()
    &&& d.spec_recv_key() == c.spec_recv_key()
    &&& d.spec_timeout() == c.spec_timeout()
    &&& d.spec_sequence() == c.spec_sequence()
    &&& d.spec_closed() == c.spec_closed()
    &&& d.spec_last_send() == c.spec_last_send()
}

/// Connection `d` is `c` after payload packet `b` arrived at `time`:
/// the replay window looked at `b` (when it has a header's length), and when
/// the packet was taken (`ok`) the time of the last receive moved to `time`
/// and a non-empty message `m` joined the queue.
pub open spec fn payload_conn(d: Conn, c: Conn, ok: bool, m: Seq<u8>, b: Seq<u8>, time: u64) -> bool {
    &&& same_conn(d, c)
    &&& d.spec_window() == if b.len() >= OVERHEAD {
        protected_window(c.spec_window().0, c.spec_window().1, b)
    } else {
        c.spec_window()
    }
    &&& d.spec_last_recv() == if ok { time } else { c.spec_last_recv() }
    &&& d.spec_queue() == if ok && m.len() > 0 { c.spec_queue().push(m) } else { c.spec_queue() }
}

/// A connection that takes a payload packet counts it as heard from at
/// `time`, whatever the length of the message it opens to: an empty
/// keep-alive refreshes the connection as much as a packet with data.
pub proof fn law_payload_refreshes(d: Conn, c: Conn, m: Seq<u8>, b: Seq<u8>, time: u64)
    requires
        payload_conn(d, c, true, m, b, time),
    ensures
        d.spec_last_recv() == time,
        m.len() == 0 ==> d.spec_queue() == c.spec_queue(),
{
}

/// Connection `d` is `c` after disconnect packet `b` was looked at: only
/// the replay window changed, and only for a packet of 20 bytes.
pub open spec fn disconnect_conn(d: Conn, c: Conn, b: Seq<u8>) -> bool {
    &&& same_conn(d, c)
    &&& d.spec_last_recv() == c.spec_last_recv()
    &&& d.spec_queue() == c.spec_queue()
    &&& d.spec_window() == if b.len() == OVERHEAD {
        protected_window(c.spec_window().0, c.spec_window().1, b)
    } else {
        c.spec_window()
    }
}

/// Whether connection `c` gets a keep-alive at `time` (the comparison
/// stands as the keep-alive check writes it).
pub open spec fn wants_keep_alive(c: Conn, time: u64) -> bool {
    c.spec_last_send() + PACKET_SEND_DELTA > time
}

/// Connection `d` is `c` after the keep-alive pass at `time`: one that gets
/// a keep-alive has sent at `time` and moved to its next sequence, any
/// other is unchanged.
pub open spec fn kept_alive(d: Conn, c: Conn, time: u64) -> bool {
    if wants_keep_alive(c, time) {
        &&& d.spec_id() == c.spec_id()
        &&& d.spec_send_key() == c.spec_send_key()
        &&& d.spec_recv_key() == c.spec_recv_key()
        &&& d.spec_timeout() == c.spec_timeout()
        &&& d.spec_closed() == c.spec_closed()
        &&& d.spec_last_recv() == c.spec_last_recv()
        &&& d.spec_queue() == c.spec_queue()
        &&& d.spec_window() == c.spec_window()
        &&& d.spec_last_send() == time
        &&& d.spec_sequence() == (if c.spec_sequence() == u32::MAX { 0 } else { c.spec_sequence() + 1 })
    } else {
        d == c
    }
}

/// Some connection of `s` that `t` no longer has is client `id`.
pub open spec fn dropped_id(s: Map<Addr, Conn>, t: Map<Addr, Conn>, id: u64) -> bool {
    exists|a: Addr| #[trigger] s.contains_key(a) && !t.contains_key(a) && s[a].spec_id() == id
}

/// What handling a response packet `b` from `addr` gives, with the server
/// before (`s`) and after (`t`), and the buffer after (`tb`).
pub open spec fn response_result(s: Server, b: Seq<u8>, addr: Addr, r: Result<Reply, ConnectionError>, t: Server, tb: Seq<u8>) -> bool {
    let inc = s.spec_incoming();
    &&& !inc.pending().contains_key(addr) ==> (r matches Err(ConnectionError::InvalidPacket)) && t.spec_connected()
        == s.spec_connected() && t.spec_by_id() == s.spec_by_id() && t.spec_incoming() == inc
    &&& r is Err ==> t.spec_connected() == s.spec_connected() && t.spec_by_id() == s.spec_by_id()
        && t.spec_incoming() == inc
    &&& (r matches Err(ConnectionError::ConnectionDenied(k)) ==> inc.pending().contains_key(addr) && k
        == inc.pending()[addr].send_key && !can_take(s) && exists|tok: Seq<u8>| #[trigger] response_token(
        inc.pending()[addr].recv_key@,
        inc.challenge_key(),
        inc.protocol(),
        b,
        tok,
    ) && !already_connected(s, addr, le_read(tok.subrange(0, 8), 8)))
    &&& ((r matches Err(ConnectionError::AlreadyConnected)) ==> inc.pending().contains_key(addr) && exists|tok: Seq<u8>|
        #[trigger] response_token(inc.pending()[addr].recv_key@, inc.challenge_key(), inc.protocol(), b, tok)
            && already_connected(s, addr, le_read(tok.subrange(0, 8), 8)))
    &&& ((r matches Err(ConnectionError::InvalidPacket)) ==> !inc.pending().contains_key(addr) || response_fails(
        inc.pending()[addr].recv_key@,
        inc.challenge_key(),
        inc.protocol(),
        b,
    ))
    &&& !(r matches Err(ConnectionError::TokenAlreadyUsed))
    &&& inc.pending().contains_key(addr) && !response_fails(
        inc.pending()[addr].recv_key@,
        inc.challenge_key(),
        inc.protocol(),
        b,
    ) ==> forall|tok: Seq<u8>|
        #[trigger] response_token(inc.pending()[addr].recv_key@, inc.challenge_key(), inc.protocol(), b, tok) ==> {
            let id = le_read(tok.subrange(0, 8), 8);
            &&& already_connected(s, addr, id) ==> (r matches Err(ConnectionError::AlreadyConnected))
            &&& !already_connected(s, addr, id) && !can_take(s) ==> (r matches Err(ConnectionError::ConnectionDenied(k))
                && k == inc.pending()[addr].send_key)
            &&& !already_connected(s, addr, id) && can_take(s) ==> r is Ok
        }
    &&& r is Ok ==> {
        &&& inc.pending().contains_key(addr)
        &&& exists|tok: Seq<u8>| #[trigger] response_token(inc.pending()[addr].recv_key@, inc.challenge_key(), inc.protocol(), b, tok) && {
            let id = le_read(tok.subrange(0, 8), 8);
            let keys = inc.pending()[addr];
            &&& (r matches Ok(Reply::Accepted { len, id: rid, user }) && len == OVERHEAD && rid == id && user@
                == tok.subrange(28, 284))
            &&& !s.spec_connected().contains_key(addr)
            &&& !s.spec_by_id().contains_key(id)
            &&& t.spec_connected() == s.spec_connected().insert(addr, t.spec_connected()[addr])
            &&& t.spec_connected()[addr].spec_id() == id
            &&& t.spec_connected()[addr].spec_send_key() == keys.send_key@
            &&& t.spec_connected()[addr].spec_recv_key() == keys.recv_key@
            &&& t.spec_connected()[addr].spec_timeout() == keys.timeout * 1000
            &&& t.spec_connected()[addr].spec_last_recv() == s.spec_time()
            &&& t.spec_connected()[addr].spec_queue() == Seq::<Seq<u8>>::empty()
            &&& t.spec_by_id() == s.spec_by_id().insert(id, addr)
            &&& t.spec_incoming().pending() == inc.pending().remove(addr)
            &&& tb.subrange(0, OVERHEAD as int) == sealed_packet(keys.send_key@, inc.protocol(), KEEP_ALIVE, 0, seq![])
        }
    }
}

/// Every server list that `deserialize` may read from the open data of the
/// private token `tok` lists `local`.
pub open spec fn lists_server<F: Fn(&[u8; DATA]) -> Result<ServerList, ()>>(deserialize: F, tok: Seq<u8>, local: Addr) -> bool {
    forall|d: [u8; DATA], res: Result<ServerList, ()>|
        d@ == tok.subrange(112, 752) && #[trigger] deserialize.ensures((&d,), res) ==> (res matches Ok(l) && l@.contains(
            local,
        ))
}

/// Whether server `s` lets another client connect, as its capacity check
/// is written.
pub open spec fn can_take(s: Server) -> bool {
    s.spec_capacity() == 0 || s.spec_capacity() <= s.spec_connected().dom().len()
}

/// The server already has a connection at `addr` or for client `id`.
pub open spec fn already_connected(s: Server, addr: Addr, id: u64) -> bool {
    s.spec_connected().contains_key(addr) || s.spec_by_id().contains_key(id)
}

/// The private token `tok` was used before from another address.
pub open spec fn used_elsewhere(inc: Incoming, tok: Seq<u8>, addr: Addr) -> bool {
    let k = tag_fold(tok.subrange(1008, 1024), 0);
    inc.history().contains_key(k) && inc.history()[k].0 != addr
}

/// Two private tokens that open from one request packet are the same.
proof fn lemma_opened_unique(key: Seq<u8>, b: Seq<u8>, t1: Seq<u8>, t2: Seq<u8>)
    requires
        request_opens(key, b),
        request_opened(key, b, t1),
        request_opened(key, b, t2),
    ensures
        t1 == t2,
{
    let m = choose|m: Seq<u8>|
        #[trigger] xchacha_seal(key, request_nonce(b), private_ad(request_protocol(b), request_expire(b)), m)
            == request_token(b);
}

/// When a response packet opens, and the challenge token in it opens too,
/// the token it gives is one.
proof fn lemma_response_unique(rk: Seq<u8>, ck: Seq<u8>, protocol: u64, b: Seq<u8>, t1: Seq<u8>, t2: Seq<u8>)
    requires
        !response_fails(rk, ck, protocol, b),
        response_token(rk, ck, protocol, b, t1),
        response_token(rk, ck, protocol, b, t2),
    ensures
        t1 == t2,
{
    let m = choose|m: Seq<u8>| #[trigger] opens_to(rk, protocol, b, m);
    let seq = le_read(m.subrange(0, 8), 8);
    let sealed = m.subrange(8, 8 + crate::token::CHALLENGE_LEN);
    let t = choose|t: Seq<u8>| #[trigger] crate::crypto::chacha_seal(ck, crate::crypto::nonce_of(seq), seq![], t) == sealed;
}

/// What handling a request packet `b` from `addr` gives, with the server
/// before (`s`) and after (`t`), and the buffer after (`tb`).
pub open spec fn request_result<F: Fn(&[u8; DATA]) -> Result<ServerList, ()>>(
    s: Server,
    b: Seq<u8>,
    addr: Addr,
    r: Result<Reply, ConnectionError>,
    t: Server,
    tb: Seq<u8>,
    deserialize: F,
) -> bool {
    let inc = s.spec_incoming();
    let accepted = b.len() == REQUEST_PACKET_LEN && request_valid(b, inc.protocol(), inc.timestamp())
        && request_opens(inc.private_key(), b);
    &&& !accepted ==> (r matches Err(ConnectionError::InvalidPacket)) && t.spec_incoming() == inc && tb == b
    &&& r is Ok ==> {
        &&& accepted
        &&& (r matches Ok(Reply::Send(n)) && n == CHALLENGE_PACKET_LEN)
        &&& exists|tok: Seq<u8>| #[trigger] request_opened(inc.private_key(), b, tok) && {
            let id = le_read(tok.subrange(0, 8), 8);
            &&& !s.spec_connected().contains_key(addr)
            &&& !s.spec_by_id().contains_key(id)
            &&& (exists|d: [u8; DATA], l: ServerList| d@ == tok.subrange(112, 752) && #[trigger] deserialize.ensures(
                (&d,),
                Ok::<ServerList, ()>(l),
            ) && l@.contains(s.spec_local_addr()))
            &&& t.spec_incoming().pending().contains_key(addr)
            &&& t.spec_incoming().history().contains_key(tag_fold(tok.subrange(1008, 1024), 0))
            &&& t.spec_sequence() == (if s.spec_sequence() == u32::MAX { 0 } else { s.spec_sequence() + 1 })
            &&& tb.subrange(0, CHALLENGE_PACKET_LEN as int) == sealed_packet(
                tok.subrange(80, 112),
                inc.protocol(),
                CHALLENGE,
                s.spec_sequence(),
                crate::bytes::le_bytes(inc.challenge_sequence(), 8) + crate::token::challenge_sealed(
                    crate::bytes::le_bytes(id, 8) + crate::token::zeros(20) + tok.subrange(752, 1008)
                        + crate::token::zeros(crate::crypto::HMAC as nat),
                    inc.challenge_sequence(),
                    inc.challenge_key(),
                ),
            )
        }
    }
    &&& (r matches Err(ConnectionError::ConnectionDenied(k)) ==> accepted && exists|tok: Seq<u8>|
        #[trigger] request_opened(inc.private_key(), b, tok) && k@ == tok.subrange(80, 112) && !already_connected(
            s,
            addr,
            le_read(tok.subrange(0, 8), 8),
        ) && !used_elsewhere(inc, tok, addr) && !can_take(s))
    &&& ((r matches Err(ConnectionError::AlreadyConnected)) ==> accepted && exists|tok: Seq<u8>|
        #[trigger] request_opened(inc.private_key(), b, tok) && already_connected(s, addr, le_read(tok.subrange(0, 8), 8)))
    &&& ((r matches Err(ConnectionError::TokenAlreadyUsed)) ==> accepted && exists|tok: Seq<u8>|
        #[trigger] request_opened(inc.private_key(), b, tok) && !already_connected(s, addr, le_read(tok.subrange(0, 8), 8))
            && used_elsewhere(inc, tok, addr))
    &&& forall|tok: Seq<u8>|
        #[trigger] request_opened(inc.private_key(), b, tok) && accepted && lists_server(deserialize, tok, s.spec_local_addr())
            ==> {
            let id = le_read(tok.subrange(0, 8), 8);
            &&& already_connected(s, addr, id) ==> (r matches Err(ConnectionError::AlreadyConnected))
            &&& !already_connected(s, addr, id) && used_elsewhere(inc, tok, addr) ==> (r matches Err(
                ConnectionError::TokenAlreadyUsed,
            ))
            &&& !already_connected(s, addr, id) && !used_elsewhere(inc, tok, addr) && !can_take(s) ==> (r matches Err(
                ConnectionError::ConnectionDenied(k),
            ) && k@ == tok.subrange(80, 112))
            &&& !already_connected(s, addr, id) && !used_elsewhere(inc, tok, addr) && can_take(s) ==> (r matches Ok(
                Reply::Send(n),
            ) && n == CHALLENGE_PACKET_LEN)
        }
}

} // verus!
