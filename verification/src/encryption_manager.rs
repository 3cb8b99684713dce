//! The keys of the peers a server talks to, by address, each expiring
//! when it goes unused for its timeout.
//!
//! Times are milliseconds on a clock that the caller keeps.

use vstd::prelude::*;
use crate::addr::Addr;
use crate::assoc::AddrMap;
use crate::crypto::KEY;
use crate::token::PrivateToken;

verus! {

/// The keys of one peer.
#[derive(Clone, Copy)]
pub struct Keys {
    /// How long the keys live without use, in milliseconds.
    pub timeout: u64,
    /// When the keys were last used.
    pub last_access: u64,
    pub send_key: [u8; KEY],
    pub recv_key: [u8; KEY],
}

impl Keys {
    /// The keys went unused for longer than their timeout at `time`.
    pub fn expired(&self, time: u64) -> (r: bool)
        ensures
            r == (self.last_access + self.timeout < time),
    {
        (self.last_access as u128) + (self.timeout as u128) < (time as u128)
    }

    pub fn send_key(&self) -> (r: &[u8; KEY])
        ensures
            *r == self.send_key,
    {
        &self.send_key
    }

    pub fn recv_key(&self) -> (r: &[u8; KEY])
        ensures
            *r == self.recv_key,
    {
        &self.recv_key
    }

    /// The timeout in milliseconds.
    pub fn timeout(&self) -> (r: u64)
        ensures
            r == self.timeout,
    {
        self.timeout
    }
}

/// The keys by peer address, and the clock.
pub struct Mapping {
    mapping: AddrMap<Keys>,
    time: u64,
}

impl Mapping {
    /// The keys by address.
    pub closed spec fn keys(&self) -> Map<Addr, Keys> {
        self.mapping@
    }

    /// The clock.
    pub closed spec fn now(&self) -> u64 {
        self.time
    }

    /// No keys, with the clock at `time`.
    pub fn new(time: u64) -> (r: Self)
        ensures
            r.keys() == Map::<Addr, Keys>::empty(),
            r.now() == time,
    {
        Self { mapping: AddrMap::new(), time }
    }

    /// Drops all keys and sets the clock.
    pub fn reset(&mut self, time: u64)
        ensures
            final(self).keys() == Map::<Addr, Keys>::empty(),
            final(self).now() == time,
    {
        self.time = time;
        self.mapping = AddrMap::new();
    }

    /// Sets the clock.
    pub fn advance(&mut self, time: u64)
        ensures
            final(self).keys() == old(self).keys(),
            final(self).now() == time,
    {
        self.time = time;
    }

    /// Moves the clock forward by `dt` milliseconds.
    pub fn add_time(&mut self, dt: u64)
        requires
            old(self).now() + dt <= u64::MAX,
        ensures
            final(self).keys() == old(self).keys(),
            final(self).now() == old(self).now() + dt,
    {
        self.time = self.time + dt;
    }

    /// Keys for `addr` from a private token: the server's key to send, the
    /// client's key to receive, and the token's timeout.
    pub fn insert_token(&mut self, addr: Addr, token: &PrivateToken) -> (r: bool)
        ensures
            r == !old(self).keys().contains_key(addr),
            final(self).now() == old(self).now(),
            final(self).keys() == old(self).keys().insert(
                addr,
                Keys {
                    send_key: final(self).keys()[addr].send_key,
                    recv_key: final(self).keys()[addr].recv_key,
                    timeout: final(self).keys()[addr].timeout,
                    last_access: old(self).now(),
                },
            ),
            final(self).keys()[addr].send_key@ == token@.subrange(80, 112),
            final(self).keys()[addr].recv_key@ == token@.subrange(48, 80),
            final(self).keys()[addr].timeout == crate::bytes::le32(token@[8], token@[9], token@[10], token@[11]) * 1000,
    {
        self.insert(addr, *token.server_key(), *token.client_key(), token.timeout())
    }

    /// Sets the keys of `addr`, last used now, with a timeout in seconds;
    /// true when `addr` had none.
    pub fn insert(&mut self, addr: Addr, send_key: [u8; KEY], recv_key: [u8; KEY], timeout: u32) -> (r: bool)
        ensures
            r == !old(self).keys().contains_key(addr),
            final(self).now() == old(self).now(),
            final(self).keys() == old(self).keys().insert(
                addr,
                Keys { send_key, recv_key, timeout: (timeout * 1000) as u64, last_access: old(self).now() },
            ),
    {
        let keys = Keys { send_key, recv_key, timeout: (timeout as u64) * 1000, last_access: self.time };
        self.mapping.insert(addr, keys).is_none()
    }

    /// Drops the keys of `addr`; true when there were some.
    pub fn remove(&mut self, addr: Addr) -> (r: bool)
        ensures
            r == old(self).keys().contains_key(addr),
            final(self).now() == old(self).now(),
            final(self).keys() == old(self).keys().remove(addr),
    {
        self.mapping.remove(&addr).is_some()
    }

    /// `addr` has keys.
    pub fn contains(&self, addr: Addr) -> (r: bool)
        ensures
            r == self.keys().contains_key(addr),
    {
        self.mapping.contains(&addr)
    }

    /// The keys of `addr`, marked as used now; expired keys are dropped
    /// and give nothing.
    pub fn find(&mut self, addr: Addr) -> (r: Option<Keys>)
        ensures
            final(self).now() == old(self).now(),
            !old(self).keys().contains_key(addr) ==> r is None && final(self).keys() == old(self).keys(),
            old(self).keys().contains_key(addr) && old(self).keys()[addr].last_access + old(self).keys()[addr].timeout
                < old(self).now() ==> r is None && final(self).keys() == old(self).keys().remove(addr),
            old(self).keys().contains_key(addr) && !(old(self).keys()[addr].last_access
                + old(self).keys()[addr].timeout < old(self).now()) ==> {
                let k = Keys { last_access: old(self).now(), ..old(self).keys()[addr] };
                r == Some(k) && final(self).keys() == old(self).keys().insert(addr, k)
            },
    {
        let found = match self.mapping.get(&addr) {
            Some(k) => Some(*k),
            None => None,
        };
        match found {
            Some(k) => {
                if k.expired(self.time) {
                    self.mapping.remove(&addr);
                    None
                } else {
                    let k2 = Keys { last_access: self.time, ..k };
                    self.mapping.insert(addr, k2);
                    Some(k2)
                }
            },
            None => None,
        }
    }

    /// The receive key of `addr`.
    pub fn recv_key(&self, addr: Addr) -> (r: Option<[u8; KEY]>)
        ensures
            r is Some <==> self.keys().contains_key(addr),
            r is Some ==> r.unwrap() == self.keys()[addr].recv_key,
    {
        match self.mapping.get(&addr) {
            Some(k) => Some(k.recv_key),
            None => None,
        }
    }
}

} // verus!
