//! An unreliable sequenced channel: each packet carries a 16-bit sequence,
//! little-endian, before its payload.

use vstd::prelude::*;
use crate::seq::{Sequence, seq_greater};
use crate::bytes::{le16, read_u16_le, push_u16_le, push_all, le16_bytes};
use crate::encrypted::copy_range;

verus! {

/// What a channel refuses.
#[derive(Debug, PartialEq, Eq, Structural, Clone, Copy)]
pub enum Error {
    TooLarge,
    TooSmall,
    InvalidHeader,
    Stale { seq: Sequence },
}

/// Sends packets with increasing sequences; receives packets that are not
/// older than the last one received, and remembers the newest.
#[derive(Default)]
pub struct Sequenced {
    sequence: Sequence,
    last_recv: Sequence,
}

impl Sequenced {
    pub const HEADER: usize = 2;
    pub const MAX_SEND: usize = 1024;
    pub const MAX_RECV: usize = 1026;

    /// The sequence of the next packet sent.
    pub closed spec fn next_seq(&self) -> Sequence {
        self.sequence
    }

    /// The sequence that received packets are held against.
    pub closed spec fn last_seq(&self) -> Sequence {
        self.last_recv
    }

    /// A channel that starts at sequence zero.
    pub fn new() -> (r: Self)
        ensures
            r.next_seq() == Sequence(0),
            r.last_seq() == Sequence(0),
    {
        Sequenced { sequence: Sequence(0), last_recv: Sequence(0) }
    }

    /// The sequence of the next packet sent.
    pub fn next_sequence(&self) -> (r: Sequence)
        ensures
            r == self.next_seq(),
    {
        self.sequence
    }

    /// Frames a packet of at most 1024 bytes with the next sequence; gives
    /// the sequence and the bytes to transmit.
    pub fn send(&mut self, packet: &[u8]) -> (r: Result<(Sequence, Vec<u8>), Error>)
        ensures
            packet@.len() > Self::MAX_SEND ==> r == Err::<(Sequence, Vec<u8>), Error>(Error::TooLarge) && *final(self)
                == *old(self),
            packet@.len() <= Self::MAX_SEND ==> {
                &&& r is Ok
                &&& r.unwrap().0 == old(self).next_seq()
                &&& r.unwrap().1@ == le16_bytes(old(self).next_seq().0) + packet@
                &&& final(self).next_seq() == old(self).next_seq().next_spec()
                &&& final(self).last_seq() == old(self).last_seq()
            },
    {
        if packet.len() > Self::MAX_SEND {
            return Err(Error::TooLarge);
        }
        let seq = self.sequence;
        self.sequence = seq.next();
        let mut buf: Vec<u8> = Vec::new();
        push_u16_le(&mut buf, seq.0);
        push_all(&mut buf, packet);
        Ok((seq, buf))
    }

    /// Reads a packet: its sequence and payload; refuses one that is too
    /// large, too small for the header, or older than the last sequence
    /// received. An accepted sequence becomes the last one received, so
    /// packets older than it are dropped from then on.
    pub fn recv(&mut self, packet: &mut [u8]) -> (r: Result<(Sequence, Vec<u8>), Error>)
        ensures
            final(self).next_seq() == old(self).next_seq(),
            r is Ok ==> final(self).last_seq() == r.unwrap().0,
            r is Err ==> final(self).last_seq() == old(self).last_seq(),
            final(packet)@ == old(packet)@,
            old(packet)@.len() > Self::MAX_RECV ==> r == Err::<(Sequence, Vec<u8>), Error>(Error::TooLarge),
            old(packet)@.len() < Self::HEADER ==> r == Err::<(Sequence, Vec<u8>), Error>(Error::TooSmall),
            Self::HEADER <= old(packet)@.len() <= Self::MAX_RECV ==> {
                let s = Sequence(le16(old(packet)@[0], old(packet)@[1]));
                &&& seq_older(s.0, old(self).last_seq().0) ==> r == Err::<(Sequence, Vec<u8>), Error>(
                    Error::Stale { seq: s },
                )
                &&& !seq_older(s.0, old(self).last_seq().0) ==> r is Ok && r.unwrap().0 == s
                    && r.unwrap().1@ == old(packet)@.subrange(Self::HEADER as int, old(packet)@.len() as int)
            },
    {
        if packet.len() > Self::MAX_RECV {
            return Err(Error::TooLarge);
        }
        if packet.len() < Self::HEADER {
            return Err(Error::TooSmall);
        }
        let seq = Sequence(read_u16_le(packet, 0));
        if seq < self.last_recv {
            return Err(Error::Stale { seq });
        }
        let payload = copy_range(packet, Self::HEADER, packet.len());
        self.last_recv = seq;
        Ok((seq, payload))
    }
}

/// `a` is older than `b` in the wrapping sequence space.
pub open spec fn seq_older(a: u16, b: u16) -> bool {
    a != b && !seq_greater(a, b)
}

impl Sequence {
    /// The following sequence number (wrapping).
    pub open spec fn next_spec(self) -> Sequence {
        Sequence(((self.0 + 1) % 0x10000) as u16)
    }
}

} // verus!
