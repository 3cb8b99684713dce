//! Packets with a four-byte header: the packet kind in the top two bits and
//! a 30-bit sequence below it, then the sealed body.

use vstd::prelude::*;

verus! {

pub const REQUEST: u8 = 0;
pub const DISCONNECT: u8 = 1;
pub const CHALLENGE: u8 = 2;
pub const PAYLOAD: u8 = 3;

/// Header length in bytes.
pub const HEADER_SIZE: usize = 4;
/// Authentication tag length in bytes.
pub const MAC_BYTES: usize = 16;
/// The smallest packet: a header and a tag.
pub const MIN_PACKET: usize = 20;
/// The largest packet.
pub const MAX_PACKET: usize = 1200;
/// The largest payload.
pub const MAX_PAYLOAD: usize = 1180;
/// Challenge token length in bytes.
pub const CHALLENGE_BYTES: usize = 300;
/// Body of a challenge packet: token sequence and token.
pub const CHALLENGE_INNER_SIZE: usize = 308;
/// Length of a challenge packet.
pub const CHALLENGE_PACKET_BYTES: usize = 328;

pub const PREFIX_SHIFT: u32 = 30;
pub const SEQUENCE_MASK: u32 = 0x3fff_ffff;

/// The kind of a packet, from the top two bits of its header.
#[derive(Debug, PartialEq, Eq, Structural, Clone, Copy)]
pub enum Kind {
    Request,
    Disconnect,
    Challenge,
    Payload,
}

/// The two-bit code of a kind.
pub open spec fn kind_code(k: Kind) -> u8 {
    match k {
        Kind::Request => REQUEST,
        Kind::Disconnect => DISCONNECT,
        Kind::Challenge => CHALLENGE,
        Kind::Payload => PAYLOAD,
    }
}

/// The kind of a two-bit code.
pub open spec fn kind_of_code(c: u8) -> Kind {
    if c == REQUEST {
        Kind::Request
    } else if c == DISCONNECT {
        Kind::Disconnect
    } else if c == CHALLENGE {
        Kind::Challenge
    } else {
        Kind::Payload
    }
}

impl Kind {
    /// The two-bit code of this kind.
    pub fn code(self) -> (r: u8)
        ensures
            r == kind_code(self),
    {
        match self {
            Kind::Request => REQUEST,
            Kind::Disconnect => DISCONNECT,
            Kind::Challenge => CHALLENGE,
            Kind::Payload => PAYLOAD,
        }
    }

    /// The kind of a two-bit code.
    pub fn from_code(c: u8) -> (r: Kind)
        requires
            c < 4,
        ensures
            r == kind_of_code(c),
    {
        if c == REQUEST {
            Kind::Request
        } else if c == DISCONNECT {
            Kind::Disconnect
        } else if c == CHALLENGE {
            Kind::Challenge
        } else {
            Kind::Payload
        }
    }
}

/// A set of packet kinds that a reader accepts.
#[derive(Debug, PartialEq, Eq, Structural, Clone, Copy)]
pub struct Allowed {
    pub bits: u8,
}

impl Allowed {
    #[allow(non_snake_case)]
    pub fn REQUEST() -> (r: Allowed)
        ensures
            r.bits == 1,
    {
        Allowed { bits: 1 }
    }

    #[allow(non_snake_case)]
    pub fn DISCONNECT() -> (r: Allowed)
        ensures
            r.bits == 2,
    {
        Allowed { bits: 2 }
    }

    #[allow(non_snake_case)]
    pub fn CHALLENGE() -> (r: Allowed)
        ensures
            r.bits == 4,
    {
        Allowed { bits: 4 }
    }

    #[allow(non_snake_case)]
    pub fn PAYLOAD() -> (r: Allowed)
        ensures
            r.bits == 8,
    {
        Allowed { bits: 8 }
    }

    #[allow(non_snake_case)]
    pub fn SENDING_REQUEST() -> (r: Allowed)
        ensures
            r.bits == 6,
    {
        Allowed { bits: 6 }
    }

    #[allow(non_snake_case)]
    pub fn SENDING_RESPONSE() -> (r: Allowed)
        ensures
            r.bits == 10,
    {
        Allowed { bits: 10 }
    }

    #[allow(non_snake_case)]
    pub fn CONNECTED() -> (r: Allowed)
        ensures
            r.bits == 10,
    {
        Allowed { bits: 10 }
    }


    /// The set holds the kind with this code.
    pub open spec fn has(self, code: u8) -> bool {
        self.bits & (1u8 << code) != 0
    }

    /// All kinds of `other` are in this set.
    pub fn contains(self, other: Allowed) -> (r: bool)
        ensures
            r == (self.bits & other.bits == other.bits),
    {
        self.bits & other.bits == other.bits
    }

    pub fn payload(self) -> (r: bool)
        ensures
            r == self.has(PAYLOAD),
    {
        proof { lemma_allowed_bits(self.bits); }
        self.contains(Allowed::PAYLOAD())
    }

    pub fn request(self) -> (r: bool)
        ensures
            r == self.has(REQUEST),
    {
        proof { lemma_allowed_bits(self.bits); }
        self.contains(Allowed::REQUEST())
    }

    pub fn disconnect(self) -> (r: bool)
        ensures
            r == self.has(DISCONNECT),
    {
        proof { lemma_allowed_bits(self.bits); }
        self.contains(Allowed::DISCONNECT())
    }

    pub fn challenge(self) -> (r: bool)
        ensures
            r == self.has(CHALLENGE),
    {
        proof { lemma_allowed_bits(self.bits); }
        self.contains(Allowed::CHALLENGE())
    }

    /// The set holds kind `k`.
    pub fn packet_type(self, k: Kind) -> (r: bool)
        ensures
            r == self.has(kind_code(k)),
    {
        match k {
            Kind::Payload => self.payload(),
            Kind::Request => self.request(),
            Kind::Disconnect => self.disconnect(),
            Kind::Challenge => self.challenge(),
        }
    }
}

proof fn lemma_allowed_bits(b: u8)
    ensures
        (b & 1 == 1) == (b & (1u8 << 0u8) != 0),
        (b & 2 == 2) == (b & (1u8 << 1u8) != 0),
        (b & 4 == 4) == (b & (1u8 << 2u8) != 0),
        (b & 8 == 8) == (b & (1u8 << 3u8) != 0),
{
    assert((b & 1 == 1) == (b & (1u8 << 0u8) != 0) && (b & 2 == 2) == (b & (1u8 << 1u8) != 0) && (b & 4 == 4) == (b
        & (1u8 << 2u8) != 0) && (b & 8 == 8) == (b & (1u8 << 3u8) != 0)) by (bit_vector);
}

/// A request packet starts with a zero byte.
pub fn is_request_packet(buffer: &[u8]) -> (r: bool)
    requires
        buffer@.len() > 0,
    ensures
        r == (buffer@[0] == 0),
{
    buffer[0] == 0
}

/// An encrypted packet starts with a nonzero byte.
pub fn is_encrypted_packet(buffer: &[u8]) -> (r: bool)
    requires
        buffer@.len() > 0,
    ensures
        r == (buffer@[0] != 0),
{
    buffer[0] != 0
}

} // verus!
