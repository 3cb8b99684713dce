//! Connection and channel identifiers, the transport's error, the size of
//! an acknowledgement field and the per-channel state of each kind of
//! channel.

use vstd::prelude::*;
use crate::bytes::IoError;

verus! {

/// The most fragments of one message.
pub const MAX_FRAGMENTS: usize = 32;

/// A connection, by its index.
pub struct Conn(pub usize);

/// A channel, by its number.
pub struct Chan(pub u8);

/// Why sending or receiving failed.
pub enum Error {
    PacketLarge,
    Io(IoError),
}

impl From<IoError> for Error {
    fn from(err: IoError) -> (r: Self) {
        Error::Io(err)
    }
}

impl vstd::std_specs::convert::FromSpecImpl<IoError> for Error {
    open spec fn obeys_from_spec() -> bool {
        true
    }

    open spec fn from_spec(err: IoError) -> Self {
        Error::Io(err)
    }
}

/// The size of an acknowledgement field, in bytes.
pub struct AcksSize {
    pub bytes: usize,
}

impl AcksSize {
    /// The size in bits.
    pub fn bits(&self) -> (r: usize)
        requires
            self.bytes * 8 <= usize::MAX,
        ensures
            r == self.bytes * 8,
    {
        self.bytes * 8
    }
}

/// An unreliable channel.
pub struct Unreliable;

/// An unreliable channel for fragmented messages.
pub struct UnreliableLarge {
    /// How long an incomplete message is kept, in milliseconds.
    pub drop_timeout: u64,
}

/// An unreliable channel that drops what comes out of order.
pub struct Sequenced {
    pub sequence: u16,
}

/// An unreliable sequenced channel for fragmented messages.
pub struct SequencedLarge {
    /// How long an incomplete message is kept, in milliseconds.
    pub drop_timeout: u64,
    pub sequence: u16,
}

/// A reliable channel.
pub struct Reliable;

/// A reliable channel for fragmented messages.
pub struct ReliableLarge;

/// A reliable channel that delivers in order.
pub struct Ordered;

/// A reliable ordered channel for fragmented messages.
pub struct OrderedLarge;

} // verus!
