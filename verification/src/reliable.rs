//! A reliability layer: every sent packet carries a sequence number and
//! acknowledges the 33 most recent packets received.

use vstd::prelude::*;
use vstd::std_specs::convert::FromSpecImpl;
use crate::bytes::{IoError, le16, le16_bytes, lemma_le16, push_u16_le, read_u16_le, push_all};
use crate::reliable_io::{
    ack_byte_sent, ack_distance, count_flags, read_ack_bits, sent_ack_bytes,
    lemma_read_sent_ack_bits, read_ack_bytes, push_ack_bytes,
};
use crate::seq::{Sequence, SequenceBuffer, bit_set};

verus! {

/// Errors of the reliability layer.
#[derive(Debug, PartialEq, Eq, Structural, Clone, Copy)]
pub enum Error {
    PacketTooLarge,
    PacketHeaderInvalid,
    PacketStale { seq: Sequence },
    Io(IoError),
}

impl From<IoError> for Error {
    fn from(err: IoError) -> (r: Self) {
        Error::Io(err)
    }
}

impl FromSpecImpl<IoError> for Error {
    open spec fn obeys_from_spec() -> bool {
        true
    }

    open spec fn from_spec(err: IoError) -> Self {
        Error::Io(err)
    }
}

/// The prefix bit that says the ack is sent as a one-byte distance.
pub const SMALL_ACK: u8 = 0x80;

/// Packet header: the packet's sequence, the most recent sequence received
/// and a bit field of the 32 received before and including it.
#[derive(Debug, Default, PartialEq, Eq, Structural, Clone, Copy)]
pub struct Header {
    pub seq: u16,
    pub ack: u16,
    pub ack_bits: u32,
}

/// The prefix byte: one bit per ack byte that is sent, and `SMALL_ACK`.
pub open spec fn header_prefix(h: Header) -> u8 {
    (if ack_byte_sent(h.ack_bits, 0) { 1u8 } else { 0u8 }) | (if ack_byte_sent(h.ack_bits, 1) {
        2u8
    } else {
        0u8
    }) | (if ack_byte_sent(h.ack_bits, 2) { 4u8 } else { 0u8 }) | (if ack_byte_sent(h.ack_bits, 3) {
        8u8
    } else {
        0u8
    }) | (if ack_distance(h.seq, h.ack) <= 255 { 0x80u8 } else { 0u8 })
}

/// The encoding of a header.
pub open spec fn header_bytes(h: Header) -> Seq<u8> {
    seq![header_prefix(h)] + le16_bytes(h.seq) + (if ack_distance(h.seq, h.ack) <= 255 {
        seq![ack_distance(h.seq, h.ack) as u8]
    } else {
        le16_bytes(h.ack)
    }) + sent_ack_bytes(h.ack_bits)
}

/// What reading a header from `s` gives.
pub open spec fn parse_header(s: Seq<u8>) -> Result<(Header, usize), Error> {
    if s.len() < 1 {
        Err(Error::Io(IoError::UnexpectedEof))
    } else if s[0] & 0x70 != 0 {
        Err(Error::PacketHeaderInvalid)
    } else if s.len() < 3 {
        Err(Error::Io(IoError::UnexpectedEof))
    } else {
        let p = s[0];
        let small = p & SMALL_ACK != 0;
        let seq = le16(s[1], s[2]);
        let pos: int = if small { 4 } else { 5 };
        let f0 = p & 1 != 0;
        let f1 = p & 2 != 0;
        let f2 = p & 4 != 0;
        let f3 = p & 8 != 0;
        if s.len() < pos + count_flags(f0, f1, f2, f3, 4) {
            Err(Error::Io(IoError::UnexpectedEof))
        } else {
            let ack = if small { ((seq - s[3]) % 0x10000) as u16 } else { le16(s[3], s[4]) };
            Ok((
                Header { seq, ack, ack_bits: read_ack_bits(s, pos, f0, f1, f2, f3) },
                (pos + count_flags(f0, f1, f2, f3, 4)) as usize,
            ))
        }
    }
}

/// The sequences that a header acknowledges: `ack - i` for each set bit
/// `i`, in increasing `i`.
pub open spec fn acked_sequences(ack: u16, ack_bits: u32, n: nat) -> Seq<Sequence>
    decreases n,
{
    if n == 0 {
        seq![]
    } else {
        let rest = acked_sequences(ack, ack_bits, (n - 1) as nat);
        if bit_set(ack_bits, (n - 1) as u32) {
            rest.push(Sequence(((ack - (n - 1)) % 0x10000) as u16))
        } else {
            rest
        }
    }
}

impl Header {
    pub const MIN: usize = 4;
    pub const MAX: usize = 9;

    /// The encoding of this header.
    pub fn to_bytes(self) -> (r: Vec<u8>)
        ensures
            r@ == header_bytes(self),
            r@.len() <= 9,
    {
        let diff = self.seq.wrapping_sub(self.ack);
        let x = self.ack_bits;
        let m0 = (x & 0xff) as u8 != 0xff;
        let m1 = ((x >> 8) & 0xff) as u8 != 0xff;
        let m2 = ((x >> 16) & 0xff) as u8 != 0xff;
        let m3 = ((x >> 24) & 0xff) as u8 != 0xff;
        let prefix: u8 = (if m0 { 1u8 } else { 0u8 }) | (if m1 { 2u8 } else { 0u8 }) | (if m2 {
            4u8
        } else {
            0u8
        }) | (if m3 { 8u8 } else { 0u8 }) | (if diff <= 255 { SMALL_ACK } else { 0u8 });
        let mut out: Vec<u8> = Vec::new();
        out.push(prefix);
        push_u16_le(&mut out, self.seq);
        if diff <= 255 {
            out.push(diff as u8);
        } else {
            push_u16_le(&mut out, self.ack);
        }
        push_ack_bytes(&mut out, x);
        assert(out@ =~= header_bytes(self));
        out
    }

    /// Writes the encoding to the start of `buf` and returns its length.
    pub fn write(self, buf: &mut [u8]) -> (r: usize)
        requires
            old(buf)@.len() >= Self::MAX,
        ensures
            r == header_bytes(self).len(),
            final(buf)@ == header_bytes(self) + old(buf)@.subrange(r as int, old(buf)@.len() as int),
    {
        let bytes = self.to_bytes();
        crate::bytes::copy_prefix(buf, bytes.as_slice())
    }

    /// Reads a header from the start of `buf`; also returns its length.
    pub fn read(buf: &[u8]) -> (r: Result<(Self, usize), Error>)
        ensures
            r == parse_header(buf@),
    {
        if buf.len() < 1 {
            return Err(Error::Io(IoError::UnexpectedEof));
        }
        let p = buf[0];
        if p & 0x70 != 0 {
            return Err(Error::PacketHeaderInvalid);
        }
        if buf.len() < 3 {
            return Err(Error::Io(IoError::UnexpectedEof));
        }
        let small = p & SMALL_ACK != 0;
        let seq = read_u16_le(buf, 1);
        let pos: usize = if small { 4 } else { 5 };
        let f0 = p & 1 != 0;
        let f1 = p & 2 != 0;
        let f2 = p & 4 != 0;
        let f3 = p & 8 != 0;
        let count: usize = (if f0 { 1usize } else { 0 }) + (if f1 { 1usize } else { 0 }) + (if f2 {
            1usize
        } else {
            0
        }) + (if f3 { 1usize } else { 0 });
        if buf.len() < pos + count {
            return Err(Error::Io(IoError::UnexpectedEof));
        }
        let ack = if small { seq.wrapping_sub(buf[3] as u16) } else { read_u16_le(buf, 3) };
        let ack_bits = read_ack_bytes(buf, pos, f0, f1, f2, f3);
        Ok((Header { seq, ack, ack_bits }, pos + count))
    }

    /// The sequences this header acknowledges, `ack - i` for each set bit
    /// `i` of `ack_bits`, in increasing `i`.
    pub fn ack_sequences(self) -> (r: Vec<Sequence>)
        ensures
            r@ == acked_sequences(self.ack, self.ack_bits, 32),
    {
        let mut out: Vec<Sequence> = Vec::new();
        let mut i: u32 = 0;
        while i < 32
            invariant
                i <= 32,
                out@ == acked_sequences(self.ack, self.ack_bits, i as nat),
            decreases 32 - i,
        {
            let set = (self.ack_bits >> i) & 1 == 1;
            if set {
                out.push(Sequence(self.ack.wrapping_sub(i as u16)));
            }
            i = i + 1;
        }
        out
    }
}

proof fn lemma_header_prefix(h: Header)
    ensures
        (header_prefix(h) & 1 != 0) == ack_byte_sent(h.ack_bits, 0),
        (header_prefix(h) & 2 != 0) == ack_byte_sent(h.ack_bits, 1),
        (header_prefix(h) & 4 != 0) == ack_byte_sent(h.ack_bits, 2),
        (header_prefix(h) & 8 != 0) == ack_byte_sent(h.ack_bits, 3),
        (header_prefix(h) & SMALL_ACK != 0) == (ack_distance(h.seq, h.ack) <= 255),
        header_prefix(h) & 0x70 == 0,
{
    let m0 = ack_byte_sent(h.ack_bits, 0);
    let m1 = ack_byte_sent(h.ack_bits, 1);
    let m2 = ack_byte_sent(h.ack_bits, 2);
    let m3 = ack_byte_sent(h.ack_bits, 3);
    let sm = ack_distance(h.seq, h.ack) <= 255;
    let p = header_prefix(h);
    assert((p & 1 != 0) == m0 && (p & 2 != 0) == m1 && (p & 4 != 0) == m2 && (p & 8 != 0) == m3
        && (p & 0x80 != 0) == sm && p & 0x70 == 0) by (bit_vector)
        requires
            p == (if m0 { 1u8 } else { 0u8 }) | (if m1 { 2u8 } else { 0u8 }) | (if m2 { 4u8 } else { 0u8 })
                | (if m3 { 8u8 } else { 0u8 }) | (if sm { 0x80u8 } else { 0u8 }),
    ;
}

/// Reading back the encoding of a header, followed by anything, gives the
/// header and the length of its encoding.
pub proof fn law_header_roundtrip(h: Header, rest: Seq<u8>)
    ensures
        parse_header(header_bytes(h) + rest) == Ok::<(Header, usize), Error>((h, header_bytes(h).len() as usize)),
        Header::MIN <= header_bytes(h).len() <= Header::MAX,
{
    let b = header_bytes(h);
    let s = b + rest;
    let sm = ack_distance(h.seq, h.ack) <= 255;
    lemma_header_prefix(h);
    lemma_le16(h.seq);
    lemma_le16(h.ack);
    let pos: int = if sm { 4 } else { 5 };
    assert(s[0] == header_prefix(h));
    assert(s[1] == le16_bytes(h.seq)[0]);
    assert(s[2] == le16_bytes(h.seq)[1]);
    if sm {
        assert(s[3] == ack_distance(h.seq, h.ack) as u8);
    } else {
        assert(s[3] == le16_bytes(h.ack)[0]);
        assert(s[4] == le16_bytes(h.ack)[1]);
    }
    assert(s.subrange(pos, pos + sent_ack_bytes(h.ack_bits).len()) =~= sent_ack_bytes(h.ack_bits));
    lemma_read_sent_ack_bits(h.ack_bits, s, pos);
}

/// The sequences that a header acknowledges and that `sent` holds, in
/// increasing bit order.
pub open spec fn acked_sent(ack: u16, ack_bits: u32, sent: SequenceBuffer<()>, n: nat) -> Seq<Sequence>
    decreases n,
{
    if n == 0 {
        seq![]
    } else {
        let rest = acked_sent(ack, ack_bits, sent, (n - 1) as nat);
        let s = ((ack - (n - 1)) % 0x10000) as u16;
        if bit_set(ack_bits, (n - 1) as u32) && sent.holds(s) {
            rest.push(Sequence(s))
        } else {
            rest
        }
    }
}

/// How far sequence `s` lies below `ack`, counting round the wrap.
pub open spec fn distance_below(ack: u16, s: u16) -> int {
    (ack - s) % 0x10000
}

/// The sequence `i` below `ack`, round the wrap.
pub open spec fn seq_below(ack: u16, i: int) -> u16 {
    ((ack - i) % 0x10000) as u16
}

/// The sequences that a header with `ack` and `ack_bits` acknowledges among
/// those `sent` holds are exactly the sequences `ack - i` (round the wrap)
/// for the set bits `i`, each held in `sent`, in increasing order of `i`.
pub proof fn law_acked_sent(ack: u16, ack_bits: u32, sent: SequenceBuffer<()>, n: nat)
    requires
        n <= 32,
    ensures
        ({
            let r = acked_sent(ack, ack_bits, sent, n);
            &&& forall|k: int|
                0 <= k < r.len() ==> {
                    let d = distance_below(ack, (#[trigger] r[k]).0);
                    &&& 0 <= d < n
                    &&& bit_set(ack_bits, d as u32)
                    &&& r[k].0 == ((ack - d) % 0x10000) as u16
                    &&& sent.holds(r[k].0)
                }
            &&& forall|k1: int, k2: int|
                0 <= k1 < k2 < r.len() ==> distance_below(ack, (#[trigger] r[k1]).0) < distance_below(
                    ack,
                    (#[trigger] r[k2]).0,
                )
            &&& forall|i: int|
                0 <= i < n && bit_set(ack_bits, i as u32) && sent.holds(#[trigger] seq_below(ack, i))
                    ==> r.contains(Sequence(seq_below(ack, i)))
        }),
    decreases n,
{
    if n > 0 {
        law_acked_sent(ack, ack_bits, sent, (n - 1) as nat);
        let rest = acked_sent(ack, ack_bits, sent, (n - 1) as nat);
        let r = acked_sent(ack, ack_bits, sent, n);
        let i = n - 1;
        let s = ((ack - i) % 0x10000) as u16;
        assert(distance_below(ack, s) == i);
        if bit_set(ack_bits, i as u32) && sent.holds(s) {
            assert(r == rest.push(Sequence(s)));
            assert forall|k: int| 0 <= k < r.len() implies {
                let d = distance_below(ack, (#[trigger] r[k]).0);
                &&& 0 <= d < n
                &&& bit_set(ack_bits, d as u32)
                &&& r[k].0 == ((ack - d) % 0x10000) as u16
                &&& sent.holds(r[k].0)
            } by {
                if k < rest.len() {
                    assert(r[k] == rest[k]);
                }
            }
            assert forall|k1: int, k2: int| 0 <= k1 < k2 < r.len() implies distance_below(
                ack,
                (#[trigger] r[k1]).0,
            ) < distance_below(ack, (#[trigger] r[k2]).0) by {
                assert(r[k1] == rest[k1]);
                if k2 < rest.len() {
                    assert(r[k2] == rest[k2]);
                }
            }
            assert forall|j: int|
                0 <= j < n && bit_set(ack_bits, j as u32) && sent.holds(#[trigger] seq_below(ack, j)) implies r.contains(
                Sequence(seq_below(ack, j)),
            ) by {
                if j < i {
                    let k = choose|k: int| 0 <= k < rest.len() && rest[k] == Sequence(seq_below(ack, j));
                    assert(r[k] == rest[k]);
                } else {
                    assert(r[rest.len() as int] == Sequence(s));
                }
            }
        } else {
            assert(r == rest);
            assert forall|j: int|
                0 <= j < n && bit_set(ack_bits, j as u32) && sent.holds(#[trigger] seq_below(ack, j)) implies r.contains(
                Sequence(seq_below(ack, j)),
            ) by {
                assert(j < i);
            }
        }
    }
}

/// A packet that `Reliable::recv` accepted.
pub struct Received {
    /// Its sequence number.
    pub seq: Sequence,
    /// Its payload, after the header.
    pub payload: Vec<u8>,
    /// The sequences of sent packets that it acknowledges.
    pub acked: Vec<Sequence>,
}

/// Number of entries in the buffers of sent and received sequences.
pub const BUFFER_SIZE: usize = 256;

/// Sequence numbering and acknowledgement state of one connection.
pub struct Reliable {
    sequence: Sequence,
    sent: SequenceBuffer<()>,
    recv: SequenceBuffer<()>,
}

impl Reliable {
    pub const MAX_SEND: usize = 1024;
    pub const MAX_RECV: usize = 1033;

    /// The sequence of the next packet sent.
    pub closed spec fn next_seq(&self) -> u16 {
        self.sequence.0
    }

    /// The sequences sent.
    pub closed spec fn sent_buffer(&self) -> SequenceBuffer<()> {
        self.sent
    }

    /// The sequences received.
    pub closed spec fn recv_buffer(&self) -> SequenceBuffer<()> {
        self.recv
    }

    /// Both buffers have slots.
    pub open spec fn wf(&self) -> bool {
        self.sent_buffer().slots().len() > 0 && self.recv_buffer().slots().len() > 0
    }

    /// The sequence of the next packet sent.
    pub fn next_sequence(&self) -> (r: Sequence)
        ensures
            r.0 == self.next_seq(),
    {
        self.sequence
    }

    /// Frames `packet` behind a header that carries the next sequence and
    /// acknowledges what was received; records the sequence as sent.
    pub fn send(&mut self, packet: &[u8]) -> (r: Result<(Sequence, Vec<u8>), Error>)
        requires
            old(self).wf(),
        ensures
            final(self).wf(),
            packet@.len() > Self::MAX_SEND ==> r == Err::<(Sequence, Vec<u8>), Error>(Error::PacketTooLarge)
                && *final(self) == *old(self),
            packet@.len() <= Self::MAX_SEND ==> {
                let s = old(self).next_seq();
                let sent = old(self).sent_buffer();
                &&& r is Ok
                &&& r.unwrap().0 == Sequence(s)
                &&& r.unwrap().1@ == header_bytes(
                    Header {
                        seq: s,
                        ack: old(self).recv_buffer().ack(),
                        ack_bits: old(self).recv_buffer().ack_field(32) as u32,
                    },
                ) + packet@
                &&& final(self).next_seq() == (s + 1) % 0x10000
                &&& final(self).recv_buffer() == old(self).recv_buffer()
                &&& sent.accepts(s) ==> final(self).sent_buffer().slots() == sent.slots_after_insert(Sequence(s), ())
                    && final(self).sent_buffer().head() == sent.head_after_insert(s)
                &&& !sent.accepts(s) ==> final(self).sent_buffer() == sent
            },
    {
        if packet.len() > Self::MAX_SEND {
            return Err(Error::PacketTooLarge);
        }
        let seq = self.sequence;
        self.sequence = self.sequence.next();
        let (ack, ack_bits) = self.recv.generate_ack_bits();
        self.sent.insert(seq, ());
        let header = Header { seq: seq.0, ack, ack_bits };
        let mut out = header.to_bytes();
        push_all(&mut out, packet);
        Ok((seq, out))
    }

    /// Accepts a framed packet unless it is malformed, too large or older
    /// than the receive window; records its sequence as received and
    /// reports the sent sequences that it acknowledges.
    pub fn recv(&mut self, packet: &[u8]) -> (r: Result<Received, Error>)
        requires
            old(self).wf(),
        ensures
            final(self).wf(),
            final(self).next_seq() == old(self).next_seq(),
            final(self).sent_buffer() == old(self).sent_buffer(),
            packet@.len() > Self::MAX_RECV ==> r == Err::<Received, Error>(Error::PacketTooLarge)
                && *final(self) == *old(self),
            packet@.len() <= Self::MAX_RECV ==> match parse_header(packet@) {
                Err(e) => r == Err::<Received, Error>(e) && *final(self) == *old(self),
                Ok((h, n)) => {
                    let recv = old(self).recv_buffer();
                    if !recv.accepts(h.seq) {
                        r == Err::<Received, Error>(Error::PacketStale { seq: Sequence(h.seq) })
                            && *final(self) == *old(self)
                    } else {
                        &&& r is Ok
                        &&& r.unwrap().seq == Sequence(h.seq)
                        &&& r.unwrap().payload@ == packet@.subrange(n as int, packet@.len() as int)
                        &&& r.unwrap().acked@ == acked_sent(h.ack, h.ack_bits, old(self).sent_buffer(), 32)
                        &&& forall|k: int|
                            0 <= k < r.unwrap().acked@.len() ==> {
                                let d = distance_below(h.ack, (#[trigger] r.unwrap().acked@[k]).0);
                                &&& 0 <= d < 32
                                &&& bit_set(h.ack_bits, d as u32)
                                &&& old(self).sent_buffer().holds(r.unwrap().acked@[k].0)
                            }
                        &&& forall|i: int|
                            0 <= i < 32 && bit_set(h.ack_bits, i as u32) && old(self).sent_buffer().holds(
                                #[trigger] seq_below(h.ack, i),
                            ) ==> r.unwrap().acked@.contains(Sequence(seq_below(h.ack, i)))
                        &&& final(self).recv_buffer().slots() == recv.slots_after_insert(Sequence(h.seq), ())
                        &&& final(self).recv_buffer().head() == recv.head_after_insert(h.seq)
                    }
                },
            },
    {
        if packet.len() > Self::MAX_RECV {
            return Err(Error::PacketTooLarge);
        }
        let (header, len) = match Header::read(packet) {
            Ok(x) => x,
            Err(e) => return Err(e),
        };
        let seq = Sequence(header.seq);
        if !self.recv.test_insert(seq) {
            return Err(Error::PacketStale { seq });
        }
        self.recv.insert(seq, ());
        let mut payload: Vec<u8> = Vec::new();
        let mut k = len;
        while k < packet.len()
            invariant
                len <= k <= packet@.len(),
                payload@ == packet@.subrange(len as int, k as int),
            decreases packet@.len() - k,
        {
            payload.push(packet[k]);
            assert(payload@ =~= packet@.subrange(len as int, k + 1));
            k = k + 1;
        }
        let mut acked: Vec<Sequence> = Vec::new();
        let mut i: u32 = 0;
        while i < 32
            invariant
                i <= 32,
                self.sent.slots().len() > 0,
                acked@ == acked_sent(header.ack, header.ack_bits, self.sent, i as nat),
            decreases 32 - i,
        {
            let s = Sequence(header.ack.wrapping_sub(i as u16));
            if (header.ack_bits >> i) & 1 == 1 && self.sent.exists_entry(s) {
                acked.push(s);
            }
            i = i + 1;
        }
        proof {
            law_acked_sent(header.ack, header.ack_bits, self.sent, 32);
        }
        Ok(Received { seq, payload, acked })
    }
}

impl Default for Reliable {
    fn default() -> (r: Self)
        ensures
            r.wf(),
            r.next_seq() == 0,
            r.sent_buffer().slots().len() == BUFFER_SIZE,
            r.recv_buffer().slots().len() == BUFFER_SIZE,
            r.sent_buffer().head() == 0,
            r.recv_buffer().head() == 0,
            forall|j: int| 0 <= j < BUFFER_SIZE ==> r.sent_buffer().slots()[j] is None && r.recv_buffer().slots()[j] is None,
    {
        Reliable {
            sequence: Sequence(0),
            sent: SequenceBuffer::new(BUFFER_SIZE),
            recv: SequenceBuffer::new(BUFFER_SIZE),
        }
    }
}

} // verus!
