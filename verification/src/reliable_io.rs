//! Headers of the reliable endpoint: regular packet headers with compressed
//! acknowledgements, and fragment headers.

use vstd::prelude::*;
use vstd::std_specs::convert::FromSpecImpl;
use crate::bytes::{IoError, le16, lemma_le16, le16_bytes, le32, lemma_le32, push_u16_le, read_u16_le, copy_prefix};

verus! {

/// Errors of the reliable endpoint.
#[derive(Debug, PartialEq, Eq, Structural, Clone, Copy)]
pub enum Error {
    PacketTooLarge,
    PacketStale,
    PacketTooLargeToSend,
    PacketTooLargeToRecv,
    FragmentHeaderInvalid,
    FragmentInvalid,
    FragmentAlreadyReceived,
    Io(IoError),
}

impl From<IoError> for Error {
    fn from(err: IoError) -> (r: Self) {
        Error::Io(err)
    }
}

impl FromSpecImpl<IoError> for Error {
    open spec fn obeys_from_spec() -> bool {
        true
    }

    open spec fn from_spec(err: IoError) -> Self {
        Error::Io(err)
    }
}

/// The prefix bit of a fragment header.
pub const FRAGMENTED: u8 = 1;
/// The prefix bit that says the ack is sent as a one-byte distance.
pub const LARGE_ACK: u8 = 32;

/// Byte `i` of `ack_bits`.
pub open spec fn ack_byte(ack_bits: u32, i: int) -> u8 {
    if i == 0 {
        (ack_bits & 0xff) as u8
    } else if i == 1 {
        ((ack_bits >> 8) & 0xff) as u8
    } else if i == 2 {
        ((ack_bits >> 16) & 0xff) as u8
    } else {
        ((ack_bits >> 24) & 0xff) as u8
    }
}

/// Byte `i` of `ack_bits` is not all ones, so a header carries it.
pub open spec fn ack_byte_sent(ack_bits: u32, i: int) -> bool {
    ack_byte(ack_bits, i) != 0xff
}

/// `x` as a one-byte sequence when `b` holds, else nothing.
pub open spec fn opt_byte(b: bool, x: u8) -> Seq<u8> {
    if b {
        seq![x]
    } else {
        seq![]
    }
}

/// The bytes of `ack_bits` that a header carries, lowest first.
pub open spec fn sent_ack_bytes(ack_bits: u32) -> Seq<u8> {
    opt_byte(ack_byte_sent(ack_bits, 0), ack_byte(ack_bits, 0)) + opt_byte(
        ack_byte_sent(ack_bits, 1),
        ack_byte(ack_bits, 1),
    ) + opt_byte(ack_byte_sent(ack_bits, 2), ack_byte(ack_bits, 2)) + opt_byte(
        ack_byte_sent(ack_bits, 3),
        ack_byte(ack_bits, 3),
    )
}

/// The distance from `ack` up to `seq`, wrapping.
pub open spec fn ack_distance(seq: u16, ack: u16) -> int {
    (seq - ack) % 0x10000
}

/// Number of set flags among the first `i` of four.
pub open spec fn count_flags(f0: bool, f1: bool, f2: bool, f3: bool, i: int) -> int {
    (if i > 0 && f0 { 1int } else { 0int }) + (if i > 1 && f1 { 1int } else { 0int }) + (if i > 2
        && f2 { 1int } else { 0int }) + (if i > 3 && f3 { 1int } else { 0int })
}

/// The four ack bytes read after `pos`: byte `i` comes from the buffer when
/// its flag is set, and is all ones otherwise.
pub open spec fn read_ack_bits(s: Seq<u8>, pos: int, f0: bool, f1: bool, f2: bool, f3: bool) -> u32 {
    let b0 = if f0 { s[pos + count_flags(f0, f1, f2, f3, 0)] } else { 0xffu8 };
    let b1 = if f1 { s[pos + count_flags(f0, f1, f2, f3, 1)] } else { 0xffu8 };
    let b2 = if f2 { s[pos + count_flags(f0, f1, f2, f3, 2)] } else { 0xffu8 };
    let b3 = if f3 { s[pos + count_flags(f0, f1, f2, f3, 3)] } else { 0xffu8 };
    le32(b0, b1, b2, b3)
}

pub proof fn lemma_ack_bytes(x: u32)
    ensures
        le32(ack_byte(x, 0), ack_byte(x, 1), ack_byte(x, 2), ack_byte(x, 3)) == x,
{
    lemma_le32(x);
}

proof fn lemma_sent_ack_bytes(x: u32)
    ensures
        ({
            let m0 = ack_byte_sent(x, 0);
            let m1 = ack_byte_sent(x, 1);
            let m2 = ack_byte_sent(x, 2);
            let m3 = ack_byte_sent(x, 3);
            let s = sent_ack_bytes(x);
            &&& s.len() == count_flags(m0, m1, m2, m3, 4)
            &&& m0 ==> s[count_flags(m0, m1, m2, m3, 0)] == ack_byte(x, 0)
            &&& m1 ==> s[count_flags(m0, m1, m2, m3, 1)] == ack_byte(x, 1)
            &&& m2 ==> s[count_flags(m0, m1, m2, m3, 2)] == ack_byte(x, 2)
            &&& m3 ==> s[count_flags(m0, m1, m2, m3, 3)] == ack_byte(x, 3)
        }),
{
}

/// The bytes that `read_ack_bits` picks out of an encoding give back the
/// ack bits.
pub proof fn lemma_read_sent_ack_bits(x: u32, s: Seq<u8>, pos: int)
    requires
        0 <= pos,
        s.len() >= pos + sent_ack_bytes(x).len(),
        s.subrange(pos, pos + sent_ack_bytes(x).len()) == sent_ack_bytes(x),
    ensures
        read_ack_bits(s, pos, ack_byte_sent(x, 0), ack_byte_sent(x, 1), ack_byte_sent(x, 2), ack_byte_sent(x, 3)) == x,
{
    lemma_sent_ack_bytes(x);
    let m0 = ack_byte_sent(x, 0);
    let m1 = ack_byte_sent(x, 1);
    let m2 = ack_byte_sent(x, 2);
    let m3 = ack_byte_sent(x, 3);
    let t = sent_ack_bytes(x);
    assert(m0 ==> s[pos + count_flags(m0, m1, m2, m3, 0)] == t[count_flags(m0, m1, m2, m3, 0)]);
    assert(m1 ==> s[pos + count_flags(m0, m1, m2, m3, 1)] == t[count_flags(m0, m1, m2, m3, 1)]);
    assert(m2 ==> s[pos + count_flags(m0, m1, m2, m3, 2)] == t[count_flags(m0, m1, m2, m3, 2)]);
    assert(m3 ==> s[pos + count_flags(m0, m1, m2, m3, 3)] == t[count_flags(m0, m1, m2, m3, 3)]);
    lemma_ack_bytes(x);
}

/// Header of a regular (unfragmented) packet.
#[derive(Debug, Default, PartialEq, Eq, Structural, Clone, Copy)]
pub struct Regular {
    pub seq: u16,
    pub ack: u16,
    pub ack_bits: u32,
}

/// Header of one fragment of a large packet.
#[derive(Debug, Default, PartialEq, Eq, Structural, Clone, Copy)]
pub struct Fragment {
    pub seq: u16,
    pub id: u8,
    pub total: u8,
}

/// A header of either kind.
#[derive(Debug, PartialEq, Eq, Structural, Clone, Copy)]
pub enum Header {
    Regular(Regular),
    Fragment(Fragment),
}

/// The prefix byte of a regular header.
pub open spec fn regular_prefix(h: Regular) -> u8 {
    (if ack_byte_sent(h.ack_bits, 0) { 2u8 } else { 0u8 }) | (if ack_byte_sent(h.ack_bits, 1) {
        4u8
    } else {
        0u8
    }) | (if ack_byte_sent(h.ack_bits, 2) { 8u8 } else { 0u8 }) | (if ack_byte_sent(h.ack_bits, 3) {
        16u8
    } else {
        0u8
    }) | (if ack_distance(h.seq, h.ack) <= 255 { 32u8 } else { 0u8 })
}

/// The encoding of a regular header: prefix, sequence, the ack as a
/// one-byte distance below the sequence (when it fits) or in full, then the
/// ack bytes that are not all ones.
pub open spec fn regular_bytes(h: Regular) -> Seq<u8> {
    seq![regular_prefix(h)] + le16_bytes(h.seq) + (if ack_distance(h.seq, h.ack) <= 255 {
        seq![ack_distance(h.seq, h.ack) as u8]
    } else {
        le16_bytes(h.ack)
    }) + sent_ack_bytes(h.ack_bits)
}

/// What reading a regular header from `s` gives.
pub open spec fn parse_regular(s: Seq<u8>) -> Result<(Regular, usize), IoError> {
    if s.len() < 3 {
        Err(IoError::UnexpectedEof)
    } else {
        let p = s[0];
        let small = p & LARGE_ACK != 0;
        let seq = le16(s[1], s[2]);
        let pos: int = if small { 4 } else { 5 };
        let f0 = p & 2 != 0;
        let f1 = p & 4 != 0;
        let f2 = p & 8 != 0;
        let f3 = p & 16 != 0;
        if s.len() < pos + count_flags(f0, f1, f2, f3, 4) {
            Err(IoError::UnexpectedEof)
        } else {
            let ack = if small { ((seq - s[3]) % 0x10000) as u16 } else { le16(s[3], s[4]) };
            Ok((
                Regular { seq, ack, ack_bits: read_ack_bits(s, pos, f0, f1, f2, f3) },
                (pos + count_flags(f0, f1, f2, f3, 4)) as usize,
            ))
        }
    }
}

/// `n` bytes of `bytes` go into `old`, as many as fit.
pub open spec fn written(old: Seq<u8>, bytes: Seq<u8>) -> Seq<u8> {
    let n = if bytes.len() <= old.len() { bytes.len() } else { old.len() };
    bytes.subrange(0, n as int) + old.subrange(n as int, old.len() as int)
}

/// Appends the ack bytes that are not all ones.
pub fn push_ack_bytes(out: &mut Vec<u8>, ack_bits: u32)
    ensures
        final(out)@ == old(out)@ + sent_ack_bytes(ack_bits),
{
    let ghost start = out@;
    let mut i: u32 = 0;
    while i < 4
        invariant
            i <= 4,
            out@ == start + (if i > 0 { opt_byte(ack_byte_sent(ack_bits, 0), ack_byte(ack_bits, 0)) } else { seq![] })
                + (if i > 1 { opt_byte(ack_byte_sent(ack_bits, 1), ack_byte(ack_bits, 1)) } else { seq![] })
                + (if i > 2 { opt_byte(ack_byte_sent(ack_bits, 2), ack_byte(ack_bits, 2)) } else { seq![] })
                + (if i > 3 { opt_byte(ack_byte_sent(ack_bits, 3), ack_byte(ack_bits, 3)) } else { seq![] }),
        decreases 4 - i,
    {
        let b = if i == 0 {
            (ack_bits & 0xff) as u8
        } else if i == 1 {
            ((ack_bits >> 8) & 0xff) as u8
        } else if i == 2 {
            ((ack_bits >> 16) & 0xff) as u8
        } else {
            ((ack_bits >> 24) & 0xff) as u8
        };
        let ghost before = out@;
        if b != 0xff {
            out.push(b);
        }
        assert(out@ =~= before + opt_byte(ack_byte_sent(ack_bits, i as int), ack_byte(ack_bits, i as int)));
        i = i + 1;
    }
    assert(out@ =~= old(out)@ + sent_ack_bytes(ack_bits));
}

/// The ack bytes read at `pos` with the four presence flags.
pub fn read_ack_bytes(buf: &[u8], pos: usize, f0: bool, f1: bool, f2: bool, f3: bool) -> (r: u32)
    requires
        pos + count_flags(f0, f1, f2, f3, 4) <= buf@.len(),
    ensures
        r == read_ack_bits(buf@, pos as int, f0, f1, f2, f3),
{
    let c1: usize = if f0 { 1 } else { 0 };
    let c2: usize = c1 + if f1 { 1 } else { 0 };
    let c3: usize = c2 + if f2 { 1 } else { 0 };
    let b0 = if f0 { buf[pos] } else { 0xffu8 };
    let b1 = if f1 { buf[pos + c1] } else { 0xffu8 };
    let b2 = if f2 { buf[pos + c2] } else { 0xffu8 };
    let b3 = if f3 { buf[pos + c3] } else { 0xffu8 };
    (b0 as u32) | ((b1 as u32) << 8) | ((b2 as u32) << 16) | ((b3 as u32) << 24)
}

impl Regular {
    pub const MIN_BYTES: usize = 3;
    pub const MAX_BYTES: usize = 9;

    pub fn new(seq: u16, ack: u16, ack_bits: u32) -> (r: Self)
        ensures
            r == (Regular { seq, ack, ack_bits }),
    {
        Self { seq, ack, ack_bits }
    }

    /// The encoding of this header.
    pub fn to_bytes(self) -> (r: Vec<u8>)
        ensures
            r@ == regular_bytes(self),
    {
        let diff = self.seq.wrapping_sub(self.ack);
        let x = self.ack_bits;
        let m0 = (x & 0xff) as u8 != 0xff;
        let m1 = ((x >> 8) & 0xff) as u8 != 0xff;
        let m2 = ((x >> 16) & 0xff) as u8 != 0xff;
        let m3 = ((x >> 24) & 0xff) as u8 != 0xff;
        let prefix: u8 = (if m0 { 2u8 } else { 0u8 }) | (if m1 { 4u8 } else { 0u8 }) | (if m2 {
            8u8
        } else {
            0u8
        }) | (if m3 { 16u8 } else { 0u8 }) | (if diff <= 255 { 32u8 } else { 0u8 });
        assert(prefix == regular_prefix(self));
        let mut out: Vec<u8> = Vec::new();
        out.push(prefix);
        push_u16_le(&mut out, self.seq);
        if diff <= 255 {
            out.push(diff as u8);
        } else {
            push_u16_le(&mut out, self.ack);
        }
        push_ack_bytes(&mut out, self.ack_bits);
        assert(out@ =~= regular_bytes(self));
        out
    }

    /// Writes the encoding into `buf`, as far as it fits; fails when it
    /// does not fit whole.
    pub fn write(self, buf: &mut [u8]) -> (r: Result<usize, IoError>)
        ensures
            final(buf)@ == written(old(buf)@, regular_bytes(self)),
            r == (if regular_bytes(self).len() <= old(buf)@.len() {
                Ok::<usize, IoError>(regular_bytes(self).len() as usize)
            } else {
                Err(IoError::WriteZero)
            }),
    {
        let bytes = self.to_bytes();
        let n = copy_prefix(buf, bytes.as_slice());
        if n < bytes.len() {
            Err(IoError::WriteZero)
        } else {
            Ok(n)
        }
    }

    /// Reads a regular header from the start of `buf`; also returns its
    /// length.
    pub fn read(buf: &[u8]) -> (r: Result<(Self, usize), IoError>)
        requires
            buf@.len() > 0 ==> buf@[0] & 0xc1 == 0,
        ensures
            r == parse_regular(buf@),
    {
        if buf.len() < 3 {
            return Err(IoError::UnexpectedEof);
        }
        let p = buf[0];
        let small = p & LARGE_ACK != 0;
        let seq = read_u16_le(buf, 1);
        let pos: usize = if small { 4 } else { 5 };
        let f0 = p & 2 != 0;
        let f1 = p & 4 != 0;
        let f2 = p & 8 != 0;
        let f3 = p & 16 != 0;
        let count: usize = (if f0 { 1usize } else { 0 }) + (if f1 { 1usize } else { 0 }) + (if f2 {
            1usize
        } else {
            0
        }) + (if f3 { 1usize } else { 0 });
        if buf.len() < pos + count {
            return Err(IoError::UnexpectedEof);
        }
        let ack = if small { seq.wrapping_sub(buf[3] as u16) } else { read_u16_le(buf, 3) };
        let ack_bits = read_ack_bytes(buf, pos, f0, f1, f2, f3);
        Ok((Regular { seq, ack, ack_bits }, pos + count))
    }
}

proof fn lemma_regular_prefix(h: Regular)
    ensures
        (regular_prefix(h) & 2 != 0) == ack_byte_sent(h.ack_bits, 0),
        (regular_prefix(h) & 4 != 0) == ack_byte_sent(h.ack_bits, 1),
        (regular_prefix(h) & 8 != 0) == ack_byte_sent(h.ack_bits, 2),
        (regular_prefix(h) & 16 != 0) == ack_byte_sent(h.ack_bits, 3),
        (regular_prefix(h) & LARGE_ACK != 0) == (ack_distance(h.seq, h.ack) <= 255),
        regular_prefix(h) & 0xc1 == 0,
{
    let m0 = ack_byte_sent(h.ack_bits, 0);
    let m1 = ack_byte_sent(h.ack_bits, 1);
    let m2 = ack_byte_sent(h.ack_bits, 2);
    let m3 = ack_byte_sent(h.ack_bits, 3);
    let sm = ack_distance(h.seq, h.ack) <= 255;
    let p = regular_prefix(h);
    assert((p & 2 != 0) == m0 && (p & 4 != 0) == m1 && (p & 8 != 0) == m2 && (p & 16 != 0) == m3
        && (p & 32 != 0) == sm && p & 0xc1 == 0) by (bit_vector)
        requires
            p == (if m0 { 2u8 } else { 0u8 }) | (if m1 { 4u8 } else { 0u8 }) | (if m2 { 8u8 } else { 0u8 })
                | (if m3 { 16u8 } else { 0u8 }) | (if sm { 32u8 } else { 0u8 }),
    ;
}

/// Reading back the encoding of a regular header, followed by anything,
/// gives the header and the length of its encoding.
pub proof fn law_regular_roundtrip(h: Regular, rest: Seq<u8>)
    ensures
        parse_regular(regular_bytes(h) + rest) == Ok::<(Regular, usize), IoError>((h, regular_bytes(h).len() as usize)),
        (regular_bytes(h) + rest)[0] & 0xc1 == 0,
{
    let b = regular_bytes(h);
    let s = b + rest;
    let sm = ack_distance(h.seq, h.ack) <= 255;
    lemma_regular_prefix(h);
    lemma_sent_ack_bytes(h.ack_bits);
    lemma_le16(h.seq);
    lemma_le16(h.ack);
    let pos: int = if sm { 4 } else { 5 };
    assert(s[0] == regular_prefix(h));
    assert(s[1] == le16_bytes(h.seq)[0]);
    assert(s[2] == le16_bytes(h.seq)[1]);
    assert(le16(s[1], s[2]) == h.seq);
    if sm {
        assert(s[3] == ack_distance(h.seq, h.ack) as u8);
        assert(((h.seq - s[3]) % 0x10000) as u16 == h.ack);
    } else {
        assert(s[3] == le16_bytes(h.ack)[0]);
        assert(s[4] == le16_bytes(h.ack)[1]);
    }
    assert(s.subrange(pos, pos + sent_ack_bytes(h.ack_bits).len()) =~= sent_ack_bytes(h.ack_bits));
    lemma_read_sent_ack_bits(h.ack_bits, s, pos);
}

/// The encoding of a fragment header.
pub open spec fn fragment_bytes(f: Fragment) -> Seq<u8> {
    seq![FRAGMENTED] + le16_bytes(f.seq) + seq![f.id, f.total]
}

/// What reading a fragment header from `s` gives.
pub open spec fn parse_fragment(s: Seq<u8>) -> Result<(Fragment, usize), IoError> {
    if s.len() < 5 {
        Err(IoError::UnexpectedEof)
    } else {
        Ok((Fragment { seq: le16(s[1], s[2]), id: s[3], total: s[4] }, 5))
    }
}

impl Fragment {
    pub const BYTES: usize = 5;

    pub fn new(seq: u16, id: u8, total: u8) -> (r: Self)
        ensures
            r == (Fragment { seq, id, total }),
    {
        Self { seq, id, total }
    }

    /// The fragment fits the limits: no more than `max_fragments`, an id in
    /// range, no more than `size` bytes, and exactly `size` bytes unless it
    /// is the last fragment.
    pub fn validate(&self, max_fragments: u8, size: usize, bytes: usize) -> (r: bool)
        requires
            self.total <= max_fragments && self.id < max_fragments && bytes <= size ==> self.total
                >= 1,
        ensures
            r == !(self.total > max_fragments || self.id >= max_fragments || bytes > size || (
            self.id != self.total - 1 && bytes != size)),
    {
        !(self.total > max_fragments || self.id >= max_fragments || bytes > size || (self.id
            != self.total - 1 && bytes != size))
    }

    /// Writes the five header bytes into `buf`, as far as they fit.
    pub fn write(self, buf: &mut [u8]) -> (r: Result<usize, IoError>)
        ensures
            final(buf)@ == written(old(buf)@, fragment_bytes(self)),
            r == (if 5 <= old(buf)@.len() {
                Ok::<usize, IoError>(5)
            } else {
                Err(IoError::WriteZero)
            }),
    {
        let mut out: Vec<u8> = Vec::new();
        out.push(FRAGMENTED);
        push_u16_le(&mut out, self.seq);
        out.push(self.id);
        out.push(self.total);
        assert(out@ =~= fragment_bytes(self));
        let n = copy_prefix(buf, out.as_slice());
        if n < 5 {
            Err(IoError::WriteZero)
        } else {
            Ok(Self::BYTES)
        }
    }

    /// Reads a fragment header from the start of `buf`.
    pub fn read(buf: &[u8]) -> (r: Result<(Self, usize), IoError>)
        requires
            buf@.len() > 0 ==> buf@[0] & 1 == 1,
        ensures
            r == parse_fragment(buf@),
    {
        if buf.len() < 5 {
            return Err(IoError::UnexpectedEof);
        }
        let seq = read_u16_le(buf, 1);
        Ok((Fragment { seq, id: buf[3], total: buf[4] }, Self::BYTES))
    }
}

impl Header {
    /// Reads a header of the kind that the prefix byte announces.
    pub fn read(buf: &[u8]) -> (r: Result<(Self, usize), IoError>)
        requires
            buf@.len() > 0,
            buf@[0] & 0xc0 == 0,
        ensures
            buf@[0] & 1 == 1 ==> r == (match parse_fragment(buf@) {
                Ok((f, n)) => Ok::<(Header, usize), IoError>((Header::Fragment(f), n)),
                Err(e) => Err(e),
            }),
            buf@[0] & 1 == 0 ==> r == (match parse_regular(buf@) {
                Ok((h, n)) => Ok::<(Header, usize), IoError>((Header::Regular(h), n)),
                Err(e) => Err(e),
            }),
    {
        let p = buf[0];
        if p & FRAGMENTED != 0 {
            assert(p & 1 != 0 ==> p & 1 == 1) by (bit_vector);
            match Fragment::read(buf) {
                Ok((f, n)) => Ok((Header::Fragment(f), n)),
                Err(e) => Err(e),
            }
        } else {
            assert(p & 0xc0 == 0 && p & 1 == 0 ==> p & 0xc1 == 0) by (bit_vector);
            match Regular::read(buf) {
                Ok((h, n)) => Ok((Header::Regular(h), n)),
                Err(e) => Err(e),
            }
        }
    }
}

} // verus!
