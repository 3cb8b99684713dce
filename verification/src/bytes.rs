//! Little- and big-endian integers as byte sequences.

use vstd::prelude::*;

verus! {

/// What a short read or write of a byte buffer reports.
#[derive(Debug, PartialEq, Eq, Structural, Clone, Copy)]
pub enum IoError {
    /// The buffer ended before all the bytes could be read.
    UnexpectedEof,
    /// The buffer was full before all the bytes could be written.
    WriteZero,
    /// The bytes did not authenticate.
    InvalidData,
    /// A field holds a value out of its range.
    InvalidInput,
}

/// The little-endian bytes of a 16-bit value.
pub open spec fn le16_bytes(x: u16) -> Seq<u8> {
    seq![(x & 0xff) as u8, ((x >> 8) & 0xff) as u8]
}

/// The 16-bit value of two little-endian bytes.
pub open spec fn le16(b0: u8, b1: u8) -> u16 {
    ((b0 as u16) | ((b1 as u16) << 8)) as u16
}

/// The little-endian bytes of a 32-bit value.
pub open spec fn le32_bytes(x: u32) -> Seq<u8> {
    seq![
        (x & 0xff) as u8,
        ((x >> 8) & 0xff) as u8,
        ((x >> 16) & 0xff) as u8,
        ((x >> 24) & 0xff) as u8,
    ]
}

/// The 32-bit value of four little-endian bytes.
pub open spec fn le32(b0: u8, b1: u8, b2: u8, b3: u8) -> u32 {
    ((b0 as u32) | ((b1 as u32) << 8) | ((b2 as u32) << 16) | ((b3 as u32) << 24)) as u32
}

/// The big-endian bytes of a 32-bit value.
pub open spec fn be32_bytes(x: u32) -> Seq<u8> {
    seq![
        ((x >> 24) & 0xff) as u8,
        ((x >> 16) & 0xff) as u8,
        ((x >> 8) & 0xff) as u8,
        (x & 0xff) as u8,
    ]
}

/// The 32-bit value of four big-endian bytes.
pub open spec fn be32(b0: u8, b1: u8, b2: u8, b3: u8) -> u32 {
    (((b0 as u32) << 24) | ((b1 as u32) << 16) | ((b2 as u32) << 8) | (b3 as u32)) as u32
}

/// Reading back the big-endian bytes of a 32-bit value gives the value.
pub proof fn lemma_be32(x: u32)
    ensures
        be32(
            ((x >> 24) & 0xff) as u8,
            ((x >> 16) & 0xff) as u8,
            ((x >> 8) & 0xff) as u8,
            (x & 0xff) as u8,
        ) == x,
{
    assert((((((x >> 24) & 0xff) as u8) as u32) << 24 | ((((x >> 16) & 0xff) as u8) as u32) << 16
        | ((((x >> 8) & 0xff) as u8) as u32) << 8 | (((x & 0xff) as u8) as u32)) == x) by (bit_vector);
}

/// The big-endian bytes of a 32-bit value, as an array.
pub fn u32_be_array(x: u32) -> (r: [u8; 4])
    ensures
        r@ == be32_bytes(x),
{
    let r = [((x >> 24) & 0xff) as u8, ((x >> 16) & 0xff) as u8, ((x >> 8) & 0xff) as u8, (x & 0xff) as u8];
    assert(r@ =~= be32_bytes(x));
    r
}

/// Byte `i` (from the least significant) of a 64-bit value.
pub open spec fn byte_of(x: u64, i: int) -> u8 {
    ((x >> ((8 * i) as u64)) & 0xff) as u8
}

/// The `n` least significant bytes of `x`, least significant first.
pub open spec fn le_bytes(x: u64, n: nat) -> Seq<u8> {
    Seq::new(n, |i: int| byte_of(x, i))
}

/// The little-endian value of the bytes `s`.
pub open spec fn le_value(s: Seq<u8>) -> int
    decreases s.len(),
{
    if s.len() == 0 {
        0
    } else {
        s[0] as int + 256 * le_value(s.drop_first())
    }
}

/// The two bytes of a 16-bit value read back as that value.
pub proof fn lemma_le16(x: u16)
    ensures
        le16((x & 0xff) as u8, ((x >> 8) & 0xff) as u8) == x,
{
    assert(((((x & 0xff) as u8) as u16) | (((((x >> 8) & 0xff) as u8) as u16) << 8)) == x)
        by (bit_vector);
}

pub proof fn lemma_le32(x: u32)
    ensures
        le32(
            (x & 0xff) as u8,
            ((x >> 8) & 0xff) as u8,
            ((x >> 16) & 0xff) as u8,
            ((x >> 24) & 0xff) as u8,
        ) == x,
{
    assert(((((x & 0xff) as u8) as u32) | ((((x >> 8) & 0xff) as u8) as u32) << 8 | ((((x >> 16)
        & 0xff) as u8) as u32) << 16 | ((((x >> 24) & 0xff) as u8) as u32) << 24) == x)
        by (bit_vector);
}

/// The value of the first `n` bytes of `s`, little-endian.
pub open spec fn le_read(s: Seq<u8>, n: nat) -> u64
    decreases n,
{
    if n == 0 {
        0
    } else {
        le_read(s, (n - 1) as nat) | ((s[n - 1] as u64) << ((8 * (n - 1)) as u64))
    }
}

/// The `n` low bytes of `x`.
pub open spec fn low_bytes(x: u64, n: nat) -> u64 {
    if n >= 8 {
        x
    } else {
        x & (((1u64 << ((8 * n) as u64)) - 1) as u64)
    }
}

/// The number of bytes, from one to eight, that `x` needs.
pub open spec fn seq_len(x: u64) -> nat {
    if x < 0x100 {
        1
    } else if x < 0x1_0000 {
        2
    } else if x < 0x100_0000 {
        3
    } else if x < 0x1_0000_0000 {
        4
    } else if x < 0x100_0000_0000 {
        5
    } else if x < 0x1_0000_0000_0000 {
        6
    } else if x < 0x100_0000_0000_0000 {
        7
    } else {
        8
    }
}

proof fn lemma_low_bytes_step(x: u64, k: u64)
    requires
        k < 64,
        k % 8 == 0,
    ensures
        (if k == 0 { 0u64 } else { x & (((1u64 << k) - 1) as u64) }) | ((((x >> k) & 0xff) as u8 as u64) << k) == (if k
            + 8 >= 64 { x } else { x & (((1u64 << ((k + 8) as u64)) - 1) as u64) }),
{
    assert((if k == 0 { 0u64 } else { x & (((1u64 << k) - 1) as u64) }) | ((((x >> k) & 0xff) as u8 as u64) << k) == (if k
        + 8 >= 64 { x } else { x & (((1u64 << ((k + 8) as u64)) - 1) as u64) })) by (bit_vector)
        requires k < 64, k % 8 == 0;
}

/// Reading back the `n` low bytes of `x` gives its `n` low bytes.
pub proof fn lemma_le_read_bytes(x: u64, n: nat)
    requires
        n <= 8,
    ensures
        le_read(le_bytes(x, n), n) == low_bytes(x, n),
    decreases n,
{
    if n > 0 {
        let m = (n - 1) as nat;
        lemma_le_read_bytes(x, m);
        assert(le_bytes(x, n).subrange(0, m as int) =~= le_bytes(x, m).subrange(0, m as int));
        lemma_le_read_prefix(le_bytes(x, n), le_bytes(x, m), m);
        let k = (8 * m) as u64;
        lemma_low_bytes_step(x, k);
        let b = le_bytes(x, n)[m as int];
        assert(b == ((x >> k) & 0xff) as u8);
        let lo: u64 = if k == 0 { 0u64 } else { x & (((1u64 << k) - 1) as u64) };
        assert(low_bytes(x, m) == lo) by {
            if k == 0 {
                assert(x & (((1u64 << 0u64) - 1) as u64) == 0) by (bit_vector);
            }
        }
        assert(le_read(le_bytes(x, n), n) == le_read(le_bytes(x, n), m) | ((b as u64) << k));
        assert(low_bytes(x, n) == (if k + 8 >= 64 { x } else { x & (((1u64 << ((k + 8) as u64)) - 1) as u64) }));
    } else {
        assert(x & (((1u64 << 0u64) - 1) as u64) == 0) by (bit_vector);
    }
}

/// `le_read` of `n` bytes only looks at the first `n`.
pub proof fn lemma_le_read_prefix(a: Seq<u8>, b: Seq<u8>, n: nat)
    requires
        a.len() >= n,
        b.len() >= n,
        a.subrange(0, n as int) == b.subrange(0, n as int),
    ensures
        le_read(a, n) == le_read(b, n),
    decreases n,
{
    if n > 0 {
        assert(a.subrange(0, n - 1) =~= a.subrange(0, n as int).subrange(0, n - 1));
        assert(b.subrange(0, n - 1) =~= b.subrange(0, n as int).subrange(0, n - 1));
        lemma_le_read_prefix(a, b, (n - 1) as nat);
        assert(a[n - 1] == a.subrange(0, n as int)[n - 1]);
        assert(b[n - 1] == b.subrange(0, n as int)[n - 1]);
    }
}

/// A value fits in the bytes that `seq_len` counts.
pub proof fn lemma_seq_len(x: u64)
    ensures
        1 <= seq_len(x) <= 8,
        low_bytes(x, seq_len(x)) == x,
{
    assert({
        &&& (x < 0x100 ==> x & (((1u64 << 8u64) - 1) as u64) == x)
        &&& (x < 0x1_0000 ==> x & (((1u64 << 16u64) - 1) as u64) == x)
        &&& (x < 0x100_0000 ==> x & (((1u64 << 24u64) - 1) as u64) == x)
        &&& (x < 0x1_0000_0000 ==> x & (((1u64 << 32u64) - 1) as u64) == x)
        &&& (x < 0x100_0000_0000 ==> x & (((1u64 << 40u64) - 1) as u64) == x)
        &&& (x < 0x1_0000_0000_0000 ==> x & (((1u64 << 48u64) - 1) as u64) == x)
        &&& (x < 0x100_0000_0000_0000 ==> x & (((1u64 << 56u64) - 1) as u64) == x)
    }) by (bit_vector);
}

/// The number of bytes, from one to eight, that `x` needs.
pub fn seq_len_of(x: u64) -> (r: u8)
    ensures
        r == seq_len(x),
{
    if x < 0x100 {
        1
    } else if x < 0x1_0000 {
        2
    } else if x < 0x100_0000 {
        3
    } else if x < 0x1_0000_0000 {
        4
    } else if x < 0x100_0000_0000 {
        5
    } else if x < 0x1_0000_0000_0000 {
        6
    } else if x < 0x100_0000_0000_0000 {
        7
    } else {
        8
    }
}

/// Reads `n` little-endian bytes at `off`.
pub fn read_uint_le(buf: &[u8], off: usize, n: usize) -> (r: u64)
    requires
        n <= 8,
        off + n <= buf@.len(),
    ensures
        r == le_read(buf@.subrange(off as int, off + n), n as nat),
{
    let ghost s = buf@.subrange(off as int, off + n);
    let len = buf.len();
    let mut v: u64 = 0;
    let mut i: usize = 0;
    while i < n
        invariant
            i <= n,
            n <= 8,
            off + n <= buf@.len(),
            len == buf@.len(),
            s == buf@.subrange(off as int, off + n),
            v == le_read(s, i as nat),
        decreases n - i,
    {
        assert(off + i < buf@.len());
        let b = buf[off + i];
        assert(b == s[i as int]);
        v = v | ((b as u64) << ((8 * i) as u64));
        i = i + 1;
    }
    v
}

/// Reads a little-endian 16-bit value at `off`.
pub fn read_u16_le(buf: &[u8], off: usize) -> (r: u16)
    requires
        off + 2 <= buf@.len(),
    ensures
        r == le16(buf@[off as int], buf@[off + 1]),
{
    let b0 = buf[off];
    let b1 = buf[off + 1];
    (b0 as u16) | ((b1 as u16) << 8)
}

/// Reads a little-endian 32-bit value at `off`.
pub fn read_u32_le(buf: &[u8], off: usize) -> (r: u32)
    requires
        off + 4 <= buf@.len(),
    ensures
        r == le32(buf@[off as int], buf@[off + 1], buf@[off + 2], buf@[off + 3]),
{
    let b0 = buf[off];
    let b1 = buf[off + 1];
    let b2 = buf[off + 2];
    let b3 = buf[off + 3];
    (b0 as u32) | ((b1 as u32) << 8) | ((b2 as u32) << 16) | ((b3 as u32) << 24)
}

/// Appends the little-endian bytes of a 16-bit value.
pub fn push_u16_le(out: &mut Vec<u8>, x: u16)
    ensures
        final(out)@ == old(out)@ + le16_bytes(x),
{
    out.push((x & 0xff) as u8);
    out.push(((x >> 8) & 0xff) as u8);
    assert(final(out)@ =~= old(out)@ + le16_bytes(x));
}

/// Appends the little-endian bytes of a 32-bit value.
pub fn push_u32_le(out: &mut Vec<u8>, x: u32)
    ensures
        final(out)@ == old(out)@ + le32_bytes(x),
{
    out.push((x & 0xff) as u8);
    out.push(((x >> 8) & 0xff) as u8);
    out.push(((x >> 16) & 0xff) as u8);
    out.push(((x >> 24) & 0xff) as u8);
    assert(final(out)@ =~= old(out)@ + le32_bytes(x));
}

/// Appends the `n` least significant bytes of `x`, least significant first.
pub fn push_uint_le(out: &mut Vec<u8>, x: u64, n: usize)
    requires
        n <= 8,
    ensures
        final(out)@ == old(out)@ + le_bytes(x, n as nat),
{
    let mut i: usize = 0;
    while i < n
        invariant
            i <= n,
            n <= 8,
            out@ == old(out)@ + le_bytes(x, i as nat),
        decreases n - i,
    {
        let b = ((x >> ((8 * i) as u64)) & 0xff) as u8;
        out.push(b);
        assert(out@ =~= old(out)@ + le_bytes(x, (i + 1) as nat));
        i = i + 1;
    }
}

/// Appends all of `src`.
pub fn push_all(out: &mut Vec<u8>, src: &[u8])
    ensures
        final(out)@ == old(out)@ + src@,
{
    let mut i: usize = 0;
    while i < src.len()
        invariant
            i <= src@.len(),
            out@ == old(out)@ + src@.subrange(0, i as int),
        decreases src@.len() - i,
    {
        out.push(src[i]);
        assert(out@ =~= old(out)@ + src@.subrange(0, i + 1));
        i = i + 1;
    }
    assert(src@.subrange(0, src@.len() as int) =~= src@);
}

/// Overwrites the bytes of `dst` from `off` with `src`.
pub fn write_at(dst: &mut [u8], off: usize, src: &[u8])
    requires
        off + src@.len() <= old(dst)@.len(),
    ensures
        final(dst)@ == old(dst)@.subrange(0, off as int) + src@ + old(dst)@.subrange(
            off + src@.len(),
            old(dst)@.len() as int,
        ),
{
    let n = src.len();
    let dlen = dst.len();
    let mut i: usize = 0;
    while i < n
        invariant
            i <= n,
            n == src@.len(),
            dlen == old(dst)@.len(),
            off + n <= old(dst)@.len(),
            dst@.len() == old(dst)@.len(),
            dst@ == old(dst)@.subrange(0, off as int) + src@.subrange(0, i as int) + old(dst)@.subrange(
                off + i,
                old(dst)@.len() as int,
            ),
        decreases n - i,
    {
        dst[off + i] = src[i];
        assert(dst@ =~= old(dst)@.subrange(0, off as int) + src@.subrange(0, i + 1) + old(dst)@.subrange(
            off + i + 1,
            old(dst)@.len() as int,
        ));
        i = i + 1;
    }
    assert(src@.subrange(0, n as int) =~= src@);
}

/// Copies `src` into the start of `dst`, as far as it fits, and returns the
/// number of bytes copied.
pub fn copy_prefix(dst: &mut [u8], src: &[u8]) -> (n: usize)
    ensures
        n == if src@.len() <= old(dst)@.len() { src@.len() } else { old(dst)@.len() },
        final(dst)@ == src@.subrange(0, n as int) + old(dst)@.subrange(n as int, old(dst)@.len() as int),
{
    let n = if src.len() <= dst.len() { src.len() } else { dst.len() };
    let mut i: usize = 0;
    while i < n
        invariant
            i <= n,
            n <= src@.len(),
            n <= dst@.len(),
            dst@.len() == old(dst)@.len(),
            n == if src@.len() <= old(dst)@.len() { src@.len() } else { old(dst)@.len() },
            dst@ == src@.subrange(0, i as int) + old(dst)@.subrange(i as int, old(dst)@.len() as int),
        decreases n - i,
    {
        dst[i] = src[i];
        assert(dst@ =~= src@.subrange(0, i + 1) + old(dst)@.subrange(i + 1, old(dst)@.len() as int));
        i = i + 1;
    }
    n
}

/// The `N` bytes of `s` from `off`, as an array.
pub fn array_at<const N: usize>(s: &[u8], off: usize) -> (r: [u8; N])
    requires
        off + N <= s@.len(),
    ensures
        r@ == s@.subrange(off as int, off + N),
{
    let mut t = [0u8; N];
    let slen = s.len();
    let mut i: usize = 0;
    while i < N
        invariant
            slen == s@.len(),
            i <= N,
            off + N <= s@.len(),
            t@.len() == N,
            forall|j: int| 0 <= j < i ==> t@[j] == s@[off + j],
        decreases N - i,
    {
        assert(off + i < s@.len());
        t[i] = s[off + i];
        i = i + 1;
    }
    assert(t@ =~= s@.subrange(off as int, off + N));
    t
}

/// The little-endian bytes of a 64-bit value, as an array.
pub fn u64_le_array(x: u64) -> (r: [u8; 8])
    ensures
        r@ == le_bytes(x, 8),
{
    let mut v: Vec<u8> = Vec::new();
    push_uint_le(&mut v, x, 8);
    array_at(v.as_slice(), 0)
}

/// The little-endian bytes of a 32-bit value, as an array.
pub fn u32_le_array(x: u32) -> (r: [u8; 4])
    ensures
        r@ == le32_bytes(x),
{
    let mut v: Vec<u8> = Vec::new();
    push_u32_le(&mut v, x);
    assert(v@.subrange(0, 4) =~= le32_bytes(x));
    array_at(v.as_slice(), 0)
}

/// The 64-bit value of eight little-endian bytes.
pub fn u64_from_le_array(a: [u8; 8]) -> (r: u64)
    ensures
        r == le_read(a@, 8),
{
    let r = read_uint_le(&a, 0, 8);
    assert(a@.subrange(0, 8) =~= a@);
    r
}

/// The 32-bit value of four little-endian bytes.
pub fn u32_from_le_array(a: [u8; 4]) -> (r: u32)
    ensures
        r == le32(a@[0], a@[1], a@[2], a@[3]),
{
    read_u32_le(&a, 0)
}

/// Reading back the eight little-endian bytes of `x` gives `x`.
pub proof fn lemma_le64_roundtrip(x: u64)
    ensures
        le_read(le_bytes(x, 8), 8) == x,
{
    lemma_le_read_bytes(x, 8);
}

} // verus!
