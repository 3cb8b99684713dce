//! Server addresses and their wire format: a little-endian count from one
//! to 32, then per address a type byte (1 for IPv4, 2 for IPv6), the
//! address and the port, little-endian.

use vstd::prelude::*;
use crate::bytes::{IoError, le16, le16_bytes, le32, be32, be32_bytes, read_u16_le, read_u32_le, push_u16_le,
    push_u32_le, lemma_be32, lemma_le16, lemma_le32};

verus! {

/// At most this many server addresses go into a connect token.
pub const MAX_SERVERS_PER_CONNECT: usize = 32;

/// A socket address: an IPv4 address as its 32-bit value or an IPv6
/// address as its 128-bit value, and a port.
#[derive(Debug, PartialEq, Eq, Structural, Clone, Copy, Hash)]
pub enum Addr {
    V4 { ip: u32, port: u16 },
    V6 { ip: u128, port: u16 },
}

/// The value of the IPv6 address whose eight 16-bit segments are stored
/// little-endian from `pos`.
pub open spec fn v6_value(b: Seq<u8>, pos: int) -> u128 {
    (((le16(b[pos], b[pos + 1]) as u128) << 112u128) | ((le16(b[pos + 2], b[pos + 3]) as u128) << 96u128)
        | ((le16(b[pos + 4], b[pos + 5]) as u128) << 80u128) | ((le16(b[pos + 6], b[pos + 7]) as u128) << 64u128)
        | ((le16(b[pos + 8], b[pos + 9]) as u128) << 48u128) | ((le16(b[pos + 10], b[pos + 11]) as u128) << 32u128)
        | ((le16(b[pos + 12], b[pos + 13]) as u128) << 16u128) | (le16(b[pos + 14], b[pos + 15]) as u128)) as u128
}

/// The sixteen bytes of an IPv6 address, most significant first.
pub open spec fn v6_octets(ip: u128) -> Seq<u8> {
    Seq::new(16, |i: int| ((ip >> ((8 * (15 - i)) as u128)) & 0xff) as u8)
}

/// How one address is written.
pub open spec fn addr_bytes(a: Addr) -> Seq<u8> {
    match a {
        Addr::V4 { ip, port } => seq![1u8] + be32_bytes(ip) + le16_bytes(port),
        Addr::V6 { ip, port } => seq![2u8] + v6_octets(ip) + le16_bytes(port),
    }
}

/// How a list of addresses is written: its length, then each address.
pub open spec fn ips_bytes(ips: Seq<Addr>) -> Seq<u8> {
    le32_of(ips.len() as u32) + addrs_bytes(ips)
}

/// The written addresses, one after the other.
pub open spec fn addrs_bytes(ips: Seq<Addr>) -> Seq<u8>
    decreases ips.len(),
{
    if ips.len() == 0 {
        seq![]
    } else {
        addrs_bytes(ips.drop_last()) + addr_bytes(ips.last())
    }
}

/// The little-endian bytes of a count.
pub open spec fn le32_of(x: u32) -> Seq<u8> {
    crate::bytes::le32_bytes(x)
}

/// Reading one address at `pos`: the address and the position after it.
pub open spec fn parse_addr(b: Seq<u8>, pos: int) -> Result<(Addr, int), IoError> {
    if pos + 1 > b.len() {
        Err(IoError::UnexpectedEof)
    } else if b[pos] == 1 {
        if pos + 7 > b.len() {
            Err(IoError::UnexpectedEof)
        } else {
            Ok(
                (
                    Addr::V4 { ip: be32(b[pos + 1], b[pos + 2], b[pos + 3], b[pos + 4]), port: le16(b[pos + 5], b[pos + 6]) },
                    pos + 7,
                ),
            )
        }
    } else if b[pos] == 2 {
        if pos + 19 > b.len() {
            Err(IoError::UnexpectedEof)
        } else {
            Ok((Addr::V6 { ip: v6_value(b, pos + 1), port: le16(b[pos + 17], b[pos + 18]) }, pos + 19))
        }
    } else {
        Err(IoError::InvalidInput)
    }
}

/// Reading `k` addresses from `pos`.
pub open spec fn parse_addrs(b: Seq<u8>, pos: int, k: nat) -> Result<(Seq<Addr>, int), IoError>
    decreases k,
{
    if k == 0 {
        Ok((seq![], pos))
    } else {
        match parse_addrs(b, pos, (k - 1) as nat) {
            Err(e) => Err(e),
            Ok((s, p)) => match parse_addr(b, p) {
                Err(e) => Err(e),
                Ok((a, q)) => Ok((s.push(a), q)),
            },
        }
    }
}

/// Reading a list of addresses: a count from one to 32, then the
/// addresses.
pub open spec fn parse_ips(b: Seq<u8>) -> Result<(Seq<Addr>, int), IoError> {
    if b.len() < 4 {
        Err(IoError::UnexpectedEof)
    } else {
        let n = le32(b[0], b[1], b[2], b[3]);
        if n == 0 || n > MAX_SERVERS_PER_CONNECT {
            Err(IoError::InvalidInput)
        } else {
            parse_addrs(b, 4, n as nat)
        }
    }
}

fn read_addr(buf: &[u8], pos: usize) -> (r: Result<(Addr, usize), IoError>)
    ensures
        match (r, parse_addr(buf@, pos as int)) {
            (Ok((a, q)), Ok((sa, sq))) => a == sa && q == sq,
            (Err(e), Err(se)) => e == se,
            _ => false,
        },
{
    let len = buf.len();
    if pos >= len {
        return Err(IoError::UnexpectedEof);
    }
    let t = buf[pos];
    if t == 1 {
        if len - pos < 7 {
            return Err(IoError::UnexpectedEof);
        }
        let ip: u32 = ((buf[pos + 1] as u32) << 24) | ((buf[pos + 2] as u32) << 16) | ((buf[pos + 3] as u32) << 8)
            | (buf[pos + 4] as u32);
        let port = read_u16_le(buf, pos + 5);
        Ok((Addr::V4 { ip, port }, pos + 7))
    } else if t == 2 {
        if len - pos < 19 {
            return Err(IoError::UnexpectedEof);
        }
        let p = pos + 1;
        let ip: u128 = ((read_u16_le(buf, p) as u128) << 112) | ((read_u16_le(buf, p + 2) as u128) << 96)
            | ((read_u16_le(buf, p + 4) as u128) << 80) | ((read_u16_le(buf, p + 6) as u128) << 64)
            | ((read_u16_le(buf, p + 8) as u128) << 48) | ((read_u16_le(buf, p + 10) as u128) << 32)
            | ((read_u16_le(buf, p + 12) as u128) << 16) | (read_u16_le(buf, p + 14) as u128);
        let port = read_u16_le(buf, pos + 17);
        Ok((Addr::V6 { ip, port }, pos + 19))
    } else {
        Err(IoError::InvalidInput)
    }
}

/// Reads a list of server addresses from the start of `buf`; gives the
/// addresses and the number of bytes read.
pub fn read_ips(buf: &[u8]) -> (r: Result<(Vec<Addr>, usize), IoError>)
    ensures
        match (r, parse_ips(buf@)) {
            (Ok((v, n)), Ok((s, p))) => v@ == s && n == p,
            (Err(e), Err(se)) => e == se,
            _ => false,
        },
{
    if buf.len() < 4 {
        return Err(IoError::UnexpectedEof);
    }
    let count = read_u32_le(buf, 0);
    if count == 0 || count > MAX_SERVERS_PER_CONNECT as u32 {
        return Err(IoError::InvalidInput);
    }
    let mut ips: Vec<Addr> = Vec::new();
    let mut pos: usize = 4;
    let mut i: u32 = 0;
    while i < count
        invariant
            i <= count,
            buf@.len() >= 4,
            0 < count <= MAX_SERVERS_PER_CONNECT,
            count == le32(buf@[0], buf@[1], buf@[2], buf@[3]),
            parse_addrs(buf@, 4, i as nat) == Ok::<(Seq<Addr>, int), IoError>((ips@, pos as int)),
        decreases count - i,
    {
        match read_addr(buf, pos) {
            Ok((a, q)) => {
                ips.push(a);
                pos = q;
            },
            Err(e) => {
                proof {
                    assert(parse_addrs(buf@, 4, (i + 1) as nat) == Err::<(Seq<Addr>, int), IoError>(e));
                    lemma_parse_addrs_err(buf@, (i + 1) as nat, count as nat);
                }
                return Err(e);
            },
        }
        i = i + 1;
    }
    Ok((ips, pos))
}

/// Once reading the first `k` addresses fails, reading more fails the same
/// way.
proof fn lemma_parse_addrs_err(b: Seq<u8>, k: nat, m: nat)
    requires
        k <= m,
        parse_addrs(b, 4, k) is Err,
    ensures
        parse_addrs(b, 4, m) == parse_addrs(b, 4, k),
    decreases m - k,
{
    if k < m {
        lemma_parse_addrs_err(b, k, (m - 1) as nat);
    }
}

fn push_addr(out: &mut Vec<u8>, a: &Addr)
    ensures
        final(out)@ == old(out)@ + addr_bytes(*a),
{
    match a {
        Addr::V4 { ip, port } => {
            out.push(1);
            out.push(((*ip >> 24) & 0xff) as u8);
            out.push(((*ip >> 16) & 0xff) as u8);
            out.push(((*ip >> 8) & 0xff) as u8);
            out.push((*ip & 0xff) as u8);
            push_u16_le(out, *port);
        },
        Addr::V6 { ip, port } => {
            out.push(2);
            let mut i: usize = 0;
            while i < 16
                invariant
                    i <= 16,
                    out@ == old(out)@ + seq![2u8] + v6_octets(*ip).subrange(0, i as int),
                decreases 16 - i,
            {
                out.push(((*ip >> ((8 * (15 - i)) as u128)) & 0xff) as u8);
                assert(out@ =~= old(out)@ + seq![2u8] + v6_octets(*ip).subrange(0, i + 1));
                i = i + 1;
            }
            push_u16_le(out, *port);
        },
    }
    assert(final(out)@ =~= old(out)@ + addr_bytes(*a));
}

/// Writes a list of one to 31 server addresses.
pub fn write_ips(out: &mut Vec<u8>, ips: &[Addr])
    requires
        0 < ips@.len() < MAX_SERVERS_PER_CONNECT,
    ensures
        final(out)@ == old(out)@ + ips_bytes(ips@),
{
    push_u32_le(out, ips.len() as u32);
    let mut i: usize = 0;
    while i < ips.len()
        invariant
            i <= ips@.len(),
            ips@.len() < MAX_SERVERS_PER_CONNECT,
            out@ == old(out)@ + le32_of(ips@.len() as u32) + addrs_bytes(ips@.subrange(0, i as int)),
        decreases ips@.len() - i,
    {
        push_addr(out, &ips[i]);
        assert(ips@.subrange(0, i + 1).drop_last() =~= ips@.subrange(0, i as int));
        assert(out@ =~= old(out)@ + le32_of(ips@.len() as u32) + addrs_bytes(ips@.subrange(0, i + 1)));
        i = i + 1;
    }
    assert(ips@.subrange(0, ips@.len() as int) =~= ips@);
}

/// The written form of the first `k` addresses starts the written form of
/// all of them.
proof fn lemma_addrs_prefix(ips: Seq<Addr>, k: int)
    requires
        0 <= k <= ips.len(),
    ensures
        addrs_bytes(ips.subrange(0, k)).len() <= addrs_bytes(ips).len(),
        addrs_bytes(ips).subrange(0, addrs_bytes(ips.subrange(0, k)).len() as int) == addrs_bytes(ips.subrange(0, k)),
    decreases ips.len(),
{
    if k == ips.len() {
        assert(ips.subrange(0, k) =~= ips);
        assert(addrs_bytes(ips).subrange(0, addrs_bytes(ips).len() as int) =~= addrs_bytes(ips));
    } else {
        let d = ips.drop_last();
        lemma_addrs_prefix(d, k);
        assert(d.subrange(0, k) =~= ips.subrange(0, k));
        let a = addrs_bytes(ips.subrange(0, k));
        assert(addrs_bytes(ips) == addrs_bytes(d) + addr_bytes(ips.last()));
        assert(addrs_bytes(ips).subrange(0, a.len() as int) =~= addrs_bytes(d).subrange(0, a.len() as int));
    }
}

/// A list of one to 31 IPv4 addresses reads back as written, and the read
/// ends where the written bytes end. (An IPv6 address does not: its
/// segments are read little-endian but written most significant byte
/// first.)
pub proof fn law_ips_roundtrip(ips: Seq<Addr>)
    requires
        0 < ips.len() < MAX_SERVERS_PER_CONNECT,
        forall|i: int| 0 <= i < ips.len() ==> #[trigger] ips[i] is V4,
    ensures
        parse_ips(ips_bytes(ips)) == Ok::<(Seq<Addr>, int), IoError>((ips, ips_bytes(ips).len() as int)),
{
    let b = ips_bytes(ips);
    let n = ips.len() as u32;
    lemma_le32(n);
    assert(b.subrange(0, 4) =~= le32_of(n));
    lemma_parse_prefix(ips, ips.len() as nat);
    assert(ips.subrange(0, ips.len() as int) =~= ips);
}

proof fn lemma_parse_prefix(ips: Seq<Addr>, k: nat)
    requires
        0 < ips.len() < MAX_SERVERS_PER_CONNECT,
        forall|i: int| 0 <= i < ips.len() ==> #[trigger] ips[i] is V4,
        k <= ips.len(),
    ensures
        parse_addrs(ips_bytes(ips), 4, k) == Ok::<(Seq<Addr>, int), IoError>(
            (ips.subrange(0, k as int), 4 + addrs_bytes(ips.subrange(0, k as int)).len() as int),
        ),
    decreases k,
{
    let b = ips_bytes(ips);
    if k == 0 {
        assert(ips.subrange(0, 0) =~= Seq::<Addr>::empty());
    } else {
        let j = (k - 1) as int;
        lemma_parse_prefix(ips, (k - 1) as nat);
        let prev = ips.subrange(0, j);
        let cur = ips.subrange(0, k as int);
        assert(cur.drop_last() =~= prev);
        let p: int = 4 + addrs_bytes(prev).len() as int;
        let a = ips[j];
        assert(addrs_bytes(cur) == addrs_bytes(prev) + addr_bytes(a));
        lemma_addrs_prefix(ips, k as int);
        let w = addrs_bytes(ips);
        assert(b == le32_of(ips.len() as u32) + w);
        assert(ips[j] is V4);
        match a {
            Addr::V4 { ip, port } => {
                let ab = addr_bytes(a);
                assert(ab.len() == 7);
                assert forall|t: int| 0 <= t < 7 implies b[p + t] == ab[t] by {
                    assert(w.subrange(0, addrs_bytes(cur).len() as int)[addrs_bytes(prev).len() + t] == addrs_bytes(cur)[addrs_bytes(prev).len() + t]);
                }
                lemma_be32(ip);
                lemma_le16(port);
                assert(ab[0] == 1 && ab[1] == ((ip >> 24) & 0xff) as u8 && ab[2] == ((ip >> 16) & 0xff) as u8 && ab[3]
                    == ((ip >> 8) & 0xff) as u8 && ab[4] == (ip & 0xff) as u8 && ab[5] == (port & 0xff) as u8 && ab[6]
                    == ((port >> 8) & 0xff) as u8);
                assert(b[p] == 1 && b[p + 1] == ab[1] && b[p + 2] == ab[2] && b[p + 3] == ab[3] && b[p + 4] == ab[4]
                    && b[p + 5] == ab[5] && b[p + 6] == ab[6]);
                assert(p + 7 <= b.len());
                assert(parse_addr(b, p) == Ok::<(Addr, int), IoError>((a, p + 7)));
            },
            Addr::V6 { .. } => {},
        }
        assert(cur =~= prev.push(a));
    }
}

} // verus!
