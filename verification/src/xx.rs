//! Pieces of the netcode layer: packet classification by the
//! prefix byte, the request packet's fields, the header checks on an
//! encrypted packet, and the private part of a connect token.

use vstd::prelude::*;
use crate::addr::{Addr, read_ips, write_ips, parse_ips, ips_bytes, MAX_SERVERS_PER_CONNECT};
use crate::bytes::{IoError, le_read, le32, le_bytes, le32_bytes, read_uint_le, read_u32_le, push_uint_le, push_u32_le,
    push_all, array_at};
use crate::encrypted::copy_range;

verus! {

pub const PLAYLOAD_MAX_SIZE: usize = 1200;
pub const CHALLENGE_SIZE: usize = 308;
pub const RESPONSE_SIZE: usize = 308;
pub const KEEP_ALIVE_SIZE: usize = 8;

pub const REQUEST: u8 = 0;
pub const DENIED: u8 = 1;
pub const CHALLENGE: u8 = 2;
pub const RESPONSE: u8 = 3;
pub const KEEP_ALIVE: u8 = 4;
pub const PAYLOAD: u8 = 5;
pub const DISCONNECT: u8 = 6;

/// The associated data of a request packet.
pub struct RequestAssociatedData {
    /// "NETCODE 1.01" ASCII with null terminator.
    pub version_info: [u8; 13],
    /// 64 bit value unique to this particular game/application
    pub protocol_id: u64,
    /// 64 bit unix timestamp when this connect token expires
    pub expire_timestamp: u64,
}

/// A packet, by its first byte.
pub enum Packet {
    Request(Request),
    Denied(Denied),
    Challenge(Challenge),
    Response(Response),
    KeepAlive(KeepAlive),
    Payload(Payload),
    Disconnect(Disconnect),
    Invalid(Vec<u8>),
}

pub struct Request(pub Vec<u8>);
pub struct Denied(pub Vec<u8>);
pub struct Challenge(pub Vec<u8>);
pub struct Response(pub Vec<u8>);
pub struct KeepAlive(pub Vec<u8>);
pub struct Payload(pub Vec<u8>);
pub struct Disconnect(pub Vec<u8>);

/// The bytes that a classified packet holds.
pub open spec fn packet_data(p: Packet) -> Seq<u8> {
    match p {
        Packet::Request(r) => r.0@,
        Packet::Denied(r) => r.0@,
        Packet::Challenge(r) => r.0@,
        Packet::Response(r) => r.0@,
        Packet::KeepAlive(r) => r.0@,
        Packet::Payload(r) => r.0@,
        Packet::Disconnect(r) => r.0@,
        Packet::Invalid(v) => v@,
    }
}

/// The class that a first byte gives: its value for 0 to 6, 7 for
/// invalid.
pub open spec fn class_of(p: Packet) -> u8 {
    match p {
        Packet::Request(_) => REQUEST,
        Packet::Denied(_) => DENIED,
        Packet::Challenge(_) => CHALLENGE,
        Packet::Response(_) => RESPONSE,
        Packet::KeepAlive(_) => KEEP_ALIVE,
        Packet::Payload(_) => PAYLOAD,
        Packet::Disconnect(_) => DISCONNECT,
        Packet::Invalid(_) => 7,
    }
}

impl Packet {
    /// Classifies a packet by its first byte.
    pub fn parse(packet: &[u8]) -> (r: Self)
        requires
            packet@.len() > 0,
        ensures
            packet_data(r) == packet@,
            class_of(r) == if packet@[0] <= 6 { packet@[0] } else { 7 },
    {
        let id = packet[0];
        let v = copy_range(packet, 0, packet.len());
        if id == 0 {
            Packet::Request(Request(v))
        } else if id == 1 {
            Packet::Denied(Denied(v))
        } else if id == 2 {
            Packet::Challenge(Challenge(v))
        } else if id == 3 {
            Packet::Response(Response(v))
        } else if id == 4 {
            Packet::KeepAlive(KeepAlive(v))
        } else if id == 5 {
            Packet::Payload(Payload(v))
        } else if id == 6 {
            Packet::Disconnect(Disconnect(v))
        } else {
            Packet::Invalid(v)
        }
    }
}

impl From<Vec<u8>> for Request {
    fn from(p: Vec<u8>) -> (r: Self) {
        Request(p)
    }
}

impl vstd::std_specs::convert::FromSpecImpl<Vec<u8>> for Request {
    open spec fn obeys_from_spec() -> bool {
        true
    }

    open spec fn from_spec(p: Vec<u8>) -> Self {
        Request(p)
    }
}

impl Request {
    /// A request packet has 1062 bytes.
    pub fn check_size(&self) -> (r: bool)
        ensures
            r == (self.0@.len() == 1062),
    {
        self.0.len() == 1062
    }

    /// The version info.
    pub fn version_info(&self) -> (r: Vec<u8>)
        requires
            self.0@.len() >= 14,
        ensures
            r@ == self.0@.subrange(1, 14),
    {
        copy_range(self.0.as_slice(), 1, 14)
    }

    /// Version info, protocol id and expire timestamp.
    pub fn associated(&self) -> (r: Vec<u8>)
        requires
            self.0@.len() >= 30,
        ensures
            r@ == self.0@.subrange(1, 30),
    {
        copy_range(self.0.as_slice(), 1, 30)
    }

    pub fn protocol_id(&self) -> (r: u64)
        requires
            self.0@.len() >= 22,
        ensures
            r == le_read(self.0@.subrange(14, 22), 8),
    {
        read_uint_le(self.0.as_slice(), 14, 8)
    }

    pub fn expire_timestamp(&self) -> (r: u64)
        requires
            self.0@.len() >= 30,
        ensures
            r == le_read(self.0@.subrange(22, 30), 8),
    {
        read_uint_le(self.0.as_slice(), 22, 8)
    }

    pub fn sequence(&self) -> (r: u64)
        requires
            self.0@.len() >= 38,
        ensures
            r == le_read(self.0@.subrange(30, 38), 8),
    {
        read_uint_le(self.0.as_slice(), 30, 8)
    }

    /// The sealed private token.
    pub fn token(&self) -> (r: Vec<u8>)
        requires
            self.0@.len() >= 38,
        ensures
            r@ == self.0@.subrange(38, self.0@.len() as int),
    {
        copy_range(self.0.as_slice(), 38, self.0.len())
    }
}

/// The checks that an encrypted packet passes before its replay test and
/// decryption: at least 18 bytes; a packet type below 7 that the side
/// expects (a server no challenge, a client no request or response); one
/// to eight sequence bytes; room for the sequence and the tag.
pub open spec fn header_checks(is_server: bool, b: Seq<u8>) -> bool {
    let t = b[0] & 0x0Fu8;
    let sb = (b[0] & 0xF0u8) >> 4u8;
    &&& b.len() >= 18
    &&& t < 7
    &&& is_server ==> t != CHALLENGE
    &&& !is_server ==> t != REQUEST && t != RESPONSE
    &&& 1 <= sb <= 8
    &&& b.len() >= 1 + sb + 16
}

/// Whether an encrypted packet passes the checks that come before its
/// replay test and decryption; see `header_checks`.
pub fn reading_encrypted_packet(is_server: bool, packet: &[u8]) -> (r: bool)
    ensures
        r == header_checks(is_server, packet@),
{
    if packet.len() < 18 {
        return false;
    }
    let prefix_byte = packet[0];
    let packet_type = prefix_byte & 0x0F;
    let sequence_bytes = (prefix_byte & 0xF0) >> 4;
    if packet_type >= 7 {
        return false;
    }
    if is_server {
        if packet_type == CHALLENGE {
            return false;
        }
    } else {
        if packet_type == REQUEST || packet_type == RESPONSE {
            return false;
        }
    }
    if sequence_bytes == 0 || sequence_bytes > 8 {
        return false;
    }
    if packet.len() < 1 + sequence_bytes as usize + 16 {
        return false;
    }
    true
}

pub struct KeepAlivePacket {
    pub client_index: u32,
    pub max_clients: u32,
}

pub struct ChallengePacket {
    pub challenge_token_sequence: u64,
    pub encrypted_challenge_token_data: [u8; 300],
}

pub struct ResponsePacket {
    pub challenge_token_sequence: u64,
    pub encrypted_challenge_token_data: [u8; 300],
}

/// Length of a connect token.
pub const CONNECT_TOKEN_BYTES: usize = 2048;

/// The private part of a connect token.
pub struct Token {
    /// globally unique identifier for an authenticated client
    pub client_id: u64,
    /// timeout in seconds.
    pub timeout_seconds: u32,
    pub ips: Vec<Addr>,
    pub client_to_server_key: [u8; 32],
    pub server_to_client_key: [u8; 32],
    /// user defined data specific to this protocol id
    pub user_data: [u8; 256],
}

/// The bytes that `Token::write_to` produces: client id, timeout, server
/// addresses, both keys, user data.
pub open spec fn token_bytes(t: Token) -> Seq<u8> {
    le_bytes(t.client_id, 8) + le32_bytes(t.timeout_seconds) + ips_bytes(t.ips@) + t.client_to_server_key@
        + t.server_to_client_key@ + t.user_data@
}

impl Token {
    /// Reads a token: client id, timeout, both keys, server addresses,
    /// user data (the keys come before the addresses here, after them in
    /// `write_to`). Gives the token and the number of bytes read.
    pub fn read_from(r: &[u8]) -> (res: Result<(Token, usize), IoError>)
        ensures
            r@.len() < 76 ==> res == Err::<(Token, usize), IoError>(IoError::UnexpectedEof),
            r@.len() >= 76 ==> match parse_ips(r@.subrange(76, r@.len() as int)) {
                Err(e) => res == Err::<(Token, usize), IoError>(e),
                Ok((ips, n)) => {
                    &&& 76 + n + 256 > r@.len() ==> res == Err::<(Token, usize), IoError>(IoError::UnexpectedEof)
                    &&& 76 + n + 256 <= r@.len() ==> res is Ok && {
                        let (t, used) = res.unwrap();
                        &&& used == 76 + n + 256
                        &&& t.client_id == le_read(r@.subrange(0, 8), 8)
                        &&& t.timeout_seconds == le32(r@[8], r@[9], r@[10], r@[11])
                        &&& t.client_to_server_key@ == r@.subrange(12, 44)
                        &&& t.server_to_client_key@ == r@.subrange(44, 76)
                        &&& t.ips@ == ips
                        &&& t.user_data@ == r@.subrange(76 + n, 76 + n + 256)
                    }
                },
            },
    {
        if r.len() < 76 {
            return Err(IoError::UnexpectedEof);
        }
        let client_id = read_uint_le(r, 0, 8);
        let timeout_seconds = read_u32_le(r, 8);
        let client_to_server_key: [u8; 32] = array_at(r, 12);
        let server_to_client_key: [u8; 32] = array_at(r, 44);
        let rest = copy_range(r, 76, r.len());
        let (ips, n) = match read_ips(rest.as_slice()) {
            Ok(x) => x,
            Err(e) => return Err(e),
        };
        if r.len() - 76 - n < 256 {
            return Err(IoError::UnexpectedEof);
        }
        let user_data: [u8; 256] = array_at(r, 76 + n);
        Ok((Token { client_id, timeout_seconds, ips, client_to_server_key, server_to_client_key, user_data }, 76 + n + 256))
    }

    /// Appends the token: client id, timeout, server addresses (one to
    /// 31), both keys, user data.
    pub fn write_to(&self, w: &mut Vec<u8>)
        requires
            0 < self.ips@.len() < MAX_SERVERS_PER_CONNECT,
        ensures
            final(w)@ == old(w)@ + token_bytes(*self),
    {
        push_uint_le(w, self.client_id, 8);
        push_u32_le(w, self.timeout_seconds);
        write_ips(w, self.ips.as_slice());
        push_all(w, &self.client_to_server_key);
        push_all(w, &self.server_to_client_key);
        push_all(w, &self.user_data);
        assert(final(w)@ =~= old(w)@ + token_bytes(*self));
    }
}

/// Hands out connect tokens for a list of servers.
pub struct Matcher {
    pub ips: Vec<Addr>,
}

impl Matcher {
    /// A token for client 1 with no timeout limit, the matcher's servers,
    /// zero keys and zero user data.
    pub fn generate_token(&mut self) -> (r: Token)
        ensures
            r.client_id == 1,
            r.timeout_seconds == 0xFFFF_FFFF,
            r.ips@ == old(self).ips@,
            r.client_to_server_key@ == Seq::new(32, |i: int| 0u8),
            r.server_to_client_key@ == Seq::new(32, |i: int| 0u8),
            r.user_data@ == Seq::new(256, |i: int| 0u8),
            final(self).ips@ == old(self).ips@,
    {
        let ips = copy_addrs(self.ips.as_slice());
        let a = [0u8; 32];
        let b = [0u8; 32];
        let u = [0u8; 256];
        assert(a@ =~= Seq::new(32, |i: int| 0u8));
        assert(b@ =~= Seq::new(32, |i: int| 0u8));
        assert(u@ =~= Seq::new(256, |i: int| 0u8));
        Token {
            client_id: 1,
            timeout_seconds: 0xFFFF_FFFF,
            ips,
            client_to_server_key: a,
            server_to_client_key: b,
            user_data: u,
        }
    }
}

fn copy_addrs(s: &[Addr]) -> (r: Vec<Addr>)
    ensures
        r@ == s@,
{
    let mut out: Vec<Addr> = Vec::new();
    let mut i: usize = 0;
    while i < s.len()
        invariant
            i <= s@.len(),
            out@ == s@.subrange(0, i as int),
        decreases s@.len() - i,
    {
        out.push(s[i]);
        assert(out@ =~= s@.subrange(0, i + 1));
        i = i + 1;
    }
    assert(out@ =~= s@);
    out
}

} // verus!
