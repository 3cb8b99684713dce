//! Connect tokens.
//!
//! A public token (2048 bytes) is what a client receives: version,
//! protocol id, create and expire timestamps, timeout, the nonce and both
//! keys, the private token sealed under the server's key, and open data.
//! The private token (1024 bytes) carries the client id, timeout, keys and
//! data to the server; the challenge token (300 bytes) carries the client
//! id and user data through the handshake.

use vstd::prelude::*;
use crate::bytes::{le_bytes, le_read, le32, le32_bytes, array_at, push_all, u64_le_array, u32_le_array,
    u64_from_le_array, u32_from_le_array, lemma_le64_roundtrip, lemma_le32};
use crate::crypto::{
    chacha_seal, xchacha_seal, seal_chacha20poly1305, open_chacha20poly1305, seal_xchacha20poly1305,
    open_xchacha20poly1305, nonce_of, nonce_from_sequence, KEY, HMAC, XNONCE,
};
use crate::protocol::{VERSION, VERSION_LEN, version_bytes};
use crate::utils::{keygen, generate_nonce, time_secs};

verus! {

/// Open data length in bytes.
pub const DATA: usize = 640;
/// User data length in bytes.
pub const USER: usize = 256;
/// Challenge token length in bytes.
pub const CHALLENGE_LEN: usize = 300;
/// A sequence followed by a sealed challenge token.
pub const CHALLENGE_PACKET: usize = 308;
/// Private token length in bytes.
pub const PRIVATE_LEN: usize = 1024;
/// Public token length in bytes.
pub const PUBLIC_LEN: usize = 2048;

/// `n` zero bytes.
pub open spec fn zeros(n: nat) -> Seq<u8> {
    Seq::new(n, |i: int| 0u8)
}

fn zero_array<const N: usize>() -> (r: [u8; N])
    ensures
        r@ == zeros(N as nat),
{
    let r = [0u8; N];
    assert(r@ =~= zeros(N as nat));
    r
}

// ---------------------------------------------------------------------------
// Challenge token

/// The challenge token: client id, reserved bytes, user data and tag.
pub struct ChallengeToken {
    client_id: [u8; 8],
    pub _reserved: [u8; 20],
    user: [u8; USER],
    hmac: [u8; HMAC],
}

impl View for ChallengeToken {
    type V = Seq<u8>;

    /// The token's 300 bytes.
    closed spec fn view(&self) -> Seq<u8> {
        self.client_id@ + self._reserved@ + self.user@ + self.hmac@
    }
}

/// The part of a challenge token that is encrypted.
pub open spec fn challenge_plain(b: Seq<u8>) -> Seq<u8> {
    b.subrange(0, (CHALLENGE_LEN - HMAC) as int)
}

/// The sealed bytes of a challenge token under `key` with sequence `seq`.
pub open spec fn challenge_sealed(t: Seq<u8>, seq: u64, key: Seq<u8>) -> Seq<u8> {
    chacha_seal(key, nonce_of(seq), seq![], challenge_plain(t))
}

impl ChallengeToken {
    /// The token's bytes have their length.
    pub proof fn lemma_len(&self)
        ensures
            self@.len() == CHALLENGE_LEN,
    {
    }

    fn from_bytes(b: &[u8]) -> (r: Self)
        requires
            b@.len() == CHALLENGE_LEN,
        ensures
            r@ == b@,
    {
        let r = ChallengeToken {
            client_id: array_at(b, 0),
            _reserved: array_at(b, 8),
            user: array_at(b, 28),
            hmac: array_at(b, 284),
        };
        assert(r@ =~= b@);
        r
    }

    fn to_bytes(&self) -> (r: Vec<u8>)
        ensures
            r@ == self@,
    {
        let mut out: Vec<u8> = Vec::new();
        push_all(&mut out, &self.client_id);
        push_all(&mut out, &self._reserved);
        push_all(&mut out, &self.user);
        push_all(&mut out, &self.hmac);
        assert(out@ =~= self@);
        out
    }

    pub fn new(client_id: u64, user: [u8; USER]) -> (r: Self)
        ensures
            r@ == le_bytes(client_id, 8) + zeros(20) + user@ + zeros(HMAC as nat),
    {
        let r = Self {
            client_id: u64_le_array(client_id),
            user,
            _reserved: zero_array(),
            hmac: zero_array(),
        };
        r
    }

    /// The reserved bytes after the client id.
    pub fn reserved(&self) -> (r: &[u8; 20])
        ensures
            r@ == self@.subrange(8, 28),
    {
        assert(self@.subrange(8, 28) =~= self._reserved@);
        &self._reserved
    }

    pub fn client_id(&self) -> (r: u64)
        ensures
            r == le_read(self@.subrange(0, 8), 8),
    {
        let r = u64_from_le_array(self.client_id);
        assert(self@.subrange(0, 8) =~= self.client_id@);
        r
    }

    pub fn user(&self) -> (r: &[u8; USER])
        ensures
            r@ == self@.subrange(28, 284),
    {
        assert(self@.subrange(28, 284) =~= self.user@);
        &self.user
    }

    /// The token sealed under `k` with sequence `seq`: its first 284 bytes
    /// encrypted, followed by the tag.
    pub fn encrypt(&self, seq: u64, k: &[u8; KEY]) -> (r: [u8; CHALLENGE_LEN])
        ensures
            r@ == challenge_sealed(self@, seq, k@),
    {
        let bytes = self.to_bytes();
        let mut m: Vec<u8> = crate::encrypted::copy_range(bytes.as_slice(), 0, CHALLENGE_LEN - HMAC);
        assert(m@ =~= challenge_plain(self@));
        let nonce = nonce_from_sequence(seq);
        let no_ad: Vec<u8> = Vec::new();
        assert(no_ad@ =~= seq![]);
        let tag = seal_chacha20poly1305(k, &nonce, no_ad.as_slice(), m.as_mut_slice());
        push_all(&mut m, &tag);
        array_at(m.as_slice(), 0)
    }

    /// Seals the token in place and returns its sealed bytes.
    pub fn seal(&mut self, seq: u64, k: &[u8; KEY]) -> (r: [u8; CHALLENGE_LEN])
        ensures
            r@ == challenge_sealed(old(self)@, seq, k@),
            final(self)@ == r@,
    {
        let r = self.encrypt(seq, k);
        *self = Self::from_bytes(&r);
        r
    }

    /// Opens a sealed token: succeeds when some token plaintext seals to
    /// `buf` under `k` and `seq`, and gives that plaintext with `buf`'s tag.
    pub fn decrypt(buf: [u8; CHALLENGE_LEN], seq: u64, k: &[u8; KEY]) -> (r: Result<Self, ()>)
        ensures
            r is Ok <==> exists|m: Seq<u8>| #[trigger] chacha_seal(k@, nonce_of(seq), seq![], m) == buf@,
            r is Ok ==> forall|m: Seq<u8>|
                #[trigger] chacha_seal(k@, nonce_of(seq), seq![], m) == buf@ ==> r.unwrap()@ == m + buf@.subrange(
                    (CHALLENGE_LEN - HMAC) as int,
                    CHALLENGE_LEN as int,
                ),
    {
        let mut c: Vec<u8> = crate::encrypted::copy_range(&buf, 0, CHALLENGE_LEN - HMAC);
        let tag: [u8; HMAC] = array_at(&buf, CHALLENGE_LEN - HMAC);
        assert(c@ + tag@ =~= buf@);
        let nonce = nonce_from_sequence(seq);
        let no_ad: Vec<u8> = Vec::new();
        assert(no_ad@ =~= seq![]);
        let ghost ct = c@;
        if !open_chacha20poly1305(k, &nonce, no_ad.as_slice(), c.as_mut_slice(), &tag) {
            return Err(());
        }
        push_all(&mut c, &tag);
        Ok(Self::from_bytes(c.as_slice()))
    }

    /// Opens a sealed token in place; see `decrypt`.
    pub fn open(buf: &mut [u8; CHALLENGE_LEN], seq: u64, k: &[u8; KEY]) -> (r: Result<Self, ()>)
        ensures
            r is Ok <==> exists|m: Seq<u8>| #[trigger] chacha_seal(k@, nonce_of(seq), seq![], m) == old(buf)@,
            r is Ok ==> forall|m: Seq<u8>|
                #[trigger] chacha_seal(k@, nonce_of(seq), seq![], m) == old(buf)@ ==> r.unwrap()@ == m + old(
                    buf,
                )@.subrange((CHALLENGE_LEN - HMAC) as int, CHALLENGE_LEN as int),
            r is Ok ==> final(buf)@ == r.unwrap()@,
            r is Err ==> final(buf)@ == old(buf)@,
    {
        match Self::decrypt(*buf, seq, k) {
            Ok(t) => {
                let b = t.to_bytes();
                *buf = array_at(b.as_slice(), 0);
                Ok(t)
            },
            Err(e) => Err(e),
        }
    }

    /// The sequence followed by the token sealed with it.
    pub fn encode_packet(&self, seq: u64, k: &[u8; KEY]) -> (r: [u8; CHALLENGE_PACKET])
        ensures
            r@ == le_bytes(seq, 8) + challenge_sealed(self@, seq, k@),
    {
        let mut out: Vec<u8> = Vec::new();
        let s = u64_le_array(seq);
        push_all(&mut out, &s);
        let sealed = self.encrypt(seq, k);
        push_all(&mut out, &sealed);
        array_at(out.as_slice(), 0)
    }

    /// Reads the sequence from the first eight bytes and opens the token
    /// sealed in the rest.
    pub fn decode_packet(buf: &[u8; CHALLENGE_PACKET], k: &[u8; KEY]) -> (r: Result<Self, ()>)
        ensures
            ({
                let seq = le_read(buf@.subrange(0, 8), 8);
                let sealed = buf@.subrange(8, 8 + CHALLENGE_LEN);
                &&& r is Ok <==> exists|m: Seq<u8>| #[trigger] chacha_seal(k@, nonce_of(seq), seq![], m) == sealed
                &&& r is Ok ==> forall|m: Seq<u8>|
                    #[trigger] chacha_seal(k@, nonce_of(seq), seq![], m) == sealed ==> r.unwrap()@ == m
                        + sealed.subrange((CHALLENGE_LEN - HMAC) as int, CHALLENGE_LEN as int)
            }),
    {
        let s: [u8; 8] = array_at(buf, 0);
        let seq = u64_from_le_array(s);
        let sealed: [u8; CHALLENGE_LEN] = array_at(buf, 8);
        Self::decrypt(sealed, seq, k)
    }
}

// ---------------------------------------------------------------------------
// Private token

/// The private token: client id, timeout, reserved bytes, both keys, open
/// data, user data and tag.
#[derive(Clone)]
pub struct PrivateToken {
    client_id: [u8; 8],
    timeout: [u8; 4],
    pub _reserved: [u8; 36],
    client_key: [u8; KEY],
    server_key: [u8; KEY],
    data: [u8; DATA],
    user: [u8; USER],
    hmac: [u8; HMAC],
}

impl View for PrivateToken {
    type V = Seq<u8>;

    /// The token's 1024 bytes.
    closed spec fn view(&self) -> Seq<u8> {
        self.client_id@ + self.timeout@ + self._reserved@ + self.client_key@ + self.server_key@
            + self.data@ + self.user@ + self.hmac@
    }
}

/// The associated data that binds a private token to its protocol and
/// expire timestamp.
pub open spec fn private_ad(protocol: u64, expire: u64) -> Seq<u8> {
    version_bytes() + le_bytes(protocol, 8) + le_bytes(expire, 8)
}

/// The part of a private token that is encrypted.
pub open spec fn private_plain(b: Seq<u8>) -> Seq<u8> {
    b.subrange(0, (PRIVATE_LEN - HMAC) as int)
}

/// The sealed bytes of a private token.
pub open spec fn private_sealed(t: Seq<u8>, protocol: u64, expire: u64, n: Seq<u8>, k: Seq<u8>) -> Seq<u8> {
    xchacha_seal(k, n, private_ad(protocol, expire), private_plain(t))
}

fn private_ad_bytes(protocol: u64, expire: u64) -> (r: Vec<u8>)
    ensures
        r@ == private_ad(protocol, expire),
{
    let mut out: Vec<u8> = Vec::new();
    let v = VERSION;
    assert(v@ =~= version_bytes());
    push_all(&mut out, &v);
    let p = u64_le_array(protocol);
    push_all(&mut out, &p);
    let e = u64_le_array(expire);
    push_all(&mut out, &e);
    assert(out@ =~= private_ad(protocol, expire));
    out
}

impl PrivateToken {
    /// The token's bytes have their length.
    pub proof fn lemma_len(&self)
        ensures
            self@.len() == PRIVATE_LEN,
    {
    }

    fn from_bytes(b: &[u8]) -> (r: Self)
        requires
            b@.len() == PRIVATE_LEN,
        ensures
            r@ == b@,
    {
        let r = PrivateToken {
            client_id: array_at(b, 0),
            timeout: array_at(b, 8),
            _reserved: array_at(b, 12),
            client_key: array_at(b, 48),
            server_key: array_at(b, 80),
            data: array_at(b, 112),
            user: array_at(b, 752),
            hmac: array_at(b, 1008),
        };
        assert(r@ =~= b@);
        r
    }

    fn to_bytes(&self) -> (r: Vec<u8>)
        ensures
            r@ == self@,
    {
        let mut out: Vec<u8> = Vec::new();
        push_all(&mut out, &self.client_id);
        push_all(&mut out, &self.timeout);
        push_all(&mut out, &self._reserved);
        push_all(&mut out, &self.client_key);
        push_all(&mut out, &self.server_key);
        push_all(&mut out, &self.data);
        push_all(&mut out, &self.user);
        push_all(&mut out, &self.hmac);
        assert(out@ =~= self@);
        out
    }

    /// A token for `client_id` with fresh random keys.
    pub fn generate(client_id: u64, timeout: u32, data: [u8; DATA], user: [u8; USER]) -> (r: Self)
        ensures
            r@.subrange(0, 8) == le_bytes(client_id, 8),
            r@.subrange(8, 12) == le32_bytes(timeout),
            r@.subrange(12, 48) == zeros(36),
            r@.subrange(112, 752) == data@,
            r@.subrange(752, 1008) == user@,
            r@.subrange(1008, 1024) == zeros(HMAC as nat),
    {
        let r = Self {
            client_id: u64_le_array(client_id),
            timeout: u32_le_array(timeout),
            client_key: keygen(),
            server_key: keygen(),
            data,
            user,
            _reserved: zero_array(),
            hmac: zero_array(),
        };
        assert(r@.subrange(0, 8) =~= le_bytes(client_id, 8));
        assert(r@.subrange(8, 12) =~= le32_bytes(timeout));
        assert(r@.subrange(12, 48) =~= zeros(36));
        assert(r@.subrange(112, 752) =~= data@);
        assert(r@.subrange(752, 1008) =~= user@);
        assert(r@.subrange(1008, 1024) =~= zeros(HMAC as nat));
        r
    }

    pub fn hmac(&self) -> (r: &[u8; HMAC])
        ensures
            r@ == self@.subrange(1008, 1024),
    {
        assert(self@.subrange(1008, 1024) =~= self.hmac@);
        &self.hmac
    }

    pub fn client_id(&self) -> (r: u64)
        ensures
            r == le_read(self@.subrange(0, 8), 8),
    {
        assert(self@.subrange(0, 8) =~= self.client_id@);
        u64_from_le_array(self.client_id)
    }

    /// The reserved bytes after the timeout.
    pub fn reserved(&self) -> (r: &[u8; 36])
        ensures
            r@ == self@.subrange(12, 48),
    {
        assert(self@.subrange(12, 48) =~= self._reserved@);
        &self._reserved
    }

    pub fn timeout(&self) -> (r: u32)
        ensures
            r == le32(self@[8], self@[9], self@[10], self@[11]),
    {
        u32_from_le_array(self.timeout)
    }

    pub fn client_key(&self) -> (r: &[u8; KEY])
        ensures
            r@ == self@.subrange(48, 80),
    {
        assert(self@.subrange(48, 80) =~= self.client_key@);
        &self.client_key
    }

    pub fn server_key(&self) -> (r: &[u8; KEY])
        ensures
            r@ == self@.subrange(80, 112),
    {
        assert(self@.subrange(80, 112) =~= self.server_key@);
        &self.server_key
    }

    pub fn data(&self) -> (r: &[u8; DATA])
        ensures
            r@ == self@.subrange(112, 752),
    {
        assert(self@.subrange(112, 752) =~= self.data@);
        &self.data
    }

    pub fn user(&self) -> (r: &[u8; USER])
        ensures
            r@ == self@.subrange(752, 1008),
    {
        assert(self@.subrange(752, 1008) =~= self.user@);
        &self.user
    }

    /// The token sealed under `k` with nonce `n`, bound to `protocol` and
    /// `expire`.
    pub fn encrypt(&self, protocol: u64, expire: u64, n: &[u8; XNONCE], k: &[u8; KEY]) -> (r: Result<[u8; PRIVATE_LEN], ()>)
        ensures
            r is Ok,
            r.unwrap()@ == private_sealed(self@, protocol, expire, n@, k@),
    {
        let bytes = self.to_bytes();
        let mut m: Vec<u8> = crate::encrypted::copy_range(bytes.as_slice(), 0, PRIVATE_LEN - HMAC);
        assert(m@ =~= private_plain(self@));
        let ad = private_ad_bytes(protocol, expire);
        let tag = seal_xchacha20poly1305(k, n, ad.as_slice(), m.as_mut_slice());
        push_all(&mut m, &tag);
        Ok(array_at(m.as_slice(), 0))
    }

    /// Seals the token in place and returns its sealed bytes.
    pub fn seal(&mut self, protocol: u64, expire: u64, n: &[u8; XNONCE], k: &[u8; KEY]) -> (r: [u8; PRIVATE_LEN])
        ensures
            r@ == private_sealed(old(self)@, protocol, expire, n@, k@),
            final(self)@ == r@,
    {
        let r = match self.encrypt(protocol, expire, n, k) {
            Ok(r) => r,
            Err(_) => [0u8; PRIVATE_LEN],
        };
        *self = Self::from_bytes(&r);
        r
    }

    /// Opens a sealed token: succeeds when some plaintext seals to `buf`,
    /// and gives that plaintext with `buf`'s tag.
    pub fn decrypt(buf: &[u8; PRIVATE_LEN], protocol: u64, expire: u64, n: &[u8; XNONCE], k: &[u8; KEY]) -> (r: Result<Self, ()>)
        ensures
            r is Ok <==> exists|m: Seq<u8>| #[trigger] xchacha_seal(k@, n@, private_ad(protocol, expire), m) == buf@,
            r is Ok ==> forall|m: Seq<u8>|
                #[trigger] xchacha_seal(k@, n@, private_ad(protocol, expire), m) == buf@ ==> r.unwrap()@ == m
                    + buf@.subrange((PRIVATE_LEN - HMAC) as int, PRIVATE_LEN as int),
    {
        let mut c: Vec<u8> = crate::encrypted::copy_range(buf, 0, PRIVATE_LEN - HMAC);
        let tag: [u8; HMAC] = array_at(buf, PRIVATE_LEN - HMAC);
        assert(c@ + tag@ =~= buf@);
        let ad = private_ad_bytes(protocol, expire);
        if !open_xchacha20poly1305(k, n, ad.as_slice(), c.as_mut_slice(), &tag) {
            return Err(());
        }
        push_all(&mut c, &tag);
        Ok(Self::from_bytes(c.as_slice()))
    }

    /// Opens a sealed token in place; see `decrypt`.
    pub fn open(buf: &mut [u8; PRIVATE_LEN], protocol: u64, expire: u64, n: &[u8; XNONCE], k: &[u8; KEY]) -> (r: Result<Self, ()>)
        ensures
            r is Ok <==> exists|m: Seq<u8>| #[trigger] xchacha_seal(k@, n@, private_ad(protocol, expire), m) == old(buf)@,
            r is Ok ==> forall|m: Seq<u8>|
                #[trigger] xchacha_seal(k@, n@, private_ad(protocol, expire), m) == old(buf)@ ==> r.unwrap()@ == m
                    + old(buf)@.subrange((PRIVATE_LEN - HMAC) as int, PRIVATE_LEN as int),
            r is Ok ==> final(buf)@ == r.unwrap()@,
            r is Err ==> final(buf)@ == old(buf)@,
    {
        match Self::decrypt(buf, protocol, expire, n, k) {
            Ok(t) => {
                let b = t.to_bytes();
                *buf = array_at(b.as_slice(), 0);
                Ok(t)
            },
            Err(e) => Err(e),
        }
    }
}

// ---------------------------------------------------------------------------
// Public token

/// The public token.
pub struct PublicToken {
    version: [u8; VERSION_LEN],
    protocol: [u8; 8],
    create: [u8; 8],
    expire: [u8; 8],
    timeout: [u8; 4],
    _reserved: [u8; 264],
    nonce: [u8; XNONCE],
    client_key: [u8; KEY],
    server_key: [u8; KEY],
    token: [u8; PRIVATE_LEN],
    data: [u8; DATA],
}

impl View for PublicToken {
    type V = Seq<u8>;

    /// The token's 2048 bytes.
    closed spec fn view(&self) -> Seq<u8> {
        self.version@ + self.protocol@ + self.create@ + self.expire@ + self.timeout@ + self._reserved@
            + self.nonce@ + self.client_key@ + self.server_key@ + self.token@ + self.data@
    }
}

impl PublicToken {
    /// The token's bytes have their length.
    pub proof fn lemma_len(&self)
        ensures
            self@.len() == PUBLIC_LEN,
    {
    }

    fn from_bytes(b: &[u8]) -> (r: Self)
        requires
            b@.len() == PUBLIC_LEN,
        ensures
            r@ == b@,
    {
        let r = PublicToken {
            version: array_at(b, 0),
            protocol: array_at(b, 4),
            create: array_at(b, 12),
            expire: array_at(b, 20),
            timeout: array_at(b, 28),
            _reserved: array_at(b, 32),
            nonce: array_at(b, 296),
            client_key: array_at(b, 320),
            server_key: array_at(b, 352),
            token: array_at(b, 384),
            data: array_at(b, 1408),
        };
        assert(r@ =~= b@);
        r
    }

    fn to_bytes(&self) -> (r: Vec<u8>)
        ensures
            r@ == self@,
    {
        let mut out: Vec<u8> = Vec::new();
        push_all(&mut out, &self.version);
        push_all(&mut out, &self.protocol);
        push_all(&mut out, &self.create);
        push_all(&mut out, &self.expire);
        push_all(&mut out, &self.timeout);
        push_all(&mut out, &self._reserved);
        push_all(&mut out, &self.nonce);
        push_all(&mut out, &self.client_key);
        push_all(&mut out, &self.server_key);
        push_all(&mut out, &self.token);
        push_all(&mut out, &self.data);
        assert(out@ =~= self@);
        out
    }

    pub fn protocol_id(&self) -> (r: u64)
        ensures
            r == le_read(self@.subrange(4, 12), 8),
    {
        assert(self@.subrange(4, 12) =~= self.protocol@);
        u64_from_le_array(self.protocol)
    }

    pub fn create_timestamp(&self) -> (r: u64)
        ensures
            r == le_read(self@.subrange(12, 20), 8),
    {
        assert(self@.subrange(12, 20) =~= self.create@);
        u64_from_le_array(self.create)
    }

    pub fn expire_timestamp(&self) -> (r: u64)
        ensures
            r == le_read(self@.subrange(20, 28), 8),
    {
        assert(self@.subrange(20, 28) =~= self.expire@);
        u64_from_le_array(self.expire)
    }

    pub fn timeout_seconds(&self) -> (r: u32)
        ensures
            r == le32(self@[28], self@[29], self@[30], self@[31]),
    {
        u32_from_le_array(self.timeout)
    }

    pub fn nonce(&self) -> (r: [u8; XNONCE])
        ensures
            r@ == self@.subrange(296, 320),
    {
        assert(self@.subrange(296, 320) =~= self.nonce@);
        self.nonce
    }

    pub fn client_key(&self) -> (r: [u8; KEY])
        ensures
            r@ == self@.subrange(320, 352),
    {
        assert(self@.subrange(320, 352) =~= self.client_key@);
        self.client_key
    }

    pub fn server_key(&self) -> (r: [u8; KEY])
        ensures
            r@ == self@.subrange(352, 384),
    {
        assert(self@.subrange(352, 384) =~= self.server_key@);
        self.server_key
    }

    pub fn token(&self) -> (r: &[u8; PRIVATE_LEN])
        ensures
            r@ == self@.subrange(384, 1408),
    {
        assert(self@.subrange(384, 1408) =~= self.token@);
        &self.token
    }

    pub fn data(&self) -> (r: &[u8; DATA])
        ensures
            r@ == self@.subrange(1408, 2048),
    {
        assert(self@.subrange(1408, 2048) =~= self.data@);
        &self.data
    }

    /// Generates a token for `client_id` that expires `expire` seconds from
    /// now: fresh keys and nonce, and the private token sealed under
    /// `private_key`; `None` when the system clock cannot be read.
    pub fn generate(
        data: [u8; DATA],
        user: [u8; USER],
        expire: u32,
        timeout: u32,
        client_id: u64,
        protocol: u64,
        private_key: &[u8; KEY],
    ) -> (r: Option<Self>)
        ensures
            r is Some ==> generated(r.unwrap()@, data@, user@, expire, timeout, client_id, protocol, private_key@),
    {
        match time_secs() {
            Some(create) => Some(Self::generate_at(data, user, expire, timeout, client_id, protocol, private_key, create)),
            None => None,
        }
    }

    /// `generate` with the creation time `create`, in seconds.
    fn generate_at(
        data: [u8; DATA],
        user: [u8; USER],
        expire: u32,
        timeout: u32,
        client_id: u64,
        protocol: u64,
        private_key: &[u8; KEY],
        create: u64,
    ) -> (r: Self)
        ensures
            generated(r@, data@, user@, expire, timeout, client_id, protocol, private_key@),
            le_read(r@.subrange(12, 20), 8) == create,
    {
        let nonce = generate_nonce();
        let expire = create.saturating_add(expire as u64);
        let private = PrivateToken::generate(client_id, timeout, data, user);
        let client_key = *private.client_key();
        let server_key = *private.server_key();
        let token = match private.encrypt(protocol, expire, &nonce, private_key) {
            Ok(t) => t,
            Err(_) => [0u8; PRIVATE_LEN],
        };
        let r = Self {
            version: VERSION,
            protocol: u64_le_array(protocol),
            create: u64_le_array(create),
            expire: u64_le_array(expire),
            timeout: u32_le_array(timeout),
            _reserved: zero_array(),
            nonce,
            client_key,
            server_key,
            token,
            data,
        };
        proof {
            assert(VERSION@ =~= version_bytes());
            assert(r@.subrange(0, 4) =~= version_bytes());
            assert(r@.subrange(4, 12) =~= le_bytes(protocol, 8));
            lemma_le64_roundtrip(protocol);
            assert(r@.subrange(12, 20) =~= le_bytes(create, 8));
            lemma_le64_roundtrip(create);
            assert(r@.subrange(20, 28) =~= le_bytes(expire, 8));
            lemma_le64_roundtrip(expire);
            assert(r@.subrange(28, 32) =~= le32_bytes(timeout));
            assert(r@.subrange(1408, 2048) =~= data@);
            assert(r@.subrange(384, 1408) =~= token@);
            assert(r@.subrange(296, 320) =~= nonce@);
            assert(r@.subrange(320, 352) =~= client_key@);
            assert(r@.subrange(352, 384) =~= server_key@);
            assert(private@.subrange(48, 80) =~= client_key@);
            assert(private@.subrange(80, 112) =~= server_key@);
            private.lemma_len();
        }
        r
    }

    /// Accepts 2048 bytes as a token when they start with the protocol
    /// version.
    pub fn read(b: [u8; PUBLIC_LEN]) -> (r: Result<Self, ()>)
        ensures
            r is Ok <==> b@.subrange(0, 4) == version_bytes(),
            r is Ok ==> r.unwrap()@ == b@,
    {
        let tok = Self::from_bytes(&b);
        let v = VERSION;
        proof { assert(v@ =~= version_bytes()); }
        let mut same = true;
        let mut i: usize = 0;
        while i < VERSION_LEN
            invariant
                i <= VERSION_LEN,
                tok@ == b@,
                v@ == version_bytes(),
                same == (forall|j: int| 0 <= j < i ==> tok.version@[j] == version_bytes()[j]),
            decreases VERSION_LEN - i,
        {
            if tok.version[i] != v[i] {
                same = false;
            }
            i = i + 1;
        }
        assert(b@.subrange(0, 4) =~= tok.version@);
        assert(same ==> tok.version@ =~= version_bytes());
        if same {
            Ok(tok)
        } else {
            Err(())
        }
    }

    /// The token's 2048 bytes.
    pub fn write(self) -> (r: [u8; PUBLIC_LEN])
        ensures
            r@ == self@,
    {
        let b = self.to_bytes();
        array_at(b.as_slice(), 0)
    }
}

/// `b` is a public token for `client_id` on `protocol`: the version, an
/// expire time `expire` seconds after the creation time (or past the range),
/// the timeout, the open data, and a private token sealed under
/// `private_key` that holds the client id, timeout, both keys of the public
/// token, the open data and the user data.
pub open spec fn generated(
    b: Seq<u8>,
    data: Seq<u8>,
    user: Seq<u8>,
    expire: u32,
    timeout: u32,
    client_id: u64,
    protocol: u64,
    private_key: Seq<u8>,
) -> bool {
    &&& b.subrange(0, 4) == version_bytes()
    &&& le_read(b.subrange(4, 12), 8) == protocol
    &&& le_read(b.subrange(20, 28), 8) == le_read(b.subrange(12, 20), 8) + expire || le_read(b.subrange(12, 20), 8)
        + expire > u64::MAX
    &&& b.subrange(28, 32) == le32_bytes(timeout)
    &&& b.subrange(1408, 2048) == data
    &&& {
        let private = b.subrange(384, 1408);
        let nonce = b.subrange(296, 320);
        let expire_at = le_read(b.subrange(20, 28), 8);
        exists|t: Seq<u8>|
            #![trigger private_sealed(t, protocol, expire_at, nonce, private_key)]
            {
                &&& t.len() == PRIVATE_LEN
                &&& private == private_sealed(t, protocol, expire_at, nonce, private_key)
                &&& t.subrange(0, 8) == le_bytes(client_id, 8)
                &&& t.subrange(8, 12) == le32_bytes(timeout)
                &&& t.subrange(48, 80) == b.subrange(320, 352)
                &&& t.subrange(80, 112) == b.subrange(352, 384)
                &&& t.subrange(112, 752) == data
                &&& t.subrange(752, 1008) == user
            }
    }
}

/// Opening a sealed challenge token gives back the token's plaintext, with
/// the tag of the sealed bytes.
pub proof fn law_challenge_token_roundtrip(t: Seq<u8>, seq: u64, k: Seq<u8>, opened: Seq<u8>, sealed: Seq<u8>)
    requires
        t.len() == CHALLENGE_LEN,
        sealed == challenge_sealed(t, seq, k),
        forall|m: Seq<u8>| #[trigger] chacha_seal(k, nonce_of(seq), seq![], m) == sealed ==> opened == m
            + sealed.subrange((CHALLENGE_LEN - HMAC) as int, CHALLENGE_LEN as int),
    ensures
        challenge_plain(opened) == challenge_plain(t),
        exists|m: Seq<u8>| #[trigger] chacha_seal(k, nonce_of(seq), seq![], m) == sealed,
{
    assert(chacha_seal(k, nonce_of(seq), seq![], challenge_plain(t)) == sealed);
    assert(challenge_plain(opened) =~= challenge_plain(t));
}

} // verus!
