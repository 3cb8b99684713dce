//! The challenge token of the handshake: client id and user data, sealed
//! in place inside a 300-byte buffer.

use vstd::prelude::*;
use crate::bytes::{IoError, le_bytes, le_read, array_at, push_all, u64_le_array, lemma_le64_roundtrip,
    lemma_le_read_prefix, read_uint_le};
use crate::crypto::{chacha_seal, seal_chacha20poly1305, open_chacha20poly1305, nonce_of, nonce_from_sequence, KEY, HMAC};

verus! {

/// User data length in bytes.
pub const USER_DATA_BYTES: usize = 256;

/// 256 bytes of user data.
#[derive(Debug, Clone, Copy)]
pub struct UserData(pub [u8; USER_DATA_BYTES]);

impl PartialEq for UserData {
    fn eq(&self, other: &Self) -> (r: bool) {
        let mut i: usize = 0;
        while i < USER_DATA_BYTES
            invariant
                i <= USER_DATA_BYTES,
                forall|j: int| 0 <= j < i ==> self.0@[j] == other.0@[j],
            decreases USER_DATA_BYTES - i,
        {
            if self.0[i] != other.0[i] {
                return false;
            }
            i = i + 1;
        }
        assert(self.0@ =~= other.0@);
        true
    }
}

impl vstd::std_specs::cmp::PartialEqSpecImpl for UserData {
    open spec fn obeys_eq_spec() -> bool {
        true
    }

    open spec fn eq_spec(&self, other: &Self) -> bool {
        self.0@ == other.0@
    }
}

impl Eq for UserData {}

impl From<[u8; USER_DATA_BYTES]> for UserData {
    fn from(a: [u8; USER_DATA_BYTES]) -> (r: Self) {
        UserData(a)
    }
}

impl vstd::std_specs::convert::FromSpecImpl<[u8; USER_DATA_BYTES]> for UserData {
    open spec fn obeys_from_spec() -> bool {
        true
    }

    open spec fn from_spec(a: [u8; USER_DATA_BYTES]) -> Self {
        UserData(a)
    }
}

/// Maps a failed decryption to the error that readers report.
pub fn map_err(_err: ()) -> (r: IoError)
    ensures
        r == IoError::InvalidData,
{
    IoError::InvalidData
}

/// A challenge token in the clear.
pub struct Challenge {
    pub client_id: u64,
    pub user_data: UserData,
}

/// The bytes that `Challenge::write` produces: client id, user data, then
/// zeros up to 300 bytes.
pub open spec fn challenge_bytes(client_id: u64, user_data: UserData) -> Seq<u8> {
    le_bytes(client_id, 8) + user_data.0@ + Seq::new(36, |i: int| 0u8)
}

/// The length of the part of a challenge buffer that is encrypted.
pub const PLAIN_BYTES: usize = 284;

impl Challenge {
    pub const BYTES: usize = 300;

    /// Reads client id and user data from the start of a buffer.
    pub fn read(buffer: &[u8; 300]) -> (r: Self)
        ensures
            r.client_id == le_read(buffer@.subrange(0, 8), 8),
            r.user_data.0@ == buffer@.subrange(8, 264),
    {
        let client_id = read_uint_le(buffer, 0, 8);
        let user: [u8; USER_DATA_BYTES] = array_at(buffer, 8);
        Self { client_id, user_data: UserData(user) }
    }

    /// Writes client id and user data to a zeroed buffer.
    pub fn write(client_id: u64, user_data: &UserData) -> (r: [u8; 300])
        ensures
            r@ == challenge_bytes(client_id, *user_data),
    {
        let mut out: Vec<u8> = Vec::new();
        let id = u64_le_array(client_id);
        push_all(&mut out, &id);
        push_all(&mut out, &user_data.0);
        let z = [0u8; 36];
        push_all(&mut out, &z);
        assert(out@ =~= challenge_bytes(client_id, *user_data));
        array_at(out.as_slice(), 0)
    }

    /// Writes and seals a challenge token.
    pub fn write_encrypted(id: u64, user_data: &UserData, seq: u64, key: &[u8; KEY]) -> (r: Result<[u8; 300], IoError>)
        ensures
            r is Ok,
            r.unwrap()@ == chacha_seal(key@, nonce_of(seq), seq![], challenge_bytes(id, *user_data).subrange(0, PLAIN_BYTES as int)),
    {
        let mut buf = Self::write(id, user_data);
        match Self::encrypt(&mut buf, seq, key) {
            Ok(()) => Ok(buf),
            Err(e) => Err(e),
        }
    }

    /// Seals the first 284 bytes in place; the tag goes into the last 16.
    pub fn encrypt(buffer: &mut [u8; 300], seq: u64, key: &[u8; KEY]) -> (r: Result<(), IoError>)
        ensures
            r is Ok,
            final(buffer)@ == chacha_seal(key@, nonce_of(seq), seq![], old(buffer)@.subrange(0, PLAIN_BYTES as int)),
    {
        let mut m: Vec<u8> = crate::encrypted::copy_range(buffer, 0, PLAIN_BYTES);
        let nonce = nonce_from_sequence(seq);
        let no_ad: Vec<u8> = Vec::new();
        assert(no_ad@ =~= seq![]);
        let tag = seal_chacha20poly1305(key, &nonce, no_ad.as_slice(), m.as_mut_slice());
        push_all(&mut m, &tag);
        *buffer = array_at(m.as_slice(), 0);
        Ok(())
    }

    /// Opens a sealed buffer in place: the first 284 bytes become the
    /// plaintext; fails with `InvalidData`, leaving the buffer, when the
    /// bytes do not authenticate.
    pub fn decrypt(buffer: &mut [u8; 300], seq: u64, key: &[u8; KEY]) -> (r: Result<(), IoError>)
        ensures
            r is Ok <==> exists|m: Seq<u8>| #[trigger] chacha_seal(key@, nonce_of(seq), seq![], m) == old(buffer)@,
            r is Ok ==> forall|m: Seq<u8>|
                #[trigger] chacha_seal(key@, nonce_of(seq), seq![], m) == old(buffer)@ ==> final(buffer)@ == m
                    + old(buffer)@.subrange(PLAIN_BYTES as int, 300),
            r is Err ==> r == Err::<(), IoError>(IoError::InvalidData) && final(buffer)@ == old(buffer)@,
    {
        let mut c: Vec<u8> = crate::encrypted::copy_range(buffer, 0, PLAIN_BYTES);
        let tag: [u8; HMAC] = array_at(buffer, PLAIN_BYTES);
        assert(c@ + tag@ =~= buffer@);
        let nonce = nonce_from_sequence(seq);
        let no_ad: Vec<u8> = Vec::new();
        assert(no_ad@ =~= seq![]);
        if !open_chacha20poly1305(key, &nonce, no_ad.as_slice(), c.as_mut_slice(), &tag) {
            return Err(map_err(()));
        }
        push_all(&mut c, &tag);
        *buffer = array_at(c.as_slice(), 0);
        Ok(())
    }
}

/// Sealing a written challenge token and opening it again gives back the
/// client id and user data.
pub proof fn law_challenge_roundtrip(client_id: u64, user_data: UserData, seq: u64, key: Seq<u8>, sealed: Seq<u8>, opened: Seq<u8>)
    requires
        sealed == chacha_seal(key, nonce_of(seq), seq![], challenge_bytes(client_id, user_data).subrange(0, PLAIN_BYTES as int)),
        sealed.len() == 300,
        forall|m: Seq<u8>|
            #[trigger] chacha_seal(key, nonce_of(seq), seq![], m) == sealed ==> opened == m + sealed.subrange(PLAIN_BYTES as int, 300),
    ensures
        le_read(opened.subrange(0, 8), 8) == client_id,
        opened.subrange(8, 264) == user_data.0@,
{
    let m = challenge_bytes(client_id, user_data).subrange(0, PLAIN_BYTES as int);
    assert(opened == m + sealed.subrange(PLAIN_BYTES as int, 300));
    assert(opened.subrange(0, 8) =~= le_bytes(client_id, 8));
    lemma_le64_roundtrip(client_id);
    assert(opened.subrange(8, 264) =~= user_data.0@);
}

} // verus!
