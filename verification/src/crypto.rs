//! Authenticated encryption: ChaCha20-Poly1305 and XChaCha20-Poly1305 in
//! their IETF forms.

use vstd::prelude::*;
use chacha20poly1305::aead::{AeadInPlace, KeyInit};
use chacha20poly1305::{ChaCha20Poly1305, XChaCha20Poly1305};

verus! {

/// Key length in bytes.
pub const KEY: usize = 32;
/// Authentication tag length in bytes.
pub const HMAC: usize = 16;
/// ChaCha20-Poly1305 nonce length in bytes.
pub const NONCE: usize = 12;
/// XChaCha20-Poly1305 nonce length in bytes.
pub const XNONCE: usize = 24;

/// Largest message that the ciphers here accept (in 64-byte blocks they
/// allow fewer than 2^32 - 1).
pub const MAX_MESSAGE: usize = 0x1000_0000;

/// The ciphertext followed by the 16-byte tag that ChaCha20-Poly1305 (IETF)
/// produces for `msg` under `key`, `nonce` and associated data `ad`.
pub uninterp spec fn chacha_seal(key: Seq<u8>, nonce: Seq<u8>, ad: Seq<u8>, msg: Seq<u8>) -> Seq<u8>;

/// The ciphertext followed by the 16-byte tag that XChaCha20-Poly1305
/// produces for `msg` under `key`, `nonce` and associated data `ad`.
pub uninterp spec fn xchacha_seal(key: Seq<u8>, nonce: Seq<u8>, ad: Seq<u8>, msg: Seq<u8>) -> Seq<u8>;

/// Encrypts `buf` in place with `ChaCha20Poly1305::encrypt_in_place_detached`
/// and returns the tag. Trusted: the ciphertext followed by the tag is the
/// named ChaCha20-Poly1305 result for these arguments, the ciphertext is as
/// long as the message; the call fails only for messages of 2^38 bytes or
/// more, which `requires` leaves out.
#[verifier::external_body]
pub(crate) fn seal_chacha20poly1305(key: &[u8; KEY], nonce: &[u8; NONCE], ad: &[u8], buf: &mut [u8]) -> (tag: [u8; HMAC])
    requires
        old(buf)@.len() <= MAX_MESSAGE,
    ensures
        final(buf)@.len() == old(buf)@.len(),
        final(buf)@ + tag@ == chacha_seal(key@, nonce@, ad@, old(buf)@),
{
    let cipher = ChaCha20Poly1305::new(key.into());
    let tag = cipher.encrypt_in_place_detached(nonce.into(), ad, buf).unwrap();
    tag.into()
}

/// Decrypts `buf` in place with `ChaCha20Poly1305::decrypt_in_place_detached`.
/// Trusted: it succeeds exactly when some message seals to `buf` followed by
/// `tag` under these arguments; then `buf` becomes that message (the only
/// one, since the keystream is fixed by key and nonce); on failure `buf`
/// is left as it was.
#[verifier::external_body]
pub(crate) fn open_chacha20poly1305(key: &[u8; KEY], nonce: &[u8; NONCE], ad: &[u8], buf: &mut [u8], tag: &[u8; HMAC]) -> (r: bool)
    requires
        old(buf)@.len() <= MAX_MESSAGE,
    ensures
        final(buf)@.len() == old(buf)@.len(),
        r == exists|m: Seq<u8>| #[trigger] chacha_seal(key@, nonce@, ad@, m) == old(buf)@ + tag@,
        r ==> forall|m: Seq<u8>|
            #[trigger] chacha_seal(key@, nonce@, ad@, m) == old(buf)@ + tag@ ==> final(buf)@ == m,
        !r ==> final(buf)@ == old(buf)@,
{
    let cipher = ChaCha20Poly1305::new(key.into());
    cipher.decrypt_in_place_detached(nonce.into(), ad, buf, tag.into()).is_ok()
}

/// Encrypts `buf` in place with `XChaCha20Poly1305::encrypt_in_place_detached`
/// and returns the tag. Trusted as `seal_chacha20poly1305`, for the
/// XChaCha20-Poly1305 result.
#[verifier::external_body]
pub(crate) fn seal_xchacha20poly1305(key: &[u8; KEY], nonce: &[u8; XNONCE], ad: &[u8], buf: &mut [u8]) -> (tag: [u8; HMAC])
    requires
        old(buf)@.len() <= MAX_MESSAGE,
    ensures
        final(buf)@.len() == old(buf)@.len(),
        final(buf)@ + tag@ == xchacha_seal(key@, nonce@, ad@, old(buf)@),
{
    let cipher = XChaCha20Poly1305::new(key.into());
    let tag = cipher.encrypt_in_place_detached(nonce.into(), ad, buf).unwrap();
    tag.into()
}

/// Decrypts `buf` in place with `XChaCha20Poly1305::decrypt_in_place_detached`.
/// Trusted as `open_chacha20poly1305`, for the XChaCha20-Poly1305 result.
#[verifier::external_body]
pub(crate) fn open_xchacha20poly1305(key: &[u8; KEY], nonce: &[u8; XNONCE], ad: &[u8], buf: &mut [u8], tag: &[u8; HMAC]) -> (r: bool)
    requires
        old(buf)@.len() <= MAX_MESSAGE,
    ensures
        final(buf)@.len() == old(buf)@.len(),
        r == exists|m: Seq<u8>| #[trigger] xchacha_seal(key@, nonce@, ad@, m) == old(buf)@ + tag@,
        r ==> forall|m: Seq<u8>|
            #[trigger] xchacha_seal(key@, nonce@, ad@, m) == old(buf)@ + tag@ ==> final(buf)@ == m,
        !r ==> final(buf)@ == old(buf)@,
{
    let cipher = XChaCha20Poly1305::new(key.into());
    cipher.decrypt_in_place_detached(nonce.into(), ad, buf, tag.into()).is_ok()
}

/// The nonce of a 64-bit sequence: four zero bytes, then the sequence,
/// little-endian.
pub open spec fn nonce_of(seq: u64) -> Seq<u8> {
    seq![0u8, 0u8, 0u8, 0u8] + crate::bytes::le_bytes(seq, 8)
}

/// The nonce of a 64-bit sequence.
pub fn nonce_from_sequence(seq: u64) -> (r: [u8; NONCE])
    ensures
        r@ == nonce_of(seq),
{
    let mut n = [0u8; NONCE];
    let mut i: usize = 0;
    while i < 8
        invariant
            i <= 8,
            n@.len() == NONCE,
            forall|j: int| 0 <= j < 4 ==> n@[j] == 0,
            forall|j: int| 0 <= j < i ==> n@[4 + j] == crate::bytes::le_bytes(seq, 8)[j],
        decreases 8 - i,
    {
        n[4 + i] = ((seq >> ((8 * i) as u64)) & 0xff) as u8;
        i = i + 1;
    }
    assert(n@ =~= nonce_of(seq));
    n
}

} // verus!
