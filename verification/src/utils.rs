//! Random keys and nonces, and the clock.

use vstd::prelude::*;
use rand::RngCore;
use crate::crypto::{KEY, XNONCE};

verus! {

/// Seconds since the Unix epoch, from `SystemTime::now()`; `None` when the
/// system clock reads before the epoch (`duration_since` fails then).
/// Trusted: nothing is promised of the value; it is the time.
#[verifier::external_body]
pub fn time_secs() -> Option<u64> {
    match std::time::SystemTime::now().duration_since(std::time::SystemTime::UNIX_EPOCH) {
        Ok(d) => Some(d.as_secs()),
        Err(_) => None,
    }
}

/// Fills `buf` with random bytes from `rand::thread_rng().fill_bytes`.
/// Trusted: only the length is kept; the bytes are chance.
#[verifier::external_body]
pub fn crypto_random(buf: &mut [u8])
    ensures
        final(buf)@.len() == old(buf)@.len(),
{
    rand::thread_rng().fill_bytes(buf)
}

/// A fresh random key.
pub fn keygen() -> (k: [u8; KEY]) {
    let mut k = [0u8; KEY];
    crypto_random(&mut k);
    k
}

/// A fresh random 24-byte nonce.
pub fn generate_nonce() -> (n: [u8; XNONCE]) {
    let mut n = [0u8; XNONCE];
    crypto_random(&mut n);
    n
}

} // verus!
