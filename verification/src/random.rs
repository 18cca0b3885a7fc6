//! The secure random source: fresh bytes for nonces and per-chunk
//! associated data.
//!
//! Randomness failure is fatal to the calling operation; nothing here
//! retries, and nothing is promised about the bytes themselves.

use vstd::prelude::*;
use crate::config::{AD_SIZE, NONCE_SIZE};
use crate::errors::CryptoError;
use rand::rand_core::{OsRng, TryRngCore};

verus! {

/// Relies on rand's `OsRng::try_fill_bytes`: on success the whole buffer is
/// overwritten with bytes from the operating system's secure random source.
/// Nothing can be said about the bytes themselves.
#[verifier::external_body]
fn get_random(dest: &mut Vec<u8>) -> (r: Result<(), CryptoError>)
    ensures
        final(dest)@.len() == old(dest)@.len(),
        r is Err ==> r->Err_0 == CryptoError::RandomnessUnavailable,
{
    OsRng
        .try_fill_bytes(dest.as_mut_slice())
        .map_err(|_| CryptoError::RandomnessUnavailable)
}

/// Draws a fresh random envelope nonce, which also serves as the KDF salt.
pub fn nonce() -> (r: Result<Vec<u8>, CryptoError>)
    ensures
        r is Ok ==> r->Ok_0@.len() == NONCE_SIZE as nat,
        r is Err ==> r->Err_0 == CryptoError::RandomnessUnavailable,
{
    let mut randoms: Vec<u8> = vec![0u8; NONCE_SIZE];
    match get_random(&mut randoms) {
        Ok(()) => Ok(randoms),
        Err(e) => Err(e),
    }
}

/// Draws fresh random associated data for one chunk.
pub fn auth_tag() -> (r: Result<Vec<u8>, CryptoError>)
    ensures
        r is Ok ==> r->Ok_0@.len() == AD_SIZE as nat,
        r is Err ==> r->Err_0 == CryptoError::RandomnessUnavailable,
{
    let mut randoms: Vec<u8> = vec![0u8; AD_SIZE];
    match get_random(&mut randoms) {
        Ok(()) => Ok(randoms),
        Err(e) => Err(e),
    }
}

} // verus!
