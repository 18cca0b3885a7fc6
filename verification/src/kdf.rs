//! Key derivation: a password and the envelope nonce (as salt) are turned
//! into a fixed-length symmetric key by a memory-hard KDF with fixed cost
//! parameters.

use vstd::prelude::*;
use vstd::string::StrSliceExecFns;
use vstd::utf8::encode_utf8;
use crate::config::{KDF_ITERATIONS, KDF_MEMORY_KIB, KEY_SIZE, NONCE_SIZE};
use crate::errors::CryptoError;

verus! {

/// The key that orion's Argon2i-based `derive_key` computes from a password,
/// a salt and the three cost parameters. Argon2i is deterministic: the same
/// inputs always give the same key, on every machine.
pub uninterp spec fn kdf_of(
    password: Seq<u8>,
    salt: Seq<u8>,
    iterations: u32,
    memory: u32,
    length: u32,
) -> Seq<u8>;

/// Whether a password's byte encoding is accepted by the key derivation
/// function: it must be non-empty and fit the KDF's length limit.
pub open spec fn password_ok(pw: Seq<u8>) -> bool {
    1 <= pw.len() <= 0xFFFF_FFFF
}

/// Relies on orion's `kdf::derive_key` (Argon2i, single lane), together with
/// `kdf::Password::from_slice` and `kdf::Salt::from_slice` to carry the raw
/// bytes in. `derive_key` is deterministic in its five inputs and returns a
/// key of exactly `length` bytes. It fails exactly when the password is empty
/// or over the Argon2i length limit, the salt is shorter than 8 bytes or over
/// the limit, `iterations` is under 3, `memory` is under 8 KiB, or `length`
/// is under 4.
#[verifier::external_body]
fn kdf_derive(
    password: &Vec<u8>,
    salt: &Vec<u8>,
    iterations: u32,
    memory: u32,
    length: u32,
) -> (r: Result<Vec<u8>, CryptoError>)
    ensures
        r is Ok <==> (1 <= password@.len() <= 0xFFFF_FFFF && 8 <= salt@.len() <= 0xFFFF_FFFF
            && iterations >= 3 && memory >= 8 && length >= 4),
        r is Ok ==> r->Ok_0@ == kdf_of(password@, salt@, iterations, memory, length)
            && r->Ok_0@.len() == length as nat,
        r is Err ==> r->Err_0 == CryptoError::KeyDerivationError,
{
    let pw = orion::kdf::Password::from_slice(password.as_slice())
        .map_err(|_| CryptoError::KeyDerivationError)?;
    let s = orion::kdf::Salt::from_slice(salt.as_slice())
        .map_err(|_| CryptoError::KeyDerivationError)?;
    let key = orion::kdf::derive_key(&pw, &s, iterations, memory, length)
        .map_err(|_| CryptoError::KeyDerivationError)?;
    Ok(key.unprotected_as_bytes().to_vec())
}

/// The symmetric key of an envelope whose nonce is `nonce`, under the
/// password bytes `pw` and the fixed cost parameters.
pub open spec fn envelope_key(pw: Seq<u8>, nonce: Seq<u8>) -> Seq<u8> {
    kdf_of(pw, nonce, KDF_ITERATIONS, KDF_MEMORY_KIB, KEY_SIZE as u32)
}

/// Derives the envelope key from the password and the envelope nonce.
/// Succeeds exactly when the password's byte encoding is acceptable.
pub fn create_key(password: &str, nonce: &Vec<u8>) -> (r: Result<Vec<u8>, CryptoError>)
    requires
        nonce@.len() == NONCE_SIZE as nat,
    ensures
        r is Ok <==> password_ok(encode_utf8(password@)),
        r is Ok ==> r->Ok_0@ == envelope_key(encode_utf8(password@), nonce@)
            && r->Ok_0@.len() == KEY_SIZE as nat,
        r is Err ==> r->Err_0 == CryptoError::KeyDerivationError,
{
    let pw_bytes = password.as_bytes_vec();
    kdf_derive(&pw_bytes, nonce, KDF_ITERATIONS, KDF_MEMORY_KIB, KEY_SIZE as u32)
}

} // verus!
