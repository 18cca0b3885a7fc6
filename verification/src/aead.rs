//! The AEAD primitive behind chunk sealing: XChaCha20-Poly1305 with the
//! envelope-wide nonce and per-chunk associated data.

use vstd::prelude::*;
use crate::config::{KEY_SIZE, NONCE_SIZE, TAG_SIZE};
use crate::errors::CryptoError;
use orion::hazardous::aead::xchacha20poly1305::{open, seal, Nonce, SecretKey};
use orion::hazardous::mac::poly1305::POLY1305_OUTSIZE;

verus! {

/// The bytes that orion's XChaCha20-Poly1305 `seal` produces: the ciphertext
/// of `plaintext` followed by the authentication tag. The construction is
/// deterministic: the same key, nonce, associated data and plaintext always
/// give the same bytes, on every machine.
pub uninterp spec fn seal_of(
    key: Seq<u8>,
    nonce: Seq<u8>,
    ad: Seq<u8>,
    plaintext: Seq<u8>,
) -> Seq<u8>;

/// Relies on orion's `xchacha20poly1305::seal`, with `SecretKey::from_slice`
/// and `Nonce::from_slice` carrying the raw key and nonce in. With a 32-byte
/// key, a 24-byte nonce and a destination of plaintext length plus tag
/// length, `seal` succeeds and fills the destination with the ciphertext
/// followed by the 16-byte Poly1305 tag.
#[verifier::external_body]
pub(crate) fn aead_seal(key: &Vec<u8>, nonce: &Vec<u8>, ad: &Vec<u8>, plaintext: &Vec<u8>) -> (r: Result<
    Vec<u8>,
    CryptoError,
>)
    requires
        key@.len() == KEY_SIZE as nat,
        nonce@.len() == NONCE_SIZE as nat,
        plaintext@.len() <= 0xFFFF_FFFF,
        plaintext@.len() + TAG_SIZE as nat <= usize::MAX as nat,
        ad@.len() <= 0xFFFF_FFFF,
    ensures
        r is Ok,
        r is Ok ==> r->Ok_0@ == seal_of(key@, nonce@, ad@, plaintext@)
            && r->Ok_0@.len() == plaintext@.len() + TAG_SIZE as nat,
{
    let sk = SecretKey::from_slice(key.as_slice()).map_err(|_| CryptoError::KeyDerivationError)?;
    let n = Nonce::from_slice(nonce.as_slice()).map_err(|_| CryptoError::KeyDerivationError)?;
    let mut out = vec![0u8; plaintext.len() + POLY1305_OUTSIZE];
    seal(&sk, &n, plaintext.as_slice(), Some(ad.as_slice()), out.as_mut_slice())
        .map_err(|_| CryptoError::AuthenticationFailure)?;
    Ok(out)
}

/// Relies on orion's `xchacha20poly1305::open`, with `SecretKey::from_slice`
/// and `Nonce::from_slice` carrying the raw key and nonce in. `open` verifies
/// the Poly1305 tag over the associated data and the ciphertext and then
/// inverts the keystream, so it returns exactly the plaintexts whose `seal`
/// under the same key, nonce and associated data is `ctext`, and fails on
/// every other input.
#[verifier::external_body]
pub(crate) fn aead_open(key: &Vec<u8>, nonce: &Vec<u8>, ad: &Vec<u8>, ctext: &Vec<u8>) -> (r: Result<
    Vec<u8>,
    CryptoError,
>)
    requires
        key@.len() == KEY_SIZE as nat,
        nonce@.len() == NONCE_SIZE as nat,
        ctext@.len() >= TAG_SIZE as nat,
        ctext@.len() <= 0xFFFF_FFFF,
        ad@.len() <= 0xFFFF_FFFF,
    ensures
        r is Ok ==> r->Ok_0@.len() + TAG_SIZE as nat == ctext@.len()
            && ctext@ == seal_of(key@, nonce@, ad@, r->Ok_0@),
        forall|p: Seq<u8>| ctext@ == #[trigger] seal_of(key@, nonce@, ad@, p) ==> r is Ok
            && r->Ok_0@ == p,
        r is Err ==> r->Err_0 == CryptoError::AuthenticationFailure,
{
    let sk = SecretKey::from_slice(key.as_slice()).map_err(|_| CryptoError::AuthenticationFailure)?;
    let n = Nonce::from_slice(nonce.as_slice()).map_err(|_| CryptoError::AuthenticationFailure)?;
    let out_len = ctext.len() - POLY1305_OUTSIZE;
    let mut out = vec![0u8; out_len];
    open(&sk, &n, ctext.as_slice(), Some(ad.as_slice()), out.as_mut_slice())
        .map_err(|_| CryptoError::AuthenticationFailure)?;
    Ok(out)
}

} // verus!
