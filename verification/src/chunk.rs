//! The chunk codec: one bounded-size plaintext chunk is sealed into, or
//! opened from, a self-contained chunk record of the form
//! associated data (32 bytes) ‖ ciphertext ‖ tag (16 bytes).

use vstd::prelude::*;
use crate::aead::{aead_open, aead_seal, seal_of};
use crate::bytes::{append_bytes, subvec};
use crate::config::{AD_SIZE, CHUNK_SIZE, KEY_SIZE, NONCE_SIZE, SEALED_OVERHEAD, TAG_SIZE};
use crate::errors::CryptoError;
use crate::random::auth_tag;

verus! {

/// Whether `ad` is valid associated data for sealing `chunk`: it has the
/// fixed length, and the AEAD output for it has the expected length.
pub open spec fn good_seal(key: Seq<u8>, nonce: Seq<u8>, ad: Seq<u8>, chunk: Seq<u8>) -> bool {
    &&& ad.len() == AD_SIZE as nat
    &&& seal_of(key, nonce, ad, chunk).len() == chunk.len() + TAG_SIZE as nat
}

/// The chunk record that sealing `chunk` with associated data `ad` yields:
/// the associated data in clear, then the AEAD ciphertext and tag.
pub open spec fn sealed_chunk_of(key: Seq<u8>, nonce: Seq<u8>, ad: Seq<u8>, chunk: Seq<u8>) -> Seq<
    u8,
> {
    ad + seal_of(key, nonce, ad, chunk)
}

/// Splits a chunk record into its cleartext associated data (first 32 bytes)
/// and the AEAD ciphertext-with-tag that follows.
pub fn simple_split_encrypted(cipher_text: &Vec<u8>) -> (r: (Vec<u8>, Vec<u8>))
    requires
        cipher_text@.len() >= AD_SIZE as nat,
    ensures
        r.0@ == cipher_text@.subrange(0, AD_SIZE as int),
        r.1@ == cipher_text@.subrange(AD_SIZE as int, cipher_text@.len() as int),
{
    (subvec(cipher_text, 0, AD_SIZE), subvec(cipher_text, AD_SIZE, cipher_text.len()))
}

/// Seals one plaintext chunk under the envelope key and nonce with fresh
/// random associated data, and appends the chunk record to `dist`.
/// Fails only when the random source does, leaving `dist` unchanged.
pub fn encrypt_core(dist: &mut Vec<u8>, contents: Vec<u8>, key: &Vec<u8>, nonce: &Vec<u8>) -> (r:
    Result<(), CryptoError>)
    requires
        key@.len() == KEY_SIZE as nat,
        nonce@.len() == NONCE_SIZE as nat,
        contents@.len() <= CHUNK_SIZE as nat,
        old(dist)@.len() + contents@.len() + SEALED_OVERHEAD as nat <= usize::MAX as nat,
    ensures
        r is Ok ==> final(dist)@.len() == old(dist)@.len() + contents@.len()
            + SEALED_OVERHEAD as nat,
        r is Ok ==> exists|ad: Seq<u8>|
            good_seal(key@, nonce@, ad, contents@) && final(dist)@ == old(dist)@
                + #[trigger] sealed_chunk_of(key@, nonce@, ad, contents@),
        r is Err ==> *final(dist) == *old(dist) && r->Err_0 == CryptoError::RandomnessUnavailable,
{
    let ad = match auth_tag() {
        Ok(v) => v,
        Err(e) => {
            return Err(e);
        },
    };
    let sealed = match aead_seal(key, nonce, &ad, &contents) {
        Ok(v) => v,
        Err(_) => {
            return Err(CryptoError::RandomnessUnavailable);
        },
    };
    append_bytes(dist, &ad);
    append_bytes(dist, &sealed);
    proof {
        assert(dist@ =~= old(dist)@ + sealed_chunk_of(key@, nonce@, ad@, contents@));
        assert(good_seal(key@, nonce@, ad@, contents@));
    }
    Ok(())
}

/// Opens one chunk record under the envelope key and nonce and appends the
/// recovered plaintext chunk to `dist`. A record shorter than the fixed
/// overhead is malformed; a record whose tag does not verify fails closed.
/// Exactly the records that sealing some chunk could have produced open,
/// and they yield that chunk.
pub fn decrypt_core(dist: &mut Vec<u8>, contents: Vec<u8>, key: &Vec<u8>, nonce: &Vec<u8>) -> (r:
    Result<(), CryptoError>)
    requires
        key@.len() == KEY_SIZE as nat,
        nonce@.len() == NONCE_SIZE as nat,
        contents@.len() <= 0xFFFF_FFFF,
        old(dist)@.len() + contents@.len() <= usize::MAX as nat,
    ensures
        contents@.len() < SEALED_OVERHEAD as nat <==> r == Err::<(), CryptoError>(
            CryptoError::MalformedChunk,
        ),
        r is Err ==> *final(dist) == *old(dist) && (r->Err_0 == CryptoError::MalformedChunk
            || r->Err_0 == CryptoError::AuthenticationFailure),
        r is Ok ==> final(dist)@.len() + SEALED_OVERHEAD as nat == old(dist)@.len()
            + contents@.len(),
        r is Ok ==> final(dist)@.subrange(0, old(dist)@.len() as int) == old(dist)@,
        r is Ok ==> good_seal(
            key@,
            nonce@,
            contents@.subrange(0, AD_SIZE as int),
            final(dist)@.subrange(old(dist)@.len() as int, final(dist)@.len() as int),
        ),
        r is Ok ==> contents@ == sealed_chunk_of(
            key@,
            nonce@,
            contents@.subrange(0, AD_SIZE as int),
            final(dist)@.subrange(old(dist)@.len() as int, final(dist)@.len() as int),
        ),
        contents@.len() >= SEALED_OVERHEAD as nat ==> forall|c: Seq<u8>|
            contents@.subrange(AD_SIZE as int, contents@.len() as int) == #[trigger] seal_of(
                key@,
                nonce@,
                contents@.subrange(0, AD_SIZE as int),
                c,
            ) ==> r is Ok && final(dist)@ == old(dist)@ + c,
{
    if contents.len() < SEALED_OVERHEAD {
        return Err(CryptoError::MalformedChunk);
    }
    let split = simple_split_encrypted(&contents);
    let output = match aead_open(key, nonce, &split.0, &split.1) {
        Ok(v) => v,
        Err(_) => {
            return Err(CryptoError::AuthenticationFailure);
        },
    };
    append_bytes(dist, &output);
    proof {
        assert(dist@.subrange(old(dist)@.len() as int, dist@.len() as int) =~= output@);
        assert(dist@.subrange(0, old(dist)@.len() as int) =~= old(dist)@);
        assert(contents@ =~= contents@.subrange(0, AD_SIZE as int) + contents@.subrange(
            AD_SIZE as int,
            contents@.len() as int,
        ));
    }
    Ok(())
}

} // verus!
