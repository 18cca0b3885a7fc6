//! The envelope codec: a whole record is encrypted into, or decrypted from,
//! the byte stream
//! nonce (24 bytes) ‖ sealed chunk 1 ‖ sealed chunk 2 ‖ … ‖ sealed chunk n.
//!
//! The nonce doubles as the KDF salt; every chunk of one envelope is sealed
//! under the same derived key and nonce, with fresh random associated data
//! per chunk. An empty plaintext still yields one (empty) sealed chunk, so
//! every envelope has at least one chunk.

use vstd::prelude::*;
use vstd::arithmetic::div_mod::{
    lemma_fundamental_div_mod, lemma_fundamental_div_mod_converse_div,
    lemma_fundamental_div_mod_converse_mod,
};
use vstd::string::StringSliceAdditionalSpecFns;
use vstd::utf8::encode_utf8;
use crate::bytes::{append_bytes, subvec};
use crate::aead::seal_of;
use crate::chunk::{decrypt_core, encrypt_core, good_seal, sealed_chunk_of};
use crate::config::{AD_SIZE, CHUNK_SIZE, CHUNK_STRIDE, KEY_SIZE, NONCE_SIZE, SEALED_OVERHEAD};
use crate::errors::CryptoError;
use crate::kdf::{create_key, envelope_key, password_ok};
use crate::random::nonce;

verus! {

/// How many chunks a plaintext of `n` bytes is split into: at least one,
/// even for an empty plaintext.
pub open spec fn chunk_count(n: nat) -> nat {
    if n == 0 {
        1
    } else {
        (n + (CHUNK_SIZE - 1) as nat) / (CHUNK_SIZE as nat)
    }
}

/// The consecutive plaintext chunks of `p`: all of length `CHUNK_SIZE`
/// except the last, which carries the remainder (and may be empty only when
/// `p` itself is empty).
pub open spec fn chunks_of(p: Seq<u8>) -> Seq<Seq<u8>>
    decreases p.len(),
{
    if p.len() <= CHUNK_SIZE as nat {
        seq![p]
    } else {
        seq![p.subrange(0, CHUNK_SIZE as int)] + chunks_of(p.skip(CHUNK_SIZE as int))
    }
}

/// The concatenation of a sequence of byte sequences, in order.
pub open spec fn concat_bytes(ss: Seq<Seq<u8>>) -> Seq<u8>
    decreases ss.len(),
{
    if ss.len() == 0 {
        Seq::empty()
    } else {
        ss[0] + concat_bytes(ss.drop_first())
    }
}

/// The sealed chunk records of chunks `cs` under associated data `ads`.
pub open spec fn records_of(
    key: Seq<u8>,
    nonce_b: Seq<u8>,
    ads: Seq<Seq<u8>>,
    cs: Seq<Seq<u8>>,
) -> Seq<Seq<u8>> {
    Seq::new(cs.len(), |i: int| sealed_chunk_of(key, nonce_b, ads[i], cs[i]))
}

/// Whether `env` is the envelope that encrypting plaintext `p` under the
/// password bytes `pw` produces when the random source hands out the nonce
/// `nonce_b` and the per-chunk associated data `ads`.
pub open spec fn is_envelope_of(
    pw: Seq<u8>,
    nonce_b: Seq<u8>,
    ads: Seq<Seq<u8>>,
    p: Seq<u8>,
    env: Seq<u8>,
) -> bool {
    &&& nonce_b.len() == NONCE_SIZE as nat
    &&& ads.len() == chunks_of(p).len()
    &&& (forall|i: int|
        0 <= i < chunks_of(p).len() ==> #[trigger] good_seal(
            envelope_key(pw, nonce_b),
            nonce_b,
            ads[i],
            chunks_of(p)[i],
        ))
    &&& env == nonce_b + concat_bytes(
        records_of(envelope_key(pw, nonce_b), nonce_b, ads, chunks_of(p)),
    )
}

/// Whether `env` is an envelope of plaintext `p` under the password bytes
/// `pw`, for some choice of envelope nonce and per-chunk associated data.
pub open spec fn has_envelope(pw: Seq<u8>, p: Seq<u8>, env: Seq<u8>) -> bool {
    exists|nonce_b: Seq<u8>, ads: Seq<Seq<u8>>| #[trigger] is_envelope_of(pw, nonce_b, ads, p, env)
}

/// The exact length of the envelope of an `n`-byte plaintext.
pub open spec fn envelope_len(n: nat) -> nat {
    NONCE_SIZE as nat + SEALED_OVERHEAD as nat * chunk_count(n) + n
}

/// The body lengths (envelope length minus the nonce) that the chunk framing
/// can produce: one full stride per full chunk, and a final record of
/// overhead-plus-remainder. A trailing record of bare overhead occurs only
/// in the single-chunk envelope of an empty plaintext.
pub open spec fn wf_body_len(n: nat) -> bool {
    ||| n == SEALED_OVERHEAD as nat
    ||| (n > SEALED_OVERHEAD as nat && (n % (CHUNK_STRIDE as nat) == 0 || n % (
    CHUNK_STRIDE as nat) > SEALED_OVERHEAD as nat))
}

/// Whether a byte stream has the outer shape of an envelope: room for the
/// nonce, and a body length the chunk framing can produce.
pub open spec fn envelope_shape_ok(env: Seq<u8>) -> bool {
    env.len() >= NONCE_SIZE as nat && wf_body_len((env.len() - NONCE_SIZE as nat) as nat)
}

/// The concatenation of no chunks is empty.
proof fn lemma_concat_empty()
    ensures
        concat_bytes(Seq::<Seq<u8>>::empty()) == Seq::<u8>::empty(),
{
}

/// Concatenation distributes over appending one element at the end.
proof fn lemma_concat_push(ss: Seq<Seq<u8>>, x: Seq<u8>)
    ensures
        concat_bytes(ss.push(x)) == concat_bytes(ss) + x,
    decreases ss.len(),
{
    if ss.len() == 0 {
        lemma_concat_empty();
        assert(ss.push(x)[0] == x);
        assert(ss.push(x).drop_first() =~= Seq::<Seq<u8>>::empty());
        assert(ss =~= Seq::<Seq<u8>>::empty());
        assert(concat_bytes(ss.push(x)) =~= concat_bytes(ss) + x);
    } else {
        assert(ss.push(x).drop_first() =~= ss.drop_first().push(x));
        lemma_concat_push(ss.drop_first(), x);
        assert(ss.push(x)[0] == ss[0]);
        assert(concat_bytes(ss.push(x)) =~= concat_bytes(ss) + x);
    }
}

/// Concatenation of a non-empty sequence splits off its element at `i`.
proof fn lemma_concat_skip(ss: Seq<Seq<u8>>, i: int)
    requires
        0 <= i < ss.len(),
    ensures
        concat_bytes(ss.skip(i)) == ss[i] + concat_bytes(ss.skip(i + 1)),
{
    assert(ss.skip(i)[0] == ss[i]);
    assert(ss.skip(i).drop_first() =~= ss.skip(i + 1));
}

/// The chunks of a plaintext: how many there are, their lengths, and that
/// they concatenate back to the plaintext.
pub proof fn lemma_chunks_of_shape(p: Seq<u8>)
    ensures
        chunks_of(p).len() == chunk_count(p.len()),
        chunks_of(p).len() >= 1,
        forall|i: int|
            0 <= i < chunks_of(p).len() - 1 ==> (#[trigger] chunks_of(p)[i]).len()
                == CHUNK_SIZE as nat,
        chunks_of(p)[chunks_of(p).len() - 1].len() <= CHUNK_SIZE as nat,
        chunks_of(p).len() >= 2 ==> chunks_of(p)[chunks_of(p).len() - 1].len() >= 1,
        concat_bytes(chunks_of(p)) == p,
    decreases p.len(),
{
    if p.len() <= CHUNK_SIZE as nat {
        assert(chunks_of(p) =~= seq![p]);
        if p.len() > 0 {
            lemma_fundamental_div_mod_converse_div(
                (p.len() + (CHUNK_SIZE - 1) as nat) as int,
                CHUNK_SIZE as int,
                1,
                (p.len() - 1) as int,
            );
        }
        lemma_concat_empty();
        assert(chunks_of(p).drop_first() =~= Seq::<Seq<u8>>::empty());
        assert(concat_bytes(chunks_of(p)) == chunks_of(p)[0] + concat_bytes(
            chunks_of(p).drop_first(),
        ));
        assert(concat_bytes(chunks_of(p)) =~= p);
    } else {
        let rest = p.skip(CHUNK_SIZE as int);
        lemma_chunks_of_shape(rest);
        let k = chunk_count(rest.len());
        // chunk_count(p.len()) == k + 1
        lemma_fundamental_div_mod((rest.len() + (CHUNK_SIZE - 1) as nat) as int, CHUNK_SIZE as int);
        lemma_fundamental_div_mod_converse_div(
            (p.len() + (CHUNK_SIZE - 1) as nat) as int,
            CHUNK_SIZE as int,
            k as int + 1,
            ((rest.len() + (CHUNK_SIZE - 1) as nat) % (CHUNK_SIZE as nat)) as int,
        );
        assert(chunk_count(p.len()) == k + 1);
        assert(chunks_of(p) =~= seq![p.subrange(0, CHUNK_SIZE as int)] + chunks_of(rest));
        assert(forall|i: int|
            1 <= i < chunks_of(p).len() ==> chunks_of(p)[i] == #[trigger] chunks_of(rest)[i - 1]);
        assert(chunks_of(p).drop_first() =~= chunks_of(rest));
        assert(chunks_of(p)[0] == p.subrange(0, CHUNK_SIZE as int));
        assert(concat_bytes(chunks_of(p)) == chunks_of(p)[0] + concat_bytes(
            chunks_of(p).drop_first(),
        ));
        assert(concat_bytes(chunks_of(p)) == p.subrange(0, CHUNK_SIZE as int) + rest);
        assert(concat_bytes(chunks_of(p)) =~= p);
    }
}

/// A sequence of byte chunks whose shape matches the chunk framing — every
/// chunk full except a possibly shorter final one — is exactly what
/// `chunks_of` recovers from its own concatenation.
proof fn lemma_chunks_of_exact(outs: Seq<Seq<u8>>)
    requires
        outs.len() >= 1,
        forall|i: int|
            0 <= i < outs.len() - 1 ==> (#[trigger] outs[i]).len() == CHUNK_SIZE as nat,
        outs[outs.len() - 1].len() <= CHUNK_SIZE as nat,
        outs.len() >= 2 ==> outs[outs.len() - 1].len() >= 1,
    ensures
        chunks_of(concat_bytes(outs)) == outs,
    decreases outs.len(),
{
    let c = concat_bytes(outs);
    if outs.len() == 1 {
        lemma_concat_empty();
        assert(outs.drop_first() =~= Seq::<Seq<u8>>::empty());
        assert(c == outs[0] + concat_bytes(outs.drop_first()));
        assert(c =~= outs[0]);
        assert(chunks_of(c) =~= seq![c]);
        assert(chunks_of(c) =~= outs);
    } else {
        let rest = outs.drop_first();
        lemma_chunks_of_exact(rest);
        if rest.len() == 1 {
            lemma_concat_empty();
            assert(rest.drop_first() =~= Seq::<Seq<u8>>::empty());
            assert(concat_bytes(rest) == rest[0] + concat_bytes(rest.drop_first()));
            assert(rest[0] == outs[outs.len() - 1]);
            assert(concat_bytes(rest).len() >= 1);
        } else {
            assert(rest[0].len() == CHUNK_SIZE as nat);
            assert(concat_bytes(rest).len() >= CHUNK_SIZE as nat);
        }
        assert(outs[0].len() == CHUNK_SIZE as nat);
        assert(c == outs[0] + concat_bytes(rest));
        assert(c.len() > CHUNK_SIZE as nat);
        assert(c.subrange(0, CHUNK_SIZE as int) =~= outs[0]);
        assert(c.skip(CHUNK_SIZE as int) =~= concat_bytes(rest));
        assert(chunks_of(c) == seq![c.subrange(0, CHUNK_SIZE as int)] + chunks_of(
            c.skip(CHUNK_SIZE as int),
        ));
        assert(chunks_of(c) =~= outs);
    }
}

/// The body of a well-formed envelope has the length the framing dictates,
/// and that length passes the well-formedness test.
proof fn lemma_envelope_body_len(key: Seq<u8>, nonce_b: Seq<u8>, ads: Seq<Seq<u8>>, p: Seq<u8>)
    requires
        ads.len() == chunks_of(p).len(),
        forall|i: int|
            0 <= i < chunks_of(p).len() ==> #[trigger] good_seal(key, nonce_b, ads[i], chunks_of(p)[i]),
    ensures
        concat_bytes(records_of(key, nonce_b, ads, chunks_of(p))).len() == SEALED_OVERHEAD as nat
            * chunk_count(p.len()) + p.len(),
        wf_body_len(SEALED_OVERHEAD as nat * chunk_count(p.len()) + p.len()),
    decreases p.len(),
{
    lemma_chunks_of_shape(p);
    let recs = records_of(key, nonce_b, ads, chunks_of(p));
    if p.len() <= CHUNK_SIZE as nat {
        assert(chunks_of(p) =~= seq![p]);
        assert(recs[0] == sealed_chunk_of(key, nonce_b, ads[0], p));
        assert(good_seal(key, nonce_b, ads[0], chunks_of(p)[0]));
        assert(chunks_of(p)[0] == p);
        assert(recs[0].len() == SEALED_OVERHEAD as nat + p.len());
        lemma_concat_empty();
        assert(recs.drop_first() =~= Seq::<Seq<u8>>::empty());
        assert(concat_bytes(recs) == recs[0] + concat_bytes(recs.drop_first()));
        assert(concat_bytes(recs) =~= recs[0]);
        // well-formedness of a single record's length
        if p.len() == CHUNK_SIZE as nat {
            lemma_fundamental_div_mod_converse_mod(
                (SEALED_OVERHEAD as nat + p.len()) as int,
                CHUNK_STRIDE as int,
                1,
                0,
            );
        } else {
            lemma_fundamental_div_mod_converse_mod(
                (SEALED_OVERHEAD as nat + p.len()) as int,
                CHUNK_STRIDE as int,
                0,
                (SEALED_OVERHEAD as nat + p.len()) as int,
            );
        }
    } else {
        let rest = p.skip(CHUNK_SIZE as int);
        let ads_rest = ads.drop_first();
        lemma_chunks_of_shape(rest);
        assert(chunks_of(p) =~= seq![p.subrange(0, CHUNK_SIZE as int)] + chunks_of(rest));
        assert forall|i: int| 0 <= i < chunks_of(rest).len() implies #[trigger] good_seal(
            key,
            nonce_b,
            ads_rest[i],
            chunks_of(rest)[i],
        ) by {
            assert(chunks_of(rest)[i] == chunks_of(p)[i + 1]);
            assert(ads_rest[i] == ads[i + 1]);
            assert(good_seal(key, nonce_b, ads[i + 1], chunks_of(p)[i + 1]));
        };
        lemma_envelope_body_len(key, nonce_b, ads_rest, rest);
        let m = concat_bytes(records_of(key, nonce_b, ads_rest, chunks_of(rest))).len();
        assert(recs.drop_first() =~= records_of(key, nonce_b, ads_rest, chunks_of(rest)));
        assert(good_seal(key, nonce_b, ads[0], chunks_of(p)[0]));
        assert(chunks_of(p)[0] == p.subrange(0, CHUNK_SIZE as int));
        assert(recs[0].len() == CHUNK_STRIDE as nat);
        assert(concat_bytes(recs) == recs[0] + concat_bytes(recs.drop_first()));
        assert(concat_bytes(recs).len() == CHUNK_STRIDE as nat + m);
        // chunk_count(p.len()) == chunk_count(rest.len()) + 1, as in the shape lemma
        assert(chunks_of(p).len() == chunks_of(rest).len() + 1);
        assert(chunk_count(p.len()) == chunk_count(rest.len()) + 1);
        // adding one full stride preserves well-formedness
        let mm = m as int;
        lemma_fundamental_div_mod(mm, CHUNK_STRIDE as int);
        lemma_fundamental_div_mod_converse_mod(
            CHUNK_STRIDE as int + mm,
            CHUNK_STRIDE as int,
            mm / (CHUNK_STRIDE as int) + 1,
            mm % (CHUNK_STRIDE as int),
        );
        assert((CHUNK_STRIDE as int + mm) % (CHUNK_STRIDE as int) == mm % (CHUNK_STRIDE as int));
    }
}

/// The chunk at index `i` is the corresponding fixed-stride slice of the
/// plaintext, cut short at the plaintext's end.
proof fn lemma_chunks_of_index(p: Seq<u8>, i: int)
    requires
        0 <= i < chunks_of(p).len(),
    ensures
        chunks_of(p)[i] == p.subrange(
            CHUNK_SIZE as int * i,
            if CHUNK_SIZE as int * (i + 1) <= p.len() {
                CHUNK_SIZE as int * (i + 1)
            } else {
                p.len() as int
            },
        ),
    decreases p.len(),
{
    if p.len() <= CHUNK_SIZE as nat {
        assert(chunks_of(p) =~= seq![p]);
        assert(i == 0);
        assert(p.subrange(0, p.len() as int) =~= p);
        if CHUNK_SIZE as int <= p.len() {
            assert(p.subrange(0, CHUNK_SIZE as int) =~= p);
        }
    } else {
        if i == 0 {
            assert(chunks_of(p)[0] == p.subrange(0, CHUNK_SIZE as int));
        } else {
            let rest = p.skip(CHUNK_SIZE as int);
            lemma_chunks_of_shape(rest);
            lemma_fundamental_div_mod(
                (rest.len() + (CHUNK_SIZE - 1) as nat) as int,
                CHUNK_SIZE as int,
            );
            lemma_chunks_of_index(rest, i - 1);
            assert(chunks_of(p)[i] == chunks_of(rest)[i - 1]);
            let lo = CHUNK_SIZE as int * (i - 1);
            assert(lo < rest.len());
            let hi = if CHUNK_SIZE as int * i <= rest.len() {
                CHUNK_SIZE as int * i
            } else {
                rest.len() as int
            };
            assert(rest.subrange(lo, hi) =~= p.subrange(
                lo + CHUNK_SIZE as int,
                hi + CHUNK_SIZE as int,
            ));
            assert(CHUNK_SIZE as int * i == lo + CHUNK_SIZE as int);
            assert(CHUNK_SIZE as int * (i + 1) == CHUNK_SIZE as int * i + CHUNK_SIZE as int);
        }
    }
}

/// Encrypts a record's plaintext under a password: a fresh nonce is drawn,
/// the key is derived from password and nonce, and the plaintext is split
/// into chunks that are sealed in order behind the cleartext nonce.
///
/// Every call draws a fresh nonce and fresh per-chunk associated data, so
/// two encryptions of the same record differ; the contract therefore only
/// promises that the result is one of the envelopes of `plaintext` under
/// this password. It fails exactly when the random source fails or when the
/// password's byte encoding is rejected by the KDF.
pub fn encrypt(plaintext: Vec<u8>, password: String) -> (r: Result<Vec<u8>, CryptoError>)
    requires
        envelope_len(plaintext@.len()) <= usize::MAX as nat,
    ensures
        r is Ok ==> r->Ok_0@.len() == envelope_len(plaintext@.len()),
        r is Ok ==> password_ok(encode_utf8(password@)) && has_envelope(
            encode_utf8(password@),
            plaintext@,
            r->Ok_0@,
        ),
        !password_ok(encode_utf8(password@)) ==> r is Err,
        r is Err ==> r->Err_0 == CryptoError::RandomnessUnavailable || (r->Err_0
            == CryptoError::KeyDerivationError && !password_ok(encode_utf8(password@))),
{
    let ghost pwb = encode_utf8(password@);
    let nonce_v = match nonce() {
        Ok(v) => v,
        Err(e) => {
            return Err(e);
        },
    };
    let key = match create_key(password.as_str(), &nonce_v) {
        Ok(v) => v,
        Err(e) => {
            return Err(e);
        },
    };
    let ghost ks = key@;
    let ghost ns = nonce_v@;
    let ghost cs = chunks_of(plaintext@);
    proof {
        lemma_chunks_of_shape(plaintext@);
        lemma_concat_empty();
    }
    let mut ciphertext: Vec<u8> = Vec::new();
    append_bytes(&mut ciphertext, &nonce_v);
    let ghost mut ads: Seq<Seq<u8>> = Seq::empty();
    let ghost mut recs: Seq<Seq<u8>> = Seq::empty();
    proof {
        assert(ciphertext@ =~= ns + concat_bytes(recs));
    }
    if plaintext.len() == 0 {
        let ghost pre = ciphertext@;
        let empty_chunk: Vec<u8> = Vec::new();
        match encrypt_core(&mut ciphertext, empty_chunk, &key, &nonce_v) {
            Ok(()) => {},
            Err(e) => {
                return Err(e);
            },
        }
        proof {
            let ad = choose|ad: Seq<u8>|
                good_seal(ks, ns, ad, Seq::<u8>::empty()) && ciphertext@ == pre
                    + sealed_chunk_of(ks, ns, ad, Seq::<u8>::empty());
            ads = seq![ad];
            recs = seq![sealed_chunk_of(ks, ns, ad, Seq::<u8>::empty())];
            assert(plaintext@ =~= Seq::<u8>::empty());
            assert(cs =~= seq![Seq::<u8>::empty()]);
            assert(records_of(ks, ns, ads, cs) =~= recs);
            assert(recs.drop_first() =~= Seq::<Seq<u8>>::empty());
            assert(concat_bytes(recs) == recs[0] + concat_bytes(recs.drop_first()));
            assert(ciphertext@ =~= ns + concat_bytes(records_of(ks, ns, ads, cs)));
            assert(is_envelope_of(pwb, ns, ads, plaintext@, ciphertext@));
            assert(has_envelope(pwb, plaintext@, ciphertext@));
        }
        return Ok(ciphertext);
    }
    let mut off: usize = 0;
    while off < plaintext.len()
        invariant
            plaintext@.len() > 0,
            envelope_len(plaintext@.len()) <= usize::MAX as nat,
            key@ == ks,
            nonce_v@ == ns,
            ks.len() == 32,
            ns.len() == NONCE_SIZE as nat,
            cs == chunks_of(plaintext@),
            cs.len() == chunk_count(plaintext@.len()),
            cs.len() >= 1,
            forall|i: int|
                0 <= i < cs.len() - 1 ==> (#[trigger] cs[i]).len() == CHUNK_SIZE as nat,
            cs[cs.len() - 1].len() <= CHUNK_SIZE as nat,
            off <= plaintext@.len(),
            ads.len() == recs.len(),
            ads.len() <= cs.len(),
            ads.len() < cs.len() ==> off as int == CHUNK_SIZE as int * (ads.len() as int),
            ads.len() == cs.len() ==> off as int == plaintext@.len() as int,
            forall|j: int|
                0 <= j < recs.len() ==> #[trigger] recs[j] == sealed_chunk_of(
                    ks,
                    ns,
                    ads[j],
                    cs[j],
                ) && good_seal(ks, ns, ads[j], cs[j]),
            ciphertext@ == ns + concat_bytes(recs),
            ciphertext@.len() == NONCE_SIZE as nat + SEALED_OVERHEAD as nat * recs.len() + off,
        decreases plaintext@.len() - off,
    {
        proof {
            if ads.len() == cs.len() {
                assert(off as int == plaintext@.len() as int);
            }
            // the index of the chunk being sealed is in range
            assert(ads.len() < cs.len());
            if plaintext@.len() > 0 {
                lemma_fundamental_div_mod(
                    (plaintext@.len() + (CHUNK_SIZE - 1) as nat) as int,
                    CHUNK_SIZE as int,
                );
            }
        }
        let ghost i = ads.len() as int;
        let rem = plaintext.len() - off;
        let clen = if rem < CHUNK_SIZE {
            rem
        } else {
            CHUNK_SIZE
        };
        proof {
            lemma_chunks_of_index(plaintext@, i);
            assert(cs[i] == plaintext@.subrange(off as int, off as int + clen as int));
        }
        let chunk = subvec(&plaintext, off, off + clen);
        let ghost pre = ciphertext@;
        let ghost pre_recs = recs;
        match encrypt_core(&mut ciphertext, chunk, &key, &nonce_v) {
            Ok(()) => {},
            Err(e) => {
                return Err(e);
            },
        }
        proof {
            let ad = choose|ad: Seq<u8>|
                good_seal(ks, ns, ad, cs[i]) && ciphertext@ == pre + sealed_chunk_of(
                    ks,
                    ns,
                    ad,
                    cs[i],
                );
            ads = ads.push(ad);
            recs = recs.push(sealed_chunk_of(ks, ns, ad, cs[i]));
            lemma_concat_push(pre_recs, sealed_chunk_of(ks, ns, ad, cs[i]));
            assert(ciphertext@ =~= ns + concat_bytes(recs));
        }
        off = off + clen;
        proof {
            if ads.len() < cs.len() {
                assert(clen == CHUNK_SIZE);
            }
        }
    }
    proof {
        assert(ads.len() == cs.len());
        assert(records_of(ks, ns, ads, cs) =~= recs);
        assert(ciphertext@ == ns + concat_bytes(records_of(ks, ns, ads, cs)));
        assert forall|i2: int| 0 <= i2 < cs.len() implies #[trigger] good_seal(
            envelope_key(pwb, ns),
            ns,
            ads[i2],
            cs[i2],
        ) by {
            assert(recs[i2] == sealed_chunk_of(ks, ns, ads[i2], cs[i2]));
        };
        assert(is_envelope_of(pwb, ns, ads, plaintext@, ciphertext@));
        assert(has_envelope(pwb, plaintext@, ciphertext@));
    }
    Ok(ciphertext)
}

/// Every envelope that encryption can produce passes decryption's structural
/// checks, and its length is exactly the framed length of its plaintext:
/// the nonce, one fixed overhead per chunk, and the plaintext itself.
pub proof fn lemma_envelope_is_well_shaped(
    pw: Seq<u8>,
    nonce_b: Seq<u8>,
    ads: Seq<Seq<u8>>,
    p: Seq<u8>,
    env: Seq<u8>,
)
    requires
        is_envelope_of(pw, nonce_b, ads, p, env),
    ensures
        env.len() == envelope_len(p.len()),
        envelope_shape_ok(env),
{
    lemma_envelope_body_len(envelope_key(pw, nonce_b), nonce_b, ads, p);
}

/// Taking one full stride off a well-formed body length leaves a well-formed
/// remainder, and never leaves exactly one bare overhead behind.
proof fn lemma_wf_step(m: nat)
    requires
        wf_body_len(m),
        m > CHUNK_STRIDE as nat,
    ensures
        wf_body_len((m - CHUNK_STRIDE as nat) as nat),
        (m - CHUNK_STRIDE as nat) as nat != SEALED_OVERHEAD as nat,
{
    let mi = m as int;
    let d = CHUNK_STRIDE as int;
    lemma_fundamental_div_mod(mi, d);
    let q = mi / d;
    let r = mi % d;
    lemma_fundamental_div_mod_converse_mod(mi - d, d, q - 1, r);
    assert((mi - d) % d == r);
    if r == 0 {
        assert(q >= 2);
    }
}

/// Under the hypothesis that `env` is an envelope of `p2`, the next piece of
/// the body — one stride, or whatever remains if less — is exactly the next
/// sealed chunk record, and the remaining suffix is the remaining records.
proof fn lemma_piece_alignment(
    pwb: Seq<u8>,
    ns: Seq<u8>,
    ks: Seq<u8>,
    env: Seq<u8>,
    bod: Seq<u8>,
    ads2: Seq<Seq<u8>>,
    p2: Seq<u8>,
    i: int,
    off: int,
    plen: int,
)
    requires
        is_envelope_of(pwb, ns, ads2, p2, env),
        ks == envelope_key(pwb, ns),
        env == ns + bod,
        ns.len() == NONCE_SIZE as nat,
        0 <= off < bod.len(),
        0 <= i <= chunks_of(p2).len(),
        bod.skip(off) == concat_bytes(records_of(ks, ns, ads2, chunks_of(p2)).skip(i)),
        plen == if bod.len() - off < CHUNK_STRIDE as int {
            bod.len() - off
        } else {
            CHUNK_STRIDE as int
        },
    ensures
        i < chunks_of(p2).len(),
        plen == SEALED_OVERHEAD as int + chunks_of(p2)[i].len(),
        off + plen <= bod.len(),
        bod.subrange(off, off + plen) == records_of(ks, ns, ads2, chunks_of(p2))[i],
        bod.subrange(off, off + plen).subrange(0, AD_SIZE as int) == ads2[i],
        bod.subrange(off, off + plen).subrange(AD_SIZE as int, plen) == seal_of(
            ks,
            ns,
            ads2[i],
            chunks_of(p2)[i],
        ),
        bod.skip(off + plen) == concat_bytes(records_of(ks, ns, ads2, chunks_of(p2)).skip(i + 1)),
{
    let cs2 = chunks_of(p2);
    let rr = records_of(ks, ns, ads2, cs2);
    lemma_chunks_of_shape(p2);
    if i == cs2.len() {
        assert(rr.skip(i) =~= Seq::<Seq<u8>>::empty());
        lemma_concat_empty();
        assert(bod.skip(off).len() == 0);
        assert(false);
    }
    lemma_concat_skip(rr, i);
    assert(good_seal(envelope_key(pwb, ns), ns, ads2[i], cs2[i]));
    assert(rr[i] == sealed_chunk_of(ks, ns, ads2[i], cs2[i]));
    assert(rr[i].len() == SEALED_OVERHEAD as nat + cs2[i].len());
    if i < cs2.len() - 1 {
        assert(cs2[i].len() == CHUNK_SIZE as nat);
        assert(rr[i].len() == CHUNK_STRIDE as nat);
        lemma_concat_skip(rr, i + 1);
        assert(good_seal(envelope_key(pwb, ns), ns, ads2[i + 1], cs2[i + 1]));
        assert(rr[i + 1] == sealed_chunk_of(ks, ns, ads2[i + 1], cs2[i + 1]));
        assert(rr[i + 1].len() >= SEALED_OVERHEAD as nat);
        assert(concat_bytes(rr.skip(i + 1)).len() >= rr[i + 1].len());
        assert(concat_bytes(rr.skip(i)).len() == rr[i].len() + concat_bytes(rr.skip(i + 1)).len());
        assert(bod.skip(off).len() == bod.len() - off);
        assert(bod.len() - off >= CHUNK_STRIDE as int + SEALED_OVERHEAD as int);
        assert(plen == CHUNK_STRIDE as int);
    } else {
        assert(rr.skip(i + 1) =~= Seq::<Seq<u8>>::empty());
        lemma_concat_empty();
        assert(bod.skip(off) =~= rr[i]);
        assert(bod.len() - off == rr[i].len());
        assert(cs2[i].len() <= CHUNK_SIZE as nat);
        assert(plen == rr[i].len());
    }
    assert(bod.subrange(off, off + plen) =~= bod.skip(off).subrange(0, plen));
    assert(bod.skip(off).subrange(0, plen) =~= rr[i]);
    assert(rr[i].subrange(0, AD_SIZE as int) =~= ads2[i]);
    assert(rr[i].subrange(AD_SIZE as int, plen) =~= seal_of(ks, ns, ads2[i], cs2[i]));
    assert(bod.skip(off + plen) =~= bod.skip(off).skip(plen));
    assert(bod.skip(off).skip(plen) =~= concat_bytes(rr.skip(i + 1)));
}

/// Decrypts an envelope under a password: after the structural checks, the
/// key is re-derived from the embedded nonce and each stride of the body is
/// opened in order.
///
/// The structural checks come first, so a malformed envelope is rejected
/// before any key derivation or AEAD work. Decryption is exact in both
/// directions: a result is returned only if the input is an envelope of that
/// result under this password, and every envelope of some plaintext under
/// this password decrypts to that plaintext.
pub fn decrypt(ciphertext: Vec<u8>, password: String) -> (r: Result<Vec<u8>, CryptoError>)
    ensures
        !envelope_shape_ok(ciphertext@) <==> r == Err::<Vec<u8>, CryptoError>(
            CryptoError::MalformedEnvelope,
        ),
        (envelope_shape_ok(ciphertext@) && !password_ok(encode_utf8(password@))) <==> r == Err::<
            Vec<u8>,
            CryptoError,
        >(CryptoError::KeyDerivationError),
        r is Err ==> r->Err_0 == CryptoError::MalformedEnvelope || r->Err_0
            == CryptoError::KeyDerivationError || r->Err_0 == CryptoError::AuthenticationFailure,
        r is Ok ==> envelope_shape_ok(ciphertext@) && password_ok(encode_utf8(password@)),
        r is Ok ==> has_envelope(encode_utf8(password@), r->Ok_0@, ciphertext@),
        forall|nonce_b: Seq<u8>, ads: Seq<Seq<u8>>, p: Seq<u8>|
            password_ok(encode_utf8(password@)) && #[trigger] is_envelope_of(
                encode_utf8(password@),
                nonce_b,
                ads,
                p,
                ciphertext@,
            ) ==> r is Ok && r->Ok_0@ == p,
{
    let ghost pwb = encode_utf8(password@);
    let ghost env = ciphertext@;
    if ciphertext.len() < NONCE_SIZE {
        proof {
            assert forall|nonce_b: Seq<u8>, ads: Seq<Seq<u8>>, p: Seq<u8>|
                password_ok(pwb) && #[trigger] is_envelope_of(
                    pwb,
                    nonce_b,
                    ads,
                    p,
                    env,
                ) implies false by {
                assert(env.len() >= nonce_b.len());
            };
        }
        return Err(CryptoError::MalformedEnvelope);
    }
    let body_len = ciphertext.len() - NONCE_SIZE;
    let wf_ok = body_len == SEALED_OVERHEAD || (body_len > SEALED_OVERHEAD && (body_len
        % CHUNK_STRIDE == 0 || body_len % CHUNK_STRIDE > SEALED_OVERHEAD));
    if !wf_ok {
        proof {
            assert(!wf_body_len(body_len as nat));
            assert forall|nonce_b: Seq<u8>, ads: Seq<Seq<u8>>, p: Seq<u8>|
                password_ok(pwb) && #[trigger] is_envelope_of(
                    pwb,
                    nonce_b,
                    ads,
                    p,
                    env,
                ) implies false by {
                lemma_envelope_body_len(envelope_key(pwb, nonce_b), nonce_b, ads, p);
                assert(env.len() == NONCE_SIZE as nat + (SEALED_OVERHEAD as nat * chunk_count(
                    p.len(),
                ) + p.len()));
                assert(wf_body_len(body_len as nat));
            };
        }
        return Err(CryptoError::MalformedEnvelope);
    }
    let nonce_v = subvec(&ciphertext, 0, NONCE_SIZE);
    let key = match create_key(password.as_str(), &nonce_v) {
        Ok(v) => v,
        Err(e) => {
            return Err(e);
        },
    };
    let ghost ks = key@;
    let ghost ns = nonce_v@;
    let body = subvec(&ciphertext, NONCE_SIZE, ciphertext.len());
    let ghost bod = body@;
    let mut plaintext: Vec<u8> = Vec::new();
    let ghost mut ads: Seq<Seq<u8>> = Seq::empty();
    let ghost mut outs: Seq<Seq<u8>> = Seq::empty();
    let ghost mut recs: Seq<Seq<u8>> = Seq::empty();
    proof {
        lemma_concat_empty();
        assert(env =~= ns + bod);
        assert(bod.subrange(0, 0) =~= Seq::<u8>::empty());
        assert(bod.subrange(0, 0) == concat_bytes(recs));
        assert(plaintext@ =~= concat_bytes(outs));
        assert forall|ads2: Seq<Seq<u8>>, p2: Seq<u8>| #[trigger] is_envelope_of(
            pwb,
            ns,
            ads2,
            p2,
            env,
        ) implies outs == chunks_of(p2).take(outs.len() as int) && outs.len() <= chunks_of(
            p2,
        ).len() && bod.skip(0) == concat_bytes(
            records_of(ks, ns, ads2, chunks_of(p2)).skip(outs.len() as int),
        ) by {
            assert(outs =~= chunks_of(p2).take(0));
            let rr = records_of(envelope_key(pwb, ns), ns, ads2, chunks_of(p2));
            assert(env.skip(NONCE_SIZE as int) =~= concat_bytes(rr));
            assert(bod =~= env.skip(NONCE_SIZE as int));
            assert(rr.skip(0) =~= rr);
            assert(bod.skip(0) =~= bod);
        };
    }
    let mut off: usize = 0;
    while off < body.len()
        invariant
            ciphertext@ == env,
            key@ == ks,
            nonce_v@ == ns,
            body@ == bod,
            ks.len() == KEY_SIZE as nat,
            ns.len() == NONCE_SIZE as nat,
            env == ns + bod,
            ks == envelope_key(pwb, ns),
            pwb == encode_utf8(password@),
            password_ok(pwb),
            wf_body_len(bod.len()),
            off <= bod.len(),
            off < bod.len() ==> wf_body_len((bod.len() - off) as nat),
            off < bod.len() && off > 0 ==> bod.len() - off != SEALED_OVERHEAD as nat,
            ads.len() == recs.len(),
            outs.len() == recs.len(),
            plaintext@ == concat_bytes(outs),
            plaintext@.len() + SEALED_OVERHEAD as nat * recs.len() == off,
            bod.subrange(0, off as int) == concat_bytes(recs),
            forall|j: int|
                0 <= j < recs.len() ==> #[trigger] recs[j] == sealed_chunk_of(
                    ks,
                    ns,
                    ads[j],
                    outs[j],
                ) && good_seal(ks, ns, ads[j], outs[j]),
            forall|j: int|
                0 <= j < recs.len() ==> SEALED_OVERHEAD as nat <= (#[trigger] recs[j]).len()
                    <= CHUNK_STRIDE as nat,
            forall|j: int|
                0 <= j < recs.len() - 1 ==> (#[trigger] recs[j]).len() == CHUNK_STRIDE as nat,
            off < bod.len() && recs.len() > 0 ==> recs[recs.len() - 1].len()
                == CHUNK_STRIDE as nat,
            recs.len() >= 2 ==> recs[recs.len() - 1].len() > SEALED_OVERHEAD as nat,
            forall|ads2: Seq<Seq<u8>>, p2: Seq<u8>| #[trigger] is_envelope_of(
                pwb,
                ns,
                ads2,
                p2,
                env,
            ) ==> outs == chunks_of(p2).take(outs.len() as int) && outs.len() <= chunks_of(
                p2,
            ).len() && bod.skip(off as int) == concat_bytes(
                records_of(ks, ns, ads2, chunks_of(p2)).skip(outs.len() as int),
            ),
        decreases bod.len() - off,
    {
        let rem = body.len() - off;
        let plen = if rem < CHUNK_STRIDE {
            rem
        } else {
            CHUNK_STRIDE
        };
        let piece = subvec(&body, off, off + plen);
        let ghost pre_pt = plaintext@;
        let ghost i = recs.len() as int;
        proof {
            assert(plen >= SEALED_OVERHEAD);
        }
        match decrypt_core(&mut plaintext, piece, &key, &nonce_v) {
            Ok(()) => {},
            Err(_) => {
                proof {
                    assert(envelope_shape_ok(env));
                    assert forall|nonce_b: Seq<u8>, ads2: Seq<Seq<u8>>, p2: Seq<u8>|
                        password_ok(pwb) && #[trigger] is_envelope_of(
                            pwb,
                            nonce_b,
                            ads2,
                            p2,
                            env,
                        ) implies false by {
                        assert(nonce_b =~= env.subrange(0, NONCE_SIZE as int));
                        assert(ns == env.subrange(0, NONCE_SIZE as int));
                        assert(is_envelope_of(pwb, ns, ads2, p2, env));
                        lemma_piece_alignment(
                            pwb,
                            ns,
                            ks,
                            env,
                            bod,
                            ads2,
                            p2,
                            i,
                            off as int,
                            plen as int,
                        );
                        let cs2 = chunks_of(p2);
                        assert(piece@.subrange(AD_SIZE as int, plen as int) == seal_of(
                            ks,
                            ns,
                            piece@.subrange(0, AD_SIZE as int),
                            cs2[i],
                        ));
                    };
                }
                return Err(CryptoError::AuthenticationFailure);
            },
        }
        proof {
            let out = plaintext@.subrange(pre_pt.len() as int, plaintext@.len() as int);
            let ghost pre_recs = recs;
            let ghost pre_outs = outs;
            ads = ads.push(piece@.subrange(0, AD_SIZE as int));
            outs = outs.push(out);
            recs = recs.push(piece@);
            lemma_concat_push(pre_recs, piece@);
            lemma_concat_push(pre_outs, out);
            assert(plaintext@ =~= pre_pt + out);
            assert(plaintext@ == concat_bytes(outs));
            assert(bod.subrange(0, off as int + plen as int) =~= bod.subrange(0, off as int)
                + piece@);
            assert forall|ads2: Seq<Seq<u8>>, p2: Seq<u8>| #[trigger] is_envelope_of(
                pwb,
                ns,
                ads2,
                p2,
                env,
            ) implies outs == chunks_of(p2).take(outs.len() as int) && outs.len() <= chunks_of(
                p2,
            ).len() && bod.skip(off as int + plen as int) == concat_bytes(
                records_of(ks, ns, ads2, chunks_of(p2)).skip(outs.len() as int),
            ) by {
                lemma_piece_alignment(
                    pwb,
                    ns,
                    ks,
                    env,
                    bod,
                    ads2,
                    p2,
                    i,
                    off as int,
                    plen as int,
                );
                let cs2 = chunks_of(p2);
                assert(piece@.subrange(AD_SIZE as int, plen as int) == seal_of(
                    ks,
                    ns,
                    piece@.subrange(0, AD_SIZE as int),
                    cs2[i],
                ));
                assert(plaintext@ == pre_pt + cs2[i]);
                assert(out =~= cs2[i]);
                assert(cs2.take(i + 1) =~= cs2.take(i).push(cs2[i]));
                assert(outs =~= cs2.take(i + 1));
            };
        }
        off = off + plen;
        proof {
            if off < bod.len() {
                lemma_wf_step((bod.len() - off + CHUNK_STRIDE as nat) as nat);
            }
        }
    }
    proof {
        assert(off == bod.len());
        assert(bod.subrange(0, bod.len() as int) =~= bod);
        assert(bod == concat_bytes(recs));
        if recs.len() == 0 {
            assert(outs =~= Seq::<Seq<u8>>::empty());
            lemma_concat_empty();
            assert(bod.len() == 0);
            assert(false);
        }
        assert forall|j: int| 0 <= j < outs.len() - 1 implies (#[trigger] outs[j]).len()
            == CHUNK_SIZE as nat by {
            assert(recs[j] == sealed_chunk_of(ks, ns, ads[j], outs[j]));
            assert(good_seal(ks, ns, ads[j], outs[j]));
            assert(recs[j].len() == CHUNK_STRIDE as nat);
        };
        assert(recs[recs.len() - 1] == sealed_chunk_of(ks, ns, ads[recs.len() - 1], outs[outs.len()
            - 1]));
        assert(good_seal(ks, ns, ads[recs.len() - 1], outs[outs.len() - 1]));
        assert(outs[outs.len() - 1].len() <= CHUNK_SIZE as nat);
        if outs.len() >= 2 {
            assert(recs[recs.len() - 1].len() > SEALED_OVERHEAD as nat);
            assert(outs[outs.len() - 1].len() >= 1);
        }
        lemma_chunks_of_exact(outs);
        assert(chunks_of(plaintext@) == outs);
        assert forall|i2: int| 0 <= i2 < chunks_of(plaintext@).len() implies #[trigger] good_seal(
            envelope_key(pwb, ns),
            ns,
            ads[i2],
            chunks_of(plaintext@)[i2],
        ) by {
            assert(recs[i2] == sealed_chunk_of(ks, ns, ads[i2], outs[i2]));
            assert(good_seal(ks, ns, ads[i2], outs[i2]));
        };
        assert(records_of(ks, ns, ads, chunks_of(plaintext@)) =~= recs);
        assert(env == ns + concat_bytes(
            records_of(envelope_key(pwb, ns), ns, ads, chunks_of(plaintext@)),
        ));
        assert(is_envelope_of(pwb, ns, ads, plaintext@, env));
        assert(has_envelope(pwb, plaintext@, env));
        assert forall|nonce_b: Seq<u8>, ads2: Seq<Seq<u8>>, p2: Seq<u8>|
            password_ok(pwb) && #[trigger] is_envelope_of(
                pwb,
                nonce_b,
                ads2,
                p2,
                env,
            ) implies plaintext@ == p2 by {
            assert(nonce_b =~= env.subrange(0, NONCE_SIZE as int));
            assert(ns == env.subrange(0, NONCE_SIZE as int));
            assert(is_envelope_of(pwb, ns, ads2, p2, env));
            let cs2 = chunks_of(p2);
            let rr = records_of(ks, ns, ads2, cs2);
            lemma_chunks_of_shape(p2);
            if outs.len() < cs2.len() {
                lemma_concat_skip(rr, outs.len() as int);
                assert(good_seal(envelope_key(pwb, ns), ns, ads2[outs.len() as int], cs2[outs.len() as int]));
                assert(rr[outs.len() as int] == sealed_chunk_of(
                    ks,
                    ns,
                    ads2[outs.len() as int],
                    cs2[outs.len() as int],
                ));
                assert(concat_bytes(rr.skip(outs.len() as int)).len() >= rr[outs.len() as int].len());
                assert(bod.skip(off as int).len() == 0);
                assert(false);
            }
            assert(outs == cs2.take(cs2.len() as int));
            assert(cs2.take(cs2.len() as int) =~= cs2);
            assert(plaintext@ == concat_bytes(cs2));
        };
    }
    Ok(plaintext)
}

} // verus!
