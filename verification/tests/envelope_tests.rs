use bearcrypto::envelope::{decrypt, encrypt};
use bearcrypto::errors::CryptoError;

fn sample(len: usize) -> Vec<u8> {
    let mut v = Vec::with_capacity(len);
    for i in 0..len {
        v.push((i % 251) as u8);
    }
    v
}

#[test]
fn round_trip_small() {
    for len in [1usize, 2, 16, 100, 127] {
        let p = sample(len);
        let c = encrypt(p.clone(), String::from("correct horse")).unwrap();
        assert_eq!(c.len(), 24 + 48 + len);
        let d = decrypt(c, String::from("correct horse")).unwrap();
        assert_eq!(d, p);
    }
}

#[test]
fn round_trip_multi_chunk() {
    for len in [129usize, 255, 256, 257, 300, 1000] {
        let p = sample(len);
        let c = encrypt(p.clone(), String::from("pw")).unwrap();
        let d = decrypt(c, String::from("pw")).unwrap();
        assert_eq!(d, p);
    }
}

#[test]
fn boundary_sizes() {
    // empty plaintext: exactly one sealed chunk carrying zero plaintext bytes
    let c0 = encrypt(Vec::new(), String::from("pw")).unwrap();
    assert_eq!(c0.len(), 24 + 48);
    let d0 = decrypt(c0, String::from("pw")).unwrap();
    assert_eq!(d0, Vec::<u8>::new());

    // exactly one full chunk
    let c1 = encrypt(sample(128), String::from("pw")).unwrap();
    assert_eq!(c1.len(), 24 + 48 + 128);
    assert_eq!(decrypt(c1, String::from("pw")).unwrap(), sample(128));

    // one full chunk plus a one-byte chunk
    let c2 = encrypt(sample(129), String::from("pw")).unwrap();
    assert_eq!(c2.len(), 24 + 2 * 48 + 129);
    assert_eq!(decrypt(c2, String::from("pw")).unwrap(), sample(129));
}

#[test]
fn wrong_password_fails_closed() {
    let p = sample(64);
    let c = encrypt(p, String::from("right")).unwrap();
    let e = decrypt(c, String::from("wrong")).unwrap_err();
    assert_eq!(e, CryptoError::AuthenticationFailure);
}

#[test]
fn tamper_detection() {
    let p = sample(300);
    let c = encrypt(p, String::from("pw")).unwrap();
    // flip one bit at assorted positions in the body (never the nonce)
    let positions = [24, 25, 55, 56, 150, 199, 200, 250, c.len() - 1];
    for &pos in positions.iter() {
        for bit in [0u8, 3, 7] {
            let mut t = c.clone();
            t[pos] ^= 1u8 << bit;
            let e = decrypt(t, String::from("pw")).unwrap_err();
            assert_eq!(e, CryptoError::AuthenticationFailure);
        }
    }
}

#[test]
fn tampered_nonce_fails() {
    let p = sample(40);
    let c = encrypt(p, String::from("pw")).unwrap();
    let mut t = c.clone();
    t[0] ^= 1;
    // a different nonce derives a different key, so the tag cannot verify
    let e = decrypt(t, String::from("pw")).unwrap_err();
    assert_eq!(e, CryptoError::AuthenticationFailure);
}

#[test]
fn ciphertext_is_nondeterministic() {
    let p = sample(50);
    let c1 = encrypt(p.clone(), String::from("pw")).unwrap();
    let c2 = encrypt(p.clone(), String::from("pw")).unwrap();
    assert_ne!(c1, c2);
    assert_eq!(decrypt(c1, String::from("pw")).unwrap(), p);
    assert_eq!(decrypt(c2, String::from("pw")).unwrap(), p);
}

#[test]
fn malformed_envelope_rejected() {
    // shorter than the nonce
    for len in [0usize, 1, 23] {
        let e = decrypt(vec![0u8; len], String::from("pw")).unwrap_err();
        assert_eq!(e, CryptoError::MalformedEnvelope);
    }
    // nonce present but body lengths the framing cannot produce
    for body in [0usize, 1, 30, 47, 177, 176 + 48, 176 + 47] {
        let e = decrypt(vec![0u8; 24 + body], String::from("pw")).unwrap_err();
        assert_eq!(e, CryptoError::MalformedEnvelope);
    }
}

#[test]
fn trailing_garbage_rejected() {
    // a valid envelope with one full stride of garbage after a short final
    // record has a body length the framing cannot produce
    let c = encrypt(Vec::new(), String::from("pw")).unwrap();
    assert_eq!(c.len(), 72);
    let mut t = c.clone();
    t.extend(vec![0u8; 176]);
    let e = decrypt(t, String::from("pw")).unwrap_err();
    assert_eq!(e, CryptoError::MalformedEnvelope);
}

#[test]
fn concrete_scenario() {
    let plaintext: Vec<u8> = b"username: a\npw:b".to_vec();
    assert_eq!(plaintext.len(), 16);
    let c = encrypt(plaintext.clone(), String::from("hunter2")).unwrap();
    assert_eq!(c.len(), 24 + 48 + 16);
    assert_eq!(c.len(), 88);
    let d = decrypt(c.clone(), String::from("hunter2")).unwrap();
    assert_eq!(d, plaintext);
    assert!(decrypt(c, String::from("wrong")).is_err());
}

#[test]
fn empty_password_rejected() {
    let e = encrypt(sample(10), String::from("")).unwrap_err();
    assert_eq!(e, CryptoError::KeyDerivationError);
    let c = encrypt(sample(10), String::from("pw")).unwrap();
    let e2 = decrypt(c, String::from("")).unwrap_err();
    assert_eq!(e2, CryptoError::KeyDerivationError);
}
