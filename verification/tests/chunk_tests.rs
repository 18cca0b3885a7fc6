use bearcrypto::chunk::{decrypt_core, encrypt_core, simple_split_encrypted};
use bearcrypto::errors::CryptoError;
use bearcrypto::kdf::create_key;
use bearcrypto::random::{auth_tag, nonce};

#[test]
fn nonce_and_auth_tag_lengths() {
    assert_eq!(nonce().unwrap().len(), 24);
    assert_eq!(auth_tag().unwrap().len(), 32);
}

#[test]
fn fresh_randomness_differs() {
    assert_ne!(nonce().unwrap(), nonce().unwrap());
    assert_ne!(auth_tag().unwrap(), auth_tag().unwrap());
}

#[test]
fn key_derivation_is_deterministic() {
    let salt = vec![7u8; 24];
    let k1 = create_key("secret", &salt).unwrap();
    let k2 = create_key("secret", &salt).unwrap();
    assert_eq!(k1, k2);
    assert_eq!(k1.len(), 32);
}

#[test]
fn key_depends_on_password_and_salt() {
    let salt = vec![7u8; 24];
    let other_salt = vec![8u8; 24];
    let k = create_key("secret", &salt).unwrap();
    assert_ne!(k, create_key("terces", &salt).unwrap());
    assert_ne!(k, create_key("secret", &other_salt).unwrap());
    // the key is really derived, not the password bytes handed back
    let k32 = create_key("0123456789abcdef0123456789abcdef", &salt).unwrap();
    assert_ne!(k32, b"0123456789abcdef0123456789abcdef".to_vec());
}

#[test]
fn empty_password_gives_key_derivation_error() {
    let salt = vec![7u8; 24];
    assert_eq!(create_key("", &salt).unwrap_err(), CryptoError::KeyDerivationError);
}

#[test]
fn chunk_seal_open_round_trip() {
    let salt = vec![9u8; 24];
    let key = create_key("pw", &salt).unwrap();
    let contents: Vec<u8> = (0u8..100).collect();

    let mut sealed: Vec<u8> = Vec::new();
    encrypt_core(&mut sealed, contents.clone(), &key, &salt).unwrap();
    assert_eq!(sealed.len(), 100 + 48);
    // the ciphertext part is encrypted, not the plaintext handed back
    assert_ne!(&sealed[32..132], contents.as_slice());

    let mut opened: Vec<u8> = Vec::new();
    decrypt_core(&mut opened, sealed, &key, &salt).unwrap();
    assert_eq!(opened, contents);
}

#[test]
fn empty_chunk_seals_to_bare_overhead() {
    let salt = vec![9u8; 24];
    let key = create_key("pw", &salt).unwrap();
    let mut sealed: Vec<u8> = Vec::new();
    encrypt_core(&mut sealed, Vec::new(), &key, &salt).unwrap();
    assert_eq!(sealed.len(), 48);
    let mut opened: Vec<u8> = Vec::new();
    decrypt_core(&mut opened, sealed, &key, &salt).unwrap();
    assert!(opened.is_empty());
}

#[test]
fn short_chunk_record_is_malformed() {
    let salt = vec![9u8; 24];
    let key = create_key("pw", &salt).unwrap();
    let mut out: Vec<u8> = Vec::new();
    let e = decrypt_core(&mut out, vec![0u8; 47], &key, &salt).unwrap_err();
    assert_eq!(e, CryptoError::MalformedChunk);
    assert!(out.is_empty());
}

#[test]
fn tampered_chunk_fails_to_open() {
    let salt = vec![9u8; 24];
    let key = create_key("pw", &salt).unwrap();
    let mut sealed: Vec<u8> = Vec::new();
    encrypt_core(&mut sealed, vec![1u8; 64], &key, &salt).unwrap();
    let last = sealed.len() - 1;
    sealed[last] ^= 0x80;
    let mut out: Vec<u8> = Vec::new();
    let e = decrypt_core(&mut out, sealed, &key, &salt).unwrap_err();
    assert_eq!(e, CryptoError::AuthenticationFailure);
}

#[test]
fn split_separates_associated_data() {
    let record: Vec<u8> = (0u8..80).collect();
    let (ad, rest) = simple_split_encrypted(&record);
    assert_eq!(ad, (0u8..32).collect::<Vec<u8>>());
    assert_eq!(rest, (32u8..80).collect::<Vec<u8>>());
}
