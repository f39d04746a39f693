//! Key derivation, nonces and packet encryption of a band.
use telesthete::crypto::{
    build_aad, decrypt, derive_band_id, derive_cipher_key, derive_key, encrypt, nonce_from_seq,
    select_cipher, CryptoError, BAND_ID_LEN, TAG_LEN,
};

const TEST_PSK: &[u8] = b"my-secret-key";

fn hex(bytes: &[u8]) -> String {
    bytes.iter().map(|b| format!("{b:02x}")).collect()
}

#[test]
fn band_id_deterministic() {
    let a = derive_band_id(TEST_PSK);
    let b = derive_band_id(TEST_PSK);
    assert_eq!(a, b);
    assert_ne!(a, derive_band_id(b"different-psk"));
}

#[test]
fn key_deterministic_and_different_from_band_id() {
    let key = derive_key(TEST_PSK);
    let id = derive_band_id(TEST_PSK);
    assert_eq!(key, derive_key(TEST_PSK));
    assert_ne!(&key[..BAND_ID_LEN], &id[..]);
}

#[test]
fn crypto_round_trip() {
    let key = derive_key(TEST_PSK);
    let aad = build_aad(0x01, 0xBEEF);
    let plaintext = b"hello world".as_slice();
    let ct = encrypt(&key, 1, &aad, plaintext).unwrap();
    assert_eq!(ct.len(), plaintext.len() + TAG_LEN);
    let pt = decrypt(&key, 1, &aad, &ct).unwrap();
    assert_eq!(pt, plaintext);
}

#[test]
fn wrong_seq_fails() {
    let key = derive_key(TEST_PSK);
    let aad = build_aad(0x01, 0);
    let ct = encrypt(&key, 1, &aad, b"abc").unwrap();
    assert!(decrypt(&key, 2, &aad, &ct).is_err());
}

#[test]
fn wrong_aad_fails() {
    let key = derive_key(TEST_PSK);
    let aad = build_aad(0x01, 0);
    let ct = encrypt(&key, 1, &aad, b"abc").unwrap();
    let bad_aad = build_aad(0x02, 0);
    assert!(decrypt(&key, 1, &bad_aad, &ct).is_err());
}

#[test]
fn wrong_key_fails() {
    let key_a = derive_key(b"psk-a");
    let key_b = derive_key(b"psk-b");
    let aad = build_aad(0x01, 0);
    let ct = encrypt(&key_a, 1, &aad, b"abc").unwrap();
    assert!(decrypt(&key_b, 1, &aad, &ct).is_err());
}

#[test]
fn band_id_is_a_truncated_sha256() {
    assert_eq!(hex(&derive_band_id(TEST_PSK)), "1311f8fc80a7ea28d78dd7723f09c44c");
    assert_eq!(hex(&derive_band_id(b"abc")), "ba7816bf8f01cfea414140de5dae2223");
}

#[test]
fn keys_are_derived_per_cipher() {
    assert_eq!(
        hex(&derive_key(TEST_PSK)),
        "41479097aa2af7bfa783a1fad06296fc0f447d2f5381e592f47a25bab934aa03"
    );
    assert_eq!(
        hex(&derive_cipher_key(TEST_PSK, "aes256-gcm")),
        "e447605d76773f59621cfc28175c199348a4c775fc248efc17a09bc74046ee23"
    );
    assert_eq!(derive_key(TEST_PSK), derive_cipher_key(TEST_PSK, "chacha20-poly1305"));
}

#[test]
fn ciphertext_is_chacha20_poly1305_under_the_sequence_nonce() {
    let key = derive_key(TEST_PSK);
    let ct = encrypt(&key, 1, &build_aad(0x01, 0xBEEF), b"hello world").unwrap();
    assert_eq!(hex(&ct), "2f8ea80152071cf7ea6019bef5c0917183d95e5a16901256b9479a");
}

#[test]
fn nonce_and_aad_layout() {
    assert_eq!(nonce_from_seq(0x0102030405060708), [0, 0, 0, 0, 1, 2, 3, 4, 5, 6, 7, 8]);
    assert_ne!(nonce_from_seq(1), nonce_from_seq(2));
    assert_eq!(build_aad(3, 0xBEEF), [3, 0xBE, 0xEF]);
    assert_ne!(build_aad(3, 1), build_aad(3, 2));
}

#[test]
fn truncated_ciphertext_is_an_error() {
    let key = derive_key(TEST_PSK);
    assert_eq!(decrypt(&key, 1, &build_aad(0, 0), &[0u8; 15]), Err(CryptoError::Decrypt));
}

#[test]
fn agreed_cipher_is_spoken_by_both() {
    let aes = "aes256-gcm".to_string();
    let other = "other".to_string();
    assert_eq!(select_cipher(&[other.clone(), aes.clone()], &[aes.clone()]), aes);
    assert_eq!(select_cipher(&[], &[]), "chacha20-poly1305");
}
