use ya_ok_core::crypto::{Crypto, CryptoError, EncryptedPayload, SymmetricKey};

#[test]
fn payload_round_trips_between_two_key_pairs() {
    let (a_secret, a_public) = Crypto::generate_ephemeral_keypair();
    let (b_secret, b_public) = Crypto::generate_ephemeral_keypair();
    let plain = b"the serialised message".to_vec();
    let sealed = Crypto::encrypt_payload(&a_secret, &a_public, &b_public, &plain).unwrap();
    assert_eq!(sealed.nonce.len(), 24);
    assert_eq!(sealed.sender_public_key, a_public.to_vec());
    assert_eq!(sealed.ciphertext.len(), plain.len() + 16);
    assert_ne!(&sealed.ciphertext[..plain.len()], &plain[..]);
    let opened = Crypto::decrypt_payload(&b_secret, &a_public, &sealed).unwrap();
    assert_eq!(opened, plain);
}

#[test]
fn both_sides_share_one_secret() {
    let (a_secret, a_public) = Crypto::generate_ephemeral_keypair();
    let (b_secret, b_public) = Crypto::generate_ephemeral_keypair();
    let ab = Crypto::compute_shared_secret(&a_secret, &b_public);
    let ba = Crypto::compute_shared_secret(&b_secret, &a_public);
    assert_eq!(ab.as_bytes(), ba.as_bytes());
    assert_ne!(ab.as_bytes(), &a_secret);
}

#[test]
fn public_key_is_that_of_rfc_7748() {
    let secret: [u8; 32] = [
        0x77, 0x07, 0x6d, 0x0a, 0x73, 0x18, 0xa5, 0x7d, 0x3c, 0x16, 0xc1, 0x72, 0x51, 0xb2, 0x66,
        0x45, 0xdf, 0x4c, 0x2f, 0x87, 0xeb, 0xc0, 0x99, 0x2a, 0xb1, 0x77, 0xfb, 0xa5, 0x1d, 0xb9,
        0x2c, 0x2a,
    ];
    let public = Crypto::public_key_of(&secret);
    assert_eq!(
        hex::encode(public),
        "8520f0098930a754748b7ddcb43ef75a0dbf3a0d26381af4eba4a98eaa9b4e6a"
    );
    let bob_public: [u8; 32] = [
        0xde, 0x9e, 0xdb, 0x7d, 0x7b, 0x7d, 0xc1, 0xb4, 0xd3, 0x5b, 0x61, 0xc2, 0xec, 0xe4, 0x35,
        0x37, 0x3f, 0x83, 0x43, 0xc8, 0x5b, 0x78, 0x67, 0x4d, 0xad, 0xfc, 0x7e, 0x14, 0x6f, 0x88,
        0x2b, 0x4f,
    ];
    let shared = Crypto::compute_shared_secret(&secret, &bob_public);
    assert_eq!(
        hex::encode(shared.as_bytes()),
        "4a5d9d5ba4ce2de1728e3bf480350f25e07e21c947d19e3376f09b3c1e161742"
    );
}

#[test]
fn wrong_receiver_cannot_decrypt() {
    let (a_secret, a_public) = Crypto::generate_ephemeral_keypair();
    let (_b_secret, b_public) = Crypto::generate_ephemeral_keypair();
    let (c_secret, _c_public) = Crypto::generate_ephemeral_keypair();
    let sealed = Crypto::encrypt_payload(&a_secret, &a_public, &b_public, b"secret").unwrap();
    let r = Crypto::decrypt_payload(&c_secret, &a_public, &sealed);
    assert_eq!(r, Err(CryptoError::DecryptionFailed));
}

#[test]
fn nonce_of_the_wrong_length_is_refused() {
    let (a_secret, a_public) = Crypto::generate_ephemeral_keypair();
    let sealed = EncryptedPayload {
        ciphertext: vec![0u8; 32],
        nonce: vec![0u8; 12],
        sender_public_key: a_public.to_vec(),
    };
    let r = Crypto::decrypt_payload(&a_secret, &a_public, &sealed);
    assert_eq!(r, Err(CryptoError::InvalidNonce));
}

#[test]
fn flipped_bit_of_the_ciphertext_is_detected() {
    let key = SymmetricKey::from([3u8; 32]);
    let sealed = Crypto::encrypt_symmetric(&key, b"hello").unwrap();
    let opened = Crypto::decrypt_symmetric(&key, &sealed.ciphertext, &sealed.nonce).unwrap();
    assert_eq!(opened, b"hello".to_vec());
    let mut bad = sealed.ciphertext.clone();
    bad[0] ^= 1;
    let r = Crypto::decrypt_symmetric(&key, &bad, &sealed.nonce);
    assert_eq!(r, Err(CryptoError::DecryptionFailed));
}

#[test]
fn given_nonce_gives_one_ciphertext() {
    let key = SymmetricKey::from([1u8; 32]);
    let a = Crypto::encrypt_with_nonce(&key, [2u8; 24], b"same").unwrap();
    let b = Crypto::encrypt_with_nonce(&key, [2u8; 24], b"same").unwrap();
    let c = Crypto::encrypt_with_nonce(&key, [3u8; 24], b"same").unwrap();
    assert_eq!(a.ciphertext, b.ciphertext);
    assert_ne!(a.ciphertext, c.ciphertext);
    assert_eq!(a.nonce, [2u8; 24]);
}

#[test]
fn fresh_nonces_differ() {
    let key = SymmetricKey::from([1u8; 32]);
    let a = Crypto::encrypt_symmetric(&key, b"same").unwrap();
    let b = Crypto::encrypt_symmetric(&key, b"same").unwrap();
    assert_ne!(a.nonce, b.nonce);
}

#[test]
fn wiped_key_is_all_zero() {
    let mut key = SymmetricKey::from([9u8; 32]);
    key.wipe();
    assert_eq!(key.as_bytes(), &[0u8; 32]);
}

#[test]
fn errors_have_their_words() {
    assert_eq!(CryptoError::InvalidKey.to_string(), "Invalid key");
    assert_eq!(CryptoError::EncryptionFailed.to_string(), "Encryption failed");
    assert_eq!(CryptoError::DecryptionFailed.to_string(), "Decryption failed");
    assert_eq!(CryptoError::InvalidNonce.to_string(), "Invalid nonce");
}
