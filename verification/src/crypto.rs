//! Cryptographic operations: X25519 key agreement and authenticated
//! encryption with XChaCha20-Poly1305 under a random 192-bit nonce.
//!
//! The primitives are those of the `x25519-dalek`, `chacha20poly1305` and
//! `rand` crates. What they compute is named here, not restated; the
//! functions of this module are proved against those names.

use crate::wire::{array_from_slice, array_to_vec, clone_bytes};
use chacha20poly1305::aead::Aead;
use chacha20poly1305::aead::KeyInit;
use chacha20poly1305::XChaCha20Poly1305;
use chacha20poly1305::XNonce;
use rand::rngs::OsRng;
use rand::RngCore;
use vstd::prelude::*;
use zeroize::Zeroize;

verus! {

/// Bytes of a key, symmetric or X25519.
pub const KEY_LEN: usize = 32;

/// Bytes of a nonce.
pub const NONCE_LEN: usize = 24;

/// An encrypted payload with what the receiver needs to open it.
#[derive(Debug)]
pub struct EncryptedPayload {
    /// The ciphertext with its authentication tag.
    pub ciphertext: Vec<u8>,
    /// The nonce, 24 bytes.
    pub nonce: Vec<u8>,
    /// The X25519 public key of the sender, 32 bytes.
    pub sender_public_key: Vec<u8>,
}

/// An encrypted payload as a mathematical value.
pub struct EncryptedPayloadView {
    pub ciphertext: Seq<u8>,
    pub nonce: Seq<u8>,
    pub sender_public_key: Seq<u8>,
}

impl View for EncryptedPayload {
    type V = EncryptedPayloadView;

    open spec fn view(&self) -> EncryptedPayloadView {
        EncryptedPayloadView {
            ciphertext: self.ciphertext@,
            nonce: self.nonce@,
            sender_public_key: self.sender_public_key@,
        }
    }
}

impl Clone for EncryptedPayload {
    fn clone(&self) -> (r: Self)
        ensures
            r@ == self@,
    {
        EncryptedPayload {
            ciphertext: clone_bytes(&self.ciphertext),
            nonce: clone_bytes(&self.nonce),
            sender_public_key: clone_bytes(&self.sender_public_key),
        }
    }
}

/// What symmetric encryption gives: the ciphertext and the nonce drawn
/// for it.
pub struct SymmetricEncryption {
    pub ciphertext: Vec<u8>,
    pub nonce: [u8; 24],
}

/// A key for symmetric encryption.
pub struct SymmetricKey(pub [u8; 32]);

impl SymmetricKey {
    /// The bytes of the key.
    pub fn as_bytes(&self) -> (r: &[u8; 32])
        ensures
            *r == self.0,
    {
        &self.0
    }

    /// The key that `bytes` hold.
    pub fn from(bytes: [u8; 32]) -> (k: SymmetricKey)
        ensures
            k.0 == bytes,
    {
        SymmetricKey(bytes)
    }

    /// Overwrites the key with zeros.
    pub fn wipe(&mut self)
        ensures
            forall|i: int| 0 <= i < 32 ==> final(self).0@[i] == 0,
    {
        let mut bytes = self.0;
        wipe_outside(&mut bytes);
        self.0 = bytes;
    }
}

/// Why a cryptographic operation failed.
#[derive(Clone, Copy, Debug, PartialEq, Eq, Structural)]
pub enum CryptoError {
    /// A key is missing or of the wrong length.
    InvalidKey,
    /// The cipher refused to encrypt.
    EncryptionFailed,
    /// The ciphertext was not made under this key and nonce.
    DecryptionFailed,
    /// The nonce is not of 24 bytes.
    InvalidNonce,
}

impl CryptoError {
    /// The error in words.
    pub open spec fn words(self) -> Seq<char> {
        match self {
            CryptoError::InvalidKey => "Invalid key"@,
            CryptoError::EncryptionFailed => "Encryption failed"@,
            CryptoError::DecryptionFailed => "Decryption failed"@,
            CryptoError::InvalidNonce => "Invalid nonce"@,
        }
    }

    /// The error in words, as a text.
    pub fn to_string(&self) -> (r: String)
        ensures
            r@ == self.words(),
    {
        match self {
            CryptoError::InvalidKey => "Invalid key".to_string(),
            CryptoError::EncryptionFailed => "Encryption failed".to_string(),
            CryptoError::DecryptionFailed => "Decryption failed".to_string(),
            CryptoError::InvalidNonce => "Invalid nonce".to_string(),
        }
    }
}

/// The X25519 public key of a secret key.
pub uninterp spec fn x25519_public(secret: Seq<u8>) -> Seq<u8>;

/// The X25519 secret that a secret key and a public key share.
pub uninterp spec fn x25519_shared(secret: Seq<u8>, public: Seq<u8>) -> Seq<u8>;

/// The XChaCha20-Poly1305 ciphertext, tag included, of a plaintext under
/// a key and a nonce, where the cipher takes the plaintext.
pub uninterp spec fn xchacha_seal(key: Seq<u8>, nonce: Seq<u8>, plaintext: Seq<u8>) -> Option<
    Seq<u8>,
>;

/// The plaintext that XChaCha20-Poly1305 recovers from a ciphertext under
/// a key and a nonce, where the tag holds.
pub uninterp spec fn xchacha_open(key: Seq<u8>, nonce: Seq<u8>, ciphertext: Seq<u8>) -> Option<
    Seq<u8>,
>;

/// `zeroize::Zeroize::zeroize` on an array of bytes: every byte is zero
/// afterwards.
#[verifier::external_body]
fn wipe_outside(bytes: &mut [u8; 32])
    ensures
        forall|i: int| 0 <= i < 32 ==> final(bytes)@[i] == 0,
{
    bytes.zeroize();
}

/// `rand::rngs::OsRng.fill_bytes` on `n` bytes: bytes from the generator
/// of the operating system. Nothing is known of them but their number.
/// Where the operating system gives no random bytes, the call does not
/// come back: no key is made of bytes that were not drawn.
#[verifier::external_body]
fn random_bytes_outside(n: usize) -> (r: Vec<u8>)
    ensures
        r@.len() == n,
{
    let mut bytes = vec![0u8; n];
    OsRng.fill_bytes(&mut bytes);
    bytes
}

/// `N` random bytes from the generator of the operating system.
pub fn random_array<const N: usize>() -> (r: [u8; N]) {
    let bytes = random_bytes_outside(N);
    match array_from_slice::<N>(bytes.as_slice()) {
        Some(a) => a,
        None => vstd::array::array_fill_for_copy_types::<u8, N>(0u8),
    }
}

/// `x25519_dalek::PublicKey::from(&StaticSecret)`: the public key of a
/// secret key.
#[verifier::external_body]
fn x25519_public_outside(secret: &[u8; 32]) -> (r: [u8; 32])
    ensures
        r@ == x25519_public(secret@),
{
    x25519_dalek::PublicKey::from(&x25519_dalek::StaticSecret::from(*secret)).to_bytes()
}

/// `x25519_dalek::StaticSecret::diffie_hellman`: the secret that a secret
/// key and the public key of another share. The owner of the other secret
/// key computes the same from the public key of this one.
#[verifier::external_body]
fn x25519_shared_outside(secret: &[u8; 32], public: &[u8; 32]) -> (r: [u8; 32])
    ensures
        r@ == x25519_shared(secret@, public@),
        forall|other: Seq<u8>|
            other.len() == 32 && #[trigger] x25519_public(other) == public@ ==> x25519_shared(
                other,
                x25519_public(secret@),
            ) == r@,
{
    x25519_dalek::StaticSecret::from(*secret).diffie_hellman(
        &x25519_dalek::PublicKey::from(*public),
    ).to_bytes()
}

/// Whether the cipher takes a plaintext of `len` bytes: it counts the
/// blocks of 64 bytes in 32 bits, and takes what has fewer than 2^32 - 1
/// whole blocks.
pub open spec fn cipher_takes(len: nat) -> bool {
    len / 64 < 0xffff_ffff
}

/// `chacha20poly1305::XChaCha20Poly1305::encrypt` without associated data.
/// Nothing comes back where the cipher refuses the plaintext, which it
/// does for its length alone. Opening what comes back under the same key
/// and nonce gives the plaintext.
#[verifier::external_body]
fn xchacha_seal_outside(key: &[u8; 32], nonce: &[u8; 24], plaintext: &[u8]) -> (r: Option<
    Vec<u8>,
>)
    ensures
        r is Some <==> xchacha_seal(key@, nonce@, plaintext@) is Some,
        cipher_takes(plaintext@.len()) ==> r is Some,
        r matches Some(c) ==> xchacha_seal(key@, nonce@, plaintext@) == Some(c@) && xchacha_open(
            key@,
            nonce@,
            c@,
        ) == Some(plaintext@),
{
    XChaCha20Poly1305::new(key.into()).encrypt(XNonce::from_slice(nonce), plaintext).ok()
}

/// `chacha20poly1305::XChaCha20Poly1305::decrypt` without associated data.
#[verifier::external_body]
fn xchacha_open_outside(key: &[u8; 32], nonce: &[u8; 24], ciphertext: &[u8]) -> (r: Option<
    Vec<u8>,
>)
    ensures
        r is Some <==> xchacha_open(key@, nonce@, ciphertext@) is Some,
        r matches Some(p) ==> xchacha_open(key@, nonce@, ciphertext@) == Some(p@),
{
    XChaCha20Poly1305::new(key.into()).decrypt(XNonce::from_slice(nonce), ciphertext).ok()
}

/// What symmetric decryption answers.
pub open spec fn open_result(key: Seq<u8>, nonce: Seq<u8>, ciphertext: Seq<u8>) -> Result<
    Seq<u8>,
    CryptoError,
> {
    match xchacha_open(key, nonce, ciphertext) {
        Some(p) => Ok(p),
        None => Err(CryptoError::DecryptionFailed),
    }
}

/// What decryption of a payload answers to the holder of `receiver_secret`
/// who takes `sender_public` for the key of the sender.
pub open spec fn decrypt_result(
    receiver_secret: Seq<u8>,
    sender_public: Seq<u8>,
    encrypted: EncryptedPayloadView,
) -> Result<Seq<u8>, CryptoError> {
    if encrypted.nonce.len() != NONCE_LEN {
        Err(CryptoError::InvalidNonce)
    } else {
        open_result(
            x25519_shared(receiver_secret, sender_public),
            encrypted.nonce,
            encrypted.ciphertext,
        )
    }
}

/// The payload that encryption under `nonce` gives, where the cipher
/// takes the plaintext.
pub open spec fn sealed_payload(
    sender_secret: Seq<u8>,
    sender_public: Seq<u8>,
    receiver_public: Seq<u8>,
    nonce: Seq<u8>,
    plaintext: Seq<u8>,
) -> Option<EncryptedPayloadView> {
    match xchacha_seal(x25519_shared(sender_secret, receiver_public), nonce, plaintext) {
        Some(c) => Some(
            EncryptedPayloadView { ciphertext: c, nonce, sender_public_key: sender_public },
        ),
        None => None,
    }
}

/// The cryptographic operations.
pub struct Crypto;

impl Crypto {
    /// A fresh X25519 key pair: secret key, then public key.
    pub fn generate_ephemeral_keypair() -> (pair: ([u8; 32], [u8; 32]))
        ensures
            pair.1@ == x25519_public(pair.0@),
    {
        let secret = random_array::<32>();
        let public = x25519_public_outside(&secret);
        (secret, public)
    }

    /// The public key of an X25519 secret key.
    pub fn public_key_of(secret: &[u8; 32]) -> (r: [u8; 32])
        ensures
            r@ == x25519_public(secret@),
    {
        x25519_public_outside(secret)
    }

    /// The key that a secret key and the public key of another share.
    /// Both sides compute the same key.
    pub fn compute_shared_secret(private_key: &[u8; 32], public_key: &[u8; 32]) -> (k:
        SymmetricKey)
        ensures
            k.0@ == x25519_shared(private_key@, public_key@),
            forall|other: Seq<u8>|
                other.len() == 32 && #[trigger] x25519_public(other) == public_key@
                    ==> x25519_shared(other, x25519_public(private_key@)) == k.0@,
    {
        SymmetricKey(x25519_shared_outside(private_key, public_key))
    }

    /// Encrypts under `key` and the given nonce. Decryption under the
    /// same key and nonce gives the plaintext back.
    pub fn encrypt_with_nonce(key: &SymmetricKey, nonce: [u8; 24], plaintext: &[u8]) -> (r:
        Result<SymmetricEncryption, CryptoError>)
        ensures
            cipher_takes(plaintext@.len()) ==> r is Ok,
            match r {
                Ok(e) => {
                    &&& xchacha_seal(key.0@, nonce@, plaintext@) == Some(e.ciphertext@)
                    &&& e.nonce == nonce
                    &&& open_result(key.0@, nonce@, e.ciphertext@) == Ok::<Seq<u8>, CryptoError>(
                        plaintext@,
                    )
                },
                Err(e) => e == CryptoError::EncryptionFailed && xchacha_seal(
                    key.0@,
                    nonce@,
                    plaintext@,
                ) is None,
            },
    {
        match xchacha_seal_outside(key.as_bytes(), &nonce, plaintext) {
            Some(ciphertext) => Ok(SymmetricEncryption { ciphertext, nonce }),
            None => Err(CryptoError::EncryptionFailed),
        }
    }

    /// Encrypts under `key` and a fresh random nonce. Whatever nonce was
    /// drawn, decryption under the key and that nonce gives the plaintext
    /// back; the only failure is a refusal of the cipher.
    pub fn encrypt_symmetric(key: &SymmetricKey, plaintext: &[u8]) -> (r: Result<
        SymmetricEncryption,
        CryptoError,
    >)
        ensures
            cipher_takes(plaintext@.len()) ==> r is Ok,
            match r {
                Ok(e) => {
                    &&& xchacha_seal(key.0@, e.nonce@, plaintext@) == Some(e.ciphertext@)
                    &&& open_result(key.0@, e.nonce@, e.ciphertext@) == Ok::<
                        Seq<u8>,
                        CryptoError,
                    >(plaintext@)
                },
                Err(e) => e == CryptoError::EncryptionFailed,
            },
    {
        let nonce = random_array::<24>();
        Crypto::encrypt_with_nonce(key, nonce, plaintext)
    }

    /// Decrypts under `key` and `nonce`.
    pub fn decrypt_symmetric(key: &SymmetricKey, ciphertext: &[u8], nonce: &[u8; 24]) -> (r:
        Result<Vec<u8>, CryptoError>)
        ensures
            match r {
                Ok(p) => open_result(key.0@, nonce@, ciphertext@) == Ok::<Seq<u8>, CryptoError>(
                    p@,
                ),
                Err(e) => open_result(key.0@, nonce@, ciphertext@) == Err::<
                    Seq<u8>,
                    CryptoError,
                >(e),
            },
    {
        match xchacha_open_outside(key.as_bytes(), nonce, ciphertext) {
            Some(p) => Ok(p),
            None => Err(CryptoError::DecryptionFailed),
        }
    }

    /// Encrypts a payload for the holder of `receiver_public_key` under
    /// the given nonce, and names `sender_public_key` in it.
    pub fn encrypt_payload_with_nonce(
        sender_private_key: &[u8; 32],
        sender_public_key: &[u8; 32],
        receiver_public_key: &[u8; 32],
        nonce: [u8; 24],
        plaintext: &[u8],
    ) -> (r: Result<EncryptedPayload, CryptoError>)
        ensures
            cipher_takes(plaintext@.len()) ==> r is Ok,
            match r {
                Ok(e) => {
                    &&& sealed_payload(
                        sender_private_key@,
                        sender_public_key@,
                        receiver_public_key@,
                        nonce@,
                        plaintext@,
                    ) == Some(e@)
                    &&& round_trips(
                        sender_private_key@,
                        sender_public_key@,
                        receiver_public_key@,
                        e@,
                        plaintext@,
                    )
                },
                Err(e) => e == CryptoError::EncryptionFailed && sealed_payload(
                    sender_private_key@,
                    sender_public_key@,
                    receiver_public_key@,
                    nonce@,
                    plaintext@,
                ) is None,
            },
    {
        let mut shared = Crypto::compute_shared_secret(sender_private_key, receiver_public_key);
        let ghost key = shared.0@;
        let sealed = Crypto::encrypt_with_nonce(&shared, nonce, plaintext);
        shared.wipe();
        match sealed {
            Ok(encryption) => {
                let e = EncryptedPayload {
                    ciphertext: encryption.ciphertext,
                    nonce: array_to_vec(&encryption.nonce),
                    sender_public_key: array_to_vec(sender_public_key),
                };
                assert(open_result(key, e@.nonce, e@.ciphertext) == Ok::<Seq<u8>, CryptoError>(
                    plaintext@,
                ));
                Ok(e)
            },
            Err(e) => Err(e),
        }
    }

    /// Encrypts a payload for the holder of `receiver_public_key` under a
    /// fresh random nonce. Where `sender_public_key` belongs to
    /// `sender_private_key`, the holder of the secret key that belongs to
    /// `receiver_public_key` decrypts the result to the plaintext.
    pub fn encrypt_payload(
        sender_private_key: &[u8; 32],
        sender_public_key: &[u8; 32],
        receiver_public_key: &[u8; 32],
        plaintext: &[u8],
    ) -> (r: Result<EncryptedPayload, CryptoError>)
        ensures
            cipher_takes(plaintext@.len()) ==> r is Ok,
            match r {
                Ok(e) => {
                    &&& sealed_payload(
                        sender_private_key@,
                        sender_public_key@,
                        receiver_public_key@,
                        e@.nonce,
                        plaintext@,
                    ) == Some(e@)
                    &&& e@.nonce.len() == NONCE_LEN
                    &&& round_trips(
                        sender_private_key@,
                        sender_public_key@,
                        receiver_public_key@,
                        e@,
                        plaintext@,
                    )
                },
                Err(e) => e == CryptoError::EncryptionFailed,
            },
    {
        let nonce = random_array::<24>();
        Crypto::encrypt_payload_with_nonce(
            sender_private_key,
            sender_public_key,
            receiver_public_key,
            nonce,
            plaintext,
        )
    }

    /// Decrypts a payload with the secret key of the receiver and the
    /// public key of the sender. A nonce that is not of 24 bytes is
    /// refused before the cipher is asked.
    pub fn decrypt_payload(
        receiver_private_key: &[u8; 32],
        sender_public_key: &[u8; 32],
        encrypted: &EncryptedPayload,
    ) -> (r: Result<Vec<u8>, CryptoError>)
        ensures
            match r {
                Ok(p) => decrypt_result(receiver_private_key@, sender_public_key@, encrypted@)
                    == Ok::<Seq<u8>, CryptoError>(p@),
                Err(e) => decrypt_result(receiver_private_key@, sender_public_key@, encrypted@)
                    == Err::<Seq<u8>, CryptoError>(e),
            },
    {
        let nonce: [u8; 24] = match array_from_slice::<24>(encrypted.nonce.as_slice()) {
            Some(n) => n,
            None => {
                return Err(CryptoError::InvalidNonce);
            },
        };
        let mut shared = Crypto::compute_shared_secret(receiver_private_key, sender_public_key);
        let opened = Crypto::decrypt_symmetric(&shared, encrypted.ciphertext.as_slice(), &nonce);
        shared.wipe();
        opened
    }
}

/// Whether every holder of the secret key that belongs to
/// `receiver_public` decrypts `encrypted` to `plaintext`, given that
/// `sender_public` belongs to `sender_secret`.
pub open spec fn round_trips(
    sender_secret: Seq<u8>,
    sender_public: Seq<u8>,
    receiver_public: Seq<u8>,
    encrypted: EncryptedPayloadView,
    plaintext: Seq<u8>,
) -> bool {
    forall|receiver_secret: Seq<u8>|
        #![trigger x25519_public(receiver_secret)]
        receiver_secret.len() == 32 && x25519_public(receiver_secret) == receiver_public
            && x25519_public(sender_secret) == sender_public
                ==> decrypt_result(receiver_secret, sender_public, encrypted)
            == Ok::<Seq<u8>, CryptoError>(plaintext)
}

} // verus!
