//! An identity as it is kept between runs: the secret keys in
//! hexadecimal. The embedding program reads and writes the file.

use crate::crypto::{x25519_public, Crypto};
use crate::identity::Identity;
use crate::text::{hex_bytes, hex_decode, hex_encode, hex_text, is_hex_text, lemma_hex_round_trip};
use crate::wire::array_from_slice;
use vstd::prelude::*;

verus! {

/// What is kept of an identity.
#[derive(Debug)]
pub struct StoredIdentity {
    /// The signing key in hexadecimal.
    pub signing_key_hex: String,
    /// The X25519 secret key in hexadecimal; older files lack it.
    pub x25519_secret_hex: Option<String>,
}

/// Why an identity cannot be kept or restored.
#[derive(Debug)]
pub enum IdentityStoreError {
    /// The file cannot be read or written.
    Io(String),
    /// The identity cannot be written.
    Serialize(String),
    /// The file cannot be understood.
    Deserialize(String),
    /// A key is not hexadecimal.
    InvalidHex,
    /// A key has this many bytes, not 32.
    InvalidKeyLength(usize),
    /// The identity holds no signing key.
    MissingPrivateKey,
}

impl IdentityStoreError {
    /// The error in words.
    pub open spec fn words(self) -> Seq<char> {
        match self {
            IdentityStoreError::Io(m) => "IO error: "@ + m@,
            IdentityStoreError::Serialize(m) => "Serialize error: "@ + m@,
            IdentityStoreError::Deserialize(m) => "Deserialize error: "@ + m@,
            IdentityStoreError::InvalidHex => "Invalid hex data"@,
            IdentityStoreError::InvalidKeyLength(_) => "Invalid key length"@,
            IdentityStoreError::MissingPrivateKey => "Missing private key"@,
        }
    }

    /// The error in words, as a text.
    pub fn to_string(&self) -> (r: String)
        ensures
            r@ == self.words(),
    {
        match self {
            IdentityStoreError::Io(m) => "IO error: ".to_string().concat(m.as_str()),
            IdentityStoreError::Serialize(m) => "Serialize error: ".to_string().concat(
                m.as_str(),
            ),
            IdentityStoreError::Deserialize(m) => "Deserialize error: ".to_string().concat(
                m.as_str(),
            ),
            IdentityStoreError::InvalidHex => "Invalid hex data".to_string(),
            IdentityStoreError::InvalidKeyLength(_) => "Invalid key length".to_string(),
            IdentityStoreError::MissingPrivateKey => "Missing private key".to_string(),
        }
    }
}

/// What the reading of a key in hexadecimal answers.
pub open spec fn key_of_hex(text: Seq<char>) -> Result<Seq<u8>, IdentityStoreError> {
    if !is_hex_text(text) {
        Err(IdentityStoreError::InvalidHex)
    } else if hex_bytes(text).len() != 32 {
        Err(IdentityStoreError::InvalidKeyLength(hex_bytes(text).len() as usize))
    } else {
        Ok(hex_bytes(text))
    }
}

fn read_key(text: &str) -> (r: Result<[u8; 32], IdentityStoreError>)
    ensures
        match key_of_hex(text@) {
            Ok(k) => r matches Ok(a) && a@ == k,
            Err(IdentityStoreError::InvalidHex) => r matches Err(IdentityStoreError::InvalidHex),
            Err(IdentityStoreError::InvalidKeyLength(n)) => r matches Err(
                IdentityStoreError::InvalidKeyLength(m),
            ) && m == n,
            Err(_) => false,
        },
{
    let bytes = match hex_decode(text) {
        Some(b) => b,
        None => {
            return Err(IdentityStoreError::InvalidHex);
        },
    };
    match array_from_slice::<32>(bytes.as_slice()) {
        Some(a) => Ok(a),
        None => Err(IdentityStoreError::InvalidKeyLength(bytes.len())),
    }
}

/// Whether an identity can be restored from what was kept of it: the keys
/// that were kept are each the hexadecimal text of 32 bytes.
pub open spec fn restorable(stored: Option<&StoredIdentity>) -> bool {
    stored matches Some(s) ==> key_of_hex(s.signing_key_hex@) is Ok && (
    s.x25519_secret_hex matches Some(x) ==> key_of_hex(x@) is Ok)
}

/// Restores an identity from what was kept of it. Nothing kept means no
/// identity. A file without an X25519 secret key gives an identity with a
/// fresh one.
pub fn load_identity(stored: Option<&StoredIdentity>) -> (r: Result<
    Option<Identity>,
    IdentityStoreError,
>)
    ensures
        r is Ok <==> restorable(stored),
        stored is None ==> r matches Ok(None),
        stored matches Some(s) ==> match key_of_hex(s.signing_key_hex@) {
            Err(e) => r is Err && r->Err_0 == e,
            Ok(sk) => match s.x25519_secret_hex {
                None => r matches Ok(Some(i)) && i.wf() && i.can_agree() && i.signing_secret()
                    == Some(sk),
                Some(x) => match key_of_hex(x@) {
                    Err(e) => r is Err && r->Err_0 == e,
                    Ok(xs) => r matches Ok(Some(i)) && i.wf() && i.can_agree()
                        && i.signing_secret() == Some(sk) && i.agreement_secret() == Some(xs)
                        && i.agreement_public() == Some(x25519_public(xs)),
                },
            },
        },
{
    let stored = match stored {
        Some(s) => s,
        None => {
            return Ok(None);
        },
    };
    let signing_key = read_key(stored.signing_key_hex.as_str())?;
    let mut identity = Identity::from_signing_key(signing_key);
    match &stored.x25519_secret_hex {
        Some(x_hex) => {
            let secret = read_key(x_hex.as_str())?;
            let public = Crypto::public_key_of(&secret);
            identity.set_x25519_keys(secret, public);
        },
        None => {},
    }
    Ok(Some(identity))
}

/// What is to be kept of an identity: its secret keys in hexadecimal,
/// from which `load_identity` reads the same keys. An identity without a
/// signing key cannot be kept.
pub fn save_identity(identity: &Identity) -> (r: Result<StoredIdentity, IdentityStoreError>)
    ensures
        match identity.signing_secret() {
            None => r matches Err(IdentityStoreError::MissingPrivateKey),
            Some(sk) => r matches Ok(s) && s.signing_key_hex@ == hex_text(sk) && key_of_hex(
                s.signing_key_hex@,
            ) == Ok::<Seq<u8>, IdentityStoreError>(sk) && match identity.agreement_secret() {
                Some(xs) => s.x25519_secret_hex matches Some(x) && x@ == hex_text(xs) && key_of_hex(
                    x@,
                ) == Ok::<Seq<u8>, IdentityStoreError>(xs),
                None => s.x25519_secret_hex is None,
            },
        },
{
    let signing_key = match identity.signing_key_bytes() {
        Some(k) => k,
        None => {
            return Err(IdentityStoreError::MissingPrivateKey);
        },
    };
    let x25519_secret_hex = match identity.x25519_secret() {
        Some(secret) => {
            proof {
                lemma_hex_round_trip(secret@);
            }
            Some(hex_encode(secret.as_slice()))
        },
        None => None,
    };
    proof {
        lemma_hex_round_trip(signing_key@);
    }
    Ok(StoredIdentity { signing_key_hex: hex_encode(signing_key.as_slice()), x25519_secret_hex })
}

} // verus!
