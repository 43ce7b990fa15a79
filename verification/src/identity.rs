//! Identity of a peer: an Ed25519 key pair for signatures and an
//! independent X25519 key pair for key agreement.
//!
//! Keys are held as bytes. The signature scheme is that of the
//! `ed25519-dalek` crate; what it computes is named here.

use crate::crypto::{random_array, x25519_public, Crypto};
use crate::text::{hex_encode, hex_text};
use ed25519_dalek::Signer;
use ed25519_dalek::Verifier;
use vstd::prelude::*;

verus! {

/// Bytes of an Ed25519 signature.
pub const SIGNATURE_LEN: usize = 64;

/// The Ed25519 public key of a secret key.
pub uninterp spec fn ed25519_public(secret: Seq<u8>) -> Seq<u8>;

/// Whether bytes are an Ed25519 public key.
pub uninterp spec fn ed25519_key_valid(public: Seq<u8>) -> bool;

/// The Ed25519 signature of data under a secret key.
pub uninterp spec fn ed25519_signature(secret: Seq<u8>, data: Seq<u8>) -> Seq<u8>;

/// Whether a signature of data verifies under a public key. It does not
/// where the key bytes are no key.
pub uninterp spec fn ed25519_verifies(public: Seq<u8>, data: Seq<u8>, signature: Seq<u8>) -> bool;

/// `ed25519_dalek::SigningKey::verifying_key`: the public key of a secret
/// key, which is a key that `VerifyingKey::from_bytes` takes.
#[verifier::external_body]
fn ed25519_public_outside(secret: &[u8; 32]) -> (r: [u8; 32])
    ensures
        r@ == ed25519_public(secret@),
        ed25519_key_valid(r@),
{
    ed25519_dalek::SigningKey::from_bytes(secret).verifying_key().to_bytes()
}

/// `ed25519_dalek::VerifyingKey::from_bytes`: whether the bytes are a
/// public key.
#[verifier::external_body]
fn ed25519_key_valid_outside(public: &[u8; 32]) -> (r: bool)
    ensures
        r == ed25519_key_valid(public@),
{
    ed25519_dalek::VerifyingKey::from_bytes(public).is_ok()
}

/// `ed25519_dalek::SigningKey::sign`: the signature of `data`. It
/// verifies under the public key of the secret key.
#[verifier::external_body]
fn ed25519_sign_outside(secret: &[u8; 32], data: &[u8]) -> (r: [u8; 64])
    ensures
        r@ == ed25519_signature(secret@, data@),
        ed25519_verifies(ed25519_public(secret@), data@, r@),
{
    ed25519_dalek::SigningKey::from_bytes(secret).sign(data).to_bytes()
}

/// `ed25519_dalek::VerifyingKey::verify` on the key that
/// `VerifyingKey::from_bytes` makes of `public`: whether the signature
/// verifies; it does not where the bytes are no key.
#[verifier::external_body]
fn ed25519_verify_outside(public: &[u8; 32], data: &[u8], signature: &[u8; 64]) -> (r: bool)
    ensures
        r == ed25519_verifies(public@, data@, signature@),
        r ==> ed25519_key_valid(public@),
{
    match ed25519_dalek::VerifyingKey::from_bytes(public) {
        Ok(key) => key.verify(data, &ed25519_dalek::Signature::from_bytes(signature)).is_ok(),
        Err(_) => false,
    }
}

/// Why an identity cannot do what was asked.
#[derive(Clone, Copy, Debug, PartialEq, Eq, Structural)]
pub enum IdentityError {
    /// The identity holds no secret key.
    NoPrivateKey,
    /// The signature does not verify.
    InvalidSignature,
    /// The key is not of 32 bytes.
    InvalidKeyLength,
    /// The bytes are no public key.
    InvalidPublicKey,
}

impl IdentityError {
    /// The error in words.
    pub open spec fn words(self) -> Seq<char> {
        match self {
            IdentityError::NoPrivateKey => "No private key available"@,
            IdentityError::InvalidSignature => "Invalid signature"@,
            IdentityError::InvalidKeyLength => "Invalid key length"@,
            IdentityError::InvalidPublicKey => "Invalid public key"@,
        }
    }

    /// The error in words, as a text.
    pub fn to_string(&self) -> (r: String)
        ensures
            r@ == self.words(),
    {
        match self {
            IdentityError::NoPrivateKey => "No private key available".to_string(),
            IdentityError::InvalidSignature => "Invalid signature".to_string(),
            IdentityError::InvalidKeyLength => "Invalid key length".to_string(),
            IdentityError::InvalidPublicKey => "Invalid public key".to_string(),
        }
    }
}

/// The bytes behind an optional key.
pub open spec fn opt_key_view(k: Option<[u8; 32]>) -> Option<Seq<u8>> {
    match k {
        Some(a) => Some(a@),
        None => None,
    }
}

/// The identity of a peer. One that was made from a public key alone
/// verifies and cannot sign.
pub struct Identity {
    /// Ed25519 public key.
    pub public_key: [u8; 32],
    signing_key: Option<[u8; 32]>,
    x25519_secret: Option<[u8; 32]>,
    x25519_public: Option<[u8; 32]>,
    /// Public identifier: the hexadecimal text of the public key.
    pub id: String,
}

impl Identity {
    /// The Ed25519 secret key, where the identity holds one.
    pub closed spec fn signing_secret(self) -> Option<Seq<u8>> {
        opt_key_view(self.signing_key)
    }

    /// The X25519 secret key, where the identity holds one.
    pub closed spec fn agreement_secret(self) -> Option<Seq<u8>> {
        opt_key_view(self.x25519_secret)
    }

    /// The X25519 public key, where the identity holds one.
    pub closed spec fn agreement_public(self) -> Option<Seq<u8>> {
        opt_key_view(self.x25519_public)
    }

    /// The Ed25519 public key.
    pub closed spec fn key(self) -> Seq<u8> {
        self.public_key@
    }

    /// The public identifier.
    pub closed spec fn ident(self) -> Seq<char> {
        self.id@
    }

    /// The identifier is the hexadecimal text of the public key, and the
    /// public key belongs to the secret key, where there is one.
    pub open spec fn wf(self) -> bool {
        &&& self.ident() == hex_text(self.key())
        &&& self.signing_secret() matches Some(sk) ==> self.key() == ed25519_public(sk)
            && ed25519_key_valid(self.key())
        &&& self.key().len() == 32
    }

    /// The X25519 keys are both there and belong together.
    pub open spec fn can_agree(self) -> bool {
        &&& self.agreement_secret() is Some
        &&& self.agreement_public() == Some(x25519_public(self.agreement_secret()->0))
    }

    /// A new identity: both key pairs drawn at random, each on its own.
    pub fn new() -> (r: Identity)
        ensures
            r.wf(),
            r.can_agree(),
            r.signing_secret() is Some,
    {
        let secret_key: [u8; 32] = random_array::<32>();
        Identity::from_signing_key(secret_key)
    }

    /// The identity of a signing key, with a fresh X25519 key pair.
    pub fn from_signing_key(signing_key: [u8; 32]) -> (r: Identity)
        ensures
            r.wf(),
            r.can_agree(),
            r.signing_secret() == Some(signing_key@),
            r.key() == ed25519_public(signing_key@),
    {
        let public_key = ed25519_public_outside(&signing_key);
        let id = hex_encode(public_key.as_slice());
        let (x_secret, x_public) = Crypto::generate_ephemeral_keypair();
        Identity {
            public_key,
            signing_key: Some(signing_key),
            x25519_secret: Some(x_secret),
            x25519_public: Some(x_public),
            id,
        }
    }

    /// The identity of another peer, from its public key: it verifies
    /// and holds no secret.
    pub fn from_public_key(public_key: [u8; 32]) -> (r: Identity)
        ensures
            r.wf(),
            r.key() == public_key@,
            r.signing_secret() is None,
            r.agreement_secret() is None,
            r.agreement_public() is None,
    {
        let id = hex_encode(public_key.as_slice());
        Identity { public_key, signing_key: None, x25519_secret: None, x25519_public: None, id }
    }

    /// Signs `data`. An identity without a secret key cannot.
    pub fn sign(&self, data: &[u8]) -> (r: Result<[u8; 64], IdentityError>)
        ensures
            match r {
                Ok(s) => self.signing_secret() matches Some(sk) && s@ == ed25519_signature(
                    sk,
                    data@,
                ) && ed25519_verifies(ed25519_public(sk), data@, s@),
                Err(e) => e == IdentityError::NoPrivateKey && self.signing_secret() is None,
            },
    {
        match &self.signing_key {
            Some(key) => Ok(ed25519_sign_outside(key, data)),
            None => Err(IdentityError::NoPrivateKey),
        }
    }

    /// Whether `signature` is the signature of `data` under the public
    /// key of this identity.
    pub fn verify(&self, data: &[u8], signature: &[u8; 64]) -> (r: Result<(), IdentityError>)
        ensures
            r is Ok <==> ed25519_verifies(self.key(), data@, signature@),
            r matches Err(e) ==> e == IdentityError::InvalidSignature,
    {
        if ed25519_verify_outside(&self.public_key, data, signature) {
            Ok(())
        } else {
            Err(IdentityError::InvalidSignature)
        }
    }

    /// The public key.
    pub fn public_key_bytes(&self) -> (r: [u8; 32])
        ensures
            r@ == self.key(),
    {
        self.public_key
    }

    /// The public identifier.
    pub fn id(&self) -> (r: &str)
        ensures
            r@ == self.ident(),
    {
        self.id.as_str()
    }

    /// The secret signing key, where the identity holds one.
    pub fn signing_key_bytes(&self) -> (r: Option<[u8; 32]>)
        ensures
            opt_key_view(r) == self.signing_secret(),
    {
        self.signing_key
    }

    /// The X25519 secret key, where the identity holds one.
    pub fn x25519_secret(&self) -> (r: Option<&[u8; 32]>)
        ensures
            r is Some <==> self.agreement_secret() is Some,
            r matches Some(k) ==> self.agreement_secret() == Some(k@),
    {
        self.x25519_secret.as_ref()
    }

    /// The X25519 public key, where the identity holds one.
    pub fn x25519_public(&self) -> (r: Option<&[u8; 32]>)
        ensures
            r is Some <==> self.agreement_public() is Some,
            r matches Some(k) ==> self.agreement_public() == Some(k@),
    {
        self.x25519_public.as_ref()
    }

    /// The X25519 public key as bytes, where the identity holds one.
    pub fn x25519_public_bytes(&self) -> (r: Option<[u8; 32]>)
        ensures
            opt_key_view(r) == self.agreement_public(),
    {
        self.x25519_public
    }

    /// Puts an X25519 key pair in place of the one that the identity has.
    pub fn set_x25519_keys(&mut self, secret: [u8; 32], public: [u8; 32])
        ensures
            final(self).agreement_secret() == Some(secret@),
            final(self).agreement_public() == Some(public@),
            final(self).signing_secret() == old(self).signing_secret(),
            final(self).key() == old(self).key(),
            final(self).ident() == old(self).ident(),
    {
        self.x25519_secret = Some(secret);
        self.x25519_public = Some(public);
    }

    /// What `from_bytes` answers.
    pub open spec fn key_verdict(bytes: Seq<u8>) -> Result<(), IdentityError> {
        if bytes.len() != 32 {
            Err(IdentityError::InvalidKeyLength)
        } else if !ed25519_key_valid(bytes) {
            Err(IdentityError::InvalidPublicKey)
        } else {
            Ok(())
        }
    }

    /// The identity of another peer, from the bytes of its public key.
    /// Bytes that are not 32 are refused, and so are bytes that are no key.
    pub fn from_bytes(bytes: &[u8]) -> (r: Result<Identity, IdentityError>)
        ensures
            match r {
                Ok(i) => {
                    &&& Identity::key_verdict(bytes@) is Ok
                    &&& i.wf()
                    &&& i.key() == bytes@
                    &&& i.signing_secret() is None
                    &&& i.agreement_secret() is None
                    &&& i.agreement_public() is None
                },
                Err(e) => Identity::key_verdict(bytes@) == Err::<(), IdentityError>(e),
            },
    {
        let key: [u8; 32] = match crate::wire::array_from_slice::<32>(bytes) {
            Some(k) => k,
            None => {
                return Err(IdentityError::InvalidKeyLength);
            },
        };
        if !ed25519_key_valid_outside(&key) {
            return Err(IdentityError::InvalidPublicKey);
        }
        Ok(Identity::from_public_key(key))
    }

    /// A copy of the identity, secrets included.
    pub fn duplicate(&self) -> (r: Identity)
        ensures
            r.key() == self.key(),
            r.ident() == self.ident(),
            r.signing_secret() == self.signing_secret(),
            r.agreement_secret() == self.agreement_secret(),
            r.agreement_public() == self.agreement_public(),
    {
        Identity {
            public_key: self.public_key,
            signing_key: self.signing_key,
            x25519_secret: self.x25519_secret,
            x25519_public: self.x25519_public,
            id: self.id.clone(),
        }
    }
}

} // verus!
