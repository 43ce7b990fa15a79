//! The key of the store: derived from what identifies the device and
//! from a random salt by PBKDF2 with HMAC-SHA-256. The salt and the number
//! of iterations are kept next to the store; the key itself is not kept.

use crate::crypto::random_array;
use crate::hash::{sha256, sha256_digest};
use crate::text::{hex_encode, hex_text};
use crate::wire::{append_bytes, array_to_vec};
use vstd::prelude::*;

verus! {

/// Iterations of a key that is made now.
pub const KEY_ITERATIONS: u32 = 100_000;

/// Version of the scheme of a key that is made now.
pub const KEY_VERSION: u32 = 1;

/// Bytes of the salt of a key that is made now.
pub const SALT_LEN: usize = 32;

/// Bytes of a block of SHA-256.
pub const HASH_BLOCK: usize = 64;

/// What is kept of a key.
#[derive(Debug)]
pub struct KeyConfig {
    /// The salt.
    pub salt: Vec<u8>,
    /// The number of iterations.
    pub iterations: u32,
    /// The version of the scheme.
    pub version: u32,
}

/// Why a key cannot be had.
#[derive(Debug)]
pub enum KeyError {
    /// The device cannot be identified.
    DeviceIdError(String),
    /// What is kept of the key cannot be read or written.
    ConfigError(String),
    /// The platform is not supported.
    PlatformNotSupported,
    /// The derivation failed.
    CryptoError,
}

impl KeyError {
    /// The error in words.
    pub open spec fn words(self) -> Seq<char> {
        match self {
            KeyError::DeviceIdError(m) => "Failed to get device ID: "@ + m@,
            KeyError::ConfigError(m) => "Configuration error: "@ + m@,
            KeyError::PlatformNotSupported => "Platform not supported"@,
            KeyError::CryptoError => "Crypto error"@,
        }
    }

    /// The error in words, as a text.
    pub fn to_string(&self) -> (r: String)
        ensures
            r@ == self.words(),
    {
        match self {
            KeyError::DeviceIdError(m) => "Failed to get device ID: ".to_string().concat(
                m.as_str(),
            ),
            KeyError::ConfigError(m) => "Configuration error: ".to_string().concat(m.as_str()),
            KeyError::PlatformNotSupported => "Platform not supported".to_string(),
            KeyError::CryptoError => "Crypto error".to_string(),
        }
    }
}

/// The key of HMAC as one block: a key of more than 64 bytes is hashed,
/// and zeros fill the block.
pub open spec fn hmac_block(key: Seq<u8>) -> Seq<u8> {
    let k = if key.len() > HASH_BLOCK {
        sha256_digest(key)
    } else {
        key
    };
    Seq::new(
        HASH_BLOCK as nat,
        |i: int|
            if i < k.len() {
                k[i]
            } else {
                0u8
            },
    )
}

/// Every byte of a block combined with `pad` by exclusive or.
pub open spec fn padded(block: Seq<u8>, pad: u8) -> Seq<u8> {
    Seq::new(block.len(), |i: int| block[i] ^ pad)
}

/// HMAC-SHA-256 of a message under a key.
pub open spec fn hmac_sha256(key: Seq<u8>, message: Seq<u8>) -> Seq<u8> {
    sha256_digest(
        padded(hmac_block(key), 0x5c) + sha256_digest(padded(hmac_block(key), 0x36) + message),
    )
}

/// Two byte strings of one length combined by exclusive or.
pub open spec fn xored(a: Seq<u8>, b: Seq<u8>) -> Seq<u8> {
    Seq::new(a.len(), |i: int| a[i] ^ b[i])
}

/// The `j`-th value of the chain of PBKDF2, counted from 1.
pub open spec fn pbkdf2_chain(password: Seq<u8>, salt: Seq<u8>, j: nat) -> Seq<u8>
    decreases j,
{
    if j <= 1 {
        hmac_sha256(password, salt + seq![0u8, 0u8, 0u8, 1u8])
    } else {
        hmac_sha256(password, pbkdf2_chain(password, salt, (j - 1) as nat))
    }
}

/// The first block of PBKDF2 with HMAC-SHA-256 after `c` iterations: the
/// exclusive or of the first `c` values of the chain. No iteration counts
/// as one.
pub open spec fn pbkdf2_block(password: Seq<u8>, salt: Seq<u8>, c: nat) -> Seq<u8>
    decreases c,
{
    if c <= 1 {
        pbkdf2_chain(password, salt, 1)
    } else {
        xored(pbkdf2_block(password, salt, (c - 1) as nat), pbkdf2_chain(password, salt, c))
    }
}

fn hmac(key: &[u8], message: &[u8]) -> (r: [u8; 32])
    ensures
        r@ == hmac_sha256(key@, message@),
{
    let hashed: Vec<u8> = if key.len() > HASH_BLOCK {
        array_to_vec(&sha256(key))
    } else {
        crate::wire::copy_range(key, 0, key.len())
    };
    assert(key@.subrange(0, key@.len() as int) =~= key@);
    let mut inner: Vec<u8> = Vec::new();
    let mut outer: Vec<u8> = Vec::new();
    let mut i: usize = 0;
    let ghost block = hmac_block(key@);
    while i < HASH_BLOCK
        invariant
            i <= HASH_BLOCK,
            block == hmac_block(key@),
            hashed@ == if key@.len() > HASH_BLOCK {
                sha256_digest(key@)
            } else {
                key@
            },
            inner@ == padded(block, 0x36).take(i as int),
            outer@ == padded(block, 0x5c).take(i as int),
        decreases HASH_BLOCK - i,
    {
        let b: u8 = if i < hashed.len() {
            hashed[i]
        } else {
            0
        };
        assert(b == block[i as int]);
        inner.push(b ^ 0x36);
        outer.push(b ^ 0x5c);
        i = i + 1;
        assert(inner@ =~= padded(block, 0x36).take(i as int));
        assert(outer@ =~= padded(block, 0x5c).take(i as int));
    }
    assert(inner@ =~= padded(block, 0x36));
    assert(outer@ =~= padded(block, 0x5c));
    append_bytes(&mut inner, message);
    let first = sha256(inner.as_slice());
    append_bytes(&mut outer, first.as_slice());
    sha256(outer.as_slice())
}

/// What a manager answers: the key in hexadecimal, and what is to be
/// kept of it where the key was made now.
pub struct KeyOutcome {
    /// The key in hexadecimal, 64 characters.
    pub key_hex: String,
    /// What is to be kept, where the key was made now.
    pub created: Option<KeyConfig>,
}

/// Manages the key of the store.
#[derive(Debug)]
pub struct KeyManager {
    config_path: String,
}

impl KeyManager {
    /// Where the manager keeps the salt.
    pub closed spec fn path(self) -> Seq<char> {
        self.config_path@
    }

    /// A manager that keeps the salt at the path.
    pub fn new(config_path: &str) -> (r: KeyManager)
        ensures
            r.path() == config_path@,
    {
        KeyManager { config_path: config_path.to_string() }
    }

    /// Where the manager keeps the salt.
    pub fn config_path(&self) -> (r: &str)
        ensures
            r@ == self.path(),
    {
        self.config_path.as_str()
    }

    /// The key of a device under a salt: 32 bytes of PBKDF2 with
    /// HMAC-SHA-256.
    pub fn derive_key(device_id: &str, salt: &[u8], iterations: u32) -> (r: Vec<u8>)
        ensures
            r@ == pbkdf2_block(vstd::utf8::encode_utf8(device_id@), salt@, iterations as nat),
            r@.len() == 32,
    {
        let password = device_id.as_bytes();
        let mut first: Vec<u8> = crate::wire::copy_range(salt, 0, salt.len());
        assert(salt@.subrange(0, salt@.len() as int) =~= salt@);
        first.push(0);
        first.push(0);
        first.push(0);
        first.push(1);
        assert(first@ =~= salt@ + seq![0u8, 0u8, 0u8, 1u8]);
        let mut u: [u8; 32] = hmac(password, first.as_slice());
        let mut t: [u8; 32] = u;
        let mut j: u32 = 1;
        while j < iterations
            invariant
                1 <= j,
                iterations >= 1 ==> j <= iterations,
                iterations == 0 ==> j == 1,
                password@ == vstd::utf8::encode_utf8(device_id@),
                u@ == pbkdf2_chain(password@, salt@, j as nat),
                t@ == pbkdf2_block(password@, salt@, j as nat),
            decreases iterations - j,
        {
            u = hmac(password, u.as_slice());
            let ghost before = t@;
            let mut k: usize = 0;
            while k < 32
                invariant
                    k <= 32,
                    before.len() == 32,
                    forall|x: int| 0 <= x < k ==> t@[x] == before[x] ^ u@[x],
                    forall|x: int| k <= x < 32 ==> t@[x] == before[x],
                decreases 32 - k,
            {
                t[k] = t[k] ^ u[k];
                k = k + 1;
            }
            j = j + 1;
            assert(t@ =~= xored(before, u@));
        }
        proof {
            let p = vstd::utf8::encode_utf8(device_id@);
            assert(pbkdf2_block(p, salt@, 0) == pbkdf2_chain(p, salt@, 1));
            assert(pbkdf2_block(p, salt@, 1) == pbkdf2_chain(p, salt@, 1));
            assert(j == iterations || (iterations == 0 && j == 1));
        }
        array_to_vec(&t)
    }

    /// The key of the store for the device. Where something was kept of
    /// the key, the key is derived anew from it; else a salt is drawn, the
    /// key is derived from it with 100 000 iterations, and what is to be
    /// kept comes back with the key. A device without a name has no key.
    pub fn get_or_create_db_key(&self, existing: Option<&KeyConfig>, device_id: &str) -> (r:
        Result<KeyOutcome, KeyError>)
        ensures
            device_id@.len() == 0 ==> r matches Err(KeyError::DeviceIdError(_)),
            device_id@.len() > 0 ==> r is Ok,
            r matches Ok(o) ==> match existing {
                Some(config) => o.created is None && o.key_hex@ == hex_text(
                    pbkdf2_block(vstd::utf8::encode_utf8(device_id@), config.salt@,
                        config.iterations as nat),
                ),
                None => o.created is Some && o.created->0.salt@.len() == SALT_LEN
                    && o.created->0.iterations == KEY_ITERATIONS && o.created->0.version
                    == KEY_VERSION && o.key_hex@ == hex_text(
                    pbkdf2_block(
                        vstd::utf8::encode_utf8(device_id@),
                        o.created->0.salt@,
                        KEY_ITERATIONS as nat,
                    ),
                ),
            },
            r matches Ok(o) ==> o.key_hex@.len() == 64,
    {
        if device_id.unicode_len() == 0 {
            return Err(KeyError::DeviceIdError("Empty hostname".to_string()));
        }
        match existing {
            Some(config) => {
                let key = KeyManager::derive_key(
                    device_id,
                    config.salt.as_slice(),
                    config.iterations,
                );
                Ok(KeyOutcome { key_hex: hex_encode(key.as_slice()), created: None })
            },
            None => {
                let salt: [u8; 32] = random_array::<32>();
                let key = KeyManager::derive_key(device_id, salt.as_slice(), KEY_ITERATIONS);
                Ok(
                    KeyOutcome {
                        key_hex: hex_encode(key.as_slice()),
                        created: Some(
                            KeyConfig {
                                salt: array_to_vec(&salt),
                                iterations: KEY_ITERATIONS,
                                version: KEY_VERSION,
                            },
                        ),
                    },
                )
            },
        }
    }
}

} // verus!
