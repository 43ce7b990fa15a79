use ya_ok_core::identity::{Identity, IdentityError};
use ya_ok_core::identity_store::{
    load_identity, save_identity, IdentityStoreError, StoredIdentity,
};
use ya_ok_core::peer_store::{
    add_peer_global, init_peer_store, list_peers_global, remove_peer_global, PeerStore,
    PeerStoreError, PeerStoreSlot,
};
use ya_ok_core::time::Timestamp;

#[test]
fn identifier_is_the_public_key_in_hexadecimal() {
    let identity = Identity::new();
    assert_eq!(identity.id(), hex::encode(identity.public_key_bytes()));
    assert_eq!(identity.id, identity.id());
    assert_eq!(identity.id().len(), 64);
    assert!(identity.signing_key_bytes().is_some());
    assert!(identity.x25519_secret().is_some());
    assert!(identity.x25519_public().is_some());
}

#[test]
fn key_pairs_are_drawn_on_their_own() {
    let identity = Identity::new();
    assert_ne!(identity.signing_key_bytes().unwrap(), *identity.x25519_secret().unwrap());
    assert_ne!(identity.public_key_bytes(), identity.x25519_public_bytes().unwrap());
    let other = Identity::new();
    assert_ne!(identity.id(), other.id());
}

#[test]
fn signature_verifies_under_the_public_key() {
    let identity = Identity::new();
    let signature = identity.sign(b"data").unwrap();
    assert!(identity.verify(b"data", &signature).is_ok());
    assert_eq!(identity.verify(b"datb", &signature), Err(IdentityError::InvalidSignature));
    let verifier = Identity::from_bytes(&identity.public_key_bytes()).unwrap();
    assert!(verifier.verify(b"data", &signature).is_ok());
    assert_eq!(verifier.sign(b"data"), Err(IdentityError::NoPrivateKey));
    assert!(verifier.x25519_public_bytes().is_none());
}

#[test]
fn signing_key_of_rfc_8032_gives_its_public_key_and_signature() {
    let secret: [u8; 32] = [
        0x9d, 0x61, 0xb1, 0x9d, 0xef, 0xfd, 0x5a, 0x60, 0xba, 0x84, 0x4a, 0xf4, 0x92, 0xec, 0x2c,
        0xc4, 0x44, 0x49, 0xc5, 0x69, 0x7b, 0x32, 0x69, 0x19, 0x70, 0x3b, 0xac, 0x03, 0x1c, 0xae,
        0x7f, 0x60,
    ];
    let identity = Identity::from_signing_key(secret);
    assert_eq!(
        identity.id(),
        "d75a980182b10ab7d54bfed3c964073a0ee172f3daa62325af021a68f707511a"
    );
    let signature = identity.sign(b"").unwrap();
    assert_eq!(
        hex::encode(signature),
        "e5564300c360ac729086e2cc806e828a84877f1eb8e5d974d873e065224901555fb8821590a33bacc61e39701cf9b46bd25bf5f0595bbe24655141438e7a100b"
    );
}

#[test]
fn key_of_the_wrong_length_is_no_identity() {
    assert!(matches!(Identity::from_bytes(&[0u8; 31]), Err(IdentityError::InvalidKeyLength)));
    assert!(matches!(Identity::from_bytes(&[0u8; 33]), Err(IdentityError::InvalidKeyLength)));
    assert!(matches!(Identity::from_bytes(&[]), Err(IdentityError::InvalidKeyLength)));
}

#[test]
fn bytes_that_are_no_point_are_no_identity() {
    let mut bytes = [0u8; 32];
    bytes[0] = 2;
    assert!(matches!(Identity::from_bytes(&bytes), Err(IdentityError::InvalidPublicKey)));
}

#[test]
fn kept_identity_is_restored_with_its_keys() {
    let identity = Identity::new();
    let stored = save_identity(&identity).unwrap();
    assert_eq!(stored.signing_key_hex, hex::encode(identity.signing_key_bytes().unwrap()));
    let restored = load_identity(Some(&stored)).unwrap().unwrap();
    assert_eq!(restored.id(), identity.id());
    assert_eq!(restored.signing_key_bytes(), identity.signing_key_bytes());
    assert_eq!(restored.x25519_secret(), identity.x25519_secret());
    assert_eq!(restored.x25519_public_bytes(), identity.x25519_public_bytes());
}

#[test]
fn nothing_kept_is_no_identity() {
    assert!(load_identity(None).unwrap().is_none());
}

#[test]
fn older_file_gets_a_fresh_agreement_key() {
    let identity = Identity::new();
    let stored = StoredIdentity {
        signing_key_hex: hex::encode(identity.signing_key_bytes().unwrap()),
        x25519_secret_hex: None,
    };
    let restored = load_identity(Some(&stored)).unwrap().unwrap();
    assert_eq!(restored.id(), identity.id());
    assert!(restored.x25519_secret().is_some());
    assert_ne!(restored.x25519_secret(), identity.x25519_secret());
}

#[test]
fn malformed_kept_keys_are_refused() {
    let bad_hex = StoredIdentity { signing_key_hex: "zz".to_string(), x25519_secret_hex: None };
    assert!(matches!(load_identity(Some(&bad_hex)), Err(IdentityStoreError::InvalidHex)));
    let short = StoredIdentity { signing_key_hex: "abcd".to_string(), x25519_secret_hex: None };
    assert!(matches!(
        load_identity(Some(&short)),
        Err(IdentityStoreError::InvalidKeyLength(2))
    ));
    let bad_x = StoredIdentity {
        signing_key_hex: "11".repeat(32),
        x25519_secret_hex: Some("22".repeat(31)),
    };
    assert!(matches!(
        load_identity(Some(&bad_x)),
        Err(IdentityStoreError::InvalidKeyLength(31))
    ));
    let verifier = Identity::from_bytes(&Identity::new().public_key_bytes()).unwrap();
    assert!(matches!(save_identity(&verifier), Err(IdentityStoreError::MissingPrivateKey)));
}

#[test]
fn registry_adds_lists_and_removes() {
    let mut store = PeerStore::new();
    let now = Timestamp::from_secs(1_700_000_000);
    let a = "aa".repeat(32);
    let b = "bb".repeat(32);
    let added = store.add_peer(&a, Some("alice".to_string()), now).unwrap();
    assert_eq!(added.id, a);
    assert_eq!(added.meta.as_deref(), Some("alice"));
    assert_eq!(added.added_at, now);
    store.add_peer(&b, None, now).unwrap();
    store.add_peer(&a, Some("alice again".to_string()), now.plus_seconds(1)).unwrap();
    let peers = store.list_peers();
    assert_eq!(peers.len(), 2);
    assert_eq!(peers[0].id, b);
    assert_eq!(peers[1].meta.as_deref(), Some("alice again"));
    assert!(matches!(store.add_peer("nothex", None, now), Err(PeerStoreError::InvalidKey)));
    assert!(matches!(store.add_peer("abcd", None, now), Err(PeerStoreError::InvalidKey)));
    assert_eq!(store.remove_peer(&b).unwrap(), true);
    assert_eq!(store.remove_peer(&b).unwrap(), false);
    assert_eq!(store.list_peers().len(), 1);
}

#[test]
fn registry_of_the_program_is_set_up_once() {
    let mut slot = PeerStoreSlot::new();
    let now = Timestamp::from_secs(1_700_000_000);
    let a = "aa".repeat(32);
    assert!(add_peer_global(&mut slot, &a, None, now).is_err());
    assert!(list_peers_global(&slot).is_err());
    assert!(remove_peer_global(&mut slot, &a).is_err());
    init_peer_store(&mut slot, PeerStore::new()).unwrap();
    assert!(matches!(
        init_peer_store(&mut slot, PeerStore::new()),
        Err(PeerStoreError::AlreadyInitialized)
    ));
    add_peer_global(&mut slot, &a, None, now).unwrap();
    assert!(add_peer_global(&mut slot, "xyz", None, now).is_err());
    assert_eq!(list_peers_global(&slot).unwrap().len(), 1);
    assert_eq!(remove_peer_global(&mut slot, &a), Ok(true));
    assert_eq!(remove_peer_global(&mut slot, &a), Ok(false));
}

#[test]
fn set_up_stops_at_a_kept_identity_that_cannot_be_restored() {
    let mut slot = PeerStoreSlot::new();
    let bad = StoredIdentity { signing_key_hex: "zz".to_string(), x25519_secret_hex: None };
    let r = ya_ok_core::init(Some(&bad), Some(PeerStore::new()), &mut slot);
    assert!(r.unwrap_err().starts_with("Failed to load identity"));
    assert!(list_peers_global(&slot).is_err());
    assert!(ya_ok_core::init(None, Some(PeerStore::new()), &mut slot).is_ok());
    let again = ya_ok_core::init(None, Some(PeerStore::new()), &mut slot);
    assert!(again.unwrap_err().starts_with("Failed to init peer store"));
    assert!(ya_ok_core::init(None, None, &mut slot).is_ok());
}
