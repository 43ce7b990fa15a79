use ya_ok_core::api::{open_packet, ApiError, CoreState, MessageExport};
use ya_ok_core::crypto::CryptoError;
use ya_ok_core::identity::Identity;
use ya_ok_core::identity_store::{load_identity, save_identity, StoredIdentity};
use ya_ok_core::message::{Message, StatusType};
use ya_ok_core::packet::{Packet, PacketError};
use ya_ok_core::peer_store::{
    add_peer_global, init_peer_store, list_peers_global, remove_peer_global, PeerRecord,
    PeerStore, PeerStoreSlot,
};
use ya_ok_core::relay::{answer, route_request, Body, MetricsRoute, Stats};
use ya_ok_core::routing::RoutingError;
use ya_ok_core::storage::{Storage, StorageError, StorageTables};
use ya_ok_core::time::Timestamp;
use ya_ok_core::transport::{TransportError, TransportManager};

fn t0() -> Timestamp {
    Timestamp::from_secs(1_700_000_000)
}

fn filled() -> (Storage, Message, Message) {
    let mut store = Storage::new();
    let a = Message::status("alice".to_string(), StatusType::Okay);
    let b = Message::text("bob".to_string(), "hello".to_string()).unwrap();
    store.store_message(&a, t0()).unwrap();
    store.store_message_with_delivered(&b, true, t0().plus_seconds(5)).unwrap();
    store.mark_message_seen("only seen", t0()).unwrap();
    store.store_ack(&a.id, "bob", "Received", t0().plus_seconds(6)).unwrap();
    store.mark_nonce_used(&[7u8; 24], "alice", t0()).unwrap();
    (store, a, b)
}

#[test]
fn tables_of_a_store_make_the_same_store() {
    let (store, a, b) = filled();
    let tables = store.tables();
    assert_eq!(tables.messages.len(), 2);
    assert_eq!(tables.messages[0].message_id, a.id);
    assert_eq!(tables.messages[1].message_id, b.id);
    assert!(tables.messages[1].delivered);
    assert_eq!(tables.messages[0].ttl, 3600);
    assert_eq!(tables.seen.len(), 3);
    assert_eq!(tables.acks.len(), 1);
    assert_eq!(tables.nonces.len(), 1);
    assert_eq!(tables.nonces[0].nonce_hex, "07".repeat(24));
    assert_eq!(tables.nonces[0].expires_at, t0().plus_seconds(86_400));

    let again = Storage::from_tables(tables).unwrap();
    let stats = again.get_stats().unwrap();
    assert_eq!(stats.total_messages, 2);
    assert_eq!(stats.pending_messages, 1);
    assert_eq!(stats.seen_messages, 3);
    assert!(again.is_message_seen("only seen").unwrap());
    assert!(again.is_nonce_used(&[7u8; 24], "alice").unwrap());
    assert!(!again.is_nonce_used(&[7u8; 24], "bob").unwrap());
    assert_eq!(again.get_acks_for_message(&a.id).unwrap().len(), 1);
    let recent = again.get_recent_messages(10).unwrap();
    assert_eq!(recent[0].id, b.id);
    assert_eq!(recent[1].id, a.id);
}

#[test]
fn tables_that_break_the_order_of_a_store_are_refused() {
    let (store, _, _) = filled();

    let mut twice = store.tables();
    let copy = twice.messages[0].clone();
    twice.messages.insert(1, copy);
    assert!(matches!(Storage::from_tables(twice), Err(StorageError::InvalidInput(_))));

    let mut swapped = store.tables();
    swapped.messages.swap(0, 1);
    assert!(matches!(Storage::from_tables(swapped), Err(StorageError::InvalidInput(_))));

    let mut unseen = store.tables();
    unseen.seen.remove(0);
    assert!(matches!(Storage::from_tables(unseen), Err(StorageError::InvalidInput(_))));

    let mut garbled = store.tables();
    garbled.messages[0].message_data = vec![1, 2, 3];
    assert!(matches!(Storage::from_tables(garbled), Err(StorageError::InvalidInput(_))));

    let empty = StorageTables { messages: vec![], seen: vec![], acks: vec![], nonces: vec![] };
    assert_eq!(Storage::from_tables(empty).unwrap().get_stats().unwrap().total_messages, 0);
}

#[test]
fn packet_opens_once_for_its_nonce_and_sender() {
    let alice = Identity::new();
    let bob = Identity::new();
    let bob_x = bob.x25519_public_bytes().unwrap();
    let first = Message::text(alice.id().to_string(), "first".to_string()).unwrap();
    let second = Message::text(alice.id().to_string(), "second".to_string()).unwrap();
    let a = Packet::seal(&first, &alice, &bob_x, &[3u8; 32], [5u8; 24]).unwrap();
    let b = Packet::seal(&second, &alice, &bob_x, &[4u8; 32], [5u8; 24]).unwrap();
    let mut store = Storage::new();
    assert!(b.decrypt(&bob).is_ok());
    let opened = open_packet(&a, &bob, &mut store, t0()).unwrap();
    assert_eq!(opened.id, first.id);
    assert!(store.is_nonce_used(&[5u8; 24], alice.id()).unwrap());
    assert_eq!(store.tables().nonces[0].used_at, t0());
    assert!(open_packet(&b, &bob, &mut store, t0().plus_seconds(1)).is_none());
    assert!(open_packet(&a, &bob, &mut store, t0().plus_seconds(1)).is_none());
    assert_eq!(store.tables().nonces.len(), 1);
    store.cleanup_expired_nonces(t0().plus_seconds(86_400)).unwrap();
    assert!(open_packet(&b, &bob, &mut store, t0().plus_seconds(86_400)).is_none());
    store.cleanup_expired_nonces(t0().plus_seconds(86_401)).unwrap();
    assert!(open_packet(&b, &bob, &mut store, t0().plus_seconds(86_401)).is_some());
    let stranger = Identity::new();
    let mut other = Storage::new();
    assert!(open_packet(&a, &stranger, &mut other, t0()).is_none());
    assert_eq!(other.tables().nonces.len(), 0);
}

#[test]
fn built_packet_is_read_from_its_bytes_as_it_was_built() {
    let alice = Identity::new();
    let bob = Identity::new();
    let message = Message::voice(alice.id().to_string(), vec![0u8; 56_000]).unwrap();
    let packet =
        Packet::from_message(&message, &alice, &bob.x25519_public_bytes().unwrap()).unwrap();
    let bytes = packet.to_bytes().unwrap();
    let read = Packet::from_bytes(&bytes).unwrap();
    assert_eq!(read.to_bytes().unwrap(), bytes);
    assert_eq!(read.signature, packet.signature);
    assert_eq!(read.decrypt(&bob).unwrap().id, message.id);
    let loud = Message::voice(alice.id().to_string(), vec![255u8; 56_000]).unwrap();
    let large = Packet::from_message(&loud, &alice, &bob.x25519_public_bytes().unwrap()).unwrap();
    assert!(large.encrypted_payload.ciphertext.len() > 65_536);
    assert!(matches!(
        Packet::from_bytes(&large.to_bytes().unwrap()),
        Err(PacketError::PacketTooLarge(_))
    ));
}

#[test]
fn exports_are_imported_in_their_order() {
    let now = t0();
    let mut first = CoreState::new(Storage::new(), TransportManager::new());
    let exports: Vec<MessageExport> = ["one", "two", "three"]
        .iter()
        .enumerate()
        .map(|(i, text)| MessageExport {
            id: format!("id-{}", i),
            sender_id: "alice".to_string(),
            timestamp: "2024-01-01T00:00:00Z".to_string(),
            message_type: "text".to_string(),
            status: None,
            text: Some(text.to_string()),
            voice_base64: None,
        })
        .collect();
    assert_eq!(first.import_messages(exports, now), 3);
    let rows = first.storage().tables().messages;
    let ids: Vec<&str> = rows.iter().map(|r| r.message_id.as_str()).collect();
    assert_eq!(ids, vec!["id-0", "id-1", "id-2"]);
    assert!(rows.iter().all(|r| r.delivered && r.received_at == now));
    let recent = first.get_recent_messages(2);
    assert_eq!(recent[0].text.as_deref(), Some("three"));
    assert_eq!(recent[1].text.as_deref(), Some("two"));
    assert_eq!(first.export_pending_messages(10).len(), 0);
}

#[test]
fn registry_of_peers_is_gathered_from_its_records() {
    let record = |id: &str, meta: &str| PeerRecord {
        id: id.to_string(),
        meta: Some(meta.to_string()),
        added_at: t0(),
    };
    let store = PeerStore::from_records(vec![
        record("a", "first"),
        record("b", "second"),
        record("a", "third"),
    ]);
    let peers = store.list_peers();
    assert_eq!(peers.len(), 2);
    assert_eq!(peers[0].id, "b");
    assert_eq!(peers[1].id, "a");
    assert_eq!(peers[1].meta.as_deref(), Some("third"));

    let mut slot = PeerStoreSlot::new();
    assert!(list_peers_global(&slot).is_err());
    assert!(add_peer_global(&mut slot, &"ab".repeat(32), None, t0()).is_err());
    assert!(remove_peer_global(&mut slot, "a").is_err());
    init_peer_store(&mut slot, store).unwrap();
    assert!(init_peer_store(&mut slot, PeerStore::new()).is_err());
    let added = add_peer_global(&mut slot, &"ab".repeat(32), Some("m".to_string()), t0()).unwrap();
    assert_eq!(added.id, "ab".repeat(32));
    assert_eq!(added.added_at, t0());
    assert_eq!(
        add_peer_global(&mut slot, "xyz", None, t0()).unwrap_err(),
        "peer store error: Invalid public key"
    );
    assert_eq!(list_peers_global(&slot).unwrap().len(), 3);
    assert_eq!(remove_peer_global(&mut slot, "b"), Ok(true));
    assert_eq!(remove_peer_global(&mut slot, "b"), Ok(false));
    assert_eq!(list_peers_global(&slot).unwrap().len(), 2);
}

#[test]
fn set_up_needs_an_identity_that_can_be_restored() {
    let kept = save_identity(&Identity::new()).unwrap();
    let mut slot = PeerStoreSlot::new();
    assert!(ya_ok_core::init(Some(&kept), Some(PeerStore::new()), &mut slot).is_ok());
    assert!(list_peers_global(&slot).is_ok());
    assert!(ya_ok_core::init(Some(&kept), Some(PeerStore::new()), &mut slot).is_err());
    assert!(ya_ok_core::init(Some(&kept), None, &mut slot).is_ok());
    assert!(ya_ok_core::init(None, None, &mut slot).is_ok());

    let broken = StoredIdentity { signing_key_hex: "zz".to_string(), x25519_secret_hex: None };
    let mut fresh = PeerStoreSlot::new();
    let refused = ya_ok_core::init(Some(&broken), Some(PeerStore::new()), &mut fresh);
    assert_eq!(refused.unwrap_err(), "Failed to load identity: Invalid hex data");
    assert!(list_peers_global(&fresh).is_err());
    let short = StoredIdentity {
        signing_key_hex: kept.signing_key_hex.clone(),
        x25519_secret_hex: Some("abcd".to_string()),
    };
    assert!(load_identity(Some(&short)).is_err());
    assert!(ya_ok_core::init(Some(&short), None, &mut fresh).is_err());
}

#[test]
fn relay_answers_for_its_own_routes() {
    let stats = Stats { received: 3, forwarded: 6, ..Stats::default() };
    let health = answer(route_request("GET", "/health"), &stats, 12, "0.1.0").unwrap();
    assert_eq!(health.status, 200);
    assert_eq!(health.content_type, "application/json");
    assert!(matches!(
        health.body,
        Body::Health { uptime_secs: 12, ref version } if version == "0.1.0"
    ));
    let json = answer(MetricsRoute::MetricsJson, &stats, 0, "v").unwrap();
    assert!(matches!(json.body, Body::Counts(counts) if counts == stats));
    assert_eq!(json.content_type, "application/json");
    let text = answer(route_request("GET", "/metrics"), &stats, 0, "v").unwrap();
    assert_eq!(text.content_type, "text/plain; charset=utf-8");
    assert!(matches!(text.body, Body::Text(ref t) if t.contains("yaok_relay_forwarded_total 6\n")));
    let missing = answer(route_request("POST", "/metrics"), &stats, 0, "v").unwrap();
    assert_eq!(missing.status, 404);
    assert_eq!(missing.content_type, "");
    assert!(matches!(missing.body, Body::Text(ref t) if t == "Not Found"));
    assert!(answer(route_request("GET", "/"), &stats, 0, "v").is_none());
    assert!(answer(route_request("GET", "/add?name=x"), &stats, 0, "v").is_none());
    assert!(answer(MetricsRoute::Favicon, &stats, 0, "v").is_none());
    assert!(answer(MetricsRoute::OgImage, &stats, 0, "v").is_none());
}

#[test]
fn errors_are_put_in_words() {
    assert_eq!(CryptoError::DecryptionFailed.to_string(), "Decryption failed");
    assert_eq!(
        PacketError::CryptoError(CryptoError::InvalidKey).to_string(),
        "Crypto error: Invalid key"
    );
    assert_eq!(
        ApiError::PacketError(PacketError::InvalidSignature).to_string(),
        "Packet error: Invalid signature"
    );
    assert_eq!(
        ApiError::StorageError(StorageError::InvalidInput("x".to_string())).to_string(),
        "Storage error: Invalid input: x"
    );
    assert_eq!(
        RoutingError::TransportError(TransportError::SendFailed("no".to_string())).to_string(),
        "Transport error: Send failed: no"
    );
    assert_eq!(RoutingError::NoRoute.to_string(), "No route to destination");
}

#[test]
fn tables_with_a_key_twice_are_refused() {
    let (store, _, _) = filled();

    let mut seen_twice = store.tables();
    let again = ya_ok_core::storage::SeenEntry {
        message_id: seen_twice.seen[0].message_id.clone(),
        seen_at: t0(),
    };
    seen_twice.seen.push(again);
    assert!(matches!(Storage::from_tables(seen_twice), Err(StorageError::InvalidInput(_))));

    let mut ack_twice = store.tables();
    let again = ya_ok_core::storage::AckRecord {
        message_id: ack_twice.acks[0].message_id.clone(),
        ack_from: ack_twice.acks[0].ack_from.clone(),
        ack_type: ack_twice.acks[0].ack_type.clone(),
        timestamp: t0().plus_seconds(9),
    };
    ack_twice.acks.push(again);
    assert!(matches!(Storage::from_tables(ack_twice), Err(StorageError::InvalidInput(_))));

    let mut other_kind = store.tables();
    let delivered = ya_ok_core::storage::AckRecord {
        message_id: other_kind.acks[0].message_id.clone(),
        ack_from: other_kind.acks[0].ack_from.clone(),
        ack_type: "Delivered".to_string(),
        timestamp: t0().plus_seconds(9),
    };
    other_kind.acks.push(delivered);
    assert!(Storage::from_tables(other_kind).is_ok());

    let mut nonce_twice = store.tables();
    let again = ya_ok_core::storage::NonceEntry {
        nonce_hex: nonce_twice.nonces[0].nonce_hex.clone(),
        sender_id: nonce_twice.nonces[0].sender_id.clone(),
        used_at: t0(),
        expires_at: t0().plus_seconds(1),
    };
    nonce_twice.nonces.push(again);
    assert!(matches!(Storage::from_tables(nonce_twice), Err(StorageError::InvalidInput(_))));

    let mut other_sender = store.tables();
    let by_bob = ya_ok_core::storage::NonceEntry {
        nonce_hex: other_sender.nonces[0].nonce_hex.clone(),
        sender_id: "bob".to_string(),
        used_at: t0(),
        expires_at: t0().plus_seconds(1),
    };
    other_sender.nonces.push(by_bob);
    assert!(Storage::from_tables(other_sender).is_ok());
}
