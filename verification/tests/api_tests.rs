use ya_ok_core::api::{
    parse_hex_32, parse_transport_type, ApiError, CoreState, MessageExport, MessageSummary,
};
use ya_ok_core::identity::Identity;
use ya_ok_core::message::{Message, MessagePayload, MessageType, StatusType};
use ya_ok_core::packet::Packet;
use ya_ok_core::storage::Storage;
use ya_ok_core::time::Timestamp;
use ya_ok_core::transport::{TransportManager, TransportType};

fn bare_core() -> CoreState {
    CoreState::new(Storage::new(), TransportManager::new())
}

fn core_with_identity() -> CoreState {
    let mut c = bare_core();
    assert_eq!(c.create_identity(), 0);
    c
}

fn now() -> Timestamp {
    Timestamp::now()
}

#[test]
fn status_travels_from_alice_to_bob() {
    let mut alice = core_with_identity();
    let mut bob = core_with_identity();
    let alice_id = alice.get_identity_id().unwrap();
    let bob_id = bob.get_identity_id().unwrap();
    let bob_x = bob.get_identity_x25519_public_key_hex().unwrap();
    assert_eq!(alice.add_peer(&bob_id, &bob_x, now()), 0);
    assert_eq!(alice.send_status(0, now()), 0);

    let exported = alice.export_pending_packets(10).unwrap();
    assert!(!exported.is_empty());
    assert!(!exported.contains(','));

    assert_eq!(bob.import_packets(&exported, now()), 1);
    let recent = bob.get_recent_messages(10);
    assert_eq!(recent.len(), 1);
    assert_eq!(recent[0].sender_id, alice_id);
    assert_eq!(recent[0].message_type, "status");
    assert_eq!(recent[0].status.as_deref(), Some("ok"));
    assert_eq!(recent[0].text, None);
    assert!(!recent[0].has_voice);
}

#[test]
fn text_of_257_characters_is_refused_and_nothing_is_stored() {
    let mut alice = core_with_identity();
    assert_eq!(alice.send_text(&"A".repeat(257), now()), -9);
    assert_eq!(alice.get_stats().storage.total_messages, 0);
    assert_eq!(alice.get_stats().storage.seen_messages, 0);
    assert_eq!(alice.send_text(&"A".repeat(256), now()), 0);
    assert_eq!(alice.get_stats().storage.total_messages, 1);
}

#[test]
fn same_packet_twice_is_stored_once() {
    let alice = Identity::new();
    let mut bob = core_with_identity();
    let bob_x = hex::decode(bob.get_identity_x25519_public_key_hex().unwrap()).unwrap();
    let message = Message::text(alice.id().to_string(), "once".to_string()).unwrap();
    let bytes = Packet::from_message(&message, &alice, &bob_x).unwrap().to_bytes().unwrap();
    let t = message.timestamp;

    assert_eq!(bob.handle_incoming_packet(&bytes, t), 0);
    let stats = bob.get_stats();
    assert_eq!(stats.routing.processed_packets, 1);
    assert_eq!(stats.routing.duplicate_packets, 0);
    assert_eq!(stats.storage.total_messages, 1);

    assert_eq!(bob.handle_incoming_packet(&bytes, t), 0);
    let stats = bob.get_stats();
    assert_eq!(stats.routing.processed_packets, 1);
    assert_eq!(stats.routing.duplicate_packets, 1);
    assert_eq!(stats.storage.total_messages, 1);
    let recent = bob.get_recent_messages_full(10);
    assert_eq!(recent.len(), 1);
    assert_eq!(recent[0].text.as_deref(), Some("once"));
    assert_eq!(recent[0].id, message.id);
}

#[test]
fn packet_with_a_used_nonce_is_not_opened_again() {
    let alice = Identity::new();
    let mut bob = core_with_identity();
    let bob_x = hex::decode(bob.get_identity_x25519_public_key_hex().unwrap()).unwrap();
    let first = Message::text(alice.id().to_string(), "first".to_string()).unwrap();
    let second = Message::text(alice.id().to_string(), "second".to_string()).unwrap();
    let t = first.timestamp;
    let a = Packet::seal(&first, &alice, &bob_x, &[1u8; 32], [9u8; 24]).unwrap();
    let b = Packet::seal(&second, &alice, &bob_x, &[1u8; 32], [9u8; 24]).unwrap();
    assert_eq!(bob.handle_incoming_packet(&a.to_bytes().unwrap(), t), 0);
    assert_eq!(bob.handle_incoming_packet(&b.to_bytes().unwrap(), t), 0);
    let stats = bob.get_stats();
    assert_eq!(stats.routing.processed_packets, 2);
    assert_eq!(stats.storage.total_messages, 1);
    assert_eq!(bob.get_recent_messages(10)[0].text.as_deref(), Some("first"));
    let mallory = Identity::new();
    let third = Message::text(mallory.id().to_string(), "third".to_string()).unwrap();
    let c = Packet::seal(&third, &mallory, &bob_x, &[1u8; 32], [9u8; 24]).unwrap();
    assert_eq!(bob.handle_incoming_packet(&c.to_bytes().unwrap(), t), 0);
    assert_eq!(bob.get_stats().storage.total_messages, 2);
}

#[test]
fn packet_for_another_receiver_is_routed_and_not_stored() {
    let alice = Identity::new();
    let carol = Identity::new();
    let mut bob = core_with_identity();
    let message = Message::status(alice.id().to_string(), StatusType::Busy);
    let bytes = Packet::from_message(&message, &alice, &carol.x25519_public_bytes().unwrap())
        .unwrap()
        .to_bytes()
        .unwrap();
    assert_eq!(bob.handle_incoming_packet(&bytes, message.timestamp), 0);
    let stats = bob.get_stats();
    assert_eq!(stats.routing.processed_packets, 1);
    assert_eq!(stats.storage.total_messages, 0);
    assert_eq!(stats.storage.seen_messages, 1);
}

#[test]
fn incoming_bytes_are_held_to_the_packet_format() {
    let mut bob = core_with_identity();
    assert_eq!(bob.handle_incoming_packet(&[1, 2, 3], now()), -9);
    assert_eq!(bob.handle_incoming_packet(&vec![0u8; 140_000], now()), -9);
    let alice = Identity::new();
    let message = Message::status(alice.id().to_string(), StatusType::Busy);
    let bob_x = hex::decode(bob.get_identity_x25519_public_key_hex().unwrap()).unwrap();
    let bytes = Packet::from_message(&message, &alice, &bob_x).unwrap().to_bytes().unwrap();
    let mut nobody = bare_core();
    assert_eq!(nobody.handle_incoming_packet(&bytes, now()), -2);
    assert_eq!(nobody.handle_incoming_packet(&[0], now()), -9);
    assert_eq!(nobody.get_stats().routing.processed_packets, 0);
}

#[test]
fn sender_of_an_incoming_packet_is_learnt() {
    let alice = Identity::new();
    let mut bob = core_with_identity();
    let bob_x = hex::decode(bob.get_identity_x25519_public_key_hex().unwrap()).unwrap();
    let message = Message::status(alice.id().to_string(), StatusType::Later);
    let bytes = Packet::from_message(&message, &alice, &bob_x).unwrap().to_bytes().unwrap();
    assert_eq!(
        bob.handle_incoming_packet_with_peer(&bytes, 1, "192.168.49.1", message.timestamp),
        0
    );
    assert_eq!(bob.send_status(1, now()), 0);
    let exported = bob.export_pending_packets(0).unwrap();
    assert_eq!(bob.get_stats().storage.pending_messages, 2);
    assert_eq!(exported.split(',').count(), 2);
    let mut opened = Vec::new();
    let mut refused = 0;
    for piece in exported.split(',') {
        let raw = ya_ok_core::text::base64_decode(piece).unwrap();
        let packet = Packet::from_bytes(&raw).unwrap();
        match packet.decrypt(&alice) {
            Ok(m) => opened.push(m),
            Err(e) => {
                assert_eq!(e, ya_ok_core::packet::PacketError::InvalidSenderKey);
                assert_eq!(packet.sender_id, alice.id());
                refused += 1;
            }
        }
    }
    assert_eq!(refused, 1);
    assert_eq!(opened.len(), 1);
    assert_eq!(opened[0].sender_id, bob.get_identity_id().unwrap());
    assert!(matches!(opened[0].payload, MessagePayload::Status(StatusType::Busy)));
}

#[test]
fn import_counts_what_was_taken_in() {
    let alice = Identity::new();
    let mut bob = core_with_identity();
    let bob_x = hex::decode(bob.get_identity_x25519_public_key_hex().unwrap()).unwrap();
    let mut pieces = Vec::new();
    let mut t = Timestamp::from_secs(0);
    for text in ["one", "two", "three"] {
        let message = Message::text(alice.id().to_string(), text.to_string()).unwrap();
        t = message.timestamp;
        let bytes = Packet::from_message(&message, &alice, &bob_x).unwrap().to_bytes().unwrap();
        pieces.push(ya_ok_core::text::base64_encode(&bytes));
    }
    let joined = format!("{},,not base64!,{},AAAA,{}", pieces[0], pieces[1], pieces[2]);
    assert_eq!(bob.import_packets(&joined, t), 3);
    assert_eq!(bob.get_stats().storage.total_messages, 3);
    assert_eq!(bob.import_packets("", t), 0);
    assert_eq!(bob.import_packets_with_peer(&pieces[0], 2, "relay", t), 1);
    assert_eq!(bob.get_stats().routing.duplicate_packets, 1);
    let mut nobody = bare_core();
    assert_eq!(nobody.import_packets(&joined, t), -2);
    assert_eq!(nobody.import_packets_with_peer(&joined, 0, "x", t), 0);
}

#[test]
fn sending_needs_an_identity_and_a_valid_message() {
    let mut nobody = bare_core();
    assert_eq!(nobody.send_status(0, now()), -2);
    assert_eq!(nobody.send_text("hi", now()), -2);
    assert_eq!(nobody.send_voice(&[1], now()), -2);
    assert!(nobody.get_identity_id().is_none());
    assert!(nobody.get_identity_x25519_public_key_hex().is_none());
    assert!(nobody.export_pending_packets(10).is_none());

    let mut alice = core_with_identity();
    assert_eq!(alice.send_status(3, now()), -3);
    assert_eq!(alice.send_status(-1, now()), -3);
    assert_eq!(alice.send_status(2, now()), 0);
    assert_eq!(alice.send_text("a;b", now()), -9);
    assert_eq!(alice.send_text("", now()), -9);
    assert_eq!(alice.send_voice(&[], now()), -7);
    assert_eq!(alice.send_voice(&vec![0u8; 56_001], now()), -9);
    assert_eq!(alice.send_voice(&vec![0u8; 56_000], now()), 0);
    assert_eq!(alice.get_stats().storage.total_messages, 2);
    assert_eq!(alice.send_status(0, Timestamp { secs: i64::MAX, nanos: 0 }), -5);
}

#[test]
fn policy_denies_before_anything_is_stored() {
    let mut alice = core_with_identity();
    assert_eq!(alice.set_policy(4), -10);
    assert_eq!(alice.set_policy(-1), -10);
    assert_eq!(alice.set_policy(2), 0);
    assert_eq!(alice.send_text(&"a".repeat(65), now()), -4);
    assert_eq!(alice.send_voice(&vec![0u8; 8_000], now()), -4);
    assert_eq!(alice.send_voice(&vec![0u8; 7_999], now()), 0);
    assert_eq!(alice.send_text(&"a".repeat(64), now()), 0);
    assert_eq!(alice.set_policy(1), 0);
    assert_eq!(alice.send_text(&"a".repeat(129), now()), -4);
    assert_eq!(alice.set_policy(0), 0);
    assert_eq!(alice.send_text(&"a".repeat(129), now()), 0);
    assert_eq!(alice.set_policy(3), 0);
    assert_eq!(alice.get_stats().storage.total_messages, 3);
}

#[test]
fn peers_are_added_by_their_keys_in_hexadecimal() {
    let mut alice = core_with_identity();
    let id = "ab".repeat(32);
    let x = "CD".repeat(32);
    assert_eq!(alice.add_peer(&format!("  {}\n", id), &x, now()), 0);
    assert_eq!(alice.add_peer("", &x, now()), -8);
    assert_eq!(alice.add_peer(&id, "   ", now()), -8);
    assert_eq!(alice.add_peer("xyz", &x, now()), -10);
    assert_eq!(alice.add_peer(&"ab".repeat(31), &x, now()), -10);
    assert_eq!(alice.add_peer(&id, &"cd".repeat(33), now()), -10);
    assert_eq!(alice.send_status(0, now()), 0);
    let exported = alice.export_pending_packets(10).unwrap();
    assert_eq!(exported.split(',').count(), 1);
    assert_eq!(alice.add_peer(&"12".repeat(32), &x, now()), 0);
    let exported = alice.export_pending_packets(10).unwrap();
    assert_eq!(exported.split(',').count(), 2);
}

#[test]
fn nothing_is_exported_without_peers() {
    let mut alice = core_with_identity();
    assert_eq!(alice.send_status(0, now()), 0);
    assert_eq!(alice.export_pending_packets(10).unwrap(), "");
    assert_eq!(alice.export_pending_messages(10).len(), 1);
    assert_eq!(alice.get_stats().storage.pending_messages, 1);
}

#[test]
fn messages_are_exported_and_imported_as_text_fields() {
    let mut alice = core_with_identity();
    let t = now();
    assert_eq!(alice.send_status(1, t), 0);
    assert_eq!(alice.send_text("Hello, Bob!", t.plus_seconds(1)), 0);
    assert_eq!(alice.send_voice(&[1, 2, 3], t.plus_seconds(2)), 0);
    let exports = alice.export_pending_messages(0);
    assert_eq!(exports.len(), 3);
    assert_eq!(exports[0].message_type, "status");
    assert_eq!(exports[0].status.as_deref(), Some("busy"));
    assert_eq!(exports[1].text.as_deref(), Some("Hello, Bob!"));
    assert_eq!(exports[2].voice_base64.as_deref(), Some("AQID"));
    assert_eq!(alice.export_pending_messages(2).len(), 2);

    let mut bob = bare_core();
    assert_eq!(bob.import_messages(exports, t), 3);
    assert_eq!(bob.get_stats().storage.total_messages, 3);
    assert_eq!(bob.get_stats().storage.pending_messages, 0);
    let recent = bob.get_recent_messages(2);
    assert_eq!(recent.len(), 2);
    assert!(recent.iter().all(|m| m.sender_id == alice.get_identity_id().unwrap()));
    assert_eq!(bob.import_messages(alice.export_pending_messages(0), t), 3);
    assert_eq!(bob.get_stats().storage.total_messages, 3);
}

#[test]
fn export_stands_for_its_message() {
    let message = Message::with_id(
        "123e4567-e89b-12d3-a456-426614174000".to_string(),
        "alice".to_string(),
        Timestamp { secs: 1_700_000_000, nanos: 0 },
        MessageType::Voice,
        MessagePayload::Voice(vec![255, 0, 7]),
    );
    let export = MessageExport::from_message(&message);
    assert_eq!(export.id, "123e4567-e89b-12d3-a456-426614174000");
    assert_eq!(export.sender_id, "alice");
    assert_eq!(export.timestamp, "2023-11-14T22:13:20+00:00");
    assert_eq!(export.message_type, "voice");
    assert_eq!(export.voice_base64.as_deref(), Some("/wAH"));
    assert_eq!(export.status, None);
    let back = export.to_message().unwrap();
    assert_eq!(back.id, message.id);
    assert_eq!(back.timestamp, message.timestamp);
    assert!(matches!(back.payload, MessagePayload::Voice(v) if v == vec![255, 0, 7]));
    let summary = MessageSummary::from_message(&message);
    assert!(summary.has_voice);
    assert_eq!(summary.message_type, "voice");
    assert_eq!(summary.timestamp, "2023-11-14T22:13:20+00:00");
}

fn export(kind: &str, status: Option<&str>, time: &str, voice: Option<&str>) -> MessageExport {
    MessageExport {
        id: "i".to_string(),
        sender_id: "s".to_string(),
        timestamp: time.to_string(),
        message_type: kind.to_string(),
        status: status.map(|s| s.to_string()),
        text: None,
        voice_base64: voice.map(|s| s.to_string()),
    }
}

#[test]
fn malformed_exports_stand_for_nothing() {
    let t = "2024-01-01T00:00:00Z";
    assert!(export("status", Some("later"), t, None).to_message().is_ok());
    assert!(matches!(
        export("status", Some("fine"), t, None).to_message(),
        Err(ApiError::InvalidParameters)
    ));
    assert!(export("status", None, t, None).to_message().is_err());
    assert!(export("status", Some("ok"), "yesterday", None).to_message().is_err());
    assert!(export("photo", None, t, None).to_message().is_err());
    assert!(export("voice", None, t, Some("***")).to_message().is_err());
    let empty_text = export("text", None, t, None).to_message().unwrap();
    assert!(matches!(empty_text.payload, MessagePayload::Text(t) if t.is_empty()));
    let empty_voice = export("voice", None, t, None).to_message().unwrap();
    assert!(matches!(empty_voice.payload, MessagePayload::Voice(v) if v.is_empty()));
    let mut bob = bare_core();
    let text_epoch = Timestamp::from_secs(0);
    assert_eq!(bob.import_messages(vec![export("text", None, t, None)], text_epoch), 0);
    assert_eq!(bob.import_messages(vec![export("photo", None, t, None)], text_epoch), 0);
}

#[test]
fn delivered_message_is_no_longer_pending() {
    let mut alice = core_with_identity();
    assert_eq!(alice.send_status(0, now()), 0);
    let id = alice.get_recent_messages(1)[0].id.clone();
    assert_eq!(alice.mark_delivered(&id), 0);
    assert_eq!(alice.mark_delivered("no such message"), 0);
    assert_eq!(alice.get_stats().storage.pending_messages, 0);
    assert_eq!(alice.export_pending_messages(10).len(), 0);
    assert!(alice.get_acks_for_message(&id).is_empty());
}

#[test]
fn wipe_forgets_everything() {
    let mut alice = core_with_identity();
    assert_eq!(alice.add_peer(&"ab".repeat(32), &"cd".repeat(32), now()), 0);
    assert_eq!(alice.send_status(0, now()), 0);
    assert_eq!(alice.wipe_local_data(), 0);
    assert!(alice.get_identity_id().is_none());
    assert_eq!(alice.get_stats().storage.total_messages, 0);
    assert_eq!(alice.get_stats().storage.seen_messages, 0);
    assert_eq!(alice.create_identity(), 0);
    assert_eq!(alice.export_pending_packets(10).unwrap(), "");
}

#[test]
fn identity_is_made_once() {
    let mut alice = core_with_identity();
    let id = alice.get_identity_id().unwrap();
    assert_eq!(alice.create_identity(), 0);
    assert_eq!(alice.get_identity_id().unwrap(), id);
    assert_eq!(id.len(), 64);
    assert_eq!(alice.get_identity_x25519_public_key_hex().unwrap().len(), 64);
    let kept = Identity::new();
    let kept_id = kept.id().to_string();
    alice.set_identity(kept);
    assert_eq!(alice.get_identity_id().unwrap(), kept_id);
    assert_eq!(alice.start_listening(), 0);
    assert_eq!(alice.stop_listening(), 0);
}

#[test]
fn numbers_name_kinds_of_link() {
    assert_eq!(parse_transport_type(0), TransportType::Ble);
    assert_eq!(parse_transport_type(1), TransportType::WifiDirect);
    assert_eq!(parse_transport_type(2), TransportType::Udp);
    assert_eq!(parse_transport_type(3), TransportType::Satellite);
    assert_eq!(parse_transport_type(4), TransportType::Ble);
    assert_eq!(parse_transport_type(-7), TransportType::Ble);
    assert_eq!(parse_hex_32(&"0f".repeat(32)).unwrap(), [15u8; 32]);
    assert!(matches!(parse_hex_32("0f"), Err(ApiError::InvalidParameters)));
    assert!(matches!(parse_hex_32(&"0g".repeat(32)), Err(ApiError::InvalidParameters)));
}
