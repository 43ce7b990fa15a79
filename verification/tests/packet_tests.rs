use ya_ok_core::crypto::CryptoError;
use ya_ok_core::identity::{Identity, IdentityError};
use ya_ok_core::message::{Message, MessagePayload, MessageType, StatusType};
use ya_ok_core::packet::{Packet, PacketError, Priority};
use ya_ok_core::time::Timestamp;

fn pair() -> (Identity, Identity) {
    (Identity::new(), Identity::new())
}

fn status_from(sender: &Identity) -> Message {
    Message::status(sender.id().to_string(), StatusType::Okay)
}

#[test]
fn receiver_opens_the_packet_to_the_message() {
    let (alice, bob) = pair();
    let message = Message::text(alice.id().to_string(), "See you at six".to_string()).unwrap();
    let packet =
        Packet::from_message(&message, &alice, &bob.x25519_public_bytes().unwrap()).unwrap();
    let opened = packet.decrypt(&bob).unwrap();
    assert_eq!(opened.id, message.id);
    assert_eq!(opened.sender_id, message.sender_id);
    assert_eq!(opened.timestamp, message.timestamp);
    assert_eq!(opened.message_type, MessageType::Text);
    assert!(matches!(opened.payload, MessagePayload::Text(t) if t == "See you at six"));
}

#[test]
fn packet_starts_with_its_defaults() {
    let (alice, bob) = pair();
    let message = status_from(&alice);
    let packet =
        Packet::from_message(&message, &alice, &bob.x25519_public_bytes().unwrap()).unwrap();
    assert_eq!(packet.message_id, message.id);
    assert_eq!(packet.sender_id, alice.id());
    assert_eq!(packet.sender_public_key, alice.public_key_bytes().to_vec());
    assert_eq!(packet.sender_x25519_public_key, alice.x25519_public_bytes().unwrap().to_vec());
    assert_eq!(packet.timestamp, message.timestamp);
    assert_eq!(packet.ttl, 3600);
    assert_eq!(packet.hops, 0);
    assert_eq!(packet.max_hops, 10);
    assert_eq!(packet.priority, Priority::High);
    assert_eq!(packet.signature.len(), 64);
    assert_eq!(packet.encrypted_payload.nonce.len(), 24);
    assert_eq!(packet.encrypted_payload.sender_public_key.len(), 32);
    assert_ne!(
        packet.encrypted_payload.sender_public_key,
        alice.x25519_public_bytes().unwrap().to_vec()
    );
}

#[test]
fn priority_follows_the_kind_of_message() {
    let (alice, bob) = pair();
    let key = bob.x25519_public_bytes().unwrap();
    let text = Message::text(alice.id().to_string(), "hi".to_string()).unwrap();
    let voice = Message::voice(alice.id().to_string(), vec![1, 2, 3]).unwrap();
    assert_eq!(Packet::from_message(&text, &alice, &key).unwrap().priority, Priority::Medium);
    assert_eq!(Packet::from_message(&voice, &alice, &key).unwrap().priority, Priority::Low);
    assert_eq!(Priority::High.rank(), 2);
    assert_eq!(Priority::Medium.rank(), 1);
    assert_eq!(Priority::Low.rank(), 0);
}

#[test]
fn given_key_and_nonce_give_one_packet() {
    let (alice, bob) = pair();
    let message = status_from(&alice);
    let key = bob.x25519_public_bytes().unwrap();
    let a = Packet::seal(&message, &alice, &key, &[5u8; 32], [6u8; 24]).unwrap();
    let b = Packet::seal(&message, &alice, &key, &[5u8; 32], [6u8; 24]).unwrap();
    assert_eq!(a.to_bytes().unwrap(), b.to_bytes().unwrap());
    assert_eq!(a.encrypted_payload.nonce, vec![6u8; 24]);
    let c = Packet::seal(&message, &alice, &key, &[5u8; 32], [7u8; 24]).unwrap();
    assert_ne!(a.encrypted_payload.ciphertext, c.encrypted_payload.ciphertext);
    assert!(a.decrypt(&bob).is_ok());
}

#[test]
fn packet_round_trips_on_the_wire() {
    let (alice, bob) = pair();
    let message = status_from(&alice);
    let packet =
        Packet::from_message(&message, &alice, &bob.x25519_public_bytes().unwrap()).unwrap();
    let bytes = packet.to_bytes().unwrap();
    let back = Packet::from_bytes(&bytes).unwrap();
    assert_eq!(back.to_bytes().unwrap(), bytes);
    assert_eq!(back.message_id, packet.message_id);
    assert_eq!(back.signature, packet.signature);
    assert_eq!(back.encrypted_payload.ciphertext, packet.encrypted_payload.ciphertext);
    assert!(back.decrypt(&bob).is_ok());
}

#[test]
fn packet_on_the_wire_is_what_a_cbor_library_reads() {
    let (alice, bob) = pair();
    let message = status_from(&alice);
    let mut packet =
        Packet::from_message(&message, &alice, &bob.x25519_public_bytes().unwrap()).unwrap();
    packet.hops = 300;
    packet.ttl = 70_000;
    let bytes = packet.to_bytes().unwrap();
    let value: ciborium::Value = ciborium::de::from_reader(&bytes[..]).unwrap();
    let map = value.as_map().unwrap();
    let keys: Vec<&str> = map.iter().map(|(k, _)| k.as_text().unwrap()).collect();
    assert_eq!(
        keys,
        vec![
            "message_id",
            "sender_id",
            "sender_public_key",
            "sender_x25519_public_key",
            "timestamp",
            "ttl",
            "hops",
            "max_hops",
            "priority",
            "encrypted_payload",
            "signature"
        ]
    );
    assert_eq!(map[0].1.as_text(), Some(packet.message_id.as_str()));
    assert_eq!(map[2].1.as_array().unwrap().len(), 32);
    assert_eq!(map[5].1.as_integer(), Some(70_000u32.into()));
    assert_eq!(map[6].1.as_integer(), Some(300u32.into()));
    assert_eq!(map[7].1.as_integer(), Some(10u32.into()));
    assert_eq!(map[8].1.as_text(), Some("High"));
    let sealed = map[9].1.as_map().unwrap();
    assert_eq!(sealed[0].0.as_text(), Some("ciphertext"));
    assert_eq!(sealed[1].1.as_array().unwrap().len(), 24);
    assert_eq!(sealed[2].0.as_text(), Some("sender_public_key"));
    assert_eq!(map[10].1.as_array().unwrap().len(), 64);
    let mut again = Vec::new();
    ciborium::ser::into_writer(&value, &mut again).unwrap();
    assert_eq!(again, bytes);
}

fn flipped_bits_break_reading_or_opening(bits: [u8; 2]) {
    let (alice, bob) = pair();
    let message = status_from(&alice);
    let packet =
        Packet::from_message(&message, &alice, &bob.x25519_public_bytes().unwrap()).unwrap();
    let bytes = packet.to_bytes().unwrap();
    for i in 0..bytes.len() {
        for bit in bits {
            let mut bad = bytes.clone();
            bad[i] ^= 1 << bit;
            let ok = match Packet::from_bytes(&bad) {
                Ok(p) => p.decrypt(&bob).is_ok(),
                Err(_) => false,
            };
            assert!(!ok, "byte {} bit {}", i, bit);
        }
    }
}

#[test]
fn every_flipped_bit_breaks_reading_or_opening() {
    flipped_bits_break_reading_or_opening([0, 1]);
}

#[test]
fn every_flipped_bit_breaks_reading_or_opening_bits_2_and_3() {
    flipped_bits_break_reading_or_opening([2, 3]);
}

#[test]
fn every_flipped_bit_breaks_reading_or_opening_bits_4_and_5() {
    flipped_bits_break_reading_or_opening([4, 5]);
}

#[test]
fn every_flipped_bit_breaks_reading_or_opening_bits_6_and_7() {
    flipped_bits_break_reading_or_opening([6, 7]);
}

#[test]
fn bytes_that_are_read_are_the_bytes_that_are_written() {
    let (alice, bob) = pair();
    let message = Message::text(alice.id().to_string(), "Hello there".to_string()).unwrap();
    let packet =
        Packet::from_message(&message, &alice, &bob.x25519_public_bytes().unwrap()).unwrap();
    let bytes = packet.to_bytes().unwrap();
    let read = Packet::from_bytes(&bytes).unwrap();
    assert_eq!(read.to_bytes().unwrap(), bytes);
    let mut longer_head = vec![0xb8, 11];
    longer_head.extend_from_slice(&bytes[1..]);
    assert_eq!(bytes[0], 0xab);
    assert!(Packet::from_bytes(&longer_head).is_err());
}

#[test]
fn time_on_the_wire_is_read_in_one_form_only() {
    let (alice, bob) = pair();
    let message = status_from(&alice);
    let packet =
        Packet::from_message(&message, &alice, &bob.x25519_public_bytes().unwrap()).unwrap();
    let bytes = packet.to_bytes().unwrap();
    let text = packet.timestamp.to_wire_text().unwrap();
    let at = bytes.windows(text.len()).position(|w| w == text.as_bytes()).unwrap();
    let t = at + text.find('T').unwrap();
    let z = at + text.len() - 1;
    assert_eq!(bytes[t], b'T');
    assert_eq!(bytes[z], b'Z');
    for (place, other) in [(t, b't'), (t, b' '), (z, b'z')] {
        let mut changed = bytes.clone();
        changed[place] = other;
        assert!(Packet::from_bytes(&changed).is_err());
    }
    assert_eq!(Timestamp::parse_wire(&text), Some(packet.timestamp));
    assert_eq!(Timestamp::parse_wire(&text.replace('T', "t")), None);
    assert_eq!(Timestamp::parse_wire("2023-11-14T22:13:20+00:00"), None);
    assert_eq!(Timestamp::parse_wire("2023-11-14T22:13:20.500000Z"), None);
    assert_eq!(
        Timestamp::parse_wire("2023-11-14T22:13:20.500Z"),
        Some(Timestamp { secs: 1_700_000_000, nanos: 500_000_000 })
    );
    assert_eq!(
        Timestamp::parse_rfc3339("2023-11-14t22:13:20z"),
        Some(Timestamp::from_secs(1_700_000_000))
    );
}

#[test]
fn another_receiver_cannot_open() {
    let (alice, bob) = pair();
    let carol = Identity::new();
    let message = status_from(&alice);
    let packet =
        Packet::from_message(&message, &alice, &bob.x25519_public_bytes().unwrap()).unwrap();
    assert_eq!(
        packet.decrypt(&carol).err(),
        Some(PacketError::CryptoError(CryptoError::DecryptionFailed))
    );
    let verifier = Identity::from_bytes(&bob.public_key_bytes()).unwrap();
    assert_eq!(
        packet.decrypt(&verifier).err(),
        Some(PacketError::CryptoError(CryptoError::InvalidKey))
    );
}

#[test]
fn tampered_envelope_is_refused() {
    let (alice, bob) = pair();
    let message = status_from(&alice);
    let key = bob.x25519_public_bytes().unwrap();
    let packet = Packet::from_message(&message, &alice, &key).unwrap();

    let mut more_hops = packet.clone();
    more_hops.hops = 1;
    assert_eq!(
        more_hops.decrypt(&bob).err(),
        Some(PacketError::IdentityError(IdentityError::InvalidSignature))
    );

    let mut short_signature = packet.clone();
    short_signature.signature.pop();
    assert_eq!(short_signature.decrypt(&bob).err(), Some(PacketError::InvalidSignature));

    let mut no_key = packet.clone();
    no_key.sender_public_key = Vec::new();
    assert_eq!(no_key.decrypt(&bob).err(), Some(PacketError::InvalidSenderKey));

    let mut bad_nonce = packet.clone();
    bad_nonce.encrypted_payload.nonce.pop();
    assert!(bad_nonce.decrypt(&bob).is_err());
}

#[test]
fn sender_must_be_the_one_that_the_key_names() {
    let (alice, bob) = pair();
    let message = Message::status("someone else".to_string(), StatusType::Okay);
    let packet =
        Packet::from_message(&message, &alice, &bob.x25519_public_bytes().unwrap()).unwrap();
    assert_eq!(packet.decrypt(&bob).err(), Some(PacketError::InvalidSenderKey));
}

#[test]
fn receiver_key_must_have_32_bytes() {
    let alice = Identity::new();
    let message = status_from(&alice);
    assert_eq!(
        Packet::from_message(&message, &alice, &[0u8; 31]).err(),
        Some(PacketError::InvalidReceiverKey)
    );
    assert_eq!(
        Packet::from_message(&message, &alice, &[]).err(),
        Some(PacketError::InvalidReceiverKey)
    );
}

#[test]
fn identity_without_a_signing_key_cannot_send() {
    let (alice, bob) = pair();
    let verifier = Identity::from_bytes(&alice.public_key_bytes()).unwrap();
    let message = status_from(&alice);
    assert_eq!(
        Packet::from_message(&message, &verifier, &bob.x25519_public_bytes().unwrap()).err(),
        Some(PacketError::IdentityError(IdentityError::NoPrivateKey))
    );
}

#[test]
fn message_outside_the_calendar_cannot_be_sent() {
    let (alice, bob) = pair();
    let mut message = status_from(&alice);
    message.timestamp = Timestamp { secs: i64::MAX, nanos: 0 };
    assert_eq!(
        Packet::from_message(&message, &alice, &bob.x25519_public_bytes().unwrap()).err(),
        Some(PacketError::SerializationFailed)
    );
}

#[test]
fn limits_are_held_when_a_packet_is_read() {
    let (alice, bob) = pair();
    let message = status_from(&alice);
    let packet =
        Packet::from_message(&message, &alice, &bob.x25519_public_bytes().unwrap()).unwrap();

    let big = vec![0u8; 131_073];
    assert_eq!(Packet::from_bytes(&big).err(), Some(PacketError::PacketTooLarge(131_073)));
    assert_eq!(Packet::from_bytes(&[]).err(), Some(PacketError::DeserializationFailed));
    assert_eq!(Packet::from_bytes(&[0xff; 10]).err(), Some(PacketError::DeserializationFailed));

    let mut long_signature = packet.clone();
    long_signature.signature.push(0);
    assert_eq!(
        Packet::from_bytes(&long_signature.to_bytes().unwrap()).err(),
        Some(PacketError::InvalidSignature)
    );

    let mut bad_key = packet.clone();
    bad_key.sender_public_key.pop();
    assert_eq!(
        Packet::from_bytes(&bad_key.to_bytes().unwrap()).err(),
        Some(PacketError::InvalidSenderKey)
    );

    let mut bad_x = packet.clone();
    bad_x.sender_x25519_public_key.push(1);
    assert_eq!(
        Packet::from_bytes(&bad_x.to_bytes().unwrap()).err(),
        Some(PacketError::InvalidSenderKey)
    );

    let mut no_keys = packet.clone();
    no_keys.sender_public_key = Vec::new();
    no_keys.sender_x25519_public_key = Vec::new();
    assert!(Packet::from_bytes(&no_keys.to_bytes().unwrap()).is_ok());

    let mut much = packet.clone();
    much.encrypted_payload.ciphertext = vec![1u8; 65_537];
    assert_eq!(
        Packet::from_bytes(&much.to_bytes().unwrap()).err(),
        Some(PacketError::PacketTooLarge(65_537))
    );
}

#[test]
fn forwardable_needs_hops_and_time_left() {
    let (alice, bob) = pair();
    let message = status_from(&alice);
    let mut packet =
        Packet::from_message(&message, &alice, &bob.x25519_public_bytes().unwrap()).unwrap();
    let made = Timestamp { secs: 1_700_000_000, nanos: 500_000_000 };
    packet.timestamp = made;
    assert!(packet.can_be_forwarded(&made));
    assert!(packet.can_be_forwarded(&Timestamp { secs: 1_700_003_599, nanos: 999_999_999 }));
    assert!(packet.can_be_forwarded(&Timestamp { secs: 1_700_003_600, nanos: 499_999_999 }));
    assert!(!packet.can_be_forwarded(&Timestamp { secs: 1_700_003_600, nanos: 500_000_000 }));
    assert!(packet.can_be_forwarded(&Timestamp { secs: 1_600_000_000, nanos: 0 }));
    packet.hops = 9;
    assert!(packet.can_be_forwarded(&made));
    packet.increment_hops();
    assert_eq!(packet.hops, 10);
    assert!(!packet.can_be_forwarded(&made));
    packet.ttl = 0;
    packet.hops = 0;
    assert!(!packet.can_be_forwarded(&made));
}

#[test]
fn two_readers_at_one_instant_agree() {
    let (alice, bob) = pair();
    let key = bob.x25519_public_bytes().unwrap();
    let mut a = Packet::from_message(&status_from(&alice), &alice, &key).unwrap();
    let mut b = Packet::from_message(
        &Message::text(alice.id().to_string(), "x".to_string()).unwrap(),
        &alice,
        &key,
    )
    .unwrap();
    for (hops, max_hops, ttl, at) in [(0u32, 10u32, 3600u32, 10i64), (5, 5, 10, 3), (1, 2, 7, 7)] {
        for p in [&mut a, &mut b] {
            p.hops = hops;
            p.max_hops = max_hops;
            p.ttl = ttl;
            p.timestamp = Timestamp::from_secs(100);
        }
        let now = Timestamp::from_secs(100 + at);
        assert_eq!(a.can_be_forwarded(&now), b.can_be_forwarded(&now));
        assert_eq!(a.can_be_forwarded(&now), a.clone().can_be_forwarded(&now));
    }
}

#[test]
fn names_of_priorities() {
    assert_eq!(Priority::Low.name(), "Low");
    assert_eq!(Priority::from_name("Medium"), Some(Priority::Medium));
    assert_eq!(Priority::from_name("high"), None);
    assert_eq!(PacketError::PacketTooLarge(5).to_string(), "Packet too large");
    assert_eq!(
        PacketError::CryptoError(CryptoError::InvalidKey).to_string(),
        "Crypto error: Invalid key"
    );
}

#[test]
fn priorities_are_ordered_from_low_to_high() {
    assert!(Priority::Low < Priority::Medium);
    assert!(Priority::Medium < Priority::High);
    assert_eq!(Priority::High.max(Priority::Low), Priority::High);
    let mut all = vec![Priority::Medium, Priority::High, Priority::Low];
    all.sort();
    assert_eq!(all, vec![Priority::Low, Priority::Medium, Priority::High]);
}

#[test]
fn packet_with_a_time_of_the_calendar_is_written() {
    let (alice, bob) = pair();
    let mut message = status_from(&alice);
    message.timestamp = Timestamp { secs: 253_402_300_799, nanos: 999_999_999 };
    assert!(message.encode().is_some());
    let packet =
        Packet::from_message(&message, &alice, &bob.x25519_public_bytes().unwrap()).unwrap();
    assert!(!packet.to_bytes().unwrap().is_empty());
    message.timestamp = Timestamp { secs: -62_167_219_200, nanos: 0 };
    assert!(message.encode().is_some());
    message.timestamp = Timestamp { secs: 253_402_300_800, nanos: 0 };
    assert!(message.encode().is_none());
    message.timestamp = Timestamp { secs: 0, nanos: 1_000_000_000 };
    assert!(message.encode().is_none());
}
