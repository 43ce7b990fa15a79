use std::sync::{Arc, Mutex};

use ya_ok_core::api::CoreState;
use ya_ok_core::identity::Identity;
use ya_ok_core::message::{Message, MessagePayload, MessageType, StatusType};
use ya_ok_core::packet::Packet;
use ya_ok_core::routing::DtnRouter;
use ya_ok_core::storage::Storage;
use ya_ok_core::sync::{Gossip, GossipError, GossipMessage, MessageDigest};
use ya_ok_core::time::Timestamp;
use ya_ok_core::transport::{Peer, Transport, TransportError, TransportManager, TransportType};

struct Wire {
    sent: Arc<Mutex<Vec<Packet>>>,
}

impl Transport for Wire {
    fn transport_type(&self) -> TransportType {
        TransportType::Udp
    }
    fn is_available(&self) -> bool {
        true
    }
    fn send_packet(&mut self, packet: &Packet, _destination: &str) -> Result<(), TransportError> {
        self.sent.lock().unwrap().push(packet.clone());
        Ok(())
    }
    fn discover_peers(&mut self) -> Result<Vec<Peer>, TransportError> {
        Ok(Vec::new())
    }
    fn start_listening(&mut self) -> Result<(), TransportError> {
        Ok(())
    }
    fn stop_listening(&mut self) -> Result<(), TransportError> {
        Ok(())
    }
}

fn wired() -> (TransportManager, Arc<Mutex<Vec<Packet>>>) {
    let sent = Arc::new(Mutex::new(Vec::new()));
    let mut m = TransportManager::new();
    m.add_transport(Box::new(Wire { sent: sent.clone() }));
    (m, sent)
}

fn peer_of(identity: &Identity) -> Peer {
    Peer {
        id: identity.id().to_string(),
        transport_type: TransportType::Udp,
        address: "addr".to_string(),
        last_seen: Timestamp::from_secs(0),
        signal_strength: None,
        ed25519_public_key: Some(identity.public_key_bytes().to_vec()),
        x25519_public_key: identity.x25519_public_bytes().map(|k| k.to_vec()),
    }
}

fn t0() -> Timestamp {
    Timestamp::from_secs(1_700_000_000)
}

fn stored(store: &mut Storage, sender: &str, at: Timestamp) -> Message {
    let mut m = Message::status(sender.to_string(), StatusType::Okay);
    m.timestamp = at;
    store.store_message(&m, at).unwrap();
    m
}

#[test]
fn gossip_travels_as_text_with_a_prefix() {
    let request = GossipMessage::DigestRequest { since: t0(), max_count: 100 };
    let text = Gossip::encode_gossip(&request).unwrap();
    assert!(text.starts_with("__gossip__:"));
    let payload = &text["__gossip__:".len()..];
    let bytes = ya_ok_core::text::base64_decode(payload).unwrap();
    let value: ciborium::Value = ciborium::de::from_reader(&bytes[..]).unwrap();
    let outer = value.as_map().unwrap();
    assert_eq!(outer.len(), 1);
    assert_eq!(outer[0].0.as_text(), Some("DigestRequest"));
    let inner = outer[0].1.as_map().unwrap();
    assert_eq!(inner[0].0.as_text(), Some("since"));
    assert_eq!(inner[0].1.as_text(), Some("2023-11-14T22:13:20Z"));
    assert_eq!(inner[1].0.as_text(), Some("max_count"));
    assert_eq!(inner[1].1.as_integer(), Some(100u32.into()));
    match Gossip::decode_gossip(&text).unwrap().unwrap() {
        GossipMessage::DigestRequest { since, max_count } => {
            assert_eq!(since, t0());
            assert_eq!(max_count, 100);
        }
        other => panic!("{:?}", other),
    }
}

#[test]
fn every_kind_of_gossip_round_trips() {
    let m = Message::text("alice".to_string(), "hi".to_string()).unwrap();
    let digest = Gossip::create_digest(&m).unwrap();
    let all = vec![
        GossipMessage::DigestResponse { digests: vec![digest, Gossip::create_digest(&m).unwrap()] },
        GossipMessage::DigestResponse { digests: vec![] },
        GossipMessage::MessageRequest { message_ids: vec!["a".to_string(), "".to_string()] },
        GossipMessage::MessageResponse { messages: vec![m.clone(), m.clone()] },
    ];
    for g in all {
        let bytes = g.to_bytes().unwrap();
        let back = GossipMessage::from_bytes(&bytes).unwrap();
        assert_eq!(back.to_bytes().unwrap(), bytes);
        assert_eq!(back.name(), g.name());
        let value: ciborium::Value = ciborium::de::from_reader(&bytes[..]).unwrap();
        let mut again = Vec::new();
        ciborium::ser::into_writer(&value, &mut again).unwrap();
        assert_eq!(again, bytes);
        assert!(GossipMessage::from_bytes(&bytes[..bytes.len() - 1]).is_none());
    }
}

#[test]
fn text_without_the_prefix_is_no_gossip() {
    assert!(Gossip::decode_gossip("Hello").unwrap().is_none());
    assert!(Gossip::decode_gossip("").unwrap().is_none());
    assert!(Gossip::decode_gossip("__gossip__").unwrap().is_none());
    assert!(matches!(
        Gossip::decode_gossip("__gossip__:???"),
        Err(GossipError::SerializationFailed)
    ));
    assert!(matches!(
        Gossip::decode_gossip("__gossip__:AAAA"),
        Err(GossipError::SerializationFailed)
    ));
    let request = GossipMessage::MessageRequest { message_ids: vec![] };
    let text = Gossip::encode_gossip(&request).unwrap();
    let doubled = format!("__gossip__:{}", text);
    assert!(Gossip::decode_gossip(&doubled).unwrap().is_some());
}

#[test]
fn digest_is_the_sha256_of_the_message_on_the_wire() {
    let m = Message::text("alice".to_string(), "hi".to_string()).unwrap();
    let digest = Gossip::create_digest(&m).unwrap();
    assert_eq!(digest.message_id, m.id);
    assert_eq!(digest.sender_id, "alice");
    assert_eq!(digest.timestamp, m.timestamp);
    assert_eq!(digest.hash, ya_ok_core::hash::sha256(&m.encode().unwrap()));
    assert!(Gossip::verify_digest(&digest, &m));
    let other = Message::text("alice".to_string(), "ho".to_string()).unwrap();
    assert!(!Gossip::verify_digest(&digest, &other));
    let forged = MessageDigest {
        message_id: m.id.clone(),
        sender_id: "alice".to_string(),
        timestamp: m.timestamp,
        hash: [0u8; 32],
    };
    assert!(!Gossip::verify_digest(&forged, &m));
    assert_eq!(
        hex::encode(ya_ok_core::hash::sha256(b"abc")),
        "ba7816bf8f01cfea414140de5dae2223b00361a396177a9cb410ff61f20015ad"
    );
}

#[test]
fn request_for_digests_is_answered_with_the_newer_messages() {
    let mut store = Storage::new();
    let a = stored(&mut store, "s", t0().plus_seconds(1));
    let b = stored(&mut store, "s", t0().plus_seconds(2));
    let c = stored(&mut store, "s", t0().plus_seconds(3));
    let request = GossipMessage::DigestRequest { since: t0().plus_seconds(1), max_count: 100 };
    match Gossip::respond(request, &mut store, t0()).unwrap().unwrap() {
        GossipMessage::DigestResponse { digests } => {
            let ids: Vec<&str> = digests.iter().map(|d| d.message_id.as_str()).collect();
            assert_eq!(ids, vec![b.id.as_str(), c.id.as_str()]);
        }
        other => panic!("{:?}", other),
    }
    let capped = GossipMessage::DigestRequest { since: t0(), max_count: 1 };
    match Gossip::respond(capped, &mut store, t0()).unwrap().unwrap() {
        GossipMessage::DigestResponse { digests } => {
            assert_eq!(digests.len(), 1);
            assert_eq!(digests[0].message_id, a.id);
        }
        other => panic!("{:?}", other),
    }
}

#[test]
fn digests_are_answered_with_a_request_for_what_is_missing() {
    let mut store = Storage::new();
    let known = stored(&mut store, "s", t0());
    let missing = Message::status("s".to_string(), StatusType::Busy);
    let response = GossipMessage::DigestResponse {
        digests: vec![
            Gossip::create_digest(&known).unwrap(),
            Gossip::create_digest(&missing).unwrap(),
        ],
    };
    match Gossip::respond(response, &mut store, t0()).unwrap().unwrap() {
        GossipMessage::MessageRequest { message_ids } => {
            assert_eq!(message_ids, vec![missing.id.clone()]);
        }
        other => panic!("{:?}", other),
    }
    let nothing_new =
        GossipMessage::DigestResponse { digests: vec![Gossip::create_digest(&known).unwrap()] };
    assert!(Gossip::respond(nothing_new, &mut store, t0()).unwrap().is_none());
}

#[test]
fn request_for_messages_is_answered_with_those_that_are_held() {
    let mut store = Storage::new();
    let held = stored(&mut store, "s", t0());
    let request = GossipMessage::MessageRequest {
        message_ids: vec![
            "123e4567-e89b-12d3-a456-426614174000".to_string(),
            held.id.clone(),
        ],
    };
    match Gossip::respond(request, &mut store, t0()).unwrap().unwrap() {
        GossipMessage::MessageResponse { messages } => {
            assert_eq!(messages.len(), 1);
            assert_eq!(messages[0].id, held.id);
        }
        other => panic!("{:?}", other),
    }
    let bad = GossipMessage::MessageRequest { message_ids: vec!["'; DROP".to_string()] };
    assert!(matches!(
        Gossip::respond(bad, &mut store, t0()),
        Err(GossipError::StorageError(_))
    ));
}

#[test]
fn messages_that_come_are_stored() {
    let mut store = Storage::new();
    let a = Message::status("s".to_string(), StatusType::Okay);
    let empty = Message::with_id(
        "123e4567-e89b-12d3-a456-426614174001".to_string(),
        "s".to_string(),
        t0(),
        MessageType::Text,
        MessagePayload::Text(String::new()),
    );
    let response = GossipMessage::MessageResponse { messages: vec![a.clone(), empty, a.clone()] };
    assert!(Gossip::respond(response, &mut store, t0()).unwrap().is_none());
    assert_eq!(store.get_stats().unwrap().total_messages, 1);
    assert!(store.is_message_seen(&a.id).unwrap());
}

#[test]
fn exchange_with_a_peer_begins_at_most_every_five_minutes() {
    let me = Identity::new();
    let other = Identity::new();
    let (links, sent) = wired();
    let mut router = DtnRouter::new(Storage::new(), links);
    let mut gossip = Gossip::new();
    let peer = peer_of(&other);
    gossip.sync_with_peer(&peer, &mut router, Some(&me), t0()).unwrap();
    assert_eq!(sent.lock().unwrap().len(), 1);
    assert_eq!(gossip.get_sync_stats().sync_sessions, 1);
    assert_eq!(gossip.get_sync_stats().messages_exchanged, 1);
    gossip.sync_with_peer(&peer, &mut router, Some(&me), t0().plus_seconds(299)).unwrap();
    assert_eq!(sent.lock().unwrap().len(), 1);
    gossip.sync_with_peer(&peer, &mut router, Some(&me), t0().plus_seconds(300)).unwrap();
    assert_eq!(sent.lock().unwrap().len(), 2);
    assert_eq!(gossip.get_sync_stats().sync_sessions, 2);
    let third = Identity::new();
    gossip.sync_with_peer(&peer_of(&third), &mut router, Some(&me), t0().plus_seconds(301)).unwrap();
    assert_eq!(sent.lock().unwrap().len(), 3);

    let first = sent.lock().unwrap()[0].decrypt(&other).unwrap();
    assert_eq!(first.message_type, MessageType::Text);
    let text = match first.payload {
        MessagePayload::Text(t) => t,
        _ => panic!("no text"),
    };
    match Gossip::decode_gossip(&text).unwrap().unwrap() {
        GossipMessage::DigestRequest { since, max_count } => {
            assert_eq!(since, Timestamp::from_secs(1_700_000_000 - 86_400));
            assert_eq!(max_count, 100);
        }
        other => panic!("{:?}", other),
    }
    let second = sent.lock().unwrap()[1].decrypt(&other).unwrap();
    let text = match second.payload {
        MessagePayload::Text(t) => t,
        _ => panic!("no text"),
    };
    match Gossip::decode_gossip(&text).unwrap().unwrap() {
        GossipMessage::DigestRequest { since, .. } => assert_eq!(since, t0()),
        other => panic!("{:?}", other),
    }
}

#[test]
fn exchange_that_cannot_be_sent_is_not_recorded() {
    let me = Identity::new();
    let other = Identity::new();
    let mut router = DtnRouter::new(Storage::new(), TransportManager::new());
    let mut gossip = Gossip::new();
    let peer = peer_of(&other);
    let r = gossip.sync_with_peer(&peer, &mut router, Some(&me), t0());
    assert!(matches!(r, Err(GossipError::SerializationFailed)));
    assert_eq!(gossip.get_sync_stats().sync_sessions, 0);
    let (links, sent) = wired();
    let mut router = DtnRouter::new(Storage::new(), links);
    assert!(gossip.sync_with_peer(&peer, &mut router, None, t0()).is_err());
    let mut keyless = peer_of(&other);
    keyless.x25519_public_key = None;
    assert!(gossip.sync_with_peer(&keyless, &mut router, Some(&me), t0()).is_err());
    assert!(sent.lock().unwrap().is_empty());
    gossip.sync_with_peer(&peer, &mut router, Some(&me), t0().plus_seconds(1)).unwrap();
    assert_eq!(sent.lock().unwrap().len(), 1);
    gossip.start_periodic_sync();
}

#[test]
fn two_cores_repair_each_other() {
    let (links_a, sent_a) = wired();
    let (links_b, sent_b) = wired();
    let mut alice = CoreState::new(Storage::new(), links_a);
    let mut bob = CoreState::new(Storage::new(), links_b);
    alice.create_identity();
    bob.create_identity();
    let now = Timestamp::now();
    assert_eq!(alice.send_text("Before we met", now), 0);
    assert_eq!(alice.get_stats().storage.total_messages, 1);
    let alice_id = alice.get_identity_id().unwrap();
    let bob_id = bob.get_identity_id().unwrap();
    alice.add_peer(&bob_id, &bob.get_identity_x25519_public_key_hex().unwrap(), now);
    bob.add_peer(&alice_id, &alice.get_identity_x25519_public_key_hex().unwrap(), now);

    let me = bob.identity().unwrap().duplicate();
    let alice_peer = Peer {
        id: alice_id.clone(),
        transport_type: TransportType::Udp,
        address: "alice".to_string(),
        last_seen: now,
        signal_strength: None,
        ed25519_public_key: None,
        x25519_public_key: Some(
            hex::decode(alice.get_identity_x25519_public_key_hex().unwrap()).unwrap(),
        ),
    };
    let request = GossipMessage::DigestRequest { since: now.minus_seconds(10), max_count: 10 };
    let text = Gossip::encode_gossip(&request).unwrap();
    let carrier = Message::with_id(
        "123e4567-e89b-12d3-a456-426614174999".to_string(),
        bob_id.clone(),
        now,
        MessageType::Text,
        MessagePayload::Text(text),
    );
    let packet = Packet::from_message(
        &carrier,
        &me,
        alice_peer.x25519_public_key.as_ref().unwrap(),
    )
    .unwrap();

    let mut to_alice = vec![packet];
    let mut rounds = 0;
    while rounds < 4 {
        for p in to_alice.drain(..) {
            assert_eq!(alice.handle_incoming_packet(&p.to_bytes().unwrap(), now), 0);
        }
        let to_bob: Vec<Packet> = sent_a.lock().unwrap().drain(..).collect();
        for p in to_bob {
            assert_eq!(bob.handle_incoming_packet(&p.to_bytes().unwrap(), now), 0);
        }
        to_alice = sent_b.lock().unwrap().drain(..).collect();
        rounds += 1;
    }
    let recent = bob.get_recent_messages(10);
    assert_eq!(recent.len(), 1);
    assert_eq!(recent[0].text.as_deref(), Some("Before we met"));
    assert_eq!(recent[0].sender_id, alice_id);
    assert_eq!(alice.get_stats().storage.total_messages, 1);
}

fn begun_through<G: ya_ok_core::sync::GossipProtocol>(
    gossip: &mut G,
    peer: &Peer,
    router: &mut DtnRouter,
    me: &Identity,
    now: Timestamp,
) -> u64 {
    gossip.sync_with_peer(peer, router, Some(me), now).unwrap();
    gossip.get_sync_stats().sync_sessions
}

#[test]
fn exchange_serves_behind_its_interface() {
    let me = Identity::new();
    let other = Identity::new();
    let (links, sent) = wired();
    let mut router = DtnRouter::new(Storage::new(), links);
    let mut gossip = Gossip::new();
    let peer = peer_of(&other);
    assert_eq!(begun_through(&mut gossip, &peer, &mut router, &me, t0()), 1);
    assert_eq!(begun_through(&mut gossip, &peer, &mut router, &me, t0().plus_seconds(1)), 1);
    assert_eq!(sent.lock().unwrap().len(), 1);
    let request = GossipMessage::DigestRequest { since: t0(), max_count: 5 };
    ya_ok_core::sync::GossipProtocol::handle_gossip_message(
        &mut gossip,
        request,
        &peer,
        &mut router,
        Some(&me),
        t0(),
    )
    .unwrap();
    assert_eq!(sent.lock().unwrap().len(), 2);
}

#[test]
fn answer_to_gossip_is_counted_where_it_is_sent() {
    let me = Identity::new();
    let other = Identity::new();
    let peer = peer_of(&other);
    let (links, sent) = wired();
    let mut router = DtnRouter::new(Storage::new(), links);
    let mut gossip = Gossip::new();
    let request = GossipMessage::DigestRequest { since: t0(), max_count: 5 };
    gossip.handle_gossip_message(request, &peer, &mut router, Some(&me), t0()).unwrap();
    assert_eq!(gossip.get_sync_stats().messages_exchanged, 1);
    assert_eq!(sent.lock().unwrap().len(), 1);
    let nothing_new = GossipMessage::DigestResponse { digests: vec![] };
    gossip.handle_gossip_message(nothing_new, &peer, &mut router, Some(&me), t0()).unwrap();
    let messages = GossipMessage::MessageResponse { messages: vec![] };
    gossip.handle_gossip_message(messages, &peer, &mut router, None, t0()).unwrap();
    assert_eq!(gossip.get_sync_stats().messages_exchanged, 1);
    assert_eq!(sent.lock().unwrap().len(), 1);

    let mut bare = DtnRouter::new(Storage::new(), TransportManager::new());
    let request = GossipMessage::DigestRequest { since: t0(), max_count: 5 };
    assert!(gossip.handle_gossip_message(request, &peer, &mut bare, Some(&me), t0()).is_err());
    let request = GossipMessage::MessageRequest { message_ids: vec![] };
    assert!(gossip.handle_gossip_message(request, &peer, &mut router, None, t0()).is_err());
    assert_eq!(gossip.get_sync_stats().messages_exchanged, 1);
}

#[test]
fn first_request_looks_back_a_day_and_later_ones_to_the_last_exchange() {
    let now = Timestamp { secs: 1_700_000_000, nanos: 5 };
    match ya_ok_core::sync::sync_request(None, now) {
        GossipMessage::DigestRequest { since, max_count } => {
            assert_eq!(since, Timestamp { secs: 1_700_000_000 - 86_400, nanos: 5 });
            assert_eq!(max_count, 100);
        },
        _ => panic!("no request for digests"),
    }
    let last = Timestamp::from_secs(1_699_999_000);
    match ya_ok_core::sync::sync_request(Some(last), now) {
        GossipMessage::DigestRequest { since, max_count } => {
            assert_eq!(since, last);
            assert_eq!(max_count, 100);
        },
        _ => panic!("no request for digests"),
    }
    let first = Timestamp { secs: i64::MIN + 5, nanos: 0 };
    match ya_ok_core::sync::sync_request(None, first) {
        GossipMessage::DigestRequest { since, .. } => assert_eq!(since.secs, i64::MIN),
        _ => panic!("no request for digests"),
    }
}
