use std::sync::{Arc, Mutex};

use ya_ok_core::api::CoreState;
use ya_ok_core::identity::Identity;
use ya_ok_core::message::{MessagePayload, StatusType};
use ya_ok_core::packet::Packet;
use ya_ok_core::storage::Storage;
use ya_ok_core::time::Timestamp;
use ya_ok_core::transport::{Peer, Transport, TransportError, TransportManager, TransportType};

struct Tap {
    accepts: bool,
    sent: Arc<Mutex<Vec<(String, Packet)>>>,
}

impl Transport for Tap {
    fn transport_type(&self) -> TransportType {
        TransportType::Udp
    }
    fn is_available(&self) -> bool {
        true
    }
    fn send_packet(&mut self, packet: &Packet, destination: &str) -> Result<(), TransportError> {
        self.sent.lock().unwrap().push((destination.to_string(), packet.clone()));
        if self.accepts {
            Ok(())
        } else {
            Err(TransportError::Timeout)
        }
    }
    fn discover_peers(&mut self) -> Result<Vec<Peer>, TransportError> {
        Ok(Vec::new())
    }
    fn start_listening(&mut self) -> Result<(), TransportError> {
        Ok(())
    }
    fn stop_listening(&mut self) -> Result<(), TransportError> {
        Ok(())
    }
}

fn tapped(accepts: bool) -> (CoreState, Arc<Mutex<Vec<(String, Packet)>>>) {
    let sent = Arc::new(Mutex::new(Vec::new()));
    let mut links = TransportManager::new();
    links.add_transport(Box::new(Tap { accepts, sent: sent.clone() }));
    let mut core = CoreState::new(Storage::new(), links);
    assert_eq!(core.create_identity(), 0);
    (core, sent)
}

fn now() -> Timestamp {
    Timestamp::now()
}

#[test]
fn message_to_one_peer_goes_to_that_peer_alone() {
    let (mut alice, sent) = tapped(true);
    let bob = Identity::new();
    let carol = Identity::new();
    for peer in [&bob, &carol] {
        let x = hex::encode(peer.x25519_public_bytes().unwrap());
        assert_eq!(alice.add_peer(peer.id(), &x, now()), 0);
    }
    assert_eq!(alice.send_text_to("for bob", bob.id(), now()), 0);
    assert_eq!(sent.lock().unwrap().len(), 1);
    let packet = sent.lock().unwrap()[0].1.clone();
    let opened = packet.decrypt(&bob).unwrap();
    assert!(matches!(opened.payload, MessagePayload::Text(ref t) if t == "for bob"));
    assert!(packet.decrypt(&carol).is_err());
    assert_eq!(alice.get_stats().storage.total_messages, 1);
    assert_eq!(alice.get_stats().routing.forwarded_packets, 1);

    assert_eq!(alice.send_status_to(2, carol.id(), now()), 0);
    assert_eq!(sent.lock().unwrap().len(), 2);
    let opened = sent.lock().unwrap()[1].1.decrypt(&carol).unwrap();
    assert!(matches!(opened.payload, MessagePayload::Status(StatusType::Later)));

    assert_eq!(alice.send_voice_to(&[1, 2, 3], bob.id(), now()), 0);
    assert_eq!(sent.lock().unwrap().len(), 3);
    let opened = sent.lock().unwrap()[2].1.decrypt(&bob).unwrap();
    assert!(matches!(opened.payload, MessagePayload::Voice(ref v) if v == &vec![1, 2, 3]));
    assert_eq!(alice.get_stats().storage.total_messages, 3);
}

#[test]
fn recipient_that_is_not_known_is_refused_before_anything_is_stored() {
    let (mut alice, sent) = tapped(true);
    let stranger = Identity::new();
    assert_eq!(alice.send_text_to("hello", stranger.id(), now()), -10);
    assert_eq!(alice.send_status_to(0, stranger.id(), now()), -10);
    assert_eq!(alice.send_voice_to(&[1], stranger.id(), now()), -10);
    assert_eq!(alice.send_text_to("", stranger.id(), now()), -9);
    assert!(sent.lock().unwrap().is_empty());
    assert_eq!(alice.get_stats().storage.total_messages, 0);
    assert_eq!(alice.get_stats().storage.seen_messages, 0);
}

#[test]
fn directed_sends_are_held_to_the_same_limits() {
    let (mut alice, sent) = tapped(true);
    let bob = Identity::new();
    let x = hex::encode(bob.x25519_public_bytes().unwrap());
    assert_eq!(alice.add_peer(bob.id(), &x, now()), 0);
    assert_eq!(alice.send_status_to(7, bob.id(), now()), -3);
    assert_eq!(alice.send_text_to(&"A".repeat(257), bob.id(), now()), -9);
    assert_eq!(alice.send_text_to("a;b", bob.id(), now()), -9);
    assert_eq!(alice.send_text_to("", bob.id(), now()), -9);
    assert_eq!(alice.send_voice_to(&[], bob.id(), now()), -7);
    assert_eq!(alice.send_voice_to(&vec![0u8; 56_001], bob.id(), now()), -9);
    assert_eq!(alice.set_policy(2), 0);
    assert_eq!(alice.send_text_to(&"a".repeat(65), bob.id(), now()), -4);
    assert_eq!(alice.send_status_to(0, bob.id(), Timestamp::from_secs(i64::MAX)), -5);
    assert!(sent.lock().unwrap().is_empty());
    assert_eq!(alice.get_stats().storage.total_messages, 0);
    let mut nobody = CoreState::new(Storage::new(), TransportManager::new());
    assert_eq!(nobody.send_status_to(0, bob.id(), now()), -2);
    assert_eq!(nobody.send_text_to("x", bob.id(), now()), -2);
    assert_eq!(nobody.send_voice_to(&[1], bob.id(), now()), -2);
}

#[test]
fn directed_send_that_the_link_refuses_is_stored_all_the_same() {
    let (mut alice, sent) = tapped(false);
    let bob = Identity::new();
    let x = hex::encode(bob.x25519_public_bytes().unwrap());
    assert_eq!(alice.add_peer(bob.id(), &x, now()), 0);
    assert_eq!(alice.send_status_to(1, bob.id(), now()), 0);
    assert_eq!(sent.lock().unwrap().len(), 1);
    assert_eq!(alice.get_stats().storage.pending_messages, 1);
    assert_eq!(alice.get_stats().routing.forwarded_packets, 0);
    let exported = alice.export_pending_packets(10).unwrap();
    let raw = ya_ok_core::text::base64_decode(&exported).unwrap();
    let packet = Packet::from_bytes(&raw).unwrap();
    assert!(matches!(
        packet.decrypt(&bob).unwrap().payload,
        MessagePayload::Status(StatusType::Busy)
    ));
}
