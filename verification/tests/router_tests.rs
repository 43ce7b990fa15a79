use std::sync::{Arc, Mutex};

use ya_ok_core::identity::Identity;
use ya_ok_core::message::{Message, StatusType};
use ya_ok_core::packet::{Packet, Priority};
use ya_ok_core::routing::{DtnRouter, RoutingError, RoutingStats};
use ya_ok_core::storage::{Ack, AckType, Storage};
use ya_ok_core::time::Timestamp;
use ya_ok_core::transport::satellite::SatelliteTransport;
use ya_ok_core::transport::{Peer, Transport, TransportError, TransportManager, TransportType};

struct Link {
    kind: TransportType,
    available: bool,
    accepts: bool,
    sent: Arc<Mutex<Vec<(TransportType, String, String)>>>,
}

impl Transport for Link {
    fn transport_type(&self) -> TransportType {
        self.kind
    }
    fn is_available(&self) -> bool {
        self.available
    }
    fn send_packet(&mut self, packet: &Packet, destination: &str) -> Result<(), TransportError> {
        self.sent.lock().unwrap().push((self.kind, destination.to_string(), packet.message_id.clone()));
        if self.accepts {
            Ok(())
        } else {
            Err(TransportError::SendFailed("refused".to_string()))
        }
    }
    fn discover_peers(&mut self) -> Result<Vec<Peer>, TransportError> {
        Ok(vec![peer("found", "somewhere")])
    }
    fn start_listening(&mut self) -> Result<(), TransportError> {
        Ok(())
    }
    fn stop_listening(&mut self) -> Result<(), TransportError> {
        Ok(())
    }
}

type Log = Arc<Mutex<Vec<(TransportType, String, String)>>>;

fn manager(links: &[(TransportType, bool, bool)]) -> (TransportManager, Log) {
    let log: Log = Arc::new(Mutex::new(Vec::new()));
    let mut m = TransportManager::new();
    for (kind, available, accepts) in links {
        m.add_transport(Box::new(Link {
            kind: *kind,
            available: *available,
            accepts: *accepts,
            sent: log.clone(),
        }));
    }
    (m, log)
}

fn peer(id: &str, address: &str) -> Peer {
    Peer {
        id: id.to_string(),
        transport_type: TransportType::Udp,
        address: address.to_string(),
        last_seen: Timestamp::from_secs(0),
        signal_strength: None,
        ed25519_public_key: None,
        x25519_public_key: None,
    }
}

fn packet() -> Packet {
    let sender = Identity::new();
    let receiver = Identity::new();
    let message = Message::status(sender.id().to_string(), StatusType::Okay);
    Packet::from_message(&message, &sender, &receiver.x25519_public_bytes().unwrap()).unwrap()
}

#[test]
fn second_take_in_is_a_duplicate_and_sends_nothing() {
    let (links, log) = manager(&[(TransportType::Udp, true, true)]);
    let mut router = DtnRouter::new(Storage::new(), links);
    router.update_peers(vec![peer("peer1", "addr1"), peer("peer2", "addr2")]);
    let p = packet();
    let now = p.timestamp;
    router.handle_packet(p.clone(), &now).unwrap();
    assert_eq!(log.lock().unwrap().len(), 2);
    assert_eq!(
        router.get_stats(),
        RoutingStats {
            processed_packets: 1,
            dropped_packets: 0,
            duplicate_packets: 0,
            forwarded_packets: 2
        }
    );
    router.handle_packet(p.clone(), &now).unwrap();
    router.handle_packet(p.clone(), &now.plus_seconds(5)).unwrap();
    assert_eq!(log.lock().unwrap().len(), 2);
    let stats = router.get_stats();
    assert_eq!(stats.duplicate_packets, 2);
    assert_eq!(stats.processed_packets, 1);
    assert_eq!(stats.forwarded_packets, 2);
    assert!(router.storage().is_message_seen(&p.message_id).unwrap());
}

#[test]
fn packet_that_may_not_go_on_is_dropped() {
    let (links, log) = manager(&[(TransportType::Udp, true, true)]);
    let mut router = DtnRouter::new(Storage::new(), links);
    router.update_peers(vec![peer("peer1", "addr1")]);
    let mut worn = packet();
    worn.hops = worn.max_hops;
    let now = worn.timestamp;
    router.handle_packet(worn.clone(), &now).unwrap();
    let old = packet();
    let late = old.timestamp.plus_seconds(3600);
    router.handle_packet(old.clone(), &late).unwrap();
    assert_eq!(router.get_stats().dropped_packets, 2);
    assert_eq!(router.get_stats().processed_packets, 0);
    assert!(log.lock().unwrap().is_empty());
    assert!(!router.storage().is_message_seen(&old.message_id).unwrap());
    router.handle_packet(old.clone(), &late).unwrap();
    assert_eq!(router.get_stats().dropped_packets, 3);
    assert_eq!(router.get_stats().duplicate_packets, 0);
}

#[test]
fn packet_makes_one_more_hop_and_waits_where_no_peer_is_known() {
    let (links, _log) = manager(&[]);
    let mut router = DtnRouter::new(Storage::new(), links);
    let p = packet();
    let now = p.timestamp;
    router.handle_packet(p.clone(), &now).unwrap();
    assert_eq!(router.get_stats().processed_packets, 1);
    router.update_peers(vec![peer("peer1", "addr1")]);
    assert_eq!(router.process_queue(0, &now).unwrap(), 0);
    let (links2, log2) = manager(&[(TransportType::Ble, true, true)]);
    let mut router2 = DtnRouter::new(Storage::new(), links2);
    router2.handle_packet(p.clone(), &now).unwrap();
    router2.update_peers(vec![peer("peer1", "addr1")]);
    assert_eq!(router2.process_queue(0, &now).unwrap(), 1);
    assert_eq!(log2.lock().unwrap().len(), 1);
    assert_eq!(router2.process_queue(0, &now).unwrap(), 0);
}

#[test]
fn flood_queues_where_every_link_refuses() {
    let (links, log) = manager(&[(TransportType::Udp, true, false)]);
    let mut router = DtnRouter::new(Storage::new(), links);
    router.update_peers(vec![peer("peer1", "a1"), peer("peer2", "a2")]);
    let p = packet();
    let now = p.timestamp;
    router.flood_packet(p.clone()).unwrap();
    assert_eq!(log.lock().unwrap().len(), 2);
    assert_eq!(router.get_stats().forwarded_packets, 0);
    assert_eq!(router.process_queue(1_000, &now).unwrap(), 0);
    assert_eq!(log.lock().unwrap().len(), 4);
    assert_eq!(router.process_queue(1_000, &now).unwrap(), 0);
    assert_eq!(log.lock().unwrap().len(), 4);
    assert_eq!(router.process_queue(10_999, &now).unwrap(), 0);
    assert_eq!(log.lock().unwrap().len(), 4);
    assert_eq!(router.process_queue(11_000, &now).unwrap(), 0);
    assert_eq!(log.lock().unwrap().len(), 6);
    assert_eq!(router.process_queue(31_000, &now).unwrap(), 0);
    assert_eq!(log.lock().unwrap().len(), 8);
    assert_eq!(router.process_queue(u64::MAX, &now).unwrap(), 0);
    assert_eq!(log.lock().unwrap().len(), 8);
}

#[test]
fn queue_is_worked_off_by_priority() {
    let (links, log) = manager(&[(TransportType::Udp, true, true)]);
    let mut router = DtnRouter::new(Storage::new(), links);
    let mut low = packet();
    low.priority = Priority::Low;
    let mut high = packet();
    high.priority = Priority::High;
    let mut medium = packet();
    medium.priority = Priority::Medium;
    let now = low.timestamp;
    router.flood_packet(low.clone()).unwrap();
    router.flood_packet(high.clone()).unwrap();
    router.flood_packet(medium.clone()).unwrap();
    router.update_peers(vec![peer("peer1", "a1")]);
    assert_eq!(router.process_queue(0, &now.plus_seconds(1)).unwrap(), 3);
    let order: Vec<String> = log.lock().unwrap().iter().map(|(_, _, id)| id.clone()).collect();
    assert_eq!(order, vec![high.message_id, medium.message_id, low.message_id]);
}

#[test]
fn known_peer_is_sent_to_directly() {
    let (links, log) = manager(&[(TransportType::Udp, true, true)]);
    let mut router = DtnRouter::new(Storage::new(), links);
    router.update_peers(vec![peer("peer1", "a1"), peer("peer2", "a2")]);
    let p = packet();
    router.send_to(&p, "peer2").unwrap();
    assert_eq!(log.lock().unwrap().len(), 1);
    assert_eq!(log.lock().unwrap()[0].1, "a2");
    router.send_to(&p, "unknown").unwrap();
    assert_eq!(log.lock().unwrap().len(), 3);
    assert_eq!(router.get_stats().forwarded_packets, 3);
}

#[test]
fn direct_send_fails_with_the_link() {
    let (links, _log) = manager(&[(TransportType::Udp, true, false)]);
    let mut router = DtnRouter::new(Storage::new(), links);
    router.update_peers(vec![peer("peer1", "a1")]);
    let r = router.send_to(&packet(), "peer1");
    assert!(matches!(r, Err(RoutingError::TransportError(TransportError::SendFailed(_)))));
    let (none, _) = manager(&[]);
    let mut bare = DtnRouter::new(Storage::new(), none);
    bare.update_peers(vec![peer("peer1", "a1")]);
    let r = bare.send_to(&packet(), "peer1");
    assert!(matches!(r, Err(RoutingError::TransportError(TransportError::NoTransportAvailable))));
}

#[test]
fn links_are_tried_in_their_order() {
    let (mut links, log) = manager(&[
        (TransportType::Satellite, true, true),
        (TransportType::Ble, true, true),
        (TransportType::WifiDirect, false, true),
        (TransportType::Udp, false, true),
    ]);
    assert_eq!(
        links.available_transports(),
        vec![
            TransportType::Satellite,
            TransportType::Ble,
            TransportType::WifiDirect,
            TransportType::Udp
        ]
    );
    assert_eq!(links.find_transport(TransportType::Ble), Some(1));
    assert!(links.get_transport(TransportType::Udp).is_some());
    links.send_packet(&packet(), "x").unwrap();
    assert_eq!(log.lock().unwrap()[0].0, TransportType::Ble);
    let (mut all, log2) = manager(&[
        (TransportType::Ble, true, true),
        (TransportType::Udp, true, false),
    ]);
    assert!(all.send_packet(&packet(), "x").is_err());
    assert_eq!(log2.lock().unwrap()[0].0, TransportType::Udp);
    assert_eq!(log2.lock().unwrap().len(), 1);
    let peers = all.discover_all_peers().unwrap();
    assert_eq!(peers.len(), 2);
}

#[test]
fn satellite_is_never_there() {
    let mut m = TransportManager::new();
    m.add_transport(Box::new(SatelliteTransport::new()));
    assert!(matches!(
        m.send_packet(&packet(), "x"),
        Err(TransportError::NoTransportAvailable)
    ));
    assert!(m.discover_all_peers().unwrap().is_empty());
    let mut s = SatelliteTransport::new();
    assert_eq!(s.transport_type(), TransportType::Satellite);
    assert!(!s.is_available());
    assert!(matches!(s.send_packet(&packet(), "x"), Err(TransportError::NotAvailable)));
    assert!(matches!(s.start_listening(), Err(TransportError::NotAvailable)));
    assert!(s.stop_listening().is_ok());
}

#[test]
fn link_is_preferred_by_priority() {
    let (links, _) = manager(&[
        (TransportType::Ble, true, true),
        (TransportType::WifiDirect, true, true),
        (TransportType::Udp, true, true),
    ]);
    let router = DtnRouter::new(Storage::new(), links);
    assert_eq!(router.select_transport(Priority::High), Some(TransportType::Udp));
    assert_eq!(router.select_transport(Priority::Medium), Some(TransportType::WifiDirect));
    assert_eq!(router.select_transport(Priority::Low), Some(TransportType::Ble));
    let (few, _) = manager(&[(TransportType::WifiDirect, true, true)]);
    let router = DtnRouter::new(Storage::new(), few);
    assert_eq!(router.select_transport(Priority::High), Some(TransportType::WifiDirect));
    assert_eq!(router.select_transport(Priority::Low), None);
}

#[test]
fn peer_that_is_learnt_again_takes_its_place() {
    let (links, _) = manager(&[]);
    let mut router = DtnRouter::new(Storage::new(), links);
    router.update_peers(vec![peer("peer1", "a1"), peer("peer2", "a2"), peer("peer1", "a3")]);
    let known = router.known_peers();
    assert_eq!(known.len(), 2);
    assert_eq!(known[0].id, "peer1");
    assert_eq!(known[0].address, "a3");
    assert_eq!(known[1].id, "peer2");
}

#[test]
fn acknowledgements_are_recorded() {
    let (links, _) = manager(&[]);
    let mut router = DtnRouter::new(Storage::new(), links);
    let now = Timestamp::from_secs(1_700_000_000);
    let message = Message::status("a".to_string(), StatusType::Okay);
    let mut store = router.take_storage();
    store.store_message(&message, now).unwrap();
    router.put_storage(store);
    router.send_ack(&message.id, "me", AckType::Received, now).unwrap();
    assert_eq!(router.storage().get_pending_messages().unwrap().len(), 1);
    let ack = Ack::delivered(message.id.clone(), "peer".to_string());
    assert_eq!(ack.ack_type, AckType::Delivered);
    router.handle_ack(ack, now).unwrap();
    assert_eq!(router.storage().get_pending_messages().unwrap().len(), 0);
    let acks = router.storage().get_acks_for_message(&message.id).unwrap();
    assert_eq!(acks.len(), 2);
    assert_eq!(acks[1].1, "Delivered");
    assert_eq!(Ack::received("m".to_string(), "p".to_string()).ack_type, AckType::Received);
}

fn taken_in_through<R: ya_ok_core::routing::Router>(router: &mut R, p: Packet, now: &Timestamp) -> RoutingStats {
    router.handle_packet(p, now).unwrap();
    router.get_stats()
}

#[test]
fn router_serves_behind_its_interface() {
    let (links, log) = manager(&[(TransportType::Udp, true, true)]);
    let mut router = DtnRouter::new(Storage::new(), links);
    router.update_peers(vec![peer("peer1", "addr1")]);
    let p = packet();
    let now = p.timestamp;
    let stats = taken_in_through(&mut router, p.clone(), &now);
    assert_eq!(stats.processed_packets, 1);
    assert_eq!(stats.forwarded_packets, 1);
    let stats = taken_in_through(&mut router, p.clone(), &now);
    assert_eq!(stats.duplicate_packets, 1);
    assert_eq!(log.lock().unwrap().len(), 1);
    ya_ok_core::routing::Router::send_to(&mut router, &p, "peer1").unwrap();
    ya_ok_core::routing::Router::flood_packet(&mut router, p).unwrap();
    assert_eq!(log.lock().unwrap().len(), 3);
}

#[test]
fn router_without_links_sends_nothing() {
    let (links, _) = manager(&[]);
    let mut router = DtnRouter::new(Storage::new(), links);
    router.update_peers(vec![peer("peer1", "addr1")]);
    let p = packet();
    assert!(matches!(
        router.send_direct(&p, "addr1"),
        Err(TransportError::NoTransportAvailable)
    ));
    assert!(matches!(
        router.send_to(&p, "peer1"),
        Err(RoutingError::TransportError(TransportError::NoTransportAvailable))
    ));
    router.flood_packet(p.clone()).unwrap();
    assert_eq!(router.process_queue(0, &p.timestamp).unwrap(), 0);
    assert_eq!(router.get_stats().forwarded_packets, 0);
}

#[test]
fn first_link_of_a_kind_is_the_one_that_is_given() {
    let (links, _) = manager(&[
        (TransportType::Ble, false, true),
        (TransportType::Udp, true, true),
        (TransportType::Ble, true, true),
    ]);
    let first = links.get_transport(TransportType::Ble).unwrap();
    assert_eq!(first.transport_type(), TransportType::Ble);
    assert!(!first.is_available());
    assert!(links.get_transport(TransportType::Udp).unwrap().is_available());
    assert!(links.get_transport(TransportType::Satellite).is_none());
    assert!(links.get_transport(TransportType::WifiDirect).is_none());
    assert_eq!(links.find_transport(TransportType::Ble), Some(0));
    assert_eq!(links.find_transport(TransportType::Udp), Some(1));
    assert_eq!(links.find_transport(TransportType::Satellite), None);
    let (none, _) = manager(&[]);
    assert!(none.get_transport(TransportType::Ble).is_none());
}

#[test]
fn peers_are_gathered_in_the_order_of_the_links() {
    let mut all = vec![peer("a", "1")];
    ya_ok_core::transport::add_found(&mut all, Ok(vec![peer("b", "2"), peer("c", "3")]));
    ya_ok_core::transport::add_found(&mut all, Err(TransportError::Timeout));
    ya_ok_core::transport::add_found(&mut all, Ok(vec![]));
    ya_ok_core::transport::add_found(&mut all, Ok(vec![peer("d", "4")]));
    let ids: Vec<&str> = all.iter().map(|p| p.id.as_str()).collect();
    assert_eq!(ids, vec!["a", "b", "c", "d"]);
    let (mut none, _) = manager(&[]);
    assert!(none.discover_all_peers().unwrap().is_empty());
    let (mut some, _) = manager(&[
        (TransportType::Udp, true, true),
        (TransportType::Ble, false, true),
        (TransportType::WifiDirect, true, true),
    ]);
    assert_eq!(some.discover_all_peers().unwrap().len(), 2);
}

struct Gate {
    open: Arc<Mutex<bool>>,
    sent: Arc<Mutex<Vec<String>>>,
}

impl Transport for Gate {
    fn transport_type(&self) -> TransportType {
        TransportType::Udp
    }
    fn is_available(&self) -> bool {
        true
    }
    fn send_packet(&mut self, packet: &Packet, _destination: &str) -> Result<(), TransportError> {
        if *self.open.lock().unwrap() {
            self.sent.lock().unwrap().push(packet.message_id.clone());
            Ok(())
        } else {
            Err(TransportError::Timeout)
        }
    }
    fn discover_peers(&mut self) -> Result<Vec<Peer>, TransportError> {
        Ok(Vec::new())
    }
    fn start_listening(&mut self) -> Result<(), TransportError> {
        Ok(())
    }
    fn stop_listening(&mut self) -> Result<(), TransportError> {
        Ok(())
    }
}

#[test]
fn packets_that_are_not_due_keep_their_order() {
    let open = Arc::new(Mutex::new(false));
    let sent = Arc::new(Mutex::new(Vec::new()));
    let mut links = TransportManager::new();
    links.add_transport(Box::new(Gate { open: open.clone(), sent: sent.clone() }));
    let mut router = DtnRouter::new(Storage::new(), links);
    let (a, b, c, d) = (packet(), packet(), packet(), packet());
    let wall = a.timestamp;
    for p in [&a, &b, &c] {
        router.flood_packet(p.clone()).unwrap();
    }
    router.update_peers(vec![peer("peer1", "addr1")]);
    assert_eq!(router.process_queue(0, &wall).unwrap(), 0);
    router.update_peers(vec![]);
    *open.lock().unwrap() = true;
    let (none, _) = manager(&[]);
    let mut bare = DtnRouter::new(Storage::new(), none);
    bare.flood_packet(d.clone()).unwrap();
    assert_eq!(bare.process_queue(0, &wall).unwrap(), 0);

    router.flood_packet(d.clone()).unwrap();
    assert_eq!(sent.lock().unwrap().clone(), vec![d.message_id.clone()]);
    assert_eq!(router.process_queue(9_999, &wall).unwrap(), 0);
    assert_eq!(router.process_queue(10_000, &wall).unwrap(), 3);
    assert_eq!(
        sent.lock().unwrap().clone(),
        vec![d.message_id.clone(), a.message_id.clone(), b.message_id.clone(), c.message_id.clone()]
    );
    assert_eq!(router.process_queue(u64::MAX, &wall).unwrap(), 0);
}

#[test]
fn packet_is_flooded_to_the_addresses_of_the_peers_in_the_order_of_learning() {
    let (links, log) = manager(&[(TransportType::Udp, true, true)]);
    let mut router = DtnRouter::new(Storage::new(), links);
    assert!(router.flood_targets().is_empty());
    router.update_peer(peer("b", "10.0.0.2:1"));
    router.update_peer(peer("a", "10.0.0.1:1"));
    router.update_peer(peer("c", "10.0.0.3:1"));
    router.update_peer(peer("a", "10.0.0.9:1"));
    assert_eq!(router.flood_targets(), vec!["10.0.0.2:1", "10.0.0.9:1", "10.0.0.3:1"]);
    let p = packet();
    router.flood_packet(p.clone()).unwrap();
    let sent: Vec<String> = log.lock().unwrap().iter().map(|s| s.1.clone()).collect();
    assert_eq!(sent, vec!["10.0.0.2:1", "10.0.0.9:1", "10.0.0.3:1"]);
    assert_eq!(router.get_stats().forwarded_packets, 3);
    assert_eq!(router.process_queue(0, &Timestamp::now()).unwrap(), 0);
}

#[test]
fn outcome_of_a_flood_is_counted_or_queued() {
    let (links, log) = manager(&[(TransportType::Udp, true, true)]);
    let mut router = DtnRouter::new(Storage::new(), links);
    router.update_peer(peer("a", "10.0.0.1:1"));
    let now = Timestamp::now();
    router.record_flood(packet(), 2);
    assert_eq!(router.get_stats().forwarded_packets, 2);
    assert_eq!(router.process_queue(0, &now).unwrap(), 0);
    router.record_flood(packet(), 0);
    assert_eq!(router.get_stats().forwarded_packets, 2);
    assert!(log.lock().unwrap().is_empty());
    assert_eq!(router.process_queue(0, &now).unwrap(), 1);
    assert_eq!(router.get_stats().forwarded_packets, 3);
    assert_eq!(log.lock().unwrap().len(), 1);
}
