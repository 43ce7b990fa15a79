use ya_ok_core::identity::Identity;
use ya_ok_core::message::{Message, StatusType};
use ya_ok_core::packet::{Packet, Priority};
use ya_ok_core::routing::queue::{DtnQueue, QueuedPacket};
use ya_ok_core::time::Timestamp;

fn create_test_packet(priority: Priority) -> Packet {
    let identity = Identity::new();
    let message = Message::status("test_sender".into(), StatusType::Okay);
    let receiver_key = [0u8; 32];
    let mut packet = Packet::from_message(&message, &identity, &receiver_key).unwrap();
    packet.priority = priority;
    packet
}

#[test]
fn enqueue_dequeue_respects_priority() {
    let mut queue = DtnQueue::new();
    let wall = Timestamp::now();

    let low_pkt = create_test_packet(Priority::Low);
    let high_pkt = create_test_packet(Priority::High);
    let med_pkt = create_test_packet(Priority::Medium);

    queue.enqueue(QueuedPacket::new(low_pkt, None)).unwrap();
    queue.enqueue(QueuedPacket::new(high_pkt, None)).unwrap();
    queue.enqueue(QueuedPacket::new(med_pkt, None)).unwrap();

    let first = queue.dequeue_ready(0, &wall).unwrap();
    assert_eq!(first.packet.priority, Priority::High);

    let second = queue.dequeue_ready(0, &wall).unwrap();
    assert_eq!(second.packet.priority, Priority::Medium);

    let third = queue.dequeue_ready(0, &wall).unwrap();
    assert_eq!(third.packet.priority, Priority::Low);
}

#[test]
fn retry_backoff_works() {
    let packet = create_test_packet(Priority::High);
    let mut queued = QueuedPacket::new(packet, None);
    let now: u64 = 1_000_000;

    assert!(queued.can_retry(now));

    queued.mark_attempt(now);
    assert_eq!(queued.retry_count, 1);
    assert!(!queued.can_retry(now));
}

#[test]
fn cleanup_removes_expired() {
    let mut queue = DtnQueue::new();
    let wall = Timestamp::now();

    for _ in 0..5 {
        let pkt = create_test_packet(Priority::High);
        queue.enqueue(QueuedPacket::new(pkt, None)).unwrap();
    }

    assert_eq!(queue.total_count(), 5);

    let removed = queue.cleanup_expired(&wall);
    assert_eq!(removed, 0);
    assert_eq!(queue.total_count(), 5);
}

#[test]
fn dequeue_is_high_medium_low_for_every_order_of_insertion() {
    let orders = [
        [Priority::Low, Priority::High, Priority::Medium],
        [Priority::Low, Priority::Medium, Priority::High],
        [Priority::High, Priority::Low, Priority::Medium],
        [Priority::High, Priority::Medium, Priority::Low],
        [Priority::Medium, Priority::Low, Priority::High],
        [Priority::Medium, Priority::High, Priority::Low],
    ];
    let wall = Timestamp::now();
    for order in orders {
        let mut queue = DtnQueue::new();
        for p in order {
            queue.enqueue(QueuedPacket::new(create_test_packet(p), None)).unwrap();
        }
        assert_eq!(queue.dequeue_ready(7, &wall).unwrap().packet.priority, Priority::High);
        assert_eq!(queue.dequeue_ready(7, &wall).unwrap().packet.priority, Priority::Medium);
        assert_eq!(queue.dequeue_ready(7, &wall).unwrap().packet.priority, Priority::Low);
        assert!(queue.dequeue_ready(7, &wall).is_none());
    }
}

#[test]
fn backoff_doubles_with_every_attempt() {
    let mut queued = QueuedPacket::new(create_test_packet(Priority::High), None);
    queued.mark_attempt(10_000);
    assert!(!queued.can_retry(19_999));
    assert!(queued.can_retry(20_000));
    queued.mark_attempt(20_000);
    assert_eq!(queued.retry_count, 2);
    assert!(!queued.can_retry(39_999));
    assert!(queued.can_retry(40_000));
    queued.mark_attempt(40_000);
    assert_eq!(queued.retry_count, 3);
    assert!(!queued.can_retry(40_000 + 40_000));
    assert!(!queued.can_retry(u64::MAX));
}

#[test]
fn clock_that_runs_backwards_does_not_allow_a_retry() {
    let mut queued = QueuedPacket::new(create_test_packet(Priority::Low), None);
    queued.mark_attempt(50_000);
    assert!(!queued.can_retry(10));
}

#[test]
fn full_queue_drops_its_oldest_packet() {
    let mut queue = DtnQueue::new();
    let wall = Timestamp::now();
    let mut first_id = String::new();
    for i in 0..101 {
        let pkt = create_test_packet(Priority::Medium);
        if i == 0 {
            first_id = pkt.message_id.clone();
        }
        queue.enqueue(QueuedPacket::new(pkt, None)).unwrap();
    }
    assert_eq!(queue.total_count(), 100);
    assert_eq!(queue.stats().medium_priority_count, 100);
    assert_eq!(queue.stats().high_priority_count, 0);
    let head = queue.dequeue_ready(0, &wall).unwrap();
    assert_ne!(head.packet.message_id, first_id);
}

#[test]
fn expired_packets_are_not_dequeued_and_are_cleaned_up() {
    let mut queue = DtnQueue::new();
    let pkt = create_test_packet(Priority::High);
    let made = pkt.timestamp;
    queue.enqueue(QueuedPacket::new(pkt, None)).unwrap();
    let late = made.plus_seconds(3600);
    assert!(queue.dequeue_ready(0, &late).is_none());
    assert_eq!(queue.cleanup_expired(&late), 1);
    assert_eq!(queue.cleanup_expired(&late), 0);
    assert_eq!(queue.total_count(), 0);
}

#[test]
fn packet_that_waits_for_its_backoff_is_passed_over() {
    let mut queue = DtnQueue::new();
    let wall = Timestamp::now();
    let mut waiting = QueuedPacket::new(create_test_packet(Priority::High), None);
    waiting.mark_attempt(1_000);
    let waiting_id = waiting.packet.message_id.clone();
    queue.enqueue(waiting).unwrap();
    let ready = create_test_packet(Priority::High);
    let ready_id = ready.message_id.clone();
    queue.enqueue(QueuedPacket::new(ready, None)).unwrap();
    let got = queue.dequeue_ready(2_000, &wall).unwrap();
    assert_eq!(got.packet.message_id, ready_id);
    assert!(queue.dequeue_ready(2_000, &wall).is_none());
    let later = queue.dequeue_ready(11_000, &wall).unwrap();
    assert_eq!(later.packet.message_id, waiting_id);
}

#[test]
fn tried_packet_waits_again_until_its_third_attempt() {
    let wall = Timestamp::now();
    let mut queue = DtnQueue::new();
    let first = QueuedPacket::new(create_test_packet(Priority::High), None);
    queue.settle(first, true, 1_000);
    assert_eq!(queue.total_count(), 0);

    let second = QueuedPacket::new(create_test_packet(Priority::Medium), Some("bob".to_string()));
    queue.settle(second, false, 1_000);
    assert_eq!(queue.stats().medium_priority_count, 1);
    assert!(queue.dequeue_ready(10_999, &wall).is_none());
    let again = queue.dequeue_ready(11_000, &wall).unwrap();
    assert_eq!(again.retry_count, 1);
    assert_eq!(again.last_attempt, Some(1_000));
    assert_eq!(again.target_peer.as_deref(), Some("bob"));

    queue.settle(again, false, 11_000);
    assert!(queue.dequeue_ready(30_999, &wall).is_none());
    let last = queue.dequeue_ready(31_000, &wall).unwrap();
    assert_eq!(last.retry_count, 2);
    queue.settle(last, false, 31_000);
    assert_eq!(queue.total_count(), 0);
}
