use ya_ok_core::message::{Message, MessagePayload, MessageType, StatusType};
use ya_ok_core::storage::{Storage, StorageError};
use ya_ok_core::time::Timestamp;

fn create_test_message() -> Message {
    Message::new(
        "sender-abc".to_string(),
        MessageType::Status,
        MessagePayload::Status(StatusType::Okay),
    )
}

#[test]
fn test_ack_storage() {
    let mut storage = Storage::new();
    let now = Timestamp::now();

    let message = create_test_message();
    storage.store_message(&message, now).unwrap();

    storage.store_ack(&message.id, "peer1", "Received", now).unwrap();

    let acks = storage.get_acks_for_message(&message.id).unwrap();
    assert_eq!(acks.len(), 1);
    assert_eq!(acks[0].0, "peer1");
    assert_eq!(acks[0].1, "Received");

    storage.store_ack(&message.id, "peer1", "Delivered", now).unwrap();

    let acks = storage.get_acks_for_message(&message.id).unwrap();
    assert_eq!(acks.len(), 2);

    let msg = storage.get_message_by_id(&message.id).unwrap();
    assert!(msg.is_some());

    let pending = storage.get_pending_messages().unwrap();
    assert_eq!(pending.len(), 0, "Delivered message should not be in pending");
}

#[test]
fn test_multiple_acks() {
    let mut storage = Storage::new();
    let now = Timestamp::now();

    let message = create_test_message();
    storage.store_message(&message, now).unwrap();

    storage.store_ack(&message.id, "peer1", "Received", now).unwrap();
    storage.store_ack(&message.id, "peer2", "Received", now).unwrap();
    storage.store_ack(&message.id, "peer3", "Received", now).unwrap();

    let acks = storage.get_acks_for_message(&message.id).unwrap();
    assert_eq!(acks.len(), 3);
}

#[test]
fn test_ack_replace() {
    let mut storage = Storage::new();
    let now = Timestamp::now();

    let message = create_test_message();
    storage.store_message(&message, now).unwrap();

    storage.store_ack(&message.id, "peer1", "Received", now).unwrap();
    storage.store_ack(&message.id, "peer1", "Delivered", now).unwrap();

    let acks = storage.get_acks_for_message(&message.id).unwrap();
    assert_eq!(acks.len(), 2);
}

#[test]
fn same_ack_twice_is_kept_once() {
    let mut storage = Storage::new();
    let t1 = Timestamp::from_secs(1_700_000_000);
    let t2 = Timestamp::from_secs(1_700_000_050);
    storage.store_ack("m", "peer1", "Received", t1).unwrap();
    storage.store_ack("m", "peer2", "Received", t1).unwrap();
    storage.store_ack("m", "peer1", "Received", t2).unwrap();
    let acks = storage.get_acks_for_message("m").unwrap();
    assert_eq!(acks.len(), 2);
    assert_eq!(acks[0].0, "peer2");
    assert_eq!(acks[1].0, "peer1");
    assert_eq!(acks[1].2, "2023-11-14T22:14:10+00:00");
}

#[test]
fn seen_message_is_stored_once() {
    let mut storage = Storage::new();
    let now = Timestamp::from_secs(1_700_000_000);
    let message = create_test_message();
    storage.store_message(&message, now).unwrap();
    storage.store_message(&message, now.plus_seconds(5)).unwrap();
    let stats = storage.get_stats().unwrap();
    assert_eq!(stats.total_messages, 1);
    assert_eq!(stats.pending_messages, 1);
    assert_eq!(stats.seen_messages, 1);
    assert!(storage.is_message_seen(&message.id).unwrap());
    assert!(!storage.is_message_seen("another").unwrap());
}

#[test]
fn empty_text_is_refused_by_the_store() {
    let mut storage = Storage::new();
    let now = Timestamp::from_secs(1_700_000_000);
    let message = Message::with_id(
        "123e4567-e89b-12d3-a456-426614174000".to_string(),
        "alice".to_string(),
        now,
        ya_ok_core::message::MessageType::Text,
        ya_ok_core::message::MessagePayload::Text(String::new()),
    );
    let r = storage.store_message(&message, now);
    assert!(matches!(r, Err(StorageError::ValidationFailed(_))));
    assert_eq!(storage.get_stats().unwrap().total_messages, 0);
    assert!(!storage.is_message_seen(&message.id).unwrap());
}

#[test]
fn message_outside_the_calendar_cannot_be_written() {
    let mut storage = Storage::new();
    let mut message = create_test_message();
    message.timestamp = Timestamp { secs: i64::MAX, nanos: 0 };
    let r = storage.store_message(&message, Timestamp::from_secs(0));
    assert!(matches!(r, Err(StorageError::SerializationFailed)));
}

#[test]
fn malformed_identifier_is_refused_without_touching_the_store() {
    let mut storage = Storage::new();
    let now = Timestamp::from_secs(1_700_000_000);
    let message = create_test_message();
    storage.store_message(&message, now).unwrap();
    let r = storage.get_message_by_id("%27; DROP TABLE messages;--");
    assert!(matches!(r, Err(StorageError::InvalidInput(_))));
    assert_eq!(storage.get_stats().unwrap().total_messages, 1);
    let found = storage.get_message_by_id(&message.id).unwrap().unwrap();
    assert_eq!(found.id, message.id);
    assert_eq!(found.sender_id, "sender-abc");
    let absent = storage.get_message_by_id("123e4567-e89b-12d3-a456-426614174000").unwrap();
    assert!(absent.is_none());
}

#[test]
fn cleanup_twice_removes_nothing_the_second_time() {
    let mut storage = Storage::new();
    let t0 = Timestamp::from_secs(1_700_000_000);
    let old1 = create_test_message();
    let old2 = create_test_message();
    let young = create_test_message();
    storage.store_message(&old1, t0).unwrap();
    storage.store_message(&old2, t0.plus_seconds(1)).unwrap();
    storage.mark_delivered(&old2.id).unwrap();
    storage.store_message(&young, t0.plus_seconds(100)).unwrap();
    let now = t0.plus_seconds(3601);
    assert_eq!(storage.cleanup_expired(now).unwrap(), 2);
    assert_eq!(storage.cleanup_expired(now).unwrap(), 0);
    assert_eq!(storage.get_stats().unwrap().total_messages, 1);
    assert!(storage.is_message_seen(&old1.id).unwrap());
    let exactly = t0.plus_seconds(100 + 3600);
    assert_eq!(storage.cleanup_expired(exactly).unwrap(), 1);
}

#[test]
fn pending_is_oldest_first_and_recent_is_newest_first() {
    let mut storage = Storage::new();
    let t0 = Timestamp::from_secs(1_700_000_000);
    let a = create_test_message();
    let b = create_test_message();
    let c = create_test_message();
    storage.store_message(&b, t0.plus_seconds(20)).unwrap();
    storage.store_message(&a, t0.plus_seconds(10)).unwrap();
    storage.store_message(&c, t0.plus_seconds(30)).unwrap();
    let pending = storage.get_pending_messages().unwrap();
    let ids: Vec<&str> = pending.iter().map(|p| p.message_id.as_str()).collect();
    assert_eq!(ids, vec![a.id.as_str(), b.id.as_str(), c.id.as_str()]);
    assert_eq!(pending[0].ttl, 3600);
    assert!(!pending[0].delivered);
    let recent = storage.get_recent_messages(2).unwrap();
    let ids: Vec<&str> = recent.iter().map(|m| m.id.as_str()).collect();
    assert_eq!(ids, vec![c.id.as_str(), b.id.as_str()]);
    let since = storage.get_messages_since(t0.plus_seconds(10)).unwrap();
    let ids: Vec<&str> = since.iter().map(|m| m.id.as_str()).collect();
    assert_eq!(ids, vec![b.id.as_str(), c.id.as_str()]);
    let from = storage.get_messages_from("sender-abc").unwrap();
    assert_eq!(from.len(), 3);
    assert_eq!(from[0].id, c.id);
    assert_eq!(storage.get_messages_from("nobody").unwrap().len(), 0);
}

#[test]
fn delivered_stays_delivered() {
    let mut storage = Storage::new();
    let t0 = Timestamp::from_secs(1_700_000_000);
    let a = create_test_message();
    storage.store_message(&a, t0).unwrap();
    storage.mark_delivered(&a.id).unwrap();
    storage.mark_delivered(&a.id).unwrap();
    storage.store_message(&a, t0.plus_seconds(1)).unwrap();
    storage.store_ack(&a.id, "p", "Received", t0).unwrap();
    assert_eq!(storage.get_pending_messages().unwrap().len(), 0);
    assert_eq!(storage.get_stats().unwrap().total_messages, 1);
}

#[test]
fn used_nonce_is_remembered_for_a_day() {
    let mut storage = Storage::new();
    let t0 = Timestamp::from_secs(1_700_000_000);
    let nonce = [7u8; 24];
    assert!(!storage.is_nonce_used(&nonce, "alice").unwrap());
    storage.mark_nonce_used(&nonce, "alice", t0).unwrap();
    assert!(storage.is_nonce_used(&nonce, "alice").unwrap());
    assert!(!storage.is_nonce_used(&nonce, "bob").unwrap());
    assert!(!storage.is_nonce_used(&[8u8; 24], "alice").unwrap());
    storage.mark_nonce_used(&nonce, "bob", t0).unwrap();
    assert!(storage.is_nonce_used(&nonce, "bob").unwrap());
    storage.cleanup_expired_nonces(t0.plus_seconds(86_400)).unwrap();
    assert!(storage.is_nonce_used(&nonce, "alice").unwrap());
    storage.cleanup_expired_nonces(t0.plus_seconds(86_401)).unwrap();
    assert!(!storage.is_nonce_used(&nonce, "alice").unwrap());
}

#[test]
fn received_message_is_stored_though_its_identifier_was_seen() {
    let mut storage = Storage::new();
    let t0 = Timestamp::from_secs(1_700_000_000);
    let a = create_test_message();
    storage.mark_message_seen(&a.id, t0).unwrap();
    storage.store_message(&a, t0).unwrap();
    assert_eq!(storage.get_stats().unwrap().total_messages, 0);
    storage.store_received(&a, t0).unwrap();
    storage.store_received(&a, t0).unwrap();
    assert_eq!(storage.get_stats().unwrap().total_messages, 1);
    assert_eq!(storage.get_stats().unwrap().seen_messages, 1);
}

#[test]
fn acknowledgements_are_listed_in_the_order_of_their_times() {
    let mut storage = Storage::new();
    let t0 = Timestamp::from_secs(1_700_000_000);
    storage.store_ack("m", "late", "Received", t0.plus_seconds(20)).unwrap();
    storage.store_ack("m", "early", "Received", t0).unwrap();
    storage.store_ack("other", "x", "Received", t0.plus_seconds(5)).unwrap();
    storage.store_ack("m", "middle", "Received", t0.plus_seconds(10)).unwrap();
    storage.store_ack("m", "twin", "Received", t0.plus_seconds(10)).unwrap();
    let acks = storage.get_acks_for_message("m").unwrap();
    let from: Vec<&str> = acks.iter().map(|a| a.0.as_str()).collect();
    assert_eq!(from, vec!["early", "middle", "twin", "late"]);
    assert_eq!(acks[0].2, "2023-11-14T22:13:20+00:00");
    assert_eq!(acks[3].2, "2023-11-14T22:13:40+00:00");
}
