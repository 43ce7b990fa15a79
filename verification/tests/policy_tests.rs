use ya_ok_core::message::{Message, MessagePayload, MessageType, StatusType};
use ya_ok_core::policy::{Policy, PolicyError, PolicyManager, TransportSet};
use ya_ok_core::time::Timestamp;
use ya_ok_core::transport::TransportType;

#[test]
fn presets_have_their_limits() {
    let d = Policy::default();
    assert_eq!(d.max_text_size, 256);
    assert_eq!(d.max_voice_seconds, 7);
    assert_eq!(d.max_stored_messages, 1000);
    assert_eq!(d.max_ttl_seconds, 3600);
    assert_eq!(d.max_hops, 10);
    assert!(!d.prioritize_status);
    assert!(d.enable_compression && d.enable_auto_cleanup);
    let m = Policy::military();
    assert_eq!((m.max_text_size, m.max_voice_seconds, m.max_stored_messages), (128, 3, 100));
    assert_eq!((m.max_ttl_seconds, m.max_hops, m.prioritize_status), (1800, 5, true));
    let c = Policy::collapse();
    assert_eq!((c.max_text_size, c.max_voice_seconds, c.max_stored_messages), (64, 0, 50));
    assert_eq!((c.max_ttl_seconds, c.max_hops, c.enable_compression), (900, 3, false));
    let o = Policy::offline();
    assert_eq!(o.max_stored_messages, 500);
    assert_eq!(o.max_text_size, 256);
    let by_trait: Policy = Default::default();
    assert_eq!(by_trait, d);
}

#[test]
fn presets_allow_their_links() {
    let all = [
        TransportType::Ble,
        TransportType::WifiDirect,
        TransportType::Udp,
        TransportType::Satellite,
    ];
    let allowed = |p: &Policy| -> Vec<bool> { all.iter().map(|t| p.is_transport_allowed(t)).collect() };
    assert_eq!(allowed(&Policy::default()), vec![true, true, true, true]);
    assert_eq!(allowed(&Policy::military()), vec![true, false, false, true]);
    assert_eq!(allowed(&Policy::collapse()), vec![true, false, false, false]);
    assert_eq!(allowed(&Policy::offline()), vec![true, true, false, false]);
}

#[test]
fn set_of_links_holds_what_was_put_in() {
    let mut s = TransportSet::empty();
    assert!(s.insert(TransportType::Udp));
    assert!(!s.insert(TransportType::Udp));
    assert!(s.contains(&TransportType::Udp));
    assert!(!s.contains(&TransportType::Ble));
    assert!(s.remove(&TransportType::Udp));
    assert!(!s.remove(&TransportType::Udp));
    assert_eq!(s, TransportSet::empty());
    assert!(TransportSet::all().contains(&TransportType::Satellite));
}

#[test]
fn text_is_held_to_the_limit_in_bytes() {
    let p = Policy::military();
    assert!(p.validate_text_size(&"a".repeat(128)).is_ok());
    match p.validate_text_size(&"a".repeat(129)) {
        Err(PolicyError::TextTooLong(129, 128)) => {}
        other => panic!("{:?}", other),
    }
    match p.validate_text_size(&"я".repeat(65)) {
        Err(PolicyError::TextTooLong(130, 128)) => {}
        other => panic!("{:?}", other),
    }
}

#[test]
fn voice_is_held_to_the_limit_in_seconds() {
    let p = Policy::default();
    assert!(p.validate_voice_length(7).is_ok());
    match p.validate_voice_length(8) {
        Err(PolicyError::VoiceTooLong(8, 7)) => {}
        other => panic!("{:?}", other),
    }
    assert!(Policy::collapse().validate_voice_length(0).is_ok());
    assert!(Policy::collapse().validate_voice_length(1).is_err());
}

#[test]
fn store_is_cleaned_above_the_limit() {
    let p = Policy::collapse();
    assert!(!p.should_cleanup_storage(50));
    assert!(p.should_cleanup_storage(51));
}

#[test]
fn status_goes_first_where_the_policy_says_so() {
    assert_eq!(Policy::default().get_message_priority(&MessageType::Status), 1);
    assert_eq!(Policy::military().get_message_priority(&MessageType::Status), 2);
    assert_eq!(Policy::military().get_message_priority(&MessageType::Text), 1);
    assert_eq!(Policy::military().get_message_priority(&MessageType::Voice), 0);
}

fn voice(len: usize) -> Message {
    Message::with_id(
        "v".to_string(),
        "a".to_string(),
        Timestamp::from_secs(0),
        MessageType::Voice,
        MessagePayload::Voice(vec![0u8; len]),
    )
}

#[test]
fn manager_holds_messages_to_the_policy_in_force() {
    let mut manager = PolicyManager::new();
    assert_eq!(*manager.get_policy(), Policy::default());
    let status = Message::status("a".to_string(), StatusType::Okay);
    let long = Message::text("a".to_string(), "a".repeat(200)).unwrap();
    assert!(manager.validate_message(&status).is_ok());
    assert!(manager.validate_message(&long).is_ok());
    assert!(manager.validate_message(&voice(56_000)).is_ok());
    assert!(manager.validate_message(&voice(63_999)).is_ok());
    match manager.validate_message(&voice(64_000)) {
        Err(PolicyError::VoiceTooLong(8, 7)) => {}
        other => panic!("{:?}", other),
    }
    manager.set_policy(Policy::military());
    match manager.validate_message(&long) {
        Err(PolicyError::TextTooLong(200, 128)) => {}
        other => panic!("{:?}", other),
    }
    assert!(manager.validate_message(&voice(31_999)).is_ok());
    assert!(manager.validate_message(&voice(32_000)).is_err());
    manager.set_policy(Policy::collapse());
    assert!(manager.validate_message(&voice(7_999)).is_ok());
    assert!(manager.validate_message(&voice(8_000)).is_err());
    assert!(manager.validate_message(&status).is_ok());
    manager.auto_detect_policy();
    assert_eq!(*manager.get_policy(), Policy::default());
}

#[test]
fn very_long_voice_is_denied() {
    let manager = PolicyManager::new();
    match manager.validate_message(&voice(2_048_000)) {
        Err(PolicyError::VoiceTooLong(255, 7)) => {}
        other => panic!("{:?}", other),
    }
    match manager.validate_message(&voice(2_040_000)) {
        Err(PolicyError::VoiceTooLong(255, 7)) => {}
        other => panic!("{:?}", other),
    }
}
