use ya_ok_core::message::{
    Message, MessageError, MessagePayload, MessageType, StatusType,
};
use ya_ok_core::time::Timestamp;

#[test]
fn status_message_has_status_payload() {
    let m = Message::status("alice".to_string(), StatusType::Okay);
    assert_eq!(m.message_type, MessageType::Status);
    assert!(matches!(m.payload, MessagePayload::Status(StatusType::Okay)));
    assert_eq!(m.sender_id, "alice");
    assert_eq!(m.id.len(), 36);
    assert!(m.validate().is_ok());
}

#[test]
fn identifiers_are_fresh() {
    let a = Message::status("alice".to_string(), StatusType::Busy);
    let b = Message::status("alice".to_string(), StatusType::Busy);
    assert_ne!(a.id, b.id);
    assert!(uuid::Uuid::parse_str(&a.id).is_ok());
}

#[test]
fn text_of_257_bytes_is_refused() {
    let r = Message::text("alice".to_string(), "A".repeat(257));
    assert_eq!(r.err(), Some(MessageError::TextTooLong(257)));
}

#[test]
fn text_of_256_bytes_is_taken() {
    let m = Message::text("alice".to_string(), "A".repeat(256)).unwrap();
    assert_eq!(m.message_type, MessageType::Text);
    assert!(m.validate().is_ok());
}

#[test]
fn length_of_a_text_is_counted_in_bytes() {
    let r = Message::text("alice".to_string(), "я".repeat(129));
    assert_eq!(r.err(), Some(MessageError::TextTooLong(258)));
    assert!(Message::text("alice".to_string(), "я".repeat(128)).is_ok());
}

#[test]
fn text_may_hold_letters_digits_space_and_four_marks() {
    assert!(Message::text("a".to_string(), "Hello, world! Really? Yes. 123\n\t".to_string()).is_ok());
    assert!(Message::text("a".to_string(), "Привіт".to_string()).is_ok());
    for bad in ["a;b", "<script>", "a_b", "50%", "x:y", "'"] {
        let r = Message::text("a".to_string(), bad.to_string());
        assert_eq!(r.err(), Some(MessageError::InvalidTextCharacters), "{}", bad);
    }
}

#[test]
fn too_long_comes_before_bad_characters() {
    let r = Message::text("a".to_string(), ";".repeat(300));
    assert_eq!(r.err(), Some(MessageError::TextTooLong(300)));
}

#[test]
fn empty_text_is_refused() {
    let r = Message::text("a".to_string(), String::new());
    assert_eq!(r.err(), Some(MessageError::EmptyText));
    assert!(Message::text("a".to_string(), " ".to_string()).is_ok());
    let held = Message::with_id(
        "id".to_string(),
        "a".to_string(),
        ya_ok_core::time::Timestamp::from_secs(0),
        MessageType::Text,
        ya_ok_core::message::MessagePayload::Text(String::new()),
    );
    assert_eq!(held.validate(), Err(MessageError::EmptyText));
}

#[test]
fn voice_holds_1_to_56000_bytes() {
    let r = Message::voice("a".to_string(), vec![0u8; 56_001]);
    assert_eq!(r.err(), Some(MessageError::VoiceTooLong(56_001)));
    let m = Message::voice("a".to_string(), vec![0u8; 56_000]).unwrap();
    assert_eq!(m.message_type, MessageType::Voice);
    assert!(m.validate().is_ok());
    let empty = Message::voice("a".to_string(), Vec::new());
    assert_eq!(empty.err(), Some(MessageError::EmptyVoice));
    assert!(Message::voice("a".to_string(), vec![0u8]).is_ok());
    let held = Message::with_id(
        "id".to_string(),
        "a".to_string(),
        ya_ok_core::time::Timestamp::from_secs(0),
        MessageType::Voice,
        ya_ok_core::message::MessagePayload::Voice(Vec::new()),
    );
    assert_eq!(held.validate(), Err(MessageError::EmptyVoice));
}

#[test]
fn validate_holds_public_fields_to_the_limits() {
    let long = Message::with_id(
        "id".to_string(),
        "a".to_string(),
        Timestamp::from_secs(0),
        MessageType::Text,
        MessagePayload::Text("A".repeat(300)),
    );
    assert_eq!(long.validate(), Err(MessageError::TextTooLong(300)));
    let loud = Message::with_id(
        "id".to_string(),
        "a".to_string(),
        Timestamp::from_secs(0),
        MessageType::Voice,
        MessagePayload::Voice(vec![1u8; 60_000]),
    );
    assert_eq!(loud.validate(), Err(MessageError::VoiceTooLong(60_000)));
}

#[test]
fn message_on_the_wire_is_what_a_cbor_library_writes() {
    let m = Message::with_id(
        "123e4567-e89b-12d3-a456-426614174000".to_string(),
        "alice".to_string(),
        Timestamp { secs: 1_700_000_000, nanos: 123_000_000 },
        MessageType::Voice,
        MessagePayload::Voice(vec![0, 23, 24, 255]),
    );
    let ours = m.encode().unwrap();
    let text = |s: &str| ciborium::Value::Text(s.to_string());
    let value = ciborium::Value::Map(vec![
        (text("id"), text("123e4567-e89b-12d3-a456-426614174000")),
        (text("message_type"), text("Voice")),
        (text("sender_id"), text("alice")),
        (text("timestamp"), text("2023-11-14T22:13:20.123Z")),
        (
            text("payload"),
            ciborium::Value::Map(vec![(
                text("Voice"),
                ciborium::Value::Array(
                    [0u8, 23, 24, 255].iter().map(|b| ciborium::Value::Integer((*b).into())).collect(),
                ),
            )]),
        ),
    ]);
    let mut theirs = Vec::new();
    ciborium::ser::into_writer(&value, &mut theirs).unwrap();
    assert_eq!(ours, theirs);
    let back = Message::decode(&theirs).unwrap();
    assert_eq!(back.id, m.id);
    assert_eq!(back.timestamp, m.timestamp);
    assert!(matches!(back.payload, MessagePayload::Voice(v) if v == vec![0, 23, 24, 255]));
}

#[test]
fn status_on_the_wire_has_a_short_name() {
    let m = Message::with_id(
        "i".to_string(),
        "s".to_string(),
        Timestamp::from_secs(0),
        MessageType::Status,
        MessagePayload::Status(StatusType::Later),
    );
    let bytes = m.encode().unwrap();
    let value: ciborium::Value = ciborium::de::from_reader(&bytes[..]).unwrap();
    let map = value.as_map().unwrap();
    assert_eq!(map.len(), 5);
    assert_eq!(map[3].1.as_text(), Some("1970-01-01T00:00:00Z"));
    let payload = map[4].1.as_map().unwrap();
    assert_eq!(payload[0].0.as_text(), Some("Status"));
    assert_eq!(payload[0].1.as_text(), Some("later"));
}

#[test]
fn message_round_trips_on_the_wire() {
    let text = Message::text("bob".to_string(), "Hello there".to_string()).unwrap();
    let back = Message::decode(&text.encode().unwrap()).unwrap();
    assert_eq!(back.id, text.id);
    assert_eq!(back.sender_id, "bob");
    assert_eq!(back.timestamp, text.timestamp);
    assert_eq!(back.message_type, MessageType::Text);
    assert!(matches!(back.payload, MessagePayload::Text(t) if t == "Hello there"));
}

#[test]
fn bytes_that_are_no_message_are_refused() {
    let m = Message::status("a".to_string(), StatusType::Okay);
    let bytes = m.encode().unwrap();
    assert!(Message::decode(&bytes[..bytes.len() - 1]).is_none());
    let mut longer = bytes.clone();
    longer.push(0);
    assert!(Message::decode(&longer).is_none());
    assert!(Message::decode(&[]).is_none());
    let mut other_major = bytes.clone();
    other_major[0] = 0x85;
    assert!(Message::decode(&other_major).is_none());
}

#[test]
fn names_of_kinds_and_statuses() {
    assert_eq!(MessageType::Status.name(), "Status");
    assert_eq!(MessageType::from_name("Voice"), Some(MessageType::Voice));
    assert_eq!(MessageType::from_name("voice"), None);
    assert_eq!(StatusType::Okay.name(), "ok");
    assert_eq!(StatusType::from_name("busy"), Some(StatusType::Busy));
    assert_eq!(StatusType::from_name("Busy"), None);
}

#[test]
fn bytes_that_are_read_as_a_message_are_written_again_the_same() {
    let m = Message::with_id(
        "123e4567-e89b-12d3-a456-426614174000".to_string(),
        "alice".to_string(),
        Timestamp { secs: 1_700_000_000, nanos: 0 },
        MessageType::Text,
        MessagePayload::Text("Hello".to_string()),
    );
    let bytes = m.encode().unwrap();
    let back = Message::decode(&bytes).unwrap();
    assert_eq!(back.encode().unwrap(), bytes);
    let text = b"2023-11-14T22:13:20Z";
    let at = bytes.windows(text.len()).position(|w| w == text).unwrap();
    let mut small_letter = bytes.clone();
    small_letter[at + 10] = b't';
    assert!(Message::decode(&small_letter).is_none());
    let mut long_head = vec![0xb8, 5];
    long_head.extend_from_slice(&bytes[1..]);
    assert_eq!(bytes[0], 0xa5);
    assert!(Message::decode(&long_head).is_none());
}
