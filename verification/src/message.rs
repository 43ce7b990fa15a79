//! Messages: a presence status, a short text or a short voice clip.

use crate::text::{all_text_chars_allowed, fresh_uuid, text_chars_allowed, uuid_parses};
use crate::time::{wire_instant, wire_time_text, Timestamp, NANOS_PER_SEC};
use crate::wire::{
    byte_list_bytes, clone_bytes, head_bytes, lemma_byte_list_read_is_written,
    lemma_byte_list_round_trip, lemma_count_read_is_written, lemma_count_round_trip,
    lemma_key_read_is_written, lemma_key_round_trip, lemma_text_field_read_is_written,
    lemma_text_field_round_trip, lemma_text_read_is_written, lemma_text_round_trip,
    lemma_utf8_len_bound, parse_byte_list, parse_count, parse_key, parse_text, parse_text_field,
    read_byte_list, read_count, read_key, read_text, read_text_field, str_eq, text_bytes,
    text_field_bytes, text_fits, utf8_len, write_byte_list, write_head, write_text,
    write_text_field, MAJOR_MAP,
};
use vstd::prelude::*;
use vstd::utf8::*;

verus! {

/// Most bytes of UTF-8 that a text message holds.
pub const MAX_TEXT_BYTES: usize = 256;

/// Most bytes that a voice message holds.
pub const MAX_VOICE_BYTES: usize = 56_000;

/// Kind of a message.
#[derive(Clone, Copy, Debug, PartialEq, Eq, Structural)]
pub enum MessageType {
    /// Presence status.
    Status,
    /// Short text.
    Text,
    /// Short voice clip.
    Voice,
}

/// Presence status.
#[derive(Clone, Copy, Debug, PartialEq, Eq, Structural)]
pub enum StatusType {
    /// All is well.
    Okay,
    /// Cannot talk now.
    Busy,
    /// Will answer later.
    Later,
}

/// What a message carries.
#[derive(Debug)]
pub enum MessagePayload {
    /// Presence status.
    Status(StatusType),
    /// Text of at most 256 bytes.
    Text(String),
    /// Voice of at most 56 000 bytes; the codec is not this library's concern.
    Voice(Vec<u8>),
}

/// A payload as a mathematical value.
pub enum PayloadView {
    Status(StatusType),
    Text(Seq<char>),
    Voice(Seq<u8>),
}

impl View for MessagePayload {
    type V = PayloadView;

    open spec fn view(&self) -> PayloadView {
        match self {
            MessagePayload::Status(s) => PayloadView::Status(*s),
            MessagePayload::Text(t) => PayloadView::Text(t@),
            MessagePayload::Voice(v) => PayloadView::Voice(v@),
        }
    }
}

impl Clone for MessagePayload {
    fn clone(&self) -> (r: Self)
        ensures
            r@ == self@,
    {
        match self {
            MessagePayload::Status(s) => MessagePayload::Status(*s),
            MessagePayload::Text(t) => MessagePayload::Text(t.clone()),
            MessagePayload::Voice(v) => MessagePayload::Voice(clone_bytes(v)),
        }
    }
}

/// A message. It does not change once made.
#[derive(Debug)]
pub struct Message {
    /// Unique identifier, a UUID in text.
    pub id: String,
    /// Kind of the message.
    pub message_type: MessageType,
    /// Identifier of the sender.
    pub sender_id: String,
    /// When the message was made.
    pub timestamp: Timestamp,
    /// What the message carries.
    pub payload: MessagePayload,
}

/// A message as a mathematical value.
pub struct MessageView {
    pub id: Seq<char>,
    pub message_type: MessageType,
    pub sender_id: Seq<char>,
    pub timestamp: Timestamp,
    pub payload: PayloadView,
}

impl View for Message {
    type V = MessageView;

    open spec fn view(&self) -> MessageView {
        MessageView {
            id: self.id@,
            message_type: self.message_type,
            sender_id: self.sender_id@,
            timestamp: self.timestamp,
            payload: self.payload@,
        }
    }
}

impl Clone for Message {
    fn clone(&self) -> (r: Self)
        ensures
            r@ == self@,
    {
        Message {
            id: self.id.clone(),
            message_type: self.message_type,
            sender_id: self.sender_id.clone(),
            timestamp: self.timestamp,
            payload: self.payload.clone(),
        }
    }
}

/// Why a message is refused.
#[derive(Clone, Copy, Debug, PartialEq, Eq, Structural)]
pub enum MessageError {
    /// The text has this many bytes, more than 256.
    TextTooLong(usize),
    /// The text holds a character that is neither a letter, a digit,
    /// white space nor one of `.,!?`.
    InvalidTextCharacters,
    /// The text is empty.
    EmptyText,
    /// The voice clip has this many bytes, more than 56 000.
    VoiceTooLong(usize),
    /// The voice clip is empty.
    EmptyVoice,
}

impl MessageError {
    /// The error in words.
    pub open spec fn words(self) -> Seq<char> {
        match self {
            MessageError::TextTooLong(_) => "Text too long (max 256 bytes)"@,
            MessageError::InvalidTextCharacters => "Invalid text characters"@,
            MessageError::EmptyText => "Empty text message"@,
            MessageError::VoiceTooLong(_) => "Voice too long (max 56000 bytes)"@,
            MessageError::EmptyVoice => "Empty voice message"@,
        }
    }

    /// The error in words, as a text.
    pub fn to_string(&self) -> (r: String)
        ensures
            r@ == self.words(),
    {
        match self {
            MessageError::TextTooLong(_) => "Text too long (max 256 bytes)".to_string(),
            MessageError::InvalidTextCharacters => "Invalid text characters".to_string(),
            MessageError::EmptyText => "Empty text message".to_string(),
            MessageError::VoiceTooLong(_) => "Voice too long (max 56000 bytes)".to_string(),
            MessageError::EmptyVoice => "Empty voice message".to_string(),
        }
    }
}

/// What `validate` answers for a payload.
pub open spec fn payload_verdict(p: PayloadView) -> Result<(), MessageError> {
    match p {
        PayloadView::Status(_) => Ok(()),
        PayloadView::Text(t) => if t.len() == 0 {
            Err(MessageError::EmptyText)
        } else if encode_utf8(t).len() > MAX_TEXT_BYTES {
            Err(MessageError::TextTooLong(encode_utf8(t).len() as usize))
        } else {
            Ok(())
        },
        PayloadView::Voice(v) => if v.len() == 0 {
            Err(MessageError::EmptyVoice)
        } else if v.len() > MAX_VOICE_BYTES {
            Err(MessageError::VoiceTooLong(v.len() as usize))
        } else {
            Ok(())
        },
    }
}

/// What the text constructor answers for a text.
pub open spec fn text_verdict(t: Seq<char>) -> Result<(), MessageError> {
    if t.len() == 0 {
        Err(MessageError::EmptyText)
    } else if encode_utf8(t).len() > MAX_TEXT_BYTES {
        Err(MessageError::TextTooLong(encode_utf8(t).len() as usize))
    } else if !text_chars_allowed(t) {
        Err(MessageError::InvalidTextCharacters)
    } else {
        Ok(())
    }
}

/// What the voice constructor answers for a clip.
pub open spec fn voice_verdict(v: Seq<u8>) -> Result<(), MessageError> {
    if v.len() == 0 {
        Err(MessageError::EmptyVoice)
    } else if v.len() > MAX_VOICE_BYTES {
        Err(MessageError::VoiceTooLong(v.len() as usize))
    } else {
        Ok(())
    }
}

impl Message {
    /// A message with the given identifier and time.
    pub fn with_id(
        id: String,
        sender_id: String,
        timestamp: Timestamp,
        message_type: MessageType,
        payload: MessagePayload,
    ) -> (m: Message)
        ensures
            m@ == (MessageView {
                id: id@,
                message_type,
                sender_id: sender_id@,
                timestamp,
                payload: payload@,
            }),
    {
        Message { id, message_type, sender_id, timestamp, payload }
    }

    /// A new message: a fresh random identifier, the present time.
    pub fn new(sender_id: String, message_type: MessageType, payload: MessagePayload) -> (m:
        Message)
        ensures
            uuid_parses(m@.id),
            m@.message_type == message_type,
            m@.sender_id == sender_id@,
            m@.payload == payload@,
            m@.timestamp.secs >= 0,
            m@.timestamp.nanos < NANOS_PER_SEC,
    {
        Message { id: fresh_uuid(), message_type, sender_id, timestamp: Timestamp::now(), payload }
    }

    /// A new status message.
    pub fn status(sender_id: String, status: StatusType) -> (m: Message)
        ensures
            uuid_parses(m@.id),
            m@.message_type == MessageType::Status,
            m@.sender_id == sender_id@,
            m@.payload == PayloadView::Status(status),
    {
        Message::new(sender_id, MessageType::Status, MessagePayload::Status(status))
    }

    /// A new text message. An empty text is refused, a text of more than
    /// 256 bytes is refused, and so is one with a character that is neither
    /// a letter, a digit, white space nor one of `.,!?`.
    pub fn text(sender_id: String, text: String) -> (r: Result<Message, MessageError>)
        ensures
            match r {
                Ok(m) => {
                    &&& text_verdict(text@) is Ok
                    &&& uuid_parses(m@.id)
                    &&& m@.message_type == MessageType::Text
                    &&& m@.sender_id == sender_id@
                    &&& m@.payload == PayloadView::Text(text@)
                },
                Err(e) => text_verdict(text@) == Err::<(), MessageError>(e),
            },
    {
        let n = utf8_len(text.as_str());
        proof {
            if text@.len() > 0 {
                assert(encode_utf8(text@).len() > 0) by {
                    reveal_with_fuel(encode_utf8, 1);
                }
            }
        }
        if n == 0 {
            return Err(MessageError::EmptyText);
        }
        if n > MAX_TEXT_BYTES {
            return Err(MessageError::TextTooLong(n));
        }
        if !all_text_chars_allowed(text.as_str()) {
            return Err(MessageError::InvalidTextCharacters);
        }
        Ok(Message::new(sender_id, MessageType::Text, MessagePayload::Text(text)))
    }

    /// A new voice message. An empty clip is refused, and so is a clip of
    /// more than 56 000 bytes.
    pub fn voice(sender_id: String, audio_data: Vec<u8>) -> (r: Result<Message, MessageError>)
        ensures
            match r {
                Ok(m) => {
                    &&& voice_verdict(audio_data@) is Ok
                    &&& uuid_parses(m@.id)
                    &&& m@.message_type == MessageType::Voice
                    &&& m@.sender_id == sender_id@
                    &&& m@.payload == PayloadView::Voice(audio_data@)
                },
                Err(e) => voice_verdict(audio_data@) == Err::<(), MessageError>(e),
            },
    {
        let n = audio_data.len();
        if n == 0 {
            return Err(MessageError::EmptyVoice);
        }
        if n > MAX_VOICE_BYTES {
            return Err(MessageError::VoiceTooLong(n));
        }
        Ok(Message::new(sender_id, MessageType::Voice, MessagePayload::Voice(audio_data)))
    }

    /// Whether the payload keeps its limits: a status always does, a text
    /// holds 1 to 256 bytes, a voice clip 1 to 56 000.
    pub fn validate(&self) -> (r: Result<(), MessageError>)
        ensures
            r == payload_verdict(self@.payload),
    {
        match &self.payload {
            MessagePayload::Status(_) => Ok(()),
            MessagePayload::Text(text) => {
                let n = utf8_len(text.as_str());
                proof {
                    if text@.len() > 0 {
                        assert(encode_utf8(text@).len() > 0) by {
                            reveal_with_fuel(encode_utf8, 1);
                        }
                    }
                }
                if n == 0 {
                    Err(MessageError::EmptyText)
                } else if n > MAX_TEXT_BYTES {
                    Err(MessageError::TextTooLong(n))
                } else {
                    Ok(())
                }
            },
            MessagePayload::Voice(data) => {
                if data.len() == 0 {
                    Err(MessageError::EmptyVoice)
                } else if data.len() > MAX_VOICE_BYTES {
                    Err(MessageError::VoiceTooLong(data.len()))
                } else {
                    Ok(())
                }
            },
        }
    }
}

/// The name of a kind of message on the wire.
pub open spec fn message_type_name(t: MessageType) -> Seq<char> {
    match t {
        MessageType::Status => "Status"@,
        MessageType::Text => "Text"@,
        MessageType::Voice => "Voice"@,
    }
}

/// The kind of message that a name on the wire stands for.
pub open spec fn message_type_named(name: Seq<char>) -> Option<MessageType> {
    if name == "Status"@ {
        Some(MessageType::Status)
    } else if name == "Text"@ {
        Some(MessageType::Text)
    } else if name == "Voice"@ {
        Some(MessageType::Voice)
    } else {
        None
    }
}

/// The name of a status on the wire and in exports.
pub open spec fn status_name(s: StatusType) -> Seq<char> {
    match s {
        StatusType::Okay => "ok"@,
        StatusType::Busy => "busy"@,
        StatusType::Later => "later"@,
    }
}

/// The status that a name stands for.
pub open spec fn status_named(name: Seq<char>) -> Option<StatusType> {
    if name == "ok"@ {
        Some(StatusType::Okay)
    } else if name == "busy"@ {
        Some(StatusType::Busy)
    } else if name == "later"@ {
        Some(StatusType::Later)
    } else {
        None
    }
}

/// Every name stands for the kind or status that it was taken from, and
/// is short.
pub proof fn lemma_names(t: MessageType, s: StatusType)
    ensures
        message_type_named(message_type_name(t)) == Some(t),
        status_named(status_name(s)) == Some(s),
        text_fits(message_type_name(t)),
        text_fits(status_name(s)),
{
    reveal_strlit("Status");
    reveal_strlit("Text");
    reveal_strlit("Voice");
    reveal_strlit("ok");
    reveal_strlit("busy");
    reveal_strlit("later");
    lemma_utf8_len_bound(message_type_name(t));
    lemma_utf8_len_bound(status_name(s));
}

impl MessageType {
    /// The name of the kind on the wire.
    pub fn name(&self) -> (r: &'static str)
        ensures
            r@ == message_type_name(*self),
    {
        match self {
            MessageType::Status => "Status",
            MessageType::Text => "Text",
            MessageType::Voice => "Voice",
        }
    }

    /// The kind that `name` stands for.
    pub fn from_name(name: &str) -> (r: Option<MessageType>)
        ensures
            r == message_type_named(name@),
    {
        if str_eq(name, "Status") {
            Some(MessageType::Status)
        } else if str_eq(name, "Text") {
            Some(MessageType::Text)
        } else if str_eq(name, "Voice") {
            Some(MessageType::Voice)
        } else {
            None
        }
    }
}

impl StatusType {
    /// The name of the status on the wire and in exports.
    pub fn name(&self) -> (r: &'static str)
        ensures
            r@ == status_name(*self),
    {
        match self {
            StatusType::Okay => "ok",
            StatusType::Busy => "busy",
            StatusType::Later => "later",
        }
    }

    /// The status that `name` stands for.
    pub fn from_name(name: &str) -> (r: Option<StatusType>)
        ensures
            r == status_named(name@),
    {
        if str_eq(name, "ok") {
            Some(StatusType::Okay)
        } else if str_eq(name, "busy") {
            Some(StatusType::Busy)
        } else if str_eq(name, "later") {
            Some(StatusType::Later)
        } else {
            None
        }
    }
}

/// Whether the lengths in a payload can be written.
pub open spec fn payload_fits(p: PayloadView) -> bool {
    match p {
        PayloadView::Status(_) => true,
        PayloadView::Text(t) => text_fits(t),
        PayloadView::Voice(v) => v.len() <= u64::MAX,
    }
}

/// A payload on the wire: a map of one entry, whose key names the kind.
pub open spec fn payload_bytes(p: PayloadView) -> Seq<u8> {
    head_bytes(MAJOR_MAP, 1) + (match p {
        PayloadView::Status(s) => text_bytes("Status"@) + text_bytes(status_name(s)),
        PayloadView::Text(t) => text_bytes("Text"@) + text_bytes(t),
        PayloadView::Voice(v) => text_bytes("Voice"@) + byte_list_bytes(v),
    })
}

/// Reads a payload from the front of `s`.
pub open spec fn parse_payload(s: Seq<u8>) -> Option<(PayloadView, Seq<u8>)> {
    match parse_count(s, MAJOR_MAP) {
        Some((n, rest)) => if n != 1 {
            None
        } else {
            match parse_text(rest) {
                Some((tag, after)) => if tag == "Status"@ {
                    match parse_text(after) {
                        Some((name, tail)) => match status_named(name) {
                            Some(st) => Some((PayloadView::Status(st), tail)),
                            None => None,
                        },
                        None => None,
                    }
                } else if tag == "Text"@ {
                    match parse_text(after) {
                        Some((t, tail)) => Some((PayloadView::Text(t), tail)),
                        None => None,
                    }
                } else if tag == "Voice"@ {
                    match parse_byte_list(after) {
                        Some((v, tail)) => Some((PayloadView::Voice(v), tail)),
                        None => None,
                    }
                } else {
                    None
                },
                None => None,
            }
        },
        None => None,
    }
}

/// A payload that is written and read again is the same payload.
pub proof fn lemma_payload_round_trip(p: PayloadView, rest: Seq<u8>)
    requires
        payload_fits(p),
    ensures
        parse_payload(payload_bytes(p) + rest) == Some((p, rest)),
{
    reveal_strlit("Status");
    reveal_strlit("Text");
    reveal_strlit("Voice");
    lemma_utf8_len_bound("Status"@);
    lemma_utf8_len_bound("Text"@);
    lemma_utf8_len_bound("Voice"@);
    match p {
        PayloadView::Status(st) => {
            lemma_names(MessageType::Status, st);
            assert(payload_bytes(p) + rest =~= head_bytes(MAJOR_MAP, 1) + (text_bytes("Status"@)
                + (text_bytes(status_name(st)) + rest)));
            lemma_count_round_trip(
                MAJOR_MAP,
                1,
                text_bytes("Status"@) + (text_bytes(status_name(st)) + rest),
            );
            lemma_text_round_trip("Status"@, text_bytes(status_name(st)) + rest);
            lemma_text_round_trip(status_name(st), rest);
        },
        PayloadView::Text(t) => {
            assert(payload_bytes(p) + rest =~= head_bytes(MAJOR_MAP, 1) + (text_bytes("Text"@) + (
            text_bytes(t) + rest)));
            lemma_count_round_trip(MAJOR_MAP, 1, text_bytes("Text"@) + (text_bytes(t) + rest));
            lemma_text_round_trip("Text"@, text_bytes(t) + rest);
            lemma_text_round_trip(t, rest);
        },
        PayloadView::Voice(v) => {
            let list = byte_list_bytes(v);
            assert(payload_bytes(p) + rest =~= head_bytes(MAJOR_MAP, 1) + (text_bytes("Voice"@)
                + (list + rest)));
            lemma_count_round_trip(MAJOR_MAP, 1, text_bytes("Voice"@) + (list + rest));
            lemma_text_round_trip("Voice"@, list + rest);
            lemma_byte_list_round_trip(v, rest);
        },
    }
}

/// Appends a payload to `out`.
pub fn write_payload(out: &mut Vec<u8>, p: &MessagePayload)
    ensures
        final(out)@ == old(out)@ + payload_bytes(p@),
        payload_fits(p@),
{
    write_head(out, MAJOR_MAP, 1);
    match p {
        MessagePayload::Status(s) => {
            write_text(out, "Status");
            write_text(out, s.name());
        },
        MessagePayload::Text(t) => {
            write_text(out, "Text");
            write_text(out, t.as_str());
        },
        MessagePayload::Voice(v) => {
            let _ = v.len();
            write_text(out, "Voice");
            write_byte_list(out, v.as_slice());
        },
    }
    assert(out@ =~= old(out)@ + payload_bytes(p@));
}

/// Reads the payload at `pos`.
pub fn read_payload(b: &[u8], pos: usize) -> (r: Option<(MessagePayload, usize)>)
    requires
        pos <= b@.len(),
    ensures
        match r {
            Some((p, next)) => pos < next <= b@.len() && parse_payload(b@.skip(pos as int))
                == Some((p@, b@.skip(next as int))),
            None => parse_payload(b@.skip(pos as int)) is None,
        },
{
    let (n, at) = match read_count(b, pos, MAJOR_MAP) {
        Some(c) => c,
        None => {
            return None;
        },
    };
    if n != 1 {
        return None;
    }
    let (tag, after) = match read_text(b, at) {
        Some(t) => t,
        None => {
            return None;
        },
    };
    if str_eq(tag.as_str(), "Status") {
        match read_text(b, after) {
            Some((name, next)) => match StatusType::from_name(name.as_str()) {
                Some(st) => Some((MessagePayload::Status(st), next)),
                None => None,
            },
            None => None,
        }
    } else if str_eq(tag.as_str(), "Text") {
        match read_text(b, after) {
            Some((t, next)) => Some((MessagePayload::Text(t), next)),
            None => None,
        }
    } else if str_eq(tag.as_str(), "Voice") {
        match read_byte_list(b, after) {
            Some((v, next)) => Some((MessagePayload::Voice(v), next)),
            None => None,
        }
    } else {
        None
    }
}

/// Whether the lengths in a message can be written.
pub open spec fn message_fits(m: MessageView) -> bool {
    &&& text_fits(m.id)
    &&& text_fits(m.sender_id)
    &&& payload_fits(m.payload)
}

/// A message on the wire with `time_text` for its time: a map of five
/// entries in the order id, message_type, sender_id, timestamp, payload.
pub open spec fn message_bytes(m: MessageView, time_text: Seq<char>) -> Seq<u8> {
    head_bytes(MAJOR_MAP, 5) + (text_field_bytes("id"@, m.id) + (text_field_bytes(
        "message_type"@,
        message_type_name(m.message_type),
    ) + (text_field_bytes("sender_id"@, m.sender_id) + (text_field_bytes("timestamp"@, time_text)
        + (text_bytes("payload"@) + payload_bytes(m.payload))))))
}

/// A message on the wire, where its time can be written.
pub open spec fn message_wire(m: MessageView) -> Option<Seq<u8>> {
    match wire_time_text(m.timestamp.secs, m.timestamp.nanos) {
        Some(t) => Some(message_bytes(m, t)),
        None => None,
    }
}

/// Reads a message from the front of `s`.
pub open spec fn parse_message(s: Seq<u8>) -> Option<(MessageView, Seq<u8>)> {
    match parse_count(s, MAJOR_MAP) {
        Some((n, s1)) => if n != 5 {
            None
        } else {
            match parse_text_field(s1, "id"@) {
                Some((id, s2)) => match parse_text_field(s2, "message_type"@) {
                    Some((kind, s3)) => match message_type_named(kind) {
                        Some(message_type) => match parse_text_field(s3, "sender_id"@) {
                            Some((sender_id, s4)) => match parse_text_field(s4, "timestamp"@) {
                                Some((time_text, s5)) => match wire_instant(time_text) {
                                    Some((secs, nanos)) => match parse_key(s5, "payload"@) {
                                        Some(s6) => match parse_payload(s6) {
                                            Some((payload, s7)) => Some(
                                                (
                                                    MessageView {
                                                        id,
                                                        message_type,
                                                        sender_id,
                                                        timestamp: Timestamp { secs, nanos },
                                                        payload,
                                                    },
                                                    s7,
                                                ),
                                            ),
                                            None => None,
                                        },
                                        None => None,
                                    },
                                    None => None,
                                },
                                None => None,
                            },
                            None => None,
                        },
                        None => None,
                    },
                    None => None,
                },
                None => None,
            }
        },
        None => None,
    }
}

/// The message that `bytes` hold, where they hold one and nothing else.
pub open spec fn message_of_bytes(bytes: Seq<u8>) -> Option<MessageView> {
    match parse_message(bytes) {
        Some((m, rest)) => if rest.len() == 0 {
            Some(m)
        } else {
            None
        },
        None => None,
    }
}

/// A message that is written and read again is the same message, given
/// that its time text reads back to its time.
pub proof fn lemma_message_round_trip(m: MessageView, time_text: Seq<char>, rest: Seq<u8>)
    requires
        message_fits(m),
        text_fits(time_text),
        wire_instant(time_text) == Some((m.timestamp.secs, m.timestamp.nanos)),
    ensures
        parse_message(message_bytes(m, time_text) + rest) == Some((m, rest)),
{
    reveal_strlit("id");
    reveal_strlit("message_type");
    reveal_strlit("sender_id");
    reveal_strlit("timestamp");
    reveal_strlit("payload");
    lemma_utf8_len_bound("id"@);
    lemma_utf8_len_bound("message_type"@);
    lemma_utf8_len_bound("sender_id"@);
    lemma_utf8_len_bound("timestamp"@);
    lemma_utf8_len_bound("payload"@);
    lemma_names(m.message_type, StatusType::Okay);
    let kind = message_type_name(m.message_type);
    let f6 = payload_bytes(m.payload) + rest;
    let f5 = text_bytes("payload"@) + f6;
    let f4 = text_field_bytes("timestamp"@, time_text) + f5;
    let f3 = text_field_bytes("sender_id"@, m.sender_id) + f4;
    let f2 = text_field_bytes("message_type"@, kind) + f3;
    let f1 = text_field_bytes("id"@, m.id) + f2;
    assert(message_bytes(m, time_text) + rest =~= head_bytes(MAJOR_MAP, 5) + f1);
    lemma_count_round_trip(MAJOR_MAP, 5, f1);
    lemma_text_field_round_trip("id"@, m.id, f2);
    lemma_text_field_round_trip("message_type"@, kind, f3);
    lemma_text_field_round_trip("sender_id"@, m.sender_id, f4);
    lemma_text_field_round_trip("timestamp"@, time_text, f5);
    lemma_key_round_trip("payload"@, f6);
    lemma_payload_round_trip(m.payload, rest);
}

/// A payload that is read is the one that is written for it.
pub proof fn lemma_payload_read_is_written(s: Seq<u8>)
    requires
        parse_payload(s) is Some,
    ensures
        parse_payload(s) matches Some((p, rest)) && payload_fits(p) && s == payload_bytes(p)
            + rest,
{
    lemma_count_read_is_written(s, MAJOR_MAP);
    let (_, s1) = parse_count(s, MAJOR_MAP)->0;
    lemma_text_read_is_written(s1);
    let (tag, s2) = parse_text(s1)->0;
    let (p, rest) = parse_payload(s)->0;
    if tag == "Status"@ || tag == "Text"@ {
        lemma_text_read_is_written(s2);
    } else {
        lemma_byte_list_read_is_written(s2);
    }
    assert(s =~= payload_bytes(p) + rest);
}

/// Bytes that are read as a message are the bytes that are written for
/// that message, so no message is read from two byte strings.
pub proof fn lemma_read_message_is_written(bytes: Seq<u8>)
    requires
        message_of_bytes(bytes) is Some,
    ensures
        message_fits(message_of_bytes(bytes)->0),
        message_wire(message_of_bytes(bytes)->0) == Some(bytes),
{
    let m = message_of_bytes(bytes)->0;
    lemma_count_read_is_written(bytes, MAJOR_MAP);
    let (_, s1) = parse_count(bytes, MAJOR_MAP)->0;
    lemma_text_field_read_is_written(s1, "id"@);
    let (_, s2) = parse_text_field(s1, "id"@)->0;
    lemma_text_field_read_is_written(s2, "message_type"@);
    let (_, s3) = parse_text_field(s2, "message_type"@)->0;
    lemma_text_field_read_is_written(s3, "sender_id"@);
    let (_, s4) = parse_text_field(s3, "sender_id"@)->0;
    lemma_text_field_read_is_written(s4, "timestamp"@);
    let (time_text, s5) = parse_text_field(s4, "timestamp"@)->0;
    lemma_key_read_is_written(s5, "payload"@);
    let s6 = parse_key(s5, "payload"@)->0;
    lemma_payload_read_is_written(s6);
    let (_, s7) = parse_payload(s6)->0;
    assert(s7 =~= Seq::<u8>::empty());
    assert(wire_time_text(m.timestamp.secs, m.timestamp.nanos) == Some(time_text));
    assert(bytes =~= message_bytes(m, time_text));
}

/// Appends a message to `out`, with `time_text` for its time.
pub fn write_message(out: &mut Vec<u8>, m: &Message, time_text: &str)
    ensures
        final(out)@ == old(out)@ + message_bytes(m@, time_text@),
        message_fits(m@),
        text_fits(time_text@),
{
    write_head(out, MAJOR_MAP, 5);
    write_text_field(out, "id", m.id.as_str());
    write_text_field(out, "message_type", m.message_type.name());
    write_text_field(out, "sender_id", m.sender_id.as_str());
    write_text_field(out, "timestamp", time_text);
    write_text(out, "payload");
    write_payload(out, &m.payload);
    assert(out@ =~= old(out)@ + message_bytes(m@, time_text@));
}

/// Reads the message at `pos`.
pub fn read_message(b: &[u8], pos: usize) -> (r: Option<(Message, usize)>)
    requires
        pos <= b@.len(),
    ensures
        match r {
            Some((m, next)) => pos < next <= b@.len() && parse_message(b@.skip(pos as int))
                == Some((m@, b@.skip(next as int))),
            None => parse_message(b@.skip(pos as int)) is None,
        },
{
    let (n, at1) = match read_count(b, pos, MAJOR_MAP) {
        Some(c) => c,
        None => {
            return None;
        },
    };
    if n != 5 {
        return None;
    }
    let (id, at2) = match read_text_field(b, at1, "id") {
        Some(v) => v,
        None => {
            return None;
        },
    };
    let (kind, at3) = match read_text_field(b, at2, "message_type") {
        Some(v) => v,
        None => {
            return None;
        },
    };
    let message_type = match MessageType::from_name(kind.as_str()) {
        Some(t) => t,
        None => {
            return None;
        },
    };
    let (sender_id, at4) = match read_text_field(b, at3, "sender_id") {
        Some(v) => v,
        None => {
            return None;
        },
    };
    let (time_text, at5) = match read_text_field(b, at4, "timestamp") {
        Some(v) => v,
        None => {
            return None;
        },
    };
    let timestamp = match Timestamp::parse_wire(time_text.as_str()) {
        Some(t) => t,
        None => {
            return None;
        },
    };
    let at6 = match read_key(b, at5, "payload") {
        Some(v) => v,
        None => {
            return None;
        },
    };
    let (payload, at7) = match read_payload(b, at6) {
        Some(v) => v,
        None => {
            return None;
        },
    };
    Some((Message { id, message_type, sender_id, timestamp, payload }, at7))
}

impl Message {
    /// The message on the wire; nothing where its time has no text,
    /// which it has wherever the calendar holds it and its nanoseconds are
    /// those of a second. What comes back decodes to the message.
    pub fn encode(&self) -> (r: Option<Vec<u8>>)
        ensures
            r is Some <==> message_wire(self@) is Some,
            self@.timestamp.can_be_written() ==> r is Some,
            r matches Some(b) ==> message_wire(self@) == Some(b@) && message_of_bytes(b@) == Some(
                self@,
            ),
    {
        let time_text = match self.timestamp.to_wire_text() {
            Some(t) => t,
            None => {
                return None;
            },
        };
        let mut out: Vec<u8> = Vec::new();
        write_message(&mut out, self, time_text.as_str());
        proof {
            lemma_message_round_trip(self@, time_text@, Seq::<u8>::empty());
            assert(out@ =~= message_bytes(self@, time_text@));
            assert(message_bytes(self@, time_text@) + Seq::<u8>::empty() =~= out@);
        }
        Some(out)
    }

    /// The message that `bytes` hold on the wire, where they hold one and
    /// nothing else.
    pub fn decode(bytes: &[u8]) -> (r: Option<Message>)
        ensures
            r is Some <==> message_of_bytes(bytes@) is Some,
            r matches Some(m) ==> message_of_bytes(bytes@) == Some(m@),
    {
        assert(bytes@.skip(0) =~= bytes@);
        match read_message(bytes, 0) {
            Some((m, next)) => {
                if next == bytes.len() {
                    Some(m)
                } else {
                    None
                }
            },
            None => None,
        }
    }
}

} // verus!
