//! The operations that an embedding program calls: one container of state
//! and, for each operation, a function that answers with a status code or
//! with owned values. Time is given by the caller.

use crate::identity::Identity;
use crate::message::{
    message_of_bytes, message_wire, payload_verdict, status_name, status_named, text_verdict,
    voice_verdict, Message, MessagePayload, MessageType, MessageView, PayloadView, StatusType,
};
use crate::packet::{
    can_seal, forwardable, from_bytes_verdict, opening, opens_for, packet_of_bytes, packet_result_view,
    packet_wire, sealing, survives, Packet, PacketError, PacketView,
};
use crate::policy::{Policy, PolicyManager};
use crate::routing::{
    bumped, bumped_by, flooded, learnt, lemma_peer_place_bound, peers_view, recipient_key,
    DtnRouter, RoutingStats,
};
use crate::storage::{
    ack_lines, acks_of, by_time, decoded, has_nonce, has_row, has_seen, lemma_pending,
    lemma_used_nonce_is_held, lines_of, messages_view, newest, offered, offered_all, pending,
    received, rows_view, same_tables, with_delivered, with_nonce, NonceEntryView, SeenEntryView,
    Storage, StorageError, StorageStats, StoredMessageView,
};
use crate::sync::{gossip_in_text, Gossip, GossipStats, GossipView};
use crate::text::{
    base64_bytes, base64_decode, base64_encode, base64_text, comma_joined, comma_pieces, fresh_uuid,
    hex_bytes, hex_decode, hex_encode, hex_text, is_hex_text, join_commas, split_commas,
    strings_view, trim, trimmed, uuid_parses,
};
use crate::time::{rfc3339_instant, rfc3339_text, Timestamp};
use crate::transport::{Peer, PeerView, TransportManager, TransportType};
use crate::wire::{array_from_slice, array_to_vec, clone_bytes, str_eq};
use vstd::hash_map::StringHashMap;
use vstd::prelude::*;

verus! {

/// The operation succeeded.
pub const ERR_OK: i32 = 0;

/// The core was not set up.
pub const ERR_NOT_INITIALIZED: i32 = -1;

/// The core was set up before; also: there is no identity.
pub const ERR_ALREADY_INITIALIZED: i32 = -2;

/// There is no identity.
pub const ERR_NO_IDENTITY: i32 = -2;

/// An argument is out of range.
pub const ERR_INVALID_ARGUMENT: i32 = -3;

/// The policy denies the message.
pub const ERR_POLICY_VIOLATION: i32 = -4;

/// The store or the router failed.
pub const ERR_INTERNAL_ERROR: i32 = -5;

/// A value could not be written.
pub const ERR_SERIALIZE_ERROR: i32 = -6;

/// A pointer was null, or a buffer was empty.
pub const ERR_NULL_POINTER: i32 = -7;

/// A text was not UTF-8, or was blank.
pub const ERR_UTF8_ERROR: i32 = -8;

/// A value could not be read or does not keep its limits.
pub const ERR_VALIDATION: i32 = -9;

/// The policy or the peer is not known.
pub const ERR_INVALID_POLICY: i32 = -10;

/// The identity could not be saved.
pub const ERR_IDENTITY_SAVE: i32 = -11;

/// Messages that are exported or shown where no number is given.
pub const DEFAULT_LIMIT: usize = 50;

/// Why an operation failed.
#[derive(Debug)]
pub enum ApiError {
    /// The core was not set up.
    NotInitialized,
    /// The core was set up before.
    AlreadyInitialized,
    /// The runtime cannot be had.
    RuntimeNotAvailable,
    /// The store refused.
    StorageError(StorageError),
    /// Input or output failed.
    Io(String),
    /// An argument cannot be used.
    InvalidParameters,
    /// A pointer was null.
    NullPointer,
    /// A text was not UTF-8.
    InvalidUtf8,
    /// The policy denies the message.
    PolicyViolation,
    /// The packet is malformed.
    PacketError(PacketError),
}

impl ApiError {
    /// The error in words.
    pub open spec fn words(self) -> Seq<char> {
        match self {
            ApiError::NotInitialized => "Core not initialized"@,
            ApiError::AlreadyInitialized => "Core already initialized"@,
            ApiError::RuntimeNotAvailable => "Runtime not available"@,
            ApiError::StorageError(e) => "Storage error: "@ + e.words(),
            ApiError::Io(m) => "IO error: "@ + m@,
            ApiError::InvalidParameters => "Invalid parameters"@,
            ApiError::NullPointer => "Null pointer"@,
            ApiError::InvalidUtf8 => "Invalid UTF-8"@,
            ApiError::PolicyViolation => "Policy violation"@,
            ApiError::PacketError(e) => "Packet error: "@ + e.words(),
        }
    }

    /// The error in words, as a text.
    pub fn to_string(&self) -> (r: String)
        ensures
            r@ == self.words(),
    {
        match self {
            ApiError::NotInitialized => "Core not initialized".to_string(),
            ApiError::AlreadyInitialized => "Core already initialized".to_string(),
            ApiError::RuntimeNotAvailable => "Runtime not available".to_string(),
            ApiError::StorageError(e) => "Storage error: ".to_string().concat(
                e.to_string().as_str(),
            ),
            ApiError::Io(m) => "IO error: ".to_string().concat(m.as_str()),
            ApiError::InvalidParameters => "Invalid parameters".to_string(),
            ApiError::NullPointer => "Null pointer".to_string(),
            ApiError::InvalidUtf8 => "Invalid UTF-8".to_string(),
            ApiError::PolicyViolation => "Policy violation".to_string(),
            ApiError::PacketError(e) => "Packet error: ".to_string().concat(
                e.to_string().as_str(),
            ),
        }
    }
}

/// The kind of link that a number names: 0 short-range radio, 1 local
/// wireless, 2 the internet, 3 the satellite; any other number names
/// short-range radio.
pub fn parse_transport_type(value: i32) -> (r: TransportType)
    ensures
        r == match value {
            1 => TransportType::WifiDirect,
            2 => TransportType::Udp,
            3 => TransportType::Satellite,
            _ => TransportType::Ble,
        },
{
    if value == 1 {
        TransportType::WifiDirect
    } else if value == 2 {
        TransportType::Udp
    } else if value == 3 {
        TransportType::Satellite
    } else {
        TransportType::Ble
    }
}

/// Whether a text is the hexadecimal text of 32 bytes.
pub open spec fn is_hex_32(text: Seq<char>) -> bool {
    is_hex_text(text) && text.len() == 64
}

/// The 32 bytes that a hexadecimal text spells.
pub fn parse_hex_32(hex_str: &str) -> (r: Result<[u8; 32], ApiError>)
    ensures
        match r {
            Ok(a) => is_hex_32(hex_str@) && a@ == hex_bytes(hex_str@),
            Err(e) => !is_hex_32(hex_str@) && e is InvalidParameters,
        },
{
    let bytes = match hex_decode(hex_str) {
        Some(b) => b,
        None => {
            return Err(ApiError::InvalidParameters);
        },
    };
    match array_from_slice::<32>(bytes.as_slice()) {
        Some(a) => Ok(a),
        None => Err(ApiError::InvalidParameters),
    }
}

/// A message as it is exported: every field is text.
#[derive(Debug)]
pub struct MessageExport {
    pub id: String,
    pub sender_id: String,
    /// The time in RFC 3339.
    pub timestamp: String,
    /// `status`, `text` or `voice`.
    pub message_type: String,
    /// `ok`, `busy` or `later`, for a status.
    pub status: Option<String>,
    /// The text, for a text.
    pub text: Option<String>,
    /// The clip in base64, for a voice.
    pub voice_base64: Option<String>,
}

/// An exported message as a mathematical value.
pub struct MessageExportView {
    pub id: Seq<char>,
    pub sender_id: Seq<char>,
    pub timestamp: Seq<char>,
    pub message_type: Seq<char>,
    pub status: Option<Seq<char>>,
    pub text: Option<Seq<char>>,
    pub voice_base64: Option<Seq<char>>,
}

/// The text behind an optional string.
pub open spec fn opt_string_view(t: Option<String>) -> Option<Seq<char>> {
    match t {
        Some(s) => Some(s@),
        None => None,
    }
}

impl View for MessageExport {
    type V = MessageExportView;

    open spec fn view(&self) -> MessageExportView {
        MessageExportView {
            id: self.id@,
            sender_id: self.sender_id@,
            timestamp: self.timestamp@,
            message_type: self.message_type@,
            status: opt_string_view(self.status),
            text: opt_string_view(self.text),
            voice_base64: opt_string_view(self.voice_base64),
        }
    }
}

/// A message as it is shown in a list.
#[derive(Debug)]
pub struct MessageSummary {
    pub id: String,
    pub sender_id: String,
    /// The time in RFC 3339.
    pub timestamp: String,
    /// `status`, `text` or `voice`.
    pub message_type: String,
    pub status: Option<String>,
    pub text: Option<String>,
    pub has_voice: bool,
}

/// A listed message as a mathematical value.
pub struct MessageSummaryView {
    pub id: Seq<char>,
    pub sender_id: Seq<char>,
    pub timestamp: Seq<char>,
    pub message_type: Seq<char>,
    pub status: Option<Seq<char>>,
    pub text: Option<Seq<char>>,
    pub has_voice: bool,
}

impl View for MessageSummary {
    type V = MessageSummaryView;

    open spec fn view(&self) -> MessageSummaryView {
        MessageSummaryView {
            id: self.id@,
            sender_id: self.sender_id@,
            timestamp: self.timestamp@,
            message_type: self.message_type@,
            status: opt_string_view(self.status),
            text: opt_string_view(self.text),
            has_voice: self.has_voice,
        }
    }
}

/// The name of a kind of message in exports.
pub open spec fn kind_name(t: MessageType) -> Seq<char> {
    match t {
        MessageType::Status => "status"@,
        MessageType::Text => "text"@,
        MessageType::Voice => "voice"@,
    }
}

/// The RFC 3339 text of an instant, or no text where it has none.
pub open spec fn export_time(t: Timestamp) -> Seq<char> {
    match rfc3339_text(t.secs, t.nanos) {
        Some(text) => text,
        None => Seq::<char>::empty(),
    }
}

/// A message as it is exported: the kind is named after the payload.
pub open spec fn export_of(m: MessageView) -> MessageExportView {
    match m.payload {
        PayloadView::Status(s) => MessageExportView {
            id: m.id,
            sender_id: m.sender_id,
            timestamp: export_time(m.timestamp),
            message_type: "status"@,
            status: Some(status_name(s)),
            text: None,
            voice_base64: None,
        },
        PayloadView::Text(t) => MessageExportView {
            id: m.id,
            sender_id: m.sender_id,
            timestamp: export_time(m.timestamp),
            message_type: "text"@,
            status: None,
            text: Some(t),
            voice_base64: None,
        },
        PayloadView::Voice(v) => MessageExportView {
            id: m.id,
            sender_id: m.sender_id,
            timestamp: export_time(m.timestamp),
            message_type: "voice"@,
            status: None,
            text: None,
            voice_base64: Some(base64_text(v)),
        },
    }
}

/// A message as it is shown in a list: the kind is that of the message,
/// what is shown is that of the payload.
pub open spec fn summary_of(m: MessageView) -> MessageSummaryView {
    MessageSummaryView {
        id: m.id,
        sender_id: m.sender_id,
        timestamp: export_time(m.timestamp),
        message_type: kind_name(m.message_type),
        status: match m.payload {
            PayloadView::Status(s) => Some(status_name(s)),
            _ => None,
        },
        text: match m.payload {
            PayloadView::Text(t) => Some(t),
            _ => None,
        },
        has_voice: m.payload is Voice,
    }
}

/// The text behind an optional text, or no text.
pub open spec fn text_or_empty(t: Option<Seq<char>>) -> Seq<char> {
    match t {
        Some(s) => s,
        None => Seq::<char>::empty(),
    }
}

/// The message that an export stands for, where it stands for one: the
/// time must be RFC 3339, the kind one of the three, a status one of the
/// three, and a clip base64; a text or a clip that is absent is empty.
pub open spec fn message_of_export(e: MessageExportView) -> Option<MessageView> {
    match rfc3339_instant(e.timestamp) {
        None => None,
        Some((secs, nanos)) => {
            let timestamp = Timestamp { secs, nanos };
            if e.message_type == "status"@ {
                match e.status {
                    Some(name) => match status_named(name) {
                        Some(s) => Some(
                            MessageView {
                                id: e.id,
                                message_type: MessageType::Status,
                                sender_id: e.sender_id,
                                timestamp,
                                payload: PayloadView::Status(s),
                            },
                        ),
                        None => None,
                    },
                    None => None,
                }
            } else if e.message_type == "text"@ {
                Some(
                    MessageView {
                        id: e.id,
                        message_type: MessageType::Text,
                        sender_id: e.sender_id,
                        timestamp,
                        payload: PayloadView::Text(text_or_empty(e.text)),
                    },
                )
            } else if e.message_type == "voice"@ {
                match base64_bytes(text_or_empty(e.voice_base64)) {
                    Some(v) => Some(
                        MessageView {
                            id: e.id,
                            message_type: MessageType::Voice,
                            sender_id: e.sender_id,
                            timestamp,
                            payload: PayloadView::Voice(v),
                        },
                    ),
                    None => None,
                }
            } else {
                None
            }
        },
    }
}

fn time_string(t: &Timestamp) -> (r: String)
    ensures
        r@ == export_time(*t),
        rfc3339_text(t.secs, t.nanos) is Some ==> rfc3339_instant(r@) == Some((t.secs, t.nanos)),
{
    match t.to_rfc3339() {
        Some(s) => s,
        None => String::new(),
    }
}

impl MessageExport {
    /// The export of a message. Where the calendar holds the time of the
    /// message and its kind is that of its payload, the export stands for
    /// the message.
    pub fn from_message(message: &Message) -> (r: MessageExport)
        ensures
            r@ == export_of(message@),
            rfc3339_text(message@.timestamp.secs, message@.timestamp.nanos) is Some
                && message@.message_type == crate::api::kind_of(message@.payload)
                ==> message_of_export(r@) == Some(message@),
    {
        proof {
            reveal_strlit("status");
            reveal_strlit("text");
            reveal_strlit("voice");
            crate::message::lemma_names(MessageType::Status, StatusType::Okay);
            crate::message::lemma_names(MessageType::Status, StatusType::Busy);
            crate::message::lemma_names(MessageType::Status, StatusType::Later);
        }
        let r = match &message.payload {
            MessagePayload::Status(status) => MessageExport {
                id: message.id.clone(),
                sender_id: message.sender_id.clone(),
                timestamp: time_string(&message.timestamp),
                message_type: "status".to_string(),
                status: Some(status.name().to_string()),
                text: None,
                voice_base64: None,
            },
            MessagePayload::Text(text) => MessageExport {
                id: message.id.clone(),
                sender_id: message.sender_id.clone(),
                timestamp: time_string(&message.timestamp),
                message_type: "text".to_string(),
                status: None,
                text: Some(text.clone()),
                voice_base64: None,
            },
            MessagePayload::Voice(data) => MessageExport {
                id: message.id.clone(),
                sender_id: message.sender_id.clone(),
                timestamp: time_string(&message.timestamp),
                message_type: "voice".to_string(),
                status: None,
                text: None,
                voice_base64: Some(base64_encode(data.as_slice())),
            },
        };
        proof {
            let m = message@;
            if rfc3339_text(m.timestamp.secs, m.timestamp.nanos) is Some && m.message_type
                == kind_of(m.payload) {
                assert(rfc3339_instant(r@.timestamp)
                    == Some((m.timestamp.secs, m.timestamp.nanos)));
                assert("status"@.len() == 6 && "text"@.len() == 4 && "voice"@.len() == 5);
                match m.payload {
                    PayloadView::Status(st) => {
                        assert(r@.message_type == "status"@);
                        assert(r@.status == Some(status_name(st)));
                        assert(status_named(status_name(st)) == Some(st));
                    },
                    PayloadView::Text(t) => {
                        assert(r@.message_type == "text"@);
                        assert(r@.message_type != "status"@);
                        assert(text_or_empty(r@.text) == t);
                    },
                    PayloadView::Voice(v) => {
                        assert(r@.message_type == "voice"@);
                        assert(r@.message_type != "status"@);
                        assert(r@.message_type != "text"@);
                        assert(base64_bytes(text_or_empty(r@.voice_base64)) == Some(v));
                    },
                }
                assert(message_of_export(r@) == Some(m));
            }
        }
        r
    }

    /// The message that the export stands for.
    pub fn to_message(self) -> (r: Result<Message, ApiError>)
        ensures
            match message_of_export(self@) {
                Some(m) => r matches Ok(x) && x@ == m,
                None => r matches Err(ApiError::InvalidParameters),
            },
    {
        read_export(&self)
    }
}

/// The message that the export stands for.
fn read_export(e: &MessageExport) -> (r: Result<Message, ApiError>)
    ensures
        match message_of_export(e@) {
            Some(m) => r matches Ok(x) && x@ == m,
            None => r matches Err(ApiError::InvalidParameters),
        },
{
    let timestamp = match Timestamp::parse_rfc3339(e.timestamp.as_str()) {
        Some(t) => t,
        None => {
            return Err(ApiError::InvalidParameters);
        },
    };
    if str_eq(e.message_type.as_str(), "status") {
        let name = match &e.status {
            Some(n) => n,
            None => {
                return Err(ApiError::InvalidParameters);
            },
        };
        let status = match StatusType::from_name(name.as_str()) {
            Some(s) => s,
            None => {
                return Err(ApiError::InvalidParameters);
            },
        };
        Ok(
            Message {
                id: e.id.clone(),
                message_type: MessageType::Status,
                sender_id: e.sender_id.clone(),
                timestamp,
                payload: MessagePayload::Status(status),
            },
        )
    } else if str_eq(e.message_type.as_str(), "text") {
        let text = match &e.text {
            Some(t) => t.clone(),
            None => String::new(),
        };
        Ok(
            Message {
                id: e.id.clone(),
                message_type: MessageType::Text,
                sender_id: e.sender_id.clone(),
                timestamp,
                payload: MessagePayload::Text(text),
            },
        )
    } else if str_eq(e.message_type.as_str(), "voice") {
        let encoded = match &e.voice_base64 {
            Some(t) => t.clone(),
            None => String::new(),
        };
        let data = match base64_decode(encoded.as_str()) {
            Some(d) => d,
            None => {
                return Err(ApiError::InvalidParameters);
            },
        };
        Ok(
            Message {
                id: e.id.clone(),
                message_type: MessageType::Voice,
                sender_id: e.sender_id.clone(),
                timestamp,
                payload: MessagePayload::Voice(data),
            },
        )
    } else {
        Err(ApiError::InvalidParameters)
    }
}

/// The `limit` first items of `s`.
pub open spec fn oldest<T>(s: Seq<T>, limit: int) -> Seq<T> {
    if limit < s.len() {
        s.take(limit)
    } else {
        s
    }
}

/// A count as the number that is answered: no more than the largest.
pub open spec fn capped(n: nat) -> i32 {
    if n > i32::MAX {
        i32::MAX
    } else {
        n as i32
    }
}

/// The rows, the seen identifiers and the count after exported messages
/// were offered to a store at `now` as delivered, one after the other: an
/// export that stands for no message is passed over, and a message is
/// counted where the store answered well.
pub open spec fn imported(
    rows: Seq<StoredMessageView>,
    seen: Seq<SeenEntryView>,
    exports: Seq<MessageExportView>,
    now: Timestamp,
) -> (Seq<StoredMessageView>, Seq<SeenEntryView>, nat)
    decreases exports.len(),
{
    if exports.len() == 0 {
        (rows, seen, 0)
    } else {
        let before = imported(rows, seen, exports.drop_last(), now);
        match message_of_export(exports.last()) {
            None => before,
            Some(m) => {
                let step = offered(before.0, before.1, m, true, now);
                (
                    step.0,
                    step.1,
                    if step.2 {
                        before.2 + 1
                    } else {
                        before.2
                    },
                )
            },
        }
    }
}

impl MessageSummary {
    /// The listing of a message.
    pub fn from_message(message: &Message) -> (r: MessageSummary)
        ensures
            r@ == summary_of(message@),
    {
        let (status, text, has_voice) = match &message.payload {
            MessagePayload::Status(status) => (Some(status.name().to_string()), None, false),
            MessagePayload::Text(text) => (None, Some(text.clone()), false),
            MessagePayload::Voice(_) => (None, None, true),
        };
        let message_type = match message.message_type {
            MessageType::Status => "status",
            MessageType::Text => "text",
            MessageType::Voice => "voice",
        };
        MessageSummary {
            id: message.id.clone(),
            sender_id: message.sender_id.clone(),
            timestamp: time_string(&message.timestamp),
            message_type: message_type.to_string(),
            status,
            text,
            has_voice,
        }
    }
}

/// The kind of message that a payload belongs to.
pub open spec fn kind_of(p: PayloadView) -> MessageType {
    match p {
        PayloadView::Status(_) => MessageType::Status,
        PayloadView::Text(_) => MessageType::Text,
        PayloadView::Voice(_) => MessageType::Voice,
    }
}

/// The counts of the core.
#[derive(Clone, Copy, Debug, PartialEq, Eq, Structural)]
pub struct CoreStats {
    pub storage: StorageStats,
    pub routing: RoutingStats,
    pub sync: GossipStats,
}

/// The state of the core: identity, router with store and links, policy
/// and gossip. One container is made when the program starts and is
/// handed to every operation.
pub struct CoreState {
    identity: Option<Identity>,
    router: DtnRouter,
    policy_manager: PolicyManager,
    gossip: Gossip,
    peer_identities: StringHashMap<Identity>,
    rejected_packets: u64,
}

/// The status that a number names: 0 ok, 1 busy, 2 later.
pub open spec fn status_of_code(code: i32) -> Option<StatusType> {
    if code == 0 {
        Some(StatusType::Okay)
    } else if code == 1 {
        Some(StatusType::Busy)
    } else if code == 2 {
        Some(StatusType::Later)
    } else {
        None
    }
}

/// The policy that a number names: 0 civilian, 1 military, 2 collapse,
/// 3 offline.
pub open spec fn policy_of_code(code: i32) -> Option<Policy> {
    if code == 0 {
        Some(Policy::spec_default())
    } else if code == 1 {
        Some(Policy::spec_military())
    } else if code == 2 {
        Some(Policy::spec_collapse())
    } else if code == 3 {
        Some(Policy::spec_offline())
    } else {
        None
    }
}

/// The number of messages that a limit asks for: a limit that is not
/// positive asks for 50.
pub open spec fn effective_limit(limit: i32) -> int {
    if limit <= 0 {
        DEFAULT_LIMIT as int
    } else {
        limit as int
    }
}

fn limit_of(limit: i32) -> (r: usize)
    ensures
        r == effective_limit(limit),
{
    if limit <= 0 {
        DEFAULT_LIMIT
    } else {
        limit as usize
    }
}

/// What adding a peer answers: -8 where an argument is blank, -10 where
/// the identifier or the key is not the hexadecimal text of 32 bytes, and
/// 0 else.
pub open spec fn add_peer_code(peer_id: Seq<char>, x_hex: Seq<char>) -> i32 {
    if trimmed(peer_id).len() == 0 || trimmed(x_hex).len() == 0 {
        ERR_UTF8_ERROR
    } else if !is_hex_32(trimmed(peer_id)) || !is_hex_32(trimmed(x_hex)) {
        ERR_INVALID_POLICY
    } else {
        ERR_OK
    }
}

/// The peer that is learnt when keys are exchanged by hand.
pub open spec fn added_peer(peer_id: Seq<char>, x_hex: Seq<char>, now: Timestamp) -> PeerView {
    PeerView {
        id: trimmed(peer_id),
        transport_type: TransportType::Udp,
        address: Seq::<char>::empty(),
        last_seen: now,
        signal_strength: None,
        ed25519_public_key: Some(hex_bytes(trimmed(peer_id))),
        x25519_public_key: Some(hex_bytes(trimmed(x_hex))),
    }
}

/// The peer that is learnt from a packet that came in over a link.
pub open spec fn peer_of_packet(
    p: PacketView,
    transport_type: TransportType,
    address: Seq<char>,
    now: Timestamp,
) -> PeerView {
    PeerView {
        id: p.sender_id,
        transport_type,
        address,
        last_seen: now,
        signal_strength: None,
        ed25519_public_key: if p.sender_public_key.len() == 0 {
            None
        } else {
            Some(p.sender_public_key)
        },
        x25519_public_key: if p.sender_x25519_public_key.len() == 32 {
            Some(p.sender_x25519_public_key)
        } else {
            None
        },
    }
}

impl CoreState {
    /// The identities of the senders that were heard, each under its
    /// identifier.
    pub closed spec fn remembered(self) -> Map<Seq<char>, Identity> {
        self.peer_identities@
    }

    /// The identity of this peer, where it has one.
    pub closed spec fn me(self) -> Option<Identity> {
        self.identity
    }

    /// The router.
    pub closed spec fn route(self) -> DtnRouter {
        self.router
    }

    /// The policy in force.
    pub closed spec fn policy(self) -> Policy {
        self.policy_manager.policy()
    }

    /// The exchange with the peers.
    pub closed spec fn exchange(self) -> Gossip {
        self.gossip
    }

    /// The packets that were rejected for their security.
    pub closed spec fn rejected(self) -> u64 {
        self.rejected_packets
    }

    /// The router is well-formed.
    pub open spec fn wf(self) -> bool {
        self.route().wf()
    }

    /// A core over a store and links: no identity, the civilian policy.
    pub fn new(storage: Storage, transport_manager: TransportManager) -> (r: CoreState)
        requires
            storage.wf(),
        ensures
            r.wf(),
            r.me() is None,
            r.route().store() == storage,
            r.route().peers().len() == 0,
            r.route().counters() == RoutingStats::default_stats(),
            r.policy() == Policy::spec_default(),
            r.rejected() == 0,
    {
        CoreState {
            identity: None,
            router: DtnRouter::new(storage, transport_manager),
            policy_manager: PolicyManager::new(),
            gossip: Gossip::new(),
            peer_identities: StringHashMap::new(),
            rejected_packets: 0,
        }
    }

    /// Gives the core an identity that was kept from an earlier run.
    pub fn set_identity(&mut self, identity: Identity)
        ensures
            kept_aside(*old(self), *final(self)),
            final(self).me() == Some(identity),
            final(self).route() == old(self).route(),
            final(self).policy() == old(self).policy(),
    {
        self.identity = Some(identity);
    }

    /// Makes an identity where the core has none. The answer is 0.
    pub fn create_identity(&mut self) -> (r: i32)
        ensures
            kept_aside(*old(self), *final(self)),
            r == ERR_OK,
            final(self).me() is Some,
            old(self).me() is Some ==> final(self).me() == old(self).me(),
            old(self).me() is None ==> final(self).me()->0.wf() && final(self).me()->0.can_agree(),
            final(self).route() == old(self).route(),
            final(self).policy() == old(self).policy(),
    {
        if self.identity.is_none() {
            self.identity = Some(Identity::new());
        }
        ERR_OK
    }

    /// The store of the core, to be read and kept between runs.
    pub fn storage(&self) -> (r: &Storage)
        ensures
            *r == self.route().store(),
    {
        self.router.storage()
    }

    /// The identity, where the core has one.
    pub fn identity(&self) -> (r: Option<&Identity>)
        ensures
            r is Some <==> self.me() is Some,
            r matches Some(i) ==> self.me() == Some(*i),
    {
        self.identity.as_ref()
    }

    /// The identifier of this peer, where it has an identity.
    pub fn get_identity_id(&self) -> (r: Option<String>)
        ensures
            r is Some <==> self.me() is Some,
            r matches Some(t) ==> t@ == self.me()->0.ident(),
    {
        match &self.identity {
            Some(identity) => Some(identity.id().to_string()),
            None => None,
        }
    }

    /// The X25519 public key of this peer in hexadecimal, where it has an
    /// identity with such a key.
    pub fn get_identity_x25519_public_key_hex(&self) -> (r: Option<String>)
        ensures
            r is Some <==> self.me() is Some && self.me()->0.agreement_public() is Some,
            r matches Some(t) ==> t@ == hex_text(self.me()->0.agreement_public()->0),
    {
        match &self.identity {
            Some(identity) => match identity.x25519_public_bytes() {
                Some(x) => Some(hex_encode(x.as_slice())),
                None => None,
            },
            None => None,
        }
    }

    /// Learns a peer from its identifier, which is the hexadecimal text of
    /// its Ed25519 key, and from its X25519 key in hexadecimal.
    pub fn add_peer(&mut self, peer_id: &str, x25519_public_key_hex: &str, now: Timestamp) -> (r:
        i32)
        ensures
            kept_aside(*old(self), *final(self)),
            r == add_peer_code(peer_id@, x25519_public_key_hex@),
            old(self).wf() ==> final(self).wf(),
            final(self).me() == old(self).me(),
            final(self).policy() == old(self).policy(),
            final(self).route().store() == old(self).route().store(),
            final(self).route().waiting() == old(self).route().waiting(),
            final(self).route().counters() == old(self).route().counters(),
            final(self).route().links() == old(self).route().links(),
            final(self).route().peers() == if r == ERR_OK {
                learnt(
                    old(self).route().peers(),
                    added_peer(peer_id@, x25519_public_key_hex@, now),
                )
            } else {
                old(self).route().peers()
            },
    {
        let id = trim(peer_id);
        let x_hex = trim(x25519_public_key_hex);
        if id.as_str().unicode_len() == 0 || x_hex.as_str().unicode_len() == 0 {
            return ERR_UTF8_ERROR;
        }
        let ed_bytes = match parse_hex_32(id.as_str()) {
            Ok(b) => b,
            Err(_) => {
                return ERR_INVALID_POLICY;
            },
        };
        let x_bytes = match parse_hex_32(x_hex.as_str()) {
            Ok(b) => b,
            Err(_) => {
                return ERR_INVALID_POLICY;
            },
        };
        let peer = Peer {
            id,
            transport_type: TransportType::Udp,
            address: String::new(),
            last_seen: now,
            signal_strength: None,
            ed25519_public_key: Some(array_to_vec(&ed_bytes)),
            x25519_public_key: Some(array_to_vec(&x_bytes)),
        };
        self.router.update_peer(peer);
        ERR_OK
    }

    /// Puts the policy in force that the number names; -10 where it
    /// names none.
    pub fn set_policy(&mut self, policy_type: i32) -> (r: i32)
        ensures
            kept_aside(*old(self), *final(self)),
            match policy_of_code(policy_type) {
                Some(p) => r == ERR_OK && final(self).policy() == p,
                None => r == ERR_INVALID_POLICY && final(self).policy() == old(self).policy(),
            },
            final(self).me() == old(self).me(),
            final(self).route() == old(self).route(),
    {
        let policy = if policy_type == 0 {
            Policy::default()
        } else if policy_type == 1 {
            Policy::military()
        } else if policy_type == 2 {
            Policy::collapse()
        } else if policy_type == 3 {
            Policy::offline()
        } else {
            return ERR_INVALID_POLICY;
        };
        self.policy_manager.set_policy(policy);
        ERR_OK
    }

    /// Starts to listen. The embedding program listens and hands what it
    /// hears to `handle_incoming_packet`; the answer is 0.
    pub fn start_listening(&self) -> (r: i32)
        ensures
            r == ERR_OK,
    {
        ERR_OK
    }

    /// Stops listening; the answer is 0.
    pub fn stop_listening(&self) -> (r: i32)
        ensures
            r == ERR_OK,
    {
        ERR_OK
    }

    /// The counts of the store, the router and the exchange.
    pub fn get_stats(&self) -> (r: CoreStats)
        ensures
            r.routing == self.route().counters(),
            r.sync == self.exchange().counters(),
            r.storage.total_messages == self.route().store().rows().len(),
            r.storage.pending_messages == pending(self.route().store().rows()).len(),
            r.storage.seen_messages == self.route().store().seen().len(),
    {
        let storage = match self.router.storage().get_stats() {
            Ok(s) => s,
            Err(_) => StorageStats { total_messages: 0, pending_messages: 0, seen_messages: 0 },
        };
        CoreStats {
            storage,
            routing: self.router.get_stats(),
            sync: self.gossip.get_sync_stats(),
        }
    }

    /// Marks a message as delivered; the answer is 0.
    pub fn mark_delivered(&mut self, message_id: &str) -> (r: i32)
        requires
            old(self).wf(),
        ensures
            kept_aside(*old(self), *final(self)),
            r == ERR_OK,
            final(self).wf(),
            final(self).route().store().rows() == with_delivered(
                old(self).route().store().rows(),
                message_id@,
            ),
            final(self).route().store().seen() == old(self).route().store().seen(),
            final(self).route().store().acks() == old(self).route().store().acks(),
            final(self).route().store().nonces() == old(self).route().store().nonces(),
            final(self).route().counters() == old(self).route().counters(),
            final(self).route().waiting() == old(self).route().waiting(),
            final(self).route().peers() == old(self).route().peers(),
            final(self).route().links() == old(self).route().links(),
            final(self).me() == old(self).me(),
            final(self).policy() == old(self).policy(),
    {
        let mut store = self.router.take_storage();
        let _ = store.mark_delivered(message_id);
        self.router.put_storage(store);
        ERR_OK
    }

    /// The acknowledgements of a message in the order of their times:
    /// the peer, the kind and the time.
    pub fn get_acks_for_message(&self, message_id: &str) -> (r: Vec<(String, String, String)>)
        ensures
            ack_lines(r@) == lines_of(
                by_time(acks_of(self.route().store().acks(), message_id@)),
            ),
    {
        match self.router.storage().get_acks_for_message(message_id) {
            Ok(v) => v,
            Err(_) => {
                let v: Vec<(String, String, String)> = Vec::new();
                v
            },
        }
    }

    /// The newest messages as they are listed, newest first; a limit that
    /// is not positive asks for 50.
    pub fn get_recent_messages(&self, limit: i32) -> (r: Vec<MessageSummary>)
        requires
            self.wf(),
        ensures
            summaries_view(r@) == Seq::new(
                newest(decoded(self.route().store().rows()), effective_limit(limit)).len(),
                |i: int|
                    summary_of(
                        newest(decoded(self.route().store().rows()), effective_limit(limit))[i],
                    ),
            ),
    {
        let messages = match self.router.storage().get_recent_messages(limit_of(limit)) {
            Ok(v) => v,
            Err(_) => Vec::new(),
        };
        let n = messages.len();
        let ghost ms = messages_view(messages@);
        let mut out: Vec<MessageSummary> = Vec::new();
        let mut i: usize = 0;
        while i < n
            invariant
                i <= n,
                n == messages@.len(),
                ms == messages_view(messages@),
                out@.len() == i,
                forall|k: int| 0 <= k < i ==> (#[trigger] out@[k])@ == summary_of(ms[k]),
            decreases n - i,
        {
            assert(ms[i as int] == messages@[i as int]@);
            out.push(MessageSummary::from_message(&messages[i]));
            i = i + 1;
        }
        assert(summaries_view(out@) =~= Seq::new(ms.len(), |i: int| summary_of(ms[i])));
        out
    }

    /// The newest messages as they are exported, newest first; a limit
    /// that is not positive asks for 50.
    pub fn get_recent_messages_full(&self, limit: i32) -> (r: Vec<MessageExport>)
        requires
            self.wf(),
        ensures
            exports_view(r@) == Seq::new(
                newest(decoded(self.route().store().rows()), effective_limit(limit)).len(),
                |i: int|
                    export_of(
                        newest(decoded(self.route().store().rows()), effective_limit(limit))[i],
                    ),
            ),
    {
        let messages = match self.router.storage().get_recent_messages(limit_of(limit)) {
            Ok(v) => v,
            Err(_) => Vec::new(),
        };
        let out = export_all(&messages);
        out
    }

    /// The messages that wait to be delivered as they are exported,
    /// oldest first, at most as many as the limit; a limit that is not
    /// positive asks for 50.
    pub fn export_pending_messages(&self, limit: i32) -> (r: Vec<MessageExport>)
        requires
            self.wf(),
        ensures
            exports_view(r@) == Seq::new(
                oldest(decoded(pending(self.route().store().rows())), effective_limit(limit)).len(),
                |i: int|
                    export_of(
                        oldest(
                            decoded(pending(self.route().store().rows())),
                            effective_limit(limit),
                        )[i],
                    ),
            ),
    {
        let stored = match self.router.storage().get_pending_messages() {
            Ok(v) => v,
            Err(_) => Vec::new(),
        };
        let limit = limit_of(limit);
        let n = if stored.len() < limit {
            stored.len()
        } else {
            limit
        };
        let ghost rows = self.route().store().rows();
        let ghost waiting = pending(rows);
        let ghost wanted = oldest(decoded(waiting), limit as int);
        proof {
            lemma_pending(rows);
            assert(rows_view(stored@).len() == stored@.len());
        }
        let mut out: Vec<MessageExport> = Vec::new();
        let mut i: usize = 0;
        while i < n
            invariant
                i <= n,
                n == wanted.len(),
                n <= stored@.len(),
                rows_view(stored@) == waiting,
                wanted == oldest(decoded(waiting), limit as int),
                forall|k: int|
                    0 <= k < waiting.len() ==> message_of_bytes(
                        (#[trigger] waiting[k]).message_data,
                    ) is Some,
                out@.len() == i,
                forall|k: int| 0 <= k < i ==> (#[trigger] out@[k])@ == export_of(wanted[k]),
            decreases n - i,
        {
            assert(rows_view(stored@)[i as int] == stored@[i as int]@);
            assert(message_of_bytes(waiting[i as int].message_data) is Some);
            match Message::decode(stored[i].message_data.as_slice()) {
                Some(message) => {
                    out.push(MessageExport::from_message(&message));
                },
                None => {},
            }
            i = i + 1;
        }
        assert(exports_view(out@) =~= Seq::new(wanted.len(), |i: int| export_of(wanted[i])));
        out
    }

    /// Stores exported messages as delivered, one after the other, and
    /// says how many were taken: those that stand for a message which the
    /// store did not refuse.
    pub fn import_messages(&mut self, exports: Vec<MessageExport>, now: Timestamp) -> (r: i32)
        requires
            old(self).wf(),
        ensures
            kept_aside(*old(self), *final(self)),
            final(self).wf(),
            final(self).route().store().rows() == imported(
                old(self).route().store().rows(),
                old(self).route().store().seen(),
                exports_view(exports@),
                now,
            ).0,
            final(self).route().store().seen() == imported(
                old(self).route().store().rows(),
                old(self).route().store().seen(),
                exports_view(exports@),
                now,
            ).1,
            r == capped(
                imported(
                    old(self).route().store().rows(),
                    old(self).route().store().seen(),
                    exports_view(exports@),
                    now,
                ).2,
            ),
            final(self).route().store().acks() == old(self).route().store().acks(),
            final(self).route().store().nonces() == old(self).route().store().nonces(),
            final(self).me() == old(self).me(),
            final(self).policy() == old(self).policy(),
            final(self).route().counters() == old(self).route().counters(),
            final(self).route().waiting() == old(self).route().waiting(),
            final(self).route().peers() == old(self).route().peers(),
            final(self).route().links() == old(self).route().links(),
    {
        let mut store = self.router.take_storage();
        let ghost rows0 = store.rows();
        let ghost seen0 = store.seen();
        let ghost all = exports_view(exports@);
        let n = exports.len();
        let mut taken: i32 = 0;
        let mut i: usize = 0;
        assert(all.take(0) =~= Seq::<MessageExportView>::empty());
        while i < n
            invariant
                i <= n,
                n == exports@.len(),
                all == exports_view(exports@),
                store.wf(),
                store.rows() == imported(rows0, seen0, all.take(i as int), now).0,
                store.seen() == imported(rows0, seen0, all.take(i as int), now).1,
                taken == capped(imported(rows0, seen0, all.take(i as int), now).2),
                store.acks() == old(self).route().store().acks(),
                store.nonces() == old(self).route().store().nonces(),
            decreases n - i,
        {
            proof {
                assert(all.take(i + 1).drop_last() =~= all.take(i as int));
                assert(all.take(i + 1).last() == exports@[i as int]@);
            }
            match read_export(&exports[i]) {
                Ok(message) => {
                    let stored = store.store_message_with_delivered(&message, true, now);
                    if stored.is_ok() && taken < i32::MAX {
                        taken = taken + 1;
                    }
                },
                Err(_) => {},
            }
            i = i + 1;
        }
        assert(all.take(n as int) =~= all);
        self.router.put_storage(store);
        taken
    }

    /// Forgets everything: the identity, the store, the peers, the queue
    /// and the counts. The links stay.
    pub fn wipe_local_data(&mut self) -> (r: i32)
        ensures
            r == ERR_OK,
            final(self).wf(),
            final(self).me() is None,
            final(self).route().store().rows().len() == 0,
            final(self).route().store().seen().len() == 0,
            final(self).route().store().acks().len() == 0,
            final(self).route().store().nonces().len() == 0,
            final(self).route().peers().len() == 0,
            final(self).route().waiting().total() == 0,
            final(self).route().counters() == RoutingStats::default_stats(),
            final(self).route().links() == old(self).route().links(),
            final(self).policy() == old(self).policy(),
            final(self).rejected() == 0,
            final(self).remembered() == Map::<Seq<char>, Identity>::empty(),
            final(self).exchange().syncs() == Map::<Seq<char>, Timestamp>::empty(),
            final(self).exchange().counters() == (GossipStats {
                sync_sessions: 0,
                messages_exchanged: 0,
                failed_syncs: 0,
            }),
    {
        let mut links = TransportManager::new();
        self.router.swap_links(&mut links);
        self.identity = None;
        self.router = DtnRouter::new(Storage::new(), links);
        self.gossip = Gossip::new();
        self.peer_identities = StringHashMap::new();
        self.rejected_packets = 0;
        ERR_OK
    }

    /// Stores a message of this peer and sends it: one packet to every
    /// known peer that has an X25519 key, each encrypted to its receiver;
    /// where no packet was built in this way, one packet that is encrypted
    /// to this peer is sent to every known peer or queued. Where no peer is
    /// known, the message is stored and nothing is sent.
    pub fn create_and_send_packet(&mut self, message: Message, now: Timestamp) -> (r: Result<
        (),
        ApiError,
    >)
        requires
            old(self).wf(),
        ensures
            kept_aside(*old(self), *final(self)),
            final(self).wf(),
            final(self).me() == old(self).me(),
            final(self).policy() == old(self).policy(),
            final(self).route().peers() == old(self).route().peers(),
            final(self).route().store().acks() == old(self).route().store().acks(),
            final(self).route().store().nonces() == old(self).route().store().nonces(),
            sent_as(*old(self), *final(self), message@, now, r),
    {
        let identity = match &self.identity {
            Some(i) => i,
            None => {
                return Err(ApiError::NotInitialized);
            },
        };
        let mut store = self.router.take_storage();
        let stored = store.store_message(&message, now);
        self.router.put_storage(store);
        match stored {
            Ok(()) => {},
            Err(e) => {
                return Err(ApiError::StorageError(e));
            },
        }
        let ghost mid = self.router;
        let ghost known = mid.peers();
        let ghost me = self.me()->0;
        let ghost nothing = no_draw();
        let n = self.router.known_peers().len();
        if n == 0 {
            return Ok(());
        }
        let mut packets_created: usize = 0;
        let ghost mut draws: Seq<(Seq<u8>, Seq<u8>)> = Seq::empty();
        let ghost mut accepted: nat = 0;
        let mut i: usize = 0;
        assert(known.take(0) =~= Seq::<PeerView>::empty());
        while i < n
            invariant
                i <= n,
                packets_created <= i,
                self.router.wf(),
                self.identity == old(self).identity,
                self.policy_manager == old(self).policy_manager,
                kept_aside(*old(self), *self),
                self.router.store() == mid.store(),
                self.router.peers() == mid.peers(),
                self.router.links() == mid.links(),
                self.router.waiting() == mid.waiting(),
                known == mid.peers(),
                n == known.len(),
                self.identity is Some,
                me == self.me()->0,
                draws.len() == i,
                all_drawn(draws),
                all_sealed_well(message@, me, known, draws),
                drawn(nothing),
                packets_created == built_count(message@, me, known.take(i as int), draws),
                accepted <= packets_created,
                self.router.counters() == (RoutingStats {
                    forwarded_packets: bumped_by(mid.counters().forwarded_packets, accepted),
                    ..mid.counters()
                }),
            decreases n - i,
        {
            let peers = self.router.known_peers();
            assert(peers_view(peers@).len() == peers@.len());
            assert(known[i as int] == peers@[i as int]@);
            let peer_id = peers[i].id.clone();
            let key: Option<[u8; 32]> = match &peers[i].x25519_public_key {
                Some(k) => array_from_slice::<32>(k.as_slice()),
                None => None,
            };
            let ghost draw = nothing;
            let ghost before_draws = draws;
            proof {
                assert(known.take(i + 1).drop_last() =~= known.take(i as int));
                assert(known.take(i + 1).last() == known[i as int]);
            }
            match key {
                Some(receiver_key) => {
                    let made = match &self.identity {
                        Some(identity) => Packet::from_message(
                            &message,
                            identity,
                            receiver_key.as_slice(),
                        ),
                        None => Err(PacketError::SerializationFailed),
                    };
                    proof {
                        let pair = choose|e: Seq<u8>, nonce: Seq<u8>|
                            e.len() == 32 && nonce.len() == 24 && packet_result_view(made)
                                == #[trigger] sealing(message@, me, receiver_key@, e, nonce);
                        draw = (pair.0, pair.1);
                        draws = draws.push(draw);
                        assert(draws.drop_last() =~= before_draws);
                        assert(has_key(known[i as int]));
                        assert(known[i as int].x25519_public_key->0 == receiver_key@);
                    }
                    match made {
                        Ok(packet) => {
                            proof {
                                lemma_peer_place_bound(self.router.peers(), peer_id@);
                                assert(builds(message@, me, known[i as int], draw));
                            }
                            let ghost counted = self.router.counters().forwarded_packets;
                            let sent = self.router.send_to(&packet, peer_id.as_str());
                            packets_created = packets_created + 1;
                            proof {
                                if sent is Ok {
                                    accepted = accepted + 1;
                                }
                            }
                        },
                        Err(_) => {
                            assert(!builds(message@, me, known[i as int], draw));
                        },
                    }
                },
                None => {
                    proof {
                        draws = draws.push(draw);
                        assert(draws.drop_last() =~= before_draws);
                        assert(!has_key(known[i as int]));
                    }
                },
            }
            i = i + 1;
        }
        assert(known.take(n as int) =~= known);
        if packets_created == 0 {
            let made = match &self.identity {
                Some(identity) => match identity.x25519_public_bytes() {
                    Some(own) => {
                        let made = Packet::from_message(&message, identity, own.as_slice());
                        proof {
                            let pair = choose|e: Seq<u8>, nonce: Seq<u8>|
                                e.len() == 32 && nonce.len() == 24 && packet_result_view(made)
                                    == #[trigger] sealing(message@, me, own@, e, nonce);
                            nothing = (pair.0, pair.1);
                        }
                        made
                    },
                    None => {
                        assert(broadcast_with(
                            old(self).route(),
                            self.route(),
                            message@,
                            me,
                            Err::<(), ApiError>(ApiError::InvalidParameters),
                            draws,
                            nothing,
                            0,
                        ));
                        return Err(ApiError::InvalidParameters);
                    },
                },
                None => Err(PacketError::SerializationFailed),
            };
            match made {
                Ok(packet) => {
                    let ghost before_flood = self.router;
                    let _ = self.router.flood_packet(packet);
                    proof {
                        let successes = choose|successes: nat|
                            successes <= before_flood.peers().len() && #[trigger] flooded(
                                before_flood,
                                self.router,
                                packet@,
                                successes,
                            );
                        assert(flooded_on(old(self).route(), self.route(), packet@, successes));
                        assert(broadcast_with(
                            old(self).route(),
                            self.route(),
                            message@,
                            me,
                            Ok::<(), ApiError>(()),
                            draws,
                            nothing,
                            successes,
                        ));
                    }
                },
                Err(_) => {
                    assert(broadcast_with(
                        old(self).route(),
                        self.route(),
                        message@,
                        me,
                        Ok::<(), ApiError>(()),
                        draws,
                        nothing,
                        0,
                    ));
                },
            }
        } else {
            assert(broadcast_with(
                old(self).route(),
                self.route(),
                message@,
                me,
                Ok::<(), ApiError>(()),
                draws,
                nothing,
                accepted,
            ));
        }
        Ok(())
    }

    /// Sends a status. The answer is -2 without an identity, -3 where
    /// the number names no status, -4 where the policy denies the message,
    /// -5 where it could not be stored or sent, and 0 else.
    pub fn send_status(&mut self, status_type: i32, now: Timestamp) -> (r: i32)
        requires
            old(self).wf(),
        ensures
            kept_aside(*old(self), *final(self)),
            final(self).wf(),
            final(self).me() == old(self).me(),
            old(self).me() is None ==> r == ERR_NO_IDENTITY,
            old(self).me() is Some && status_of_code(status_type) is None ==> r
                == ERR_INVALID_ARGUMENT,
            old(self).me() is Some && status_of_code(status_type) is Some ==> r == ERR_OK || r
                == ERR_INTERNAL_ERROR,
            old(self).me() is Some && status_of_code(status_type) is Some
                && now.can_be_written() && old(self).me()->0.agreement_public() is Some ==> r
                == ERR_OK,
            r != ERR_OK && (r != ERR_INTERNAL_ERROR || old(self).me()->0.agreement_public() is Some)
                ==> untouched(*old(self), *final(self)),
            r == ERR_OK ==> exists|id: Seq<char>|
                uuid_parses(id) && #[trigger] sent_as(
                    *old(self),
                    *final(self),
                    own_message(id, old(self).me()->0, now,
                        PayloadView::Status(status_of_code(status_type)->0)),
                    now,
                    Ok::<(), ApiError>(()),
                ),
    {
        let sender = match &self.identity {
            Some(identity) => identity.id().to_string(),
            None => {
                return ERR_NO_IDENTITY;
            },
        };
        let status = if status_type == 0 {
            StatusType::Okay
        } else if status_type == 1 {
            StatusType::Busy
        } else if status_type == 2 {
            StatusType::Later
        } else {
            return ERR_INVALID_ARGUMENT;
        };
        let message = Message::with_id(
            fresh_uuid(),
            sender,
            now,
            MessageType::Status,
            MessagePayload::Status(status),
        );
        if self.policy_manager.validate_message(&message).is_err() {
            return ERR_POLICY_VIOLATION;
        }
        let ghost sent_message = message@;
        let sent = self.create_and_send_packet(message, now);
        match sent {
            Ok(()) => {
                proof {
                    let own = own_message(
                        sent_message.id,
                        old(self).me()->0,
                        now,
                        sent_message.payload,
                    );
                    assert(sent_message == own);
                    assert(sent->Ok_0 == ());
                    assert(sent == Ok::<(), ApiError>(()));
                }
                ERR_OK
            },
            Err(_) => ERR_INTERNAL_ERROR,
        }
    }

    /// Sends a text. The answer is -2 without an identity, -9 where the
    /// text is empty or too long or holds a character that it may not hold,
    /// -4 where the policy denies the message, -5 where it could not be
    /// stored or sent, and 0 else.
    pub fn send_text(&mut self, text: &str, now: Timestamp) -> (r: i32)
        requires
            old(self).wf(),
        ensures
            kept_aside(*old(self), *final(self)),
            final(self).wf(),
            final(self).me() == old(self).me(),
            r == ERR_OK || r == ERR_INTERNAL_ERROR || r == send_text_refusal(*old(self), text@),
            send_text_refusal(*old(self), text@) != ERR_OK ==> r == send_text_refusal(
                *old(self),
                text@,
            ),
            send_text_refusal(*old(self), text@) == ERR_OK && now.can_be_written()
                && old(self).me()->0.agreement_public() is Some ==> r == ERR_OK,
            r != ERR_OK && (r != ERR_INTERNAL_ERROR || old(self).me()->0.agreement_public() is Some)
                ==> untouched(*old(self), *final(self)),
            r == ERR_OK ==> exists|id: Seq<char>|
                uuid_parses(id) && #[trigger] sent_as(
                    *old(self),
                    *final(self),
                    own_message(id, old(self).me()->0, now, PayloadView::Text(text@)),
                    now,
                    Ok::<(), ApiError>(()),
                ),
    {
        let sender = match &self.identity {
            Some(identity) => identity.id().to_string(),
            None => {
                return ERR_NO_IDENTITY;
            },
        };
        match Message::text(String::new(), text.to_string()) {
            Ok(_) => {},
            Err(_) => {
                return ERR_VALIDATION;
            },
        }
        let message = Message::with_id(
            fresh_uuid(),
            sender,
            now,
            MessageType::Text,
            MessagePayload::Text(text.to_string()),
        );
        if self.policy_manager.validate_message(&message).is_err() {
            return ERR_POLICY_VIOLATION;
        }
        let ghost sent_message = message@;
        let sent = self.create_and_send_packet(message, now);
        match sent {
            Ok(()) => {
                proof {
                    let own = own_message(
                        sent_message.id,
                        old(self).me()->0,
                        now,
                        sent_message.payload,
                    );
                    assert(sent_message == own);
                    assert(sent->Ok_0 == ());
                    assert(sent == Ok::<(), ApiError>(()));
                }
                ERR_OK
            },
            Err(_) => ERR_INTERNAL_ERROR,
        }
    }

    /// Sends a voice clip. The answer is -2 without an identity, -7 for
    /// an empty clip, -9 where the clip is too long, -4 where the policy
    /// denies the message, -5 where it could not be stored or sent, and 0
    /// else.
    pub fn send_voice(&mut self, data: &[u8], now: Timestamp) -> (r: i32)
        requires
            old(self).wf(),
        ensures
            kept_aside(*old(self), *final(self)),
            final(self).wf(),
            final(self).me() == old(self).me(),
            r == ERR_OK || r == ERR_INTERNAL_ERROR || r == send_voice_refusal(*old(self), data@),
            send_voice_refusal(*old(self), data@) != ERR_OK ==> r == send_voice_refusal(
                *old(self),
                data@,
            ),
            send_voice_refusal(*old(self), data@) == ERR_OK && now.can_be_written()
                && old(self).me()->0.agreement_public() is Some ==> r == ERR_OK,
            r != ERR_OK && (r != ERR_INTERNAL_ERROR || old(self).me()->0.agreement_public() is Some)
                ==> untouched(*old(self), *final(self)),
            r == ERR_OK ==> exists|id: Seq<char>|
                uuid_parses(id) && #[trigger] sent_as(
                    *old(self),
                    *final(self),
                    own_message(id, old(self).me()->0, now, PayloadView::Voice(data@)),
                    now,
                    Ok::<(), ApiError>(()),
                ),
    {
        let sender = match &self.identity {
            Some(identity) => identity.id().to_string(),
            None => {
                return ERR_NO_IDENTITY;
            },
        };
        if data.len() == 0 {
            return ERR_NULL_POINTER;
        }
        if data.len() > crate::message::MAX_VOICE_BYTES {
            return ERR_VALIDATION;
        }
        let clip = crate::wire::copy_range(data, 0, data.len());
        assert(data@.subrange(0, data@.len() as int) =~= data@);
        let message = Message::with_id(
            fresh_uuid(),
            sender,
            now,
            MessageType::Voice,
            MessagePayload::Voice(clip),
        );
        if self.policy_manager.validate_message(&message).is_err() {
            return ERR_POLICY_VIOLATION;
        }
        let ghost sent_message = message@;
        let sent = self.create_and_send_packet(message, now);
        match sent {
            Ok(()) => {
                proof {
                    let own = own_message(
                        sent_message.id,
                        old(self).me()->0,
                        now,
                        sent_message.payload,
                    );
                    assert(sent_message == own);
                    assert(sent->Ok_0 == ());
                    assert(sent == Ok::<(), ApiError>(()));
                }
                ERR_OK
            },
            Err(_) => ERR_INTERNAL_ERROR,
        }
    }

    /// Stores a message of this peer and sends it to one known peer: one
    /// packet, encrypted to the X25519 key of the recipient, is sent over
    /// the link to it. A recipient that is not known, or has no such key,
    /// is refused before anything is stored.
    pub fn create_and_send_packet_to(&mut self, message: Message, recipient: &str, now: Timestamp)
        -> (r: Result<(), ApiError>)
        requires
            old(self).wf(),
        ensures
            kept_aside(*old(self), *final(self)),
            final(self).wf(),
            final(self).me() == old(self).me(),
            final(self).policy() == old(self).policy(),
            final(self).route().peers() == old(self).route().peers(),
            final(self).route().waiting() == old(self).route().waiting(),
            final(self).route().store().acks() == old(self).route().store().acks(),
            final(self).route().store().nonces() == old(self).route().store().nonces(),
            sent_to_as(*old(self), *final(self), message@, recipient@, now, r),
    {
        let identity = match &self.identity {
            Some(i) => i,
            None => {
                return Err(ApiError::NotInitialized);
            },
        };
        let receiver_key = match self.router.peer_key(recipient) {
            Some(k) => k,
            None => {
                return Err(ApiError::InvalidParameters);
            },
        };
        let mut store = self.router.take_storage();
        let stored = store.store_message(&message, now);
        self.router.put_storage(store);
        match stored {
            Ok(()) => {},
            Err(e) => {
                return Err(ApiError::StorageError(e));
            },
        }
        let ghost me = self.me()->0;
        let made = match &self.identity {
            Some(identity) => Packet::from_message(&message, identity, receiver_key.as_slice()),
            None => Err(PacketError::SerializationFailed),
        };
        let ghost pair = choose|e: Seq<u8>, nonce: Seq<u8>|
            e.len() == 32 && nonce.len() == 24 && packet_result_view(made) == #[trigger] sealing(
                message@,
                me,
                receiver_key@,
                e,
                nonce,
            );
        let ghost draw = (pair.0, pair.1);
        let ghost before_send = self.router.counters().forwarded_packets;
        assert(bumped_by(before_send, 0) == before_send);
        assert(bumped_by(before_send, 1) == bumped(before_send));
        match made {
            Ok(packet) => {
                proof {
                    lemma_peer_place_bound(self.route().peers(), recipient@);
                }
                let sent = self.router.send_to(&packet, recipient);
                assert(directed_with(
                    old(self).route(),
                    self.route(),
                    message@,
                    me,
                    receiver_key@,
                    draw,
                    if sent is Ok {
                        1nat
                    } else {
                        0nat
                    },
                ));
            },
            Err(_) => {
                assert(directed_with(
                    old(self).route(),
                    self.route(),
                    message@,
                    me,
                    receiver_key@,
                    draw,
                    0,
                ));
            },
        }
        Ok(())
    }

    fn dispatch_to(&mut self, message: Message, recipient: &str, now: Timestamp) -> (r: i32)
        requires
            old(self).wf(),
            old(self).me() is Some,
        ensures
            kept_aside(*old(self), *final(self)),
            final(self).wf(),
            final(self).me() == old(self).me(),
            final(self).policy() == old(self).policy(),
            r == if !old(self).policy().admits(message@.payload) {
                ERR_POLICY_VIOLATION
            } else if recipient_key(old(self).route().peers(), recipient@) is None {
                ERR_INVALID_POLICY
            } else if payload_verdict(message@.payload) is Err
                || (old(self).route().store().store_verdict(message@)
                == Ok::<bool, crate::message::MessageError>(
                true,
            ) && message_wire(message@) is None) {
                ERR_INTERNAL_ERROR
            } else {
                ERR_OK
            },
            r == ERR_INTERNAL_ERROR ==> payload_verdict(message@.payload) is Err
                || !message@.timestamp.can_be_written(),
            r != ERR_OK ==> untouched(*old(self), *final(self)),
            r == ERR_OK ==> sent_to_as(
                *old(self),
                *final(self),
                message@,
                recipient@,
                now,
                Ok::<(), ApiError>(()),
            ),
    {
        if self.policy_manager.validate_message(&message).is_err() {
            return ERR_POLICY_VIOLATION;
        }
        if self.router.peer_key(recipient).is_none() {
            return ERR_INVALID_POLICY;
        }
        if message.validate().is_err() {
            return ERR_INTERNAL_ERROR;
        }
        match self.create_and_send_packet_to(message, recipient, now) {
            Ok(()) => ERR_OK,
            Err(_) => ERR_INTERNAL_ERROR,
        }
    }

    /// Sends a status to one known peer. The answer is -2 without an
    /// identity, -3 where the number names no status, -4 where the policy
    /// denies the message, -10 where the recipient is not known or has no
    /// X25519 key, -5 where the message could not be stored, and 0 else.
    pub fn send_status_to(&mut self, status_type: i32, recipient: &str, now: Timestamp) -> (r: i32)
        requires
            old(self).wf(),
        ensures
            kept_aside(*old(self), *final(self)),
            final(self).wf(),
            final(self).me() == old(self).me(),
            final(self).policy() == old(self).policy(),
            old(self).me() is None ==> r == ERR_NO_IDENTITY,
            old(self).me() is Some && status_of_code(status_type) is None ==> r
                == ERR_INVALID_ARGUMENT,
            old(self).me() is Some && status_of_code(status_type) is Some ==> r
                == if !old(self).policy().admits(
                PayloadView::Status(status_of_code(status_type)->0),
            ) {
                ERR_POLICY_VIOLATION
            } else if recipient_key(old(self).route().peers(), recipient@) is None {
                ERR_INVALID_POLICY
            } else if r == ERR_OK {
                ERR_OK
            } else {
                ERR_INTERNAL_ERROR
            },
            old(self).me() is Some && status_of_code(status_type) is Some
                && old(self).policy().admits(PayloadView::Status(status_of_code(status_type)->0))
                && recipient_key(
                old(self).route().peers(),
                recipient@,
            ) is Some && now.can_be_written() ==> r == ERR_OK,
            r != ERR_OK ==> untouched(*old(self), *final(self)),
            r == ERR_OK ==> exists|id: Seq<char>|
                uuid_parses(id) && #[trigger] sent_to_as(
                    *old(self),
                    *final(self),
                    own_message(id, old(self).me()->0, now,
                        PayloadView::Status(status_of_code(status_type)->0)),
                    recipient@,
                    now,
                    Ok::<(), ApiError>(()),
                ),
    {
        let sender = match &self.identity {
            Some(identity) => identity.id().to_string(),
            None => {
                return ERR_NO_IDENTITY;
            },
        };
        let status = if status_type == 0 {
            StatusType::Okay
        } else if status_type == 1 {
            StatusType::Busy
        } else if status_type == 2 {
            StatusType::Later
        } else {
            return ERR_INVALID_ARGUMENT;
        };
        let message = Message::with_id(
            fresh_uuid(),
            sender,
            now,
            MessageType::Status,
            MessagePayload::Status(status),
        );
        let ghost sent_message = message@;
        let r = self.dispatch_to(message, recipient, now);
        proof {
            if r == ERR_OK {
                assert(sent_to_as(
                    *old(self),
                    *self,
                    own_message(sent_message.id, old(self).me()->0, now, sent_message.payload),
                    recipient@,
                    now,
                    Ok::<(), ApiError>(()),
                ));
            }
        }
        r
    }

    /// Sends a text to one known peer. The answer is -2 without an
    /// identity, -9 where the text is empty or too long or holds a character
    /// that it may not hold, -4 where the policy denies the message, -10
    /// where the recipient is not known or has no X25519 key, -5 where the
    /// message could not be stored, and 0 else.
    pub fn send_text_to(&mut self, text: &str, recipient: &str, now: Timestamp) -> (r: i32)
        requires
            old(self).wf(),
        ensures
            kept_aside(*old(self), *final(self)),
            final(self).wf(),
            final(self).me() == old(self).me(),
            final(self).policy() == old(self).policy(),
            send_text_refusal(*old(self), text@) != ERR_OK ==> r == send_text_refusal(
                *old(self),
                text@,
            ),
            send_text_refusal(*old(self), text@) == ERR_OK ==> r == if recipient_key(
                old(self).route().peers(),
                recipient@,
            ) is None {
                ERR_INVALID_POLICY
            } else if r == ERR_OK {
                ERR_OK
            } else {
                ERR_INTERNAL_ERROR
            },
            send_text_refusal(*old(self), text@) == ERR_OK && recipient_key(
                old(self).route().peers(),
                recipient@,
            ) is Some && now.can_be_written() ==> r == ERR_OK,
            r != ERR_OK ==> untouched(*old(self), *final(self)),
            r == ERR_OK ==> exists|id: Seq<char>|
                uuid_parses(id) && #[trigger] sent_to_as(
                    *old(self),
                    *final(self),
                    own_message(id, old(self).me()->0, now, PayloadView::Text(text@)),
                    recipient@,
                    now,
                    Ok::<(), ApiError>(()),
                ),
    {
        let sender = match &self.identity {
            Some(identity) => identity.id().to_string(),
            None => {
                return ERR_NO_IDENTITY;
            },
        };
        match Message::text(String::new(), text.to_string()) {
            Ok(_) => {},
            Err(_) => {
                return ERR_VALIDATION;
            },
        }
        let message = Message::with_id(
            fresh_uuid(),
            sender,
            now,
            MessageType::Text,
            MessagePayload::Text(text.to_string()),
        );
        let ghost sent_message = message@;
        let r = self.dispatch_to(message, recipient, now);
        proof {
            if r == ERR_OK {
                assert(sent_to_as(
                    *old(self),
                    *self,
                    own_message(sent_message.id, old(self).me()->0, now, sent_message.payload),
                    recipient@,
                    now,
                    Ok::<(), ApiError>(()),
                ));
            }
        }
        r
    }

    /// Sends a voice clip to one known peer. The answer is -2 without an
    /// identity, -7 for an empty clip, -9 where the clip is too long, -4
    /// where the policy denies the message, -10 where the recipient is not
    /// known or has no X25519 key, -5 where the message could not be stored,
    /// and 0 else.
    pub fn send_voice_to(&mut self, data: &[u8], recipient: &str, now: Timestamp) -> (r: i32)
        requires
            old(self).wf(),
        ensures
            kept_aside(*old(self), *final(self)),
            final(self).wf(),
            final(self).me() == old(self).me(),
            final(self).policy() == old(self).policy(),
            send_voice_refusal(*old(self), data@) != ERR_OK ==> r == send_voice_refusal(
                *old(self),
                data@,
            ),
            send_voice_refusal(*old(self), data@) == ERR_OK ==> r == if recipient_key(
                old(self).route().peers(),
                recipient@,
            ) is None {
                ERR_INVALID_POLICY
            } else if r == ERR_OK {
                ERR_OK
            } else {
                ERR_INTERNAL_ERROR
            },
            send_voice_refusal(*old(self), data@) == ERR_OK && recipient_key(
                old(self).route().peers(),
                recipient@,
            ) is Some && now.can_be_written() ==> r == ERR_OK,
            r != ERR_OK ==> untouched(*old(self), *final(self)),
            r == ERR_OK ==> exists|id: Seq<char>|
                uuid_parses(id) && #[trigger] sent_to_as(
                    *old(self),
                    *final(self),
                    own_message(id, old(self).me()->0, now, PayloadView::Voice(data@)),
                    recipient@,
                    now,
                    Ok::<(), ApiError>(()),
                ),
    {
        let sender = match &self.identity {
            Some(identity) => identity.id().to_string(),
            None => {
                return ERR_NO_IDENTITY;
            },
        };
        if data.len() == 0 {
            return ERR_NULL_POINTER;
        }
        if data.len() > crate::message::MAX_VOICE_BYTES {
            return ERR_VALIDATION;
        }
        let clip = crate::wire::copy_range(data, 0, data.len());
        assert(data@.subrange(0, data@.len() as int) =~= data@);
        let message = Message::with_id(
            fresh_uuid(),
            sender,
            now,
            MessageType::Voice,
            MessagePayload::Voice(clip),
        );
        let ghost sent_message = message@;
        let r = self.dispatch_to(message, recipient, now);
        proof {
            if r == ERR_OK {
                assert(sent_to_as(
                    *old(self),
                    *self,
                    own_message(sent_message.id, old(self).me()->0, now, sent_message.payload),
                    recipient@,
                    now,
                    Ok::<(), ApiError>(()),
                ));
            }
        }
        r
    }

    /// Takes in the bytes of a packet that came in over a link that is
    /// not known. See `handle_incoming_packet_with_peer`.
    pub fn handle_incoming_packet(&mut self, packet_bytes: &[u8], now: Timestamp) -> (r: i32)
        requires
            old(self).wf(),
        ensures
            final(self).wf(),
            taken_in(*old(self), *final(self), packet_bytes@, None, now, r),
    {
        self.handle_incoming_packet_internal(packet_bytes, None, now)
    }

    /// Takes in the bytes of a packet that came in over the kind of link
    /// that the number names, from the address given. The answer is -9
    /// where the bytes are no packet within the limits, -2 without an
    /// identity, and 0 else. The sender is learnt as a peer. The packet is
    /// routed: dropped where it may no longer go on, dropped as a duplicate
    /// where its message was seen, and passed on else. A packet whose
    /// message was not seen is opened, unless its nonce was used by its
    /// sender before; what it holds is handled as gossip or stored.
    pub fn handle_incoming_packet_with_peer(
        &mut self,
        packet_bytes: &[u8],
        transport_type: i32,
        address: &str,
        now: Timestamp,
    ) -> (r: i32)
        requires
            old(self).wf(),
        ensures
            final(self).wf(),
            taken_in(
                *old(self),
                *final(self),
                packet_bytes@,
                Some((parse_transport_type_spec(transport_type), address@)),
                now,
                r,
            ),
    {
        let kind = parse_transport_type(transport_type);
        self.handle_incoming_packet_internal(packet_bytes, Some((kind, address.to_string())), now)
    }

    fn handle_incoming_packet_internal(
        &mut self,
        bytes: &[u8],
        peer_info: Option<(TransportType, String)>,
        now: Timestamp,
    ) -> (r: i32)
        requires
            old(self).wf(),
        ensures
            final(self).wf(),
            taken_in(*old(self), *final(self), bytes@, link_view(peer_info), now, r),
    {
        let packet = match Packet::from_bytes(bytes) {
            Ok(p) => p,
            Err(_) => {
                return ERR_VALIDATION;
            },
        };
        if self.identity.is_none() {
            return ERR_NO_IDENTITY;
        }
        match peer_info {
            Some((transport_type, address)) => {
                let peer = Peer {
                    id: packet.sender_id.clone(),
                    transport_type,
                    address,
                    last_seen: now,
                    signal_strength: None,
                    ed25519_public_key: if packet.sender_public_key.len() == 0 {
                        None
                    } else {
                        Some(clone_bytes(&packet.sender_public_key))
                    },
                    x25519_public_key: if packet.sender_x25519_public_key.len() == 32 {
                        Some(clone_bytes(&packet.sender_x25519_public_key))
                    } else {
                        None
                    },
                };
                self.router.update_peer(peer);
            },
            None => {},
        }
        let ghost r1 = self.router;
        let fresh = match self.router.storage().is_message_seen(packet.message_id.as_str()) {
            Ok(seen) => !seen,
            Err(_) => false,
        };
        let _ = self.router.handle_packet(packet.clone(), &now);
        let ghost r2 = self.router;
        let ghost goes_on = forwardable(packet@, now) && !has_seen(
            r1.store().seen(),
            packet@.message_id,
        );
        let ghost successes: nat = if goes_on {
            choose|k: nat| crate::routing::passed_on(r1, r2, packet@, now, k)
        } else {
            0
        };
        assert(goes_on ==> passed_along(old(self).route(), r2, packet@, successes));
        if !fresh {
            return ERR_OK;
        }
        let mut store = self.router.take_storage();
        let opened = match &self.identity {
            Some(identity) => open_packet(&packet, identity, &mut store, now),
            None => None,
        };
        let message = match opened {
            Some(m) => m,
            None => {
                self.router.put_storage(store);
                self.rejected_packets = if self.rejected_packets == u64::MAX {
                    u64::MAX
                } else {
                    self.rejected_packets + 1
                };
                assert(goes_on ==> passed_along(
                    old(self).route(),
                    self.route(),
                    packet@,
                    successes,
                ));
                return ERR_OK;
            },
        };
        let gossip = match &message.payload {
            MessagePayload::Text(text) => match Gossip::decode_gossip(text.as_str()) {
                Ok(Some(g)) => Some(g),
                _ => None,
            },
            _ => None,
        };
        match gossip {
            Some(g) => {
                self.router.put_storage(store);
                let peer = Peer {
                    id: packet.sender_id.clone(),
                    transport_type: TransportType::Ble,
                    address: String::new(),
                    last_seen: now,
                    signal_strength: None,
                    ed25519_public_key: Some(clone_bytes(&packet.sender_public_key)),
                    x25519_public_key: if packet.sender_x25519_public_key.len() == 32 {
                        Some(clone_bytes(&packet.sender_x25519_public_key))
                    } else {
                        None
                    },
                };
                let _ = self.gossip.handle_gossip_message(
                    g,
                    &peer,
                    &mut self.router,
                    self.identity.as_ref(),
                    now,
                );
            },
            None => {
                let ghost s0 = store;
                let stored = store.store_received(&message, now);
                proof {
                    crate::storage::lemma_received_effects(s0, store, message@, now, stored);
                    crate::storage::lemma_received_is(s0, store, message@, now, stored);
                }
                self.router.put_storage(store);
            },
        }
        assert(goes_on ==> passed_along(old(self).route(), self.route(), packet@, successes));
        match Identity::from_bytes(packet.sender_public_key.as_slice()) {
            Ok(sender_identity) => {
                assert(known_by_key(sender_identity, packet@.sender_public_key));
                self.remember_identity(packet.sender_id.clone(), sender_identity);
            },
            Err(_) => {},
        }
        ERR_OK
    }

    fn remember_identity(&mut self, id: String, identity: Identity)
        ensures
            final(self).me() == old(self).me(),
            final(self).route() == old(self).route(),
            final(self).policy() == old(self).policy(),
            final(self).exchange() == old(self).exchange(),
            final(self).rejected() == old(self).rejected(),
            final(self).remembered() == old(self).remembered().insert(id@, identity),
    {
        self.peer_identities.insert(id, identity);
    }

    /// The packets that carry the messages which wait to be delivered,
    /// one for every such message and every known peer with an X25519 key,
    /// each in base64 and all joined by commas; at most as many messages as
    /// the limit are taken, oldest first, 50 where the limit is not
    /// positive. Nothing comes back without an identity. The messages are
    /// gone through in their order and for each the peers in theirs; a
    /// packet that cannot be built or written for what was drawn is left
    /// out.
    pub fn export_pending_packets(&self, limit: i32) -> (r: Option<String>)
        requires
            self.wf(),
        ensures
            r is Some <==> self.me() is Some,
            self.me() is Some && (self.route().peers().len() == 0 || pending(
                self.route().store().rows(),
            ).len() == 0) ==> r->0@.len() == 0,
            self.me() is Some ==> exists|draws: Seq<Seq<(Seq<u8>, Seq<u8>)>>|
                draws.len() == oldest(
                    decoded(pending(self.route().store().rows())),
                    effective_limit(limit),
                ).len() && (forall|j: int|
                    0 <= j < draws.len() ==> (#[trigger] draws[j]).len()
                        == self.route().peers().len() && all_drawn(draws[j]) && all_sealed_well(
                        oldest(
                            decoded(pending(self.route().store().rows())),
                            effective_limit(limit),
                        )[j],
                        self.me()->0,
                        self.route().peers(),
                        draws[j],
                    )) && texts_read_back(
                    exported(
                        oldest(
                            decoded(pending(self.route().store().rows())),
                            effective_limit(limit),
                        ),
                        self.me()->0,
                        self.route().peers(),
                        draws,
                    ),
                ) && r->0@ == packets_text(
                    #[trigger] exported(
                        oldest(
                            decoded(pending(self.route().store().rows())),
                            effective_limit(limit),
                        ),
                        self.me()->0,
                        self.route().peers(),
                        draws,
                    ),
                ),
    {
        let stored = match self.router.storage().get_pending_messages() {
            Ok(v) => v,
            Err(_) => Vec::new(),
        };
        let identity = match &self.identity {
            Some(i) => i,
            None => {
                return None;
            },
        };
        let ghost limit0 = limit;
        let limit = limit_of(limit);
        let n = if stored.len() < limit {
            stored.len()
        } else {
            limit
        };
        let peers = self.router.known_peers();
        let ghost rows = self.route().store().rows();
        let ghost waiting = pending(rows);
        let ghost wanted = oldest(decoded(waiting), limit as int);
        let ghost known = self.route().peers();
        let ghost me = *identity;
        let ghost nothing = no_draw();
        proof {
            lemma_pending(rows);
            assert(peers_view(peers@).len() == peers@.len());
            assert(rows_view(stored@).len() == stored@.len());
        }
        let mut packets: Vec<String> = Vec::new();
        let ghost mut made: Seq<PacketView> = Seq::empty();
        let ghost mut draws: Seq<Seq<(Seq<u8>, Seq<u8>)>> = Seq::empty();
        let mut i: usize = 0;
        assert(strings_view(packets@) =~= packet_texts(made));
        assert(wanted.take(0) =~= Seq::<MessageView>::empty());
        while i < n
            invariant
                i <= n,
                n == wanted.len(),
                n <= stored@.len(),
                rows_view(stored@) == waiting,
                wanted == oldest(decoded(waiting), limit as int),
                known == peers_view(peers@),
                me == *identity,
                forall|k: int|
                    0 <= k < waiting.len() ==> message_of_bytes(
                        (#[trigger] waiting[k]).message_data,
                    ) is Some,
                strings_view(packets@) == packet_texts(made),
                texts_read_back(made),
                draws.len() == i,
                forall|j: int|
                    0 <= j < draws.len() ==> (#[trigger] draws[j]).len() == known.len()
                        && all_drawn(draws[j]) && all_sealed_well(wanted[j], me, known, draws[j]),
                nothing == no_draw(),
                made == exported(wanted.take(i as int), me, known, draws),
                peers@.len() == 0 ==> packets@.len() == 0,
            decreases n - i,
        {
            assert(rows_view(stored@)[i as int] == stored@[i as int]@);
            assert(message_of_bytes(waiting[i as int].message_data) is Some);
            let ghost base = made;
            let ghost row: Seq<(Seq<u8>, Seq<u8>)> = Seq::empty();
            match Message::decode(stored[i].message_data.as_slice()) {
                Some(message) => {
                    assert(message@ == wanted[i as int]);
                    let mut k: usize = 0;
                    assert(known.take(0) =~= Seq::<PeerView>::empty());
                    assert(base + exported_for(message@, me, known.take(0), row) =~= base);
                    while k < peers.len()
                        invariant
                            k <= peers@.len(),
                            known == peers_view(peers@),
                            me == *identity,
                            strings_view(packets@) == packet_texts(made),
                            texts_read_back(made),
                            row.len() == k,
                            all_drawn(row),
                            all_sealed_well(message@, me, known, row),
                            nothing == no_draw(),
                            made == base + exported_for(message@, me, known.take(k as int), row),
                            peers@.len() == 0 ==> packets@.len() == 0,
                        decreases peers@.len() - k,
                    {
                        assert(known[k as int] == peers@[k as int]@);
                        let ghost row0 = row;
                        let ghost draw = nothing;
                        proof {
                            assert(known.take(k + 1).drop_last() =~= known.take(k as int));
                            assert(known.take(k + 1).last() == known[k as int]);
                        }
                        match &peers[k].x25519_public_key {
                            Some(x_key) => {
                                if x_key.len() == 32 {
                                    let built = Packet::from_message(
                                        &message,
                                        identity,
                                        x_key.as_slice(),
                                    );
                                    proof {
                                        let pair = choose|e: Seq<u8>, nonce: Seq<u8>|
                                            e.len() == 32 && nonce.len() == 24
                                                && packet_result_view(built) == #[trigger] sealing(
                                                message@,
                                                me,
                                                x_key@,
                                                e,
                                                nonce,
                                            );
                                        draw = (pair.0, pair.1);
                                    }
                                    match built {
                                        Ok(packet) => match packet.to_bytes() {
                                            Ok(packet_bytes) => {
                                                let ghost before = made;
                                                let ghost texts = packets@;
                                                packets.push(
                                                    base64_encode(packet_bytes.as_slice()),
                                                );
                                                proof {
                                                    made = made.push(packet@);
                                                    assert(strings_view(packets@)
                                                        =~= strings_view(texts).push(
                                                        base64_text(packet_bytes@),
                                                    ));
                                                    assert(packet_texts(made) =~= packet_texts(
                                                        before,
                                                    ).push(base64_text(packet_bytes@)));
                                                }
                                            },
                                            Err(_) => {},
                                        },
                                        Err(_) => {},
                                    }
                                }
                            },
                            None => {},
                        }
                        proof {
                            row = row0.push(draw);
                            assert(row.drop_last() =~= row0);
                            assert(row.last() == draw);
                            let step = exported_for(message@, me, known.take(k + 1), row);
                            let prior = exported_for(message@, me, known.take(k as int), row0);
                            assert(made =~= base + step);
                        }
                        k = k + 1;
                    }
                    assert(known.take(peers@.len() as int) =~= known);
                },
                None => {
                    assert(false);
                },
            }
            proof {
                let before = draws;
                draws = draws.push(row);
                assert(draws.drop_last() =~= before);
                assert(draws.last() == row);
                assert(wanted.take(i + 1).drop_last() =~= wanted.take(i as int));
                assert(wanted.take(i + 1).last() == wanted[i as int]);
            }
            i = i + 1;
        }
        proof {
            assert(wanted.take(n as int) =~= wanted);
            if packets@.len() == 0 {
                assert(strings_view(packets@) =~= Seq::<Seq<char>>::empty());
            }
            assert(packets_text(made) == comma_joined(packet_texts(made)));
            assert(wanted == oldest(
                decoded(pending(self.route().store().rows())),
                effective_limit(limit0),
            ));
        }
        Some(join_commas(&packets))
    }

    /// Takes in packets that are given in base64 and joined by commas,
    /// and says how many were taken in with the answer 0. A piece that is
    /// empty, is not base64 or holds no packet within the limits is passed
    /// over. The answer is -2 without an identity.
    pub fn import_packets(&mut self, packets_base64: &str, now: Timestamp) -> (r: i32)
        requires
            old(self).wf(),
        ensures
            final(self).wf(),
            final(self).me() == old(self).me(),
            final(self).policy() == old(self).policy(),
            old(self).me() is None ==> r == ERR_NO_IDENTITY && *final(self) == *old(self),
            old(self).me() is Some ==> r == capped(packets_among(comma_pieces(packets_base64@))),
            old(self).me() is Some ==> taken_all(
                *old(self),
                *final(self),
                comma_pieces(packets_base64@),
                None,
                now,
            ),
    {
        if self.identity.is_none() {
            return ERR_NO_IDENTITY;
        }
        self.import_pieces(packets_base64, None, now)
    }

    /// Takes in packets that are given in base64 and joined by commas and
    /// that came in over the kind of link that the number names, from the
    /// address given; says how many were taken in with the answer 0.
    pub fn import_packets_with_peer(
        &mut self,
        packets_base64: &str,
        transport_type: i32,
        address: &str,
        now: Timestamp,
    ) -> (r: i32)
        requires
            old(self).wf(),
        ensures
            final(self).wf(),
            final(self).me() == old(self).me(),
            final(self).policy() == old(self).policy(),
            old(self).me() is None ==> r == 0 && untouched(*old(self), *final(self)),
            old(self).me() is Some ==> r == capped(packets_among(comma_pieces(packets_base64@))),
            taken_all(
                *old(self),
                *final(self),
                comma_pieces(packets_base64@),
                Some((parse_transport_type_spec(transport_type), address@)),
                now,
            ),
    {
        let kind = parse_transport_type(transport_type);
        self.import_pieces(packets_base64, Some((kind, address.to_string())), now)
    }

    fn import_pieces(
        &mut self,
        packets_base64: &str,
        peer_info: Option<(TransportType, String)>,
        now: Timestamp,
    ) -> (r: i32)
        requires
            old(self).wf(),
        ensures
            final(self).wf(),
            final(self).me() == old(self).me(),
            final(self).policy() == old(self).policy(),
            old(self).me() is None ==> r == 0 && untouched(*old(self), *final(self)),
            old(self).me() is Some ==> r == capped(packets_among(comma_pieces(packets_base64@))),
            taken_all(
                *old(self),
                *final(self),
                comma_pieces(packets_base64@),
                link_view(peer_info),
                now,
            ),
    {
        let pieces = split_commas(packets_base64);
        let n = pieces.len();
        let ghost all = strings_view(pieces@);
        assert(all.len() == pieces@.len());
        assert(all.take(0) =~= Seq::<Seq<char>>::empty());
        let mut imported: i32 = 0;
        let ghost mut states: Seq<CoreState> = seq![*self];
        let mut i: usize = 0;
        while i < n
            invariant
                i <= n,
                n == pieces@.len(),
                all == strings_view(pieces@),
                self.wf(),
                self.me() == old(self).me(),
                self.policy() == old(self).policy(),
                self.me() is None ==> imported == 0 && untouched(*old(self), *self),
                self.me() is Some ==> imported == capped(packets_among(all.take(i as int))),
                states.len() == i + 1,
                states[0] == *old(self),
                states.last() == *self,
                forall|j: int|
                    0 <= j < i ==> piece_taken(
                        states[j],
                        states[j + 1],
                        #[trigger] all[j],
                        link_view(peer_info),
                        now,
                    ),
            decreases n - i,
        {
            proof {
                assert(all.take(i + 1).drop_last() =~= all.take(i as int));
                assert(all.take(i + 1).last() == pieces@[i as int]@);
            }
            let ghost before = *self;
            if pieces[i].as_str().unicode_len() > 0 {
                match base64_decode(pieces[i].as_str()) {
                    Some(packet_bytes) => {
                        let link = match &peer_info {
                            Some((kind, address)) => Some((*kind, address.clone())),
                            None => None,
                        };
                        let result = self.handle_incoming_packet_internal(
                            packet_bytes.as_slice(),
                            link,
                            now,
                        );
                        if result == ERR_OK && imported < i32::MAX {
                            imported = imported + 1;
                        }
                    },
                    None => {},
                }
            }
            proof {
                if old(self).me() is None {
                    assert(untouched(*old(self), before));
                    assert(untouched(before, *self));
                }
                let link = link_view(peer_info);
                assert(piece_taken(before, *self, all[i as int], link, now));
                let so_far = states;
                states = states.push(*self);
                assert forall|j: int| 0 <= j < i + 1 implies piece_taken(
                    states[j],
                    states[j + 1],
                    #[trigger] all[j],
                    link,
                    now,
                ) by {
                    if j < i {
                        assert(states[j] == so_far[j]);
                        assert(states[j + 1] == so_far[j + 1]);
                    }
                }
            }
            i = i + 1;
        }
        assert(all.take(n as int) =~= all);
        assert(taken_along(states, all, link_view(peer_info), now));
        imported
    }
}

/// What taking in bytes answers: -9 where they hold no packet within the
/// limits, -2 without an identity, and 0 else.
pub open spec fn taking_code(state: CoreState, bytes: Seq<u8>) -> i32 {
    if packet_in(bytes) is None {
        ERR_VALIDATION
    } else if state.me() is None {
        ERR_NO_IDENTITY
    } else {
        ERR_OK
    }
}

/// How the core stands after one piece of a text of packets was taken in
/// at `now`: an empty piece and a piece that is no base64 change nothing;
/// the bytes of any other are taken in as a packet that came in.
pub open spec fn piece_taken(
    before: CoreState,
    after: CoreState,
    piece: Seq<char>,
    link: Option<(TransportType, Seq<char>)>,
    now: Timestamp,
) -> bool {
    if piece.len() > 0 && base64_bytes(piece) is Some {
        taken_in(
            before,
            after,
            base64_bytes(piece)->0,
            link,
            now,
            taking_code(before, base64_bytes(piece)->0),
        )
    } else {
        after == before
    }
}

/// Whether the states are those of a core that takes the pieces in at
/// `now`, one after the other: a state before the first piece, and one
/// after each piece.
pub open spec fn taken_along(
    states: Seq<CoreState>,
    pieces: Seq<Seq<char>>,
    link: Option<(TransportType, Seq<char>)>,
    now: Timestamp,
) -> bool {
    &&& states.len() == pieces.len() + 1
    &&& forall|i: int|
        0 <= i < pieces.len() ==> piece_taken(
            states[i],
            states[i + 1],
            #[trigger] pieces[i],
            link,
            now,
        )
}

/// How the core stands after the pieces of a text of packets were taken
/// in at `now`, one after the other.
pub open spec fn taken_all(
    before: CoreState,
    after: CoreState,
    pieces: Seq<Seq<char>>,
    link: Option<(TransportType, Seq<char>)>,
    now: Timestamp,
) -> bool {
    exists|states: Seq<CoreState>| #[trigger]
        taken_along(states, pieces, link, now) && states[0] == before && states.last() == after
}

/// The packets that are built and can be written for one message and
/// the peers, in the order of the peers, one draw of an ephemeral key and
/// a nonce for each peer: a peer without an X25519 key of 32 bytes gets
/// none, and a packet that cannot be built or written is left out.
pub open spec fn exported_for(
    m: MessageView,
    me: Identity,
    peers: Seq<PeerView>,
    draws: Seq<(Seq<u8>, Seq<u8>)>,
) -> Seq<PacketView>
    decreases peers.len(),
{
    if peers.len() == 0 || draws.len() != peers.len() {
        Seq::<PacketView>::empty()
    } else {
        let before = exported_for(m, me, peers.drop_last(), draws.drop_last());
        if has_key(peers.last()) {
            match sealing(
                m,
                me,
                peers.last().x25519_public_key->0,
                draws.last().0,
                draws.last().1,
            ) {
                Ok(p) => if packet_wire(p) is Some {
                    before.push(p)
                } else {
                    before
                },
                Err(_) => before,
            }
        } else {
            before
        }
    }
}

/// The packets that are exported for the messages and the peers, message
/// by message in the order of the messages, with the draws of each
/// message.
pub open spec fn exported(
    messages: Seq<MessageView>,
    me: Identity,
    peers: Seq<PeerView>,
    draws: Seq<Seq<(Seq<u8>, Seq<u8>)>>,
) -> Seq<PacketView>
    decreases messages.len(),
{
    if messages.len() == 0 || draws.len() != messages.len() {
        Seq::<PacketView>::empty()
    } else {
        exported(messages.drop_last(), me, peers, draws.drop_last()) + exported_for(
            messages.last(),
            me,
            peers,
            draws.last(),
        )
    }
}

/// One message that waits and one known peer with a key give one packet
/// to export, given that a packet can be built and that building went
/// well: the packet is the one that is built for the peer, it names the
/// sender and has the priority of the message, and the peer opens it to
/// the message.
pub proof fn lemma_one_message_for_one_peer(
    m: MessageView,
    me: Identity,
    peer: PeerView,
    draw: (Seq<u8>, Seq<u8>),
)
    requires
        has_key(peer),
        can_seal(m, me, peer.x25519_public_key->0),
        sealed_well(m, me, peer.x25519_public_key->0, draw),
    ensures
        exported(seq![m], me, seq![peer], seq![seq![draw]]).len() == 1,
        sealing(m, me, peer.x25519_public_key->0, draw.0, draw.1) == Ok::<
            PacketView,
            PacketError,
        >(exported(seq![m], me, seq![peer], seq![seq![draw]])[0]),
        exported(seq![m], me, seq![peer], seq![seq![draw]])[0].sender_id == m.sender_id,
        exported(seq![m], me, seq![peer], seq![seq![draw]])[0].priority
            == crate::packet::priority_of(m.message_type),
        exported(seq![m], me, seq![peer], seq![seq![draw]])[0].message_id == m.id,
        opens_for(
            exported(seq![m], me, seq![peer], seq![seq![draw]])[0],
            m,
            me,
            peer.x25519_public_key->0,
        ),
{
    let key = peer.x25519_public_key->0;
    let p = sealing(m, me, key, draw.0, draw.1)->Ok_0;
    let peers = seq![peer];
    let row = seq![draw];
    let none = Seq::<PacketView>::empty();
    assert(peers.drop_last() =~= Seq::<PeerView>::empty());
    assert(row.drop_last() =~= Seq::<(Seq<u8>, Seq<u8>)>::empty());
    assert(exported_for(m, me, peers.drop_last(), row.drop_last()) =~= none);
    assert(peers.last() == peer && row.last() == draw);
    assert(survives(p));
    assert(exported_for(m, me, peers, row) =~= seq![p]);
    let wanted = seq![m];
    let draws = seq![row];
    assert(wanted.drop_last() =~= Seq::<MessageView>::empty());
    assert(draws.drop_last() =~= Seq::<Seq<(Seq<u8>, Seq<u8>)>>::empty());
    assert(exported(wanted.drop_last(), me, peers, draws.drop_last()) =~= none);
    assert(wanted.last() == m && draws.last() == row);
    assert(exported(wanted, me, peers, draws) =~= seq![p]);
}

/// The packets in base64, one text for each.
pub open spec fn packet_texts(packets: Seq<PacketView>) -> Seq<Seq<char>> {
    Seq::new(packets.len(), |i: int| base64_text(packet_wire(packets[i])->0))
}

/// Whether a packet has bytes on the wire whose base64 text is not
/// empty, holds no comma and spells the bytes.
pub open spec fn text_reads_back(p: PacketView) -> bool {
    packet_wire(p) matches Some(w) && base64_text(w).len() > 0 && !base64_text(w).contains(',')
        && base64_bytes(base64_text(w)) == Some(w) && packet_of_bytes(w) == Some(p)
}

/// Whether that holds of every packet.
pub open spec fn texts_read_back(packets: Seq<PacketView>) -> bool {
    forall|i: int| 0 <= i < packets.len() ==> text_reads_back(#[trigger] packets[i])
}

/// The text of packets that are exported is split at its commas into
/// the base64 texts of the packets, each of which spells the bytes of its
/// packet: what one peer exports, another takes in packet by packet.
pub proof fn lemma_exported_text_is_taken_in(packets: Seq<PacketView>)
    requires
        packets.len() > 0,
        texts_read_back(packets),
    ensures
        comma_pieces(packets_text(packets)) == packet_texts(packets),
        forall|i: int|
            0 <= i < packets.len() ==> (#[trigger] packet_texts(packets)[i]).len() > 0
                && base64_bytes(packet_texts(packets)[i]) == packet_wire(packets[i])
                && packet_of_bytes(packet_wire(packets[i])->0) == Some(packets[i]),
{
    let texts = packet_texts(packets);
    assert forall|i: int| 0 <= i < texts.len() implies !(#[trigger] texts[i]).contains(',') by {
        assert(text_reads_back(packets[i]));
    }
    crate::text::lemma_joined_pieces(texts);
    assert forall|i: int| 0 <= i < packets.len() implies (#[trigger] packet_texts(
        packets,
    )[i]).len() > 0 && base64_bytes(packet_texts(packets)[i]) == packet_wire(packets[i])
        && packet_of_bytes(packet_wire(packets[i])->0) == Some(packets[i]) by {
        assert(text_reads_back(packets[i]));
    }
}

/// The packets in base64, joined by commas.
pub open spec fn packets_text(packets: Seq<PacketView>) -> Seq<char> {
    comma_joined(packet_texts(packets))
}

/// Whether a piece holds a packet: it is not empty, and it is the base64
/// of bytes that hold a packet within the limits.
pub open spec fn holds_packet(piece: Seq<char>) -> bool {
    &&& piece.len() > 0
    &&& base64_bytes(piece) matches Some(b) && packet_in(b) is Some
}

/// How many of the pieces hold a packet.
pub open spec fn packets_among(pieces: Seq<Seq<char>>) -> nat
    decreases pieces.len(),
{
    if pieces.len() == 0 {
        0
    } else if holds_packet(pieces.last()) {
        packets_among(pieces.drop_last()) + 1
    } else {
        packets_among(pieces.drop_last())
    }
}

/// Whether what the core holds beside its identity, its router and its
/// policy stands as before: the exchange with the peers, the remembered
/// identities and the count of rejected packets.
pub open spec fn kept_aside(before: CoreState, after: CoreState) -> bool {
    &&& after.exchange() == before.exchange()
    &&& after.remembered() == before.remembered()
    &&& after.rejected() == before.rejected()
}

/// Whether the router of the core stands as before: the tables of the
/// store, the queues, the peers, the counts and the links.
pub open spec fn untouched(before: CoreState, after: CoreState) -> bool {
    &&& same_tables(after.route().store(), before.route().store())
    &&& after.route().waiting() == before.route().waiting()
    &&& after.route().peers() == before.route().peers()
    &&& after.route().counters() == before.route().counters()
    &&& after.route().links() == before.route().links()
}

/// The kind of link that a number names.
pub open spec fn parse_transport_type_spec(value: i32) -> TransportType {
    match value {
        1 => TransportType::WifiDirect,
        2 => TransportType::Udp,
        3 => TransportType::Satellite,
        _ => TransportType::Ble,
    }
}

/// The link over which a packet came in, as a mathematical value.
pub open spec fn link_view(link: Option<(TransportType, String)>) -> Option<
    (TransportType, Seq<char>),
> {
    match link {
        Some((kind, address)) => Some((kind, address@)),
        None => None,
    }
}

/// Why a text is not sent before it is stored: -2 without an identity,
/// -9 where the text is empty or too long or holds a character that it
/// may not hold, -4 where the policy denies it; 0 where nothing stands
/// against it.
pub open spec fn send_text_refusal(state: CoreState, text: Seq<char>) -> i32 {
    if state.me() is None {
        ERR_NO_IDENTITY
    } else if text_verdict(text) is Err {
        ERR_VALIDATION
    } else if !state.policy().admits(PayloadView::Text(text)) {
        ERR_POLICY_VIOLATION
    } else {
        ERR_OK
    }
}

/// Why a voice clip is not sent before it is stored: -2 without an
/// identity, -7 for an empty clip, -9 where the clip is too long, -4
/// where the policy denies it; 0 where nothing stands against it.
pub open spec fn send_voice_refusal(state: CoreState, data: Seq<u8>) -> i32 {
    if state.me() is None {
        ERR_NO_IDENTITY
    } else if data.len() == 0 {
        ERR_NULL_POINTER
    } else if voice_verdict(data) is Err {
        ERR_VALIDATION
    } else if !state.policy().admits(PayloadView::Voice(data)) {
        ERR_POLICY_VIOLATION
    } else {
        ERR_OK
    }
}

/// How the queues and the counts of a router stand after a message of
/// this peer was sent to one known peer with the key `key`, for the
/// ephemeral key and the nonce that were drawn and for the number of sends
/// that a link accepted: the packet that is built for the draw goes to the
/// peer alone, nothing is queued, and the accepted send is counted. No
/// packet or no link means no accepted send.
pub open spec fn directed_with(
    before: DtnRouter,
    after: DtnRouter,
    m: MessageView,
    me: Identity,
    key: Seq<u8>,
    draw: (Seq<u8>, Seq<u8>),
    accepted: nat,
) -> bool {
    &&& after.peers() == before.peers()
    &&& after.links() == before.links()
    &&& after.waiting() == before.waiting()
    &&& drawn(draw)
    &&& sealed_well(m, me, key, draw)
    &&& accepted <= 1
    &&& sealing(m, me, key, draw.0, draw.1) is Err ==> accepted == 0
    &&& before.links().len() == 0 ==> accepted == 0
    &&& after.counters() == (RoutingStats {
        forwarded_packets: bumped_by(before.counters().forwarded_packets, accepted),
        ..before.counters()
    })
}

/// A message of this peer: its kind is that of its payload.
pub open spec fn own_message(id: Seq<char>, me: Identity, now: Timestamp, payload: PayloadView)
    -> MessageView {
    MessageView {
        id,
        message_type: kind_of(payload),
        sender_id: me.ident(),
        timestamp: now,
        payload,
    }
}

/// How the core stands after a message of this peer was stored and sent
/// to one peer: without an identity, or with a recipient that is not
/// known or has no X25519 key, nothing is done; a message that the store
/// refuses leaves everything as it was; and else the store stands as
/// after the storing of the message.
pub open spec fn sent_to_as(
    before: CoreState,
    after: CoreState,
    m: MessageView,
    recipient: Seq<char>,
    now: Timestamp,
    r: Result<(), ApiError>,
) -> bool {
    if before.me() is None {
        r matches Err(ApiError::NotInitialized) && untouched(before, after)
    } else if recipient_key(before.route().peers(), recipient) is None {
        r matches Err(ApiError::InvalidParameters) && untouched(before, after)
    } else {
        &&& r matches Err(e) ==> e is StorageError && untouched(before, after)
        &&& r is Ok ==> crate::storage::stored_as(
            before.route().store(),
            after.route().store(),
            m,
            false,
            now,
            Ok(()),
        )
        &&& r is Ok ==> exists|draw: (Seq<u8>, Seq<u8>), accepted: nat| #[trigger]
            directed_with(
                before.route(),
                after.route(),
                m,
                before.me()->0,
                recipient_key(before.route().peers(), recipient)->0,
                draw,
                accepted,
            )
        &&& (before.route().store().store_verdict(m) is Err
            || (before.route().store().store_verdict(
            m,
        ) == Ok::<bool, crate::message::MessageError>(true) && message_wire(m) is None)) <==> r
            is Err
        &&& m.timestamp.can_be_written() && before.route().store().store_verdict(m) is Ok ==> r
            is Ok
    }
}

/// Whether a draw has the lengths of an ephemeral secret key and a nonce.
pub open spec fn drawn(draw: (Seq<u8>, Seq<u8>)) -> bool {
    draw.0.len() == 32 && draw.1.len() == 24
}

/// Whether every draw of the sequence has the lengths of a draw.
pub open spec fn all_drawn(draws: Seq<(Seq<u8>, Seq<u8>)>) -> bool {
    forall|i: int| 0 <= i < draws.len() ==> drawn(#[trigger] draws[i])
}

/// A draw of zeros, which stands where nothing is drawn.
pub open spec fn no_draw() -> (Seq<u8>, Seq<u8>) {
    (Seq::new(32, |i: int| 0u8), Seq::new(24, |i: int| 0u8))
}

/// Whether a peer has an X25519 key of 32 bytes.
pub open spec fn has_key(p: PeerView) -> bool {
    p.x25519_public_key matches Some(k) && k.len() == 32
}

/// Whether a packet is built to carry `m` from `me` to the peer, for the
/// ephemeral key and the nonce that were drawn.
pub open spec fn builds(m: MessageView, me: Identity, p: PeerView, draw: (Seq<u8>, Seq<u8>))
    -> bool {
    has_key(p) && sealing(m, me, p.x25519_public_key->0, draw.0, draw.1) is Ok
}

/// Whether building the packet that carries `m` from `me` to the holder
/// of `key`, for the ephemeral key and the nonce that were drawn, went
/// well: a packet is built wherever one can be, and a packet that is
/// built is opened by its receiver to `m` and comes through the wire as it
/// is.
pub open spec fn sealed_well(m: MessageView, me: Identity, key: Seq<u8>, draw: (Seq<u8>, Seq<u8>))
    -> bool {
    &&& can_seal(m, me, key) ==> sealing(m, me, key, draw.0, draw.1) is Ok
    &&& sealing(m, me, key, draw.0, draw.1) matches Ok(p) ==> opens_for(p, m, me, key)
        && survives(p)
}

/// Whether the packets that are built for the peers with a key, one draw
/// for each peer, are opened by their receivers and come through the
/// wire.
pub open spec fn all_sealed_well(
    m: MessageView,
    me: Identity,
    peers: Seq<PeerView>,
    draws: Seq<(Seq<u8>, Seq<u8>)>,
) -> bool {
    forall|k: int|
        0 <= k < peers.len() && k < draws.len() && has_key(peers[k]) ==> sealed_well(
            m,
            me,
            peers[k].x25519_public_key->0,
            #[trigger] draws[k],
        )
}

/// For how many of the peers a packet is built, one draw for each peer.
pub open spec fn built_count(
    m: MessageView,
    me: Identity,
    peers: Seq<PeerView>,
    draws: Seq<(Seq<u8>, Seq<u8>)>,
) -> nat
    decreases peers.len(),
{
    if peers.len() == 0 || draws.len() != peers.len() {
        0
    } else {
        built_count(m, me, peers.drop_last(), draws.drop_last()) + if builds(
            m,
            me,
            peers.last(),
            draws.last(),
        ) {
            1nat
        } else {
            0nat
        }
    }
}

/// How the queues and the counts of a router stand after a packet was
/// sent to every known peer with `successes` accepted sends; the store is
/// not spoken of.
pub open spec fn flooded_on(before: DtnRouter, after: DtnRouter, p: PacketView, successes: nat)
    -> bool {
    &&& successes <= before.peers().len()
    &&& before.links().len() == 0 ==> successes == 0
    &&& after.counters() == (RoutingStats {
        forwarded_packets: bumped_by(before.counters().forwarded_packets, successes),
        ..before.counters()
    })
    &&& if successes == 0 {
        &&& after.waiting().of(p.priority) == crate::routing::queue::pushed(
            before.waiting().of(p.priority),
            crate::routing::fresh(p),
        )
        &&& forall|o: crate::packet::Priority|
            o != p.priority ==> after.waiting().of(o) == before.waiting().of(o)
    } else {
        after.waiting() == before.waiting()
    }
}

/// How the queues and the counts of a router stand after a message of
/// this peer was sent to the known peers, for the keys and nonces that
/// were drawn, one draw for each peer and one for this peer's own key,
/// and for the number of sends that a link accepted. Where a packet was
/// built for a peer with a key, each such packet went to its peer alone,
/// nothing is queued, and the accepted sends are counted. Where none was
/// built, a packet that is encrypted to this peer's own key goes to every
/// known peer or is queued; that needs an X25519 key of this peer.
pub open spec fn broadcast_with(
    before: DtnRouter,
    after: DtnRouter,
    m: MessageView,
    me: Identity,
    r: Result<(), ApiError>,
    draws: Seq<(Seq<u8>, Seq<u8>)>,
    own: (Seq<u8>, Seq<u8>),
    accepted: nat,
) -> bool {
    let built = built_count(m, me, before.peers(), draws);
    let same = after.waiting() == before.waiting() && after.counters() == before.counters();
    &&& draws.len() == before.peers().len()
    &&& all_drawn(draws)
    &&& all_sealed_well(m, me, before.peers(), draws)
    &&& drawn(own)
    &&& if built > 0 {
        &&& r is Ok
        &&& accepted <= built
        &&& after.waiting() == before.waiting()
        &&& after.counters() == (RoutingStats {
            forwarded_packets: bumped_by(before.counters().forwarded_packets, accepted),
            ..before.counters()
        })
    } else {
        match me.agreement_public() {
            None => r matches Err(ApiError::InvalidParameters) && same,
            Some(key) => r is Ok && sealed_well(m, me, key, own) && match sealing(
                m,
                me,
                key,
                own.0,
                own.1,
            ) {
                Ok(p) => flooded_on(before, after, p, accepted),
                Err(_) => same,
            },
        }
    }
}

/// How the queues and the counts of a router stand after a message of
/// this peer was sent to the known peers, whatever was drawn and whatever
/// the links answered. Where no peer is known, nothing is sent.
pub open spec fn broadcast(
    before: DtnRouter,
    after: DtnRouter,
    m: MessageView,
    me: Identity,
    r: Result<(), ApiError>,
) -> bool {
    &&& after.peers() == before.peers()
    &&& after.links() == before.links()
    &&& if before.peers().len() == 0 {
        r is Ok && after.waiting() == before.waiting() && after.counters() == before.counters()
    } else {
        exists|draws: Seq<(Seq<u8>, Seq<u8>)>, own: (Seq<u8>, Seq<u8>), accepted: nat| #[trigger]
            broadcast_with(before, after, m, me, r, draws, own, accepted)
    }
}

/// How the core stands after a message of this peer was stored and
/// sent: without an identity nothing is done; a message that the store
/// refuses leaves the store as it was; and else the store stands as
/// after the storing of the message.
pub open spec fn sent_as(
    before: CoreState,
    after: CoreState,
    m: MessageView,
    now: Timestamp,
    r: Result<(), ApiError>,
) -> bool {
    if before.me() is None {
        r matches Err(ApiError::NotInitialized) && untouched(before, after)
    } else {
        &&& r matches Err(ApiError::StorageError(_)) ==> untouched(before, after)
        &&& r matches Err(e) ==> (e is StorageError || e is InvalidParameters)
        &&& r matches Err(ApiError::InvalidParameters) ==> before.me()->0.agreement_public()
            is None
        &&& (r is Ok || r matches Err(ApiError::InvalidParameters)) ==> crate::storage::stored_as(
            before.route().store(),
            after.route().store(),
            m,
            false,
            now,
            Ok(()),
        )
        &&& (r is Ok || r matches Err(ApiError::InvalidParameters)) ==> broadcast(
            before.route(),
            after.route(),
            m,
            before.me()->0,
            r,
        )
        &&& m.timestamp.can_be_written() && before.route().store().store_verdict(m) is Ok ==> !(r
            is Err && r->Err_0 is StorageError)
        &&& (before.route().store().store_verdict(m) is Err
            || (before.route().store().store_verdict(
            m,
        ) == Ok::<bool, crate::message::MessageError>(true) && message_wire(m) is None)) <==> r
            matches Err(ApiError::StorageError(_))
    }
}

/// The packet that bytes hold, where they hold one within the limits.
pub open spec fn packet_in(bytes: Seq<u8>) -> Option<PacketView> {
    match from_bytes_verdict(bytes) {
        Ok(p) => Some(p),
        Err(_) => None,
    }
}

/// How the core stands after the bytes of a packet came in at `now`.
pub open spec fn taken_in(
    before: CoreState,
    after: CoreState,
    bytes: Seq<u8>,
    link: Option<(TransportType, Seq<char>)>,
    now: Timestamp,
    r: i32,
) -> bool {
    &&& after.me() == before.me()
    &&& after.policy() == before.policy()
    &&& match packet_in(bytes) {
        None => r == ERR_VALIDATION && untouched(before, after) && after.rejected()
            == before.rejected() && after.remembered() == before.remembered(),
        Some(p) => if before.me() is None {
            r == ERR_NO_IDENTITY && untouched(before, after) && after.rejected()
                == before.rejected() && after.remembered() == before.remembered()
        } else {
            &&& r == ERR_OK
            &&& after.route().peers() == match link {
                Some((kind, address)) => learnt(
                    before.route().peers(),
                    peer_of_packet(p, kind, address, now),
                ),
                None => before.route().peers(),
            }
            &&& after.route().store().acks() == before.route().store().acks()
            &&& after.route().links() == before.route().links()
            &&& after.exchange().syncs() == before.exchange().syncs()
            &&& routed(before, after, p, now)
        },
    }
}

/// How the queues and the count of forwarded packets stand after a
/// packet that came in was passed on with `successes` accepted sends: the
/// packet went, one hop further, to every known peer; the accepted sends
/// are counted, and where there was none the packet waits in the queue of
/// its priority. No known peer or no link means no accepted send.
pub open spec fn passed_along(before: DtnRouter, after: DtnRouter, p: PacketView, successes: nat)
    -> bool {
    &&& successes <= after.peers().len()
    &&& after.links().len() == 0 ==> successes == 0
    &&& after.counters().forwarded_packets == bumped_by(
        before.counters().forwarded_packets,
        successes,
    )
    &&& if successes == 0 {
        &&& after.waiting().of(p.priority) == crate::routing::queue::pushed(
            before.waiting().of(p.priority),
            crate::routing::fresh(crate::routing::hopped(p)),
        )
        &&& forall|o: crate::packet::Priority|
            o != p.priority ==> after.waiting().of(o) == before.waiting().of(o)
    } else {
        after.waiting() == before.waiting()
    }
}

/// How the counts of the exchange stand after a message was opened: they
/// stand as before, unless the message carries gossip that is answered
/// and the answer was sent, which is counted; an answer is sent only over
/// a link and to a sender with an X25519 key of 32 bytes.
pub open spec fn answered(
    before: CoreState,
    after: CoreState,
    p: PacketView,
    m: MessageView,
    seen: Seq<SeenEntryView>,
) -> bool {
    ||| after.exchange().counters() == before.exchange().counters()
    ||| {
        &&& carries_gossip(m)
        &&& crate::sync::reply_due(gossip_carried(m), seen)
        &&& p.sender_x25519_public_key.len() == 32
        &&& before.route().links().len() > 0
        &&& after.exchange().counters() == (crate::sync::GossipStats {
            messages_exchanged: bumped(before.exchange().counters().messages_exchanged),
            ..before.exchange().counters()
        })
    }
}

/// How the counts and the store stand after a packet was routed and,
/// where it was fresh, opened.
pub open spec fn routed(before: CoreState, after: CoreState, p: PacketView,
    now: Timestamp) -> bool {
    let seen0 = before.route().store().seen();
    let c0 = before.route().counters();
    let c1 = after.route().counters();
    &&& c1.dropped_packets == if !forwardable(p, now) {
        bumped(c0.dropped_packets)
    } else {
        c0.dropped_packets
    }
    &&& c1.duplicate_packets == if forwardable(p, now) && has_seen(seen0, p.message_id) {
        bumped(c0.duplicate_packets)
    } else {
        c0.duplicate_packets
    }
    &&& c1.processed_packets == if forwardable(p, now) && !has_seen(seen0, p.message_id) {
        bumped(c0.processed_packets)
    } else {
        c0.processed_packets
    }
    &&& forwardable(p, now) ==> has_seen(after.route().store().seen(), p.message_id)
    &&& has_seen(seen0, p.message_id) ==> same_tables(
        after.route().store(),
        before.route().store(),
    ) && after.rejected() == before.rejected() && after.remembered() == before.remembered()
        && after.exchange().counters() == before.exchange().counters()
    &&& if forwardable(p, now) && !has_seen(seen0, p.message_id) {
        exists|successes: nat| #[trigger]
            passed_along(before.route(), after.route(), p, successes)
    } else {
        after.route().waiting() == before.route().waiting() && c1.forwarded_packets
            == c0.forwarded_packets
    }
    &&& !has_seen(seen0, p.message_id) ==> delivered_as(before, after, p, now)
}

/// How the store stands after a fresh packet was opened: a packet whose
/// nonce its sender used before, or that does not open, is counted as
/// rejected and leaves the rows and the ledger as they were; any other
/// has its nonce recorded, and what it holds is stored, unless it is
/// gossip.
pub open spec fn delivered_as(before: CoreState, after: CoreState, p: PacketView, now: Timestamp)
    -> bool {
    let s0 = before.route().store();
    let s1 = after.route().store();
    let nonce_hex = hex_text(p.encrypted_payload.nonce);
    let seen = seen_after_routing(s0.seen(), p, now);
    match opened(s0.nonces(), p, before.me()->0.agreement_secret()) {
        None => {
            &&& after.rejected() == bumped(before.rejected())
            &&& after.remembered() == before.remembered()
            &&& after.exchange().counters() == before.exchange().counters()
            &&& s1.rows() == s0.rows()
            &&& s1.seen() == seen
            &&& s1.nonces() == s0.nonces()
        },
        Some(m) => {
            &&& after.rejected() == before.rejected()
            &&& sender_remembered(before.remembered(), after.remembered(), p)
            &&& answered(before, after, p, m, seen)
            &&& s1.nonces() == with_nonce(s0.nonces(), nonce_hex, p.sender_id, now)
            &&& (s1.rows(), s1.seen()) == if carries_gossip(m) {
                match gossip_carried(m) {
                    GossipView::MessageResponse { messages } => {
                        let stored = offered_all(s0.rows(), seen, messages, false, now);
                        (stored.0, stored.1)
                    },
                    _ => (s0.rows(), seen),
                }
            } else {
                received(s0.rows(), seen, m, now)
            }
        },
    }
}

/// Whether an identity is that of another peer with the public key `key`:
/// it holds the key and no secret.
pub open spec fn known_by_key(i: Identity, key: Seq<u8>) -> bool {
    &&& i.wf()
    &&& i.key() == key
    &&& i.signing_secret() is None
    &&& i.agreement_secret() is None
    &&& i.agreement_public() is None
}

/// How the remembered identities stand after a packet was opened: where
/// the public key of its sender is a key, the identity with that key is
/// remembered for the sender.
pub open spec fn sender_remembered(
    before: Map<Seq<char>, Identity>,
    after: Map<Seq<char>, Identity>,
    p: PacketView,
) -> bool {
    match Identity::key_verdict(p.sender_public_key) {
        Ok(_) => exists|i: Identity| #[trigger]
            known_by_key(i, p.sender_public_key) && after == before.insert(p.sender_id, i),
        Err(_) => after == before,
    }
}

/// The seen identifiers after a packet whose message was not seen was
/// routed at `now`: the message is recorded where the packet may go on.
pub open spec fn seen_after_routing(seen: Seq<SeenEntryView>, p: PacketView, now: Timestamp) -> Seq<
    SeenEntryView,
> {
    if forwardable(p, now) && !has_seen(seen, p.message_id) {
        seen.push(SeenEntryView { message_id: p.message_id, seen_at: now })
    } else {
        seen
    }
}

/// The gossip that a message carries in its text, where it carries some.
pub open spec fn gossip_carried(m: MessageView) -> GossipView {
    gossip_in_text(m.payload->Text_0)->Ok_0->0
}

/// Whether a message carries gossip in its text.
pub open spec fn carries_gossip(m: MessageView) -> bool {
    m.payload matches PayloadView::Text(t) && gossip_in_text(t) matches Ok(Some(_))
}

/// What opening a packet answers to a receiver whose ledger is `nonces`:
/// nothing where the ledger holds the nonce of the packet for its sender,
/// and nothing where the packet does not open.
pub open spec fn opened(
    nonces: Seq<NonceEntryView>,
    p: PacketView,
    receiver_secret: Option<Seq<u8>>,
) -> Option<MessageView> {
    if has_nonce(nonces, hex_text(p.encrypted_payload.nonce), p.sender_id) {
        None
    } else {
        match opening(p, receiver_secret) {
            Ok(m) => Some(m),
            Err(_) => None,
        }
    }
}

/// Opens a packet for `identity` at `now`, unless the ledger of `store`
/// holds its nonce for its sender; the nonce of a packet that opens is
/// recorded.
pub fn open_packet(packet: &Packet, identity: &Identity, store: &mut Storage, now: Timestamp) -> (r:
    Option<Message>)
    requires
        old(store).wf(),
    ensures
        final(store).wf(),
        final(store).rows() == old(store).rows(),
        final(store).seen() == old(store).seen(),
        final(store).acks() == old(store).acks(),
        opt_message_view(r) == opened(old(store).nonces(), packet@, identity.agreement_secret()),
        final(store).nonces() == if r is Some {
            with_nonce(
                old(store).nonces(),
                hex_text(packet@.encrypted_payload.nonce),
                packet@.sender_id,
                now,
            )
        } else {
            old(store).nonces()
        },
{
    let used = match store.is_nonce_used(
        packet.encrypted_payload.nonce.as_slice(),
        packet.sender_id.as_str(),
    ) {
        Ok(b) => b,
        Err(_) => true,
    };
    if used {
        return None;
    }
    match packet.decrypt(identity) {
        Ok(message) => {
            let _ = store.mark_nonce_used(
                packet.encrypted_payload.nonce.as_slice(),
                packet.sender_id.as_str(),
                now,
            );
            Some(message)
        },
        Err(_) => None,
    }
}

/// The message behind an optional message.
pub open spec fn opt_message_view(m: Option<Message>) -> Option<MessageView> {
    match m {
        Some(x) => Some(x@),
        None => None,
    }
}

/// A packet is opened once: after a packet opened at `now`, no packet
/// with its nonce and its sender opens, whatever else it holds and whoever
/// opens it.
pub proof fn lemma_replay_is_refused(
    nonces: Seq<NonceEntryView>,
    first: PacketView,
    second: PacketView,
    receiver_secret: Option<Seq<u8>>,
    now: Timestamp,
)
    requires
        first.encrypted_payload.nonce == second.encrypted_payload.nonce,
        first.sender_id == second.sender_id,
    ensures
        opened(
            with_nonce(nonces, hex_text(first.encrypted_payload.nonce), first.sender_id, now),
            second,
            receiver_secret,
        ) is None,
{
    lemma_used_nonce_is_held(
        nonces,
        hex_text(first.encrypted_payload.nonce),
        first.sender_id,
        now,
    );
}

/// The listed messages of a vector as mathematical values.
pub open spec fn summaries_view(v: Seq<MessageSummary>) -> Seq<MessageSummaryView> {
    Seq::new(v.len(), |i: int| v[i]@)
}

/// The exported messages of a vector as mathematical values.
pub open spec fn exports_view(v: Seq<MessageExport>) -> Seq<MessageExportView> {
    Seq::new(v.len(), |i: int| v[i]@)
}

fn export_all(messages: &Vec<Message>) -> (out: Vec<MessageExport>)
    ensures
        exports_view(out@) == Seq::new(
            messages_view(messages@).len(),
            |i: int| export_of(messages_view(messages@)[i]),
        ),
{
    let n = messages.len();
    let ghost ms = messages_view(messages@);
    let mut out: Vec<MessageExport> = Vec::new();
    let mut i: usize = 0;
    while i < n
        invariant
            i <= n,
            n == messages@.len(),
            ms == messages_view(messages@),
            out@.len() == i,
            forall|k: int| 0 <= k < i ==> (#[trigger] out@[k])@ == export_of(ms[k]),
        decreases n - i,
    {
        assert(ms[i as int] == messages@[i as int]@);
        out.push(MessageExport::from_message(&messages[i]));
        i = i + 1;
    }
    assert(exports_view(out@) =~= Seq::new(ms.len(), |i: int| export_of(ms[i])));
    out
}

} // verus!
