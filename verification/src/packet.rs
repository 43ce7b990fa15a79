//! Packets: the signed envelope in which one encrypted message travels.

use crate::crypto::{
    cipher_takes, decrypt_result, random_array, sealed_payload, x25519_public, Crypto,
    CryptoError, EncryptedPayload, EncryptedPayloadView,
};
use crate::identity::{
    ed25519_key_valid, ed25519_signature, ed25519_verifies, Identity, IdentityError,
};
use crate::message::{message_of_bytes, message_wire, Message, MessageType, MessageView};
use crate::text::hex_text;
use crate::time::{wire_instant, wire_time_text, Timestamp};
use crate::wire::{
    array_from_slice, array_to_vec, bytes_field_bytes, clone_bytes, head_bytes,
    lemma_bytes_field_read_is_written, lemma_bytes_field_round_trip,
    lemma_count_read_is_written, lemma_head_not_empty, lemma_key_read_is_written,
    lemma_text_field_read_is_written,
    lemma_uint_field_read_is_written, lemma_count_round_trip, lemma_key_round_trip,
    lemma_text_field_round_trip, lemma_uint_field_round_trip, lemma_utf8_len_bound,
    parse_bytes_field, parse_count, parse_key, parse_text_field, parse_uint_field,
    read_bytes_field, read_count, read_key, read_text_field, read_uint_field, str_eq, text_bytes,
    text_field_bytes, text_fits, uint_field_bytes, write_bytes_field, write_head, write_text,
    write_text_field, write_uint_field, MAJOR_MAP,
};
use vstd::prelude::*;

verus! {

/// Most bytes of a packet on the wire.
pub const MAX_PACKET_SIZE: usize = 131072;

/// Most bytes of ciphertext in a packet.
pub const MAX_ENCRYPTED_PAYLOAD: usize = 65536;

/// Seconds that a packet lives unless told otherwise.
pub const DEFAULT_TTL_SECONDS: u32 = 3600;

/// Hops that a packet may make unless told otherwise.
pub const DEFAULT_MAX_HOPS: u32 = 10;

/// Rank of a packet in the queues. The order of the variants is the
/// order of the ranks: low before medium before high.
#[derive(Clone, Copy, Debug, PartialEq, Eq, PartialOrd, Ord, Hash, Structural)]
pub enum Priority {
    /// Voice.
    Low,
    /// Text.
    Medium,
    /// Status.
    High,
}

/// The name of a priority on the wire.
pub open spec fn priority_name(p: Priority) -> Seq<char> {
    match p {
        Priority::Low => "Low"@,
        Priority::Medium => "Medium"@,
        Priority::High => "High"@,
    }
}

/// The priority that a name on the wire stands for.
pub open spec fn priority_named(name: Seq<char>) -> Option<Priority> {
    if name == "Low"@ {
        Some(Priority::Low)
    } else if name == "Medium"@ {
        Some(Priority::Medium)
    } else if name == "High"@ {
        Some(Priority::High)
    } else {
        None
    }
}

/// The priority of a kind of message: status high, text medium, voice low.
pub open spec fn priority_of(t: MessageType) -> Priority {
    match t {
        MessageType::Status => Priority::High,
        MessageType::Text => Priority::Medium,
        MessageType::Voice => Priority::Low,
    }
}

impl Priority {
    /// The name of the priority on the wire.
    pub fn name(&self) -> (r: &'static str)
        ensures
            r@ == priority_name(*self),
    {
        match self {
            Priority::Low => "Low",
            Priority::Medium => "Medium",
            Priority::High => "High",
        }
    }

    /// The priority that `name` stands for.
    pub fn from_name(name: &str) -> (r: Option<Priority>)
        ensures
            r == priority_named(name@),
    {
        if str_eq(name, "Low") {
            Some(Priority::Low)
        } else if str_eq(name, "Medium") {
            Some(Priority::Medium)
        } else if str_eq(name, "High") {
            Some(Priority::High)
        } else {
            None
        }
    }

    /// The priority of a kind of message.
    pub fn of(t: MessageType) -> (r: Priority)
        ensures
            r == priority_of(t),
    {
        match t {
            MessageType::Status => Priority::High,
            MessageType::Text => Priority::Medium,
            MessageType::Voice => Priority::Low,
        }
    }

    /// The rank as a number: low 0, medium 1, high 2.
    pub fn rank(&self) -> (r: u8)
        ensures
            r == match *self {
                Priority::Low => 0u8,
                Priority::Medium => 1u8,
                Priority::High => 2u8,
            },
    {
        match self {
            Priority::Low => 0,
            Priority::Medium => 1,
            Priority::High => 2,
        }
    }
}

/// Every priority name stands for the priority it was taken from.
pub proof fn lemma_priority_names(p: Priority)
    ensures
        priority_named(priority_name(p)) == Some(p),
        text_fits(priority_name(p)),
{
    reveal_strlit("Low");
    reveal_strlit("Medium");
    reveal_strlit("High");
    lemma_utf8_len_bound(priority_name(p));
}

/// Why a packet cannot be made, read or opened.
#[derive(Clone, Copy, Debug, PartialEq, Eq, Structural)]
pub enum PacketError {
    /// The packet or its message cannot be written.
    SerializationFailed,
    /// The bytes are no packet, or the plaintext is no message.
    DeserializationFailed,
    /// The packet or its ciphertext has this many bytes, too many.
    PacketTooLarge(usize),
    /// The signature is not of 64 bytes.
    InvalidSignature,
    /// A key of the sender is of the wrong length, is no key, or does not
    /// belong to the identifier of the sender.
    InvalidSenderKey,
    /// The key of the receiver is not of 32 bytes.
    InvalidReceiverKey,
    /// The identity refused.
    IdentityError(IdentityError),
    /// The cipher refused.
    CryptoError(CryptoError),
}

impl PacketError {
    /// The error in words.
    pub open spec fn words(self) -> Seq<char> {
        match self {
            PacketError::SerializationFailed => "Serialization failed"@,
            PacketError::DeserializationFailed => "Deserialization failed"@,
            PacketError::PacketTooLarge(_) => "Packet too large"@,
            PacketError::InvalidSignature => "Invalid signature"@,
            PacketError::InvalidSenderKey => "Invalid sender key"@,
            PacketError::InvalidReceiverKey => "Invalid receiver key"@,
            PacketError::IdentityError(e) => "Identity error: "@ + e.words(),
            PacketError::CryptoError(e) => "Crypto error: "@ + e.words(),
        }
    }

    /// The error in words, as a text.
    pub fn to_string(&self) -> (r: String)
        ensures
            r@ == self.words(),
    {
        match self {
            PacketError::SerializationFailed => "Serialization failed".to_string(),
            PacketError::DeserializationFailed => "Deserialization failed".to_string(),
            PacketError::PacketTooLarge(_) => "Packet too large".to_string(),
            PacketError::InvalidSignature => "Invalid signature".to_string(),
            PacketError::InvalidSenderKey => "Invalid sender key".to_string(),
            PacketError::InvalidReceiverKey => "Invalid receiver key".to_string(),
            PacketError::IdentityError(e) => "Identity error: ".to_string().concat(
                e.to_string().as_str(),
            ),
            PacketError::CryptoError(e) => "Crypto error: ".to_string().concat(
                e.to_string().as_str(),
            ),
        }
    }
}

/// The envelope of one message.
#[derive(Debug)]
pub struct Packet {
    /// Identifier of the message.
    pub message_id: String,
    /// Identifier of the sender.
    pub sender_id: String,
    /// Ed25519 public key of the sender, by which the signature is verified.
    pub sender_public_key: Vec<u8>,
    /// X25519 public key of the sender, to which answers are encrypted.
    pub sender_x25519_public_key: Vec<u8>,
    /// When the message was made.
    pub timestamp: Timestamp,
    /// Seconds that the packet lives.
    pub ttl: u32,
    /// Hops made so far.
    pub hops: u32,
    /// Hops that the packet may make.
    pub max_hops: u32,
    /// Rank in the queues.
    pub priority: Priority,
    /// The encrypted message.
    pub encrypted_payload: EncryptedPayload,
    /// Signature of the sender over the packet with an empty signature.
    pub signature: Vec<u8>,
}

/// A packet as a mathematical value.
pub struct PacketView {
    pub message_id: Seq<char>,
    pub sender_id: Seq<char>,
    pub sender_public_key: Seq<u8>,
    pub sender_x25519_public_key: Seq<u8>,
    pub timestamp: Timestamp,
    pub ttl: u32,
    pub hops: u32,
    pub max_hops: u32,
    pub priority: Priority,
    pub encrypted_payload: EncryptedPayloadView,
    pub signature: Seq<u8>,
}

impl View for Packet {
    type V = PacketView;

    open spec fn view(&self) -> PacketView {
        PacketView {
            message_id: self.message_id@,
            sender_id: self.sender_id@,
            sender_public_key: self.sender_public_key@,
            sender_x25519_public_key: self.sender_x25519_public_key@,
            timestamp: self.timestamp,
            ttl: self.ttl,
            hops: self.hops,
            max_hops: self.max_hops,
            priority: self.priority,
            encrypted_payload: self.encrypted_payload@,
            signature: self.signature@,
        }
    }
}

impl Clone for Packet {
    fn clone(&self) -> (r: Self)
        ensures
            r@ == self@,
    {
        Packet {
            message_id: self.message_id.clone(),
            sender_id: self.sender_id.clone(),
            sender_public_key: clone_bytes(&self.sender_public_key),
            sender_x25519_public_key: clone_bytes(&self.sender_x25519_public_key),
            timestamp: self.timestamp,
            ttl: self.ttl,
            hops: self.hops,
            max_hops: self.max_hops,
            priority: self.priority,
            encrypted_payload: self.encrypted_payload.clone(),
            signature: clone_bytes(&self.signature),
        }
    }
}

/// Whether the lengths in an encrypted payload can be written.
pub open spec fn sealed_fits(e: EncryptedPayloadView) -> bool {
    &&& e.ciphertext.len() <= u64::MAX
    &&& e.nonce.len() <= u64::MAX
    &&& e.sender_public_key.len() <= u64::MAX
}

/// An encrypted payload on the wire: a map of three entries in the order
/// ciphertext, nonce, sender_public_key.
pub open spec fn sealed_bytes(e: EncryptedPayloadView) -> Seq<u8> {
    head_bytes(MAJOR_MAP, 3) + (bytes_field_bytes("ciphertext"@, e.ciphertext) + (
    bytes_field_bytes("nonce"@, e.nonce) + bytes_field_bytes(
        "sender_public_key"@,
        e.sender_public_key,
    )))
}

/// Reads an encrypted payload from the front of `s`.
pub open spec fn parse_sealed(s: Seq<u8>) -> Option<(EncryptedPayloadView, Seq<u8>)> {
    match parse_count(s, MAJOR_MAP) {
        Some((n, s1)) => if n != 3 {
            None
        } else {
            match parse_bytes_field(s1, "ciphertext"@) {
                Some((ciphertext, s2)) => match parse_bytes_field(s2, "nonce"@) {
                    Some((nonce, s3)) => match parse_bytes_field(s3, "sender_public_key"@) {
                        Some((sender_public_key, s4)) => Some(
                            (EncryptedPayloadView { ciphertext, nonce, sender_public_key }, s4),
                        ),
                        None => None,
                    },
                    None => None,
                },
                None => None,
            }
        },
        None => None,
    }
}

/// An encrypted payload that is written and read again is the same.
pub proof fn lemma_sealed_round_trip(e: EncryptedPayloadView, rest: Seq<u8>)
    requires
        sealed_fits(e),
    ensures
        parse_sealed(sealed_bytes(e) + rest) == Some((e, rest)),
{
    reveal_strlit("ciphertext");
    reveal_strlit("nonce");
    reveal_strlit("sender_public_key");
    lemma_utf8_len_bound("ciphertext"@);
    lemma_utf8_len_bound("nonce"@);
    lemma_utf8_len_bound("sender_public_key"@);
    let f3 = bytes_field_bytes("sender_public_key"@, e.sender_public_key) + rest;
    let f2 = bytes_field_bytes("nonce"@, e.nonce) + f3;
    let f1 = bytes_field_bytes("ciphertext"@, e.ciphertext) + f2;
    assert(sealed_bytes(e) + rest =~= head_bytes(MAJOR_MAP, 3) + f1);
    lemma_count_round_trip(MAJOR_MAP, 3, f1);
    lemma_bytes_field_round_trip("ciphertext"@, e.ciphertext, f2);
    lemma_bytes_field_round_trip("nonce"@, e.nonce, f3);
    lemma_bytes_field_round_trip("sender_public_key"@, e.sender_public_key, rest);
}

/// Appends an encrypted payload to `out`.
pub fn write_sealed(out: &mut Vec<u8>, e: &EncryptedPayload)
    ensures
        final(out)@ == old(out)@ + sealed_bytes(e@),
        sealed_fits(e@),
{
    let _ = e.ciphertext.len();
    let _ = e.nonce.len();
    let _ = e.sender_public_key.len();
    write_head(out, MAJOR_MAP, 3);
    write_bytes_field(out, "ciphertext", e.ciphertext.as_slice());
    write_bytes_field(out, "nonce", e.nonce.as_slice());
    write_bytes_field(out, "sender_public_key", e.sender_public_key.as_slice());
    assert(out@ =~= old(out)@ + sealed_bytes(e@));
}

/// Reads the encrypted payload at `pos`.
pub fn read_sealed(b: &[u8], pos: usize) -> (r: Option<(EncryptedPayload, usize)>)
    requires
        pos <= b@.len(),
    ensures
        match r {
            Some((e, next)) => pos < next <= b@.len() && parse_sealed(b@.skip(pos as int))
                == Some((e@, b@.skip(next as int))),
            None => parse_sealed(b@.skip(pos as int)) is None,
        },
{
    let (n, at1) = match read_count(b, pos, MAJOR_MAP) {
        Some(c) => c,
        None => {
            return None;
        },
    };
    if n != 3 {
        return None;
    }
    let (ciphertext, at2) = match read_bytes_field(b, at1, "ciphertext") {
        Some(v) => v,
        None => {
            return None;
        },
    };
    let (nonce, at3) = match read_bytes_field(b, at2, "nonce") {
        Some(v) => v,
        None => {
            return None;
        },
    };
    let (sender_public_key, at4) = match read_bytes_field(b, at3, "sender_public_key") {
        Some(v) => v,
        None => {
            return None;
        },
    };
    Some((EncryptedPayload { ciphertext, nonce, sender_public_key }, at4))
}

/// Whether the lengths in a packet can be written.
pub open spec fn packet_fits(p: PacketView) -> bool {
    &&& text_fits(p.message_id)
    &&& text_fits(p.sender_id)
    &&& p.sender_public_key.len() <= u64::MAX
    &&& p.sender_x25519_public_key.len() <= u64::MAX
    &&& sealed_fits(p.encrypted_payload)
    &&& p.signature.len() <= u64::MAX
}

/// The tail of a packet on the wire: the encrypted payload and the
/// signature.
pub open spec fn packet_tail_bytes(p: PacketView) -> Seq<u8> {
    text_bytes("encrypted_payload"@) + (sealed_bytes(p.encrypted_payload) + bytes_field_bytes(
        "signature"@,
        p.signature,
    ))
}

/// The middle of a packet on the wire: time, counters and priority, then
/// the tail.
pub open spec fn packet_middle_bytes(p: PacketView, time_text: Seq<char>) -> Seq<u8> {
    text_field_bytes("timestamp"@, time_text) + (uint_field_bytes("ttl"@, p.ttl as u64) + (
    uint_field_bytes("hops"@, p.hops as u64) + (uint_field_bytes("max_hops"@, p.max_hops as u64)
        + (text_field_bytes("priority"@, priority_name(p.priority)) + packet_tail_bytes(p)))))
}

/// A packet on the wire with `time_text` for its time: a map of eleven
/// entries in the order message_id, sender_id, sender_public_key,
/// sender_x25519_public_key, timestamp, ttl, hops, max_hops, priority,
/// encrypted_payload, signature.
pub open spec fn packet_bytes(p: PacketView, time_text: Seq<char>) -> Seq<u8> {
    head_bytes(MAJOR_MAP, 11) + (text_field_bytes("message_id"@, p.message_id) + (
    text_field_bytes("sender_id"@, p.sender_id) + (bytes_field_bytes(
        "sender_public_key"@,
        p.sender_public_key,
    ) + (bytes_field_bytes("sender_x25519_public_key"@, p.sender_x25519_public_key)
        + packet_middle_bytes(p, time_text)))))
}

/// A packet on the wire, where its time can be written.
pub open spec fn packet_wire(p: PacketView) -> Option<Seq<u8>> {
    match wire_time_text(p.timestamp.secs, p.timestamp.nanos) {
        Some(t) => Some(packet_bytes(p, t)),
        None => None,
    }
}

/// The packet with its signature taken out.
pub open spec fn unsigned(p: PacketView) -> PacketView {
    PacketView { signature: Seq::<u8>::empty(), ..p }
}

/// The bytes that the signature of a packet covers: the packet on the
/// wire with an empty signature.
pub open spec fn signing_bytes(p: PacketView) -> Option<Seq<u8>> {
    packet_wire(unsigned(p))
}

/// What the counters and the tail of a packet read to.
pub struct PacketRest {
    pub ttl: u32,
    pub hops: u32,
    pub max_hops: u32,
    pub priority: Priority,
    pub encrypted_payload: EncryptedPayloadView,
    pub signature: Seq<u8>,
}

/// Reads the counters, the priority and the tail of a packet.
pub open spec fn parse_packet_rest(s: Seq<u8>) -> Option<(PacketRest, Seq<u8>)> {
    match parse_uint_field(s, "ttl"@) {
        Some((ttl, s1)) => match parse_uint_field(s1, "hops"@) {
            Some((hops, s2)) => match parse_uint_field(s2, "max_hops"@) {
                Some((max_hops, s3)) => match parse_text_field(s3, "priority"@) {
                    Some((name, s4)) => match priority_named(name) {
                        Some(priority) => match parse_key(s4, "encrypted_payload"@) {
                            Some(s5) => match parse_sealed(s5) {
                                Some((encrypted_payload, s6)) => match parse_bytes_field(
                                    s6,
                                    "signature"@,
                                ) {
                                    Some((signature, s7)) => if ttl <= u32::MAX && hops
                                        <= u32::MAX && max_hops <= u32::MAX {
                                        Some(
                                            (
                                                PacketRest {
                                                    ttl: ttl as u32,
                                                    hops: hops as u32,
                                                    max_hops: max_hops as u32,
                                                    priority,
                                                    encrypted_payload,
                                                    signature,
                                                },
                                                s7,
                                            ),
                                        )
                                    } else {
                                        None
                                    },
                                    None => None,
                                },
                                None => None,
                            },
                            None => None,
                        },
                        None => None,
                    },
                    None => None,
                },
                None => None,
            },
            None => None,
        },
        None => None,
    }
}

/// Reads a packet from the front of `s`.
pub open spec fn parse_packet(s: Seq<u8>) -> Option<(PacketView, Seq<u8>)> {
    match parse_count(s, MAJOR_MAP) {
        Some((n, s1)) => if n != 11 {
            None
        } else {
            match parse_text_field(s1, "message_id"@) {
                Some((message_id, s2)) => match parse_text_field(s2, "sender_id"@) {
                    Some((sender_id, s3)) => match parse_bytes_field(s3, "sender_public_key"@) {
                        Some((sender_public_key, s4)) => match parse_bytes_field(
                            s4,
                            "sender_x25519_public_key"@,
                        ) {
                            Some((sender_x25519_public_key, s5)) => match parse_text_field(
                                s5,
                                "timestamp"@,
                            ) {
                                Some((time_text, s6)) => match wire_instant(time_text) {
                                    Some((secs, nanos)) => match parse_packet_rest(s6) {
                                        Some((rest, s7)) => Some(
                                            (
                                                PacketView {
                                                    message_id,
                                                    sender_id,
                                                    sender_public_key,
                                                    sender_x25519_public_key,
                                                    timestamp: Timestamp { secs, nanos },
                                                    ttl: rest.ttl,
                                                    hops: rest.hops,
                                                    max_hops: rest.max_hops,
                                                    priority: rest.priority,
                                                    encrypted_payload: rest.encrypted_payload,
                                                    signature: rest.signature,
                                                },
                                                s7,
                                            ),
                                        ),
                                        None => None,
                                    },
                                    None => None,
                                },
                                None => None,
                            },
                            None => None,
                        },
                        None => None,
                    },
                    None => None,
                },
                None => None,
            }
        },
        None => None,
    }
}

/// The packet that `bytes` hold, where they hold one and nothing else.
pub open spec fn packet_of_bytes(bytes: Seq<u8>) -> Option<PacketView> {
    match parse_packet(bytes) {
        Some((p, rest)) => if rest.len() == 0 {
            Some(p)
        } else {
            None
        },
        None => None,
    }
}

proof fn lemma_packet_rest_round_trip(p: PacketView, rest: Seq<u8>)
    requires
        packet_fits(p),
    ensures
        parse_packet_rest(
            uint_field_bytes("ttl"@, p.ttl as u64) + (uint_field_bytes("hops"@, p.hops as u64) + (
            uint_field_bytes("max_hops"@, p.max_hops as u64) + (text_field_bytes(
                "priority"@,
                priority_name(p.priority),
            ) + (packet_tail_bytes(p) + rest)))),
        ) == Some(
            (
                PacketRest {
                    ttl: p.ttl,
                    hops: p.hops,
                    max_hops: p.max_hops,
                    priority: p.priority,
                    encrypted_payload: p.encrypted_payload,
                    signature: p.signature,
                },
                rest,
            ),
        ),
{
    reveal_strlit("ttl");
    reveal_strlit("hops");
    reveal_strlit("max_hops");
    reveal_strlit("priority");
    reveal_strlit("encrypted_payload");
    reveal_strlit("signature");
    lemma_utf8_len_bound("ttl"@);
    lemma_utf8_len_bound("hops"@);
    lemma_utf8_len_bound("max_hops"@);
    lemma_utf8_len_bound("priority"@);
    lemma_utf8_len_bound("encrypted_payload"@);
    lemma_utf8_len_bound("signature"@);
    lemma_priority_names(p.priority);
    let g7 = bytes_field_bytes("signature"@, p.signature) + rest;
    let g6 = sealed_bytes(p.encrypted_payload) + g7;
    let g5 = text_bytes("encrypted_payload"@) + g6;
    let g4 = text_field_bytes("priority"@, priority_name(p.priority)) + g5;
    let g3 = uint_field_bytes("max_hops"@, p.max_hops as u64) + g4;
    let g2 = uint_field_bytes("hops"@, p.hops as u64) + g3;
    let g1 = uint_field_bytes("ttl"@, p.ttl as u64) + g2;
    assert(packet_tail_bytes(p) + rest =~= g5);
    lemma_uint_field_round_trip("ttl"@, p.ttl as u64, g2);
    lemma_uint_field_round_trip("hops"@, p.hops as u64, g3);
    lemma_uint_field_round_trip("max_hops"@, p.max_hops as u64, g4);
    lemma_text_field_round_trip("priority"@, priority_name(p.priority), g5);
    lemma_key_round_trip("encrypted_payload"@, g6);
    lemma_sealed_round_trip(p.encrypted_payload, g7);
    lemma_bytes_field_round_trip("signature"@, p.signature, rest);
}

/// A packet that is written and read again is the same packet, given
/// that its time text reads back to its time.
pub proof fn lemma_packet_round_trip(p: PacketView, time_text: Seq<char>, rest: Seq<u8>)
    requires
        packet_fits(p),
        text_fits(time_text),
        wire_instant(time_text) == Some((p.timestamp.secs, p.timestamp.nanos)),
    ensures
        parse_packet(packet_bytes(p, time_text) + rest) == Some((p, rest)),
{
    reveal_strlit("message_id");
    reveal_strlit("sender_id");
    reveal_strlit("sender_public_key");
    reveal_strlit("sender_x25519_public_key");
    reveal_strlit("timestamp");
    lemma_utf8_len_bound("message_id"@);
    lemma_utf8_len_bound("sender_id"@);
    lemma_utf8_len_bound("sender_public_key"@);
    lemma_utf8_len_bound("sender_x25519_public_key"@);
    lemma_utf8_len_bound("timestamp"@);
    let tail = uint_field_bytes("ttl"@, p.ttl as u64) + (uint_field_bytes("hops"@, p.hops as u64)
        + (uint_field_bytes("max_hops"@, p.max_hops as u64) + (text_field_bytes(
        "priority"@,
        priority_name(p.priority),
    ) + (packet_tail_bytes(p) + rest))));
    let f5 = text_field_bytes("timestamp"@, time_text) + tail;
    let f4 = bytes_field_bytes("sender_x25519_public_key"@, p.sender_x25519_public_key) + f5;
    let f3 = bytes_field_bytes("sender_public_key"@, p.sender_public_key) + f4;
    let f2 = text_field_bytes("sender_id"@, p.sender_id) + f3;
    let f1 = text_field_bytes("message_id"@, p.message_id) + f2;
    assert(packet_middle_bytes(p, time_text) + rest =~= f5);
    assert(packet_bytes(p, time_text) + rest =~= head_bytes(MAJOR_MAP, 11) + f1);
    lemma_count_round_trip(MAJOR_MAP, 11, f1);
    lemma_text_field_round_trip("message_id"@, p.message_id, f2);
    lemma_text_field_round_trip("sender_id"@, p.sender_id, f3);
    lemma_bytes_field_round_trip("sender_public_key"@, p.sender_public_key, f4);
    lemma_bytes_field_round_trip("sender_x25519_public_key"@, p.sender_x25519_public_key, f5);
    lemma_text_field_round_trip("timestamp"@, time_text, tail);
    lemma_packet_rest_round_trip(p, rest);
}

/// The tail of a packet with `signature` for its signature.
fn packet_tail(p: &Packet, signature: &[u8]) -> (tail: Vec<u8>)
    ensures
        tail@ == packet_tail_bytes(PacketView { signature: signature@, ..p@ }),
        sealed_fits(p@.encrypted_payload),
        signature@.len() <= u64::MAX,
{
    let _ = signature.len();
    let mut tail: Vec<u8> = Vec::new();
    write_text(&mut tail, "encrypted_payload");
    write_sealed(&mut tail, &p.encrypted_payload);
    write_bytes_field(&mut tail, "signature", signature);
    assert(tail@ =~= packet_tail_bytes(PacketView { signature: signature@, ..p@ }));
    tail
}

/// The middle of a packet with `time_text` for its time and `signature`
/// for its signature.
fn packet_middle(p: &Packet, time_text: &str, signature: &[u8]) -> (mid: Vec<u8>)
    ensures
        mid@ == packet_middle_bytes(PacketView { signature: signature@, ..p@ }, time_text@),
        sealed_fits(p@.encrypted_payload),
        signature@.len() <= u64::MAX,
        text_fits(time_text@),
{
    let mut mid: Vec<u8> = Vec::new();
    write_text_field(&mut mid, "timestamp", time_text);
    write_uint_field(&mut mid, "ttl", p.ttl as u64);
    write_uint_field(&mut mid, "hops", p.hops as u64);
    write_uint_field(&mut mid, "max_hops", p.max_hops as u64);
    write_text_field(&mut mid, "priority", p.priority.name());
    let tail = packet_tail(p, signature);
    crate::wire::append_bytes(&mut mid, tail.as_slice());
    assert(mid@ =~= packet_middle_bytes(PacketView { signature: signature@, ..p@ }, time_text@));
    mid
}

/// Appends a packet to `out`, with `time_text` for its time and
/// `signature` for its signature.
fn write_packet(out: &mut Vec<u8>, p: &Packet, time_text: &str, signature: &[u8])
    ensures
        final(out)@ == old(out)@ + packet_bytes(
            PacketView { signature: signature@, ..p@ },
            time_text@,
        ),
        packet_fits(PacketView { signature: signature@, ..p@ }),
        text_fits(time_text@),
{
    let _ = p.sender_public_key.len();
    let _ = p.sender_x25519_public_key.len();
    write_head(out, MAJOR_MAP, 11);
    write_text_field(out, "message_id", p.message_id.as_str());
    write_text_field(out, "sender_id", p.sender_id.as_str());
    write_bytes_field(out, "sender_public_key", p.sender_public_key.as_slice());
    write_bytes_field(out, "sender_x25519_public_key", p.sender_x25519_public_key.as_slice());
    let mid = packet_middle(p, time_text, signature);
    crate::wire::append_bytes(out, mid.as_slice());
    assert(out@ =~= old(out)@ + packet_bytes(
        PacketView { signature: signature@, ..p@ },
        time_text@,
    ));
}

/// Reads the packet at `pos`.
fn read_packet(b: &[u8], pos: usize) -> (r: Option<(Packet, usize)>)
    requires
        pos <= b@.len(),
    ensures
        match r {
            Some((p, next)) => pos < next <= b@.len() && parse_packet(b@.skip(pos as int))
                == Some((p@, b@.skip(next as int))),
            None => parse_packet(b@.skip(pos as int)) is None,
        },
{
    let (n, at1) = match read_count(b, pos, MAJOR_MAP) {
        Some(c) => c,
        None => {
            return None;
        },
    };
    if n != 11 {
        return None;
    }
    let (message_id, at2) = match read_text_field(b, at1, "message_id") {
        Some(v) => v,
        None => {
            return None;
        },
    };
    let (sender_id, at3) = match read_text_field(b, at2, "sender_id") {
        Some(v) => v,
        None => {
            return None;
        },
    };
    let (sender_public_key, at4) = match read_bytes_field(b, at3, "sender_public_key") {
        Some(v) => v,
        None => {
            return None;
        },
    };
    let (sender_x25519_public_key, at5) = match read_bytes_field(
        b,
        at4,
        "sender_x25519_public_key",
    ) {
        Some(v) => v,
        None => {
            return None;
        },
    };
    let (time_text, at6) = match read_text_field(b, at5, "timestamp") {
        Some(v) => v,
        None => {
            return None;
        },
    };
    let timestamp = match Timestamp::parse_wire(time_text.as_str()) {
        Some(t) => t,
        None => {
            return None;
        },
    };
    let (ttl, q1) = match read_uint_field(b, at6, "ttl") {
        Some(v) => v,
        None => {
            return None;
        },
    };
    let (hops, q2) = match read_uint_field(b, q1, "hops") {
        Some(v) => v,
        None => {
            return None;
        },
    };
    let (max_hops, q3) = match read_uint_field(b, q2, "max_hops") {
        Some(v) => v,
        None => {
            return None;
        },
    };
    let (name, q4) = match read_text_field(b, q3, "priority") {
        Some(v) => v,
        None => {
            return None;
        },
    };
    let priority = match Priority::from_name(name.as_str()) {
        Some(v) => v,
        None => {
            return None;
        },
    };
    let q5 = match read_key(b, q4, "encrypted_payload") {
        Some(v) => v,
        None => {
            return None;
        },
    };
    let (encrypted_payload, q6) = match read_sealed(b, q5) {
        Some(v) => v,
        None => {
            return None;
        },
    };
    let (signature, q7) = match read_bytes_field(b, q6, "signature") {
        Some(v) => v,
        None => {
            return None;
        },
    };
    if ttl > 0xffff_ffff || hops > 0xffff_ffff || max_hops > 0xffff_ffff {
        return None;
    }
    Some(
        (
            Packet {
                message_id,
                sender_id,
                sender_public_key,
                sender_x25519_public_key,
                timestamp,
                ttl: ttl as u32,
                hops: hops as u32,
                max_hops: max_hops as u32,
                priority,
                encrypted_payload,
                signature,
            },
            q7,
        ),
    )
}

/// Whether a packet may go on at `now`: it has hops left, and fewer
/// seconds than it lives have passed since it was made.
pub open spec fn forwardable(p: PacketView, now: Timestamp) -> bool {
    p.hops < p.max_hops && now.seconds_since(p.timestamp) < p.ttl
}

/// What reading a packet from `bytes` answers.
pub open spec fn from_bytes_verdict(bytes: Seq<u8>) -> Result<PacketView, PacketError> {
    if bytes.len() > MAX_PACKET_SIZE {
        Err(PacketError::PacketTooLarge(bytes.len() as usize))
    } else {
        match packet_of_bytes(bytes) {
            None => Err(PacketError::DeserializationFailed),
            Some(p) => if p.encrypted_payload.ciphertext.len() > MAX_ENCRYPTED_PAYLOAD {
                Err(PacketError::PacketTooLarge(p.encrypted_payload.ciphertext.len() as usize))
            } else if p.signature.len() > 64 {
                Err(PacketError::InvalidSignature)
            } else if p.sender_public_key.len() != 0 && p.sender_public_key.len() != 32 {
                Err(PacketError::InvalidSenderKey)
            } else if p.sender_x25519_public_key.len() != 0 && p.sender_x25519_public_key.len()
                != 32 {
                Err(PacketError::InvalidSenderKey)
            } else {
                Ok(p)
            },
        }
    }
}

/// The bytes behind an optional key, or no bytes.
pub open spec fn key_or_empty(k: Option<Seq<u8>>) -> Seq<u8> {
    match k {
        Some(b) => b,
        None => Seq::<u8>::empty(),
    }
}

/// The packet that carries `m` from `sender` to the holder of
/// `receiver_public`, with everything in place but the signature, where
/// `sealed` is the encrypted message.
pub open spec fn draft_packet(
    m: MessageView,
    sender: Identity,
    sealed: EncryptedPayloadView,
) -> PacketView {
    PacketView {
        message_id: m.id,
        sender_id: m.sender_id,
        sender_public_key: sender.key(),
        sender_x25519_public_key: key_or_empty(sender.agreement_public()),
        timestamp: m.timestamp,
        ttl: DEFAULT_TTL_SECONDS,
        hops: 0,
        max_hops: DEFAULT_MAX_HOPS,
        priority: priority_of(m.message_type),
        encrypted_payload: sealed,
        signature: Seq::<u8>::empty(),
    }
}

/// What building a packet answers, for the ephemeral secret key and the
/// nonce that were drawn.
pub open spec fn sealing(
    m: MessageView,
    sender: Identity,
    receiver_public: Seq<u8>,
    ephemeral_secret: Seq<u8>,
    nonce: Seq<u8>,
) -> Result<PacketView, PacketError> {
    match message_wire(m) {
        None => Err(PacketError::SerializationFailed),
        Some(plain) => if receiver_public.len() != 32 {
            Err(PacketError::InvalidReceiverKey)
        } else {
            match sealed_payload(
                ephemeral_secret,
                x25519_public(ephemeral_secret),
                receiver_public,
                nonce,
                plain,
            ) {
                None => Err(PacketError::CryptoError(CryptoError::EncryptionFailed)),
                Some(sealed) => match packet_wire(draft_packet(m, sender, sealed)) {
                    None => Err(PacketError::SerializationFailed),
                    Some(data) => match sender.signing_secret() {
                        None => Err(PacketError::IdentityError(IdentityError::NoPrivateKey)),
                        Some(sk) => Ok(
                            PacketView {
                                signature: ed25519_signature(sk, data),
                                ..draft_packet(m, sender, sealed)
                            },
                        ),
                    },
                },
            }
        },
    }
}

/// Whether a packet can be built to carry `m` from `sender` to the
/// holder of `receiver_public`: the message can be written, the cipher
/// takes what is written, the key has 32 bytes and the sender can sign.
pub open spec fn can_seal(m: MessageView, sender: Identity, receiver_public: Seq<u8>) -> bool {
    match message_wire(m) {
        Some(plain) => cipher_takes(plain.len()) && receiver_public.len() == 32
            && sender.signing_secret() is Some,
        None => false,
    }
}

/// What opening a packet answers to a receiver with the X25519 secret key
/// `receiver_secret`, or with none.
pub open spec fn opening(p: PacketView, receiver_secret: Option<Seq<u8>>) -> Result<
    MessageView,
    PacketError,
> {
    if p.sender_public_key.len() != 32 || !ed25519_key_valid(p.sender_public_key) {
        Err(PacketError::InvalidSenderKey)
    } else {
        match signing_bytes(p) {
            None => Err(PacketError::SerializationFailed),
            Some(data) => if p.signature.len() != 64 {
                Err(PacketError::InvalidSignature)
            } else if !ed25519_verifies(p.sender_public_key, data, p.signature) {
                Err(PacketError::IdentityError(IdentityError::InvalidSignature))
            } else if p.sender_id != hex_text(p.sender_public_key) {
                Err(PacketError::InvalidSenderKey)
            } else if p.encrypted_payload.sender_public_key.len() != 32 {
                Err(PacketError::InvalidSenderKey)
            } else {
                match receiver_secret {
                    None => Err(PacketError::CryptoError(CryptoError::InvalidKey)),
                    Some(secret) => match decrypt_result(
                        secret,
                        p.encrypted_payload.sender_public_key,
                        p.encrypted_payload,
                    ) {
                        Err(e) => Err(PacketError::CryptoError(e)),
                        Ok(plain) => match message_of_bytes(plain) {
                            Some(m) => Ok(m),
                            None => Err(PacketError::DeserializationFailed),
                        },
                    },
                }
            },
        }
    }
}

/// Whether the holder of the secret key that belongs to `receiver_public`
/// opens `p` to `m`, given that the sender is well-formed and is the
/// sender that `m` names.
pub open spec fn opens_for(
    p: PacketView,
    m: MessageView,
    sender: Identity,
    receiver_public: Seq<u8>,
) -> bool {
    sender.wf() && sender.ident() == m.sender_id ==> forall|receiver_secret: Seq<u8>|
        #![trigger x25519_public(receiver_secret)]
        receiver_secret.len() == 32 && x25519_public(receiver_secret) == receiver_public
            ==> opening(p, Some(receiver_secret)) == Ok::<MessageView, PacketError>(m)
}

/// The result of building or reading a packet, as a mathematical value.
pub open spec fn packet_result_view(r: Result<Packet, PacketError>) -> Result<
    PacketView,
    PacketError,
> {
    match r {
        Ok(p) => Ok(p@),
        Err(e) => Err(e),
    }
}

/// The result of opening a packet, as a mathematical value.
pub open spec fn message_result_view(r: Result<Message, PacketError>) -> Result<
    MessageView,
    PacketError,
> {
    match r {
        Ok(m) => Ok(m@),
        Err(e) => Err(e),
    }
}

/// Whether a packet can be written so that it is read back: its lengths
/// can be written, and the calendar holds its time.
pub open spec fn writable(p: PacketView) -> bool {
    &&& packet_fits(p)
    &&& wire_time_text(p.timestamp.secs, p.timestamp.nanos) matches Some(t) && text_fits(t)
        && wire_instant(t) == Some((p.timestamp.secs, p.timestamp.nanos))
}

/// Whether a packet comes through the wire: its bytes read as the packet,
/// and reading holds them to the limits on the sizes alone.
pub open spec fn survives(p: PacketView) -> bool {
    packet_wire(p) matches Some(b) && packet_of_bytes(b) == Some(p) && from_bytes_verdict(b)
        == if b.len()
        > MAX_PACKET_SIZE {
        Err::<PacketView, PacketError>(PacketError::PacketTooLarge(b.len() as usize))
    } else if p.encrypted_payload.ciphertext.len() > MAX_ENCRYPTED_PAYLOAD {
        Err::<PacketView, PacketError>(
            PacketError::PacketTooLarge(p.encrypted_payload.ciphertext.len() as usize),
        )
    } else {
        Ok::<PacketView, PacketError>(p)
    }
}

/// A packet that can be written reads from its bytes as it was written.
pub proof fn lemma_written_packet_is_read(p: PacketView)
    requires
        writable(p),
    ensures
        packet_wire(p) matches Some(b) && packet_of_bytes(b) == Some(p),
{
    let t = wire_time_text(p.timestamp.secs, p.timestamp.nanos)->0;
    lemma_packet_round_trip(p, t, Seq::<u8>::empty());
    assert(packet_bytes(p, t) + Seq::<u8>::empty() =~= packet_bytes(p, t));
}

/// An encrypted payload that is read is the one that is written for it.
pub proof fn lemma_sealed_read_is_written(s: Seq<u8>)
    requires
        parse_sealed(s) is Some,
    ensures
        parse_sealed(s) matches Some((e, rest)) && sealed_fits(e) && s == sealed_bytes(e) + rest,
{
    lemma_count_read_is_written(s, MAJOR_MAP);
    let (_, s1) = parse_count(s, MAJOR_MAP)->0;
    lemma_bytes_field_read_is_written(s1, "ciphertext"@);
    let (ciphertext, s2) = parse_bytes_field(s1, "ciphertext"@)->0;
    lemma_bytes_field_read_is_written(s2, "nonce"@);
    let (nonce, s3) = parse_bytes_field(s2, "nonce"@)->0;
    lemma_bytes_field_read_is_written(s3, "sender_public_key"@);
    let (sender_public_key, s4) = parse_bytes_field(s3, "sender_public_key"@)->0;
    let e = EncryptedPayloadView { ciphertext, nonce, sender_public_key };
    assert(s =~= sealed_bytes(e) + s4);
}

proof fn lemma_packet_rest_read_is_written(s: Seq<u8>)
    requires
        parse_packet_rest(s) is Some,
    ensures
        parse_packet_rest(s) matches Some((r, rest)) && sealed_fits(r.encrypted_payload)
            && r.signature.len() <= u64::MAX && s == uint_field_bytes("ttl"@, r.ttl as u64) + (
        uint_field_bytes("hops"@, r.hops as u64) + (uint_field_bytes(
            "max_hops"@,
            r.max_hops as u64,
        ) + (text_field_bytes("priority"@, priority_name(r.priority)) + (text_bytes(
            "encrypted_payload"@,
        ) + (sealed_bytes(r.encrypted_payload) + (bytes_field_bytes("signature"@, r.signature)
            + rest)))))),
{
    lemma_uint_field_read_is_written(s, "ttl"@);
    let (ttl, s1) = parse_uint_field(s, "ttl"@)->0;
    lemma_uint_field_read_is_written(s1, "hops"@);
    let (hops, s2) = parse_uint_field(s1, "hops"@)->0;
    lemma_uint_field_read_is_written(s2, "max_hops"@);
    let (max_hops, s3) = parse_uint_field(s2, "max_hops"@)->0;
    lemma_text_field_read_is_written(s3, "priority"@);
    let (name, s4) = parse_text_field(s3, "priority"@)->0;
    lemma_key_read_is_written(s4, "encrypted_payload"@);
    let s5 = parse_key(s4, "encrypted_payload"@)->0;
    lemma_sealed_read_is_written(s5);
    let (_, s6) = parse_sealed(s5)->0;
    lemma_bytes_field_read_is_written(s6, "signature"@);
}

/// Bytes that are read as a packet are the bytes that are written for
/// that packet, so no packet is read from two byte strings.
pub proof fn lemma_read_packet_is_written(bytes: Seq<u8>)
    requires
        packet_of_bytes(bytes) is Some,
    ensures
        writable(packet_of_bytes(bytes)->0),
        packet_wire(packet_of_bytes(bytes)->0) == Some(bytes),
{
    let p = packet_of_bytes(bytes)->0;
    lemma_count_read_is_written(bytes, MAJOR_MAP);
    let (_, s1) = parse_count(bytes, MAJOR_MAP)->0;
    lemma_text_field_read_is_written(s1, "message_id"@);
    let (_, s2) = parse_text_field(s1, "message_id"@)->0;
    lemma_text_field_read_is_written(s2, "sender_id"@);
    let (_, s3) = parse_text_field(s2, "sender_id"@)->0;
    lemma_bytes_field_read_is_written(s3, "sender_public_key"@);
    let (_, s4) = parse_bytes_field(s3, "sender_public_key"@)->0;
    lemma_bytes_field_read_is_written(s4, "sender_x25519_public_key"@);
    let (_, s5) = parse_bytes_field(s4, "sender_x25519_public_key"@)->0;
    lemma_text_field_read_is_written(s5, "timestamp"@);
    let (time_text, s6) = parse_text_field(s5, "timestamp"@)->0;
    lemma_packet_rest_read_is_written(s6);
    let (_, s7) = parse_packet_rest(s6)->0;
    assert(s7 =~= Seq::<u8>::empty());
    assert(wire_time_text(p.timestamp.secs, p.timestamp.nanos) == Some(time_text));
    assert(bytes =~= packet_bytes(p, time_text));
}

/// Two byte strings that differ, be it in a single bit, and are both
/// read as packets are read as packets that differ in the signature or
/// in the bytes that the signature covers: what is left to the signature
/// scheme is that it refuses the one of them that the sender did not
/// sign.
pub proof fn lemma_changed_bytes_change_what_is_signed(a: Seq<u8>, b: Seq<u8>)
    requires
        packet_of_bytes(a) is Some,
        packet_of_bytes(b) is Some,
        a != b,
    ensures
        packet_of_bytes(a)->0.signature != packet_of_bytes(b)->0.signature || signing_bytes(
            packet_of_bytes(a)->0,
        ) != signing_bytes(packet_of_bytes(b)->0),
{
    let p = packet_of_bytes(a)->0;
    let q = packet_of_bytes(b)->0;
    lemma_read_packet_is_written(a);
    lemma_read_packet_is_written(b);
    if p.signature == q.signature && signing_bytes(p) == signing_bytes(q) {
        lemma_written_packet_is_read(unsigned(p));
        lemma_written_packet_is_read(unsigned(q));
        assert(unsigned(p) == unsigned(q));
        assert(p == q);
    }
}

impl Packet {
    /// The packet on the wire. It cannot be written where its time has
    /// no text, which it has wherever the calendar holds it and its
    /// nanoseconds are those of a second. What comes back reads as the
    /// packet.
    pub fn to_bytes(&self) -> (r: Result<Vec<u8>, PacketError>)
        ensures
            match r {
                Ok(b) => packet_wire(self@) == Some(b@) && packet_of_bytes(b@) == Some(self@)
                    && b@.len() > 0,
                Err(e) => e == PacketError::SerializationFailed && packet_wire(self@) is None,
            },
            self@.timestamp.can_be_written() ==> r is Ok,
    {
        let time_text = match self.timestamp.to_wire_text() {
            Some(t) => t,
            None => {
                return Err(PacketError::SerializationFailed);
            },
        };
        let mut out: Vec<u8> = Vec::new();
        write_packet(&mut out, self, time_text.as_str(), self.signature.as_slice());
        proof {
            lemma_head_not_empty(MAJOR_MAP, 11);
            assert((PacketView { signature: self.signature@, ..self@ }) == self@);
            lemma_packet_round_trip(self@, time_text@, Seq::<u8>::empty());
            assert(out@ =~= packet_bytes(self@, time_text@));
            assert(packet_bytes(self@, time_text@) + Seq::<u8>::empty() =~= out@);
        }
        Ok(out)
    }

    /// The bytes that the signature covers: the packet on the wire with an
    /// empty signature.
    pub fn get_signing_data(&self) -> (r: Result<Vec<u8>, PacketError>)
        ensures
            match r {
                Ok(b) => signing_bytes(self@) == Some(b@) && writable(self@),
                Err(e) => e == PacketError::SerializationFailed && signing_bytes(self@) is None,
            },
            self@.timestamp.can_be_written() ==> r is Ok,
    {
        let time_text = match self.timestamp.to_wire_text() {
            Some(t) => t,
            None => {
                return Err(PacketError::SerializationFailed);
            },
        };
        let mut out: Vec<u8> = Vec::new();
        let none: Vec<u8> = Vec::new();
        write_packet(&mut out, self, time_text.as_str(), none.as_slice());
        let signed = self.signature.len();
        proof {
            assert(none@ =~= Seq::<u8>::empty());
            assert((PacketView { signature: none@, ..self@ }) == unsigned(self@));
            assert(out@ =~= packet_bytes(unsigned(self@), time_text@));
            assert(packet_fits(unsigned(self@)));
            assert(self@.signature.len() == signed);
        }
        Ok(out)
    }

    /// Reads a packet from the wire and holds it to the limits: at most
    /// 128 KB in all, at most 64 KB of ciphertext, a signature of at most
    /// 64 bytes, and keys of the sender that are absent or of 32 bytes.
    pub fn from_bytes(bytes: &[u8]) -> (r: Result<Packet, PacketError>)
        ensures
            packet_result_view(r) == from_bytes_verdict(bytes@),
    {
        if bytes.len() > MAX_PACKET_SIZE {
            return Err(PacketError::PacketTooLarge(bytes.len()));
        }
        assert(bytes@.skip(0) =~= bytes@);
        let packet = match read_packet(bytes, 0) {
            Some((p, next)) => {
                if next != bytes.len() {
                    return Err(PacketError::DeserializationFailed);
                }
                p
            },
            None => {
                return Err(PacketError::DeserializationFailed);
            },
        };
        if packet.encrypted_payload.ciphertext.len() > MAX_ENCRYPTED_PAYLOAD {
            return Err(PacketError::PacketTooLarge(packet.encrypted_payload.ciphertext.len()));
        }
        if packet.signature.len() > 64 {
            return Err(PacketError::InvalidSignature);
        }
        if packet.sender_public_key.len() != 0 && packet.sender_public_key.len() != 32 {
            return Err(PacketError::InvalidSenderKey);
        }
        if packet.sender_x25519_public_key.len() != 0 && packet.sender_x25519_public_key.len()
            != 32 {
            return Err(PacketError::InvalidSenderKey);
        }
        Ok(packet)
    }

    /// Builds the packet that carries `message` from `sender` to the
    /// holder of `receiver_public_key`, with the given ephemeral secret
    /// key and nonce: the message is encrypted to the receiver, the
    /// priority follows the kind of message, the packet starts with no hops,
    /// 3600 seconds to live and 10 hops to make, and the sender signs it.
    /// The receiver opens the packet to the message.
    pub fn seal(
        message: &Message,
        sender: &Identity,
        receiver_public_key: &[u8],
        ephemeral_secret: &[u8; 32],
        nonce: [u8; 24],
    ) -> (r: Result<Packet, PacketError>)
        ensures
            packet_result_view(r) == sealing(
                message@,
                *sender,
                receiver_public_key@,
                ephemeral_secret@,
                nonce@,
            ),
            r matches Ok(p) ==> opens_for(p@, message@, *sender, receiver_public_key@),
            r matches Ok(p) ==> survives(p@),
            r matches Ok(p) ==> p@.signature.len() == 64 && p@.sender_public_key.len() == 32
                && p@.hops == 0,
            can_seal(message@, *sender, receiver_public_key@) ==> r is Ok,
    {
        let plain = match message.encode() {
            Some(b) => b,
            None => {
                return Err(PacketError::SerializationFailed);
            },
        };
        let receiver: [u8; 32] = match array_from_slice::<32>(receiver_public_key) {
            Some(k) => k,
            None => {
                return Err(PacketError::InvalidReceiverKey);
            },
        };
        let ephemeral_public = Crypto::public_key_of(ephemeral_secret);
        let sealed = match Crypto::encrypt_payload_with_nonce(
            ephemeral_secret,
            &ephemeral_public,
            &receiver,
            nonce,
            plain.as_slice(),
        ) {
            Ok(e) => e,
            Err(e) => {
                return Err(PacketError::CryptoError(e));
            },
        };
        let x_public: Vec<u8> = match sender.x25519_public_bytes() {
            Some(k) => array_to_vec(&k),
            None => Vec::new(),
        };
        let mut packet = Packet {
            message_id: message.id.clone(),
            sender_id: message.sender_id.clone(),
            sender_public_key: array_to_vec(&sender.public_key_bytes()),
            sender_x25519_public_key: x_public,
            timestamp: message.timestamp,
            ttl: DEFAULT_TTL_SECONDS,
            hops: 0,
            max_hops: DEFAULT_MAX_HOPS,
            priority: Priority::of(message.message_type),
            encrypted_payload: sealed,
            signature: Vec::new(),
        };
        let ghost draft = draft_packet(message@, *sender, packet.encrypted_payload@);
        assert(packet@.sender_x25519_public_key =~= draft.sender_x25519_public_key);
        assert(packet@.signature =~= draft.signature);
        assert(packet@ == draft);
        let data = packet.get_signing_data()?;
        assert(unsigned(draft) == draft);
        let signature = match sender.sign(data.as_slice()) {
            Ok(s) => s,
            Err(e) => {
                return Err(PacketError::IdentityError(e));
            },
        };
        packet.signature = array_to_vec(&signature);
        proof {
            let p = packet@;
            assert(unsigned(p) == draft);
            assert(writable(draft));
            assert(p.signature.len() == 64);
            assert(writable(p));
            lemma_written_packet_is_read(p);
            assert(p.sender_public_key.len() == 32);
            assert(p.sender_x25519_public_key.len() == 0 || p.sender_x25519_public_key.len()
                == 32);
            if sender.wf() && sender.ident() == message@.sender_id {
                assert forall|receiver_secret: Seq<u8>|
                    #![trigger x25519_public(receiver_secret)]
                    receiver_secret.len() == 32 && x25519_public(receiver_secret)
                        == receiver_public_key@ implies opening(
                    p,
                    Some(receiver_secret),
                ) == Ok::<MessageView, PacketError>(message@) by {
                    assert(decrypt_result(
                        receiver_secret,
                        p.encrypted_payload.sender_public_key,
                        p.encrypted_payload,
                    ) == Ok::<Seq<u8>, CryptoError>(plain@));
                }
            }
        }
        Ok(packet)
    }

    /// Builds the packet that carries `message` from `sender_identity`
    /// to the holder of `receiver_public_key`, under a fresh ephemeral key
    /// and a fresh nonce. Whatever was drawn, the result is what `seal`
    /// gives for it, and the receiver opens the packet to the message.
    pub fn from_message(
        message: &Message,
        sender_identity: &Identity,
        receiver_public_key: &[u8],
    ) -> (r: Result<Packet, PacketError>)
        ensures
            exists|ephemeral_secret: Seq<u8>, nonce: Seq<u8>|
                ephemeral_secret.len() == 32 && nonce.len() == 24 && packet_result_view(r)
                    == #[trigger] sealing(
                    message@,
                    *sender_identity,
                    receiver_public_key@,
                    ephemeral_secret,
                    nonce,
                ),
            r matches Ok(p) ==> opens_for(p@, message@, *sender_identity, receiver_public_key@),
            r matches Ok(p) ==> survives(p@),
            r matches Ok(p) ==> p@.signature.len() == 64 && p@.sender_public_key.len() == 32
                && p@.hops == 0,
            can_seal(message@, *sender_identity, receiver_public_key@) ==> r is Ok,
    {
        let ephemeral_secret = random_array::<32>();
        let nonce = random_array::<24>();
        let r = Packet::seal(
            message,
            sender_identity,
            receiver_public_key,
            &ephemeral_secret,
            nonce,
        );
        assert(packet_result_view(r) == sealing(
            message@,
            *sender_identity,
            receiver_public_key@,
            ephemeral_secret@,
            nonce@,
        ));
        r
    }

    /// Opens the packet as the receiver: the keys and the signature of
    /// the sender are checked, the identifier of the sender is held to its
    /// key, and the message is decrypted with the X25519 secret key of the
    /// receiver and read.
    pub fn decrypt(&self, receiver_identity: &Identity) -> (r: Result<Message, PacketError>)
        ensures
            message_result_view(r) == opening(self@, receiver_identity.agreement_secret()),
    {
        let sender_identity = match Identity::from_bytes(self.sender_public_key.as_slice()) {
            Ok(i) => i,
            Err(_) => {
                return Err(PacketError::InvalidSenderKey);
            },
        };
        let data = self.get_signing_data()?;
        let signature: [u8; 64] = match array_from_slice::<64>(self.signature.as_slice()) {
            Some(s) => s,
            None => {
                return Err(PacketError::InvalidSignature);
            },
        };
        match sender_identity.verify(data.as_slice(), &signature) {
            Ok(()) => {},
            Err(e) => {
                return Err(PacketError::IdentityError(e));
            },
        }
        if !str_eq(sender_identity.id(), self.sender_id.as_str()) {
            return Err(PacketError::InvalidSenderKey);
        }
        let sender_ephemeral: [u8; 32] = match array_from_slice::<32>(
            self.encrypted_payload.sender_public_key.as_slice(),
        ) {
            Some(k) => k,
            None => {
                return Err(PacketError::InvalidSenderKey);
            },
        };
        let receiver_private = match receiver_identity.x25519_secret() {
            Some(k) => k,
            None => {
                return Err(PacketError::CryptoError(CryptoError::InvalidKey));
            },
        };
        let plain = match Crypto::decrypt_payload(
            receiver_private,
            &sender_ephemeral,
            &self.encrypted_payload,
        ) {
            Ok(p) => p,
            Err(e) => {
                return Err(PacketError::CryptoError(e));
            },
        };
        match Message::decode(plain.as_slice()) {
            Some(m) => Ok(m),
            None => Err(PacketError::DeserializationFailed),
        }
    }

    /// Whether the packet may go on at `now`: it has hops left and has
    /// not outlived its time. Both are judged at the one instant given.
    pub fn can_be_forwarded(&self, now: &Timestamp) -> (r: bool)
        ensures
            r == forwardable(self@, *now),
    {
        let alive = !now.elapsed_at_least(&self.timestamp, self.ttl);
        alive && self.hops < self.max_hops
    }

    /// Counts one more hop.
    pub fn increment_hops(&mut self)
        requires
            old(self).hops < u32::MAX,
        ensures
            final(self)@ == (PacketView { hops: (old(self).hops + 1) as u32, ..old(self)@ }),
    {
        self.hops = self.hops + 1;
    }
}

/// Two packets with the same hops, hop limit, time of making and time to
/// live are judged alike at one instant, whatever else they hold.
pub proof fn lemma_forwardable_depends_on_four_fields(p: PacketView, q: PacketView, now: Timestamp)
    requires
        p.hops == q.hops,
        p.max_hops == q.max_hops,
        p.timestamp == q.timestamp,
        p.ttl == q.ttl,
    ensures
        forwardable(p, now) == forwardable(q, now),
{
}

} // verus!
