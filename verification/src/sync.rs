//! Gossip: repair of the stores of two peers by an exchange of digests.
//!
//! A gossip message travels as the text of an ordinary encrypted
//! message: the prefix `__gossip__:` and then the message on the wire in
//! base64. An observer of the network cannot tell it from other traffic.

use crate::hash::{sha256, sha256_digest};
use crate::identity::Identity;
use crate::message::{
    lemma_message_round_trip, message_fits, message_of_bytes, message_wire, parse_message,
    read_message, write_message, Message, MessagePayload, MessageType, MessageView,
};
use crate::packet::Packet;
use crate::routing::DtnRouter;
use crate::storage::{
    decoded, has_seen, held, lemma_stored_is_offered, messages_view, offered_all, picked_rows,
    row_of, Storage, StorageError,
};
use crate::text::{
    base64_bytes, base64_decode, base64_encode, base64_text, fresh_uuid, uuid_parses,
};
use crate::time::{wire_instant, wire_time_text, Timestamp};
use crate::transport::{Peer, TransportError};
use crate::wire::{
    array_from_slice, bytes_field_bytes, head_bytes, lemma_bytes_field_round_trip,
    lemma_count_round_trip, lemma_key_round_trip, lemma_text_field_round_trip,
    lemma_text_round_trip, lemma_uint_field_round_trip, lemma_utf8_len_bound, parse_bytes_field,
    parse_count, parse_key, parse_text, parse_text_field, parse_uint_field, read_bytes_field,
    read_count, read_key, read_text, read_text_field, read_uint_field, str_eq, text_bytes,
    text_field_bytes, text_fits, uint_field_bytes, write_bytes_field, write_head, write_text,
    write_text_field, write_uint_field, MAJOR_ARRAY, MAJOR_MAP,
};
use vstd::hash_map::StringHashMap;
use vstd::prelude::*;

verus! {

/// Seconds between two exchanges with one peer, at the least.
pub const SYNC_INTERVAL_SECONDS: u32 = 300;

/// Seconds that the first request to a peer looks back.
pub const FIRST_SYNC_WINDOW_SECONDS: i64 = 86_400;

/// Most digests that are asked for at once.
pub const MAX_DIGESTS: usize = 100;

/// What stands for a message in the exchange.
#[derive(Debug)]
pub struct MessageDigest {
    /// Identifier of the message.
    pub message_id: String,
    /// Identifier of the sender.
    pub sender_id: String,
    /// When the message was made.
    pub timestamp: Timestamp,
    /// SHA-256 of the message on the wire.
    pub hash: [u8; 32],
}

/// A digest as a mathematical value.
pub struct DigestView {
    pub message_id: Seq<char>,
    pub sender_id: Seq<char>,
    pub timestamp: Timestamp,
    pub hash: Seq<u8>,
}

impl View for MessageDigest {
    type V = DigestView;

    open spec fn view(&self) -> DigestView {
        DigestView {
            message_id: self.message_id@,
            sender_id: self.sender_id@,
            timestamp: self.timestamp,
            hash: self.hash@,
        }
    }
}

/// A message of the exchange.
#[derive(Debug)]
pub enum GossipMessage {
    /// Asks for the digests of the messages that were stored after `since`.
    DigestRequest { since: Timestamp, max_count: usize },
    /// Gives digests.
    DigestResponse { digests: Vec<MessageDigest> },
    /// Asks for messages by their identifiers.
    MessageRequest { message_ids: Vec<String> },
    /// Gives messages.
    MessageResponse { messages: Vec<Message> },
}

/// A message of the exchange as a mathematical value.
pub enum GossipView {
    DigestRequest { since: Timestamp, max_count: usize },
    DigestResponse { digests: Seq<DigestView> },
    MessageRequest { message_ids: Seq<Seq<char>> },
    MessageResponse { messages: Seq<MessageView> },
}

/// The digests of a vector as mathematical values.
pub open spec fn digests_view(v: Seq<MessageDigest>) -> Seq<DigestView> {
    Seq::new(v.len(), |i: int| v[i]@)
}

/// The texts of a vector as mathematical values.
pub open spec fn texts_view(v: Seq<String>) -> Seq<Seq<char>> {
    Seq::new(v.len(), |i: int| v[i]@)
}

impl View for GossipMessage {
    type V = GossipView;

    open spec fn view(&self) -> GossipView {
        match self {
            GossipMessage::DigestRequest { since, max_count } => GossipView::DigestRequest {
                since: *since,
                max_count: *max_count,
            },
            GossipMessage::DigestResponse { digests } => GossipView::DigestResponse {
                digests: digests_view(digests@),
            },
            GossipMessage::MessageRequest { message_ids } => GossipView::MessageRequest {
                message_ids: texts_view(message_ids@),
            },
            GossipMessage::MessageResponse { messages } => GossipView::MessageResponse {
                messages: messages_view(messages@),
            },
        }
    }
}

/// Counts of the exchange.
#[derive(Clone, Copy, Debug, Default, PartialEq, Eq, Structural)]
pub struct GossipStats {
    pub sync_sessions: u64,
    pub messages_exchanged: u64,
    pub failed_syncs: u64,
}

/// Why the exchange failed.
#[derive(Debug)]
pub enum GossipError {
    /// A message cannot be written, read or sent.
    SerializationFailed,
    /// The store refused.
    StorageError(StorageError),
    /// The link refused.
    TransportError(TransportError),
    /// A digest does not belong to its message.
    DigestVerificationFailed,
}

impl GossipError {
    /// The error in words.
    pub open spec fn words(self) -> Seq<char> {
        match self {
            GossipError::SerializationFailed => "Serialization failed"@,
            GossipError::StorageError(e) => "Storage error: "@ + e.words(),
            GossipError::TransportError(e) => "Transport error: "@ + e.words(),
            GossipError::DigestVerificationFailed => "Digest verification failed"@,
        }
    }

    /// The error in words, as a text.
    pub fn to_string(&self) -> (r: String)
        ensures
            r@ == self.words(),
    {
        match self {
            GossipError::SerializationFailed => "Serialization failed".to_string(),
            GossipError::StorageError(e) => "Storage error: ".to_string().concat(
                e.to_string().as_str(),
            ),
            GossipError::TransportError(e) => "Transport error: ".to_string().concat(
                e.to_string().as_str(),
            ),
            GossipError::DigestVerificationFailed => "Digest verification failed".to_string(),
        }
    }
}

/// The digest of a message, where the message can be written.
pub open spec fn digest_of(m: MessageView) -> Option<DigestView> {
    match message_wire(m) {
        Some(bytes) => Some(
            DigestView {
                message_id: m.id,
                sender_id: m.sender_id,
                timestamp: m.timestamp,
                hash: sha256_digest(bytes),
            },
        ),
        None => None,
    }
}

/// A digest on the wire with `time_text` for its time: a map of four
/// entries in the order message_id, sender_id, timestamp, hash.
pub open spec fn digest_bytes(d: DigestView, time_text: Seq<char>) -> Seq<u8> {
    head_bytes(MAJOR_MAP, 4) + (text_field_bytes("message_id"@, d.message_id) + (text_field_bytes(
        "sender_id"@,
        d.sender_id,
    ) + (text_field_bytes("timestamp"@, time_text) + bytes_field_bytes("hash"@, d.hash))))
}

/// A digest on the wire, where its time can be written.
pub open spec fn digest_wire(d: DigestView) -> Option<Seq<u8>> {
    match wire_time_text(d.timestamp.secs, d.timestamp.nanos) {
        Some(t) => Some(digest_bytes(d, t)),
        None => None,
    }
}

/// Reads a digest from the front of `s`.
pub open spec fn parse_digest(s: Seq<u8>) -> Option<(DigestView, Seq<u8>)> {
    match parse_count(s, MAJOR_MAP) {
        Some((n, s1)) => if n != 4 {
            None
        } else {
            match parse_text_field(s1, "message_id"@) {
                Some((message_id, s2)) => match parse_text_field(s2, "sender_id"@) {
                    Some((sender_id, s3)) => match parse_text_field(s3, "timestamp"@) {
                        Some((time_text, s4)) => match wire_instant(time_text) {
                            Some((secs, nanos)) => match parse_bytes_field(s4, "hash"@) {
                                Some((hash, s5)) => if hash.len() == 32 {
                                    Some(
                                        (
                                            DigestView {
                                                message_id,
                                                sender_id,
                                                timestamp: Timestamp { secs, nanos },
                                                hash,
                                            },
                                            s5,
                                        ),
                                    )
                                } else {
                                    None
                                },
                                None => None,
                            },
                            None => None,
                        },
                        None => None,
                    },
                    None => None,
                },
                None => None,
            }
        },
        None => None,
    }
}

/// The items of a list on the wire, one after the other, where each can
/// be written.
pub open spec fn joined(items: Seq<Option<Seq<u8>>>) -> Option<Seq<u8>>
    decreases items.len(),
{
    if items.len() == 0 {
        Some(Seq::<u8>::empty())
    } else {
        match (joined(items.drop_last()), items.last()) {
            (Some(a), Some(b)) => Some(a + b),
            _ => None,
        }
    }
}

/// A list on the wire: an array of `count` items.
pub open spec fn list_wire(items: Seq<Option<Seq<u8>>>) -> Option<Seq<u8>> {
    match joined(items) {
        Some(body) => Some(head_bytes(MAJOR_ARRAY, items.len() as u64) + body),
        None => None,
    }
}

/// Reads `count` digests from the front of `s`.
pub open spec fn parse_digests(s: Seq<u8>, count: nat) -> Option<(Seq<DigestView>, Seq<u8>)>
    decreases count,
{
    if count == 0 {
        Some((Seq::<DigestView>::empty(), s))
    } else {
        match parse_digest(s) {
            Some((d, rest)) => match parse_digests(rest, (count - 1) as nat) {
                Some((tail, after)) => Some((seq![d] + tail, after)),
                None => None,
            },
            None => None,
        }
    }
}

/// Reads `count` texts from the front of `s`.
pub open spec fn parse_texts(s: Seq<u8>, count: nat) -> Option<(Seq<Seq<char>>, Seq<u8>)>
    decreases count,
{
    if count == 0 {
        Some((Seq::<Seq<char>>::empty(), s))
    } else {
        match parse_text(s) {
            Some((t, rest)) => match parse_texts(rest, (count - 1) as nat) {
                Some((tail, after)) => Some((seq![t] + tail, after)),
                None => None,
            },
            None => None,
        }
    }
}

/// Reads `count` messages from the front of `s`.
pub open spec fn parse_messages(s: Seq<u8>, count: nat) -> Option<(Seq<MessageView>, Seq<u8>)>
    decreases count,
{
    if count == 0 {
        Some((Seq::<MessageView>::empty(), s))
    } else {
        match parse_message(s) {
            Some((m, rest)) => match parse_messages(rest, (count - 1) as nat) {
                Some((tail, after)) => Some((seq![m] + tail, after)),
                None => None,
            },
            None => None,
        }
    }
}

/// The body of a gossip message on the wire, behind the name of its kind.
pub open spec fn gossip_body_wire(g: GossipView) -> Option<Seq<u8>> {
    match g {
        GossipView::DigestRequest { since, max_count } => match wire_time_text(
            since.secs,
            since.nanos,
        ) {
            Some(t) => Some(
                head_bytes(MAJOR_MAP, 2) + (text_field_bytes("since"@, t) + uint_field_bytes(
                    "max_count"@,
                    max_count as u64,
                )),
            ),
            None => None,
        },
        GossipView::DigestResponse { digests } => match list_wire(
            Seq::new(digests.len(), |i: int| digest_wire(digests[i])),
        ) {
            Some(list) => Some(head_bytes(MAJOR_MAP, 1) + (text_bytes("digests"@) + list)),
            None => None,
        },
        GossipView::MessageRequest { message_ids } => match list_wire(
            Seq::new(message_ids.len(), |i: int| Some(text_bytes(message_ids[i]))),
        ) {
            Some(list) => Some(head_bytes(MAJOR_MAP, 1) + (text_bytes("message_ids"@) + list)),
            None => None,
        },
        GossipView::MessageResponse { messages } => match list_wire(
            Seq::new(messages.len(), |i: int| message_wire(messages[i])),
        ) {
            Some(list) => Some(head_bytes(MAJOR_MAP, 1) + (text_bytes("messages"@) + list)),
            None => None,
        },
    }
}

/// The name of the kind of a gossip message on the wire.
pub open spec fn gossip_name(g: GossipView) -> Seq<char> {
    match g {
        GossipView::DigestRequest { .. } => "DigestRequest"@,
        GossipView::DigestResponse { .. } => "DigestResponse"@,
        GossipView::MessageRequest { .. } => "MessageRequest"@,
        GossipView::MessageResponse { .. } => "MessageResponse"@,
    }
}

/// A gossip message on the wire: a map of one entry, whose key names the
/// kind and whose value is a map of the fields.
pub open spec fn gossip_wire(g: GossipView) -> Option<Seq<u8>> {
    match gossip_body_wire(g) {
        Some(body) => Some(head_bytes(MAJOR_MAP, 1) + (text_bytes(gossip_name(g)) + body)),
        None => None,
    }
}

/// Reads the body of a gossip message of the kind `name`.
pub open spec fn parse_gossip_body(name: Seq<char>, s: Seq<u8>) -> Option<(GossipView, Seq<u8>)> {
    if name == "DigestRequest"@ {
        match parse_count(s, MAJOR_MAP) {
            Some((n, s1)) => if n != 2 {
                None
            } else {
                match parse_text_field(s1, "since"@) {
                    Some((t, s2)) => match wire_instant(t) {
                        Some((secs, nanos)) => match parse_uint_field(s2, "max_count"@) {
                            Some((max_count, s3)) => if max_count <= usize::MAX {
                                Some(
                                    (
                                        GossipView::DigestRequest {
                                            since: Timestamp { secs, nanos },
                                            max_count: max_count as usize,
                                        },
                                        s3,
                                    ),
                                )
                            } else {
                                None
                            },
                            None => None,
                        },
                        None => None,
                    },
                    None => None,
                }
            },
            None => None,
        }
    } else {
        match parse_count(s, MAJOR_MAP) {
            Some((n, s1)) => if n != 1 {
                None
            } else if name == "DigestResponse"@ {
                match parse_key(s1, "digests"@) {
                    Some(s2) => match parse_count(s2, MAJOR_ARRAY) {
                        Some((count, s3)) => match parse_digests(s3, count as nat) {
                            Some((digests, s4)) => Some(
                                (GossipView::DigestResponse { digests }, s4),
                            ),
                            None => None,
                        },
                        None => None,
                    },
                    None => None,
                }
            } else if name == "MessageRequest"@ {
                match parse_key(s1, "message_ids"@) {
                    Some(s2) => match parse_count(s2, MAJOR_ARRAY) {
                        Some((count, s3)) => match parse_texts(s3, count as nat) {
                            Some((message_ids, s4)) => Some(
                                (GossipView::MessageRequest { message_ids }, s4),
                            ),
                            None => None,
                        },
                        None => None,
                    },
                    None => None,
                }
            } else if name == "MessageResponse"@ {
                match parse_key(s1, "messages"@) {
                    Some(s2) => match parse_count(s2, MAJOR_ARRAY) {
                        Some((count, s3)) => match parse_messages(s3, count as nat) {
                            Some((messages, s4)) => Some(
                                (GossipView::MessageResponse { messages }, s4),
                            ),
                            None => None,
                        },
                        None => None,
                    },
                    None => None,
                }
            } else {
                None
            },
            None => None,
        }
    }
}

/// The gossip message that `bytes` hold, where they hold one and nothing
/// else.
pub open spec fn gossip_of_bytes(bytes: Seq<u8>) -> Option<GossipView> {
    match parse_count(bytes, MAJOR_MAP) {
        Some((n, s1)) => if n != 1 {
            None
        } else {
            match parse_text(s1) {
                Some((name, s2)) => match parse_gossip_body(name, s2) {
                    Some((g, rest)) => if rest.len() == 0 {
                        Some(g)
                    } else {
                        None
                    },
                    None => None,
                },
                None => None,
            }
        },
        None => None,
    }
}

/// Whether the time is written so that it is read back.
pub open spec fn time_writes(t: Timestamp) -> bool {
    wire_time_text(t.secs, t.nanos) matches Some(x) && text_fits(x) && wire_instant(x) == Some(
        (t.secs, t.nanos),
    )
}

/// Whether a digest is written so that it is read back: its lengths can
/// be written, its hash is of 32 bytes, and the calendar holds its time.
pub open spec fn digest_writable(d: DigestView) -> bool {
    &&& text_fits(d.message_id)
    &&& text_fits(d.sender_id)
    &&& d.hash.len() == 32
    &&& time_writes(d.timestamp)
}

/// Whether a message is written so that it is read back.
pub open spec fn message_writable(m: MessageView) -> bool {
    message_fits(m) && time_writes(m.timestamp)
}

/// Whether a gossip message is written so that it is read back.
pub open spec fn gossip_writable(g: GossipView) -> bool {
    match g {
        GossipView::DigestRequest { since, max_count } => time_writes(since),
        GossipView::DigestResponse { digests } => digests.len() <= u64::MAX && forall|i: int|
            0 <= i < digests.len() ==> digest_writable(#[trigger] digests[i]),
        GossipView::MessageRequest { message_ids } => message_ids.len() <= u64::MAX && forall|
            i: int,
        |
            0 <= i < message_ids.len() ==> text_fits(#[trigger] message_ids[i]),
        GossipView::MessageResponse { messages } => messages.len() <= u64::MAX && forall|i: int|
            0 <= i < messages.len() ==> message_writable(#[trigger] messages[i]),
    }
}

/// A digest that is written and read again is the same.
pub proof fn lemma_digest_round_trip(d: DigestView, rest: Seq<u8>)
    requires
        digest_writable(d),
    ensures
        digest_wire(d) matches Some(b) && parse_digest(b + rest) == Some((d, rest)),
{
    reveal_strlit("message_id");
    reveal_strlit("sender_id");
    reveal_strlit("timestamp");
    reveal_strlit("hash");
    lemma_utf8_len_bound("message_id"@);
    lemma_utf8_len_bound("sender_id"@);
    lemma_utf8_len_bound("timestamp"@);
    lemma_utf8_len_bound("hash"@);
    let t = wire_time_text(d.timestamp.secs, d.timestamp.nanos)->0;
    let f4 = bytes_field_bytes("hash"@, d.hash) + rest;
    let f3 = text_field_bytes("timestamp"@, t) + f4;
    let f2 = text_field_bytes("sender_id"@, d.sender_id) + f3;
    let f1 = text_field_bytes("message_id"@, d.message_id) + f2;
    assert(digest_bytes(d, t) + rest =~= head_bytes(MAJOR_MAP, 4) + f1);
    lemma_count_round_trip(MAJOR_MAP, 4, f1);
    lemma_text_field_round_trip("message_id"@, d.message_id, f2);
    lemma_text_field_round_trip("sender_id"@, d.sender_id, f3);
    lemma_text_field_round_trip("timestamp"@, t, f4);
    lemma_bytes_field_round_trip("hash"@, d.hash, rest);
}

proof fn lemma_joined_front(items: Seq<Option<Seq<u8>>>)
    requires
        items.len() > 0,
        joined(items) is Some,
    ensures
        items[0] is Some,
        joined(items.skip(1)) is Some,
        joined(items)->0 == items[0]->0 + joined(items.skip(1))->0,
    decreases items.len(),
{
    if items.len() == 1 {
        assert(items.drop_last() =~= Seq::<Option<Seq<u8>>>::empty());
        assert(items.skip(1) =~= Seq::<Option<Seq<u8>>>::empty());
        assert(items.last() == items[0]);
        assert(joined(items.drop_last()) == Some(Seq::<u8>::empty()));
        assert(joined(items.skip(1)) == Some(Seq::<u8>::empty()));
        assert(Seq::<u8>::empty() + items[0]->0 =~= items[0]->0 + Seq::<u8>::empty());
    } else {
        let t = items.drop_last();
        lemma_joined_front(t);
        assert(t[0] == items[0]);
        assert(t.skip(1) =~= items.skip(1).drop_last());
        assert(items.skip(1).last() == items.last());
        assert((items[0]->0 + joined(t.skip(1))->0) + items.last()->0 =~= items[0]->0 + (joined(
            t.skip(1),
        )->0 + items.last()->0));
    }
}

proof fn lemma_joined_all(items: Seq<Option<Seq<u8>>>)
    requires
        forall|i: int| 0 <= i < items.len() ==> (#[trigger] items[i]) is Some,
    ensures
        joined(items) is Some,
    decreases items.len(),
{
    if items.len() > 0 {
        assert forall|i: int| 0 <= i < items.drop_last().len() implies (
        #[trigger] items.drop_last()[i]) is Some by {
            assert(items.drop_last()[i] == items[i]);
        }
        lemma_joined_all(items.drop_last());
        assert(items.last() == items[items.len() - 1]);
    }
}

/// Digests that are written one after the other are read again as they
/// were.
pub proof fn lemma_digests_round_trip(ds: Seq<DigestView>, rest: Seq<u8>)
    requires
        forall|i: int| 0 <= i < ds.len() ==> digest_writable(#[trigger] ds[i]),
    ensures
        joined(digest_items(ds)) matches Some(body) && parse_digests(body + rest, ds.len())
            == Some((ds, rest)),
    decreases ds.len(),
{
    let items = digest_items(ds);
    assert forall|i: int| 0 <= i < items.len() implies (#[trigger] items[i]) is Some by {
        assert(digest_writable(ds[i]));
    }
    lemma_joined_all(items);
    let body = joined(items)->0;
    if ds.len() == 0 {
        assert(body + rest =~= rest);
        assert(ds =~= Seq::<DigestView>::empty());
    } else {
        lemma_joined_front(items);
        let tail = ds.skip(1);
        assert(digest_items(tail) =~= items.skip(1));
        assert forall|i: int| 0 <= i < tail.len() implies digest_writable(#[trigger] tail[i]) by {
            assert(tail[i] == ds[i + 1]);
        }
        lemma_digests_round_trip(tail, rest);
        let after = joined(items.skip(1))->0 + rest;
        assert(digest_writable(ds[0]));
        lemma_digest_round_trip(ds[0], after);
        assert(body + rest =~= items[0]->0 + after);
        assert(seq![ds[0]] + tail =~= ds);
    }
}

/// Texts that are written one after the other are read again as they
/// were.
pub proof fn lemma_texts_round_trip(ts: Seq<Seq<char>>, rest: Seq<u8>)
    requires
        forall|i: int| 0 <= i < ts.len() ==> text_fits(#[trigger] ts[i]),
    ensures
        joined(text_items(ts)) matches Some(body) && parse_texts(body + rest, ts.len()) == Some(
            (ts, rest),
        ),
    decreases ts.len(),
{
    let items = text_items(ts);
    lemma_joined_all(items);
    let body = joined(items)->0;
    if ts.len() == 0 {
        assert(body + rest =~= rest);
        assert(ts =~= Seq::<Seq<char>>::empty());
    } else {
        lemma_joined_front(items);
        let tail = ts.skip(1);
        assert(text_items(tail) =~= items.skip(1));
        assert forall|i: int| 0 <= i < tail.len() implies text_fits(#[trigger] tail[i]) by {
            assert(tail[i] == ts[i + 1]);
        }
        lemma_texts_round_trip(tail, rest);
        let after = joined(items.skip(1))->0 + rest;
        assert(text_fits(ts[0]));
        lemma_text_round_trip(ts[0], after);
        assert(body + rest =~= items[0]->0 + after);
        assert(seq![ts[0]] + tail =~= ts);
    }
}

/// Messages that are written one after the other are read again as they
/// were.
pub proof fn lemma_messages_round_trip(ms: Seq<MessageView>, rest: Seq<u8>)
    requires
        forall|i: int| 0 <= i < ms.len() ==> message_writable(#[trigger] ms[i]),
    ensures
        joined(message_items(ms)) matches Some(body) && parse_messages(body + rest, ms.len())
            == Some((ms, rest)),
    decreases ms.len(),
{
    let items = message_items(ms);
    assert forall|i: int| 0 <= i < items.len() implies (#[trigger] items[i]) is Some by {
        assert(message_writable(ms[i]));
    }
    lemma_joined_all(items);
    let body = joined(items)->0;
    if ms.len() == 0 {
        assert(body + rest =~= rest);
        assert(ms =~= Seq::<MessageView>::empty());
    } else {
        lemma_joined_front(items);
        let tail = ms.skip(1);
        assert(message_items(tail) =~= items.skip(1));
        assert forall|i: int| 0 <= i < tail.len() implies message_writable(#[trigger] tail[i]) by {
            assert(tail[i] == ms[i + 1]);
        }
        lemma_messages_round_trip(tail, rest);
        let after = joined(items.skip(1))->0 + rest;
        assert(message_writable(ms[0]));
        let t = wire_time_text(ms[0].timestamp.secs, ms[0].timestamp.nanos)->0;
        lemma_message_round_trip(ms[0], t, after);
        assert(body + rest =~= items[0]->0 + after);
        assert(seq![ms[0]] + tail =~= ms);
    }
}

/// A gossip message that is written and read again is the same.
pub proof fn lemma_gossip_round_trip(g: GossipView)
    requires
        gossip_writable(g),
    ensures
        gossip_wire(g) matches Some(b) && gossip_of_bytes(b) == Some(g),
{
    reveal_strlit("DigestRequest");
    reveal_strlit("DigestResponse");
    reveal_strlit("MessageRequest");
    reveal_strlit("MessageResponse");
    reveal_strlit("since");
    reveal_strlit("max_count");
    reveal_strlit("digests");
    reveal_strlit("message_ids");
    reveal_strlit("messages");
    lemma_utf8_len_bound(gossip_name(g));
    lemma_utf8_len_bound("since"@);
    lemma_utf8_len_bound("max_count"@);
    lemma_utf8_len_bound("digests"@);
    lemma_utf8_len_bound("message_ids"@);
    lemma_utf8_len_bound("messages"@);
    assert("DigestRequest"@.len() == 13);
    assert("DigestResponse"@.len() == 14);
    assert("MessageRequest"@.len() == 14);
    assert("MessageResponse"@.len() == 15);
    assert("DigestResponse"@[0] == 'D');
    assert("MessageRequest"@[0] == 'M');
    let name = gossip_name(g);
    let empty = Seq::<u8>::empty();
    match g {
        GossipView::DigestRequest { since, max_count } => {
            let t = wire_time_text(since.secs, since.nanos)->0;
            let f2 = uint_field_bytes("max_count"@, max_count as u64) + empty;
            let f1 = text_field_bytes("since"@, t) + f2;
            let body = head_bytes(MAJOR_MAP, 2) + f1;
            let whole = head_bytes(MAJOR_MAP, 1) + (text_bytes(name) + body);
            assert(gossip_wire(g)->0 =~= whole);
            lemma_count_round_trip(MAJOR_MAP, 1, text_bytes(name) + body);
            lemma_text_round_trip(name, body);
            lemma_count_round_trip(MAJOR_MAP, 2, f1);
            lemma_text_field_round_trip("since"@, t, f2);
            lemma_uint_field_round_trip("max_count"@, max_count as u64, empty);
        },
        GossipView::DigestResponse { digests } => {
            let items = Seq::new(digests.len(), |i: int| digest_wire(digests[i]));
            assert(items =~= digest_items(digests));
            lemma_digests_round_trip(digests, empty);
            let list = joined(items)->0 + empty;
            let l1 = head_bytes(MAJOR_ARRAY, digests.len() as u64) + list;
            let l0 = text_bytes("digests"@) + l1;
            let body = head_bytes(MAJOR_MAP, 1) + l0;
            let whole = head_bytes(MAJOR_MAP, 1) + (text_bytes(name) + body);
            assert(gossip_wire(g)->0 =~= whole);
            lemma_count_round_trip(MAJOR_MAP, 1, text_bytes(name) + body);
            lemma_text_round_trip(name, body);
            lemma_count_round_trip(MAJOR_MAP, 1, l0);
            lemma_key_round_trip("digests"@, l1);
            lemma_count_round_trip(MAJOR_ARRAY, digests.len() as u64, list);
        },
        GossipView::MessageRequest { message_ids } => {
            let items = Seq::new(message_ids.len(), |i: int| Some(text_bytes(message_ids[i])));
            assert(items =~= text_items(message_ids));
            lemma_texts_round_trip(message_ids, empty);
            let list = joined(items)->0 + empty;
            let l1 = head_bytes(MAJOR_ARRAY, message_ids.len() as u64) + list;
            let l0 = text_bytes("message_ids"@) + l1;
            let body = head_bytes(MAJOR_MAP, 1) + l0;
            let whole = head_bytes(MAJOR_MAP, 1) + (text_bytes(name) + body);
            assert(gossip_wire(g)->0 =~= whole);
            lemma_count_round_trip(MAJOR_MAP, 1, text_bytes(name) + body);
            lemma_text_round_trip(name, body);
            lemma_count_round_trip(MAJOR_MAP, 1, l0);
            lemma_key_round_trip("message_ids"@, l1);
            lemma_count_round_trip(MAJOR_ARRAY, message_ids.len() as u64, list);
        },
        GossipView::MessageResponse { messages } => {
            let items = Seq::new(messages.len(), |i: int| message_wire(messages[i]));
            assert(items =~= message_items(messages));
            lemma_messages_round_trip(messages, empty);
            let list = joined(items)->0 + empty;
            let l1 = head_bytes(MAJOR_ARRAY, messages.len() as u64) + list;
            let l0 = text_bytes("messages"@) + l1;
            let body = head_bytes(MAJOR_MAP, 1) + l0;
            let whole = head_bytes(MAJOR_MAP, 1) + (text_bytes(name) + body);
            assert(gossip_wire(g)->0 =~= whole);
            lemma_count_round_trip(MAJOR_MAP, 1, text_bytes(name) + body);
            lemma_text_round_trip(name, body);
            lemma_count_round_trip(MAJOR_MAP, 1, l0);
            lemma_key_round_trip("messages"@, l1);
            lemma_count_round_trip(MAJOR_ARRAY, messages.len() as u64, list);
        },
    }
}

fn write_digest(out: &mut Vec<u8>, d: &MessageDigest) -> (ok: bool)
    ensures
        match digest_wire(d@) {
            Some(bytes) => ok && final(out)@ == old(out)@ + bytes,
            None => !ok,
        },
        ok ==> digest_writable(d@),
{
    let time_text = match d.timestamp.to_wire_text() {
        Some(t) => t,
        None => {
            return false;
        },
    };
    write_head(out, MAJOR_MAP, 4);
    write_text_field(out, "message_id", d.message_id.as_str());
    write_text_field(out, "sender_id", d.sender_id.as_str());
    write_text_field(out, "timestamp", time_text.as_str());
    write_bytes_field(out, "hash", d.hash.as_slice());
    assert(out@ =~= old(out)@ + digest_bytes(d@, time_text@));
    true
}

fn read_digest(b: &[u8], pos: usize) -> (r: Option<(MessageDigest, usize)>)
    requires
        pos <= b@.len(),
    ensures
        match r {
            Some((d, next)) => pos < next <= b@.len() && parse_digest(b@.skip(pos as int))
                == Some((d@, b@.skip(next as int))),
            None => parse_digest(b@.skip(pos as int)) is None,
        },
{
    let (n, at1) = match read_count(b, pos, MAJOR_MAP) {
        Some(c) => c,
        None => {
            return None;
        },
    };
    if n != 4 {
        return None;
    }
    let (message_id, at2) = match read_text_field(b, at1, "message_id") {
        Some(v) => v,
        None => {
            return None;
        },
    };
    let (sender_id, at3) = match read_text_field(b, at2, "sender_id") {
        Some(v) => v,
        None => {
            return None;
        },
    };
    let (time_text, at4) = match read_text_field(b, at3, "timestamp") {
        Some(v) => v,
        None => {
            return None;
        },
    };
    let timestamp = match Timestamp::parse_wire(time_text.as_str()) {
        Some(t) => t,
        None => {
            return None;
        },
    };
    let (hash_bytes, at5) = match read_bytes_field(b, at4, "hash") {
        Some(v) => v,
        None => {
            return None;
        },
    };
    let hash: [u8; 32] = match array_from_slice::<32>(hash_bytes.as_slice()) {
        Some(h) => h,
        None => {
            return None;
        },
    };
    Some((MessageDigest { message_id, sender_id, timestamp, hash }, at5))
}

/// A list of which one item cannot be written cannot be written.
proof fn lemma_joined_none(items: Seq<Option<Seq<u8>>>, n: int)
    requires
        0 <= n <= items.len(),
        joined(items.take(n)) is None,
    ensures
        joined(items) is None,
    decreases items.len() - n,
{
    if n < items.len() {
        assert(items.take(n + 1).drop_last() =~= items.take(n));
        lemma_joined_none(items, n + 1);
    } else {
        assert(items.take(n) =~= items);
    }
}

/// The digests on the wire, one for each digest of the list.
pub open spec fn digest_items(digests: Seq<DigestView>) -> Seq<Option<Seq<u8>>> {
    Seq::new(digests.len(), |i: int| digest_wire(digests[i]))
}

/// The texts on the wire, one for each text of the list.
pub open spec fn text_items(texts: Seq<Seq<char>>) -> Seq<Option<Seq<u8>>> {
    Seq::new(texts.len(), |i: int| Some(text_bytes(texts[i])))
}

/// The messages on the wire, one for each message of the list.
pub open spec fn message_items(messages: Seq<MessageView>) -> Seq<Option<Seq<u8>>> {
    Seq::new(messages.len(), |i: int| message_wire(messages[i]))
}

fn write_digests(out: &mut Vec<u8>, digests: &Vec<MessageDigest>) -> (ok: bool)
    ensures
        match list_wire(digest_items(digests_view(digests@))) {
            Some(bytes) => ok && final(out)@ == old(out)@ + bytes,
            None => !ok,
        },
        ok ==> forall|i: int|
            0 <= i < digests@.len() ==> digest_writable(#[trigger] digests_view(digests@)[i]),
{
    let n = digests.len();
    let ghost items = digest_items(digests_view(digests@));
    write_head(out, MAJOR_ARRAY, n as u64);
    let ghost base = out@;
    let mut i: usize = 0;
    assert(items.take(0) =~= Seq::<Option<Seq<u8>>>::empty());
    assert(base + Seq::<u8>::empty() =~= base);
    while i < n
        invariant
            i <= n,
            n == digests@.len(),
            items == digest_items(digests_view(digests@)),
            joined(items.take(i as int)) is Some,
            out@ == base + joined(items.take(i as int))->0,
            forall|j: int| 0 <= j < i ==> digest_writable(#[trigger] digests_view(digests@)[j]),
        decreases n - i,
    {
        assert(digests_view(digests@)[i as int] == digests@[i as int]@);
        assert(items.take(i + 1).drop_last() =~= items.take(i as int));
        assert(items.take(i + 1).last() == items[i as int]);
        assert(items[i as int] == digest_wire(digests@[i as int]@));
        let ghost so_far = joined(items.take(i as int))->0;
        if !write_digest(out, &digests[i]) {
            proof {
                lemma_joined_none(items, i + 1);
            }
            return false;
        }
        assert(out@ =~= base + (so_far + digest_wire(digests@[i as int]@)->0));
        i = i + 1;
    }
    assert(items.take(n as int) =~= items);
    assert(out@ =~= old(out)@ + (head_bytes(MAJOR_ARRAY, n as u64) + joined(items)->0));
    true
}

fn write_texts(out: &mut Vec<u8>, texts: &Vec<String>)
    ensures
        list_wire(text_items(texts_view(texts@))) matches Some(bytes) && final(out)@ == old(out)@
            + bytes,
        forall|i: int| 0 <= i < texts@.len() ==> text_fits(#[trigger] texts_view(texts@)[i]),
{
    let n = texts.len();
    let ghost items = text_items(texts_view(texts@));
    write_head(out, MAJOR_ARRAY, n as u64);
    let ghost base = out@;
    let mut i: usize = 0;
    assert(items.take(0) =~= Seq::<Option<Seq<u8>>>::empty());
    assert(base + Seq::<u8>::empty() =~= base);
    while i < n
        invariant
            i <= n,
            n == texts@.len(),
            items == text_items(texts_view(texts@)),
            joined(items.take(i as int)) is Some,
            out@ == base + joined(items.take(i as int))->0,
            forall|j: int| 0 <= j < i ==> text_fits(#[trigger] texts_view(texts@)[j]),
        decreases n - i,
    {
        assert(texts_view(texts@)[i as int] == texts@[i as int]@);
        assert(items.take(i + 1).drop_last() =~= items.take(i as int));
        assert(items.take(i + 1).last() == items[i as int]);
        assert(items[i as int] == Some(text_bytes(texts@[i as int]@)));
        let ghost so_far = joined(items.take(i as int))->0;
        write_text(out, texts[i].as_str());
        assert(out@ =~= base + (so_far + text_bytes(texts@[i as int]@)));
        i = i + 1;
    }
    assert(items.take(n as int) =~= items);
    assert(out@ =~= old(out)@ + (head_bytes(MAJOR_ARRAY, n as u64) + joined(items)->0));
}

fn write_messages(out: &mut Vec<u8>, messages: &Vec<Message>) -> (ok: bool)
    ensures
        match list_wire(message_items(messages_view(messages@))) {
            Some(bytes) => ok && final(out)@ == old(out)@ + bytes,
            None => !ok,
        },
        ok ==> forall|i: int|
            0 <= i < messages@.len() ==> message_writable(
                #[trigger] messages_view(messages@)[i],
            ),
{
    let n = messages.len();
    let ghost items = message_items(messages_view(messages@));
    write_head(out, MAJOR_ARRAY, n as u64);
    let ghost base = out@;
    let mut i: usize = 0;
    assert(items.take(0) =~= Seq::<Option<Seq<u8>>>::empty());
    assert(base + Seq::<u8>::empty() =~= base);
    while i < n
        invariant
            i <= n,
            n == messages@.len(),
            items == message_items(messages_view(messages@)),
            joined(items.take(i as int)) is Some,
            out@ == base + joined(items.take(i as int))->0,
            forall|j: int|
                0 <= j < i ==> message_writable(#[trigger] messages_view(messages@)[j]),
        decreases n - i,
    {
        assert(messages_view(messages@)[i as int] == messages@[i as int]@);
        assert(items.take(i + 1).drop_last() =~= items.take(i as int));
        assert(items.take(i + 1).last() == items[i as int]);
        assert(items[i as int] == message_wire(messages@[i as int]@));
        let ghost so_far = joined(items.take(i as int))->0;
        let time_text = match messages[i].timestamp.to_wire_text() {
            Some(t) => t,
            None => {
                proof {
                    lemma_joined_none(items, i + 1);
                }
                return false;
            },
        };
        write_message(out, &messages[i], time_text.as_str());
        assert(out@ =~= base + (so_far + message_wire(messages@[i as int]@)->0));
        i = i + 1;
    }
    assert(items.take(n as int) =~= items);
    assert(out@ =~= old(out)@ + (head_bytes(MAJOR_ARRAY, n as u64) + joined(items)->0));
    true
}

fn read_digests(b: &[u8], pos: usize, count: u64) -> (r: Option<(Vec<MessageDigest>, usize)>)
    requires
        pos <= b@.len(),
    ensures
        match r {
            Some((v, next)) => pos <= next <= b@.len() && parse_digests(
                b@.skip(pos as int),
                count as nat,
            ) == Some((digests_view(v@), b@.skip(next as int))),
            None => parse_digests(b@.skip(pos as int), count as nat) is None,
        },
{
    let mut out: Vec<MessageDigest> = Vec::new();
    let mut cur: usize = pos;
    let mut left: u64 = count;
    let ghost whole = parse_digests(b@.skip(pos as int), count as nat);
    assert(digests_view(out@) =~= Seq::<DigestView>::empty());
    assert(whole == match parse_digests(b@.skip(cur as int), left as nat) {
        Some((tail, after)) => Some((digests_view(out@) + tail, after)),
        None => None,
    }) by {
        let p = parse_digests(b@.skip(cur as int), left as nat);
        if p is Some {
            assert(digests_view(out@) + (p->0).0 =~= (p->0).0);
        }
    }
    while left > 0
        invariant
            pos <= cur <= b@.len(),
            left <= count,
            whole == parse_digests(b@.skip(pos as int), count as nat),
            whole == match parse_digests(b@.skip(cur as int), left as nat) {
                Some((tail, after)) => Some((digests_view(out@) + tail, after)),
                None => None,
            },
        decreases left,
    {
        match read_digest(b, cur) {
            Some((d, next)) => {
                proof {
                    let tail_parse = parse_digests(b@.skip(next as int), (left - 1) as nat);
                    if tail_parse is Some {
                        assert(digests_view(out@) + (seq![d@] + (tail_parse->0).0)
                            =~= digests_view(out@.push(d)) + (tail_parse->0).0);
                    }
                }
                out.push(d);
                cur = next;
                left = left - 1;
            },
            None => {
                return None;
            },
        }
    }
    assert(digests_view(out@) + Seq::<DigestView>::empty() =~= digests_view(out@));
    Some((out, cur))
}

fn read_texts(b: &[u8], pos: usize, count: u64) -> (r: Option<(Vec<String>, usize)>)
    requires
        pos <= b@.len(),
    ensures
        match r {
            Some((v, next)) => pos <= next <= b@.len() && parse_texts(
                b@.skip(pos as int),
                count as nat,
            ) == Some((texts_view(v@), b@.skip(next as int))),
            None => parse_texts(b@.skip(pos as int), count as nat) is None,
        },
{
    let mut out: Vec<String> = Vec::new();
    let mut cur: usize = pos;
    let mut left: u64 = count;
    let ghost whole = parse_texts(b@.skip(pos as int), count as nat);
    assert(texts_view(out@) =~= Seq::<Seq<char>>::empty());
    assert(whole == match parse_texts(b@.skip(cur as int), left as nat) {
        Some((tail, after)) => Some((texts_view(out@) + tail, after)),
        None => None,
    }) by {
        let p = parse_texts(b@.skip(cur as int), left as nat);
        if p is Some {
            assert(texts_view(out@) + (p->0).0 =~= (p->0).0);
        }
    }
    while left > 0
        invariant
            pos <= cur <= b@.len(),
            left <= count,
            whole == parse_texts(b@.skip(pos as int), count as nat),
            whole == match parse_texts(b@.skip(cur as int), left as nat) {
                Some((tail, after)) => Some((texts_view(out@) + tail, after)),
                None => None,
            },
        decreases left,
    {
        match read_text(b, cur) {
            Some((t, next)) => {
                proof {
                    let tail_parse = parse_texts(b@.skip(next as int), (left - 1) as nat);
                    if tail_parse is Some {
                        assert(texts_view(out@) + (seq![t@] + (tail_parse->0).0) =~= texts_view(
                            out@.push(t),
                        ) + (tail_parse->0).0);
                    }
                }
                out.push(t);
                cur = next;
                left = left - 1;
            },
            None => {
                return None;
            },
        }
    }
    assert(texts_view(out@) + Seq::<Seq<char>>::empty() =~= texts_view(out@));
    Some((out, cur))
}

fn read_messages(b: &[u8], pos: usize, count: u64) -> (r: Option<(Vec<Message>, usize)>)
    requires
        pos <= b@.len(),
    ensures
        match r {
            Some((v, next)) => pos <= next <= b@.len() && parse_messages(
                b@.skip(pos as int),
                count as nat,
            ) == Some((messages_view(v@), b@.skip(next as int))),
            None => parse_messages(b@.skip(pos as int), count as nat) is None,
        },
{
    let mut out: Vec<Message> = Vec::new();
    let mut cur: usize = pos;
    let mut left: u64 = count;
    let ghost whole = parse_messages(b@.skip(pos as int), count as nat);
    assert(messages_view(out@) =~= Seq::<MessageView>::empty());
    assert(whole == match parse_messages(b@.skip(cur as int), left as nat) {
        Some((tail, after)) => Some((messages_view(out@) + tail, after)),
        None => None,
    }) by {
        let p = parse_messages(b@.skip(cur as int), left as nat);
        if p is Some {
            assert(messages_view(out@) + (p->0).0 =~= (p->0).0);
        }
    }
    while left > 0
        invariant
            pos <= cur <= b@.len(),
            left <= count,
            whole == parse_messages(b@.skip(pos as int), count as nat),
            whole == match parse_messages(b@.skip(cur as int), left as nat) {
                Some((tail, after)) => Some((messages_view(out@) + tail, after)),
                None => None,
            },
        decreases left,
    {
        match read_message(b, cur) {
            Some((m, next)) => {
                proof {
                    let tail_parse = parse_messages(b@.skip(next as int), (left - 1) as nat);
                    if tail_parse is Some {
                        assert(messages_view(out@) + (seq![m@] + (tail_parse->0).0)
                            =~= messages_view(out@.push(m)) + (tail_parse->0).0);
                    }
                }
                out.push(m);
                cur = next;
                left = left - 1;
            },
            None => {
                return None;
            },
        }
    }
    assert(messages_view(out@) + Seq::<MessageView>::empty() =~= messages_view(out@));
    Some((out, cur))
}

impl GossipMessage {
    /// The name of the kind on the wire.
    pub fn name(&self) -> (r: &'static str)
        ensures
            r@ == gossip_name(self@),
    {
        match self {
            GossipMessage::DigestRequest { .. } => "DigestRequest",
            GossipMessage::DigestResponse { .. } => "DigestResponse",
            GossipMessage::MessageRequest { .. } => "MessageRequest",
            GossipMessage::MessageResponse { .. } => "MessageResponse",
        }
    }

    /// The message on the wire; nothing where the calendar cannot hold
    /// one of its times.
    pub fn to_bytes(&self) -> (r: Option<Vec<u8>>)
        ensures
            match gossip_wire(self@) {
                Some(bytes) => r matches Some(b) && b@ == bytes,
                None => r is None,
            },
            r matches Some(b) ==> gossip_of_bytes(b@) == Some(self@),
    {
        let mut out: Vec<u8> = Vec::new();
        write_head(&mut out, MAJOR_MAP, 1);
        write_text(&mut out, self.name());
        let ghost front = out@;
        match self {
            GossipMessage::DigestRequest { since, max_count } => {
                let t = match since.to_wire_text() {
                    Some(t) => t,
                    None => {
                        return None;
                    },
                };
                write_head(&mut out, MAJOR_MAP, 2);
                write_text_field(&mut out, "since", t.as_str());
                write_uint_field(&mut out, "max_count", *max_count as u64);
                assert(out@ =~= gossip_wire(self@)->0);
                assert(gossip_writable(self@));
            },
            GossipMessage::DigestResponse { digests } => {
                write_head(&mut out, MAJOR_MAP, 1);
                write_text(&mut out, "digests");
                assert(digest_items(digests_view(digests@)) =~= Seq::new(
                    digests_view(digests@).len(),
                    |i: int| digest_wire(digests_view(digests@)[i]),
                ));
                if !write_digests(&mut out, digests) {
                    return None;
                }
                assert(out@ =~= gossip_wire(self@)->0);
                let count = digests.len();
                proof {
                    let ds = digests_view(digests@);
                    assert(ds.len() == count);
                    assert(self@ == GossipView::DigestResponse { digests: ds });
                    assert forall|i: int| 0 <= i < ds.len() implies digest_writable(
                        #[trigger] ds[i],
                    ) by {
                        assert(digest_writable(digests_view(digests@)[i]));
                    }
                    assert(gossip_writable(self@));
                }
            },
            GossipMessage::MessageRequest { message_ids } => {
                write_head(&mut out, MAJOR_MAP, 1);
                write_text(&mut out, "message_ids");
                assert(text_items(texts_view(message_ids@)) =~= Seq::new(
                    texts_view(message_ids@).len(),
                    |i: int| Some(text_bytes(texts_view(message_ids@)[i])),
                ));
                write_texts(&mut out, message_ids);
                assert(out@ =~= gossip_wire(self@)->0);
                let count = message_ids.len();
                proof {
                    let ts = texts_view(message_ids@);
                    assert(ts.len() == count);
                    assert(self@ == GossipView::MessageRequest { message_ids: ts });
                    assert forall|i: int| 0 <= i < ts.len() implies text_fits(#[trigger] ts[i]) by {
                        assert(text_fits(texts_view(message_ids@)[i]));
                    }
                    assert(gossip_writable(self@));
                }
            },
            GossipMessage::MessageResponse { messages } => {
                write_head(&mut out, MAJOR_MAP, 1);
                write_text(&mut out, "messages");
                assert(message_items(messages_view(messages@)) =~= Seq::new(
                    messages_view(messages@).len(),
                    |i: int| message_wire(messages_view(messages@)[i]),
                ));
                if !write_messages(&mut out, messages) {
                    return None;
                }
                assert(out@ =~= gossip_wire(self@)->0);
                let count = messages.len();
                proof {
                    let ms = messages_view(messages@);
                    assert(ms.len() == count);
                    assert(self@ == GossipView::MessageResponse { messages: ms });
                    assert forall|i: int| 0 <= i < ms.len() implies message_writable(
                        #[trigger] ms[i],
                    ) by {
                        assert(message_writable(messages_view(messages@)[i]));
                    }
                    assert(gossip_writable(self@));
                }
            },
        }
        proof {
            lemma_gossip_round_trip(self@);
        }
        Some(out)
    }

    /// The gossip message that `bytes` hold on the wire, where they hold
    /// one and nothing else.
    pub fn from_bytes(bytes: &[u8]) -> (r: Option<GossipMessage>)
        ensures
            match gossip_of_bytes(bytes@) {
                Some(g) => r matches Some(m) && m@ == g,
                None => r is None,
            },
    {
        assert(bytes@.skip(0) =~= bytes@);
        let (n, at1) = match read_count(bytes, 0, MAJOR_MAP) {
            Some(c) => c,
            None => {
                return None;
            },
        };
        if n != 1 {
            return None;
        }
        let (name, at2) = match read_text(bytes, at1) {
            Some(v) => v,
            None => {
                return None;
            },
        };
        let (k, at3) = match read_count(bytes, at2, MAJOR_MAP) {
            Some(c) => c,
            None => {
                return None;
            },
        };
        let (message, end) = if str_eq(name.as_str(), "DigestRequest") {
            if k != 2 {
                return None;
            }
            let (t, at4) = match read_text_field(bytes, at3, "since") {
                Some(v) => v,
                None => {
                    return None;
                },
            };
            let since = match Timestamp::parse_wire(t.as_str()) {
                Some(v) => v,
                None => {
                    return None;
                },
            };
            let (max_count, at5) = match read_uint_field(bytes, at4, "max_count") {
                Some(v) => v,
                None => {
                    return None;
                },
            };
            if max_count > usize::MAX as u64 {
                return None;
            }
            (GossipMessage::DigestRequest { since, max_count: max_count as usize }, at5)
        } else {
            if k != 1 {
                return None;
            }
            if str_eq(name.as_str(), "DigestResponse") {
                let at4 = match read_key(bytes, at3, "digests") {
                    Some(v) => v,
                    None => {
                        return None;
                    },
                };
                let (count, at5) = match read_count(bytes, at4, MAJOR_ARRAY) {
                    Some(v) => v,
                    None => {
                        return None;
                    },
                };
                match read_digests(bytes, at5, count) {
                    Some((digests, at6)) => (GossipMessage::DigestResponse { digests }, at6),
                    None => {
                        return None;
                    },
                }
            } else if str_eq(name.as_str(), "MessageRequest") {
                let at4 = match read_key(bytes, at3, "message_ids") {
                    Some(v) => v,
                    None => {
                        return None;
                    },
                };
                let (count, at5) = match read_count(bytes, at4, MAJOR_ARRAY) {
                    Some(v) => v,
                    None => {
                        return None;
                    },
                };
                match read_texts(bytes, at5, count) {
                    Some((message_ids, at6)) => (GossipMessage::MessageRequest { message_ids },
                        at6),
                    None => {
                        return None;
                    },
                }
            } else if str_eq(name.as_str(), "MessageResponse") {
                let at4 = match read_key(bytes, at3, "messages") {
                    Some(v) => v,
                    None => {
                        return None;
                    },
                };
                let (count, at5) = match read_count(bytes, at4, MAJOR_ARRAY) {
                    Some(v) => v,
                    None => {
                        return None;
                    },
                };
                match read_messages(bytes, at5, count) {
                    Some((messages, at6)) => (GossipMessage::MessageResponse { messages }, at6),
                    None => {
                        return None;
                    },
                }
            } else {
                return None;
            }
        };
        if end != bytes.len() {
            return None;
        }
        Some(message)
    }
}

/// The prefix of a text that carries a gossip message.
pub open spec fn gossip_prefix() -> Seq<char> {
    "__gossip__:"@
}

/// Whether a text starts with the prefix of gossip.
pub open spec fn has_gossip_prefix(text: Seq<char>) -> bool {
    text.len() >= gossip_prefix().len() && text.take(gossip_prefix().len() as int)
        == gossip_prefix()
}

/// The text behind all the prefixes of gossip at its front.
pub open spec fn behind_prefix(text: Seq<char>) -> Seq<char>
    decreases text.len(),
{
    if has_gossip_prefix(text) && gossip_prefix().len() > 0 {
        behind_prefix(text.skip(gossip_prefix().len() as int))
    } else {
        text
    }
}

/// What reading gossip from the text of a message answers: nothing where
/// the text lacks the prefix, a failure where what follows the prefix is
/// not base64 or holds no gossip message, and else the gossip message.
pub open spec fn gossip_in_text(text: Seq<char>) -> Result<Option<GossipView>, ()> {
    if !has_gossip_prefix(text) {
        Ok(None)
    } else {
        match base64_bytes(behind_prefix(text)) {
            None => Err(()),
            Some(bytes) => match gossip_of_bytes(bytes) {
                None => Err(()),
                Some(g) => Ok(Some(g)),
            },
        }
    }
}

fn starts_with_prefix(text: &str) -> (r: bool)
    ensures
        r == has_gossip_prefix(text@),
{
    let prefix = "__gossip__:";
    let n = text.unicode_len();
    let k = prefix.unicode_len();
    if n < k {
        return false;
    }
    let head = text.substring_char(0, k);
    str_eq(head, prefix)
}

fn strip_prefixes(text: &str) -> (r: String)
    ensures
        r@ == behind_prefix(text@),
{
    proof {
        reveal_strlit("__gossip__:");
    }
    let prefix = "__gossip__:";
    let k = prefix.unicode_len();
    let n = text.unicode_len();
    let mut from: usize = 0;
    assert(text@.skip(0) =~= text@);
    while k <= n - from && str_eq(text.substring_char(from, from + k), prefix)
        invariant
            from <= n,
            n == text@.len(),
            k == gossip_prefix().len(),
            k == 11,
            prefix@ == gossip_prefix(),
            behind_prefix(text@) == behind_prefix(text@.skip(from as int)),
        decreases n - from,
    {
        assert(text@.skip(from as int).take(k as int) =~= text@.subrange(
            from as int,
            from + k,
        ));
        assert(text@.skip(from as int).skip(k as int) =~= text@.skip(from + k));
        from = from + k;
    }
    proof {
        if from + k <= n {
            assert(text@.skip(from as int).take(k as int) =~= text@.subrange(
                from as int,
                from + k,
            ));
        }
    }
    let tail = text.substring_char(from, n);
    assert(text@.subrange(from as int, n as int) =~= text@.skip(from as int));
    tail.to_string()
}

/// The digests of messages, those left out that cannot be written.
pub open spec fn digests_of(messages: Seq<MessageView>) -> Seq<DigestView>
    decreases messages.len(),
{
    if messages.len() == 0 {
        Seq::<DigestView>::empty()
    } else {
        match digest_of(messages.last()) {
            Some(d) => digests_of(messages.drop_last()).push(d),
            None => digests_of(messages.drop_last()),
        }
    }
}

/// The identifiers of the digests whose messages were not seen, in
/// their order.
pub open spec fn unseen(digests: Seq<DigestView>, seen: Seq<crate::storage::SeenEntryView>) -> Seq<
    Seq<char>,
>
    decreases digests.len(),
{
    if digests.len() == 0 {
        Seq::<Seq<char>>::empty()
    } else if has_seen(seen, digests.last().message_id) {
        unseen(digests.drop_last(), seen)
    } else {
        unseen(digests.drop_last(), seen).push(digests.last().message_id)
    }
}

/// The last time of an exchange with the peer, where there was one.
pub open spec fn last_sync_at(syncs: Map<Seq<char>, Timestamp>, peer: Seq<char>) -> Option<
    Timestamp,
> {
    if syncs.contains_key(peer) {
        Some(syncs[peer])
    } else {
        None
    }
}

/// Whether an exchange with a peer at `now` comes too early after the
/// last one: fewer than 300 whole seconds lie between them.
pub open spec fn too_early(last: Option<Timestamp>, now: Timestamp) -> bool {
    last matches Some(t) && now.seconds_since(t) < SYNC_INTERVAL_SECONDS
}

/// The exchange with the peers.
pub struct Gossip {
    last_sync: StringHashMap<Timestamp>,
    stats: GossipStats,
}

impl Gossip {
    /// The times of the last exchanges, by peer.
    pub closed spec fn syncs(self) -> Map<Seq<char>, Timestamp> {
        self.last_sync@
    }

    /// The counts of the exchange.
    pub closed spec fn counters(self) -> GossipStats {
        self.stats
    }

    /// An exchange that has not begun.
    pub fn new() -> (g: Gossip)
        ensures
            g.syncs() == Map::<Seq<char>, Timestamp>::empty(),
            g.counters() == (GossipStats {
                sync_sessions: 0,
                messages_exchanged: 0,
                failed_syncs: 0,
            }),
    {
        Gossip {
            last_sync: StringHashMap::new(),
            stats: GossipStats { sync_sessions: 0, messages_exchanged: 0, failed_syncs: 0 },
        }
    }

    /// The counts of the exchange.
    pub fn get_sync_stats(&self) -> (r: GossipStats)
        ensures
            r == self.counters(),
    {
        self.stats
    }

    /// The digest of a message: its identifier, sender and time, and the
    /// SHA-256 of the message on the wire.
    pub fn create_digest(message: &Message) -> (r: Result<MessageDigest, GossipError>)
        ensures
            match digest_of(message@) {
                Some(d) => r matches Ok(x) && x@ == d,
                None => r matches Err(GossipError::SerializationFailed),
            },
    {
        let data = match message.encode() {
            Some(b) => b,
            None => {
                return Err(GossipError::SerializationFailed);
            },
        };
        let hash = sha256(data.as_slice());
        Ok(
            MessageDigest {
                message_id: message.id.clone(),
                sender_id: message.sender_id.clone(),
                timestamp: message.timestamp,
                hash,
            },
        )
    }

    /// Whether the digest carries the hash of the message.
    pub fn verify_digest(digest: &MessageDigest, message: &Message) -> (r: bool)
        ensures
            r == (digest_of(message@) matches Some(d) && d.hash == digest@.hash),
    {
        match Gossip::create_digest(message) {
            Ok(computed) => crate::wire::bytes_eq(
                computed.hash.as_slice(),
                digest.hash.as_slice(),
            ),
            Err(_) => false,
        }
    }

    /// Starts the exchange in the background. The embedding program runs
    /// the exchange; there is nothing to start here.
    pub fn start_periodic_sync(&self) {
    }

    /// The text that carries a gossip message: the prefix, then the
    /// message on the wire in base64.
    pub fn encode_gossip(message: &GossipMessage) -> (r: Result<String, GossipError>)
        ensures
            match gossip_wire(message@) {
                Some(bytes) => r matches Ok(t) && t@ == gossip_prefix() + base64_text(bytes)
                    && base64_bytes(base64_text(bytes)) == Some(bytes),
                None => r matches Err(GossipError::SerializationFailed),
            },
    {
        let data = match message.to_bytes() {
            Some(b) => b,
            None => {
                return Err(GossipError::SerializationFailed);
            },
        };
        let encoded = base64_encode(data.as_slice());
        Ok("__gossip__:".to_string().concat(encoded.as_str()))
    }

    /// The gossip message that a text carries: none where the text lacks
    /// the prefix; a failure where what follows the prefix is not base64 or
    /// holds no gossip message.
    pub fn decode_gossip(text: &str) -> (r: Result<Option<GossipMessage>, GossipError>)
        ensures
            match gossip_in_text(text@) {
                Ok(None) => r matches Ok(None),
                Ok(Some(g)) => r matches Ok(Some(m)) && m@ == g,
                Err(_) => r matches Err(GossipError::SerializationFailed),
            },
    {
        if !starts_with_prefix(text) {
            return Ok(None);
        }
        let payload = strip_prefixes(text);
        let decoded = match base64_decode(payload.as_str()) {
            Some(d) => d,
            None => {
                return Err(GossipError::SerializationFailed);
            },
        };
        match GossipMessage::from_bytes(decoded.as_slice()) {
            Some(m) => Ok(Some(m)),
            None => Err(GossipError::SerializationFailed),
        }
    }

    fn find_sync(&self, peer: &str) -> (r: Option<Timestamp>)
        ensures
            r == last_sync_at(self.syncs(), peer@),
    {
        match self.last_sync.get(peer) {
            Some(t) => Some(*t),
            None => None,
        }
    }

    fn record_sync(&mut self, peer: &str, now: Timestamp)
        ensures
            final(self).syncs() == old(self).syncs().insert(peer@, now),
            final(self).counters() == old(self).counters(),
    {
        self.last_sync.insert(peer.to_string(), now);
    }

    /// Sends a gossip message to a peer as the text of an encrypted
    /// message. It cannot be sent without an identity, without the X25519
    /// key of the peer, or where the message, the packet or the link fails.
    pub fn send_gossip_message(
        &mut self,
        message: &GossipMessage,
        peer: &Peer,
        router: &mut DtnRouter,
        identity: Option<&Identity>,
        now: Timestamp,
    ) -> (r: Result<(), GossipError>)
        ensures
            final(self).syncs() == old(self).syncs(),
            final(router).store() == old(router).store(),
            final(router).waiting() == old(router).waiting(),
            final(router).peers() == old(router).peers(),
            final(router).counters() == old(router).counters(),
            final(router).links() == old(router).links(),
            r matches Err(e) ==> e is SerializationFailed && final(self).counters()
                == old(self).counters(),
            r is Ok ==> identity is Some,
            r is Ok ==> peer@.x25519_public_key is Some && peer@.x25519_public_key->0.len() == 32,
            r is Ok ==> gossip_wire(message@) is Some,
            r is Ok ==> old(router).links().len() > 0,
            r is Ok ==> final(self).counters() == (GossipStats {
                messages_exchanged: crate::routing::bumped(
                    old(self).counters().messages_exchanged,
                ),
                ..old(self).counters()
            }),
    {
        let identity = match identity {
            Some(i) => i,
            None => {
                return Err(GossipError::SerializationFailed);
            },
        };
        let receiver_key: [u8; 32] = match &peer.x25519_public_key {
            Some(key) => match array_from_slice::<32>(key.as_slice()) {
                Some(k) => k,
                None => {
                    return Err(GossipError::SerializationFailed);
                },
            },
            None => {
                return Err(GossipError::SerializationFailed);
            },
        };
        let gossip_text = Gossip::encode_gossip(message)?;
        let msg = Message::with_id(
            fresh_uuid(),
            identity.id().to_string(),
            now,
            MessageType::Text,
            MessagePayload::Text(gossip_text),
        );
        let packet = match Packet::from_message(&msg, identity, receiver_key.as_slice()) {
            Ok(p) => p,
            Err(_) => {
                return Err(GossipError::SerializationFailed);
            },
        };
        match router.send_direct(&packet, peer.address.as_str()) {
            Ok(()) => {},
            Err(_) => {
                return Err(GossipError::SerializationFailed);
            },
        }
        self.stats.messages_exchanged = if self.stats.messages_exchanged == u64::MAX {
            u64::MAX
        } else {
            self.stats.messages_exchanged + 1
        };
        Ok(())
    }

    /// Begins an exchange with a peer at `now`: asks for the digests of
    /// what the peer stored since the last exchange, or in the last 24
    /// hours where there was none. Nothing is done where the last exchange
    /// with the peer began fewer than 300 seconds ago. The exchange is
    /// recorded only where the request was sent.
    pub fn sync_with_peer(
        &mut self,
        peer: &Peer,
        router: &mut DtnRouter,
        identity: Option<&Identity>,
        now: Timestamp,
    ) -> (r: Result<(), GossipError>)
        ensures
            final(router).store() == old(router).store(),
            final(router).waiting() == old(router).waiting(),
            final(router).peers() == old(router).peers(),
            final(router).counters() == old(router).counters(),
            final(router).links() == old(router).links(),
            too_early(last_sync_at(old(self).syncs(), peer@.id), now) ==> r is Ok
                && final(self).syncs() == old(self).syncs() && final(self).counters()
                == old(self).counters(),
            !too_early(last_sync_at(old(self).syncs(), peer@.id), now) && r is Ok ==> identity
                is Some && peer@.x25519_public_key is Some && peer@.x25519_public_key->0.len() == 32
                && old(router).links().len() > 0 && gossip_wire(
                sync_request_of(last_sync_at(old(self).syncs(), peer@.id), now),
            ) is Some,
            !too_early(last_sync_at(old(self).syncs(), peer@.id), now) ==> match r {
                Ok(()) => final(self).syncs() == old(self).syncs().insert(peer@.id, now)
                    && final(self).counters() == (GossipStats {
                    sync_sessions: crate::routing::bumped(old(self).counters().sync_sessions),
                    messages_exchanged: crate::routing::bumped(
                        old(self).counters().messages_exchanged,
                    ),
                    ..old(self).counters()
                }),
                Err(_) => final(self).syncs() == old(self).syncs() && final(self).counters()
                    == old(self).counters(),
            },
    {
        let last = self.find_sync(peer.id.as_str());
        match last {
            Some(t) => {
                if !now.elapsed_at_least(&t, SYNC_INTERVAL_SECONDS) {
                    return Ok(());
                }
            },
            None => {},
        }
        let request = sync_request(last, now);
        self.send_gossip_message(&request, peer, router, identity, now)?;
        self.record_sync(peer.id.as_str(), now);
        self.stats.sync_sessions = if self.stats.sync_sessions == u64::MAX {
            u64::MAX
        } else {
            self.stats.sync_sessions + 1
        };
        Ok(())
    }

    /// What is answered to a gossip message, and what it does to the
    /// store. A request for digests is answered with the digests of at
    /// most `max_count` of the messages that were stored after `since`,
    /// oldest first. Digests are answered with a request for the messages
    /// that were not seen, or with nothing where all were seen. A request
    /// for messages is answered with those that the store holds; it fails
    /// where an identifier is no UUID. Messages are stored, each as far as
    /// it keeps its limits, and nothing is answered.
    pub fn respond(message: GossipMessage, storage: &mut Storage, now: Timestamp) -> (r: Result<
        Option<GossipMessage>,
        GossipError,
    >)
        requires
            old(storage).wf(),
        ensures
            final(storage).wf(),
            match message@ {
                GossipView::DigestRequest { since, max_count } => {
                    &&& *final(storage) == *old(storage)
                    &&& r matches Ok(Some(reply))
                    &&& reply@ == GossipView::DigestResponse {
                        digests: digests_of(
                            first(
                                decoded(picked_rows(old(storage).rows(), Some(since), None)),
                                max_count as int,
                            ),
                        ),
                    }
                },
                GossipView::DigestResponse { digests } => {
                    &&& *final(storage) == *old(storage)
                    &&& r matches Ok(reply)
                    &&& if unseen(digests, old(storage).seen()).len() == 0 {
                        reply is None
                    } else {
                        reply matches Some(q) && q@ == GossipView::MessageRequest {
                            message_ids: unseen(digests, old(storage).seen()),
                        }
                    }
                },
                GossipView::MessageRequest { message_ids } => {
                    &&& *final(storage) == *old(storage)
                    &&& match r {
                        Ok(reply) => {
                            &&& forall|i: int|
                                0 <= i < message_ids.len() ==> uuid_parses(
                                    #[trigger] message_ids[i],
                                )
                            &&& reply matches Some(answer) && answer@
                                == GossipView::MessageResponse {
                                messages: held(old(storage).rows(), message_ids),
                            }
                        },
                        Err(e) => e is StorageError && exists|i: int|
                            0 <= i < message_ids.len() && !uuid_parses(#[trigger] message_ids[i]),
                    }
                },
                GossipView::MessageResponse { messages } => {
                    &&& r matches Ok(None)
                    &&& final(storage).acks() == old(storage).acks()
                    &&& final(storage).nonces() == old(storage).nonces()
                    &&& final(storage).rows() == offered_all(
                        old(storage).rows(),
                        old(storage).seen(),
                        messages,
                        false,
                        now,
                    ).0
                    &&& final(storage).seen() == offered_all(
                        old(storage).rows(),
                        old(storage).seen(),
                        messages,
                        false,
                        now,
                    ).1
                    &&& forall|id: Seq<char>|
                        has_seen(old(storage).seen(), id) ==> has_seen(final(storage).seen(), id)
                    &&& forall|i: int|
                        0 <= i < messages.len() ==> (crate::message::payload_verdict(
                            (#[trigger] messages[i]).payload,
                        ) is Ok && message_wire(messages[i]) is Some ==> has_seen(
                            final(storage).seen(),
                            messages[i].id,
                        ))
                },
            },
    {
        match &message {
            GossipMessage::DigestRequest { since, max_count } => {
                let since = *since;
                let max_count = *max_count;
                let messages = match storage.get_messages_since(since) {
                    Ok(v) => v,
                    Err(e) => {
                        return Err(GossipError::StorageError(e));
                    },
                };
                let ghost all = messages_view(messages@);
                let n = if messages.len() < max_count {
                    messages.len()
                } else {
                    max_count
                };
                let mut digests: Vec<MessageDigest> = Vec::new();
                let ghost want = first(all, max_count as int);
                let mut i: usize = 0;
                assert(want.take(0) =~= Seq::<MessageView>::empty());
                assert(digests_view(digests@) =~= digests_of(want.take(0)));
                while i < n
                    invariant
                        i <= n,
                        n <= messages@.len(),
                        n == want.len(),
                        all == messages_view(messages@),
                        want == first(all, max_count as int),
                        digests_view(digests@) == digests_of(want.take(i as int)),
                    decreases n - i,
                {
                    assert(want.take(i + 1).drop_last() =~= want.take(i as int));
                    assert(want.take(i + 1).last() == want[i as int]);
                    assert(want[i as int] == messages@[i as int]@);
                    match Gossip::create_digest(&messages[i]) {
                        Ok(d) => {
                            let ghost prev = digests@;
                            digests.push(d);
                            assert(digests_view(digests@) =~= digests_view(prev).push(d@));
                        },
                        Err(_) => {},
                    }
                    i = i + 1;
                }
                assert(want.take(n as int) =~= want);
                Ok(Some(GossipMessage::DigestResponse { digests }))
            },
            GossipMessage::DigestResponse { digests } => {
                let mut missing: Vec<String> = Vec::new();
                let n = digests.len();
                let ghost s = digests_view(digests@);
                let mut i: usize = 0;
                assert(s.take(0) =~= Seq::<DigestView>::empty());
                assert(texts_view(missing@) =~= unseen(s.take(0), storage.seen()));
                while i < n
                    invariant
                        i <= n,
                        n == digests@.len(),
                        s == digests_view(digests@),
                        *storage == *old(storage),
                        texts_view(missing@) == unseen(s.take(i as int), storage.seen()),
                    decreases n - i,
                {
                    assert(s.take(i + 1).drop_last() =~= s.take(i as int));
                    assert(s.take(i + 1).last() == s[i as int]);
                    assert(s[i as int] == digests@[i as int]@);
                    let seen = match storage.is_message_seen(digests[i].message_id.as_str()) {
                        Ok(b) => b,
                        Err(_) => true,
                    };
                    if !seen {
                        let ghost prev = missing@;
                        missing.push(digests[i].message_id.clone());
                        assert(texts_view(missing@) =~= texts_view(prev).push(
                            digests@[i as int]@.message_id,
                        ));
                    }
                    i = i + 1;
                }
                assert(s.take(n as int) =~= s);
                if missing.len() > 0 {
                    Ok(Some(GossipMessage::MessageRequest { message_ids: missing }))
                } else {
                    Ok(None)
                }
            },
            GossipMessage::MessageRequest { message_ids } => {
                let mut messages: Vec<Message> = Vec::new();
                let n = message_ids.len();
                let ghost ids = texts_view(message_ids@);
                let ghost rows = storage.rows();
                let mut i: usize = 0;
                assert(ids.take(0) =~= Seq::<Seq<char>>::empty());
                assert(messages_view(messages@) =~= held(rows, ids.take(0)));
                while i < n
                    invariant
                        i <= n,
                        n == message_ids@.len(),
                        ids == texts_view(message_ids@),
                        message@ == (GossipView::MessageRequest { message_ids: ids }),
                        *storage == *old(storage),
                        storage.wf(),
                        rows == storage.rows(),
                        forall|j: int| 0 <= j < i ==> uuid_parses(#[trigger] ids[j]),
                        messages_view(messages@) == held(rows, ids.take(i as int)),
                    decreases n - i,
                {
                    assert(ids[i as int] == message_ids@[i as int]@);
                    assert(ids.take(i + 1).drop_last() =~= ids.take(i as int));
                    assert(ids.take(i + 1).last() == ids[i as int]);
                    match storage.get_message_by_id(message_ids[i].as_str()) {
                        Ok(Some(m)) => {
                            let ghost prev = messages@;
                            proof {
                                let id = ids[i as int];
                                let k = choose|k: int|
                                    0 <= k < rows.len() && (#[trigger] rows[k]).message_id == id
                                        && message_of_bytes(rows[k].message_data) == Some(m@);
                                let c = row_of(rows, id);
                                assert(rows[c].message_id == id);
                                assert(c == k) by {
                                    if c < k {
                                        assert(rows[c].message_id != rows[k].message_id);
                                    } else if k < c {
                                        assert(rows[k].message_id != rows[c].message_id);
                                    }
                                }
                            }
                            messages.push(m);
                            assert(messages_view(messages@) =~= messages_view(prev).push(m@));
                        },
                        Ok(None) => {},
                        Err(e) => {
                            assert(!uuid_parses(ids[i as int]));
                            assert(message@->message_ids == ids);
                            assert(0 <= i < message@->message_ids.len() && !uuid_parses(
                                message@->message_ids[i as int],
                            ));
                            return Err(GossipError::StorageError(e));
                        },
                    }
                    i = i + 1;
                }
                assert(ids.take(n as int) =~= ids);
                Ok(Some(GossipMessage::MessageResponse { messages }))
            },
            GossipMessage::MessageResponse { messages } => {
                let n = messages.len();
                let ghost ms = messages_view(messages@);
                let ghost rows0 = storage.rows();
                let ghost seen0 = storage.seen();
                let mut i: usize = 0;
                assert(ms.take(0) =~= Seq::<MessageView>::empty());
                while i < n
                    invariant
                        i <= n,
                        n == messages@.len(),
                        ms == messages_view(messages@),
                        storage.wf(),
                        storage.rows()
                            == offered_all(rows0, seen0, ms.take(i as int), false, now).0,
                        storage.seen()
                            == offered_all(rows0, seen0, ms.take(i as int), false, now).1,
                        storage.acks() == old(storage).acks(),
                        storage.nonces() == old(storage).nonces(),
                        forall|id: Seq<char>|
                            has_seen(old(storage).seen(), id) ==> has_seen(storage.seen(), id),
                        forall|j: int|
                            0 <= j < i ==> (crate::message::payload_verdict(
                                (#[trigger] ms[j]).payload,
                            ) is Ok && message_wire(ms[j]) is Some ==> has_seen(
                                storage.seen(),
                                ms[j].id,
                            )),
                    decreases n - i,
                {
                    let ghost before = *storage;
                    assert(ms[i as int] == messages@[i as int]@);
                    let stored = storage.store_message(&messages[i], now);
                    proof {
                        let m = ms[i as int];
                        assert(ms.take(i + 1).drop_last() =~= ms.take(i as int));
                        assert(ms.take(i + 1).last() == m);
                        lemma_stored_is_offered(before, *storage, m, false, now, stored);
                        let s0 = before.seen();
                        let s1 = storage.seen();
                        assert(forall|id: Seq<char>| has_seen(s0, id) ==> has_seen(s1, id)) by {
                            assert forall|id: Seq<char>| has_seen(s0, id) implies has_seen(
                                s1,
                                id,
                            ) by {
                                if s1 != s0 {
                                    let k = choose|k: int|
                                        0 <= k < s0.len() && (#[trigger] s0[k]).message_id == id;
                                    assert(s1[k].message_id == id);
                                }
                            }
                        }
                        if crate::message::payload_verdict(m.payload) is Ok && message_wire(m)
                            is Some {
                            if !has_seen(s0, m.id) {
                                assert(s1[s0.len() as int].message_id == m.id);
                            }
                        }
                    }
                    i = i + 1;
                }
                assert(ms.take(n as int) =~= ms);
                Ok(None)
            },
        }
    }

    /// Handles a gossip message from a peer at `now`: what `respond`
    /// answers is sent back to the peer.
    pub fn handle_gossip_message(
        &mut self,
        message: GossipMessage,
        from_peer: &Peer,
        router: &mut DtnRouter,
        identity: Option<&Identity>,
        now: Timestamp,
    ) -> (r: Result<(), GossipError>)
        requires
            old(router).wf(),
        ensures
            final(router).wf(),
            final(self).syncs() == old(self).syncs(),
            final(router).waiting() == old(router).waiting(),
            final(router).peers() == old(router).peers(),
            final(router).counters() == old(router).counters(),
            final(router).links() == old(router).links(),
            !(message@ is MessageResponse) ==> final(router).store() == old(router).store(),
            message@ is MessageResponse ==> r is Ok && final(self).counters()
                == old(self).counters(),
            message@ matches GossipView::MessageResponse { messages }
                ==> final(router).store().rows() == offered_all(
                old(router).store().rows(),
                old(router).store().seen(),
                messages,
                false,
                now,
            ).0 && final(router).store().seen() == offered_all(
                old(router).store().rows(),
                old(router).store().seen(),
                messages,
                false,
                now,
            ).1,
            message@ matches GossipView::DigestResponse { digests } ==> (unseen(
                digests,
                old(router).store().seen(),
            ).len() == 0 ==> r is Ok && final(self).counters() == old(self).counters()),
            message@ matches GossipView::MessageRequest { message_ids } ==> ((exists|i: int|
                0 <= i < message_ids.len() && !uuid_parses(#[trigger] message_ids[i]))
                ==> r is Err && r->Err_0 is StorageError),
            r is Err ==> final(self).counters() == old(self).counters(),
            r is Ok && reply_due(message@, old(router).store().seen()) ==> identity is Some
                && from_peer@.x25519_public_key is Some && from_peer@.x25519_public_key->0.len()
                == 32 && old(router).links().len() > 0,
            r is Ok ==> final(self).counters() == if reply_due(
                message@,
                old(router).store().seen(),
            ) {
                GossipStats {
                    messages_exchanged: crate::routing::bumped(
                        old(self).counters().messages_exchanged,
                    ),
                    ..old(self).counters()
                }
            } else {
                old(self).counters()
            },
            final(router).store().acks() == old(router).store().acks(),
            final(router).store().nonces() == old(router).store().nonces(),
            forall|id: Seq<char>|
                has_seen(old(router).store().seen(), id) ==> has_seen(
                    final(router).store().seen(),
                    id,
                ),
    {
        let ghost r0 = *router;
        let mut store = router.take_storage();
        let answer = Gossip::respond(message, &mut store, now);
        router.put_storage(store);
        match answer {
            Ok(Some(reply)) => self.send_gossip_message(&reply, from_peer, router, identity, now),
            Ok(None) => Ok(()),
            Err(e) => Err(e),
        }
    }
}

/// Seconds that the first request to a peer looks back: 24 hours.
pub const FIRST_SYNC_SPAN_SECONDS: u32 = 86_400;

/// The request that begins an exchange at `now` with a peer whose last
/// exchange began at `last`: the digests of at most 100 messages that were
/// stored since the last exchange, or in the 24 hours before `now` where
/// there was none.
pub open spec fn sync_request_of(last: Option<Timestamp>, now: Timestamp) -> GossipView {
    GossipView::DigestRequest {
        since: match last {
            Some(t) => t,
            None => Timestamp {
                secs: if now.secs - FIRST_SYNC_SPAN_SECONDS < i64::MIN {
                    i64::MIN
                } else {
                    (now.secs - FIRST_SYNC_SPAN_SECONDS) as i64
                },
                nanos: now.nanos,
            },
        },
        max_count: MAX_DIGESTS,
    }
}

/// Builds the request that `sync_with_peer` sends at `now` to a peer
/// whose last exchange began at `last`.
pub fn sync_request(last: Option<Timestamp>, now: Timestamp) -> (g: GossipMessage)
    ensures
        g@ == sync_request_of(last, now),
{
    let since = match last {
        Some(t) => t,
        None => now.minus_seconds(FIRST_SYNC_SPAN_SECONDS),
    };
    GossipMessage::DigestRequest { since, max_count: MAX_DIGESTS }
}

/// Whether a gossip message is answered with a message of its own, given
/// the identifiers that were seen: a request is answered, digests are
/// answered where one of them is not seen, and messages are not.
pub open spec fn reply_due(g: GossipView, seen: Seq<crate::storage::SeenEntryView>) -> bool {
    match g {
        GossipView::DigestRequest { .. } => true,
        GossipView::DigestResponse { digests } => unseen(digests, seen).len() > 0,
        GossipView::MessageRequest { .. } => true,
        GossipView::MessageResponse { .. } => false,
    }
}

/// The first `limit` items of `s`.
pub open spec fn first<T>(s: Seq<T>, limit: int) -> Seq<T> {
    if limit < s.len() {
        s.take(limit)
    } else {
        s
    }
}

/// What the exchange does for the core: it begins an exchange with a
/// peer, handles what a peer sent, and counts.
pub trait GossipProtocol {
    /// Begins an exchange with a peer at `now`.
    fn sync_with_peer(
        &mut self,
        peer: &Peer,
        router: &mut DtnRouter,
        identity: Option<&Identity>,
        now: Timestamp,
    ) -> (r: Result<(), GossipError>)
        ensures
            final(router).store() == old(router).store(),
            final(router).peers() == old(router).peers(),
    ;

    /// Handles a gossip message from a peer at `now`.
    fn handle_gossip_message(
        &mut self,
        message: GossipMessage,
        from_peer: &Peer,
        router: &mut DtnRouter,
        identity: Option<&Identity>,
        now: Timestamp,
    ) -> (r: Result<(), GossipError>)
        requires
            old(router).wf(),
        ensures
            final(router).wf(),
            final(router).peers() == old(router).peers(),
    ;

    /// The counts of the exchange.
    fn get_sync_stats(&self) -> GossipStats;
}

impl GossipProtocol for Gossip {
    fn sync_with_peer(
        &mut self,
        peer: &Peer,
        router: &mut DtnRouter,
        identity: Option<&Identity>,
        now: Timestamp,
    ) -> (r: Result<(), GossipError>)
        ensures
            final(router).store() == old(router).store(),
            final(router).waiting() == old(router).waiting(),
            final(router).peers() == old(router).peers(),
            final(router).counters() == old(router).counters(),
            final(router).links() == old(router).links(),
            too_early(last_sync_at(old(self).syncs(), peer@.id), now) ==> r is Ok
                && final(self).syncs() == old(self).syncs() && final(self).counters()
                == old(self).counters(),
            !too_early(last_sync_at(old(self).syncs(), peer@.id), now) && r is Ok ==> identity
                is Some && peer@.x25519_public_key is Some && peer@.x25519_public_key->0.len() == 32
                && old(router).links().len() > 0 && gossip_wire(
                sync_request_of(last_sync_at(old(self).syncs(), peer@.id), now),
            ) is Some,
            !too_early(last_sync_at(old(self).syncs(), peer@.id), now) ==> match r {
                Ok(()) => final(self).syncs() == old(self).syncs().insert(peer@.id, now)
                    && final(self).counters() == (GossipStats {
                    sync_sessions: crate::routing::bumped(old(self).counters().sync_sessions),
                    messages_exchanged: crate::routing::bumped(
                        old(self).counters().messages_exchanged,
                    ),
                    ..old(self).counters()
                }),
                Err(_) => final(self).syncs() == old(self).syncs() && final(self).counters()
                    == old(self).counters(),
            },
    {
        Gossip::sync_with_peer(self, peer, router, identity, now)
    }

    fn handle_gossip_message(
        &mut self,
        message: GossipMessage,
        from_peer: &Peer,
        router: &mut DtnRouter,
        identity: Option<&Identity>,
        now: Timestamp,
    ) -> (r: Result<(), GossipError>)
        ensures
            final(router).wf(),
            final(self).syncs() == old(self).syncs(),
            final(router).waiting() == old(router).waiting(),
            final(router).peers() == old(router).peers(),
            final(router).counters() == old(router).counters(),
            final(router).links() == old(router).links(),
            !(message@ is MessageResponse) ==> final(router).store() == old(router).store(),
            message@ is MessageResponse ==> r is Ok && final(self).counters()
                == old(self).counters(),
            message@ matches GossipView::MessageResponse { messages }
                ==> final(router).store().rows() == offered_all(
                old(router).store().rows(),
                old(router).store().seen(),
                messages,
                false,
                now,
            ).0 && final(router).store().seen() == offered_all(
                old(router).store().rows(),
                old(router).store().seen(),
                messages,
                false,
                now,
            ).1,
            message@ matches GossipView::DigestResponse { digests } ==> (unseen(
                digests,
                old(router).store().seen(),
            ).len() == 0 ==> r is Ok && final(self).counters() == old(self).counters()),
            message@ matches GossipView::MessageRequest { message_ids } ==> ((exists|i: int|
                0 <= i < message_ids.len() && !uuid_parses(#[trigger] message_ids[i]))
                ==> r is Err && r->Err_0 is StorageError),
            r is Err ==> final(self).counters() == old(self).counters(),
            r is Ok && reply_due(message@, old(router).store().seen()) ==> identity is Some
                && from_peer@.x25519_public_key is Some && from_peer@.x25519_public_key->0.len()
                == 32 && old(router).links().len() > 0,
            r is Ok ==> final(self).counters() == if reply_due(
                message@,
                old(router).store().seen(),
            ) {
                GossipStats {
                    messages_exchanged: crate::routing::bumped(
                        old(self).counters().messages_exchanged,
                    ),
                    ..old(self).counters()
                }
            } else {
                old(self).counters()
            },
            final(router).store().acks() == old(router).store().acks(),
            final(router).store().nonces() == old(router).store().nonces(),
            forall|id: Seq<char>|
                has_seen(old(router).store().seen(), id) ==> has_seen(
                    final(router).store().seen(),
                    id,
                ),
    {
        Gossip::handle_gossip_message(self, message, from_peer, router, identity, now)
    }

    fn get_sync_stats(&self) -> (r: GossipStats)
        ensures
            r == self.counters(),
    {
        Gossip::get_sync_stats(self)
    }
}

} // verus!
