//! The local store: messages, the set of seen identifiers,
//! acknowledgements and the ledger of used nonces.
//!
//! The store is a set of four tables that are held in memory, each with
//! its key. Persistence is the concern of the embedding program, which
//! reads the tables out and hands them back. Time is given by the caller.

use crate::message::{
    message_of_bytes, message_wire, payload_verdict, Message, MessageError, MessageView,
};
use crate::text::{hex_encode, hex_text, is_uuid, uuid_parses};
use crate::time::Timestamp;
use crate::wire::{clone_bytes, str_eq};
use vstd::prelude::*;

verus! {

/// Seconds that a stored message lives.
pub const MESSAGE_TTL_SECONDS: u32 = 3600;

/// Seconds that a used nonce is remembered.
pub const NONCE_TTL_SECONDS: u32 = 86_400;

/// Kind of acknowledgement.
#[derive(Clone, Copy, Debug, PartialEq, Eq, Structural)]
pub enum AckType {
    /// The message reached a peer.
    Received,
    /// The message was shown to its reader.
    Delivered,
}

/// The name of a kind of acknowledgement in the store.
pub open spec fn ack_type_name(t: AckType) -> Seq<char> {
    match t {
        AckType::Received => "Received"@,
        AckType::Delivered => "Delivered"@,
    }
}

impl AckType {
    /// The name of the kind in the store.
    pub fn name(&self) -> (r: &'static str)
        ensures
            r@ == ack_type_name(*self),
    {
        match self {
            AckType::Received => "Received",
            AckType::Delivered => "Delivered",
        }
    }
}

/// An acknowledgement of one message by one peer.
#[derive(Debug)]
pub struct Ack {
    /// Identifier of the message.
    pub message_id: String,
    /// Identifier of the peer that acknowledges.
    pub ack_from: String,
    /// Kind of acknowledgement.
    pub ack_type: AckType,
    /// When the acknowledgement was made.
    pub timestamp: Timestamp,
}

impl Ack {
    /// An acknowledgement of receipt, made now.
    pub fn received(message_id: String, ack_from: String) -> (a: Ack)
        ensures
            a.message_id@ == message_id@,
            a.ack_from@ == ack_from@,
            a.ack_type == AckType::Received,
    {
        Ack { message_id, ack_from, ack_type: AckType::Received, timestamp: Timestamp::now() }
    }

    /// An acknowledgement of delivery, made now.
    pub fn delivered(message_id: String, ack_from: String) -> (a: Ack)
        ensures
            a.message_id@ == message_id@,
            a.ack_from@ == ack_from@,
            a.ack_type == AckType::Delivered,
    {
        Ack { message_id, ack_from, ack_type: AckType::Delivered, timestamp: Timestamp::now() }
    }
}

/// A row of the table of messages.
#[derive(Debug)]
pub struct StoredMessage {
    /// Identifier of the message.
    pub message_id: String,
    /// The message on the wire.
    pub message_data: Vec<u8>,
    /// Identifier of the sender.
    pub sender_id: String,
    /// When the message was stored.
    pub received_at: Timestamp,
    /// Seconds that the row lives.
    pub ttl: u32,
    /// Whether the message was delivered.
    pub delivered: bool,
}

/// A row of the table of messages as a mathematical value.
pub struct StoredMessageView {
    pub message_id: Seq<char>,
    pub message_data: Seq<u8>,
    pub sender_id: Seq<char>,
    pub received_at: Timestamp,
    pub ttl: u32,
    pub delivered: bool,
}

impl View for StoredMessage {
    type V = StoredMessageView;

    open spec fn view(&self) -> StoredMessageView {
        StoredMessageView {
            message_id: self.message_id@,
            message_data: self.message_data@,
            sender_id: self.sender_id@,
            received_at: self.received_at,
            ttl: self.ttl,
            delivered: self.delivered,
        }
    }
}

impl Clone for StoredMessage {
    fn clone(&self) -> (r: Self)
        ensures
            r@ == self@,
    {
        StoredMessage {
            message_id: self.message_id.clone(),
            message_data: clone_bytes(&self.message_data),
            sender_id: self.sender_id.clone(),
            received_at: self.received_at,
            ttl: self.ttl,
            delivered: self.delivered,
        }
    }
}

/// A row of the table of seen identifiers.
#[derive(Debug)]
pub struct SeenEntry {
    /// Identifier of the message.
    pub message_id: String,
    /// When the identifier was first seen.
    pub seen_at: Timestamp,
}

/// A row of the table of seen identifiers as a mathematical value.
pub struct SeenEntryView {
    pub message_id: Seq<char>,
    pub seen_at: Timestamp,
}

impl View for SeenEntry {
    type V = SeenEntryView;

    open spec fn view(&self) -> SeenEntryView {
        SeenEntryView { message_id: self.message_id@, seen_at: self.seen_at }
    }
}

/// A row of the table of acknowledgements.
#[derive(Debug)]
pub struct AckRecord {
    /// Identifier of the message.
    pub message_id: String,
    /// Identifier of the peer that acknowledged.
    pub ack_from: String,
    /// Kind of acknowledgement, by name.
    pub ack_type: String,
    /// When the acknowledgement was stored.
    pub timestamp: Timestamp,
}

/// A row of the table of acknowledgements as a mathematical value.
pub struct AckRecordView {
    pub message_id: Seq<char>,
    pub ack_from: Seq<char>,
    pub ack_type: Seq<char>,
    pub timestamp: Timestamp,
}

impl View for AckRecord {
    type V = AckRecordView;

    open spec fn view(&self) -> AckRecordView {
        AckRecordView {
            message_id: self.message_id@,
            ack_from: self.ack_from@,
            ack_type: self.ack_type@,
            timestamp: self.timestamp,
        }
    }
}

/// A row of the ledger of used nonces.
#[derive(Debug)]
pub struct NonceEntry {
    /// The nonce in hexadecimal.
    pub nonce_hex: String,
    /// Identifier of the sender that used it.
    pub sender_id: String,
    /// When the nonce was recorded.
    pub used_at: Timestamp,
    /// When the record may be forgotten.
    pub expires_at: Timestamp,
}

/// A row of the ledger of used nonces as a mathematical value.
pub struct NonceEntryView {
    pub nonce_hex: Seq<char>,
    pub sender_id: Seq<char>,
    pub used_at: Timestamp,
    pub expires_at: Timestamp,
}

impl View for NonceEntry {
    type V = NonceEntryView;

    open spec fn view(&self) -> NonceEntryView {
        NonceEntryView {
            nonce_hex: self.nonce_hex@,
            sender_id: self.sender_id@,
            used_at: self.used_at,
            expires_at: self.expires_at,
        }
    }
}

/// Counts of the store.
#[derive(Clone, Copy, Debug, Default, PartialEq, Eq, Structural)]
pub struct StorageStats {
    pub total_messages: usize,
    pub pending_messages: usize,
    pub seen_messages: usize,
}

/// Why the store refuses.
#[derive(Debug)]
pub enum StorageError {
    /// The engine behind the store failed.
    DatabaseError(String),
    /// The message cannot be written.
    SerializationFailed,
    /// A stored message cannot be read.
    DeserializationFailed,
    /// The message does not keep its limits.
    ValidationFailed(String),
    /// The input is malformed.
    InvalidInput(String),
    /// The key of the store cannot be had.
    EncryptionError(String),
}

impl StorageError {
    /// The error in words.
    pub open spec fn words(self) -> Seq<char> {
        match self {
            StorageError::DatabaseError(m) => "Database error: "@ + m@,
            StorageError::SerializationFailed => "Serialization failed"@,
            StorageError::DeserializationFailed => "Deserialization failed"@,
            StorageError::ValidationFailed(m) => "Message validation failed: "@ + m@,
            StorageError::InvalidInput(m) => "Invalid input: "@ + m@,
            StorageError::EncryptionError(m) => "Encryption error: "@ + m@,
        }
    }

    /// The error in words, as a text.
    pub fn to_string(&self) -> (r: String)
        ensures
            r@ == self.words(),
    {
        match self {
            StorageError::DatabaseError(m) => "Database error: ".to_string().concat(m.as_str()),
            StorageError::SerializationFailed => "Serialization failed".to_string(),
            StorageError::DeserializationFailed => "Deserialization failed".to_string(),
            StorageError::ValidationFailed(m) => "Message validation failed: ".to_string().concat(
                m.as_str(),
            ),
            StorageError::InvalidInput(m) => "Invalid input: ".to_string().concat(m.as_str()),
            StorageError::EncryptionError(m) => "Encryption error: ".to_string().concat(
                m.as_str(),
            ),
        }
    }
}

/// The ledger after a sender used a nonce at `now`: a nonce that is in the
/// ledger keeps its record, any other is recorded for 24 hours.
pub open spec fn with_nonce(
    nonces: Seq<NonceEntryView>,
    nonce_hex: Seq<char>,
    sender: Seq<char>,
    now: Timestamp,
) -> Seq<NonceEntryView> {
    if has_nonce(nonces, nonce_hex, sender) {
        nonces
    } else {
        nonces.push(
            NonceEntryView {
                nonce_hex,
                sender_id: sender,
                used_at: now,
                expires_at: Timestamp {
                    secs: if now.secs + NONCE_TTL_SECONDS > i64::MAX {
                        i64::MAX
                    } else {
                        (now.secs + NONCE_TTL_SECONDS) as i64
                    },
                    nanos: now.nanos,
                },
            },
        )
    }
}

/// A nonce that its sender used is in the ledger from then on.
pub proof fn lemma_used_nonce_is_held(
    nonces: Seq<NonceEntryView>,
    nonce_hex: Seq<char>,
    sender: Seq<char>,
    now: Timestamp,
)
    ensures
        has_nonce(with_nonce(nonces, nonce_hex, sender, now), nonce_hex, sender),
{
    if !has_nonce(nonces, nonce_hex, sender) {
        let after = with_nonce(nonces, nonce_hex, sender, now);
        assert(after[nonces.len() as int].nonce_hex == nonce_hex);
    }
}

/// The rows of a table of messages as mathematical values.
pub open spec fn rows_view(v: Seq<StoredMessage>) -> Seq<StoredMessageView> {
    Seq::new(v.len(), |i: int| v[i]@)
}

/// The rows of a table of seen identifiers as mathematical values.
pub open spec fn seen_view(v: Seq<SeenEntry>) -> Seq<SeenEntryView> {
    Seq::new(v.len(), |i: int| v[i]@)
}

/// The rows of a table of acknowledgements as mathematical values.
pub open spec fn acks_view(v: Seq<AckRecord>) -> Seq<AckRecordView> {
    Seq::new(v.len(), |i: int| v[i]@)
}

/// The rows of a ledger of nonces as mathematical values.
pub open spec fn nonces_view(v: Seq<NonceEntry>) -> Seq<NonceEntryView> {
    Seq::new(v.len(), |i: int| v[i]@)
}

/// Whether a table of messages holds a row with the identifier.
pub open spec fn has_row(rows: Seq<StoredMessageView>, id: Seq<char>) -> bool {
    exists|i: int| 0 <= i < rows.len() && (#[trigger] rows[i]).message_id == id
}

/// Whether the set of seen identifiers holds the identifier.
pub open spec fn has_seen(seen: Seq<SeenEntryView>, id: Seq<char>) -> bool {
    exists|i: int| 0 <= i < seen.len() && (#[trigger] seen[i]).message_id == id
}

/// Whether the ledger holds the nonce for the sender.
pub open spec fn has_nonce(nonces: Seq<NonceEntryView>, nonce_hex: Seq<char>, sender: Seq<char>)
    -> bool {
    exists|i: int|
        0 <= i < nonces.len() && (#[trigger] nonces[i]).nonce_hex == nonce_hex
            && nonces[i].sender_id == sender
}

/// Whether a row has outlived its time at `now`.
pub open spec fn row_expired(r: StoredMessageView, now: Timestamp) -> bool {
    now.seconds_since(r.received_at) >= r.ttl
}

/// The rows that have not outlived their time at `now`, in their order.
pub open spec fn unexpired(rows: Seq<StoredMessageView>, now: Timestamp) -> Seq<
    StoredMessageView,
>
    decreases rows.len(),
{
    if rows.len() == 0 {
        rows
    } else if row_expired(rows.last(), now) {
        unexpired(rows.drop_last(), now)
    } else {
        unexpired(rows.drop_last(), now).push(rows.last())
    }
}

/// The rows that are not delivered, in their order.
pub open spec fn pending(rows: Seq<StoredMessageView>) -> Seq<StoredMessageView>
    decreases rows.len(),
{
    if rows.len() == 0 {
        rows
    } else if rows.last().delivered {
        pending(rows.drop_last())
    } else {
        pending(rows.drop_last()).push(rows.last())
    }
}

/// The nonces that may not yet be forgotten at `now`, in their order.
pub open spec fn live_nonces(nonces: Seq<NonceEntryView>, now: Timestamp) -> Seq<NonceEntryView>
    decreases nonces.len(),
{
    if nonces.len() == 0 {
        nonces
    } else if nonces.last().expires_at.total_nanos() < now.total_nanos() {
        live_nonces(nonces.drop_last(), now)
    } else {
        live_nonces(nonces.drop_last(), now).push(nonces.last())
    }
}

/// The place at which a row that was stored at `at` goes: behind every
/// row that was not stored later.
pub open spec fn slot(rows: Seq<StoredMessageView>, at: Timestamp) -> int
    decreases rows.len(),
{
    if rows.len() == 0 {
        0
    } else if at.total_nanos() < rows.last().received_at.total_nanos() {
        slot(rows.drop_last(), at)
    } else {
        rows.len() as int
    }
}

/// The rows with the row of that identifier marked as delivered.
pub open spec fn with_delivered(rows: Seq<StoredMessageView>, id: Seq<char>) -> Seq<
    StoredMessageView,
> {
    Seq::new(
        rows.len(),
        |i: int|
            if rows[i].message_id == id {
                StoredMessageView { delivered: true, ..rows[i] }
            } else {
                rows[i]
            },
    )
}

/// Marking is idempotent, and a row that is delivered stays so: marking
/// changes nothing of a row but its flag, and sets the flag only.
pub proof fn lemma_delivered_stays(rows: Seq<StoredMessageView>, id: Seq<char>)
    ensures
        with_delivered(with_delivered(rows, id), id) == with_delivered(rows, id),
        with_delivered(rows, id).len() == rows.len(),
        forall|i: int|
            0 <= i < rows.len() ==> (#[trigger] with_delivered(rows, id)[i]) == (StoredMessageView {
                delivered: rows[i].delivered || rows[i].message_id == id,
                ..rows[i]
            }),
{
    assert(with_delivered(with_delivered(rows, id), id) =~= with_delivered(rows, id));
}

/// Whether no two rows have the same identifier.
pub open spec fn distinct_rows(rows: Seq<StoredMessageView>) -> bool {
    forall|i: int, j: int|
        0 <= i < j < rows.len() ==> (#[trigger] rows[i]).message_id != (
        #[trigger] rows[j]).message_id
}

/// Whether no identifier is recorded as seen twice.
pub open spec fn distinct_seen(seen: Seq<SeenEntryView>) -> bool {
    forall|i: int, j: int|
        0 <= i < j < seen.len() ==> (#[trigger] seen[i]).message_id != (
        #[trigger] seen[j]).message_id
}

/// Whether two acknowledgements are of one message, one peer and one kind.
pub open spec fn same_ack(a: AckRecordView, b: AckRecordView) -> bool {
    a.message_id == b.message_id && a.ack_from == b.ack_from && a.ack_type == b.ack_type
}

/// Whether no message has two acknowledgements of one peer and one kind.
pub open spec fn distinct_acks(acks: Seq<AckRecordView>) -> bool {
    forall|i: int, j: int| 0 <= i < j < acks.len()
        ==> !same_ack(#[trigger] acks[i], #[trigger] acks[j])
}

/// Whether no nonce is recorded twice for one sender.
pub open spec fn distinct_nonces(nonces: Seq<NonceEntryView>) -> bool {
    forall|i: int, j: int|
        0 <= i < j < nonces.len() ==> !((#[trigger] nonces[i]).nonce_hex == (
        #[trigger] nonces[j]).nonce_hex && nonces[i].sender_id == nonces[j].sender_id)
}

/// A nonce that is used is recorded once for its sender.
pub proof fn lemma_nonce_once(
    nonces: Seq<NonceEntryView>,
    nonce_hex: Seq<char>,
    sender: Seq<char>,
    now: Timestamp,
)
    requires
        distinct_nonces(nonces),
    ensures
        distinct_nonces(with_nonce(nonces, nonce_hex, sender, now)),
{
    let after = with_nonce(nonces, nonce_hex, sender, now);
    if !has_nonce(nonces, nonce_hex, sender) {
        assert forall|i: int, j: int| 0 <= i < j < after.len() implies !((
        #[trigger] after[i]).nonce_hex == (#[trigger] after[j]).nonce_hex && after[i].sender_id
            == after[j].sender_id) by {
            if j < nonces.len() {
                assert(after[i] == nonces[i] && after[j] == nonces[j]);
            } else {
                assert(after[i] == nonces[i]);
            }
        }
    }
}

/// The nonces that are kept were in the ledger, and none is recorded
/// twice for one sender where none was before.
pub proof fn lemma_live_nonces_distinct(nonces: Seq<NonceEntryView>, now: Timestamp)
    requires
        distinct_nonces(nonces),
    ensures
        distinct_nonces(live_nonces(nonces, now)),
        forall|k: int|
            0 <= k < live_nonces(nonces, now).len() ==> nonces.contains(
                #[trigger] live_nonces(nonces, now)[k],
            ),
    decreases nonces.len(),
{
    if nonces.len() > 0 {
        let t = nonces.drop_last();
        assert forall|i: int, j: int| 0 <= i < j < t.len() implies !((#[trigger] t[i]).nonce_hex
            == (#[trigger] t[j]).nonce_hex && t[i].sender_id == t[j].sender_id) by {
            assert(t[i] == nonces[i] && t[j] == nonces[j]);
        }
        lemma_live_nonces_distinct(t, now);
        let kept = live_nonces(nonces, now);
        let before = live_nonces(t, now);
        assert forall|k: int| 0 <= k < kept.len() implies nonces.contains(#[trigger] kept[k]) by {
            if k < before.len() {
                assert(kept[k] == before[k]);
                assert(t.contains(before[k]));
                let m = choose|m: int| 0 <= m < t.len() && t[m] == before[k];
                assert(nonces[m] == kept[k]);
            } else {
                assert(nonces[nonces.len() - 1] == kept[k]);
            }
        }
        assert forall|i: int, j: int| 0 <= i < j < kept.len() implies !((
        #[trigger] kept[i]).nonce_hex == (#[trigger] kept[j]).nonce_hex && kept[i].sender_id
            == kept[j].sender_id) by {
            if j < before.len() {
                assert(kept[i] == before[i] && kept[j] == before[j]);
            } else {
                assert(kept[i] == before[i]);
                assert(t.contains(before[i]));
                let m = choose|m: int| 0 <= m < t.len() && t[m] == before[i];
                assert(nonces[m] == kept[i]);
                assert(nonces[nonces.len() - 1] == kept[j]);
            }
        }
    }
}

/// An acknowledgement that is put in place of the one of its message,
/// peer and kind leaves none twice.
pub proof fn lemma_ack_once(acks: Seq<AckRecordView>, a: AckRecordView)
    requires
        distinct_acks(acks),
    ensures
        distinct_acks(without_ack(acks, a.message_id, a.ack_from, a.ack_type).push(a)),
{
    lemma_without_ack(acks, a);
    let left = without_ack(acks, a.message_id, a.ack_from, a.ack_type);
    let after = left.push(a);
    assert forall|i: int, j: int| 0 <= i < j < after.len() implies !same_ack(
        #[trigger] after[i],
        #[trigger] after[j],
    ) by {
        if j < left.len() {
            assert(after[i] == left[i] && after[j] == left[j]);
        } else {
            assert(after[i] == left[i]);
        }
    }
}

proof fn lemma_without_ack(acks: Seq<AckRecordView>, a: AckRecordView)
    ensures
        forall|k: int|
            0 <= k < without_ack(acks, a.message_id, a.ack_from, a.ack_type).len() ==> !same_ack(
                #[trigger] without_ack(acks, a.message_id, a.ack_from, a.ack_type)[k],
                a,
            ) && acks.contains(without_ack(acks, a.message_id, a.ack_from, a.ack_type)[k]),
        distinct_acks(acks) ==> distinct_acks(
            without_ack(acks, a.message_id, a.ack_from, a.ack_type),
        ),
    decreases acks.len(),
{
    if acks.len() > 0 {
        let t = acks.drop_last();
        lemma_without_ack(t, a);
        let kept = without_ack(acks, a.message_id, a.ack_from, a.ack_type);
        let before = without_ack(t, a.message_id, a.ack_from, a.ack_type);
        assert forall|k: int| 0 <= k < kept.len() implies !same_ack(#[trigger] kept[k], a)
            && acks.contains(kept[k]) by {
            if k < before.len() {
                assert(kept[k] == before[k]);
                assert(t.contains(before[k]));
                let m = choose|m: int| 0 <= m < t.len() && t[m] == before[k];
                assert(acks[m] == kept[k]);
            } else {
                assert(acks[acks.len() - 1] == kept[k]);
            }
        }
        if distinct_acks(acks) {
            assert forall|i: int, j: int| 0 <= i < j < t.len() implies !same_ack(
                #[trigger] t[i],
                #[trigger] t[j],
            ) by {
                assert(t[i] == acks[i] && t[j] == acks[j]);
            }
            assert forall|i: int, j: int| 0 <= i < j < kept.len() implies !same_ack(
                #[trigger] kept[i],
                #[trigger] kept[j],
            ) by {
                if j < before.len() {
                    assert(kept[i] == before[i] && kept[j] == before[j]);
                } else {
                    assert(kept[i] == before[i]);
                    assert(t.contains(before[i]));
                    let m = choose|m: int| 0 <= m < t.len() && t[m] == before[i];
                    assert(acks[m] == kept[i]);
                    assert(acks[acks.len() - 1] == kept[j]);
                }
            }
        }
    }
}

/// Whether the rows are in the order in which they were stored.
pub open spec fn rows_sorted(rows: Seq<StoredMessageView>) -> bool {
    forall|i: int, j: int|
        0 <= i < j < rows.len() ==> (#[trigger] rows[i]).received_at.total_nanos() <= (
        #[trigger] rows[j]).received_at.total_nanos()
}

/// The four tables of a store, as they are kept between runs.
#[derive(Debug)]
pub struct StorageTables {
    /// The table of messages.
    pub messages: Vec<StoredMessage>,
    /// The table of seen identifiers.
    pub seen: Vec<SeenEntry>,
    /// The table of acknowledgements.
    pub acks: Vec<AckRecord>,
    /// The ledger of used nonces.
    pub nonces: Vec<NonceEntry>,
}

/// Whether tables keep the order of a store: every stored message was
/// seen, no identifier is stored or seen twice, no acknowledgement and no
/// nonce of a sender is recorded twice, the rows are in the order of their
/// storing, and every row reads as a message.
pub open spec fn tables_in_order(
    rows: Seq<StoredMessageView>,
    seen: Seq<SeenEntryView>,
    acks: Seq<AckRecordView>,
    nonces: Seq<NonceEntryView>,
) -> bool {
    &&& distinct_rows(rows)
    &&& distinct_seen(seen)
    &&& distinct_acks(acks)
    &&& distinct_nonces(nonces)
    &&& rows_sorted(rows)
    &&& forall|i: int| 0 <= i < rows.len() ==> has_seen(seen, (#[trigger] rows[i]).message_id)
    &&& forall|i: int|
        0 <= i < rows.len() ==> message_of_bytes((#[trigger] rows[i]).message_data) is Some
}

/// The local store.
pub struct Storage {
    messages: Vec<StoredMessage>,
    seen: Vec<SeenEntry>,
    acks: Vec<AckRecord>,
    nonces: Vec<NonceEntry>,
}

fn acks_are_distinct(acks: &Vec<AckRecord>) -> (r: bool)
    ensures
        r == distinct_acks(acks_view(acks@)),
{
    let ghost s = acks_view(acks@);
    let n = acks.len();
    let mut i: usize = 0;
    while i < n
        invariant
            i <= n,
            n == acks@.len(),
            s == acks_view(acks@),
            forall|a: int, b: int| 0 <= a < b < i ==> !same_ack(#[trigger] s[a], #[trigger] s[b]),
        decreases n - i,
    {
        let mut j: usize = 0;
        while j < i
            invariant
                j <= i,
                i < n,
                n == acks@.len(),
                s == acks_view(acks@),
                forall|a: int| 0 <= a < j ==> !same_ack(#[trigger] s[a], s[i as int]),
            decreases i - j,
        {
            assert(s[j as int] == acks@[j as int]@);
            assert(s[i as int] == acks@[i as int]@);
            if str_eq(acks[j].message_id.as_str(), acks[i].message_id.as_str()) && str_eq(
                acks[j].ack_from.as_str(),
                acks[i].ack_from.as_str(),
            ) && str_eq(acks[j].ack_type.as_str(), acks[i].ack_type.as_str()) {
                assert(same_ack(s[j as int], s[i as int]));
                return false;
            }
            j = j + 1;
        }
        i = i + 1;
    }
    true
}

fn nonces_are_distinct(nonces: &Vec<NonceEntry>) -> (r: bool)
    ensures
        r == distinct_nonces(nonces_view(nonces@)),
{
    let ghost s = nonces_view(nonces@);
    let n = nonces.len();
    let mut i: usize = 0;
    while i < n
        invariant
            i <= n,
            n == nonces@.len(),
            s == nonces_view(nonces@),
            forall|a: int, b: int|
                0 <= a < b < i ==> !((#[trigger] s[a]).nonce_hex == (#[trigger] s[b]).nonce_hex
                    && s[a].sender_id == s[b].sender_id),
        decreases n - i,
    {
        let mut j: usize = 0;
        while j < i
            invariant
                j <= i,
                i < n,
                n == nonces@.len(),
                s == nonces_view(nonces@),
                forall|a: int|
                    0 <= a < j ==> !((#[trigger] s[a]).nonce_hex == s[i as int].nonce_hex
                        && s[a].sender_id == s[i as int].sender_id),
            decreases i - j,
        {
            assert(s[j as int] == nonces@[j as int]@);
            assert(s[i as int] == nonces@[i as int]@);
            if str_eq(nonces[j].nonce_hex.as_str(), nonces[i].nonce_hex.as_str()) && str_eq(
                nonces[j].sender_id.as_str(),
                nonces[i].sender_id.as_str(),
            ) {
                assert(s[j as int].nonce_hex == s[i as int].nonce_hex);
                return false;
            }
            j = j + 1;
        }
        i = i + 1;
    }
    true
}

fn seen_is_distinct(seen: &Vec<SeenEntry>) -> (r: bool)
    ensures
        r == distinct_seen(seen_view(seen@)),
{
    let ghost s = seen_view(seen@);
    let n = seen.len();
    let mut i: usize = 0;
    while i < n
        invariant
            i <= n,
            n == seen@.len(),
            s == seen_view(seen@),
            forall|a: int, b: int|
                0 <= a < b < i ==> (#[trigger] s[a]).message_id != (#[trigger] s[b]).message_id,
        decreases n - i,
    {
        let mut j: usize = 0;
        while j < i
            invariant
                j <= i,
                i < n,
                n == seen@.len(),
                s == seen_view(seen@),
                forall|a: int| 0 <= a < j
                    ==> (#[trigger] s[a]).message_id != s[i as int].message_id,
            decreases i - j,
        {
            assert(s[j as int] == seen@[j as int]@);
            assert(s[i as int] == seen@[i as int]@);
            if str_eq(seen[j].message_id.as_str(), seen[i].message_id.as_str()) {
                assert(s[j as int].message_id == s[i as int].message_id);
                return false;
            }
            j = j + 1;
        }
        i = i + 1;
    }
    true
}

fn seen_holds(seen: &Vec<SeenEntry>, message_id: &str) -> (r: bool)
    ensures
        r == has_seen(seen_view(seen@), message_id@),
{
    let n = seen.len();
    let mut i: usize = 0;
    while i < n
        invariant
            i <= n,
            n == seen@.len(),
            forall|j: int|
                0 <= j < i ==> (#[trigger] seen_view(seen@)[j]).message_id != message_id@,
        decreases n - i,
    {
        if str_eq(seen[i].message_id.as_str(), message_id) {
            assert(seen_view(seen@)[i as int].message_id == message_id@);
            return true;
        }
        i = i + 1;
    }
    false
}

impl Storage {
    /// The table of messages, in the order in which they were stored.
    pub closed spec fn rows(self) -> Seq<StoredMessageView> {
        rows_view(self.messages@)
    }

    /// The table of seen identifiers.
    pub closed spec fn seen(self) -> Seq<SeenEntryView> {
        seen_view(self.seen@)
    }

    /// The table of acknowledgements.
    pub closed spec fn acks(self) -> Seq<AckRecordView> {
        acks_view(self.acks@)
    }

    /// The ledger of used nonces.
    pub closed spec fn nonces(self) -> Seq<NonceEntryView> {
        nonces_view(self.nonces@)
    }

    /// Every stored message was seen, no identifier is stored twice, the
    /// rows are in the order of their storing, and every row reads as a
    /// message.
    pub open spec fn wf(self) -> bool {
        &&& distinct_rows(self.rows())
        &&& distinct_seen(self.seen())
        &&& distinct_acks(self.acks())
        &&& distinct_nonces(self.nonces())
        &&& rows_sorted(self.rows())
        &&& forall|i: int|
            0 <= i < self.rows().len() ==> has_seen(
                self.seen(),
                (#[trigger] self.rows()[i]).message_id,
            )
        &&& forall|i: int|
            0 <= i < self.rows().len() ==> message_of_bytes(
                (#[trigger] self.rows()[i]).message_data,
            ) is Some
    }

    /// An empty store.
    pub fn new() -> (s: Storage)
        ensures
            s.wf(),
            s.rows().len() == 0,
            s.seen().len() == 0,
            s.acks().len() == 0,
            s.nonces().len() == 0,
    {
        Storage { messages: Vec::new(), seen: Vec::new(), acks: Vec::new(), nonces: Vec::new() }
    }

    fn find_row(&self, id: &str) -> (r: Option<usize>)
        ensures
            match r {
                Some(i) => i < self.rows().len() && self.rows()[i as int].message_id == id@,
                None => !has_row(self.rows(), id@),
            },
    {
        let n = self.messages.len();
        let mut i: usize = 0;
        while i < n
            invariant
                i <= n,
                n == self.messages@.len(),
                forall|j: int| 0 <= j < i ==> (#[trigger] self.rows()[j]).message_id != id@,
            decreases n - i,
        {
            if str_eq(self.messages[i].message_id.as_str(), id) {
                return Some(i);
            }
            i = i + 1;
        }
        None
    }

    /// The four tables of the store, to be kept between runs.
    pub fn tables(&self) -> (t: StorageTables)
        ensures
            rows_view(t.messages@) == self.rows(),
            seen_view(t.seen@) == self.seen(),
            acks_view(t.acks@) == self.acks(),
            nonces_view(t.nonces@) == self.nonces(),
    {
        let mut messages: Vec<StoredMessage> = Vec::new();
        let mut i: usize = 0;
        while i < self.messages.len()
            invariant
                i <= self.messages@.len(),
                messages@.len() == i,
                forall|k: int| 0 <= k < i ==> (#[trigger] messages@[k])@ == self.messages@[k]@,
            decreases self.messages@.len() - i,
        {
            messages.push(self.messages[i].clone());
            i = i + 1;
        }
        let mut seen: Vec<SeenEntry> = Vec::new();
        let mut i: usize = 0;
        while i < self.seen.len()
            invariant
                i <= self.seen@.len(),
                seen@.len() == i,
                forall|k: int| 0 <= k < i ==> (#[trigger] seen@[k])@ == self.seen@[k]@,
            decreases self.seen@.len() - i,
        {
            seen.push(
                SeenEntry {
                    message_id: self.seen[i].message_id.clone(),
                    seen_at: self.seen[i].seen_at,
                },
            );
            i = i + 1;
        }
        let mut acks: Vec<AckRecord> = Vec::new();
        let mut i: usize = 0;
        while i < self.acks.len()
            invariant
                i <= self.acks@.len(),
                acks@.len() == i,
                forall|k: int| 0 <= k < i ==> (#[trigger] acks@[k])@ == self.acks@[k]@,
            decreases self.acks@.len() - i,
        {
            acks.push(
                AckRecord {
                    message_id: self.acks[i].message_id.clone(),
                    ack_from: self.acks[i].ack_from.clone(),
                    ack_type: self.acks[i].ack_type.clone(),
                    timestamp: self.acks[i].timestamp,
                },
            );
            i = i + 1;
        }
        let mut nonces: Vec<NonceEntry> = Vec::new();
        let mut i: usize = 0;
        while i < self.nonces.len()
            invariant
                i <= self.nonces@.len(),
                nonces@.len() == i,
                forall|k: int| 0 <= k < i ==> (#[trigger] nonces@[k])@ == self.nonces@[k]@,
            decreases self.nonces@.len() - i,
        {
            nonces.push(
                NonceEntry {
                    nonce_hex: self.nonces[i].nonce_hex.clone(),
                    sender_id: self.nonces[i].sender_id.clone(),
                    used_at: self.nonces[i].used_at,
                    expires_at: self.nonces[i].expires_at,
                },
            );
            i = i + 1;
        }
        assert(rows_view(messages@) =~= self.rows());
        assert(seen_view(seen@) =~= self.seen());
        assert(acks_view(acks@) =~= self.acks());
        assert(nonces_view(nonces@) =~= self.nonces());
        StorageTables { messages, seen, acks, nonces }
    }

    /// The store that holds the tables that were kept. Tables that do not
    /// keep the order of a store are refused: a row that does not read as a
    /// message, an identifier that is stored twice or was not seen, rows
    /// that are not in the order of their storing.
    pub fn from_tables(tables: StorageTables) -> (r: Result<Storage, StorageError>)
        ensures
            match r {
                Ok(s) => {
                    &&& tables_in_order(
                        rows_view(tables.messages@),
                        seen_view(tables.seen@),
                        acks_view(tables.acks@),
                        nonces_view(tables.nonces@),
                    )
                    &&& s.wf()
                    &&& s.rows() == rows_view(tables.messages@)
                    &&& s.seen() == seen_view(tables.seen@)
                    &&& s.acks() == acks_view(tables.acks@)
                    &&& s.nonces() == nonces_view(tables.nonces@)
                },
                Err(e) => e is InvalidInput && !tables_in_order(
                    rows_view(tables.messages@),
                    seen_view(tables.seen@),
                    acks_view(tables.acks@),
                    nonces_view(tables.nonces@),
                ),
            },
    {
        if !seen_is_distinct(&tables.seen) {
            return Err(StorageError::InvalidInput("identifier is seen twice".to_string()));
        }
        if !acks_are_distinct(&tables.acks) {
            return Err(
                StorageError::InvalidInput("acknowledgement is recorded twice".to_string()),
            );
        }
        if !nonces_are_distinct(&tables.nonces) {
            return Err(StorageError::InvalidInput("nonce is recorded twice".to_string()));
        }
        let ghost rows = rows_view(tables.messages@);
        let n = tables.messages.len();
        let mut i: usize = 0;
        while i < n
            invariant
                i <= n,
                n == tables.messages@.len(),
                distinct_seen(seen_view(tables.seen@)),
                distinct_acks(acks_view(tables.acks@)),
                distinct_nonces(nonces_view(tables.nonces@)),
                rows == rows_view(tables.messages@),
                forall|a: int, b: int|
                    0 <= a < b < i ==> (#[trigger] rows[a]).message_id != (
                    #[trigger] rows[b]).message_id,
                forall|a: int, b: int|
                    0 <= a < b < i ==> (#[trigger] rows[a]).received_at.total_nanos() <= (
                    #[trigger] rows[b]).received_at.total_nanos(),
                forall|k: int|
                    0 <= k < i ==> has_seen(
                        seen_view(tables.seen@),
                        (#[trigger] rows[k]).message_id,
                    ),
                forall|k: int|
                    0 <= k < i ==> message_of_bytes((#[trigger] rows[k]).message_data) is Some,
            decreases n - i,
        {
            assert(rows[i as int] == tables.messages@[i as int]@);
            if Message::decode(tables.messages[i].message_data.as_slice()).is_none() {
                return Err(StorageError::InvalidInput("row holds no message".to_string()));
            }
            if !seen_holds(&tables.seen, tables.messages[i].message_id.as_str()) {
                return Err(StorageError::InvalidInput("row was not seen".to_string()));
            }
            if i > 0 {
                assert(rows[i - 1] == tables.messages@[i - 1]@);
                if tables.messages[i].received_at.is_before(&tables.messages[i - 1].received_at) {
                    assert(!(rows[i - 1].received_at.total_nanos()
                        <= rows[i as int].received_at.total_nanos()));
                    return Err(StorageError::InvalidInput("rows are out of order".to_string()));
                }
                assert forall|a: int| 0 <= a < i implies (
                #[trigger] rows[a]).received_at.total_nanos()
                    <= rows[i as int].received_at.total_nanos() by {
                    if a < i - 1 {
                        assert(rows[a].received_at.total_nanos()
                            <= rows[i - 1].received_at.total_nanos());
                    }
                }
            }
            let mut j: usize = 0;
            while j < i
                invariant
                    j <= i,
                    i < n,
                    n == tables.messages@.len(),
                    distinct_seen(seen_view(tables.seen@)),
                    distinct_acks(acks_view(tables.acks@)),
                    distinct_nonces(nonces_view(tables.nonces@)),
                    rows == rows_view(tables.messages@),
                    forall|a: int|
                        0 <= a < j ==> (#[trigger] rows[a]).message_id != rows[i as int].message_id,
                decreases i - j,
            {
                assert(rows[j as int] == tables.messages@[j as int]@);
                assert(rows[i as int] == tables.messages@[i as int]@);
                if str_eq(
                    tables.messages[j].message_id.as_str(),
                    tables.messages[i].message_id.as_str(),
                ) {
                    assert(rows[j as int].message_id == rows[i as int].message_id);
                    assert(!distinct_rows(rows));
                    return Err(
                        StorageError::InvalidInput("identifier is stored twice".to_string()),
                    );
                }
                j = j + 1;
            }
            i = i + 1;
        }
        Ok(
            Storage {
                messages: tables.messages,
                seen: tables.seen,
                acks: tables.acks,
                nonces: tables.nonces,
            },
        )
    }

    /// Whether the identifier was seen.
    pub fn is_message_seen(&self, message_id: &str) -> (r: Result<bool, StorageError>)
        ensures
            r matches Ok(b) && b == has_seen(self.seen(), message_id@),
    {
        Ok(seen_holds(&self.seen, message_id))
    }

    /// Records that the identifier was seen at `now`. An identifier that
    /// was seen before keeps its first time.
    pub fn mark_message_seen(&mut self, message_id: &str, now: Timestamp) -> (r: Result<
        (),
        StorageError,
    >)
        requires
            old(self).wf(),
        ensures
            r is Ok,
            final(self).wf(),
            has_seen(final(self).seen(), message_id@),
            final(self).seen() == if has_seen(old(self).seen(), message_id@) {
                old(self).seen()
            } else {
                old(self).seen().push(SeenEntryView { message_id: message_id@, seen_at: now })
            },
            forall|id: Seq<char>|
                has_seen(old(self).seen(), id) ==> has_seen(final(self).seen(), id),
            final(self).rows() == old(self).rows(),
            final(self).acks() == old(self).acks(),
            final(self).nonces() == old(self).nonces(),
    {
        let known = match self.is_message_seen(message_id) {
            Ok(b) => b,
            Err(_) => false,
        };
        if !known {
            let ghost before = self.seen();
            self.seen.push(SeenEntry { message_id: message_id.to_string(), seen_at: now });
            assert(self.seen() =~= before.push(
                SeenEntryView { message_id: message_id@, seen_at: now },
            ));
            assert(self.seen()[before.len() as int].message_id == message_id@);
            assert forall|id: Seq<char>| has_seen(before, id) implies has_seen(self.seen(), id) by {
                let k = choose|k: int| 0 <= k < before.len() && (#[trigger] before[k]).message_id
                    == id;
                assert(self.seen()[k].message_id == id);
            }
        }
        Ok(())
    }

    /// What storing a message answers and does to the rows.
    pub open spec fn store_verdict(self, m: MessageView) -> Result<bool, MessageError> {
        if has_seen(self.seen(), m.id) {
            Ok(false)
        } else {
            match payload_verdict(m.payload) {
                Err(e) => Err(e),
                Ok(()) => Ok(true),
            }
        }
    }

    /// Stores a message as not delivered. See `store_message_with_delivered`.
    pub fn store_message(&mut self, message: &Message, now: Timestamp) -> (r: Result<
        (),
        StorageError,
    >)
        requires
            old(self).wf(),
        ensures
            final(self).wf(),
            stored_as(*old(self), *final(self), message@, false, now, r),
    {
        self.store_message_with_delivered(message, false, now)
    }

    /// Stores a message that was received at `now`. A message whose
    /// identifier was seen is ignored. Another one is held to its limits
    /// and refused where it breaks them; else it gets a row of 3600 seconds
    /// to live, and its identifier is recorded as seen. The caller vouches
    /// for the signature of a message that came from the network.
    pub fn store_message_with_delivered(
        &mut self,
        message: &Message,
        delivered: bool,
        now: Timestamp,
    ) -> (r: Result<(), StorageError>)
        requires
            old(self).wf(),
        ensures
            final(self).wf(),
            stored_as(*old(self), *final(self), message@, delivered, now, r),
    {
        let known = match self.is_message_seen(message.id.as_str()) {
            Ok(b) => b,
            Err(_) => false,
        };
        if known {
            return Ok(());
        }
        match message.validate() {
            Ok(()) => {},
            Err(e) => {
                return Err(StorageError::ValidationFailed(e.to_string()));
            },
        }
        let data = match message.encode() {
            Some(d) => d,
            None => {
                return Err(StorageError::SerializationFailed);
            },
        };
        let row = StoredMessage {
            message_id: message.id.clone(),
            message_data: data,
            sender_id: message.sender_id.clone(),
            received_at: now,
            ttl: MESSAGE_TTL_SECONDS,
            delivered,
        };
        proof {
            let rows0 = self.rows();
            if has_row(rows0, message@.id) {
                let k = choose|k: int| 0 <= k < rows0.len() && (#[trigger] rows0[k]).message_id
                    == message@.id;
                assert(has_seen(self.seen(), rows0[k].message_id));
            }
        }
        self.insert_row(row);
        Ok(())
    }

    fn row_slot(&self, at: &Timestamp) -> (i: usize)
        requires
            rows_sorted(self.rows()),
        ensures
            i == slot(self.rows(), *at),
            i <= self.rows().len(),
            forall|j: int|
                i <= j < self.rows().len() ==> at.total_nanos() < (
                #[trigger] self.rows()[j]).received_at.total_nanos(),
            forall|j: int|
                0 <= j < i ==> (#[trigger] self.rows()[j]).received_at.total_nanos()
                    <= at.total_nanos(),
    {
        let ghost rows0 = self.rows();
        let mut i: usize = self.messages.len();
        assert(rows0.take(rows0.len() as int) =~= rows0);
        while i > 0 && at.is_before(&self.messages[i - 1].received_at)
            invariant
                i <= self.messages@.len(),
                rows0 == self.rows(),
                slot(rows0, *at) == slot(rows0.take(i as int), *at),
                forall|j: int|
                    i <= j < rows0.len() ==> at.total_nanos() < (
                    #[trigger] rows0[j]).received_at.total_nanos(),
            decreases i,
        {
            assert(rows0.take(i as int).drop_last() =~= rows0.take(i - 1));
            assert(rows0.take(i as int).last() == rows0[i - 1]);
            i = i - 1;
        }
        proof {
            if i > 0 {
                assert(rows0.take(i as int).last() == rows0[i - 1]);
                assert forall|j: int| 0 <= j < i implies (
                #[trigger] rows0[j]).received_at.total_nanos() <= at.total_nanos() by {
                    if j < i - 1 {
                        assert(rows0[j].received_at.total_nanos() <= rows0[i
                            - 1].received_at.total_nanos());
                    }
                }
            }
        }
        i
    }

    fn insert_row(&mut self, row: StoredMessage)
        requires
            old(self).wf(),
            !has_row(old(self).rows(), row@.message_id),
            message_of_bytes(row@.message_data) is Some,
        ensures
            final(self).wf(),
            final(self).rows() == old(self).rows().insert(
                slot(old(self).rows(), row@.received_at),
                row@,
            ),
            final(self).seen() == if has_seen(old(self).seen(), row@.message_id) {
                old(self).seen()
            } else {
                old(self).seen().push(
                    SeenEntryView { message_id: row@.message_id, seen_at: row@.received_at },
                )
            },
            has_seen(final(self).seen(), row@.message_id),
            final(self).acks() == old(self).acks(),
            final(self).nonces() == old(self).nonces(),
    {
        let ghost rows0 = self.rows();
        let ghost seen0 = self.seen();
        let ghost rv = row@;
        let at = row.received_at;
        let id = row.message_id.clone();
        let i = self.row_slot(&at);
        self.messages.insert(i, row);
        assert(self.rows() =~= rows0.insert(i as int, rv));
        let known = match self.is_message_seen(id.as_str()) {
            Ok(b) => b,
            Err(_) => false,
        };
        if !known {
            self.seen.push(SeenEntry { message_id: id, seen_at: at });
            proof {
                let seen1 = self.seen();
                assert(seen1 =~= seen0.push(
                    SeenEntryView { message_id: rv.message_id, seen_at: at },
                ));
                assert(seen1[seen0.len() as int].message_id == rv.message_id);
                assert forall|x: Seq<char>| has_seen(seen0, x) implies has_seen(seen1, x) by {
                    let w = choose|w: int| 0 <= w < seen0.len() && (#[trigger] seen0[w]).message_id
                        == x;
                    assert(seen1[w].message_id == x);
                }
            }
        }
        proof {
            lemma_insert_keeps_order(rows0, seen0, self.seen(), i as int, rv);
        }
    }

    /// Stores at `now` a message whose packet was taken in. A message of
    /// which the store holds a row is ignored; another one is held to its
    /// limits, gets its row, and has its identifier recorded as seen where
    /// it was not.
    pub fn store_received(&mut self, message: &Message, now: Timestamp) -> (r: Result<
        (),
        StorageError,
    >)
        requires
            old(self).wf(),
        ensures
            final(self).wf(),
            received_as(*old(self), *final(self), message@, now, r),
    {
        match self.find_row(message.id.as_str()) {
            Some(_) => {
                return Ok(());
            },
            None => {},
        }
        match message.validate() {
            Ok(()) => {},
            Err(e) => {
                return Err(StorageError::ValidationFailed(e.to_string()));
            },
        }
        let data = match message.encode() {
            Some(d) => d,
            None => {
                return Err(StorageError::SerializationFailed);
            },
        };
        let row = StoredMessage {
            message_id: message.id.clone(),
            message_data: data,
            sender_id: message.sender_id.clone(),
            received_at: now,
            ttl: MESSAGE_TTL_SECONDS,
            delivered: false,
        };
        self.insert_row(row);
        Ok(())
    }

    /// The rows that are not delivered, oldest first.
    pub fn get_pending_messages(&self) -> (r: Result<Vec<StoredMessage>, StorageError>)
        ensures
            r matches Ok(v) && rows_view(v@) == pending(self.rows()),
    {
        let mut out: Vec<StoredMessage> = Vec::new();
        let n = self.messages.len();
        let ghost s = self.rows();
        let mut i: usize = 0;
        assert(rows_view(out@) =~= pending(s.take(0)));
        while i < n
            invariant
                i <= n,
                n == self.messages@.len(),
                s == self.rows(),
                rows_view(out@) == pending(s.take(i as int)),
            decreases n - i,
        {
            assert(s.take(i + 1).drop_last() =~= s.take(i as int));
            assert(s.take(i + 1).last() == s[i as int]);
            if !self.messages[i].delivered {
                out.push(self.messages[i].clone());
                assert(rows_view(out@) =~= pending(s.take(i as int)).push(s[i as int]));
            }
            i = i + 1;
        }
        assert(s.take(n as int) =~= s);
        Ok(out)
    }

    /// Marks the message as delivered. A message that is delivered stays
    /// so; an identifier without a row changes nothing.
    pub fn mark_delivered(&mut self, message_id: &str) -> (r: Result<(), StorageError>)
        requires
            old(self).wf(),
        ensures
            r is Ok,
            final(self).wf(),
            final(self).rows() == with_delivered(old(self).rows(), message_id@),
            final(self).seen() == old(self).seen(),
            final(self).acks() == old(self).acks(),
            final(self).nonces() == old(self).nonces(),
    {
        let ghost rows0 = self.rows();
        match self.find_row(message_id) {
            Some(i) => {
                let row = self.messages.remove(i);
                let marked = StoredMessage { delivered: true, ..row };
                self.messages.insert(i, marked);
                proof {
                    let rows1 = self.rows();
                    assert forall|k: int| 0 <= k < rows0.len() implies rows1[k] == with_delivered(
                        rows0,
                        message_id@,
                    )[k] by {
                        if k != i {
                            assert(rows0[k].message_id != message_id@) by {
                                if k < i {
                                    assert(rows0[k].message_id != rows0[i as int].message_id);
                                } else {
                                    assert(rows0[i as int].message_id != rows0[k].message_id);
                                }
                            }
                        }
                    }
                    assert(rows1 =~= with_delivered(rows0, message_id@));
                    assert forall|a: int| 0 <= a < rows1.len() implies (
                    #[trigger] rows1[a]).message_id == rows0[a].message_id && rows1[a].received_at
                        == rows0[a].received_at && rows1[a].message_data
                        == rows0[a].message_data by {}
                    assert forall|a: int, b: int| 0 <= a < b < rows1.len() implies (
                    #[trigger] rows1[a]).message_id != (#[trigger] rows1[b]).message_id by {
                        assert(rows0[a].message_id != rows0[b].message_id);
                    }
                    assert forall|a: int, b: int| 0 <= a < b < rows1.len() implies (
                    #[trigger] rows1[a]).received_at.total_nanos() <= (
                    #[trigger] rows1[b]).received_at.total_nanos() by {
                        assert(rows0[a].received_at.total_nanos()
                            <= rows0[b].received_at.total_nanos());
                    }
                    assert forall|k: int| 0 <= k < rows1.len() implies has_seen(
                        self.seen(),
                        (#[trigger] rows1[k]).message_id,
                    ) by {
                        assert(has_seen(self.seen(), rows0[k].message_id));
                    }
                    assert forall|k: int| 0 <= k < rows1.len() implies message_of_bytes(
                        (#[trigger] rows1[k]).message_data,
                    ) is Some by {
                        assert(message_of_bytes(rows0[k].message_data) is Some);
                    }
                }
            },
            None => {
                proof {
                    assert forall|k: int| 0 <= k < rows0.len() implies rows0[k] == with_delivered(
                        rows0,
                        message_id@,
                    )[k] by {
                        assert(rows0[k].message_id != message_id@);
                    }
                    assert(rows0 =~= with_delivered(rows0, message_id@));
                }
            },
        }
        Ok(())
    }

    /// The message of the row at `i`.
    fn row_message(&self, i: usize) -> (r: Option<Message>)
        requires
            i < self.rows().len(),
        ensures
            r is Some <==> message_of_bytes(self.rows()[i as int].message_data) is Some,
            r matches Some(m) ==> Some(m@) == message_of_bytes(self.rows()[i as int].message_data),
    {
        Message::decode(self.messages[i].message_data.as_slice())
    }

    /// The messages of the rows that were picked, oldest first.
    fn pick(&self, since: Option<Timestamp>, sender: Option<&str>) -> (r: Result<
        Vec<Message>,
        StorageError,
    >)
        requires
            self.wf(),
        ensures
            r matches Ok(v) && messages_view(v@) == decoded(
                picked_rows(self.rows(), since, opt_str_view(sender)),
            ),
    {
        let mut out: Vec<Message> = Vec::new();
        let n = self.messages.len();
        let ghost s = self.rows();
        let ghost who = opt_str_view(sender);
        let mut i: usize = 0;
        assert(messages_view(out@) =~= decoded(picked_rows(s.take(0), since, who)));
        while i < n
            invariant
                i <= n,
                n == self.messages@.len(),
                s == self.rows(),
                self.wf(),
                who == opt_str_view(sender),
                messages_view(out@) == decoded(picked_rows(s.take(i as int), since, who)),
            decreases n - i,
        {
            assert(s.take(i + 1).drop_last() =~= s.take(i as int));
            assert(s.take(i + 1).last() == s[i as int]);
            let late = match since {
                Some(t) => t.is_before(&self.messages[i].received_at),
                None => true,
            };
            let from = match sender {
                Some(w) => str_eq(self.messages[i].sender_id.as_str(), w),
                None => true,
            };
            if late && from {
                match self.row_message(i) {
                    Some(m) => {
                        let ghost prev = out@;
                        let ghost want = decoded(
                            picked_rows(s.take(i as int), since, who).push(s[i as int]),
                        );
                        out.push(m);
                        let ghost base = picked_rows(s.take(i as int), since, who);
                        assert(messages_view(prev).len() == prev.len());
                        assert(decoded(base).len() == base.len());
                        assert(want.len() == base.len() + 1);
                        assert(messages_view(out@).len() == out@.len());
                        assert forall|k: int| 0 <= k < out@.len() implies messages_view(out@)[k]
                            == want[k] by {
                            if k < prev.len() {
                                assert(messages_view(prev)[k] == prev[k]@);
                                assert(decoded(base)[k] == message_of_bytes(
                                    base[k].message_data,
                                )->0);
                                assert(base.push(s[i as int])[k] == base[k]);
                                assert(out@[k] == prev[k]);
                            } else {
                                assert(base.push(s[i as int])[k] == s[i as int]);
                            }
                        }
                        assert(messages_view(out@) =~= want);
                    },
                    None => {
                        return Err(StorageError::DeserializationFailed);
                    },
                }
            }
            i = i + 1;
        }
        assert(s.take(n as int) =~= s);
        Ok(out)
    }

    /// The messages that were stored after `since`, oldest first.
    pub fn get_messages_since(&self, since: Timestamp) -> (r: Result<Vec<Message>, StorageError>)
        requires
            self.wf(),
        ensures
            r matches Ok(v) && messages_view(v@) == decoded(
                picked_rows(self.rows(), Some(since), None),
            ),
    {
        self.pick(Some(since), None)
    }

    /// The message with the identifier, where the store holds it. An
    /// identifier that is no UUID is refused.
    pub fn get_message_by_id(&self, id: &str) -> (r: Result<Option<Message>, StorageError>)
        requires
            self.wf(),
        ensures
            match r {
                Ok(Some(m)) => uuid_parses(id@) && exists|i: int|
                    0 <= i < self.rows().len() && (#[trigger] self.rows()[i]).message_id == id@
                        && message_of_bytes(self.rows()[i].message_data) == Some(m@),
                Ok(None) => uuid_parses(id@) && !has_row(self.rows(), id@),
                Err(e) => !uuid_parses(id@) && e is InvalidInput,
            },
    {
        if !is_uuid(id) {
            return Err(
                StorageError::InvalidInput("Invalid UUID format: ".to_string().concat(id)),
            );
        }
        match self.find_row(id) {
            Some(i) => match self.row_message(i) {
                Some(m) => Ok(Some(m)),
                None => {
                    proof {
                        assert(message_of_bytes(self.rows()[i as int].message_data) is Some);
                    }
                    Ok(None)
                },
            },
            None => Ok(None),
        }
    }

    /// The messages of a sender, newest first.
    pub fn get_messages_from(&self, sender_id: &str) -> (r: Result<Vec<Message>, StorageError>)
        requires
            self.wf(),
        ensures
            r matches Ok(v) && messages_view(v@) == decoded(
                picked_rows(self.rows(), None, Some(sender_id@)),
            ).reverse(),
    {
        match self.pick(None, Some(sender_id)) {
            Ok(v) => Ok(reversed(v)),
            Err(e) => Err(e),
        }
    }

    /// The `limit` newest messages, newest first.
    pub fn get_recent_messages(&self, limit: usize) -> (r: Result<Vec<Message>, StorageError>)
        requires
            self.wf(),
        ensures
            r matches Ok(v) && messages_view(v@) == newest(decoded(self.rows()), limit as int),
    {
        match self.pick(None, None) {
            Ok(v) => {
                proof {
                    lemma_pick_all(self.rows());
                }
                let mut out = reversed(v);
                let ghost all = messages_view(out@);
                let ghost full = out@;
                if out.len() > limit {
                    out.truncate(limit);
                }
                let ghost want = newest(decoded(self.rows()), limit as int);
                let ghost src = decoded(self.rows());
                assert(all.len() == full.len());
                assert(all == src.reverse());
                assert(src.reverse().len() == src.len());
                assert(messages_view(out@).len() == out@.len());
                assert(want.len() == out@.len());
                assert forall|k: int| 0 <= k < out@.len() implies messages_view(out@)[k]
                    == want[k] by {
                    assert(out@[k] == full[k]);
                    assert(all[k] == full[k]@);
                    assert(src.reverse()[k] == src[src.len() - 1 - k]);
                }
                assert(messages_view(out@) =~= want);
                Ok(out)
            },
            Err(e) => Err(e),
        }
    }

    /// Stores an acknowledgement at `now`, in place of one of the same
    /// message, peer and kind. An acknowledgement of delivery marks the
    /// message as delivered.
    pub fn store_ack(&mut self, message_id: &str, ack_from: &str, ack_type: &str, now: Timestamp)
        -> (r: Result<(), StorageError>)
        requires
            old(self).wf(),
        ensures
            r is Ok,
            final(self).wf(),
            final(self).acks() == without_ack(
                old(self).acks(),
                message_id@,
                ack_from@,
                ack_type@,
            ).push(
                AckRecordView {
                    message_id: message_id@,
                    ack_from: ack_from@,
                    ack_type: ack_type@,
                    timestamp: now,
                },
            ),
            final(self).rows() == if ack_type@ == ack_type_name(AckType::Delivered) {
                with_delivered(old(self).rows(), message_id@)
            } else {
                old(self).rows()
            },
            final(self).seen() == old(self).seen(),
            final(self).nonces() == old(self).nonces(),
    {
        proof {
            lemma_ack_once(
                self.acks(),
                AckRecordView {
                    message_id: message_id@,
                    ack_from: ack_from@,
                    ack_type: ack_type@,
                    timestamp: now,
                },
            );
        }
        let ghost acks0 = self.acks();
        let mut i: usize = 0;
        let mut done: Ghost<int> = Ghost(0);
        assert(acks0.take(0) =~= Seq::<AckRecordView>::empty());
        assert(acks0.skip(0) =~= acks0);
        while i < self.acks.len()
            invariant
                i <= self.acks@.len(),
                0 <= done@ <= acks0.len(),
                self.acks().take(i as int) == without_ack(
                    acks0.take(done@),
                    message_id@,
                    ack_from@,
                    ack_type@,
                ),
                self.acks().skip(i as int) == acks0.skip(done@),
                self.rows() == old(self).rows(),
                self.seen() == old(self).seen(),
                self.nonces() == old(self).nonces(),
            decreases self.acks@.len() - i,
        {
            let ghost cur = self.acks();
            proof {
                assert(cur[i as int] == cur.skip(i as int)[0]);
                assert(cur.skip(i as int).len() == cur.len() - i);
                assert(acks0.skip(done@).len() == acks0.len() - done@);
                assert(acks0[done@] == acks0.skip(done@)[0]);
                assert(acks0.take(done@ + 1).drop_last() =~= acks0.take(done@));
                assert(acks0.take(done@ + 1).last() == acks0[done@]);
                assert(acks0.skip(done@ + 1) =~= acks0.skip(done@).skip(1));
            }
            let same = str_eq(self.acks[i].message_id.as_str(), message_id) && str_eq(
                self.acks[i].ack_from.as_str(),
                ack_from,
            ) && str_eq(self.acks[i].ack_type.as_str(), ack_type);
            if same {
                self.acks.remove(i);
                proof {
                    assert(self.acks() =~= cur.remove(i as int));
                    assert(self.acks().take(i as int) =~= cur.take(i as int));
                    assert(self.acks().skip(i as int) =~= cur.skip(i as int).skip(1));
                }
            } else {
                proof {
                    assert(cur.take(i + 1) =~= cur.take(i as int).push(cur[i as int]));
                    assert(cur.skip(i + 1) =~= cur.skip(i as int).skip(1));
                }
                i = i + 1;
            }
            proof {
                done@ = done@ + 1;
            }
        }
        proof {
            assert(self.acks().skip(i as int).len() == 0);
            assert(acks0.take(done@) =~= acks0);
            assert(self.acks().take(i as int) =~= self.acks());
        }
        let ghost kept = self.acks();
        self.acks.push(
            AckRecord {
                message_id: message_id.to_string(),
                ack_from: ack_from.to_string(),
                ack_type: ack_type.to_string(),
                timestamp: now,
            },
        );
        assert(self.acks() =~= kept.push(
            AckRecordView {
                message_id: message_id@,
                ack_from: ack_from@,
                ack_type: ack_type@,
                timestamp: now,
            },
        ));
        if str_eq(ack_type, AckType::Delivered.name()) {
            self.mark_delivered(message_id)
        } else {
            Ok(())
        }
    }

    /// The acknowledgements of a message in the order of their times,
    /// those of one time in the order of their storing: the peer, the kind
    /// and the time in RFC 3339.
    pub fn get_acks_for_message(&self, message_id: &str) -> (r: Result<
        Vec<(String, String, String)>,
        StorageError,
    >)
        ensures
            r matches Ok(v) && ack_lines(v@) == lines_of(
                by_time(acks_of(self.acks(), message_id@)),
            ),
    {
        let order = self.acks_in_order(message_id);
        let ghost s = self.acks();
        let ghost want = acks_at(s, order@);
        let mut out: Vec<(String, String, String)> = Vec::new();
        let n = order.len();
        let mut k: usize = 0;
        while k < n
            invariant
                k <= n,
                n == order@.len(),
                s == self.acks(),
                want == acks_at(s, order@),
                forall|j: int| 0 <= j < order@.len() ==> (#[trigger] order@[j]) < self.acks@.len(),
                out@.len() == k,
                forall|j: int| 0 <= j < k ==> #[trigger] ack_lines(out@)[j] == lines_of(want)[j],
            decreases n - k,
        {
            let at = order[k];
            assert(s[at as int] == self.acks@[at as int]@);
            let when = match self.acks[at].timestamp.to_rfc3339() {
                Some(t) => t,
                None => String::new(),
            };
            let ghost prev = out@;
            out.push((self.acks[at].ack_from.clone(), self.acks[at].ack_type.clone(), when));
            assert forall|j: int| 0 <= j < k + 1 implies #[trigger] ack_lines(out@)[j] == lines_of(
                want,
            )[j] by {
                if j < k {
                    assert(out@[j] == prev[j]);
                    assert(ack_lines(prev)[j] == lines_of(want)[j]);
                } else {
                    assert(want[j] == s[at as int]);
                }
            }
            k = k + 1;
        }
        assert(ack_lines(out@) =~= lines_of(want));
        Ok(out)
    }

    /// The places in the table of the acknowledgements of a message, in
    /// the order of their times.
    fn acks_in_order(&self, message_id: &str) -> (order: Vec<usize>)
        ensures
            forall|j: int| 0 <= j < order@.len() ==> (#[trigger] order@[j]) < self.acks@.len(),
            acks_at(self.acks(), order@) == by_time(acks_of(self.acks(), message_id@)),
    {
        let mut order: Vec<usize> = Vec::new();
        let n = self.acks.len();
        let ghost s = self.acks();
        let ghost id = message_id@;
        let mut i: usize = 0;
        assert(acks_of(s.take(0), id) =~= Seq::<AckRecordView>::empty());
        assert(acks_at(s, order@) =~= by_time(acks_of(s.take(0), id)));
        while i < n
            invariant
                i <= n,
                n == self.acks@.len(),
                s == self.acks(),
                id == message_id@,
                forall|j: int| 0 <= j < order@.len() ==> (#[trigger] order@[j]) < i,
                acks_at(s, order@) == by_time(acks_of(s.take(i as int), id)),
            decreases n - i,
        {
            assert(s.take(i + 1).drop_last() =~= s.take(i as int));
            assert(s.take(i + 1).last() == s[i as int]);
            assert(s[i as int] == self.acks@[i as int]@);
            if str_eq(self.acks[i].message_id.as_str(), message_id) {
                let ghost sorted = acks_at(s, order@);
                let ghost a = s[i as int];
                let mut p: usize = order.len();
                let mut going = true;
                assert(sorted.take(p as int) =~= sorted);
                assert(placed(sorted.take(p as int), a) + sorted.skip(p as int) =~= placed(
                    sorted,
                    a,
                ));
                while going && p > 0
                    invariant
                        p <= order@.len(),
                        n == self.acks@.len(),
                        i < n,
                        s == self.acks(),
                        a == s[i as int],
                        sorted == acks_at(s, order@),
                        forall|j: int| 0 <= j < order@.len() ==> (#[trigger] order@[j]) < i,
                        placed(sorted, a) == placed(sorted.take(p as int), a) + sorted.skip(
                            p as int,
                        ),
                        !going ==> p > 0 && !(a.timestamp.total_nanos() < sorted[p
                            - 1].timestamp.total_nanos()),
                    decreases p + if going { 1int } else { 0int },
                {
                    let before = order[p - 1];
                    assert(s[before as int] == self.acks@[before as int]@);
                    assert(sorted[p - 1] == s[before as int]);
                    if self.acks[i].timestamp.is_before(&self.acks[before].timestamp) {
                        proof {
                            let front = sorted.take(p as int);
                            assert(front.last() == sorted[p - 1]);
                            assert(front.drop_last() =~= sorted.take(p - 1));
                            assert(placed(front, a) == placed(sorted.take(p - 1), a).push(
                                sorted[p - 1],
                            ));
                            assert(placed(sorted.take(p - 1), a).push(sorted[p - 1]) + sorted.skip(
                                p as int,
                            ) =~= placed(sorted.take(p - 1), a) + sorted.skip(p - 1));
                        }
                        p = p - 1;
                    } else {
                        going = false;
                    }
                }
                proof {
                    let front = sorted.take(p as int);
                    if p > 0 {
                        assert(front.last() == sorted[p - 1]);
                    }
                    assert(placed(front, a) == front.push(a));
                }
                let ghost earlier = order@;
                order.insert(p, i);
                proof {
                    let base = acks_of(s.take(i as int), id);
                    assert(order@ == earlier.insert(p as int, i));
                    assert forall|j: int| 0 <= j < order@.len() implies acks_at(s, order@)[j] == (
                    sorted.take(p as int).push(a) + sorted.skip(p as int))[j] by {
                        if j < p {
                            assert(order@[j] == earlier[j]);
                            assert(sorted[j] == s[earlier[j] as int]);
                        } else if j == p {
                        } else {
                            assert(order@[j] == earlier[j - 1]);
                            assert(sorted[j - 1] == s[earlier[j - 1] as int]);
                        }
                    }
                    assert(acks_at(s, order@) =~= sorted.take(p as int).push(a) + sorted.skip(
                        p as int,
                    ));
                    assert(acks_at(s, order@) == placed(sorted, a));
                    assert(base.push(a).drop_last() =~= base);
                    assert(base.push(a).last() == a);
                    assert(by_time(base.push(a)) == placed(by_time(base), a));
                    assert(acks_of(s.take(i + 1), id) == base.push(a));
                }
            }
            i = i + 1;
        }
        assert(s.take(n as int) =~= s);
        order
    }

    /// Removes the rows that have outlived their time at `now`, and says
    /// how many they were. What stays keeps its order.
    pub fn cleanup_expired(&mut self, now: Timestamp) -> (r: Result<usize, StorageError>)
        requires
            old(self).wf(),
        ensures
            final(self).wf(),
            final(self).rows() == unexpired(old(self).rows(), now),
            r matches Ok(n) && n == old(self).rows().len() - final(self).rows().len(),
            final(self).seen() == old(self).seen(),
            final(self).acks() == old(self).acks(),
            final(self).nonces() == old(self).nonces(),
    {
        let ghost rows0 = self.rows();
        let total = self.messages.len();
        let mut i: usize = 0;
        let mut removed: usize = 0;
        let mut done: Ghost<int> = Ghost(0);
        assert(rows0.take(0) =~= Seq::<StoredMessageView>::empty());
        assert(rows0.skip(0) =~= rows0);
        while i < self.messages.len()
            invariant
                i <= self.messages@.len(),
                0 <= done@ <= rows0.len(),
                self.wf(),
                self.rows().take(i as int) == unexpired(rows0.take(done@), now),
                self.rows().skip(i as int) == rows0.skip(done@),
                removed + self.rows().len() == rows0.len(),
                rows0.len() == total,
                self.seen() == old(self).seen(),
                self.acks() == old(self).acks(),
                self.nonces() == old(self).nonces(),
            decreases self.messages@.len() - i,
        {
            let ghost cur = self.rows();
            proof {
                assert(cur[i as int] == cur.skip(i as int)[0]);
                assert(cur.skip(i as int).len() == cur.len() - i);
                assert(rows0.skip(done@).len() == rows0.len() - done@);
                assert(rows0[done@] == rows0.skip(done@)[0]);
                assert(rows0.take(done@ + 1).drop_last() =~= rows0.take(done@));
                assert(rows0.take(done@ + 1).last() == rows0[done@]);
                assert(rows0.skip(done@ + 1) =~= rows0.skip(done@).skip(1));
            }
            if now.elapsed_at_least(&self.messages[i].received_at, self.messages[i].ttl) {
                self.messages.remove(i);
                removed = removed + 1;
                proof {
                    assert(self.rows() =~= cur.remove(i as int));
                    assert(self.rows().take(i as int) =~= cur.take(i as int));
                    assert(self.rows().skip(i as int) =~= cur.skip(i as int).skip(1));
                    lemma_remove_keeps_order(cur, self.seen(), i as int);
                }
            } else {
                proof {
                    assert(cur.take(i + 1) =~= cur.take(i as int).push(cur[i as int]));
                    assert(cur.skip(i + 1) =~= cur.skip(i as int).skip(1));
                }
                i = i + 1;
            }
            proof {
                done@ = done@ + 1;
            }
        }
        proof {
            assert(self.rows().skip(i as int).len() == 0);
            assert(rows0.take(done@) =~= rows0);
            assert(self.rows().take(i as int) =~= self.rows());
        }
        Ok(removed)
    }

    /// Counts of the store: all rows, the rows that are not delivered,
    /// the seen identifiers.
    pub fn get_stats(&self) -> (r: Result<StorageStats, StorageError>)
        ensures
            r matches Ok(s) && s.total_messages == self.rows().len() && s.pending_messages
                == pending(self.rows()).len() && s.seen_messages == self.seen().len(),
    {
        let n = self.messages.len();
        let ghost s = self.rows();
        let mut waiting: usize = 0;
        let mut i: usize = 0;
        while i < n
            invariant
                i <= n,
                n == self.messages@.len(),
                s == self.rows(),
                waiting == pending(s.take(i as int)).len(),
                waiting <= i,
            decreases n - i,
        {
            assert(s.take(i + 1).drop_last() =~= s.take(i as int));
            assert(s.take(i + 1).last() == s[i as int]);
            if !self.messages[i].delivered {
                waiting = waiting + 1;
            }
            i = i + 1;
        }
        assert(s.take(n as int) =~= s);
        Ok(
            StorageStats {
                total_messages: n,
                pending_messages: waiting,
                seen_messages: self.seen.len(),
            },
        )
    }

    /// Whether the sender used the nonce, as far as the ledger remembers.
    pub fn is_nonce_used(&self, nonce: &[u8], sender_id: &str) -> (r: Result<bool, StorageError>)
        ensures
            r matches Ok(b) && b == has_nonce(self.nonces(), hex_text(nonce@), sender_id@),
    {
        let nonce_hex = hex_encode(nonce);
        let n = self.nonces.len();
        let mut i: usize = 0;
        while i < n
            invariant
                i <= n,
                n == self.nonces@.len(),
                nonce_hex@ == hex_text(nonce@),
                forall|j: int|
                    0 <= j < i ==> !((#[trigger] self.nonces()[j]).nonce_hex == nonce_hex@
                        && self.nonces()[j].sender_id == sender_id@),
            decreases n - i,
        {
            if str_eq(self.nonces[i].nonce_hex.as_str(), nonce_hex.as_str()) && str_eq(
                self.nonces[i].sender_id.as_str(),
                sender_id,
            ) {
                assert(self.nonces()[i as int].nonce_hex == nonce_hex@);
                return Ok(true);
            }
            i = i + 1;
        }
        Ok(false)
    }

    /// Records at `now` that the sender used the nonce, to be remembered
    /// for 24 hours. A nonce that is in the ledger keeps its record.
    pub fn mark_nonce_used(&mut self, nonce: &[u8], sender_id: &str, now: Timestamp) -> (r: Result<
        (),
        StorageError,
    >)
        ensures
            old(self).wf() ==> final(self).wf(),
            r is Ok,
            has_nonce(final(self).nonces(), hex_text(nonce@), sender_id@),
            final(self).nonces() == with_nonce(
                old(self).nonces(),
                hex_text(nonce@),
                sender_id@,
                now,
            ),
            final(self).rows() == old(self).rows(),
            final(self).seen() == old(self).seen(),
            final(self).acks() == old(self).acks(),
    {
        proof {
            if distinct_nonces(self.nonces()) {
                lemma_nonce_once(self.nonces(), hex_text(nonce@), sender_id@, now);
            }
        }
        let used = match self.is_nonce_used(nonce, sender_id) {
            Ok(b) => b,
            Err(_) => false,
        };
        if !used {
            let ghost before = self.nonces();
            let entry = NonceEntry {
                nonce_hex: hex_encode(nonce),
                sender_id: sender_id.to_string(),
                used_at: now,
                expires_at: now.plus_seconds(NONCE_TTL_SECONDS),
            };
            let ghost ev = entry@;
            self.nonces.push(entry);
            assert(self.nonces() =~= before.push(ev));
            assert(self.nonces()[before.len() as int].nonce_hex == hex_text(nonce@));
        }
        Ok(())
    }

    /// Forgets the nonces whose time to be remembered ended before `now`.
    pub fn cleanup_expired_nonces(&mut self, now: Timestamp) -> (r: Result<(), StorageError>)
        ensures
            old(self).wf() ==> final(self).wf(),
            r is Ok,
            final(self).nonces() == live_nonces(old(self).nonces(), now),
            final(self).rows() == old(self).rows(),
            final(self).seen() == old(self).seen(),
            final(self).acks() == old(self).acks(),
    {
        proof {
            if distinct_nonces(self.nonces()) {
                lemma_live_nonces_distinct(self.nonces(), now);
            }
        }
        let ghost n0 = self.nonces();
        let mut i: usize = 0;
        let mut done: Ghost<int> = Ghost(0);
        assert(n0.take(0) =~= Seq::<NonceEntryView>::empty());
        assert(n0.skip(0) =~= n0);
        while i < self.nonces.len()
            invariant
                i <= self.nonces@.len(),
                0 <= done@ <= n0.len(),
                self.nonces().take(i as int) == live_nonces(n0.take(done@), now),
                self.nonces().skip(i as int) == n0.skip(done@),
                self.rows() == old(self).rows(),
                self.seen() == old(self).seen(),
                self.acks() == old(self).acks(),
            decreases self.nonces@.len() - i,
        {
            let ghost cur = self.nonces();
            proof {
                assert(cur[i as int] == cur.skip(i as int)[0]);
                assert(cur.skip(i as int).len() == cur.len() - i);
                assert(n0.skip(done@).len() == n0.len() - done@);
                assert(n0[done@] == n0.skip(done@)[0]);
                assert(n0.take(done@ + 1).drop_last() =~= n0.take(done@));
                assert(n0.take(done@ + 1).last() == n0[done@]);
                assert(n0.skip(done@ + 1) =~= n0.skip(done@).skip(1));
            }
            if self.nonces[i].expires_at.is_before(&now) {
                self.nonces.remove(i);
                proof {
                    assert(self.nonces() =~= cur.remove(i as int));
                    assert(self.nonces().take(i as int) =~= cur.take(i as int));
                    assert(self.nonces().skip(i as int) =~= cur.skip(i as int).skip(1));
                }
            } else {
                proof {
                    assert(cur.take(i + 1) =~= cur.take(i as int).push(cur[i as int]));
                    assert(cur.skip(i + 1) =~= cur.skip(i as int).skip(1));
                }
                i = i + 1;
            }
            proof {
                done@ = done@ + 1;
            }
        }
        proof {
            assert(self.nonces().skip(i as int).len() == 0);
            assert(n0.take(done@) =~= n0);
            assert(self.nonces().take(i as int) =~= self.nonces());
        }
        Ok(())
    }
}

/// The text behind an optional string slice.
pub open spec fn opt_str_view(t: Option<&str>) -> Option<Seq<char>> {
    match t {
        Some(s) => Some(s@),
        None => None,
    }
}

/// The messages of a vector as mathematical values.
pub open spec fn messages_view(v: Seq<Message>) -> Seq<MessageView> {
    Seq::new(v.len(), |i: int| v[i]@)
}

/// The messages that rows hold.
pub open spec fn decoded(rows: Seq<StoredMessageView>) -> Seq<MessageView> {
    Seq::new(rows.len(), |i: int| message_of_bytes(rows[i].message_data)->0)
}

/// Whether a row was stored after `since`, where one is given, and comes
/// from `sender`, where one is given.
pub open spec fn picked(r: StoredMessageView, since: Option<Timestamp>, sender: Option<Seq<char>>)
    -> bool {
    &&& since matches Some(t) ==> t.total_nanos() < r.received_at.total_nanos()
    &&& sender matches Some(s) ==> r.sender_id == s
}

/// The rows that are picked, in their order.
pub open spec fn picked_rows(
    rows: Seq<StoredMessageView>,
    since: Option<Timestamp>,
    sender: Option<Seq<char>>,
) -> Seq<StoredMessageView>
    decreases rows.len(),
{
    if rows.len() == 0 {
        rows
    } else if picked(rows.last(), since, sender) {
        picked_rows(rows.drop_last(), since, sender).push(rows.last())
    } else {
        picked_rows(rows.drop_last(), since, sender)
    }
}

/// The `limit` last items of `s`, last first.
pub open spec fn newest<T>(s: Seq<T>, limit: int) -> Seq<T> {
    Seq::new(
        if limit < s.len() {
            limit as nat
        } else {
            s.len()
        },
        |k: int| s[s.len() - 1 - k],
    )
}

/// The acknowledgements without the one of that message, peer and kind.
pub open spec fn without_ack(
    acks: Seq<AckRecordView>,
    message_id: Seq<char>,
    ack_from: Seq<char>,
    ack_type: Seq<char>,
) -> Seq<AckRecordView>
    decreases acks.len(),
{
    if acks.len() == 0 {
        acks
    } else if acks.last().message_id == message_id && acks.last().ack_from == ack_from
        && acks.last().ack_type == ack_type {
        without_ack(acks.drop_last(), message_id, ack_from, ack_type)
    } else {
        without_ack(acks.drop_last(), message_id, ack_from, ack_type).push(acks.last())
    }
}

/// The acknowledgements of one message, in their order.
pub open spec fn acks_of(acks: Seq<AckRecordView>, message_id: Seq<char>) -> Seq<AckRecordView>
    decreases acks.len(),
{
    if acks.len() == 0 {
        acks
    } else if acks.last().message_id == message_id {
        acks_of(acks.drop_last(), message_id).push(acks.last())
    } else {
        acks_of(acks.drop_last(), message_id)
    }
}

/// Acknowledgements in the order of their times with one more, which is
/// put behind those that are not later than it.
pub open spec fn placed(sorted: Seq<AckRecordView>, a: AckRecordView) -> Seq<AckRecordView>
    decreases sorted.len(),
{
    if sorted.len() > 0 && a.timestamp.total_nanos() < sorted.last().timestamp.total_nanos() {
        placed(sorted.drop_last(), a).push(sorted.last())
    } else {
        sorted.push(a)
    }
}

/// The acknowledgements in the order of their times, earliest first;
/// those of one time keep their order.
pub open spec fn by_time(acks: Seq<AckRecordView>) -> Seq<AckRecordView>
    decreases acks.len(),
{
    if acks.len() == 0 {
        acks
    } else {
        placed(by_time(acks.drop_last()), acks.last())
    }
}

/// Whether no acknowledgement stands before one of an earlier time.
pub open spec fn in_time_order(acks: Seq<AckRecordView>) -> bool {
    forall|i: int, j: int|
        0 <= i < j < acks.len() ==> (#[trigger] acks[i]).timestamp.total_nanos() <= (
        #[trigger] acks[j]).timestamp.total_nanos()
}

proof fn lemma_placed(sorted: Seq<AckRecordView>, a: AckRecordView)
    requires
        in_time_order(sorted),
    ensures
        in_time_order(placed(sorted, a)),
        placed(sorted, a).len() == sorted.len() + 1,
        forall|k: int|
            0 <= k < placed(sorted, a).len() ==> #[trigger] placed(sorted, a)[k] == a
                || sorted.contains(placed(sorted, a)[k]),
    decreases sorted.len(),
{
    let after = placed(sorted, a);
    if sorted.len() > 0 && a.timestamp.total_nanos() < sorted.last().timestamp.total_nanos() {
        let front = sorted.drop_last();
        let inner = placed(front, a);
        assert forall|i: int, j: int| 0 <= i < j < front.len() implies (
        #[trigger] front[i]).timestamp.total_nanos() <= (
        #[trigger] front[j]).timestamp.total_nanos() by {
            assert(front[i] == sorted[i] && front[j] == sorted[j]);
        }
        lemma_placed(front, a);
        assert forall|k: int| 0 <= k < after.len() implies #[trigger] after[k] == a
            || sorted.contains(after[k]) by {
            if k < inner.len() {
                if inner[k] != a {
                    let at = choose|at: int| 0 <= at < front.len() && front[at] == inner[k];
                    assert(sorted[at] == inner[k]);
                }
            } else {
                assert(after[k] == sorted[sorted.len() - 1]);
            }
        }
        assert forall|i: int, j: int| 0 <= i < j < after.len() implies (
        #[trigger] after[i]).timestamp.total_nanos() <= (
        #[trigger] after[j]).timestamp.total_nanos() by {
            if j < inner.len() {
                assert(after[i] == inner[i] && after[j] == inner[j]);
            } else {
                assert(after[i] == inner[i]);
                if inner[i] != a {
                    let at = choose|at: int| 0 <= at < front.len() && front[at] == inner[i];
                    assert(sorted[at] == inner[i]);
                    assert(sorted[sorted.len() - 1] == sorted.last());
                }
            }
        }
    } else {
        assert forall|k: int| 0 <= k < after.len() implies #[trigger] after[k] == a
            || sorted.contains(after[k]) by {
            if k < sorted.len() {
                assert(sorted[k] == after[k]);
            }
        }
        assert forall|i: int, j: int| 0 <= i < j < after.len() implies (
        #[trigger] after[i]).timestamp.total_nanos() <= (
        #[trigger] after[j]).timestamp.total_nanos() by {
            if j < sorted.len() {
                assert(after[i] == sorted[i] && after[j] == sorted[j]);
            } else {
                assert(after[i] == sorted[i]);
                assert(sorted[sorted.len() - 1] == sorted.last());
            }
        }
    }
}

/// What `by_time` gives holds as many acknowledgements as it was given,
/// and none of them stands before one of an earlier time.
pub proof fn lemma_by_time(acks: Seq<AckRecordView>)
    ensures
        by_time(acks).len() == acks.len(),
        in_time_order(by_time(acks)),
    decreases acks.len(),
{
    if acks.len() > 0 {
        lemma_by_time(acks.drop_last());
        lemma_placed(by_time(acks.drop_last()), acks.last());
    }
}

/// The acknowledgements at the places that `order` names.
pub open spec fn acks_at(acks: Seq<AckRecordView>, order: Seq<usize>) -> Seq<AckRecordView> {
    Seq::new(order.len(), |k: int| acks[order[k] as int])
}

/// The RFC 3339 text of an instant, or no text where it has none.
pub open spec fn time_text(t: Timestamp) -> Seq<char> {
    match crate::time::rfc3339_text(t.secs, t.nanos) {
        Some(text) => text,
        None => Seq::<char>::empty(),
    }
}

/// What is told of acknowledgements: the peer, the kind and the time.
pub open spec fn lines_of(acks: Seq<AckRecordView>) -> Seq<(Seq<char>, Seq<char>, Seq<char>)> {
    Seq::new(
        acks.len(),
        |i: int| (acks[i].ack_from, acks[i].ack_type, time_text(acks[i].timestamp)),
    )
}

/// A vector of told acknowledgements as mathematical values.
pub open spec fn ack_lines(v: Seq<(String, String, String)>) -> Seq<
    (Seq<char>, Seq<char>, Seq<char>),
> {
    Seq::new(v.len(), |i: int| (v[i].0@, v[i].1@, v[i].2@))
}

/// The messages of `v` in the opposite order.
fn reversed(v: Vec<Message>) -> (out: Vec<Message>)
    ensures
        messages_view(out@) == messages_view(v@).reverse(),
{
    let mut v = v;
    let ghost s = messages_view(v@);
    let mut out: Vec<Message> = Vec::new();
    while v.len() > 0
        invariant
            v@.len() <= s.len(),
            messages_view(v@) == s.take(v@.len() as int),
            out@.len() + v@.len() == s.len(),
            forall|k: int| 0 <= k < out@.len() ==> (#[trigger] out@[k])@ == s[s.len() - 1 - k],
        decreases v@.len(),
    {
        let ghost before = messages_view(v@);
        let last = v.pop();
        match last {
            Some(m) => {
                assert(m@ == before[before.len() - 1]);
                assert(messages_view(v@) =~= s.take(v@.len() as int));
                out.push(m);
            },
            None => {},
        }
    }
    assert(messages_view(out@) =~= s.reverse());
    out
}

/// With nothing asked for, every row is picked.
proof fn lemma_pick_all(rows: Seq<StoredMessageView>)
    ensures
        picked_rows(rows, None, None) == rows,
    decreases rows.len(),
{
    if rows.len() > 0 {
        lemma_pick_all(rows.drop_last());
        assert(rows.drop_last().push(rows.last()) =~= rows);
    }
}

/// Taking a row out leaves the rows distinct, in order, seen and
/// readable.
proof fn lemma_remove_keeps_order(rows0: Seq<StoredMessageView>, seen: Seq<SeenEntryView>, i: int)
    requires
        0 <= i < rows0.len(),
        distinct_rows(rows0),
        rows_sorted(rows0),
        forall|k: int| 0 <= k < rows0.len() ==> has_seen(seen, (#[trigger] rows0[k]).message_id),
        forall|k: int|
            0 <= k < rows0.len() ==> message_of_bytes((#[trigger] rows0[k]).message_data) is Some,
    ensures
        distinct_rows(rows0.remove(i)),
        rows_sorted(rows0.remove(i)),
        forall|k: int|
            0 <= k < rows0.remove(i).len() ==> has_seen(
                seen,
                (#[trigger] rows0.remove(i)[k]).message_id,
            ),
        forall|k: int|
            0 <= k < rows0.remove(i).len() ==> message_of_bytes(
                (#[trigger] rows0.remove(i)[k]).message_data,
            ) is Some,
{
    let rows1 = rows0.remove(i);
    assert forall|k: int| 0 <= k < rows1.len() implies #[trigger] rows1[k] == rows0[if k < i {
        k
    } else {
        k + 1
    }] by {}
    assert forall|a: int, b: int| 0 <= a < b < rows1.len() implies (
    #[trigger] rows1[a]).message_id != (#[trigger] rows1[b]).message_id by {
        let a0 = if a < i {
            a
        } else {
            a + 1
        };
        let b0 = if b < i {
            b
        } else {
            b + 1
        };
        assert(rows0[a0].message_id != rows0[b0].message_id);
    }
    assert forall|a: int, b: int| 0 <= a < b < rows1.len() implies (
    #[trigger] rows1[a]).received_at.total_nanos() <= (
    #[trigger] rows1[b]).received_at.total_nanos() by {
        let a0 = if a < i {
            a
        } else {
            a + 1
        };
        let b0 = if b < i {
            b
        } else {
            b + 1
        };
        assert(rows0[a0].received_at.total_nanos() <= rows0[b0].received_at.total_nanos());
    }
    assert forall|k: int| 0 <= k < rows1.len() implies has_seen(
        seen,
        (#[trigger] rows1[k]).message_id,
    ) by {
        let k0 = if k < i {
            k
        } else {
            k + 1
        };
        assert(has_seen(seen, rows0[k0].message_id));
    }
    assert forall|k: int| 0 <= k < rows1.len() implies message_of_bytes(
        (#[trigger] rows1[k]).message_data,
    ) is Some by {
        let k0 = if k < i {
            k
        } else {
            k + 1
        };
        assert(message_of_bytes(rows0[k0].message_data) is Some);
    }
}

/// What is kept has not outlived its time and was among the rows; rows
/// of which none has outlived its time are all kept.
pub proof fn lemma_unexpired(rows: Seq<StoredMessageView>, now: Timestamp)
    ensures
        unexpired(rows, now).len() <= rows.len(),
        forall|i: int|
            0 <= i < unexpired(rows, now).len() ==> !row_expired(
                #[trigger] unexpired(rows, now)[i],
                now,
            ) && rows.contains(unexpired(rows, now)[i]),
        (forall|i: int| 0 <= i < rows.len() ==> !row_expired(#[trigger] rows[i], now))
            ==> unexpired(rows, now) == rows,
    decreases rows.len(),
{
    if rows.len() > 0 {
        let t = rows.drop_last();
        lemma_unexpired(t, now);
        assert forall|i: int| 0 <= i < unexpired(rows, now).len() implies !row_expired(
            #[trigger] unexpired(rows, now)[i],
            now,
        ) && rows.contains(unexpired(rows, now)[i]) by {
            if i < unexpired(t, now).len() {
                let x = unexpired(t, now)[i];
                assert(t.contains(x));
                let k = choose|k: int| 0 <= k < t.len() && t[k] == x;
                assert(rows[k] == x);
            } else {
                assert(rows[rows.len() - 1] == rows.last());
            }
        }
        if forall|i: int| 0 <= i < rows.len() ==> !row_expired(#[trigger] rows[i], now) {
            assert forall|i: int| 0 <= i < t.len() implies !row_expired(#[trigger] t[i], now) by {
                assert(t[i] == rows[i]);
            }
            assert(unexpired(rows, now) =~= rows);
        }
    }
}

/// The rows that wait are rows of the table, and none of them is
/// delivered.
pub proof fn lemma_pending(rows: Seq<StoredMessageView>)
    ensures
        pending(rows).len() <= rows.len(),
        forall|i: int|
            0 <= i < pending(rows).len() ==> !(#[trigger] pending(rows)[i]).delivered
                && rows.contains(pending(rows)[i]),
    decreases rows.len(),
{
    if rows.len() > 0 {
        let t = rows.drop_last();
        lemma_pending(t);
        assert forall|i: int| 0 <= i < pending(rows).len() implies !(#[trigger] pending(
            rows,
        )[i]).delivered && rows.contains(pending(rows)[i]) by {
            if i < pending(t).len() {
                let x = pending(t)[i];
                assert(t.contains(x));
                let k = choose|k: int| 0 <= k < t.len() && t[k] == x;
                assert(rows[k] == x);
            } else {
                assert(rows[rows.len() - 1] == rows.last());
            }
        }
    }
}

/// A second removal of the expired at the same instant removes nothing.
pub proof fn lemma_cleanup_idempotent(rows: Seq<StoredMessageView>, now: Timestamp)
    ensures
        unexpired(unexpired(rows, now), now) == unexpired(rows, now),
{
    lemma_unexpired(rows, now);
    lemma_unexpired(unexpired(rows, now), now);
}

/// A nonce that the ledger holds, and that may not yet be forgotten at
/// `now`, is still held after the forgetting at `now`.
pub proof fn lemma_live_nonce_kept(
    nonces: Seq<NonceEntryView>,
    now: Timestamp,
    nonce_hex: Seq<char>,
    sender: Seq<char>,
)
    requires
        exists|i: int|
            0 <= i < nonces.len() && (#[trigger] nonces[i]).nonce_hex == nonce_hex
                && nonces[i].sender_id == sender && nonces[i].expires_at.total_nanos()
                >= now.total_nanos(),
    ensures
        has_nonce(live_nonces(nonces, now), nonce_hex, sender),
    decreases nonces.len(),
{
    let i = choose|i: int|
        0 <= i < nonces.len() && (#[trigger] nonces[i]).nonce_hex == nonce_hex
            && nonces[i].sender_id == sender && nonces[i].expires_at.total_nanos()
            >= now.total_nanos();
    let t = nonces.drop_last();
    if i == nonces.len() - 1 {
        let l = live_nonces(nonces, now);
        assert(l == live_nonces(t, now).push(nonces.last()));
        assert(l[l.len() - 1] == nonces[i]);
    } else {
        assert(t[i] == nonces[i]);
        lemma_live_nonce_kept(t, now, nonce_hex, sender);
        let lt = live_nonces(t, now);
        let k = choose|k: int|
            0 <= k < lt.len() && (#[trigger] lt[k]).nonce_hex == nonce_hex && lt[k].sender_id
                == sender;
        let l = live_nonces(nonces, now);
        assert(l[k] == lt[k]);
    }
}

/// A row whose identifier was not seen, put at the place of its time,
/// leaves the rows distinct, in order, seen and readable.
proof fn lemma_insert_keeps_order(
    rows0: Seq<StoredMessageView>,
    seen0: Seq<SeenEntryView>,
    seen1: Seq<SeenEntryView>,
    i: int,
    rv: StoredMessageView,
)
    requires
        distinct_rows(rows0),
        rows_sorted(rows0),
        forall|k: int| 0 <= k < rows0.len() ==> has_seen(seen0, (#[trigger] rows0[k]).message_id),
        forall|k: int|
            0 <= k < rows0.len() ==> message_of_bytes((#[trigger] rows0[k]).message_data) is Some,
        forall|k: int| 0 <= k < rows0.len() ==> (#[trigger] rows0[k]).message_id != rv.message_id,
        forall|id: Seq<char>| has_seen(seen0, id) ==> has_seen(seen1, id),
        has_seen(seen1, rv.message_id),
        message_of_bytes(rv.message_data) is Some,
        0 <= i <= rows0.len(),
        forall|j: int|
            i <= j < rows0.len() ==> rv.received_at.total_nanos() < (
            #[trigger] rows0[j]).received_at.total_nanos(),
        forall|j: int|
            0 <= j < i ==> (#[trigger] rows0[j]).received_at.total_nanos()
                <= rv.received_at.total_nanos(),
    ensures
        distinct_rows(rows0.insert(i, rv)),
        rows_sorted(rows0.insert(i, rv)),
        forall|k: int|
            0 <= k < rows0.insert(i, rv).len() ==> has_seen(
                seen1,
                (#[trigger] rows0.insert(i, rv)[k]).message_id,
            ),
        forall|k: int|
            0 <= k < rows0.insert(i, rv).len() ==> message_of_bytes(
                (#[trigger] rows0.insert(i, rv)[k]).message_data,
            ) is Some,
{
    let rows1 = rows0.insert(i, rv);
    assert forall|a: int, b: int| 0 <= a < b < rows1.len() implies (
    #[trigger] rows1[a]).message_id != (#[trigger] rows1[b]).message_id by {
        let a0 = if a < i {
            a
        } else {
            a - 1
        };
        let b0 = if b < i {
            b
        } else {
            b - 1
        };
        if a == i {
            assert(rows1[b] == rows0[b0]);
        } else if b == i {
            assert(rows1[a] == rows0[a0]);
        } else {
            assert(rows1[a] == rows0[a0] && rows1[b] == rows0[b0]);
        }
    }
    assert forall|a: int, b: int| 0 <= a < b < rows1.len() implies (
    #[trigger] rows1[a]).received_at.total_nanos() <= (
    #[trigger] rows1[b]).received_at.total_nanos() by {
        let a0 = if a < i {
            a
        } else {
            a - 1
        };
        let b0 = if b < i {
            b
        } else {
            b - 1
        };
        if a == i {
            assert(rows1[b] == rows0[b0]);
        } else if b == i {
            assert(rows1[a] == rows0[a0]);
        } else {
            assert(rows1[a] == rows0[a0] && rows1[b] == rows0[b0]);
        }
    }
    assert forall|k: int| 0 <= k < rows1.len() implies has_seen(
        seen1,
        (#[trigger] rows1[k]).message_id,
    ) by {
        if k != i {
            let k0 = if k < i {
                k
            } else {
                k - 1
            };
            assert(rows1[k] == rows0[k0]);
            assert(has_seen(seen0, rows0[k0].message_id));
        }
    }
    assert forall|k: int| 0 <= k < rows1.len() implies message_of_bytes(
        (#[trigger] rows1[k]).message_data,
    ) is Some by {
        if k != i {
            let k0 = if k < i {
                k
            } else {
                k - 1
            };
            assert(rows1[k] == rows0[k0]);
        }
    }
}

/// Whether two stores hold the same in every table.
pub open spec fn same_tables(a: Storage, b: Storage) -> bool {
    &&& a.rows() == b.rows()
    &&& a.seen() == b.seen()
    &&& a.acks() == b.acks()
    &&& a.nonces() == b.nonces()
}

/// How a store stands after a received message was offered to it: a
/// message that has a row changes nothing; a message that breaks its
/// limits or cannot be written is refused and changes nothing; any other
/// gets its row at the place of its time and is recorded as seen.
pub open spec fn received_as(
    before: Storage,
    after: Storage,
    m: MessageView,
    now: Timestamp,
    r: Result<(), StorageError>,
) -> bool {
    &&& after.acks() == before.acks()
    &&& after.nonces() == before.nonces()
    &&& if has_row(before.rows(), m.id) {
        r is Ok && after.rows() == before.rows() && after.seen() == before.seen()
    } else {
        match payload_verdict(m.payload) {
            Err(_) => r matches Err(StorageError::ValidationFailed(_)) && after.rows()
                == before.rows() && after.seen() == before.seen(),
            Ok(()) => match message_wire(m) {
                None => r matches Err(StorageError::SerializationFailed) && after.rows()
                    == before.rows() && after.seen() == before.seen(),
                Some(data) => {
                    &&& r is Ok
                    &&& after.rows() == before.rows().insert(
                        slot(before.rows(), now),
                        StoredMessageView {
                            message_id: m.id,
                            message_data: data,
                            sender_id: m.sender_id,
                            received_at: now,
                            ttl: MESSAGE_TTL_SECONDS,
                            delivered: false,
                        },
                    )
                    &&& after.seen() == if has_seen(before.seen(), m.id) {
                        before.seen()
                    } else {
                        before.seen().push(SeenEntryView { message_id: m.id, seen_at: now })
                    }
                    &&& message_of_bytes(data) == Some(m)
                },
            },
        }
    }
}

/// The rows and the seen identifiers after a received message was
/// offered to a store at `now`: a message that has a row, breaks its
/// limits or cannot be written changes nothing; any other gets its row at
/// the place of its time, as not delivered, and is recorded as seen.
pub open spec fn received(
    rows: Seq<StoredMessageView>,
    seen: Seq<SeenEntryView>,
    m: MessageView,
    now: Timestamp,
) -> (Seq<StoredMessageView>, Seq<SeenEntryView>) {
    if has_row(rows, m.id) || payload_verdict(m.payload) is Err || message_wire(m) is None {
        (rows, seen)
    } else {
        (
            rows.insert(
                slot(rows, now),
                StoredMessageView {
                    message_id: m.id,
                    message_data: message_wire(m)->0,
                    sender_id: m.sender_id,
                    received_at: now,
                    ttl: MESSAGE_TTL_SECONDS,
                    delivered: false,
                },
            ),
            if has_seen(seen, m.id) {
                seen
            } else {
                seen.push(SeenEntryView { message_id: m.id, seen_at: now })
            },
        )
    }
}

/// Storing a received message does to the tables what `received` says.
pub proof fn lemma_received_is(
    before: Storage,
    after: Storage,
    m: MessageView,
    now: Timestamp,
    r: Result<(), StorageError>,
)
    requires
        received_as(before, after, m, now, r),
    ensures
        (after.rows(), after.seen()) == received(before.rows(), before.seen(), m, now),
{
}

/// The place of a new row lies among the rows or behind them.
pub proof fn lemma_slot_bounds(rows: Seq<StoredMessageView>, at: Timestamp)
    ensures
        0 <= slot(rows, at) <= rows.len(),
    decreases rows.len(),
{
    if rows.len() > 0 {
        lemma_slot_bounds(rows.drop_last(), at);
    }
}

/// After a received message was offered to a store, what was seen is
/// still seen, and a message that keeps its limits and can be written has
/// a row.
pub proof fn lemma_received_effects(
    before: Storage,
    after: Storage,
    m: MessageView,
    now: Timestamp,
    r: Result<(), StorageError>,
)
    requires
        received_as(before, after, m, now, r),
    ensures
        forall|id: Seq<char>| has_seen(before.seen(), id) ==> has_seen(after.seen(), id),
        payload_verdict(m.payload) is Ok && message_wire(m) is Some ==> has_row(
            after.rows(),
            m.id,
        ),
        forall|id: Seq<char>| has_row(before.rows(), id) ==> has_row(after.rows(), id),
{
    let s0 = before.seen();
    let s1 = after.seen();
    assert forall|id: Seq<char>| has_seen(s0, id) implies has_seen(s1, id) by {
        if s1 != s0 {
            let k = choose|k: int| 0 <= k < s0.len() && (#[trigger] s0[k]).message_id == id;
            assert(s1[k].message_id == id);
        }
    }
    let r0 = before.rows();
    let r1 = after.rows();
    lemma_slot_bounds(r0, now);
    let i = slot(r0, now);
    if payload_verdict(m.payload) is Ok && message_wire(m) is Some {
        if !has_row(r0, m.id) {
            assert(r1[i].message_id == m.id);
        }
    }
    assert forall|id: Seq<char>| has_row(r0, id) implies has_row(r1, id) by {
        if r1 != r0 {
            let k = choose|k: int| 0 <= k < r0.len() && (#[trigger] r0[k]).message_id == id;
            if k < i {
                assert(r1[k].message_id == id);
            } else {
                assert(r1[k + 1].message_id == id);
            }
        }
    }
}

/// The rows and the seen identifiers after a message was offered to a
/// store at `now`, and whether the store answered well: a seen identifier
/// changes nothing; a message that breaks its limits or cannot be written
/// is refused and changes nothing; any other gets its row at the place of
/// its time and is recorded as seen.
pub open spec fn offered(
    rows: Seq<StoredMessageView>,
    seen: Seq<SeenEntryView>,
    m: MessageView,
    delivered: bool,
    now: Timestamp,
) -> (Seq<StoredMessageView>, Seq<SeenEntryView>, bool) {
    if has_seen(seen, m.id) {
        (rows, seen, true)
    } else if payload_verdict(m.payload) is Err || message_wire(m) is None {
        (rows, seen, false)
    } else {
        (
            rows.insert(
                slot(rows, now),
                StoredMessageView {
                    message_id: m.id,
                    message_data: message_wire(m)->0,
                    sender_id: m.sender_id,
                    received_at: now,
                    ttl: MESSAGE_TTL_SECONDS,
                    delivered,
                },
            ),
            seen.push(SeenEntryView { message_id: m.id, seen_at: now }),
            true,
        )
    }
}

/// The rows and the seen identifiers after messages were offered to a
/// store at `now`, one after the other, and how many of them the store
/// answered well.
pub open spec fn offered_all(
    rows: Seq<StoredMessageView>,
    seen: Seq<SeenEntryView>,
    ms: Seq<MessageView>,
    delivered: bool,
    now: Timestamp,
) -> (Seq<StoredMessageView>, Seq<SeenEntryView>, nat)
    decreases ms.len(),
{
    if ms.len() == 0 {
        (rows, seen, 0)
    } else {
        let before = offered_all(rows, seen, ms.drop_last(), delivered, now);
        let step = offered(before.0, before.1, ms.last(), delivered, now);
        (
            step.0,
            step.1,
            if step.2 {
                before.2 + 1
            } else {
                before.2
            },
        )
    }
}

/// Storing a message does to the tables what `offered` says.
pub proof fn lemma_stored_is_offered(
    before: Storage,
    after: Storage,
    m: MessageView,
    delivered: bool,
    now: Timestamp,
    r: Result<(), StorageError>,
)
    requires
        stored_as(before, after, m, delivered, now, r),
    ensures
        (after.rows(), after.seen(), r is Ok) == offered(
            before.rows(),
            before.seen(),
            m,
            delivered,
            now,
        ),
{
}

/// The place of the row with the identifier, where there is one.
pub open spec fn row_of(rows: Seq<StoredMessageView>, id: Seq<char>) -> int {
    choose|i: int| 0 <= i < rows.len() && (#[trigger] rows[i]).message_id == id
}

/// The messages that the rows hold under the identifiers, in the order of
/// the identifiers; an identifier without a row gives nothing.
pub open spec fn held(rows: Seq<StoredMessageView>, ids: Seq<Seq<char>>) -> Seq<MessageView>
    decreases ids.len(),
{
    if ids.len() == 0 {
        Seq::<MessageView>::empty()
    } else if has_row(rows, ids.last()) {
        held(rows, ids.drop_last()).push(
            message_of_bytes(rows[row_of(rows, ids.last())].message_data)->0,
        )
    } else {
        held(rows, ids.drop_last())
    }
}

/// How a store stands after a message was offered to it: a seen
/// identifier changes nothing; a message that breaks its limits or cannot
/// be written is refused and changes nothing; any other gets its row at
/// the place of its time and is recorded as seen.
pub open spec fn stored_as(
    before: Storage,
    after: Storage,
    m: MessageView,
    delivered: bool,
    now: Timestamp,
    r: Result<(), StorageError>,
) -> bool {
    &&& after.acks() == before.acks()
    &&& after.nonces() == before.nonces()
    &&& match before.store_verdict(m) {
        Ok(false) => r is Ok && after.rows() == before.rows() && after.seen() == before.seen(),
        Err(_) => r matches Err(StorageError::ValidationFailed(_)) && after.rows()
            == before.rows() && after.seen() == before.seen(),
        Ok(true) => match message_wire(m) {
            None => r matches Err(StorageError::SerializationFailed)
                && !m.timestamp.can_be_written() && after.rows() == before.rows() && after.seen()
                == before.seen(),
            Some(data) => {
                &&& r is Ok
                &&& after.rows() == before.rows().insert(
                    slot(before.rows(), now),
                    StoredMessageView {
                        message_id: m.id,
                        message_data: data,
                        sender_id: m.sender_id,
                        received_at: now,
                        ttl: MESSAGE_TTL_SECONDS,
                        delivered,
                    },
                )
                &&& after.seen() == before.seen().push(
                    SeenEntryView { message_id: m.id, seen_at: now },
                )
                &&& message_of_bytes(data) == Some(m)
            },
        },
    }
}

} // verus!
