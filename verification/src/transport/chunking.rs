//! Chunks: a payload cut into pieces that fit a datagram, and put
//! together again in whatever order the pieces come.
//!
//! The checksum of a chunk is the CRC-32 of its data, as the `crc32fast`
//! crate computes it. Time is the monotonic clock in milliseconds, given
//! by the caller.

use crate::wire::{append_bytes, clone_bytes, copy_range, str_eq};
use std::collections::HashMap;
use vstd::prelude::*;

verus! {

broadcast use vstd::std_specs::hash::group_hash_axioms;

/// Most bytes of data in one chunk.
pub const MAX_CHUNK_SIZE: usize = 1200;

/// Milliseconds that an unfinished payload is kept.
pub const REASSEMBLY_TIMEOUT_MS: u64 = 30_000;

/// Most bytes of a payload that can be cut: as many chunks as a chunk
/// index can count.
pub const MAX_CHUNKED_PAYLOAD: usize = 78_642_000;

/// The CRC-32 of bytes.
pub uninterp spec fn crc32(data: Seq<u8>) -> u32;

/// `crc32fast::hash`: the CRC-32 of `data`.
#[verifier::external_body]
fn crc32_outside(data: &[u8]) -> (r: u32)
    ensures
        r == crc32(data@),
{
    crc32fast::hash(data)
}

/// The CRC-32 of `data`.
pub fn checksum(data: &[u8]) -> (r: u32)
    ensures
        r == crc32(data@),
{
    crc32_outside(data)
}

/// One piece of a payload.
#[derive(Debug)]
pub struct ChunkedMessage {
    /// Identifier of the payload.
    pub message_id: String,
    /// Place of the piece, counted from 0.
    pub chunk_index: u16,
    /// Number of pieces of the payload.
    pub total_chunks: u16,
    /// The data of the piece.
    pub data: Vec<u8>,
    /// CRC-32 of the data, where the sender gave one.
    pub checksum: Option<u32>,
}

/// A piece as a mathematical value.
pub struct ChunkView {
    pub message_id: Seq<char>,
    pub chunk_index: u16,
    pub total_chunks: u16,
    pub data: Seq<u8>,
    pub checksum: Option<u32>,
}

impl View for ChunkedMessage {
    type V = ChunkView;

    open spec fn view(&self) -> ChunkView {
        ChunkView {
            message_id: self.message_id@,
            chunk_index: self.chunk_index,
            total_chunks: self.total_chunks,
            data: self.data@,
            checksum: self.checksum,
        }
    }
}

impl Clone for ChunkedMessage {
    fn clone(&self) -> (r: Self)
        ensures
            r@ == self@,
    {
        ChunkedMessage {
            message_id: self.message_id.clone(),
            chunk_index: self.chunk_index,
            total_chunks: self.total_chunks,
            data: clone_bytes(&self.data),
            checksum: self.checksum,
        }
    }
}

/// The number of pieces of a payload of `len` bytes: one for an empty
/// payload, and else as many as hold the payload at 1200 bytes a piece.
pub open spec fn chunk_count(len: nat) -> nat {
    if len == 0 {
        1
    } else {
        (len + MAX_CHUNK_SIZE - 1) as nat / (MAX_CHUNK_SIZE as nat)
    }
}

/// The data of the piece at `i` of a payload.
pub open spec fn chunk_data(payload: Seq<u8>, i: int) -> Seq<u8> {
    let from = i * MAX_CHUNK_SIZE;
    let to = if from + MAX_CHUNK_SIZE < payload.len() {
        from + MAX_CHUNK_SIZE
    } else {
        payload.len() as int
    };
    if from <= to {
        payload.subrange(from, to)
    } else {
        Seq::<u8>::empty()
    }
}

/// The piece at `i` of a payload.
pub open spec fn chunk_at(id: Seq<char>, payload: Seq<u8>, i: int) -> ChunkView {
    ChunkView {
        message_id: id,
        chunk_index: i as u16,
        total_chunks: chunk_count(payload.len()) as u16,
        data: chunk_data(payload, i),
        checksum: Some(crc32(chunk_data(payload, i))),
    }
}

/// The pieces of a payload, in their order.
pub open spec fn chunks_of(id: Seq<char>, payload: Seq<u8>) -> Seq<ChunkView> {
    Seq::new(chunk_count(payload.len()), |i: int| chunk_at(id, payload, i))
}

/// The pieces of a vector as mathematical values.
pub open spec fn chunks_view(v: Seq<ChunkedMessage>) -> Seq<ChunkView> {
    Seq::new(v.len(), |i: int| v[i]@)
}

/// Whether the checksum of a piece, where it has one, is that of its data.
pub open spec fn checksum_holds(c: ChunkView) -> bool {
    match c.checksum {
        Some(expected) => crc32(c.data) == expected,
        None => true,
    }
}

impl ChunkedMessage {
    /// Cuts a payload into pieces of at most 1200 bytes, each with the
    /// CRC-32 of its data. An empty payload gives one empty piece.
    pub fn chunk_payload(message_id: String, payload: &[u8]) -> (r: Vec<ChunkedMessage>)
        requires
            payload@.len() <= MAX_CHUNKED_PAYLOAD,
        ensures
            chunks_view(r@) == chunks_of(message_id@, payload@),
    {
        let len = payload.len();
        let total: usize = if len == 0 {
            1
        } else {
            (len + MAX_CHUNK_SIZE - 1) / MAX_CHUNK_SIZE
        };
        assert(total == chunk_count(len as nat));
        assert(total <= 65535) by {
            assert(len <= 78_642_000);
        }
        let mut chunks: Vec<ChunkedMessage> = Vec::new();
        let mut i: usize = 0;
        while i < total
            invariant
                i <= total,
                total == chunk_count(len as nat),
                total <= 65535,
                len == payload@.len(),
                chunks@.len() == i,
                forall|k: int|
                    0 <= k < i ==> (#[trigger] chunks@[k])@ == chunk_at(message_id@, payload@, k),
            decreases total - i,
        {
            let from: usize = i * MAX_CHUNK_SIZE;
            assert(len == 0 ==> i == 0);
            assert(from <= len) by {
                if len > 0 {
                    assert(i * MAX_CHUNK_SIZE <= (total - 1) * MAX_CHUNK_SIZE) by (nonlinear_arith)
                        requires
                            i <= total - 1,
                    ;
                    assert((total - 1) * MAX_CHUNK_SIZE <= len - 1) by (nonlinear_arith)
                        requires
                            total == (len + MAX_CHUNK_SIZE - 1) / (MAX_CHUNK_SIZE as int),
                            len > 0,
                            MAX_CHUNK_SIZE == 1200,
                    ;
                }
            }
            let to: usize = if len - from > MAX_CHUNK_SIZE {
                from + MAX_CHUNK_SIZE
            } else {
                len
            };
            let data = copy_range(payload, from, to);
            let sum = checksum(data.as_slice());
            chunks.push(
                ChunkedMessage {
                    message_id: message_id.clone(),
                    chunk_index: i as u16,
                    total_chunks: total as u16,
                    data,
                    checksum: Some(sum),
                },
            );
            i = i + 1;
        }
        assert(chunks_view(chunks@) =~= chunks_of(message_id@, payload@));
        chunks
    }

    /// Whether the checksum of the piece, where it has one, is that of
    /// its data.
    pub fn verify_checksum(&self) -> (r: bool)
        ensures
            r == checksum_holds(self@),
    {
        match self.checksum {
            Some(expected) => checksum(self.data.as_slice()) == expected,
            None => true,
        }
    }
}

/// Why a piece is refused.
#[derive(Clone, Copy, Debug, PartialEq, Eq, Structural)]
pub enum ReassemblyError {
    /// The checksum is not that of the data.
    ChecksumMismatch,
    /// The place of the piece is not below the number of pieces.
    InvalidChunkIndex,
    /// The piece names another number of pieces than those before it.
    InconsistentMetadata,
    /// A piece is missing though all were counted.
    MissingChunks,
}

impl ReassemblyError {
    /// The error in words.
    pub open spec fn words(self) -> Seq<char> {
        match self {
            ReassemblyError::ChecksumMismatch => "Checksum mismatch"@,
            ReassemblyError::InvalidChunkIndex => "Invalid chunk index"@,
            ReassemblyError::InconsistentMetadata => "Inconsistent metadata"@,
            ReassemblyError::MissingChunks => "Missing chunks"@,
        }
    }

    /// The error in words, as a text.
    pub fn to_string(&self) -> (r: String)
        ensures
            r@ == self.words(),
    {
        match self {
            ReassemblyError::ChecksumMismatch => "Checksum mismatch".to_string(),
            ReassemblyError::InvalidChunkIndex => "Invalid chunk index".to_string(),
            ReassemblyError::InconsistentMetadata => "Inconsistent metadata".to_string(),
            ReassemblyError::MissingChunks => "Missing chunks".to_string(),
        }
    }
}

/// The pieces of one payload that came so far, by their places.
struct ReassemblyState {
    message_id: String,
    total_chunks: u16,
    started_at: u64,
    chunks: HashMap<u16, Vec<u8>>,
    received: usize,
}

/// An unfinished payload as a mathematical value: its pieces by place.
pub struct PendingView {
    pub message_id: Seq<char>,
    pub total_chunks: u16,
    pub started_at: u64,
    pub slots: Seq<Option<Seq<u8>>>,
}

/// The slots of an unfinished payload of `total` pieces: each place
/// with the data of the piece that came for it, or with none.
pub open spec fn slots_of(chunks: Map<u16, Vec<u8>>, total: u16) -> Seq<Option<Seq<u8>>> {
    Seq::new(
        total as nat,
        |i: int|
            if chunks.contains_key(i as u16) {
                Some(chunks[i as u16]@)
            } else {
                None
            },
    )
}

/// The number of slots that are filled.
pub open spec fn filled(slots: Seq<Option<Seq<u8>>>) -> nat
    decreases slots.len(),
{
    if slots.len() == 0 {
        0
    } else if slots.last() is Some {
        filled(slots.drop_last()) + 1
    } else {
        filled(slots.drop_last())
    }
}

/// The data of the slots, one after the other; an empty slot gives none.
pub open spec fn glued(slots: Seq<Option<Seq<u8>>>) -> Seq<u8>
    decreases slots.len(),
{
    if slots.len() == 0 {
        Seq::<u8>::empty()
    } else {
        glued(slots.drop_last()) + (match slots.last() {
            Some(d) => d,
            None => Seq::<u8>::empty(),
        })
    }
}

impl ReassemblyState {
    spec fn view(&self) -> PendingView {
        PendingView {
            message_id: self.message_id@,
            total_chunks: self.total_chunks,
            started_at: self.started_at,
            slots: slots_of(self.chunks@, self.total_chunks),
        }
    }

    spec fn wf(&self) -> bool {
        self.received == filled(slots_of(self.chunks@, self.total_chunks))
    }
}

/// Puts payloads together from their pieces.
pub struct ChunkReassembler {
    pending: Vec<ReassemblyState>,
}

/// The place of the unfinished payload with the identifier, where there
/// is one.
pub open spec fn pending_place(pending: Seq<PendingView>, id: Seq<char>) -> Option<int>
    decreases pending.len(),
{
    if pending.len() == 0 {
        None
    } else {
        match pending_place(pending.drop_last(), id) {
            Some(i) => Some(i),
            None => if pending.last().message_id == id {
                Some(pending.len() - 1)
            } else {
                None
            },
        }
    }
}

/// The slots of a payload of `total` pieces of which none came.
pub open spec fn empty_slots(total: u16) -> Seq<Option<Seq<u8>>> {
    Seq::new(total as nat, |i: int| None::<Seq<u8>>)
}

/// What taking in a piece at `now` does to the unfinished payloads, and
/// what it answers: a piece whose checksum does not hold or whose place
/// is not below its number of pieces is refused and changes nothing; a
/// piece that names another number of pieces than its payload has so far
/// makes the payload be forgotten; any other fills its slot, and where
/// that was the last empty slot, the payload is given and forgotten.
pub open spec fn fed(pending: Seq<PendingView>, c: ChunkView, now: u64) -> (
    Seq<PendingView>,
    Result<Option<Seq<u8>>, ReassemblyError>,
) {
    if !checksum_holds(c) {
        (pending, Err(ReassemblyError::ChecksumMismatch))
    } else if c.chunk_index >= c.total_chunks {
        (pending, Err(ReassemblyError::InvalidChunkIndex))
    } else {
        let with_state = match pending_place(pending, c.message_id) {
            Some(_) => pending,
            None => pending.push(
                PendingView {
                    message_id: c.message_id,
                    total_chunks: c.total_chunks,
                    started_at: now,
                    slots: empty_slots(c.total_chunks),
                },
            ),
        };
        let i = match pending_place(pending, c.message_id) {
            Some(i) => i,
            None => pending.len() as int,
        };
        let state = with_state[i];
        if state.total_chunks != c.total_chunks {
            (with_state.remove(i), Err(ReassemblyError::InconsistentMetadata))
        } else {
            let slots = state.slots.update(c.chunk_index as int, Some(c.data));
            if filled(slots) == c.total_chunks {
                (with_state.remove(i), Ok(Some(glued(slots))))
            } else {
                (with_state.update(i, PendingView { slots, ..state }), Ok(None))
            }
        }
    }
}

/// Whether no identifier has two unfinished payloads.
pub open spec fn distinct_pending(pending: Seq<PendingView>) -> bool {
    forall|i: int, j: int|
        0 <= i < j < pending.len() ==> (#[trigger] pending[i]).message_id != (
        #[trigger] pending[j]).message_id
}

/// A piece that is fed leaves no identifier with two unfinished payloads.
pub proof fn lemma_fed_distinct(pending: Seq<PendingView>, c: ChunkView, now: u64)
    requires
        distinct_pending(pending),
    ensures
        distinct_pending(fed(pending, c, now).0),
{
    lemma_pending_place(pending, c.message_id);
    let after = fed(pending, c, now).0;
    if checksum_holds(c) && c.chunk_index < c.total_chunks {
        let started = PendingView {
            message_id: c.message_id,
            total_chunks: c.total_chunks,
            started_at: now,
            slots: empty_slots(c.total_chunks),
        };
        let with_state = match pending_place(pending, c.message_id) {
            Some(_) => pending,
            None => pending.push(started),
        };
        let at = match pending_place(pending, c.message_id) {
            Some(i) => i,
            None => pending.len() as int,
        };
        assert forall|i: int, j: int| 0 <= i < j < with_state.len() implies (
        #[trigger] with_state[i]).message_id != (#[trigger] with_state[j]).message_id by {
            if j < pending.len() {
                assert(with_state[i] == pending[i] && with_state[j] == pending[j]);
            } else {
                assert(with_state[i] == pending[i]);
            }
        }
        assert forall|i: int, j: int| 0 <= i < j < after.len() implies (
        #[trigger] after[i]).message_id != (#[trigger] after[j]).message_id by {
            if after.len() == with_state.len() {
                assert(after[i].message_id == with_state[i].message_id);
                assert(after[j].message_id == with_state[j].message_id);
            } else {
                let a = if i < at {
                    i
                } else {
                    i + 1
                };
                let b = if j < at {
                    j
                } else {
                    j + 1
                };
                assert(after[i] == with_state[a] && after[j] == with_state[b]);
            }
        }
    }
}

/// The unfinished payloads that are kept were there before, and no
/// identifier has two of them where none had two before.
pub proof fn lemma_recent_distinct(pending: Seq<PendingView>, now: u64)
    requires
        distinct_pending(pending),
    ensures
        distinct_pending(recent(pending, now)),
        forall|k: int|
            0 <= k < recent(pending, now).len() ==> pending.contains(
                #[trigger] recent(pending, now)[k],
            ),
    decreases pending.len(),
{
    if pending.len() > 0 {
        let t = pending.drop_last();
        assert forall|i: int, j: int| 0 <= i < j < t.len() implies (#[trigger] t[i]).message_id
            != (#[trigger] t[j]).message_id by {
            assert(t[i] == pending[i] && t[j] == pending[j]);
        }
        lemma_recent_distinct(t, now);
        let kept = recent(pending, now);
        let before = recent(t, now);
        assert forall|k: int| 0 <= k < kept.len() implies pending.contains(#[trigger] kept[k]) by {
            if k < before.len() {
                assert(kept[k] == before[k]);
                assert(t.contains(before[k]));
                let m = choose|m: int| 0 <= m < t.len() && t[m] == before[k];
                assert(pending[m] == kept[k]);
            } else {
                assert(pending[pending.len() - 1] == kept[k]);
            }
        }
        assert forall|i: int, j: int| 0 <= i < j < kept.len() implies (
        #[trigger] kept[i]).message_id != (#[trigger] kept[j]).message_id by {
            if j < before.len() {
                assert(kept[i] == before[i] && kept[j] == before[j]);
            } else {
                assert(kept[i] == before[i]);
                assert(t.contains(before[i]));
                let m = choose|m: int| 0 <= m < t.len() && t[m] == before[i];
                assert(pending[m] == kept[i]);
                assert(pending[pending.len() - 1] == kept[j]);
            }
        }
    }
}

/// The unfinished payloads that began fewer than 30 seconds before
/// `now`, in their order.
pub open spec fn recent(pending: Seq<PendingView>, now: u64) -> Seq<PendingView>
    decreases pending.len(),
{
    if pending.len() == 0 {
        pending
    } else if elapsed_ms(pending.last().started_at, now) < REASSEMBLY_TIMEOUT_MS {
        recent(pending.drop_last(), now).push(pending.last())
    } else {
        recent(pending.drop_last(), now)
    }
}

/// Milliseconds from `since` to `now`; none where `now` is the earlier.
pub open spec fn elapsed_ms(since: u64, now: u64) -> int {
    if now >= since {
        now - since
    } else {
        0
    }
}

/// Filling an empty slot adds one to the filled slots; filling a filled
/// slot adds none.
proof fn lemma_filled_update(slots: Seq<Option<Seq<u8>>>, i: int, d: Seq<u8>)
    requires
        0 <= i < slots.len(),
    ensures
        filled(slots.update(i, Some(d))) == filled(slots) + (if slots[i] is Some {
            0nat
        } else {
            1nat
        }),
    decreases slots.len(),
{
    let u = slots.update(i, Some(d));
    if i == slots.len() - 1 {
        assert(u.drop_last() =~= slots.drop_last());
        assert(u.last() == Some(d));
        assert(slots.last() == slots[i]);
    } else {
        assert(u.drop_last() =~= slots.drop_last().update(i, Some(d)));
        assert(u.last() == slots.last());
        assert(slots.drop_last()[i] == slots[i]);
        lemma_filled_update(slots.drop_last(), i, d);
    }
}

/// No more slots are filled than there are; all are filled exactly where
/// none is empty.
pub proof fn lemma_filled_bound(slots: Seq<Option<Seq<u8>>>)
    ensures
        filled(slots) <= slots.len(),
        filled(slots) == slots.len() <==> forall|i: int|
            0 <= i < slots.len() ==> (#[trigger] slots[i]) is Some,
        filled(slots) == 0 <==> forall|i: int|
            0 <= i < slots.len() ==> (#[trigger] slots[i]) is None,
    decreases slots.len(),
{
    if slots.len() > 0 {
        let t = slots.drop_last();
        lemma_filled_bound(t);
        assert(slots.last() == slots[slots.len() - 1]);
        assert forall|i: int| 0 <= i < t.len() implies t[i] == slots[i] by {}
        if filled(slots) == slots.len() {
            assert forall|i: int| 0 <= i < slots.len() implies (#[trigger] slots[i]) is Some by {
                if i < t.len() {
                    assert(t[i] == slots[i]);
                }
            }
        }
        if forall|i: int| 0 <= i < slots.len() ==> (#[trigger] slots[i]) is Some {
            assert forall|i: int| 0 <= i < t.len() implies (#[trigger] t[i]) is Some by {
                assert(t[i] == slots[i]);
            }
        }
        if filled(slots) == 0 {
            assert forall|i: int| 0 <= i < slots.len() implies (#[trigger] slots[i]) is None by {
                if i < t.len() {
                    assert(t[i] == slots[i]);
                }
            }
        }
        if forall|i: int| 0 <= i < slots.len() ==> (#[trigger] slots[i]) is None {
            assert forall|i: int| 0 <= i < t.len() implies (#[trigger] t[i]) is None by {
                assert(t[i] == slots[i]);
            }
        }
    }
}

proof fn lemma_pending_place_prefix(pending: Seq<PendingView>, n: int, id: Seq<char>)
    requires
        0 <= n <= pending.len(),
        pending_place(pending.take(n), id) is Some,
    ensures
        pending_place(pending, id) == pending_place(pending.take(n), id),
    decreases pending.len() - n,
{
    if n < pending.len() {
        assert(pending.take(n + 1).drop_last() =~= pending.take(n));
        lemma_pending_place_prefix(pending, n + 1, id);
    } else {
        assert(pending.take(n) =~= pending);
    }
}

/// The place of an unfinished payload lies among the payloads, and the
/// payload there has the identifier.
pub proof fn lemma_pending_place(pending: Seq<PendingView>, id: Seq<char>)
    ensures
        pending_place(pending, id) matches Some(i) ==> 0 <= i < pending.len()
            && pending[i].message_id == id,
        pending_place(pending, id) is None ==> forall|j: int|
            0 <= j < pending.len() ==> (#[trigger] pending[j]).message_id != id,
    decreases pending.len(),
{
    if pending.len() > 0 {
        lemma_pending_place(pending.drop_last(), id);
        assert forall|j: int| 0 <= j < pending.len() - 1 implies pending.drop_last()[j]
            == pending[j] by {}
    }
}

/// The unfinished payloads of a vector as mathematical values.
spec fn pending_view(v: Seq<ReassemblyState>) -> Seq<PendingView> {
    Seq::new(v.len(), |i: int| v[i].view())
}

impl ChunkReassembler {
    /// The unfinished payloads, in the order in which they began.
    pub closed spec fn pending(self) -> Seq<PendingView> {
        pending_view(self.pending@)
    }

    /// Every unfinished payload has a slot for each of its pieces, its
    /// count of pieces is right, and no identifier has two unfinished
    /// payloads.
    pub closed spec fn wf(self) -> bool {
        &&& forall|i: int| 0 <= i < self.pending@.len() ==> (#[trigger] self.pending@[i]).wf()
        &&& distinct_pending(pending_view(self.pending@))
    }

    /// A reassembler without unfinished payloads.
    pub fn new() -> (r: ChunkReassembler)
        ensures
            r.wf(),
            r.pending().len() == 0,
    {
        ChunkReassembler { pending: Vec::new() }
    }

    fn find(&self, id: &str) -> (r: Option<usize>)
        ensures
            match r {
                Some(i) => pending_place(self.pending(), id@) == Some(i as int) && i
                    < self.pending@.len(),
                None => pending_place(self.pending(), id@) is None,
            },
    {
        let n = self.pending.len();
        let ghost s = self.pending();
        let mut i: usize = 0;
        while i < n
            invariant
                i <= n,
                n == self.pending@.len(),
                s == self.pending(),
                pending_place(s.take(i as int), id@) is None,
            decreases n - i,
        {
            assert(s.take(i + 1).drop_last() =~= s.take(i as int));
            assert(s.take(i + 1).last() == s[i as int]);
            if str_eq(self.pending[i].message_id.as_str(), id) {
                proof {
                    lemma_pending_place_prefix(s, i + 1, id@);
                }
                return Some(i);
            }
            i = i + 1;
        }
        assert(s.take(n as int) =~= s);
        None
    }

    /// Takes in a piece at the monotonic time `now`, and gives the
    /// payload where the piece was its last.
    pub fn add_chunk(&mut self, chunk: ChunkedMessage, now: u64) -> (r: Result<
        Option<Vec<u8>>,
        ReassemblyError,
    >)
        requires
            old(self).wf(),
        ensures
            final(self).wf(),
            final(self).pending() == fed(old(self).pending(), chunk@, now).0,
            answer_view(r) == fed(old(self).pending(), chunk@, now).1,
    {
        proof {
            lemma_fed_distinct(self.pending(), chunk@, now);
        }
        if !chunk.verify_checksum() {
            return Err(ReassemblyError::ChecksumMismatch);
        }
        if chunk.chunk_index >= chunk.total_chunks {
            return Err(ReassemblyError::InvalidChunkIndex);
        }
        let ghost pending0 = self.pending();
        let ghost cv = chunk@;
        let place = match self.find(chunk.message_id.as_str()) {
            Some(i) => i,
            None => {
                let chunks: HashMap<u16, Vec<u8>> = HashMap::new();
                proof {
                    assert(slots_of(chunks@, chunk.total_chunks) =~= empty_slots(
                        chunk.total_chunks,
                    ));
                    lemma_filled_bound(empty_slots(chunk.total_chunks));
                }
                self.pending.push(
                    ReassemblyState {
                        message_id: chunk.message_id.clone(),
                        total_chunks: chunk.total_chunks,
                        started_at: now,
                        chunks,
                        received: 0,
                    },
                );
                assert(self.pending() =~= pending0.push(
                    PendingView {
                        message_id: cv.message_id,
                        total_chunks: cv.total_chunks,
                        started_at: now,
                        slots: empty_slots(cv.total_chunks),
                    },
                ));
                self.pending.len() - 1
            },
        };
        let ghost pending1 = self.pending();
        assert(forall|i: int|
            0 <= i < self.pending@.len() ==> (#[trigger] self.pending@[i]).wf());
        assert(self.pending@[place as int].wf());
        if self.pending[place].total_chunks != chunk.total_chunks {
            self.pending.remove(place);
            assert(self.pending() =~= pending1.remove(place as int));
            return Err(ReassemblyError::InconsistentMetadata);
        }
        let mut state = self.pending.remove(place);
        assert(self.pending() =~= pending1.remove(place as int));
        let index = chunk.chunk_index;
        let ghost slots0 = slots_of(state.chunks@, state.total_chunks);
        let was_filled = state.chunks.contains_key(&index);
        let _ = state.chunks.insert(index, chunk.data);
        proof {
            assert(slots_of(state.chunks@, state.total_chunks) =~= slots0.update(
                index as int,
                Some(cv.data),
            ));
            lemma_filled_update(slots0, index as int, cv.data);
            lemma_filled_bound(slots0);
            assert(slots0[index as int] is Some == was_filled);
        }
        if !was_filled {
            state.received = state.received + 1;
        }
        if state.received == chunk.total_chunks as usize {
            let payload = glue(&state.chunks, state.total_chunks);
            Ok(Some(payload))
        } else {
            let ghost sv = state.view();
            self.pending.insert(place, state);
            proof {
                assert(self.pending() =~= pending1.update(place as int, sv));
            }
            Ok(None)
        }
    }

    /// Forgets the unfinished payloads that began 30 seconds or more
    /// before the monotonic time `now`, and says how many they were.
    pub fn cleanup_expired(&mut self, now: u64) -> (removed: usize)
        requires
            old(self).wf(),
        ensures
            final(self).wf(),
            final(self).pending() == recent(old(self).pending(), now),
            removed == old(self).pending().len() - final(self).pending().len(),
    {
        proof {
            lemma_recent_distinct(self.pending(), now);
        }
        let ghost pending0 = self.pending();
        let total = self.pending.len();
        let mut i: usize = 0;
        let mut removed: usize = 0;
        let mut done: Ghost<int> = Ghost(0);
        assert(pending0.take(0) =~= Seq::<PendingView>::empty());
        assert(pending0.skip(0) =~= pending0);
        while i < self.pending.len()
            invariant
                i <= self.pending@.len(),
                0 <= done@ <= pending0.len(),
                self.wf(),
                self.pending().take(i as int) == recent(pending0.take(done@), now),
                self.pending().skip(i as int) == pending0.skip(done@),
                removed + self.pending().len() == pending0.len(),
                pending0.len() == total,
            decreases self.pending@.len() - i,
        {
            let ghost cur = self.pending();
            proof {
                assert(cur.skip(i as int).len() == cur.len() - i);
                assert(pending0.skip(done@).len() == pending0.len() - done@);
                assert(cur[i as int] == cur.skip(i as int)[0]);
                assert(pending0[done@] == pending0.skip(done@)[0]);
                assert(pending0.take(done@ + 1).drop_last() =~= pending0.take(done@));
                assert(pending0.take(done@ + 1).last() == pending0[done@]);
                assert(pending0.skip(done@ + 1) =~= pending0.skip(done@).skip(1));
            }
            let started = self.pending[i].started_at;
            let elapsed: u64 = if now >= started {
                now - started
            } else {
                0
            };
            if elapsed >= REASSEMBLY_TIMEOUT_MS {
                self.pending.remove(i);
                removed = removed + 1;
                proof {
                    assert(self.pending() =~= cur.remove(i as int));
                    assert(self.pending().take(i as int) =~= cur.take(i as int));
                    assert(self.pending().skip(i as int) =~= cur.skip(i as int).skip(1));
                }
            } else {
                proof {
                    assert(cur.take(i + 1) =~= cur.take(i as int).push(cur[i as int]));
                    assert(cur.skip(i + 1) =~= cur.skip(i as int).skip(1));
                }
                i = i + 1;
            }
            proof {
                done@ = done@ + 1;
            }
        }
        proof {
            assert(self.pending().skip(i as int).len() == 0);
            assert(pending0.take(done@) =~= pending0);
            assert(self.pending().take(i as int) =~= self.pending());
        }
        removed
    }

    /// The number of unfinished payloads.
    pub fn pending_count(&self) -> (n: usize)
        ensures
            n == self.pending().len(),
    {
        self.pending.len()
    }
}

/// What `add_chunk` answers, as a mathematical value.
pub open spec fn answer_view(r: Result<Option<Vec<u8>>, ReassemblyError>) -> Result<
    Option<Seq<u8>>,
    ReassemblyError,
> {
    match r {
        Ok(Some(v)) => Ok(Some(v@)),
        Ok(None) => Ok(None),
        Err(e) => Err(e),
    }
}

/// The data of the pieces of a payload of `total` pieces, in the order
/// of their places.
fn glue(chunks: &HashMap<u16, Vec<u8>>, total: u16) -> (out: Vec<u8>)
    ensures
        out@ == glued(slots_of(chunks@, total)),
{
    let mut out: Vec<u8> = Vec::new();
    let ghost s = slots_of(chunks@, total);
    let mut i: u16 = 0;
    assert(glued(s.take(0)) =~= Seq::<u8>::empty());
    while i < total
        invariant
            i <= total,
            s == slots_of(chunks@, total),
            out@ == glued(s.take(i as int)),
        decreases total - i,
    {
        assert(s.take(i + 1).drop_last() =~= s.take(i as int));
        assert(s.take(i + 1).last() == s[i as int]);
        match chunks.get(&i) {
            Some(d) => {
                append_bytes(&mut out, d.as_slice());
            },
            None => {
                assert(out@ + Seq::<u8>::empty() =~= out@);
            },
        }
        i = i + 1;
    }
    assert(s.take(total as int) =~= s);
    out
}

/// What taking in pieces one after the other does and answers.
pub open spec fn fed_all(pending: Seq<PendingView>, chunks: Seq<ChunkView>, times: Seq<u64>) -> (
    Seq<PendingView>,
    Seq<Result<Option<Seq<u8>>, ReassemblyError>>,
)
    decreases chunks.len(),
{
    if chunks.len() == 0 {
        (pending, Seq::<Result<Option<Seq<u8>>, ReassemblyError>>::empty())
    } else {
        let before = fed_all(pending, chunks.drop_last(), times.drop_last());
        let step = fed(before.0, chunks.last(), times.last());
        (step.0, before.1.push(step.1))
    }
}

/// Whether `order` names every place below `n` once.
pub open spec fn is_shuffle(order: Seq<int>, n: nat) -> bool {
    &&& order.len() == n
    &&& forall|i: int| 0 <= i < order.len() ==> 0 <= #[trigger] order[i] < n
    &&& forall|i: int, j: int| 0 <= i < j < order.len() ==> order[i] != order[j]
}

/// The pieces of a payload in the order that `order` names.
pub open spec fn shuffled(id: Seq<char>, payload: Seq<u8>, order: Seq<int>) -> Seq<ChunkView> {
    Seq::new(order.len(), |k: int| chunk_at(id, payload, order[k]))
}

/// The slots of a payload after the first `k` pieces of a shuffle came.
spec fn slots_after(payload: Seq<u8>, order: Seq<int>, k: int) -> Seq<Option<Seq<u8>>> {
    Seq::new(
        chunk_count(payload.len()),
        |j: int|
            if exists|i: int| 0 <= i < k && order[i] == j {
                Some(chunk_data(payload, j))
            } else {
                None
            },
    )
}

proof fn lemma_slots_after_step(payload: Seq<u8>, order: Seq<int>, k: int)
    requires
        is_shuffle(order, chunk_count(payload.len())),
        0 <= k < order.len(),
    ensures
        slots_after(payload, order, k + 1) == slots_after(payload, order, k).update(
            order[k],
            Some(chunk_data(payload, order[k])),
        ),
        slots_after(payload, order, k)[order[k]] is None,
        filled(slots_after(payload, order, k)) == k,
        filled(slots_after(payload, order, k + 1)) == k + 1,
    decreases k,
{
    let a = slots_after(payload, order, k);
    let b = slots_after(payload, order, k + 1);
    let u = a.update(order[k], Some(chunk_data(payload, order[k])));
    assert forall|j: int| 0 <= j < b.len() implies b[j] == u[j] by {
        if j == order[k] {
            assert(0 <= k < k + 1 && order[k] == j);
        } else {
            if exists|i: int| 0 <= i < k + 1 && order[i] == j {
                let i = choose|i: int| 0 <= i < k + 1 && order[i] == j;
                assert(i != k);
                assert(0 <= i < k && order[i] == j);
            }
            if exists|i: int| 0 <= i < k && order[i] == j {
                let i = choose|i: int| 0 <= i < k && order[i] == j;
                assert(0 <= i < k + 1 && order[i] == j);
            }
        }
    }
    assert(b =~= u);
    if exists|i: int| 0 <= i < k && order[i] == order[k] {
        let i = choose|i: int| 0 <= i < k && order[i] == order[k];
        assert(order[i] != order[k]);
    }
    if k == 0 {
        lemma_filled_bound(a);
        assert forall|j: int| 0 <= j < a.len() implies (#[trigger] a[j]) is None by {}
    } else {
        lemma_slots_after_step(payload, order, k - 1);
    }
    lemma_filled_update(a, order[k], chunk_data(payload, order[k]));
}

/// The pieces of a payload, glued in their order, are the payload.
proof fn lemma_glued_prefix(payload: Seq<u8>, m: int)
    requires
        0 <= m <= chunk_count(payload.len()),
    ensures
        glued(Seq::new(m as nat, |j: int| Some(chunk_data(payload, j)))) == payload.subrange(
            0,
            if m * MAX_CHUNK_SIZE < payload.len() {
                m * MAX_CHUNK_SIZE
            } else {
                payload.len() as int
            },
        ),
    decreases m,
{
    let s = Seq::new(m as nat, |j: int| Some(chunk_data(payload, j)));
    if m == 0 {
        assert(payload.subrange(0, 0) =~= Seq::<u8>::empty());
    } else {
        let t = Seq::new((m - 1) as nat, |j: int| Some(chunk_data(payload, j)));
        assert(s.drop_last() =~= t);
        assert(s.last() == Some(chunk_data(payload, m - 1)));
        lemma_glued_prefix(payload, m - 1);
        let len = payload.len() as int;
        let from = (m - 1) * MAX_CHUNK_SIZE;
        assert(from + MAX_CHUNK_SIZE == m * MAX_CHUNK_SIZE) by (nonlinear_arith)
            requires
                from == (m - 1) * MAX_CHUNK_SIZE,
        ;
        if len == 0 {
            assert(m == 1);
            assert(glued(s) =~= payload.subrange(0, 0));
        } else {
            assert((m - 1) * MAX_CHUNK_SIZE < len) by (nonlinear_arith)
                requires
                    m <= (len + MAX_CHUNK_SIZE - 1) / (MAX_CHUNK_SIZE as int),
                    len > 0,
                    MAX_CHUNK_SIZE == 1200,
                    m >= 1,
            ;
            let to = if from + MAX_CHUNK_SIZE < len {
                from + MAX_CHUNK_SIZE
            } else {
                len
            };
            assert(payload.subrange(0, from) + payload.subrange(from, to) =~= payload.subrange(
                0,
                to,
            ));
        }
    }
}

proof fn lemma_glued_all(payload: Seq<u8>)
    ensures
        glued(
            Seq::new(chunk_count(payload.len()), |j: int| Some(chunk_data(payload, j))),
        ) == payload,
{
    let n = chunk_count(payload.len()) as int;
    let len = payload.len() as int;
    lemma_glued_prefix(payload, n);
    if len > 0 {
        assert(n * MAX_CHUNK_SIZE >= len) by (nonlinear_arith)
            requires
                n == (len + MAX_CHUNK_SIZE - 1) / (MAX_CHUNK_SIZE as int),
                len > 0,
                MAX_CHUNK_SIZE == 1200,
        ;
    }
    assert(payload.subrange(0, len) =~= payload);
}

/// The state of a reassembler after the first `k` pieces of a shuffle
/// came: nothing is pending before the first piece, and one payload with
/// the slots of the pieces that came is pending thereafter.
spec fn state_after(id: Seq<char>, payload: Seq<u8>, order: Seq<int>, times: Seq<u64>, k: int)
    -> Seq<PendingView> {
    if k == 0 {
        Seq::<PendingView>::empty()
    } else {
        seq![
            PendingView {
                message_id: id,
                total_chunks: chunk_count(payload.len()) as u16,
                started_at: times[0],
                slots: slots_after(payload, order, k),
            },
        ]
    }
}

proof fn lemma_partial(
    id: Seq<char>,
    payload: Seq<u8>,
    order: Seq<int>,
    times: Seq<u64>,
    k: int,
)
    requires
        payload.len() <= MAX_CHUNKED_PAYLOAD,
        is_shuffle(order, chunk_count(payload.len())),
        times.len() == order.len(),
        0 <= k < order.len(),
    ensures
        fed_all(
            Seq::<PendingView>::empty(),
            shuffled(id, payload, order).take(k),
            times.take(k),
        ).0 == state_after(id, payload, order, times, k),
        fed_all(
            Seq::<PendingView>::empty(),
            shuffled(id, payload, order).take(k),
            times.take(k),
        ).1.len() == k,
        forall|i: int|
            0 <= i < k ==> (#[trigger] fed_all(
                Seq::<PendingView>::empty(),
                shuffled(id, payload, order).take(k),
                times.take(k),
            ).1[i]) == Ok::<Option<Seq<u8>>, ReassemblyError>(None),
    decreases k,
{
    let n = chunk_count(payload.len());
    let all = shuffled(id, payload, order);
    let none = Seq::<PendingView>::empty();
    if k > 0 {
        lemma_partial(id, payload, order, times, k - 1);
        let chunks = all.take(k);
        let ts = times.take(k);
        assert(chunks.drop_last() =~= all.take(k - 1));
        assert(ts.drop_last() =~= times.take(k - 1));
        let before = fed_all(none, all.take(k - 1), times.take(k - 1));
        let c = chunks.last();
        assert(c == chunk_at(id, payload, order[k - 1]));
        let now = ts.last();
        lemma_chunk_count_bound(payload.len());
        lemma_slots_after_step(payload, order, k - 1);
        let p = before.0;
        assert(p == state_after(id, payload, order, times, k - 1));
        assert(checksum_holds(c));
        assert(c.chunk_index == order[k - 1]);
        assert(c.total_chunks == n);
        if k == 1 {
            assert(pending_place(p, id) is None);
            let fresh = PendingView {
                message_id: id,
                total_chunks: n as u16,
                started_at: now,
                slots: empty_slots(n as u16),
            };
            let with_state = p.push(fresh);
            assert(with_state[0] == fresh);
            assert(empty_slots(n as u16) =~= slots_after(payload, order, 0));
            assert(times.take(1).last() == times[0]);
            let slots = fresh.slots.update(order[0], Some(c.data));
            assert(slots == slots_after(payload, order, 1));
            assert(filled(slots) == 1);
            assert(n > 1);
            assert(with_state.update(0, PendingView { slots, ..fresh }) =~= state_after(
                id,
                payload,
                order,
                times,
                1,
            ));
        } else {
            assert(p.len() == 1);
            assert(p.drop_last() =~= none);
            assert(p.last() == p[0]);
            assert(pending_place(p.drop_last(), id) is None);
            assert(pending_place(p, id) == Some(0int));
            let state = p[0];
            let slots = state.slots.update(order[k - 1], Some(c.data));
            assert(slots == slots_after(payload, order, k));
            assert(filled(slots) == k);
            assert(p.update(0, PendingView { slots, ..state }) =~= state_after(
                id,
                payload,
                order,
                times,
                k,
            ));
        }
        let step = fed(p, c, now);
        assert(step.1 == Ok::<Option<Seq<u8>>, ReassemblyError>(None));
        let run = fed_all(none, chunks, ts);
        assert(run.1 == before.1.push(step.1));
        assert forall|i: int| 0 <= i < k implies (#[trigger] run.1[i]) == Ok::<
            Option<Seq<u8>>,
            ReassemblyError,
        >(None) by {
            if i < k - 1 {
                assert(run.1[i] == before.1[i]);
            }
        }
    } else {
        assert(all.take(0) =~= Seq::<ChunkView>::empty());
    }
}

/// A payload that can be cut has at most 65535 pieces.
proof fn lemma_chunk_count_bound(len: nat)
    requires
        len <= MAX_CHUNKED_PAYLOAD,
    ensures
        1 <= chunk_count(len) <= 65535,
{
}

/// The pieces of a payload, taken in by a fresh reassembler in whatever
/// order, give the payload with the last piece: every piece before the
/// last is answered with nothing, the last with the payload, and nothing
/// is left unfinished.
pub proof fn lemma_chunks_reassemble(
    id: Seq<char>,
    payload: Seq<u8>,
    order: Seq<int>,
    times: Seq<u64>,
)
    requires
        payload.len() <= MAX_CHUNKED_PAYLOAD,
        is_shuffle(order, chunk_count(payload.len())),
        times.len() == order.len(),
    ensures
        fed_all(Seq::<PendingView>::empty(), shuffled(id, payload, order), times).0.len() == 0,
        fed_all(Seq::<PendingView>::empty(), shuffled(id, payload, order), times).1.len()
            == order.len(),
        forall|i: int|
            0 <= i < order.len() - 1 ==> (#[trigger] fed_all(
                Seq::<PendingView>::empty(),
                shuffled(id, payload, order),
                times,
            ).1[i]) == Ok::<Option<Seq<u8>>, ReassemblyError>(None),
        fed_all(Seq::<PendingView>::empty(), shuffled(id, payload, order), times).1[order.len()
            - 1] == Ok::<Option<Seq<u8>>, ReassemblyError>(Some(payload)),
{
    let n = chunk_count(payload.len());
    let all = shuffled(id, payload, order);
    let none = Seq::<PendingView>::empty();
    lemma_chunk_count_bound(payload.len());
    let k = n as int;
    lemma_partial(id, payload, order, times, k - 1);
    assert(all.drop_last() =~= all.take(k - 1));
    assert(times.drop_last() =~= times.take(k - 1));
    let before = fed_all(none, all.take(k - 1), times.take(k - 1));
    let c = all.last();
    assert(c == chunk_at(id, payload, order[k - 1]));
    let now = times.last();
    lemma_slots_after_step(payload, order, k - 1);
    let p = before.0;
    let full = Seq::new(n, |j: int| Some(chunk_data(payload, j)));
    lemma_glued_all(payload);
    if k == 1 {
        assert(pending_place(p, id) is None);
        let fresh = PendingView {
            message_id: id,
            total_chunks: n as u16,
            started_at: now,
            slots: empty_slots(n as u16),
        };
        let with_state = p.push(fresh);
        assert(with_state[0] == fresh);
        assert(empty_slots(n as u16) =~= slots_after(payload, order, 0));
        let slots = fresh.slots.update(order[0], Some(c.data));
        assert(slots == slots_after(payload, order, 1));
        lemma_filled_bound(slots);
        assert(slots =~= full);
        assert(with_state.remove(0) =~= none);
    } else {
        assert(p.len() == 1);
        assert(p.drop_last() =~= none);
        assert(p.last() == p[0]);
        assert(pending_place(p.drop_last(), id) is None);
        assert(pending_place(p, id) == Some(0int));
        let state = p[0];
        let slots = state.slots.update(order[k - 1], Some(c.data));
        assert(slots == slots_after(payload, order, k));
        lemma_filled_bound(slots);
        assert forall|j: int| 0 <= j < slots.len() implies slots[j] == full[j] by {
            assert(slots[j] is Some);
        }
        assert(slots =~= full);
        assert(p.remove(0) =~= none);
    }
    let step = fed(p, c, now);
    assert(step.1 == Ok::<Option<Seq<u8>>, ReassemblyError>(Some(payload)));
    let run = fed_all(none, all, times);
    assert(run.1 == before.1.push(step.1));
    assert forall|i: int| 0 <= i < order.len() - 1 implies (#[trigger] run.1[i]) == Ok::<
        Option<Seq<u8>>,
        ReassemblyError,
    >(None) by {
        assert(run.1[i] == before.1[i]);
    }
}

} // verus!
