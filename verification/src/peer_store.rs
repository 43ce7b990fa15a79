//! The registry of peers whose keys were exchanged by hand: a map from
//! the identifier of a peer to its key, a note and the time of adding.
//! The program has one registry; it is set up once.

use crate::api::is_hex_32;
use crate::text::hex_decode;
use crate::time::Timestamp;
use crate::wire::str_eq;
use vstd::prelude::*;

verus! {

/// A peer of the registry.
#[derive(Debug)]
pub struct PeerRecord {
    /// Identifier of the peer: its public key in hexadecimal.
    pub id: String,
    /// A note on the peer.
    pub meta: Option<String>,
    /// When the peer was added.
    pub added_at: Timestamp,
}

/// A peer of the registry as a mathematical value.
pub struct PeerRecordView {
    pub id: Seq<char>,
    pub meta: Option<Seq<char>>,
    pub added_at: Timestamp,
}

impl View for PeerRecord {
    type V = PeerRecordView;

    open spec fn view(&self) -> PeerRecordView {
        PeerRecordView {
            id: self.id@,
            meta: crate::api::opt_string_view(self.meta),
            added_at: self.added_at,
        }
    }
}

impl Clone for PeerRecord {
    fn clone(&self) -> (r: Self)
        ensures
            r@ == self@,
    {
        PeerRecord {
            id: self.id.clone(),
            meta: match &self.meta {
                Some(m) => Some(m.clone()),
                None => None,
            },
            added_at: self.added_at,
        }
    }
}

/// Why the registry refuses.
#[derive(Debug)]
pub enum PeerStoreError {
    /// The file cannot be read or written.
    Io(String),
    /// The key is not the hexadecimal text of 32 bytes.
    InvalidKey,
    /// The registry was set up before.
    AlreadyInitialized,
}

impl PeerStoreError {
    /// The error in words.
    pub open spec fn words(self) -> Seq<char> {
        match self {
            PeerStoreError::Io(m) => "IO error: "@ + m@,
            PeerStoreError::InvalidKey => "Invalid public key"@,
            PeerStoreError::AlreadyInitialized => "PeerStore already initialized"@,
        }
    }

    /// The error in words, as a text.
    pub fn to_string(&self) -> (r: String)
        ensures
            r@ == self.words(),
    {
        match self {
            PeerStoreError::Io(m) => "IO error: ".to_string().concat(m.as_str()),
            PeerStoreError::InvalidKey => "Invalid public key".to_string(),
            PeerStoreError::AlreadyInitialized => "PeerStore already initialized".to_string(),
        }
    }
}

/// The peers of a vector as mathematical values.
pub open spec fn records_view(v: Seq<PeerRecord>) -> Seq<PeerRecordView> {
    Seq::new(v.len(), |i: int| v[i]@)
}

/// Whether the registry holds a peer with the identifier.
pub open spec fn has_record(records: Seq<PeerRecordView>, id: Seq<char>) -> bool {
    exists|i: int| 0 <= i < records.len() && (#[trigger] records[i]).id == id
}

/// The records without those of the identifier.
pub open spec fn without_record(records: Seq<PeerRecordView>, id: Seq<char>) -> Seq<
    PeerRecordView,
>
    decreases records.len(),
{
    if records.len() == 0 {
        records
    } else if records.last().id == id {
        without_record(records.drop_last(), id)
    } else {
        without_record(records.drop_last(), id).push(records.last())
    }
}

/// Whether no identifier stands twice among the records.
pub open spec fn distinct_records(records: Seq<PeerRecordView>) -> bool {
    forall|i: int, j: int|
        0 <= i < j < records.len() ==> (#[trigger] records[i]).id != (#[trigger] records[j]).id
}

/// What is left without the records of an identifier was there before,
/// holds no record of the identifier, and holds no identifier twice where
/// none stood twice before.
pub proof fn lemma_without_record(records: Seq<PeerRecordView>, id: Seq<char>)
    ensures
        forall|k: int|
            0 <= k < without_record(records, id).len() ==> (#[trigger] without_record(
                records,
                id,
            )[k]).id != id && records.contains(without_record(records, id)[k]),
        distinct_records(records) ==> distinct_records(without_record(records, id)),
    decreases records.len(),
{
    if records.len() > 0 {
        let t = records.drop_last();
        lemma_without_record(t, id);
        let kept = without_record(records, id);
        let before = without_record(t, id);
        assert forall|k: int| 0 <= k < kept.len() implies (#[trigger] kept[k]).id != id
            && records.contains(kept[k]) by {
            if k < before.len() {
                assert(kept[k] == before[k]);
                assert(t.contains(before[k]));
                let m = choose|m: int| 0 <= m < t.len() && t[m] == before[k];
                assert(records[m] == kept[k]);
            } else {
                assert(records[records.len() - 1] == kept[k]);
            }
        }
        if distinct_records(records) {
            assert forall|i: int, j: int| 0 <= i < j < t.len() implies (#[trigger] t[i]).id != (
            #[trigger] t[j]).id by {
                assert(t[i] == records[i] && t[j] == records[j]);
            }
            assert forall|i: int, j: int| 0 <= i < j < kept.len() implies (#[trigger] kept[i]).id
                != (#[trigger] kept[j]).id by {
                if j < before.len() {
                    assert(kept[i] == before[i] && kept[j] == before[j]);
                } else {
                    assert(kept[i] == before[i]);
                    assert(t.contains(before[i]));
                    let m = choose|m: int| 0 <= m < t.len() && t[m] == before[i];
                    assert(records[m] == kept[i]);
                    assert(records[records.len() - 1] == kept[j]);
                }
            }
        }
    }
}

/// A record that is put in place of those of its identifier leaves no
/// identifier twice.
pub proof fn lemma_put_distinct(records: Seq<PeerRecordView>, r: PeerRecordView)
    requires
        distinct_records(records),
    ensures
        distinct_records(without_record(records, r.id).push(r)),
{
    lemma_without_record(records, r.id);
    let left = without_record(records, r.id);
    let after = left.push(r);
    assert forall|i: int, j: int| 0 <= i < j < after.len() implies (#[trigger] after[i]).id != (
    #[trigger] after[j]).id by {
        if j < left.len() {
            assert(after[i] == left[i] && after[j] == left[j]);
        } else {
            assert(after[i] == left[i]);
        }
    }
}

/// Records that are gathered hold no identifier twice.
pub proof fn lemma_gathered_distinct(records: Seq<PeerRecordView>)
    ensures
        distinct_records(gathered(records)),
    decreases records.len(),
{
    if records.len() > 0 {
        lemma_gathered_distinct(records.drop_last());
        lemma_put_distinct(gathered(records.drop_last()), records.last());
    }
}

/// The registry that holds the records one after the other: a record
/// takes the place of an earlier one with its identifier, at the end.
pub open spec fn gathered(records: Seq<PeerRecordView>) -> Seq<PeerRecordView>
    decreases records.len(),
{
    if records.len() == 0 {
        records
    } else {
        without_record(gathered(records.drop_last()), records.last().id).push(records.last())
    }
}

/// The registry of peers.
pub struct PeerStore {
    peers: Vec<PeerRecord>,
}

impl PeerStore {
    /// The peers, in the order in which they were added.
    pub closed spec fn records(self) -> Seq<PeerRecordView> {
        records_view(self.peers@)
    }

    /// An empty registry.
    pub fn new() -> (r: PeerStore)
        ensures
            r.records().len() == 0,
            distinct_records(r.records()),
    {
        PeerStore { peers: Vec::new() }
    }

    /// The registry of the peers that were kept; a peer that is named
    /// again takes the place of the one before.
    pub fn from_records(records: Vec<PeerRecord>) -> (r: PeerStore)
        ensures
            r.records() == gathered(records_view(records@)),
            distinct_records(r.records()),
    {
        proof {
            lemma_gathered_distinct(records_view(records@));
        }
        let mut store = PeerStore::new();
        let n = records.len();
        let ghost all = records_view(records@);
        let mut i: usize = 0;
        assert(store.records() =~= gathered(all.take(0)));
        while i < n
            invariant
                i <= n,
                n == records@.len(),
                all == records_view(records@),
                store.records() == gathered(all.take(i as int)),
            decreases n - i,
        {
            assert(all.take(i + 1).drop_last() =~= all.take(i as int));
            assert(all.take(i + 1).last() == records@[i as int]@);
            store.put(records[i].clone());
            i = i + 1;
        }
        assert(all.take(n as int) =~= all);
        store
    }

    fn drop_id(&mut self, id: &str) -> (removed: bool)
        ensures
            final(self).records() == without_record(old(self).records(), id@),
            removed == has_record(old(self).records(), id@),
    {
        let ghost r0 = self.records();
        let mut i: usize = 0;
        let mut removed = false;
        let mut done: Ghost<int> = Ghost(0);
        assert(r0.take(0) =~= Seq::<PeerRecordView>::empty());
        assert(r0.skip(0) =~= r0);
        while i < self.peers.len()
            invariant
                i <= self.peers@.len(),
                0 <= done@ <= r0.len(),
                self.records().take(i as int) == without_record(r0.take(done@), id@),
                self.records().skip(i as int) == r0.skip(done@),
                removed == has_record(r0.take(done@), id@),
            decreases self.peers@.len() - i,
        {
            let ghost cur = self.records();
            proof {
                assert(cur.skip(i as int).len() == cur.len() - i);
                assert(r0.skip(done@).len() == r0.len() - done@);
                assert(cur[i as int] == cur.skip(i as int)[0]);
                assert(r0[done@] == r0.skip(done@)[0]);
                assert(r0.take(done@ + 1).drop_last() =~= r0.take(done@));
                assert(r0.take(done@ + 1).last() == r0[done@]);
                assert(r0.skip(done@ + 1) =~= r0.skip(done@).skip(1));
                lemma_has_record_step(r0.take(done@ + 1), id@);
            }
            if str_eq(self.peers[i].id.as_str(), id) {
                self.peers.remove(i);
                removed = true;
                proof {
                    assert(self.records() =~= cur.remove(i as int));
                    assert(self.records().take(i as int) =~= cur.take(i as int));
                    assert(self.records().skip(i as int) =~= cur.skip(i as int).skip(1));
                }
            } else {
                proof {
                    assert(cur.take(i + 1) =~= cur.take(i as int).push(cur[i as int]));
                    assert(cur.skip(i + 1) =~= cur.skip(i as int).skip(1));
                }
                i = i + 1;
            }
            proof {
                done@ = done@ + 1;
            }
        }
        proof {
            assert(self.records().skip(i as int).len() == 0);
            assert(r0.take(done@) =~= r0);
            assert(self.records().take(i as int) =~= self.records());
        }
        removed
    }

    fn put(&mut self, record: PeerRecord)
        ensures
            final(self).records() == without_record(old(self).records(), record@.id).push(
                record@,
            ),
    {
        self.drop_id(record.id.as_str());
        let ghost kept = self.records();
        let ghost rv = record@;
        self.peers.push(record);
        assert(self.records() =~= kept.push(rv));
    }

    /// Adds a peer at `now`, in place of the peer with its identifier
    /// where there is one. An identifier that is not the hexadecimal text
    /// of 32 bytes is refused.
    pub fn add_peer(&mut self, public_key_hex: &str, meta: Option<String>, now: Timestamp) -> (r:
        Result<PeerRecord, PeerStoreError>)
        ensures
            distinct_records(old(self).records()) ==> distinct_records(final(self).records()),
            match r {
                Ok(p) => {
                    &&& is_hex_32(public_key_hex@)
                    &&& p@ == (PeerRecordView {
                        id: public_key_hex@,
                        meta: crate::api::opt_string_view(meta),
                        added_at: now,
                    })
                    &&& final(self).records() == without_record(
                        old(self).records(),
                        public_key_hex@,
                    ).push(p@)
                },
                Err(e) => !is_hex_32(public_key_hex@) && e is InvalidKey && final(self).records()
                    == old(self).records(),
            },
    {
        proof {
            lemma_without_record(self.records(), public_key_hex@);
            if distinct_records(self.records()) {
                lemma_put_distinct(
                    self.records(),
                    PeerRecordView {
                        id: public_key_hex@,
                        meta: crate::api::opt_string_view(meta),
                        added_at: now,
                    },
                );
            }
        }
        match hex_decode(public_key_hex) {
            Some(bytes) => {
                if bytes.len() != 32 {
                    return Err(PeerStoreError::InvalidKey);
                }
            },
            None => {
                return Err(PeerStoreError::InvalidKey);
            },
        }
        let record = PeerRecord { id: public_key_hex.to_string(), meta, added_at: now };
        let copy = record.clone();
        self.put(record);
        Ok(copy)
    }

    /// The peers, in the order in which they were added.
    pub fn list_peers(&self) -> (r: Vec<PeerRecord>)
        ensures
            records_view(r@) == self.records(),
    {
        let mut out: Vec<PeerRecord> = Vec::new();
        let n = self.peers.len();
        let mut i: usize = 0;
        while i < n
            invariant
                i <= n,
                n == self.peers@.len(),
                out@.len() == i,
                forall|k: int| 0 <= k < i ==> (#[trigger] out@[k])@ == self.peers@[k]@,
            decreases n - i,
        {
            out.push(self.peers[i].clone());
            i = i + 1;
        }
        assert(records_view(out@) =~= self.records());
        out
    }

    /// Takes the peer with the identifier out, and answers whether there
    /// was one.
    pub fn remove_peer(&mut self, id: &str) -> (r: Result<bool, PeerStoreError>)
        ensures
            distinct_records(old(self).records()) ==> distinct_records(final(self).records()),
            r matches Ok(b) && b == has_record(old(self).records(), id@),
            final(self).records() == without_record(old(self).records(), id@),
    {
        proof {
            lemma_without_record(self.records(), id@);
        }
        Ok(self.drop_id(id))
    }
}

proof fn lemma_has_record_step(records: Seq<PeerRecordView>, id: Seq<char>)
    requires
        records.len() > 0,
    ensures
        has_record(records, id) == (has_record(records.drop_last(), id) || records.last().id
            == id),
{
    let t = records.drop_last();
    if has_record(t, id) {
        let k = choose|k: int| 0 <= k < t.len() && (#[trigger] t[k]).id == id;
        assert(records[k].id == id);
    }
    if records.last().id == id {
        assert(records[records.len() - 1].id == id);
    }
    if has_record(records, id) {
        let k = choose|k: int| 0 <= k < records.len() && (#[trigger] records[k]).id == id;
        if k < t.len() {
            assert(t[k].id == id);
        }
    }
}

/// The place of the one registry of the program: empty until the
/// registry is set up.
pub struct PeerStoreSlot {
    store: Option<PeerStore>,
}

impl PeerStoreSlot {
    /// The registry, where it was set up.
    pub closed spec fn registry(self) -> Option<PeerStore> {
        self.store
    }

    /// A place without a registry.
    pub fn new() -> (r: PeerStoreSlot)
        ensures
            r.registry() is None,
    {
        PeerStoreSlot { store: None }
    }
}

/// Sets the registry of the program up. It cannot be set up twice.
pub fn init_peer_store(slot: &mut PeerStoreSlot, store: PeerStore) -> (r: Result<
    (),
    PeerStoreError,
>)
    ensures
        match old(slot).registry() {
            Some(_) => r matches Err(PeerStoreError::AlreadyInitialized) && final(slot).registry()
                == old(slot).registry(),
            None => r is Ok && final(slot).registry() == Some(store),
        },
{
    if slot.store.is_some() {
        return Err(PeerStoreError::AlreadyInitialized);
    }
    slot.store = Some(store);
    Ok(())
}

/// Adds a peer to the registry of the program at `now`.
pub fn add_peer_global(
    slot: &mut PeerStoreSlot,
    public_key_hex: &str,
    meta: Option<String>,
    now: Timestamp,
) -> (r: Result<PeerRecord, String>)
    ensures
        old(slot).registry() is None ==> r is Err && final(slot).registry() is None,
        old(slot).registry() is Some ==> final(slot).registry() is Some && (r is Ok <==> is_hex_32(
            public_key_hex@,
        )),
        r matches Ok(p) ==> p@ == (PeerRecordView {
            id: public_key_hex@,
            meta: crate::api::opt_string_view(meta),
            added_at: now,
        }) && final(slot).registry()->0.records() == without_record(
            old(slot).registry()->0.records(),
            public_key_hex@,
        ).push(p@),
        r is Err && old(slot).registry() is Some ==> final(slot).registry()->0.records()
            == old(slot).registry()->0.records(),
{
    let mut store = match slot.store.take() {
        Some(s) => s,
        None => {
            return Err("peer store not initialized".to_string());
        },
    };
    let added = store.add_peer(public_key_hex, meta, now);
    slot.store = Some(store);
    match added {
        Ok(p) => Ok(p),
        Err(e) => Err("peer store error: ".to_string().concat(e.to_string().as_str())),
    }
}

/// The peers of the registry of the program.
pub fn list_peers_global(slot: &PeerStoreSlot) -> (r: Result<Vec<PeerRecord>, String>)
    ensures
        match slot.registry() {
            Some(s) => r matches Ok(v) && records_view(v@) == s.records(),
            None => r is Err,
        },
{
    match &slot.store {
        Some(s) => Ok(s.list_peers()),
        None => Err("peer store not initialized".to_string()),
    }
}

/// Takes a peer out of the registry of the program, and answers whether
/// there was one.
pub fn remove_peer_global(slot: &mut PeerStoreSlot, id: &str) -> (r: Result<bool, String>)
    ensures
        match old(slot).registry() {
            Some(s) => r matches Ok(b) && b == has_record(s.records(), id@)
                && final(slot).registry() is Some && final(slot).registry()->0.records()
                == without_record(
                s.records(),
                id@,
            ),
            None => r is Err && final(slot).registry() is None,
        },
{
    let mut store = match slot.store.take() {
        Some(s) => s,
        None => {
            return Err("peer store not initialized".to_string());
        },
    };
    let removed = store.drop_id(id);
    slot.store = Some(store);
    Ok(removed)
}

} // verus!
