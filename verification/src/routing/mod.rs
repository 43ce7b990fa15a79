//! Routing: store and forward with priorities, flooding, deduplication
//! and control of hops and lifetime.

pub mod queue;

use crate::identity::opt_key_view;
use crate::packet::{forwardable, Packet, PacketError, PacketView, Priority};
use crate::routing::queue::{
    due, due_count, lemma_backoff_positive, lemma_done, lemma_due_count_pushed,
    lemma_due_count_remove, lemma_start, lemma_step, midway, pushed, returning, sent_among,
    settled, staying, with_back, worked, DtnQueue, QueueError, QueuedPacket, QueuedPacketView,
};
use crate::storage::{
    ack_type_name, has_seen, with_delivered, without_ack, Ack, AckRecordView, AckType, Storage,
    StorageError,
};
use crate::text::strings_view;
use crate::time::Timestamp;
use crate::transport::{
    first_of_kind, Peer, PeerView, TransportError, TransportManager, TransportType,
};
use crate::wire::{array_from_slice, str_eq};
use vstd::prelude::*;

verus! {

/// Counts of what the router did.
#[derive(Clone, Copy, Debug, Default, PartialEq, Eq, Structural)]
pub struct RoutingStats {
    /// Packets that were taken in and passed on or queued.
    pub processed_packets: u64,
    /// Packets that were dropped for their age or their hops.
    pub dropped_packets: u64,
    /// Packets that were dropped because they were seen before.
    pub duplicate_packets: u64,
    /// Sends that a link accepted.
    pub forwarded_packets: u64,
}

/// Why the router failed.
#[derive(Debug)]
pub enum RoutingError {
    /// The store refused.
    StorageError(StorageError),
    /// The link refused.
    TransportError(TransportError),
    /// The packet is malformed.
    PacketError(PacketError),
    /// The queue refused.
    QueueError(QueueError),
    /// No peer leads to the destination.
    NoRoute,
    /// The packet has outlived its time.
    PacketExpired,
}

impl RoutingError {
    /// The error in words.
    pub open spec fn words(self) -> Seq<char> {
        match self {
            RoutingError::StorageError(e) => "Storage error: "@ + e.words(),
            RoutingError::TransportError(e) => "Transport error: "@ + e.words(),
            RoutingError::PacketError(e) => "Packet error: "@ + e.words(),
            RoutingError::QueueError(e) => "Queue error: "@ + e.words(),
            RoutingError::NoRoute => "No route to destination"@,
            RoutingError::PacketExpired => "Packet expired"@,
        }
    }

    /// The error in words, as a text.
    pub fn to_string(&self) -> (r: String)
        ensures
            r@ == self.words(),
    {
        match self {
            RoutingError::StorageError(e) => "Storage error: ".to_string().concat(
                e.to_string().as_str(),
            ),
            RoutingError::TransportError(e) => "Transport error: ".to_string().concat(
                e.to_string().as_str(),
            ),
            RoutingError::PacketError(e) => "Packet error: ".to_string().concat(
                e.to_string().as_str(),
            ),
            RoutingError::QueueError(e) => "Queue error: ".to_string().concat(
                e.to_string().as_str(),
            ),
            RoutingError::NoRoute => "No route to destination".to_string(),
            RoutingError::PacketExpired => "Packet expired".to_string(),
        }
    }
}

/// A counter after one more event; it stays where it cannot count on.
pub open spec fn bumped(n: u64) -> u64 {
    if n == u64::MAX {
        n
    } else {
        (n + 1) as u64
    }
}

/// A counter after `k` more events.
pub open spec fn bumped_by(n: u64, k: nat) -> u64
    decreases k,
{
    if k == 0 {
        n
    } else {
        bumped(bumped_by(n, (k - 1) as nat))
    }
}

/// A counter after `k` more events stands at the sum, or at the most
/// that it can hold.
proof fn lemma_bumped_by(n: u64, k: nat)
    ensures
        bumped_by(n, k) == if n + k > u64::MAX {
            u64::MAX
        } else {
            (n + k) as u64
        },
    decreases k,
{
    if k > 0 {
        lemma_bumped_by(n, (k - 1) as nat);
    }
}

fn bump_by(n: u64, k: usize) -> (r: u64)
    ensures
        r == bumped_by(n, k as nat),
{
    proof {
        lemma_bumped_by(n, k as nat);
    }
    let k64: u64 = k as u64;
    if k64 > u64::MAX - n {
        u64::MAX
    } else {
        n + k64
    }
}

fn bump(n: u64) -> (r: u64)
    ensures
        r == bumped(n),
{
    if n == u64::MAX {
        n
    } else {
        n + 1
    }
}

/// The peers of a vector as mathematical values.
pub open spec fn peers_view(v: Seq<Peer>) -> Seq<PeerView> {
    Seq::new(v.len(), |i: int| v[i]@)
}

/// The place of the first peer with the identifier, where one is known.
pub open spec fn peer_place(peers: Seq<PeerView>, id: Seq<char>) -> Option<int>
    decreases peers.len(),
{
    if peers.len() == 0 {
        None
    } else {
        match peer_place(peers.drop_last(), id) {
            Some(i) => Some(i),
            None => if peers.last().id == id {
                Some(peers.len() - 1)
            } else {
                None
            },
        }
    }
}

/// The X25519 key of the first known peer with the identifier, where one
/// is known and has a key of 32 bytes.
pub open spec fn recipient_key(peers: Seq<PeerView>, id: Seq<char>) -> Option<Seq<u8>> {
    match peer_place(peers, id) {
        Some(i) => match peers[i].x25519_public_key {
            Some(k) => if k.len() == 32 {
                Some(k)
            } else {
                None
            },
            None => None,
        },
        None => None,
    }
}

/// The peers after one peer was learnt: it takes the place of the peer
/// with its identifier, or the last place where none has it.
pub open spec fn learnt(peers: Seq<PeerView>, p: PeerView) -> Seq<PeerView> {
    match peer_place(peers, p.id) {
        Some(i) => peers.update(i, p),
        None => peers.push(p),
    }
}

/// Whether no identifier stands twice among the peers.
pub open spec fn distinct_ids(peers: Seq<PeerView>) -> bool {
    forall|i: int, j: int|
        0 <= i < j < peers.len() ==> (#[trigger] peers[i]).id != (#[trigger] peers[j]).id
}

/// A peer that is learnt takes the place of its identifier or a new
/// place: no identifier comes to stand twice.
pub proof fn lemma_learnt_distinct(peers: Seq<PeerView>, p: PeerView)
    requires
        distinct_ids(peers),
    ensures
        distinct_ids(learnt(peers, p)),
{
    lemma_peer_place_bound(peers, p.id);
    let after = learnt(peers, p);
    assert forall|i: int, j: int| 0 <= i < j < after.len() implies (#[trigger] after[i]).id != (
    #[trigger] after[j]).id by {
        match peer_place(peers, p.id) {
            Some(k) => {
                assert(after[i].id == peers[i].id);
                assert(after[j].id == peers[j].id);
            },
            None => {
                if j < peers.len() {
                    assert(after[i] == peers[i] && after[j] == peers[j]);
                } else {
                    assert(after[i] == peers[i]);
                }
            },
        }
    }
}

/// Peers that are learnt one after the other leave no identifier twice.
pub proof fn lemma_learnt_all_distinct(peers: Seq<PeerView>, news: Seq<PeerView>)
    requires
        distinct_ids(peers),
    ensures
        distinct_ids(learnt_all(peers, news)),
    decreases news.len(),
{
    if news.len() > 0 {
        lemma_learnt_all_distinct(peers, news.drop_last());
        lemma_learnt_distinct(learnt_all(peers, news.drop_last()), news.last());
    }
}

/// The peers after several peers were learnt, one after the other.
pub open spec fn learnt_all(peers: Seq<PeerView>, news: Seq<PeerView>) -> Seq<PeerView>
    decreases news.len(),
{
    if news.len() == 0 {
        peers
    } else {
        learnt(learnt_all(peers, news.drop_last()), news.last())
    }
}

/// The kind of link that is preferred for a priority: for high the
/// internet, then local wireless; for medium local wireless; and
/// short-range radio where none of these was added.
pub open spec fn preferred_kind(kinds: Seq<TransportType>, priority: Priority) -> Option<
    TransportType,
> {
    if priority == Priority::High && first_of_kind(kinds, TransportType::Udp) is Some {
        Some(TransportType::Udp)
    } else if priority != Priority::Low && first_of_kind(kinds, TransportType::WifiDirect)
        is Some {
        Some(TransportType::WifiDirect)
    } else if first_of_kind(kinds, TransportType::Ble) is Some {
        Some(TransportType::Ble)
    } else {
        None
    }
}

/// The packet after one more hop.
pub open spec fn hopped(p: PacketView) -> PacketView {
    PacketView { hops: (p.hops + 1) as u32, ..p }
}

/// The packet as it waits for its first attempt, without a target.
pub open spec fn fresh(p: PacketView) -> QueuedPacketView {
    QueuedPacketView { packet: p, retry_count: 0, last_attempt: None, target_peer: None }
}

/// The router for store and forward.
pub struct DtnRouter {
    storage: Storage,
    transport_manager: TransportManager,
    known_peers: Vec<Peer>,
    queue: DtnQueue,
    stats: RoutingStats,
}

impl DtnRouter {
    /// The store of the router.
    pub closed spec fn store(self) -> Storage {
        self.storage
    }

    /// The queues of the router.
    pub closed spec fn waiting(self) -> DtnQueue {
        self.queue
    }

    /// The known peers, in the order in which they were learnt.
    pub closed spec fn peers(self) -> Seq<PeerView> {
        peers_view(self.known_peers@)
    }

    /// The counts of the router.
    pub closed spec fn counters(self) -> RoutingStats {
        self.stats
    }

    /// The kinds of the links of the router.
    pub closed spec fn links(self) -> Seq<TransportType> {
        self.transport_manager.kinds()
    }

    /// The store and the queues are well-formed, and no identifier
    /// stands twice among the known peers.
    pub open spec fn wf(self) -> bool {
        self.store().wf() && self.waiting().wf() && distinct_ids(self.peers())
    }

    /// A router over a store and links, with no peer known and nothing
    /// waiting.
    pub fn new(storage: Storage, transport_manager: TransportManager) -> (r: DtnRouter)
        requires
            storage.wf(),
        ensures
            r.wf(),
            r.store() == storage,
            r.links() == transport_manager.kinds(),
            r.peers().len() == 0,
            r.waiting().total() == 0,
            r.counters() == RoutingStats::default_stats(),
    {
        DtnRouter {
            storage,
            transport_manager,
            known_peers: Vec::new(),
            queue: DtnQueue::new(),
            stats: RoutingStats {
                processed_packets: 0,
                dropped_packets: 0,
                duplicate_packets: 0,
                forwarded_packets: 0,
            },
        }
    }

    fn find_peer(&self, id: &str) -> (r: Option<usize>)
        ensures
            match r {
                Some(i) => peer_place(self.peers(), id@) == Some(i as int) && i
                    < self.peers().len(),
                None => peer_place(self.peers(), id@) is None,
            },
    {
        let n = self.known_peers.len();
        let ghost s = self.peers();
        let mut i: usize = 0;
        while i < n
            invariant
                i <= n,
                n == self.known_peers@.len(),
                s == self.peers(),
                peer_place(s.take(i as int), id@) is None,
            decreases n - i,
        {
            assert(s.take(i + 1).drop_last() =~= s.take(i as int));
            assert(s.take(i + 1).last() == s[i as int]);
            if str_eq(self.known_peers[i].id.as_str(), id) {
                proof {
                    lemma_peer_place_prefix(s, i + 1, id@);
                }
                return Some(i);
            }
            i = i + 1;
        }
        assert(s.take(n as int) =~= s);
        None
    }

    fn learn(&mut self, peer: Peer)
        ensures
            final(self).peers() == learnt(old(self).peers(), peer@),
            old(self).wf() ==> final(self).wf(),
            final(self).store() == old(self).store(),
            final(self).waiting() == old(self).waiting(),
            final(self).counters() == old(self).counters(),
            final(self).links() == old(self).links(),
    {
        let ghost pv = peer@;
        let ghost before = self.peers();
        proof {
            if distinct_ids(before) {
                lemma_learnt_distinct(before, pv);
            }
        }
        match self.find_peer(peer.id.as_str()) {
            Some(i) => {
                self.known_peers.remove(i);
                self.known_peers.insert(i, peer);
                assert(self.peers() =~= before.update(i as int, pv));
            },
            None => {
                self.known_peers.push(peer);
                assert(self.peers() =~= before.push(pv));
            },
        }
    }

    /// Learns a peer: it takes the place of the peer with its identifier,
    /// or is added where none has it.
    pub fn update_peer(&mut self, peer: Peer)
        ensures
            old(self).wf() ==> final(self).wf(),
            final(self).peers() == learnt(old(self).peers(), peer@),
            final(self).store() == old(self).store(),
            final(self).waiting() == old(self).waiting(),
            final(self).counters() == old(self).counters(),
            final(self).links() == old(self).links(),
    {
        self.learn(peer);
    }

    /// Learns peers: each takes the place of the peer with its identifier,
    /// or is added where none has it.
    pub fn update_peers(&mut self, peers: Vec<Peer>)
        ensures
            old(self).wf() ==> final(self).wf(),
            final(self).peers() == learnt_all(old(self).peers(), peers_view(peers@)),
            final(self).store() == old(self).store(),
            final(self).waiting() == old(self).waiting(),
            final(self).counters() == old(self).counters(),
            final(self).links() == old(self).links(),
    {
        let n = peers.len();
        let ghost news = peers_view(peers@);
        let mut i: usize = 0;
        while i < n
            invariant
                i <= n,
                n == peers@.len(),
                news == peers_view(peers@),
                self.peers() == learnt_all(old(self).peers(), news.take(i as int)),
                old(self).wf() ==> self.wf(),
                self.store() == old(self).store(),
                self.waiting() == old(self).waiting(),
                self.counters() == old(self).counters(),
                self.links() == old(self).links(),
            decreases n - i,
        {
            assert(news.take(i + 1).drop_last() =~= news.take(i as int));
            assert(news.take(i + 1).last() == news[i as int]);
            self.learn(peers[i].clone());
            i = i + 1;
        }
        assert(news.take(n as int) =~= news);
    }

    /// The X25519 key of a known peer, where the peer is known and has a
    /// key of 32 bytes.
    pub fn peer_key(&self, id: &str) -> (r: Option<[u8; 32]>)
        ensures
            opt_key_view(r) == recipient_key(self.peers(), id@),
    {
        match self.find_peer(id) {
            Some(i) => {
                assert(self.peers()[i as int] == self.known_peers@[i as int]@);
                match &self.known_peers[i].x25519_public_key {
                    Some(k) => array_from_slice::<32>(k.as_slice()),
                    None => None,
                }
            },
            None => None,
        }
    }

    /// The known peers, in the order in which they were learnt.
    pub fn known_peers(&self) -> (r: &Vec<Peer>)
        ensures
            peers_view(r@) == self.peers(),
    {
        &self.known_peers
    }

    /// The store of the router.
    pub fn storage(&self) -> (r: &Storage)
        ensures
            *r == self.store(),
    {
        &self.storage
    }

    /// Takes the store out of the router to change it; an empty store
    /// stands in until `put_storage` gives the store back.
    pub fn take_storage(&mut self) -> (r: Storage)
        ensures
            r == old(self).store(),
            final(self).store().wf(),
            final(self).waiting() == old(self).waiting(),
            final(self).peers() == old(self).peers(),
            final(self).counters() == old(self).counters(),
            final(self).links() == old(self).links(),
    {
        let mut store = Storage::new();
        std::mem::swap(&mut self.storage, &mut store);
        store
    }

    /// Exchanges the links of the router for others.
    pub fn swap_links(&mut self, links: &mut TransportManager)
        ensures
            final(self).links() == old(links).kinds(),
            final(links).kinds() == old(self).links(),
            final(self).store() == old(self).store(),
            final(self).waiting() == old(self).waiting(),
            final(self).peers() == old(self).peers(),
            final(self).counters() == old(self).counters(),
    {
        std::mem::swap(&mut self.transport_manager, links);
    }

    /// Gives the router its store.
    pub fn put_storage(&mut self, storage: Storage)
        ensures
            final(self).store() == storage,
            final(self).waiting() == old(self).waiting(),
            final(self).peers() == old(self).peers(),
            final(self).counters() == old(self).counters(),
            final(self).links() == old(self).links(),
    {
        self.storage = storage;
    }

    /// Sends a packet to an address over the links, as the manager of
    /// the links decides. Nothing is counted or queued.
    pub fn send_direct(&mut self, packet: &Packet, address: &str) -> (r: Result<
        (),
        TransportError,
    >)
        ensures
            final(self).store() == old(self).store(),
            final(self).waiting() == old(self).waiting(),
            final(self).peers() == old(self).peers(),
            final(self).counters() == old(self).counters(),
            final(self).links() == old(self).links(),
            old(self).links().len() == 0 ==> r matches Err(TransportError::NoTransportAvailable),
    {
        self.transport_manager.send_packet(packet, address)
    }

    /// The counts of the router.
    pub fn get_stats(&self) -> (r: RoutingStats)
        ensures
            r == self.counters(),
    {
        self.stats
    }

    /// The kind of link that is preferred for the priority of a packet.
    pub fn select_transport(&self, priority: Priority) -> (r: Option<TransportType>)
        ensures
            r == preferred_kind(self.links(), priority),
    {
        match priority {
            Priority::High => {
                if self.transport_manager.find_transport(TransportType::Udp).is_some() {
                    return Some(TransportType::Udp);
                }
                if self.transport_manager.find_transport(TransportType::WifiDirect).is_some() {
                    return Some(TransportType::WifiDirect);
                }
            },
            Priority::Medium => {
                if self.transport_manager.find_transport(TransportType::WifiDirect).is_some() {
                    return Some(TransportType::WifiDirect);
                }
            },
            Priority::Low => {},
        }
        if self.transport_manager.find_transport(TransportType::Ble).is_some() {
            Some(TransportType::Ble)
        } else {
            None
        }
    }

    /// The addresses that a packet is sent to when it is sent to every
    /// known peer: the address of each known peer, in the order in which
    /// the peers were learnt.
    pub fn flood_targets(&self) -> (r: Vec<String>)
        ensures
            strings_view(r@) == addresses_of(self.peers()),
    {
        let n = self.known_peers.len();
        let mut targets: Vec<String> = Vec::new();
        let mut i: usize = 0;
        while i < n
            invariant
                i <= n,
                n == self.known_peers@.len(),
                targets@.len() == i,
                strings_view(targets@) == addresses_of(self.peers().take(i as int)),
            decreases n - i,
        {
            let ghost before = targets@;
            let address = self.known_peers[i].address.clone();
            targets.push(address);
            assert forall|j: int| 0 <= j <= i implies strings_view(targets@)[j] == addresses_of(
                self.peers().take(i + 1),
            )[j] by {
                if j < i {
                    assert(strings_view(before)[j] == addresses_of(self.peers().take(i as int))[j]);
                    assert(targets@[j] == before[j]);
                } else {
                    assert(self.peers()[j] == self.known_peers@[j]@);
                }
            }
            assert(strings_view(targets@) =~= addresses_of(self.peers().take(i + 1)));
            i = i + 1;
        }
        assert(self.peers().take(n as int) =~= self.peers());
        targets
    }

    /// Hands the packet to the links once for each address, and says how
    /// many sends a link accepted. Nothing is counted or queued.
    fn send_to_each(&mut self, packet: &Packet, targets: &Vec<String>) -> (successes: usize)
        ensures
            successes <= targets@.len(),
            old(self).links().len() == 0 ==> successes == 0,
            final(self).counters() == old(self).counters(),
            final(self).store() == old(self).store(),
            final(self).waiting() == old(self).waiting(),
            final(self).peers() == old(self).peers(),
            final(self).links() == old(self).links(),
    {
        let n = targets.len();
        let mut successes: usize = 0;
        let mut i: usize = 0;
        while i < n
            invariant
                i <= n,
                n == targets@.len(),
                successes <= i,
                old(self).links().len() == 0 ==> successes == 0,
                self.counters() == old(self).counters(),
                self.store() == old(self).store(),
                self.waiting() == old(self).waiting(),
                self.peers() == old(self).peers(),
                self.links() == old(self).links(),
            decreases n - i,
        {
            match self.transport_manager.send_packet(packet, targets[i].as_str()) {
                Ok(()) => {
                    successes = successes + 1;
                },
                Err(_) => {},
            }
            i = i + 1;
        }
        successes
    }

    /// Settles a packet that was sent to every known peer with
    /// `successes` accepted sends: the accepted sends are counted, and
    /// where there was none the packet is queued for later.
    pub fn record_flood(&mut self, packet: Packet, successes: usize)
        requires
            old(self).wf(),
        ensures
            final(self).wf(),
            flood_recorded(*old(self), *final(self), packet@, successes as nat),
    {
        self.stats.forwarded_packets = bump_by(self.stats.forwarded_packets, successes);
        if successes == 0 {
            let _ = self.queue.enqueue(QueuedPacket::new(packet, None));
        }
    }

    /// Sends the packet to every known peer. Where no peer is known, or
    /// no link accepts a send, the packet is queued for later.
    pub fn flood_packet(&mut self, packet: Packet) -> (r: Result<(), RoutingError>)
        requires
            old(self).wf(),
        ensures
            r is Ok,
            final(self).wf(),
            exists|successes: nat|
                successes <= old(self).peers().len() && #[trigger] flooded(
                    *old(self),
                    *final(self),
                    packet@,
                    successes,
                ),
    {
        let targets = self.flood_targets();
        assert(strings_view(targets@).len() == self.peers().len());
        let successes = self.send_to_each(&packet, &targets);
        self.record_flood(packet, successes);
        assert(flooded(*old(self), *self, packet@, successes as nat));
        Ok(())
    }

    /// Sends the packet to the peer with the identifier `destination`
    /// over the links; where no such peer is known, the packet is sent to
    /// every known peer as by `flood_packet`.
    pub fn send_to(&mut self, packet: &Packet, destination: &str) -> (r: Result<
        (),
        RoutingError,
    >)
        requires
            old(self).wf(),
        ensures
            final(self).wf(),
            final(self).store() == old(self).store(),
            final(self).peers() == old(self).peers(),
            final(self).links() == old(self).links(),
            match peer_place(old(self).peers(), destination@) {
                Some(_) => {
                    &&& final(self).waiting() == old(self).waiting()
                    &&& r is Ok ==> final(self).counters() == (RoutingStats {
                        forwarded_packets: bumped(old(self).counters().forwarded_packets),
                        ..old(self).counters()
                    })
                    &&& r matches Err(e) ==> e is TransportError && final(self).counters()
                        == old(self).counters()
                    &&& old(self).links().len() == 0 ==> r matches Err(
                        RoutingError::TransportError(TransportError::NoTransportAvailable),
                    )
                },
                None => r is Ok && exists|successes: nat|
                    successes <= old(self).peers().len() && #[trigger] flooded(
                        *old(self),
                        *final(self),
                        packet@,
                        successes,
                    ),
            },
    {
        match self.find_peer(destination) {
            Some(i) => {
                let address = self.known_peers[i].address.clone();
                match self.transport_manager.send_packet(packet, address.as_str()) {
                    Ok(()) => {
                        self.stats.forwarded_packets = bump(self.stats.forwarded_packets);
                        Ok(())
                    },
                    Err(e) => Err(RoutingError::TransportError(e)),
                }
            },
            None => self.flood_packet(packet.clone()),
        }
    }

    /// Takes in a packet at `now`. A packet that may no longer go on is
    /// dropped and counted as dropped. A packet whose message was seen is
    /// dropped and counted as a duplicate, and nothing is sent. Any other
    /// is recorded as seen, makes one more hop, is sent to every known peer
    /// or queued, and is counted as processed.
    pub fn handle_packet(&mut self, packet: Packet, now: &Timestamp) -> (r: Result<
        (),
        RoutingError,
    >)
        requires
            old(self).wf(),
        ensures
            r is Ok,
            final(self).wf(),
            final(self).peers() == old(self).peers(),
            final(self).links() == old(self).links(),
            handled(*old(self), *final(self), packet@, *now),
    {
        if !packet.can_be_forwarded(now) {
            self.stats.dropped_packets = bump(self.stats.dropped_packets);
            return Ok(());
        }
        let seen = match self.storage.is_message_seen(packet.message_id.as_str()) {
            Ok(b) => b,
            Err(_) => false,
        };
        if seen {
            self.stats.duplicate_packets = bump(self.stats.duplicate_packets);
            return Ok(());
        }
        let _ = self.storage.mark_message_seen(packet.message_id.as_str(), *now);
        let mut packet = packet;
        let ghost before = packet@;
        packet.increment_hops();
        assert(packet@ == hopped(before));
        let ghost mid = *self;
        let _ = self.flood_packet(packet);
        let ghost sent = *self;
        self.stats.processed_packets = bump(self.stats.processed_packets);
        proof {
            let n = choose|n: nat|
                n <= mid.peers().len() && #[trigger] flooded(mid, sent, hopped(before), n);
            assert(passed_on(*old(self), *self, before, *now, n));
        }
        Ok(())
    }

    /// Tries once to send a waiting packet: to its target where it has
    /// one that is known, else to every known peer. Nothing is queued.
    fn attempt(&mut self, queued: &QueuedPacket) -> (sent: bool)
        ensures
            final(self).store() == old(self).store(),
            final(self).waiting() == old(self).waiting(),
            final(self).peers() == old(self).peers(),
            final(self).links() == old(self).links(),
            final(self).counters().processed_packets == old(self).counters().processed_packets,
            final(self).counters().dropped_packets == old(self).counters().dropped_packets,
            final(self).counters().duplicate_packets == old(self).counters().duplicate_packets,
            old(self).links().len() == 0 ==> !sent,
            exists|successes: nat| #[trigger]
                tried(*old(self), *final(self), queued@, successes) && sent == (successes > 0),
    {
        let place = match &queued.target_peer {
            Some(target) => self.find_peer(target.as_str()),
            None => None,
        };
        match place {
            Some(i) => {
                let address = self.known_peers[i].address.clone();
                match self.transport_manager.send_packet(&queued.packet, address.as_str()) {
                    Ok(()) => {
                        self.stats.forwarded_packets = bump(self.stats.forwarded_packets);
                        proof {
                            let before = old(self).counters().forwarded_packets;
                            assert(bumped_by(before, 0) == before);
                            assert(bumped_by(before, 1) == bumped(before));
                            assert(tried(*old(self), *self, queued@, 1));
                        }
                        true
                    },
                    Err(_) => {
                        assert(tried(*old(self), *self, queued@, 0));
                        false
                    },
                }
            },
            None => {
                let targets = self.flood_targets();
                assert(strings_view(targets@).len() == self.peers().len());
                let successes = self.send_to_each(&queued.packet, &targets);
                self.stats.forwarded_packets = bump_by(self.stats.forwarded_packets, successes);
                assert(tried(*old(self), *self, queued@, successes as nat));
                successes > 0
            },
        }
    }

    /// Goes through the waiting packets that are due at the monotonic
    /// time `mono` and the wall-clock time `wall`, highest priority first,
    /// and tries each once. A packet that no link accepts has the attempt
    /// recorded and waits again at the end of its queue, unless it was its
    /// third attempt. The packets that were not due stay in their order.
    /// At the end no packet is due, the packets that have outlived their
    /// time are removed, and the number of packets that were sent is
    /// given.
    pub fn process_queue(&mut self, mono: u64, wall: &Timestamp) -> (r: Result<
        usize,
        RoutingError,
    >)
        requires
            old(self).wf(),
        ensures
            final(self).wf(),
            r matches Ok(sent) && sent <= old(self).waiting().due_total(mono, *wall),
            old(self).links().len() == 0 ==> r == Ok::<usize, RoutingError>(0),
            exists|high: Seq<bool>, medium: Seq<bool>, low: Seq<bool>| #[trigger]
                queue_worked(
                    old(self).waiting(),
                    final(self).waiting(),
                    mono,
                    *wall,
                    high,
                    medium,
                    low,
                    r->Ok_0,
                ),
            final(self).waiting().next_due(mono, *wall) is None,
            final(self).waiting().total() <= old(self).waiting().total(),
            final(self).store() == old(self).store(),
            final(self).peers() == old(self).peers(),
            final(self).links() == old(self).links(),
            final(self).counters().processed_packets == old(self).counters().processed_packets,
            final(self).counters().dropped_packets == old(self).counters().dropped_packets,
            final(self).counters().duplicate_packets == old(self).counters().duplicate_packets,
    {
        let mut sent_count: usize = 0;
        let ghost start = self.queue.due_total(mono, *wall);
        let ghost sh = self.waiting().of(Priority::High);
        let ghost sm = self.waiting().of(Priority::Medium);
        let ghost sl = self.waiting().of(Priority::Low);
        let ghost mut ch: int = 0;
        let ghost mut cm: int = 0;
        let ghost mut cl: int = 0;
        let ghost mut oh: Seq<bool> = Seq::empty();
        let ghost mut om: Seq<bool> = Seq::empty();
        let ghost mut ol: Seq<bool> = Seq::empty();
        proof {
            crate::routing::queue::lemma_due_count_le_len(self.queue.high(), mono, *wall);
            crate::routing::queue::lemma_due_count_le_len(self.queue.medium(), mono, *wall);
            crate::routing::queue::lemma_due_count_le_len(self.queue.low(), mono, *wall);
            lemma_start(sh, mono, *wall);
            lemma_start(sm, mono, *wall);
            lemma_start(sl, mono, *wall);
        }
        loop
            invariant
                self.wf(),
                start == old(self).waiting().due_total(mono, *wall),
                start <= 300,
                sent_count + self.waiting().due_total(mono, *wall) <= start,
                old(self).links().len() == 0 ==> sent_count == 0,
                self.waiting().total() <= old(self).waiting().total(),
                self.store() == old(self).store(),
                self.peers() == old(self).peers(),
                self.links() == old(self).links(),
                self.counters().processed_packets == old(self).counters().processed_packets,
                self.counters().dropped_packets == old(self).counters().dropped_packets,
                self.counters().duplicate_packets == old(self).counters().duplicate_packets,
                sh == old(self).waiting().of(Priority::High),
                sm == old(self).waiting().of(Priority::Medium),
                sl == old(self).waiting().of(Priority::Low),
                midway(sh, self.waiting().of(Priority::High), ch, oh, mono, *wall),
                midway(sm, self.waiting().of(Priority::Medium), cm, om, mono, *wall),
                midway(sl, self.waiting().of(Priority::Low), cl, ol, mono, *wall),
                sent_count == sent_among(oh) + sent_among(om) + sent_among(ol),
            ensures
                self.wf(),
                sent_count <= start,
                old(self).links().len() == 0 ==> sent_count == 0,
                self.waiting().next_due(mono, *wall) is None,
                self.waiting().total() <= old(self).waiting().total(),
                self.store() == old(self).store(),
                self.peers() == old(self).peers(),
                self.links() == old(self).links(),
                self.counters().processed_packets == old(self).counters().processed_packets,
                self.counters().dropped_packets == old(self).counters().dropped_packets,
                self.counters().duplicate_packets == old(self).counters().duplicate_packets,
                sh == old(self).waiting().of(Priority::High),
                sm == old(self).waiting().of(Priority::Medium),
                sl == old(self).waiting().of(Priority::Low),
                self.waiting().of(Priority::High) == staying(sh, mono, *wall) + returning(
                    sh,
                    oh,
                    mono,
                    *wall,
                ),
                oh.len() == due_count(sh, mono, *wall),
                self.waiting().of(Priority::Medium) == staying(sm, mono, *wall) + returning(
                    sm,
                    om,
                    mono,
                    *wall,
                ),
                om.len() == due_count(sm, mono, *wall),
                self.waiting().of(Priority::Low) == staying(sl, mono, *wall) + returning(
                    sl,
                    ol,
                    mono,
                    *wall,
                ),
                ol.len() == due_count(sl, mono, *wall),
                sent_count == sent_among(oh) + sent_among(om) + sent_among(ol),
            decreases self.waiting().due_total(mono, *wall),
        {
            let ghost q0 = self.queue;
            let queued = match self.queue.dequeue_ready(mono, wall) {
                Some(q) => q,
                None => {
                    proof {
                        assert(self.queue.of(Priority::High) == q0.of(Priority::High));
                        assert(self.queue.of(Priority::Medium) == q0.of(Priority::Medium));
                        assert(self.queue.of(Priority::Low) == q0.of(Priority::Low));
                        assert(self.queue.high() == q0.high());
                        assert(self.queue.medium() == q0.medium());
                        assert(self.queue.low() == q0.low());
                        crate::routing::queue::lemma_next_due_is_first(q0, mono, *wall);
                        lemma_done(sh, q0.of(Priority::High), ch, oh, mono, *wall);
                        lemma_done(sm, q0.of(Priority::Medium), cm, om, mono, *wall);
                        lemma_done(sl, q0.of(Priority::Low), cl, ol, mono, *wall);
                    }
                    break ;
                },
            };
            let ghost taken = q0.next_due(mono, *wall)->0;
            proof {
                let (p, i) = taken;
                crate::routing::queue::lemma_next_due_is_first(q0, mono, *wall);
                lemma_due_count_remove(q0.of(p), i, mono, *wall);
                assert(self.queue.due_total(mono, *wall) + 1 == q0.due_total(mono, *wall)) by {
                    assert(forall|o: Priority| o != p ==> self.queue.of(o) == q0.of(o));
                    assert(self.queue.of(Priority::High) == self.queue.high());
                    assert(self.queue.of(Priority::Medium) == self.queue.medium());
                    assert(self.queue.of(Priority::Low) == self.queue.low());
                    assert(q0.of(Priority::High) == q0.high());
                    assert(q0.of(Priority::Medium) == q0.medium());
                    assert(q0.of(Priority::Low) == q0.low());
                }
            }
            let sent = self.attempt(&queued);
            if sent {
                sent_count = sent_count + 1;
            }
            let ghost q1 = self.queue;
            let ghost waits = settled(queued@, sent, mono);
            self.queue.settle(queued, sent, mono);
            proof {
                let (p, i) = taken;
                assert(self.queue.of(Priority::High) == self.queue.high());
                assert(self.queue.of(Priority::Medium) == self.queue.medium());
                assert(self.queue.of(Priority::Low) == self.queue.low());
                assert(q1.of(Priority::High) == q1.high());
                assert(q1.of(Priority::Medium) == q1.medium());
                assert(q1.of(Priority::Low) == q1.low());
                assert(q1.of(p) == q0.of(p).remove(i));
                assert(forall|o: Priority| o != p ==> q1.of(o) == q0.of(o));
                match waits {
                    Some(qv) => {
                        assert(qv.packet.priority == p);
                        lemma_backoff_positive(qv.retry_count);
                        assert(!due(qv, mono, *wall));
                        lemma_due_count_pushed(q1.of(p), qv, mono, *wall);
                        assert(forall|o: Priority| o != p ==> self.queue.of(o) == q1.of(o));
                        assert(self.queue.due_total(mono, *wall) <= q1.due_total(mono, *wall));
                        assert(pushed(q1.of(p), qv).len() <= q1.of(p).len() + 1);
                        assert(pushed(q1.of(p), qv) == q1.of(p).push(qv));
                    },
                    None => {
                        assert(forall|o: Priority| self.queue.of(o) == q1.of(o));
                    },
                }
                assert(self.queue.of(p) == with_back(q0.of(p).remove(i), waits));
                assert(forall|o: Priority| o != p ==> self.queue.of(o) == q0.of(o));
                if p == Priority::High {
                    lemma_step(sh, q0.of(Priority::High), ch, oh, i, sent, mono, *wall);
                    ch = ch + (i - staying(sh.take(ch), mono, *wall).len()) + 1;
                    let before = oh;
                    oh = oh.push(sent);
                    assert(oh.drop_last() =~= before);
                    assert(oh.last() == sent);
                } else if p == Priority::Medium {
                    lemma_step(sm, q0.of(Priority::Medium), cm, om, i, sent, mono, *wall);
                    cm = cm + (i - staying(sm.take(cm), mono, *wall).len()) + 1;
                    let before = om;
                    om = om.push(sent);
                    assert(om.drop_last() =~= before);
                    assert(om.last() == sent);
                } else {
                    lemma_step(sl, q0.of(Priority::Low), cl, ol, i, sent, mono, *wall);
                    cl = cl + (i - staying(sl.take(cl), mono, *wall).len()) + 1;
                    let before = ol;
                    ol = ol.push(sent);
                    assert(ol.drop_last() =~= before);
                    assert(ol.last() == sent);
                }
            }
        }
        let ghost q2 = self.queue;
        self.queue.cleanup_expired(wall);
        proof {
            crate::routing::queue::lemma_alive_keeps_none_due(q2.high(), mono, *wall);
            crate::routing::queue::lemma_alive_keeps_none_due(q2.medium(), mono, *wall);
            crate::routing::queue::lemma_alive_keeps_none_due(q2.low(), mono, *wall);
            assert(self.queue.of(Priority::High) == self.queue.high());
            assert(self.queue.of(Priority::Medium) == self.queue.medium());
            assert(self.queue.of(Priority::Low) == self.queue.low());
            assert(q2.of(Priority::High) == q2.high());
            assert(q2.of(Priority::Medium) == q2.medium());
            assert(q2.of(Priority::Low) == q2.low());
            assert(queue_worked(
                old(self).waiting(),
                self.waiting(),
                mono,
                *wall,
                oh,
                om,
                ol,
                sent_count,
            ));
        }
        Ok(sent_count)
    }

    /// Records at `now` that `ack_from` acknowledges the message.
    pub fn send_ack(&mut self, message_id: &str, ack_from: &str, ack_type: AckType, now: Timestamp)
        -> (r: Result<(), RoutingError>)
        requires
            old(self).wf(),
        ensures
            r is Ok,
            final(self).wf(),
            acknowledged(*old(self), *final(self), message_id@, ack_from@, ack_type, now),
    {
        proof {
            reveal_strlit("Received");
            reveal_strlit("Delivered");
            assert("Received"@.len() == 8);
            assert("Delivered"@.len() == 9);
            assert(ack_type_name(AckType::Received) != ack_type_name(AckType::Delivered));
        }
        let _ = self.storage.store_ack(message_id, ack_from, ack_type.name(), now);
        Ok(())
    }

    /// Records at `now` an acknowledgement that came in.
    pub fn handle_ack(&mut self, ack: Ack, now: Timestamp) -> (r: Result<(), RoutingError>)
        requires
            old(self).wf(),
        ensures
            r is Ok,
            final(self).wf(),
            acknowledged(
                *old(self),
                *final(self),
                ack.message_id@,
                ack.ack_from@,
                ack.ack_type,
                now,
            ),
    {
        proof {
            reveal_strlit("Received");
            reveal_strlit("Delivered");
            assert("Received"@.len() == 8);
            assert("Delivered"@.len() == 9);
            assert(ack_type_name(AckType::Received) != ack_type_name(AckType::Delivered));
        }
        let _ = self.storage.store_ack(
            ack.message_id.as_str(),
            ack.ack_from.as_str(),
            ack.ack_type.name(),
            now,
        );
        Ok(())
    }
}

impl RoutingStats {
    /// Counts that are all zero.
    pub open spec fn default_stats() -> RoutingStats {
        RoutingStats {
            processed_packets: 0,
            dropped_packets: 0,
            duplicate_packets: 0,
            forwarded_packets: 0,
        }
    }
}

/// The addresses of peers, in their order.
pub open spec fn addresses_of(peers: Seq<PeerView>) -> Seq<Seq<char>> {
    Seq::new(peers.len(), |i: int| peers[i].address)
}

/// How a router stands after a packet was sent to every known peer with
/// `successes` accepted sends: the outcome is recorded, and no send was
/// accepted where no peer is known or the router has no link.
pub open spec fn flooded(before: DtnRouter, after: DtnRouter, p: PacketView, successes: nat)
    -> bool {
    &&& flood_recorded(before, after, p, successes)
    &&& before.peers().len() == 0 ==> successes == 0
    &&& before.links().len() == 0 ==> successes == 0
}

/// How a router stands after the outcome of sending a packet to every
/// known peer was recorded: the accepted sends are counted, and the
/// packet waits in the queue of its priority where there was none.
pub open spec fn flood_recorded(
    before: DtnRouter,
    after: DtnRouter,
    p: PacketView,
    successes: nat,
) -> bool {
    &&& after.store() == before.store()
    &&& after.peers() == before.peers()
    &&& after.links() == before.links()
    &&& after.counters() == (RoutingStats {
        forwarded_packets: bumped_by(before.counters().forwarded_packets, successes),
        ..before.counters()
    })
    &&& if successes == 0 {
        &&& after.waiting().of(p.priority) == pushed(before.waiting().of(p.priority), fresh(p))
        &&& forall|o: Priority| o != p.priority ==> after.waiting().of(o) == before.waiting().of(o)
    } else {
        after.waiting() == before.waiting()
    }
}

/// How the queues stand after their due packets were tried once at
/// `mono`, highest priority first, with the outcomes of the attempts for
/// each priority in the order of its packets, and the packets that have
/// outlived their time at `wall` were removed; `sent` of them were sent.
pub open spec fn queue_worked(
    before: DtnQueue,
    after: DtnQueue,
    mono: u64,
    wall: Timestamp,
    high: Seq<bool>,
    medium: Seq<bool>,
    low: Seq<bool>,
    sent: usize,
) -> bool {
    &&& high.len() == due_count(before.of(Priority::High), mono, wall)
    &&& medium.len() == due_count(before.of(Priority::Medium), mono, wall)
    &&& low.len() == due_count(before.of(Priority::Low), mono, wall)
    &&& after.of(Priority::High) == worked(before.of(Priority::High), high, mono, wall)
    &&& after.of(Priority::Medium) == worked(before.of(Priority::Medium), medium, mono, wall)
    &&& after.of(Priority::Low) == worked(before.of(Priority::Low), low, mono, wall)
    &&& sent == sent_among(high) + sent_among(medium) + sent_among(low)
}

/// The peer that a waiting packet is meant for, where it names one that
/// is known.
pub open spec fn target_place(peers: Seq<PeerView>, q: QueuedPacketView) -> Option<int> {
    match q.target_peer {
        Some(target) => peer_place(peers, target),
        None => None,
    }
}

/// How a router stands after a waiting packet was tried once with
/// `successes` accepted sends: a packet for a known peer is sent to that
/// peer alone, any other to every known peer; the accepted sends are
/// counted, and nothing else changes. No link means no accepted send.
pub open spec fn tried(before: DtnRouter, after: DtnRouter, q: QueuedPacketView, successes: nat)
    -> bool {
    &&& after.store() == before.store()
    &&& after.waiting() == before.waiting()
    &&& after.peers() == before.peers()
    &&& after.links() == before.links()
    &&& after.counters() == (RoutingStats {
        forwarded_packets: bumped_by(before.counters().forwarded_packets, successes),
        ..before.counters()
    })
    &&& successes <= if target_place(before.peers(), q) is Some {
        1
    } else {
        before.peers().len()
    }
    &&& before.links().len() == 0 ==> successes == 0
}

/// How a router stands after a fresh packet was passed on with
/// `successes` accepted sends.
pub open spec fn passed_on(
    before: DtnRouter,
    after: DtnRouter,
    p: PacketView,
    now: Timestamp,
    successes: nat,
) -> bool {
    &&& successes <= before.peers().len()
    &&& before.peers().len() == 0 ==> successes == 0
    &&& before.links().len() == 0 ==> successes == 0
    &&& has_seen(after.store().seen(), p.message_id)
    &&& after.store().seen() == before.store().seen().push(
        crate::storage::SeenEntryView { message_id: p.message_id, seen_at: now },
    )
    &&& after.store().rows() == before.store().rows()
    &&& after.store().acks() == before.store().acks()
    &&& after.store().nonces() == before.store().nonces()
    &&& after.counters() == (RoutingStats {
        processed_packets: bumped(before.counters().processed_packets),
        forwarded_packets: bumped_by(before.counters().forwarded_packets, successes),
        ..before.counters()
    })
    &&& if successes == 0 {
        &&& after.waiting().of(p.priority) == pushed(
            before.waiting().of(p.priority),
            fresh(hopped(p)),
        )
        &&& forall|o: Priority| o != p.priority ==> after.waiting().of(o) == before.waiting().of(o)
    } else {
        after.waiting() == before.waiting()
    }
}

/// How a router stands after it took in a packet at `now`.
pub open spec fn handled(before: DtnRouter, after: DtnRouter, p: PacketView, now: Timestamp)
    -> bool {
    if !forwardable(p, now) {
        &&& after.store() == before.store()
        &&& after.waiting() == before.waiting()
        &&& after.counters() == (RoutingStats {
            dropped_packets: bumped(before.counters().dropped_packets),
            ..before.counters()
        })
    } else if has_seen(before.store().seen(), p.message_id) {
        &&& after.store() == before.store()
        &&& after.waiting() == before.waiting()
        &&& after.counters() == (RoutingStats {
            duplicate_packets: bumped(before.counters().duplicate_packets),
            ..before.counters()
        })
    } else {
        exists|successes: nat| #[trigger] passed_on(before, after, p, now, successes)
    }
}

/// A packet is passed on once: where a router took a packet in that may
/// go on, and takes it in again while it may still go on, the second
/// taking counts a duplicate and changes nothing else; the packet is not
/// processed or sent again.
pub proof fn lemma_second_take_is_duplicate(
    before: DtnRouter,
    between: DtnRouter,
    after: DtnRouter,
    p: PacketView,
    first: Timestamp,
    second: Timestamp,
)
    requires
        handled(before, between, p, first),
        handled(between, after, p, second),
        forwardable(p, first),
        forwardable(p, second),
    ensures
        has_seen(between.store().seen(), p.message_id),
        after.counters() == (RoutingStats {
            duplicate_packets: bumped(between.counters().duplicate_packets),
            ..between.counters()
        }),
        after.counters().processed_packets == between.counters().processed_packets,
        after.counters().forwarded_packets == between.counters().forwarded_packets,
        after.store() == between.store(),
        after.waiting() == between.waiting(),
{
    if !has_seen(before.store().seen(), p.message_id) {
        let successes = choose|successes: nat| #[trigger]
            passed_on(before, between, p, first, successes);
        assert(passed_on(before, between, p, first, successes));
    }
}

/// How a router stands after an acknowledgement was recorded at `now`.
pub open spec fn acknowledged(
    before: DtnRouter,
    after: DtnRouter,
    message_id: Seq<char>,
    ack_from: Seq<char>,
    ack_type: AckType,
    now: Timestamp,
) -> bool {
    &&& after.waiting() == before.waiting()
    &&& after.peers() == before.peers()
    &&& after.links() == before.links()
    &&& after.counters() == before.counters()
    &&& after.store().seen() == before.store().seen()
    &&& after.store().nonces() == before.store().nonces()
    &&& after.store().acks() == without_ack(
        before.store().acks(),
        message_id,
        ack_from,
        ack_type_name(ack_type),
    ).push(
        AckRecordView {
            message_id,
            ack_from,
            ack_type: ack_type_name(ack_type),
            timestamp: now,
        },
    )
    &&& after.store().rows() == if ack_type == AckType::Delivered {
        with_delivered(before.store().rows(), message_id)
    } else {
        before.store().rows()
    }
}

/// A peer that was found in a prefix of the peers is the first peer with
/// its identifier among all.
proof fn lemma_peer_place_prefix(peers: Seq<PeerView>, n: int, id: Seq<char>)
    requires
        0 <= n <= peers.len(),
        peer_place(peers.take(n), id) is Some,
    ensures
        peer_place(peers, id) == peer_place(peers.take(n), id),
        peer_place(peers.take(n), id)->0 < n,
    decreases peers.len() - n,
{
    lemma_peer_place_bound(peers.take(n), id);
    if n < peers.len() {
        assert(peers.take(n + 1).drop_last() =~= peers.take(n));
        lemma_peer_place_prefix(peers, n + 1, id);
    } else {
        assert(peers.take(n) =~= peers);
    }
}

/// The place of a peer lies among the peers, and the peer there has the
/// identifier.
pub proof fn lemma_peer_place_bound(peers: Seq<PeerView>, id: Seq<char>)
    ensures
        peer_place(peers, id) matches Some(i) ==> 0 <= i < peers.len() && peers[i].id == id,
        peer_place(peers, id) is None ==> forall|j: int|
            0 <= j < peers.len() ==> (#[trigger] peers[j]).id != id,
    decreases peers.len(),
{
    if peers.len() > 0 {
        lemma_peer_place_bound(peers.drop_last(), id);
        assert forall|j: int| 0 <= j < peers.len() - 1 implies peers.drop_last()[j]
            == peers[j] by {}
    }
}

/// What a router does for the core: it takes packets in, sends them on
/// and counts.
pub trait Router {
    /// Whether the router keeps its order.
    spec fn ready(&self) -> bool;

    /// Takes in a packet at `now`.
    fn handle_packet(&mut self, packet: Packet, now: &Timestamp) -> (r: Result<(), RoutingError>)
        requires
            old(self).ready(),
        ensures
            final(self).ready(),
    ;

    /// Sends a packet to a destination.
    fn send_to(&mut self, packet: &Packet, destination: &str) -> (r: Result<(), RoutingError>)
        requires
            old(self).ready(),
        ensures
            final(self).ready(),
    ;

    /// Sends a packet to every known peer.
    fn flood_packet(&mut self, packet: Packet) -> (r: Result<(), RoutingError>)
        requires
            old(self).ready(),
        ensures
            final(self).ready(),
    ;

    /// The counts of the router.
    fn get_stats(&self) -> RoutingStats;
}

impl Router for DtnRouter {
    open spec fn ready(&self) -> bool {
        self.wf()
    }

    fn handle_packet(&mut self, packet: Packet, now: &Timestamp) -> (r: Result<(), RoutingError>)
        ensures
            r is Ok,
            handled(*old(self), *final(self), packet@, *now),
    {
        DtnRouter::handle_packet(self, packet, now)
    }

    fn send_to(&mut self, packet: &Packet, destination: &str) -> (r: Result<(), RoutingError>)
        ensures
            final(self).wf(),
            final(self).store() == old(self).store(),
            final(self).peers() == old(self).peers(),
            final(self).links() == old(self).links(),
            match peer_place(old(self).peers(), destination@) {
                Some(_) => {
                    &&& final(self).waiting() == old(self).waiting()
                    &&& r is Ok ==> final(self).counters() == (RoutingStats {
                        forwarded_packets: bumped(old(self).counters().forwarded_packets),
                        ..old(self).counters()
                    })
                    &&& r matches Err(e) ==> e is TransportError && final(self).counters()
                        == old(self).counters()
                    &&& old(self).links().len() == 0 ==> r matches Err(
                        RoutingError::TransportError(TransportError::NoTransportAvailable),
                    )
                },
                None => r is Ok && exists|successes: nat|
                    successes <= old(self).peers().len() && #[trigger] flooded(
                        *old(self),
                        *final(self),
                        packet@,
                        successes,
                    ),
            },
    {
        DtnRouter::send_to(self, packet, destination)
    }

    fn flood_packet(&mut self, packet: Packet) -> (r: Result<(), RoutingError>)
        ensures
            r is Ok,
            exists|successes: nat|
                successes <= old(self).peers().len() && #[trigger] flooded(
                    *old(self),
                    *final(self),
                    packet@,
                    successes,
                ),
    {
        DtnRouter::flood_packet(self, packet)
    }

    fn get_stats(&self) -> (r: RoutingStats)
        ensures
            r == self.counters(),
    {
        DtnRouter::get_stats(self)
    }
}

} // verus!
