//! Transports: the links over which packets travel.

pub mod ble;
pub mod chunking;
pub mod dtls;
pub mod satellite;
pub mod udp;

use crate::packet::Packet;
use crate::time::Timestamp;
use crate::wire::clone_bytes;
use vstd::prelude::*;

verus! {

/// Kind of link.
#[derive(Clone, Copy, Debug, PartialEq, Eq, Hash, Structural)]
pub enum TransportType {
    /// Short-range radio.
    Ble,
    /// Local wireless, peer to peer.
    WifiDirect,
    /// UDP to the relay or to a host.
    Udp,
    /// Satellite.
    Satellite,
}

/// Why a transport failed.
#[derive(Debug)]
pub enum TransportError {
    /// The transport cannot be used now.
    NotAvailable,
    /// No transport at all can be used now.
    NoTransportAvailable,
    /// Sending failed.
    SendFailed(String),
    /// Receiving failed.
    ReceiveFailed(String),
    /// Looking for peers failed.
    DiscoveryFailed(String),
    /// The address cannot be used.
    InvalidAddress(String),
    /// The peer did not answer in time.
    Timeout,
    /// The packet is larger than the link carries.
    MtuExceeded,
    /// The link could not be secured.
    SecurityError(String),
    /// The transport listens already.
    AlreadyListening,
}

impl TransportError {
    /// The error in words.
    pub open spec fn words(self) -> Seq<char> {
        match self {
            TransportError::NotAvailable => "Transport not available"@,
            TransportError::NoTransportAvailable => "No transport available"@,
            TransportError::SendFailed(m) => "Send failed: "@ + m@,
            TransportError::ReceiveFailed(m) => "Receive failed: "@ + m@,
            TransportError::DiscoveryFailed(m) => "Discovery failed: "@ + m@,
            TransportError::InvalidAddress(m) => "Invalid address: "@ + m@,
            TransportError::Timeout => "Connection timeout"@,
            TransportError::MtuExceeded => "MTU exceeded"@,
            TransportError::SecurityError(m) => "Security error: "@ + m@,
            TransportError::AlreadyListening => "Already listening"@,
        }
    }

    /// The error in words, as a text.
    pub fn to_string(&self) -> (r: String)
        ensures
            r@ == self.words(),
    {
        match self {
            TransportError::NotAvailable => "Transport not available".to_string(),
            TransportError::NoTransportAvailable => "No transport available".to_string(),
            TransportError::SendFailed(m) => "Send failed: ".to_string().concat(m.as_str()),
            TransportError::ReceiveFailed(m) => "Receive failed: ".to_string().concat(m.as_str()),
            TransportError::DiscoveryFailed(m) => "Discovery failed: ".to_string().concat(
                m.as_str(),
            ),
            TransportError::InvalidAddress(m) => "Invalid address: ".to_string().concat(
                m.as_str(),
            ),
            TransportError::Timeout => "Connection timeout".to_string(),
            TransportError::MtuExceeded => "MTU exceeded".to_string(),
            TransportError::SecurityError(m) => "Security error: ".to_string().concat(m.as_str()),
            TransportError::AlreadyListening => "Already listening".to_string(),
        }
    }
}

/// A known peer.
#[derive(Debug)]
pub struct Peer {
    /// Identifier of the peer: the hexadecimal text of its signing key.
    pub id: String,
    /// Kind of link on which the peer was last seen.
    pub transport_type: TransportType,
    /// Address on that link.
    pub address: String,
    /// When the peer was last seen.
    pub last_seen: Timestamp,
    /// Strength of the signal, where the link reports one.
    pub signal_strength: Option<i32>,
    /// Ed25519 key by which signatures of the peer are verified.
    pub ed25519_public_key: Option<Vec<u8>>,
    /// X25519 key to which packets for the peer are encrypted.
    pub x25519_public_key: Option<Vec<u8>>,
}

/// A peer as a mathematical value.
pub struct PeerView {
    pub id: Seq<char>,
    pub transport_type: TransportType,
    pub address: Seq<char>,
    pub last_seen: Timestamp,
    pub signal_strength: Option<i32>,
    pub ed25519_public_key: Option<Seq<u8>>,
    pub x25519_public_key: Option<Seq<u8>>,
}

/// The bytes behind an optional byte string.
pub open spec fn opt_bytes_view(v: Option<Vec<u8>>) -> Option<Seq<u8>> {
    match v {
        Some(b) => Some(b@),
        None => None,
    }
}

/// A copy of an optional byte string.
pub fn clone_opt_bytes(v: &Option<Vec<u8>>) -> (r: Option<Vec<u8>>)
    ensures
        opt_bytes_view(r) == opt_bytes_view(*v),
{
    match v {
        Some(b) => Some(clone_bytes(b)),
        None => None,
    }
}

impl View for Peer {
    type V = PeerView;

    open spec fn view(&self) -> PeerView {
        PeerView {
            id: self.id@,
            transport_type: self.transport_type,
            address: self.address@,
            last_seen: self.last_seen,
            signal_strength: self.signal_strength,
            ed25519_public_key: opt_bytes_view(self.ed25519_public_key),
            x25519_public_key: opt_bytes_view(self.x25519_public_key),
        }
    }
}

impl Clone for Peer {
    fn clone(&self) -> (r: Self)
        ensures
            r@ == self@,
    {
        Peer {
            id: self.id.clone(),
            transport_type: self.transport_type,
            address: self.address.clone(),
            last_seen: self.last_seen,
            signal_strength: self.signal_strength,
            ed25519_public_key: clone_opt_bytes(&self.ed25519_public_key),
            x25519_public_key: clone_opt_bytes(&self.x25519_public_key),
        }
    }
}

/// A link over which packets travel. The embedding program supplies the
/// links; the library decides which one carries a packet. A link can be
/// handed to another thread, so that the core can be kept behind a lock.
pub trait Transport: Send {
    /// Kind of the link.
    fn transport_type(&self) -> TransportType;

    /// Whether the link can be used now.
    fn is_available(&self) -> bool;

    /// Sends a packet to an address on the link.
    fn send_packet(&mut self, packet: &Packet, destination: &str) -> Result<(), TransportError>;

    /// Looks for peers on the link.
    fn discover_peers(&mut self) -> Result<Vec<Peer>, TransportError>;

    /// Starts to listen for packets.
    fn start_listening(&mut self) -> Result<(), TransportError>;

    /// Stops listening.
    fn stop_listening(&mut self) -> Result<(), TransportError>;
}

/// The place of the first link of the kind `t` among `kinds`, where one
/// is.
pub open spec fn first_of_kind(kinds: Seq<TransportType>, t: TransportType) -> Option<int>
    decreases kinds.len(),
{
    if kinds.len() == 0 {
        None
    } else {
        match first_of_kind(kinds.drop_last(), t) {
            Some(i) => Some(i),
            None => if kinds.last() == t {
                Some(kinds.len() - 1)
            } else {
                None
            },
        }
    }
}

/// The first link of a kind is of that kind, and no link before it is;
/// where there is none, no link is of that kind.
pub proof fn lemma_first_of_kind(kinds: Seq<TransportType>, t: TransportType)
    ensures
        match first_of_kind(kinds, t) {
            Some(i) => 0 <= i < kinds.len() && kinds[i] == t && forall|j: int|
                0 <= j < i ==> kinds[j] != t,
            None => forall|j: int| 0 <= j < kinds.len() ==> kinds[j] != t,
        },
    decreases kinds.len(),
{
    if kinds.len() > 0 {
        lemma_first_of_kind(kinds.drop_last(), t);
        assert forall|j: int| 0 <= j < kinds.len() - 1 implies kinds.drop_last()[j]
            == kinds[j] by {}
    }
}

/// The links as they are held: the link that was added last, its kind, and
/// the links that were added before it.
enum Links {
    Nil,
    Cons { link: Box<dyn Transport>, kind: TransportType, rest: Box<Links> },
}

impl Links {
    /// The kinds of the links, in the order in which they were added.
    spec fn kinds(self) -> Seq<TransportType>
        decreases self,
    {
        match self {
            Links::Nil => Seq::<TransportType>::empty(),
            Links::Cons { link, kind, rest } => rest.kinds().push(kind),
        }
    }

    fn collect(&self, out: &mut Vec<TransportType>)
        ensures
            final(out)@ == old(out)@ + self.kinds(),
        decreases self,
    {
        match self {
            Links::Nil => {
                assert(out@ + self.kinds() =~= out@);
            },
            Links::Cons { link, kind, rest } => {
                rest.collect(out);
                out.push(*kind);
                assert(out@ =~= old(out)@ + self.kinds());
            },
        }
    }

    fn has(&self, t: TransportType) -> (r: bool)
        ensures
            r == first_of_kind(self.kinds(), t) is Some,
        decreases self,
    {
        match self {
            Links::Nil => false,
            Links::Cons { link, kind, rest } => {
                assert(self.kinds().drop_last() =~= rest.kinds());
                rest.has(t) || *kind == t
            },
        }
    }

    fn first(&self, t: TransportType) -> (r: Option<&Box<dyn Transport>>)
        ensures
            r is Some <==> first_of_kind(self.kinds(), t) is Some,
        decreases self,
    {
        match self {
            Links::Nil => None,
            Links::Cons { link, kind, rest } => {
                assert(self.kinds().drop_last() =~= rest.kinds());
                match rest.first(t) {
                    Some(found) => Some(found),
                    None => if *kind == t {
                        Some(link)
                    } else {
                        None
                    },
                }
            },
        }
    }

    fn send_first(&mut self, t: TransportType, packet: &Packet, destination: &str) -> (r: Option<
        Result<(), TransportError>,
    >)
        ensures
            final(self).kinds() == old(self).kinds(),
            first_of_kind(old(self).kinds(), t) is None ==> r is None,
        decreases *old(self),
    {
        match self {
            Links::Nil => None,
            Links::Cons { link, kind, rest } => {
                assert(old(self).kinds().drop_last() =~= rest.kinds());
                assert(old(self).kinds().last() == *kind);
                if rest.has(t) {
                    rest.send_first(t, packet, destination)
                } else if *kind == t {
                    if link.is_available() {
                        Some(link.send_packet(packet, destination))
                    } else {
                        None
                    }
                } else {
                    None
                }
            },
        }
    }

    fn discover(&mut self, all: &mut Vec<Peer>)
        ensures
            final(self).kinds() == old(self).kinds(),
            old(all)@.len() <= final(all)@.len(),
            final(all)@.take(old(all)@.len() as int) == old(all)@,
            old(self).kinds().len() == 0 ==> final(all)@ == old(all)@,
        decreases *old(self),
    {
        match self {
            Links::Nil => {
                assert(all@.take(all@.len() as int) =~= all@);
            },
            Links::Cons { link, kind, rest } => {
                rest.discover(all);
                let ghost before = all@;
                if link.is_available() {
                    add_found(all, link.discover_peers());
                }
                assert(all@.take(old(all)@.len() as int) =~= before.take(
                    old(all)@.len() as int,
                ));
            },
        }
    }
}

/// Takes in what a link found: the peers of a link that answered are
/// put behind those that were found before, in their order; a link that
/// failed adds nothing.
pub fn add_found(all: &mut Vec<Peer>, found: Result<Vec<Peer>, TransportError>)
    ensures
        final(all)@ == match found {
            Ok(peers) => old(all)@ + peers@,
            Err(_) => old(all)@,
        },
{
    match found {
        Ok(mut peers) => {
            all.append(&mut peers);
        },
        Err(_) => {},
    }
}

/// The links of the embedding program, in the order in which they were
/// added.
pub struct TransportManager {
    links: Links,
}

impl TransportManager {
    /// The kinds of the links, in the order in which they were added.
    pub closed spec fn kinds(self) -> Seq<TransportType> {
        self.links.kinds()
    }

    /// A manager without links.
    pub fn new() -> (m: TransportManager)
        ensures
            m.kinds().len() == 0,
    {
        TransportManager { links: Links::Nil }
    }

    /// Adds a link. Its kind is asked once and kept.
    pub fn add_transport(&mut self, transport: Box<dyn Transport>)
        ensures
            final(self).kinds().len() == old(self).kinds().len() + 1,
            final(self).kinds().drop_last() == old(self).kinds(),
    {
        let kind = transport.transport_type();
        let mut rest = Links::Nil;
        core::mem::swap(&mut self.links, &mut rest);
        self.links = Links::Cons { link: transport, kind, rest: Box::new(rest) };
        assert(self.kinds().drop_last() =~= old(self).kinds());
    }

    /// The kinds of the links, in the order in which they were added.
    pub fn available_transports(&self) -> (r: Vec<TransportType>)
        ensures
            r@ == self.kinds(),
    {
        let mut out: Vec<TransportType> = Vec::new();
        self.links.collect(&mut out);
        assert(Seq::<TransportType>::empty() + self.kinds() =~= self.kinds());
        out
    }

    /// The place of the first link of the kind, where one was added.
    pub fn find_transport(&self, transport_type: TransportType) -> (r: Option<usize>)
        ensures
            match r {
                Some(i) => first_of_kind(self.kinds(), transport_type) == Some(i as int),
                None => first_of_kind(self.kinds(), transport_type) is None,
            },
    {
        let kinds = self.available_transports();
        let n = kinds.len();
        let mut i: usize = 0;
        let ghost s = kinds@;
        while i < n
            invariant
                i <= n,
                n == kinds@.len(),
                s == kinds@,
                s == self.kinds(),
                first_of_kind(s.take(i as int), transport_type) is None,
            decreases n - i,
        {
            assert(s.take(i + 1).drop_last() =~= s.take(i as int));
            assert(s.take(i + 1).last() == s[i as int]);
            if kinds[i] == transport_type {
                proof {
                    lemma_first_of_kind_prefix(s, i + 1, transport_type);
                }
                return Some(i);
            }
            i = i + 1;
        }
        assert(s.take(n as int) =~= s);
        None
    }

    /// The first link of the kind, where one was added.
    pub fn get_transport(&self, transport_type: TransportType) -> (r: Option<&Box<dyn Transport>>)
        ensures
            r is Some <==> first_of_kind(self.kinds(), transport_type) is Some,
    {
        self.links.first(transport_type)
    }

    /// Sends a packet over the first kind of link, in the order internet,
    /// local wireless, short-range radio, satellite, whose first link says
    /// that it can be used; the answer is that of the link. Where no link
    /// says so, and so where there is no link, nothing is sent.
    pub fn send_packet(&mut self, packet: &Packet, destination: &str) -> (r: Result<
        (),
        TransportError,
    >)
        ensures
            final(self).kinds() == old(self).kinds(),
            old(self).kinds().len() == 0 ==> r matches Err(TransportError::NoTransportAvailable),
    {
        let order = [
            TransportType::Udp,
            TransportType::WifiDirect,
            TransportType::Ble,
            TransportType::Satellite,
        ];
        let mut k: usize = 0;
        while k < 4
            invariant
                k <= 4,
                self.kinds() == old(self).kinds(),
            decreases 4 - k,
        {
            proof {
                lemma_first_of_kind(self.kinds(), order[k as int]);
            }
            match self.links.send_first(order[k], packet, destination) {
                Some(answer) => {
                    return answer;
                },
                None => {},
            }
            k = k + 1;
        }
        Err(TransportError::NoTransportAvailable)
    }

    /// Asks every link that says that it can be used for its peers, in
    /// the order in which the links were added, and gives all of them; a
    /// link that fails is passed over, and no link means no peer.
    pub fn discover_all_peers(&mut self) -> (r: Result<Vec<Peer>, TransportError>)
        ensures
            r is Ok,
            final(self).kinds() == old(self).kinds(),
            old(self).kinds().len() == 0 ==> r->Ok_0@.len() == 0,
    {
        let mut all_peers: Vec<Peer> = Vec::new();
        self.links.discover(&mut all_peers);
        Ok(all_peers)
    }
}

/// A link of a kind that was found in a prefix of the links is the first
/// link of that kind among all.
proof fn lemma_first_of_kind_prefix(kinds: Seq<TransportType>, n: int, t: TransportType)
    requires
        0 <= n <= kinds.len(),
        first_of_kind(kinds.take(n), t) is Some,
    ensures
        first_of_kind(kinds, t) == first_of_kind(kinds.take(n), t),
    decreases kinds.len() - n,
{
    if n < kinds.len() {
        assert(kinds.take(n + 1).drop_last() =~= kinds.take(n));
        lemma_first_of_kind_prefix(kinds, n + 1, t);
    } else {
        assert(kinds.take(n) =~= kinds);
    }
}

impl Default for TransportManager {
    fn default() -> (m: TransportManager)
        ensures
            m.kinds().len() == 0,
    {
        TransportManager::new()
    }
}

} // verus!
