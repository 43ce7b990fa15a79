//! Core of a delay-tolerant, end-to-end encrypted presence and messaging
//! mesh for peers that are connected now and then.
//!
//! Peers exchange a presence status, a short text or a short voice clip.
//! The library holds the packet format with its signature and encryption,
//! the router for store and forward with its queues, the local store, the
//! gossip that repairs stores, the bookkeeping of the relay, and the policy
//! of the environment. Sockets, files and clocks belong to the program
//! that embeds the library: time comes in as an argument.

pub mod api;
pub mod crypto;
pub mod hash;
pub mod identity;
pub mod identity_store;
pub mod message;
pub mod packet;
pub mod peer_store;
pub mod policy;
pub mod relay;
pub mod routing;
pub mod security;
pub mod storage;
pub mod sync;
pub mod text;
pub mod time;
pub mod transport;
pub mod wire;

pub use crate::api::{ApiError, CoreState, CoreStats, MessageExport, MessageSummary};
pub use crate::crypto::{
    Crypto, CryptoError, EncryptedPayload, SymmetricEncryption, SymmetricKey,
};
pub use crate::identity::{Identity, IdentityError};
pub use crate::identity_store::{
    load_identity, restorable, save_identity, IdentityStoreError, StoredIdentity,
};
pub use crate::message::{Message, MessageError, MessagePayload, MessageType, StatusType};
pub use crate::packet::{Packet, PacketError, Priority};
pub use crate::peer_store::{
    add_peer_global, init_peer_store, list_peers_global, remove_peer_global, PeerRecord,
    PeerStore, PeerStoreError, PeerStoreSlot,
};
pub use crate::time::Timestamp;

use vstd::prelude::*;

verus! {

/// Sets the core up from what was kept: the identity is restored to see
/// that it can be, and the registry of peers, where one was kept, is put
/// in its place. An identity that cannot be restored stops the set-up
/// before the registry is touched; a registry cannot be put in place
/// twice.
pub fn init(
    stored_identity: Option<&StoredIdentity>,
    peers: Option<PeerStore>,
    slot: &mut PeerStoreSlot,
) -> (r: Result<(), String>)
    ensures
        r is Ok <==> restorable(stored_identity) && (peers is None || old(slot).registry()
            is None),
        final(slot).registry() == if r is Ok && peers is Some {
            peers
        } else {
            old(slot).registry()
        },
{
    match load_identity(stored_identity) {
        Ok(_) => {},
        Err(e) => {
            return Err("Failed to load identity: ".to_string().concat(e.to_string().as_str()));
        },
    }
    match peers {
        Some(store) => match init_peer_store(slot, store) {
            Ok(()) => Ok(()),
            Err(e) => Err(
                "Failed to init peer store: ".to_string().concat(e.to_string().as_str()),
            ),
        },
        None => Ok(()),
    }
}

} // verus!
