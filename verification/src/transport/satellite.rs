//! The satellite link. It is never there.

use crate::packet::Packet;
use crate::transport::{Peer, Transport, TransportError, TransportType};
use vstd::prelude::*;

verus! {

/// The satellite link.
pub struct SatelliteTransport;

impl SatelliteTransport {
    /// The satellite link.
    pub fn new() -> (r: SatelliteTransport) {
        SatelliteTransport
    }
}

impl Transport for SatelliteTransport {
    fn transport_type(&self) -> (r: TransportType)
        ensures
            r == TransportType::Satellite,
    {
        TransportType::Satellite
    }

    fn is_available(&self) -> (r: bool)
        ensures
            !r,
    {
        false
    }

    fn send_packet(&mut self, _packet: &Packet, _destination: &str) -> (r: Result<
        (),
        TransportError,
    >)
        ensures
            r matches Err(TransportError::NotAvailable),
    {
        Err(TransportError::NotAvailable)
    }

    fn discover_peers(&mut self) -> (r: Result<Vec<Peer>, TransportError>)
        ensures
            r matches Ok(v) && v@.len() == 0,
    {
        Ok(Vec::new())
    }

    fn start_listening(&mut self) -> (r: Result<(), TransportError>)
        ensures
            r matches Err(TransportError::NotAvailable),
    {
        Err(TransportError::NotAvailable)
    }

    fn stop_listening(&mut self) -> (r: Result<(), TransportError>)
        ensures
            r is Ok,
    {
        Ok(())
    }
}

} // verus!
