//! The short-range radio link. The platform supplies the radio; the
//! library decides what is handed to it.

use crate::packet::{packet_wire, Packet};
use crate::transport::{Peer, Transport, TransportError, TransportType};
use vstd::prelude::*;

verus! {

/// Most bytes that the radio carries at once; larger packets are cut
/// into chunks before they are sent.
pub const BLE_MTU: usize = 512;

/// UUID of the service of the project on the radio.
pub fn yaok_service_uuid() -> (r: &'static str)
    ensures
        r@ == "0000CAFE-0000-1000-8000-00805f9b34fb"@,
{
    "0000CAFE-0000-1000-8000-00805f9b34fb"
}

/// UUID of the characteristic over which packets travel.
pub fn yaok_packet_char_uuid() -> (r: &'static str)
    ensures
        r@ == "0000BEEF-0000-1000-8000-00805f9b34fb"@,
{
    "0000BEEF-0000-1000-8000-00805f9b34fb"
}

/// The radio of the platform. Every answer below zero is a failure.
pub trait BleNativeInterface {
    /// Starts to advertise the data.
    fn start_advertising(&self, data: &[u8]) -> i32;

    /// Stops advertising.
    fn stop_advertising(&self) -> i32;

    /// Starts to scan for peers.
    fn start_scanning(&self) -> i32;

    /// Stops scanning.
    fn stop_scanning(&self) -> i32;

    /// Sends data to an address.
    fn send_gatt_packet(&self, address: &[u8], data: &[u8]) -> i32;

    /// Answers above zero where the radio can be used.
    fn is_ble_available(&self) -> i32;
}

/// The radio of a platform that has none: nothing works.
pub struct NoRadio;

impl BleNativeInterface for NoRadio {
    fn start_advertising(&self, _data: &[u8]) -> (r: i32)
        ensures
            r == -1,
    {
        -1
    }

    fn stop_advertising(&self) -> (r: i32)
        ensures
            r == -1,
    {
        -1
    }

    fn start_scanning(&self) -> (r: i32)
        ensures
            r == -1,
    {
        -1
    }

    fn stop_scanning(&self) -> (r: i32)
        ensures
            r == -1,
    {
        -1
    }

    fn send_gatt_packet(&self, _address: &[u8], _data: &[u8]) -> (r: i32)
        ensures
            r == -1,
    {
        -1
    }

    fn is_ble_available(&self) -> (r: i32)
        ensures
            r == 0,
    {
        0
    }
}

/// The radio of a platform that has none.
pub fn get_default_interface() -> (r: NoRadio) {
    NoRadio
}

/// The short-range radio link over the radio `N`.
pub struct BleTransport<N: BleNativeInterface> {
    native_interface: N,
    is_listening: bool,
}

/// What the link answers to a packet before the radio is asked: the
/// packet must be written and must fit the radio.
pub open spec fn ble_fits(packet: crate::packet::PacketView) -> bool {
    packet_wire(packet) is Some && packet_wire(packet)->0.len() <= BLE_MTU
}

impl BleTransport<NoRadio> {
    /// The link over the radio of a platform that has none.
    pub fn new() -> (r: BleTransport<NoRadio>)
        ensures
            !r.listening(),
    {
        BleTransport { native_interface: NoRadio, is_listening: false }
    }
}

impl<N: BleNativeInterface> BleTransport<N> {
    /// Whether the link listens.
    pub closed spec fn listening(self) -> bool {
        self.is_listening
    }

    /// The link over the radio given.
    pub fn with_interface(interface: N) -> (r: BleTransport<N>)
        ensures
            !r.listening(),
    {
        BleTransport { native_interface: interface, is_listening: false }
    }

    /// Whether the link listens.
    pub fn is_listening(&self) -> (r: bool)
        ensures
            r == self.listening(),
    {
        self.is_listening
    }

    /// Hands a packet to the radio. A packet that cannot be written or
    /// that takes more than 512 bytes is refused before the radio is
    /// asked; else the radio decides.
    pub fn send(&mut self, packet: &Packet, destination: &str) -> (r: Result<(), TransportError>)
        ensures
            final(self).listening() == old(self).listening(),
            !ble_fits(packet@) ==> r matches Err(TransportError::SendFailed(_)),
            r matches Err(e) ==> e is SendFailed,
    {
        let packet_bytes = match packet.to_bytes() {
            Ok(b) => b,
            Err(_) => {
                return Err(TransportError::SendFailed("Serialization failed".to_string()));
            },
        };
        if packet_bytes.len() > BLE_MTU {
            return Err(
                TransportError::SendFailed(
                    "Packet too large for BLE (max 512 bytes). Use chunking.".to_string(),
                ),
            );
        }
        let result = self.native_interface.send_gatt_packet(
            destination.as_bytes(),
            packet_bytes.as_slice(),
        );
        if result < 0 {
            return Err(TransportError::SendFailed("BLE GATT send failed".to_string()));
        }
        Ok(())
    }

    /// Starts to listen: the radio advertises the service. A link that
    /// listens already refuses; where the radio refuses, the link does not
    /// listen.
    pub fn listen(&mut self) -> (r: Result<(), TransportError>)
        ensures
            old(self).listening() ==> (r matches Err(TransportError::AlreadyListening)),
            old(self).listening() ==> final(self).listening(),
            !old(self).listening() ==> (r is Ok <==> final(self).listening()),
            !old(self).listening() ==> (r matches Err(e) ==> e is NotAvailable),
    {
        if self.is_listening {
            return Err(TransportError::AlreadyListening);
        }
        let result = self.native_interface.start_advertising(yaok_service_uuid().as_bytes());
        if result < 0 {
            return Err(TransportError::NotAvailable);
        }
        self.is_listening = true;
        Ok(())
    }

    /// Stops listening. A link that does not listen has nothing to stop;
    /// where the radio refuses, the link goes on listening.
    pub fn stop(&mut self) -> (r: Result<(), TransportError>)
        ensures
            !old(self).listening() ==> r is Ok && !final(self).listening(),
            old(self).listening() ==> (r is Ok <==> !final(self).listening()),
            r matches Err(e) ==> e is ReceiveFailed,
    {
        if !self.is_listening {
            return Ok(());
        }
        let result = self.native_interface.stop_advertising();
        if result < 0 {
            return Err(TransportError::ReceiveFailed("Failed to stop advertising".to_string()));
        }
        self.is_listening = false;
        Ok(())
    }

    /// Starts a scan for peers. The platform reports what it finds; the
    /// answer here holds no peer.
    pub fn scan(&mut self) -> (r: Result<Vec<Peer>, TransportError>)
        ensures
            final(self).listening() == old(self).listening(),
            r matches Ok(v) ==> v@.len() == 0,
            r matches Err(e) ==> e is NotAvailable,
    {
        let result = self.native_interface.start_scanning();
        scan_answer(result)
    }
}

/// What a scan answers for the number that the radio gave: a negative
/// number says that the radio cannot scan; any other that the scan was
/// started, and no peer is known yet.
pub fn scan_answer(code: i32) -> (r: Result<Vec<Peer>, TransportError>)
    ensures
        match r {
            Ok(v) => code >= 0 && v@.len() == 0,
            Err(e) => code < 0 && e is NotAvailable,
        },
{
    if code < 0 {
        return Err(TransportError::NotAvailable);
    }
    Ok(Vec::new())
}

/// Whether the radio can be used, for the number that it gave: a
/// positive number says so.
pub fn availability(code: i32) -> (r: bool)
    ensures
        r == (code > 0),
{
    code > 0
}

impl<N: BleNativeInterface + Send> Transport for BleTransport<N> {
    fn transport_type(&self) -> (r: TransportType)
        ensures
            r == TransportType::Ble,
    {
        TransportType::Ble
    }

    fn is_available(&self) -> bool {
        availability(self.native_interface.is_ble_available())
    }

    fn send_packet(&mut self, packet: &Packet, destination: &str) -> (r: Result<
        (),
        TransportError,
    >)
        ensures
            final(self).listening() == old(self).listening(),
            !ble_fits(packet@) ==> r matches Err(TransportError::SendFailed(_)),
            r matches Err(e) ==> e is SendFailed,
    {
        self.send(packet, destination)
    }

    fn discover_peers(&mut self) -> (r: Result<Vec<Peer>, TransportError>)
        ensures
            final(self).listening() == old(self).listening(),
            r matches Ok(v) ==> v@.len() == 0,
            r matches Err(e) ==> e is NotAvailable,
    {
        self.scan()
    }

    fn start_listening(&mut self) -> (r: Result<(), TransportError>)
        ensures
            old(self).listening() ==> (r matches Err(TransportError::AlreadyListening)),
            old(self).listening() ==> final(self).listening(),
            !old(self).listening() ==> (r is Ok <==> final(self).listening()),
            !old(self).listening() ==> (r matches Err(e) ==> e is NotAvailable),
    {
        self.listen()
    }

    fn stop_listening(&mut self) -> (r: Result<(), TransportError>)
        ensures
            !old(self).listening() ==> r is Ok && !final(self).listening(),
            old(self).listening() ==> (r is Ok <==> !final(self).listening()),
            r matches Err(e) ==> e is ReceiveFailed,
    {
        self.stop()
    }
}

} // verus!
