use ya_ok_core::identity::Identity;
use ya_ok_core::message::{Message, StatusType};
use ya_ok_core::packet::Packet;
use ya_ok_core::transport::ble::{
    get_default_interface, yaok_packet_char_uuid, yaok_service_uuid, BleNativeInterface,
    BleTransport, BLE_MTU,
};
use ya_ok_core::transport::{Transport, TransportError, TransportType};

struct MockRadio {
    available: i32,
    advertise: i32,
    send: i32,
}

impl BleNativeInterface for MockRadio {
    fn start_advertising(&self, _data: &[u8]) -> i32 {
        self.advertise
    }
    fn stop_advertising(&self) -> i32 {
        0
    }
    fn start_scanning(&self) -> i32 {
        0
    }
    fn stop_scanning(&self) -> i32 {
        0
    }
    fn send_gatt_packet(&self, _address: &[u8], _data: &[u8]) -> i32 {
        self.send
    }
    fn is_ble_available(&self) -> i32 {
        self.available
    }
}

fn mock() -> MockRadio {
    MockRadio { available: 1, advertise: 0, send: 0 }
}

fn status_packet() -> Packet {
    let sender = Identity::new();
    let receiver = Identity::new();
    let message = Message::status(sender.id().to_string(), StatusType::Okay);
    Packet::from_message(&message, &sender, &receiver.x25519_public_bytes().unwrap()).unwrap()
}

#[test]
fn test_ble_constants() {
    const YAOK_SERVICE_UUID: &str = "0000CAFE-0000-1000-8000-00805f9b34fb";
    const YAOK_PACKET_CHAR_UUID: &str = "0000BEEF-0000-1000-8000-00805f9b34fb";
    const BLE_MTU_EXPECTED: usize = 512;

    assert_eq!(YAOK_SERVICE_UUID.len(), 36);
    assert_eq!(YAOK_PACKET_CHAR_UUID.len(), 36);
    assert_eq!(BLE_MTU_EXPECTED, 512);
    assert_eq!(yaok_service_uuid(), YAOK_SERVICE_UUID);
    assert_eq!(yaok_packet_char_uuid(), YAOK_PACKET_CHAR_UUID);
    assert_eq!(BLE_MTU, BLE_MTU_EXPECTED);
}

#[test]
fn test_ble_available() {
    let transport = BleTransport::with_interface(mock());
    assert!(transport.is_available());
}

#[test]
fn test_ble_unavailable() {
    let mut interface = mock();
    interface.available = 0;
    let transport = BleTransport::with_interface(interface);
    assert!(!transport.is_available());
}

#[test]
fn test_send_small_packet() {
    let mut transport = BleTransport::with_interface(mock());
    let packet = status_packet();
    let result = transport.send_packet(&packet, "AA:BB:CC:DD:EE:FF");
    if result.is_err() {
        assert!(result.unwrap_err().to_string().contains("too large"));
    }
}

#[test]
fn test_send_fails_with_bad_interface() {
    let mut interface = mock();
    interface.send = -1;
    let mut transport = BleTransport::with_interface(interface);
    let packet = status_packet();
    let result = transport.send_packet(&packet, "AA:BB:CC:DD:EE:FF");
    assert!(result.is_err());
    let err_msg = result.unwrap_err().to_string();
    assert!(err_msg.contains("GATT send failed") || err_msg.contains("too large"));
}

#[test]
fn test_start_listening() {
    let mut transport = BleTransport::with_interface(mock());
    let result = transport.start_listening();
    assert!(result.is_ok());
    let result = transport.stop_listening();
    assert!(result.is_ok());
}

#[test]
fn test_start_listening_fails() {
    let mut interface = mock();
    interface.advertise = -1;
    let mut transport = BleTransport::with_interface(interface);
    let result = transport.start_listening();
    assert!(result.is_err());
    assert!(!transport.is_listening());
}

#[test]
fn test_double_start_listening_fails() {
    let mut transport = BleTransport::with_interface(mock());
    transport.start_listening().unwrap();
    let result = transport.start_listening();
    assert!(matches!(result, Err(TransportError::AlreadyListening)));
    transport.stop_listening().unwrap();
    assert!(!transport.is_listening());
}

#[test]
fn test_discover_peers() {
    let mut transport = BleTransport::with_interface(mock());
    let result = transport.discover_peers();
    assert!(result.is_ok());
    let peers = result.unwrap();
    assert_eq!(peers.len(), 0);
}

#[test]
fn ble_tests_test_transport_type() {
    let transport = BleTransport::with_interface(mock());
    assert_eq!(transport.transport_type(), TransportType::Ble);
}

#[test]
fn platform_without_a_radio_has_no_link() {
    let mut transport = BleTransport::with_interface(get_default_interface());
    assert!(!transport.is_available());
    assert!(matches!(transport.start_listening(), Err(TransportError::NotAvailable)));
    assert!(matches!(transport.discover_peers(), Err(TransportError::NotAvailable)));
    let fresh = BleTransport::new();
    assert!(!fresh.is_listening());
}

#[test]
fn packet_of_a_long_text_does_not_fit_the_radio() {
    let mut transport = BleTransport::with_interface(mock());
    let sender = Identity::new();
    let receiver = Identity::new();
    let message = Message::text(sender.id().to_string(), "A".repeat(256)).unwrap();
    let packet =
        Packet::from_message(&message, &sender, &receiver.x25519_public_bytes().unwrap()).unwrap();
    assert!(packet.to_bytes().unwrap().len() > BLE_MTU);
    let result = transport.send_packet(&packet, "AA:BB:CC:DD:EE:FF");
    assert!(result.unwrap_err().to_string().contains("too large"));
}

#[test]
fn test_send_large_packet_fails() {
    let mut transport = BleTransport::with_interface(mock());
    let sender = Identity::new();
    let receiver = Identity::new();
    let large_text = "A".repeat(256);
    let message = Message::text(sender.id().to_string(), large_text).unwrap();
    let packet =
        Packet::from_message(&message, &sender, &receiver.x25519_public_bytes().unwrap()).unwrap();
    assert!(packet.to_bytes().unwrap().len() > BLE_MTU);
    let result = transport.send_packet(&packet, "AA:BB:CC:DD:EE:FF");
    assert!(matches!(result, Err(TransportError::SendFailed(_))));
    assert!(result.unwrap_err().to_string().contains("too large"));
}

#[test]
fn radio_answers_in_numbers() {
    assert!(ya_ok_core::transport::ble::availability(1));
    assert!(ya_ok_core::transport::ble::availability(i32::MAX));
    assert!(!ya_ok_core::transport::ble::availability(0));
    assert!(!ya_ok_core::transport::ble::availability(-1));
    assert!(ya_ok_core::transport::ble::scan_answer(0).unwrap().is_empty());
    assert!(ya_ok_core::transport::ble::scan_answer(7).unwrap().is_empty());
    assert!(matches!(
        ya_ok_core::transport::ble::scan_answer(-1),
        Err(TransportError::NotAvailable)
    ));
    assert!(matches!(
        ya_ok_core::transport::ble::scan_answer(i32::MIN),
        Err(TransportError::NotAvailable)
    ));
}
