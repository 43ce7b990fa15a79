use ya_ok_core::identity::Identity;
use ya_ok_core::message::{Message, StatusType};
use ya_ok_core::packet::Packet;
use ya_ok_core::transport::udp::{UdpTransport, UdpTransportConfig};
use ya_ok_core::transport::{TransportError, TransportType};

#[test]
fn test_udp_transport_default_config() {
    let transport = UdpTransport::new();
    assert_eq!(transport.config.relay_url, "i-am-ok-relay.fly.dev:40100");
    assert_eq!(transport.config.tls_disabled, false);
    assert!(transport.config.pinned_cert_fingerprint.is_none());
}

#[test]
fn test_udp_transport_custom_config() {
    let config = UdpTransportConfig {
        relay_url: "custom-relay.example.com:8443".to_string(),
        pinned_cert_fingerprint: Some("A1:B2:C3:D4:E5:F6".to_string()),
        tls_disabled: false,
    };

    let transport = UdpTransport::with_config(config);
    assert_eq!(transport.config.relay_url, "custom-relay.example.com:8443");
    assert_eq!(
        transport.config.pinned_cert_fingerprint,
        Some("A1:B2:C3:D4:E5:F6".to_string())
    );
}

#[test]
fn test_certificate_pinning_success() {
    let config = UdpTransportConfig {
        relay_url: "relay.example.com:40100".to_string(),
        pinned_cert_fingerprint: Some("AA:BB:CC:DD:EE:FF".to_string()),
        tls_disabled: false,
    };

    let transport = UdpTransport::with_config(config);

    let result = transport.verify_certificate_pin("AA:BB:CC:DD:EE:FF");
    assert!(result.is_ok());
}

#[test]
fn test_certificate_pinning_failure() {
    let config = UdpTransportConfig {
        relay_url: "relay.example.com:40100".to_string(),
        pinned_cert_fingerprint: Some("AA:BB:CC:DD:EE:FF".to_string()),
        tls_disabled: false,
    };

    let transport = UdpTransport::with_config(config);

    let result = transport.verify_certificate_pin("11:22:33:44:55:66");
    assert!(result.is_err());

    if let Err(TransportError::SecurityError(msg)) = result {
        assert!(msg.contains("Certificate pinning failed"));
        assert!(msg.contains("AA:BB:CC:DD:EE:FF"));
        assert!(msg.contains("11:22:33:44:55:66"));
    } else {
        panic!("Expected SecurityError");
    }
}

#[test]
fn test_certificate_pinning_no_pin_configured() {
    let config = UdpTransportConfig {
        relay_url: "relay.example.com:40100".to_string(),
        pinned_cert_fingerprint: None,
        tls_disabled: false,
    };

    let transport = UdpTransport::with_config(config);

    let result = transport.verify_certificate_pin("11:22:33:44:55:66");
    assert!(result.is_ok());
}

#[test]
fn udp_tests_test_transport_type() {
    let transport = UdpTransport::new();
    assert_eq!(transport.transport_type(), TransportType::Udp);
}

#[test]
fn pinning_failure_names_both_fingerprints_exactly() {
    let config = UdpTransportConfig {
        relay_url: "relay.example.com:40100".to_string(),
        pinned_cert_fingerprint: Some("AA:AA".to_string()),
        tls_disabled: false,
    };
    let transport = UdpTransport::with_config(config);
    match transport.verify_certificate_pin("BB:BB") {
        Err(TransportError::SecurityError(msg)) => {
            assert_eq!(msg, "Certificate pinning failed: expected AA:AA, got BB:BB");
        }
        _ => panic!("Expected SecurityError"),
    }
}

#[test]
fn host_is_the_address_up_to_its_first_colon() {
    assert_eq!(UdpTransport::new().relay_host(), "i-am-ok-relay.fly.dev");
    let plain = UdpTransport::with_config(UdpTransportConfig {
        relay_url: "localhost".to_string(),
        pinned_cert_fingerprint: None,
        tls_disabled: false,
    });
    assert_eq!(plain.relay_host(), "localhost");
    let two = UdpTransport::with_config(UdpTransportConfig {
        relay_url: "a:1:2".to_string(),
        pinned_cert_fingerprint: None,
        tls_disabled: false,
    });
    assert_eq!(two.relay_host(), "a");
}

#[test]
fn frame_is_length_then_bytes() {
    let frame = UdpTransport::frame(&[9u8; 300]).unwrap();
    assert_eq!(&frame[..4], &[0, 0, 1, 44]);
    assert_eq!(frame.len(), 304);
    assert_eq!(UdpTransport::frame(&[]).unwrap(), vec![0, 0, 0, 0]);
    assert!(UdpTransport::frame(&vec![0u8; 131072]).is_some());
    assert!(UdpTransport::frame(&vec![0u8; 131073]).is_none());
}

#[test]
fn frame_of_more_than_128_kb_is_refused() {
    assert_eq!(UdpTransport::read_frame_length(&[0, 2, 0, 0]).unwrap(), 131072);
    assert_eq!(UdpTransport::read_frame_length(&[0, 0, 1, 44]).unwrap(), 300);
    let r = UdpTransport::read_frame_length(&[0, 2, 0, 1]);
    match r {
        Err(TransportError::ReceiveFailed(m)) => assert!(m.contains("too large")),
        _ => panic!("Expected ReceiveFailed"),
    }
}

#[test]
fn nothing_is_sent_or_heard_without_tls() {
    let mut config = UdpTransportConfig::default();
    config.tls_disabled = true;
    let transport = UdpTransport::with_config(config);
    let sender = Identity::new();
    let receiver = Identity::new();
    let message = Message::status(sender.id().to_string(), StatusType::Okay);
    let packet =
        Packet::from_message(&message, &sender, &receiver.x25519_public_bytes().unwrap()).unwrap();
    let result = transport.prepare_send(&packet);
    assert!(result.is_err());
    assert!(result.unwrap_err().to_string().contains("TLS is required"));
    let result = transport.prepare_listen();
    assert!(result.unwrap_err().to_string().contains("TLS is required"));
    assert!(!transport.may_be_available());
}

#[test]
fn prepared_frame_carries_the_packet() {
    let transport = UdpTransport::new();
    let sender = Identity::new();
    let receiver = Identity::new();
    let message = Message::status(sender.id().to_string(), StatusType::Busy);
    let packet =
        Packet::from_message(&message, &sender, &receiver.x25519_public_bytes().unwrap()).unwrap();
    let frame = transport.prepare_send(&packet).unwrap();
    let mut head = [0u8; 4];
    head.copy_from_slice(&frame[..4]);
    let n = UdpTransport::read_frame_length(&head).unwrap();
    assert_eq!(n, frame.len() - 4);
    let back = UdpTransport::read_frame_payload(&frame[4..]).unwrap();
    assert_eq!(back.message_id, packet.message_id);
    assert_eq!(back.signature, packet.signature);
    assert!(UdpTransport::read_frame_payload(&frame[5..]).is_none());
}

#[test]
fn test_tls_required_for_send() {
    let mut config = UdpTransportConfig::default();
    config.tls_disabled = true;
    let transport = UdpTransport::with_config(config);
    let sender = ya_ok_core::identity::Identity::new();
    let receiver = ya_ok_core::identity::Identity::new();
    let message = ya_ok_core::message::Message::status(
        sender.id().to_string(),
        ya_ok_core::message::StatusType::Okay,
    );
    let packet = ya_ok_core::packet::Packet::from_message(
        &message,
        &sender,
        &receiver.x25519_public_bytes().unwrap(),
    )
    .unwrap();
    let result = transport.prepare_send(&packet);
    assert!(result.is_err());
    assert!(result.unwrap_err().to_string().contains("TLS is required"));
}

#[test]
fn test_tls_required_for_listen() {
    let mut config = UdpTransportConfig::default();
    config.tls_disabled = true;
    let transport = UdpTransport::with_config(config);
    let result = transport.prepare_listen();
    assert!(result.is_err());
    assert!(result.unwrap_err().to_string().contains("TLS is required"));
}

#[test]
fn test_config_with_pinning() {
    let pinned_fingerprint = "A1:B2:C3:D4:E5:F6:01:02:03:04:05:06:07:08:09:0A:0B:0C:0D:0E:0F:10:11:12:13:14:15:16:17:18:19:1A".to_string();
    let config = UdpTransportConfig {
        relay_url: "example.com:443".to_string(),
        pinned_cert_fingerprint: Some(pinned_fingerprint.clone()),
        tls_disabled: false,
    };
    let transport = UdpTransport::with_config(config);
    assert_eq!(transport.config.pinned_cert_fingerprint, Some(pinned_fingerprint));
}

#[test]
fn test_default_config() {
    let transport = UdpTransport::new();
    assert_eq!(transport.config.relay_url, "i-am-ok-relay.fly.dev:40100");
    assert_eq!(transport.config.pinned_cert_fingerprint, None);
    assert_eq!(transport.config.tls_disabled, false);
}
