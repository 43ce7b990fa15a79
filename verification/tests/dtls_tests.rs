use ya_ok_core::transport::dtls::{check_pin, format_colon_hex, PinnedCertVerifier};

#[test]
fn test_fingerprint_format() {
    let dummy_cert = vec![0xAA; 32];
    let fingerprint = PinnedCertVerifier::compute_fingerprint(&dummy_cert);

    assert!(fingerprint.contains(':'));

    let parts: Vec<&str> = fingerprint.split(':').collect();
    assert!(parts.len() > 0);

    for part in parts {
        assert_eq!(part.len(), 2);
        assert!(part.chars().all(|c| c.is_ascii_hexdigit()));
    }
}

#[test]
fn test_packet_size_limit() {
    const MAX_PACKET_SIZE: usize = 128 * 1024;
    assert_eq!(MAX_PACKET_SIZE, 131072);
    assert_eq!(ya_ok_core::transport::udp::MAX_FRAME_PAYLOAD, MAX_PACKET_SIZE);
    assert_eq!(ya_ok_core::packet::MAX_PACKET_SIZE, MAX_PACKET_SIZE);
}

#[test]
fn fingerprint_is_sha256_in_upper_case_with_colons() {
    let fingerprint = PinnedCertVerifier::compute_fingerprint(b"abc");
    assert_eq!(
        fingerprint,
        "BA:78:16:BF:8F:01:CF:EA:41:41:40:DE:5D:AE:22:23:B0:03:61:A3:96:17:7A:9C:B4:10:FF:61:F2:00:15:AD"
    );
    assert_eq!(fingerprint.len(), 95);
}

#[test]
fn colon_hex_of_few_bytes() {
    assert_eq!(format_colon_hex(&[]), "");
    assert_eq!(format_colon_hex(&[0x0a]), "0A");
    assert_eq!(format_colon_hex(&[0x00, 0xff, 0x1b]), "00:FF:1B");
}

#[test]
fn pinned_verifier_takes_its_certificate_alone() {
    let pin = PinnedCertVerifier::compute_fingerprint(b"the certificate");
    let verifier = PinnedCertVerifier::new(Some(pin.clone()));
    assert!(verifier.verify_server_cert(b"the certificate").is_ok());
    let err = verifier.verify_server_cert(b"another certificate").unwrap_err();
    assert!(err.starts_with("Certificate pinning failed: expected "));
    assert!(err.contains(&pin));
    let open = PinnedCertVerifier::new(None);
    assert!(open.verify_server_cert(b"another certificate").is_ok());
}

#[test]
fn pin_of_all_aa_does_not_match_another_leaf() {
    let pinned = Some(vec!["AA"; 32].join(":"));
    let presented = PinnedCertVerifier::compute_fingerprint(b"leaf of the relay");
    let r = check_pin(&pinned, &presented);
    assert!(r.unwrap_err().contains("Certificate pinning failed"));
}
