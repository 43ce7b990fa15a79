//! The link to the relay: packets travel through a TLS tunnel, each in a
//! frame of four bytes of length, most significant first, and the packet
//! on the wire. The tunnel itself is the concern of the embedding program.

use crate::packet::{packet_wire, Packet, PacketView};
use crate::transport::dtls::{check_pin, pin_verdict};
use crate::transport::{TransportError, TransportType};
use crate::wire::append_bytes;
use vstd::prelude::*;

verus! {

/// Most bytes of a packet in a frame.
pub const MAX_FRAME_PAYLOAD: usize = 131072;

/// How the link to the relay is set up.
#[derive(Debug)]
pub struct UdpTransportConfig {
    /// Host and port of the relay.
    pub relay_url: String,
    /// SHA-256 fingerprint of the certificate of the relay, in upper-case
    /// hexadecimal with colons, where it is pinned.
    pub pinned_cert_fingerprint: Option<String>,
    /// Whether TLS is switched off, which is for tests alone: a link
    /// without TLS sends and hears nothing.
    pub tls_disabled: bool,
}

impl Default for UdpTransportConfig {
    fn default() -> (r: UdpTransportConfig)
        ensures
            r.relay_url@ == "i-am-ok-relay.fly.dev:40100"@,
            r.pinned_cert_fingerprint is None,
            !r.tls_disabled,
    {
        UdpTransportConfig {
            relay_url: "i-am-ok-relay.fly.dev:40100".to_string(),
            pinned_cert_fingerprint: None,
            tls_disabled: false,
        }
    }
}

/// The link to the relay.
#[derive(Debug)]
pub struct UdpTransport {
    pub config: UdpTransportConfig,
}

/// A frame: four bytes of length, most significant first, and the bytes.
pub open spec fn frame_of(payload: Seq<u8>) -> Seq<u8> {
    seq![
        (payload.len() / 0x100_0000) as u8,
        (payload.len() / 0x1_0000 % 0x100) as u8,
        (payload.len() / 0x100 % 0x100) as u8,
        (payload.len() % 0x100) as u8,
    ] + payload
}

/// The length that the head of a frame names.
pub open spec fn frame_length(head: Seq<u8>) -> int {
    head[0] * 0x100_0000 + head[1] * 0x1_0000 + head[2] * 0x100 + head[3]
}

/// The place of the first colon of a text, where it has one.
pub open spec fn first_colon(text: Seq<char>) -> Option<int>
    decreases text.len(),
{
    if text.len() == 0 {
        None
    } else {
        match first_colon(text.drop_last()) {
            Some(i) => Some(i),
            None => if text.last() == ':' {
                Some(text.len() - 1)
            } else {
                None
            },
        }
    }
}

/// The part of an address before its first colon; all of it where it
/// has none.
pub open spec fn host_part(url: Seq<char>) -> Seq<char> {
    match first_colon(url) {
        Some(i) => url.take(i),
        None => url,
    }
}

impl UdpTransport {
    /// The link to the relay of the project, with TLS and without a
    /// pinned certificate.
    pub fn new() -> (r: UdpTransport)
        ensures
            r.config.relay_url@ == "i-am-ok-relay.fly.dev:40100"@,
            r.config.pinned_cert_fingerprint is None,
            !r.config.tls_disabled,
    {
        UdpTransport { config: UdpTransportConfig::default() }
    }

    /// The link that `config` sets up.
    pub fn with_config(config: UdpTransportConfig) -> (r: UdpTransport)
        ensures
            r.config == config,
    {
        UdpTransport { config }
    }

    /// Kind of the link.
    pub fn transport_type(&self) -> (r: TransportType)
        ensures
            r == TransportType::Udp,
    {
        TransportType::Udp
    }

    /// Whether the link may be used at all: not without TLS. Whether the
    /// relay can be reached is for the embedding program to find out.
    pub fn may_be_available(&self) -> (r: bool)
        ensures
            r == !self.config.tls_disabled,
    {
        !self.config.tls_disabled
    }

    /// Holds the fingerprint of the certificate that the relay presented
    /// against the pinned one. Without a pinned fingerprint every
    /// certificate passes.
    pub fn verify_certificate_pin(&self, cert_fingerprint: &str) -> (r: Result<
        (),
        TransportError,
    >)
        ensures
            match pin_verdict(
                crate::api::opt_string_view(self.config.pinned_cert_fingerprint),
                cert_fingerprint@,
            ) {
                None => r is Ok,
                Some(m) => r matches Err(TransportError::SecurityError(text)) && text@ == m,
            },
    {
        match check_pin(&self.config.pinned_cert_fingerprint, cert_fingerprint) {
            Ok(()) => Ok(()),
            Err(m) => Err(TransportError::SecurityError(m)),
        }
    }

    /// The host of the relay: the address up to its first colon.
    pub fn relay_host(&self) -> (r: String)
        ensures
            r@ == host_part(self.config.relay_url@),
    {
        let url = self.config.relay_url.as_str();
        let n = url.unicode_len();
        let ghost s = url@;
        let mut i: usize = 0;
        while i < n
            invariant
                i <= n,
                n == s.len(),
                s == url@,
                url@ == self.config.relay_url@,
                first_colon(s.take(i as int)) is None,
            decreases n - i,
        {
            assert(s.take(i + 1).drop_last() =~= s.take(i as int));
            assert(s.take(i + 1).last() == s[i as int]);
            if url.get_char(i) == ':' {
                proof {
                    assert(first_colon(s.take(i + 1)) == Some(i as int));
                    lemma_first_colon_prefix(s, i + 1);
                    assert(first_colon(s) == Some(i as int));
                    assert(host_part(s) == s.take(i as int));
                }
                let host = url.substring_char(0, i);
                assert(s.subrange(0, i as int) =~= s.take(i as int));
                return host.to_string();
            }
            i = i + 1;
        }
        assert(s.take(n as int) =~= s);
        url.to_string()
    }

    /// The frame of bytes, where they are few enough for a frame.
    pub fn frame(payload: &[u8]) -> (r: Option<Vec<u8>>)
        ensures
            r is Some <==> payload@.len() <= MAX_FRAME_PAYLOAD,
            r matches Some(f) ==> f@ == frame_of(payload@),
    {
        let n = payload.len();
        if n > MAX_FRAME_PAYLOAD {
            return None;
        }
        let mut out: Vec<u8> = Vec::new();
        out.push((n / 0x100_0000) as u8);
        out.push((n / 0x1_0000 % 0x100) as u8);
        out.push((n / 0x100 % 0x100) as u8);
        out.push((n % 0x100) as u8);
        append_bytes(&mut out, payload);
        assert(out@ =~= frame_of(payload@));
        Some(out)
    }

    /// The number of bytes that follow the head of a frame; a frame of
    /// more than 128 KB is refused.
    pub fn read_frame_length(head: &[u8; 4]) -> (r: Result<usize, TransportError>)
        ensures
            match r {
                Ok(n) => n == frame_length(head@) && n <= MAX_FRAME_PAYLOAD,
                Err(e) => frame_length(head@) > MAX_FRAME_PAYLOAD && e is ReceiveFailed,
            },
    {
        let n: u64 = (head[0] as u64) * 0x100_0000 + (head[1] as u64) * 0x1_0000 + (
        head[2] as u64) * 0x100 + (head[3] as u64);
        if n > MAX_FRAME_PAYLOAD as u64 {
            return Err(TransportError::ReceiveFailed("Packet too large".to_string()));
        }
        Ok(n as usize)
    }

    /// The frame that carries a packet to the relay. Nothing is sent
    /// without TLS; a packet that cannot be written or is too large for a
    /// frame is not sent.
    pub fn prepare_send(&self, packet: &Packet) -> (r: Result<Vec<u8>, TransportError>)
        ensures
            match r {
                Ok(f) => !self.config.tls_disabled && packet_wire(packet@) is Some && f@
                    == frame_of(packet_wire(packet@)->0) && packet_wire(packet@)->0.len()
                    <= MAX_FRAME_PAYLOAD,
                Err(e) => if self.config.tls_disabled {
                    e is SecurityError
                } else {
                    e is SendFailed && (packet_wire(packet@) is None || packet_wire(
                        packet@,
                    )->0.len() > MAX_FRAME_PAYLOAD)
                },
            },
    {
        if self.config.tls_disabled {
            return Err(TransportError::SecurityError("TLS is required for production".to_string()));
        }
        let bytes = match packet.to_bytes() {
            Ok(b) => b,
            Err(_) => {
                return Err(TransportError::SendFailed("Serialization failed".to_string()));
            },
        };
        match UdpTransport::frame(bytes.as_slice()) {
            Some(f) => Ok(f),
            None => Err(TransportError::SendFailed("Packet too large".to_string())),
        }
    }

    /// Whether the link may listen: not without TLS.
    pub fn prepare_listen(&self) -> (r: Result<(), TransportError>)
        ensures
            r is Ok <==> !self.config.tls_disabled,
            r matches Err(e) ==> e is SecurityError,
    {
        if self.config.tls_disabled {
            return Err(TransportError::SecurityError("TLS is required for production".to_string()));
        }
        Ok(())
    }

    /// The packet that a frame carried, where it carried one.
    pub fn read_frame_payload(payload: &[u8]) -> (r: Option<Packet>)
        ensures
            r matches Some(p) ==> crate::packet::from_bytes_verdict(payload@) == Ok::<
                PacketView,
                crate::packet::PacketError,
            >(p@),
            r is None ==> crate::packet::from_bytes_verdict(payload@) is Err,
    {
        match Packet::from_bytes(payload) {
            Ok(p) => Some(p),
            Err(_) => None,
        }
    }
}

proof fn lemma_first_colon_prefix(s: Seq<char>, n: int)
    requires
        0 <= n <= s.len(),
        first_colon(s.take(n)) is Some,
    ensures
        first_colon(s) == first_colon(s.take(n)),
    decreases s.len() - n,
{
    if n < s.len() {
        assert(s.take(n + 1).drop_last() =~= s.take(n));
        lemma_first_colon_prefix(s, n + 1);
    } else {
        assert(s.take(n) =~= s);
    }
}

} // verus!
