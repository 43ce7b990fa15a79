//! Certificate pinning for the tunnel to the relay: the SHA-256
//! fingerprint of the certificate that the relay presents is held against
//! the fingerprint that was configured.

use crate::hash::{sha256, sha256_digest};
use crate::text::push_char;
use crate::wire::str_eq;
use vstd::prelude::*;

verus! {

/// The upper-case hexadecimal digit of a value below sixteen.
pub open spec fn upper_hex_digit(v: int) -> char {
    if v < 10 {
        ((48 + v) as u8) as char
    } else {
        ((55 + v) as u8) as char
    }
}

/// Bytes in upper-case hexadecimal, two digits a byte, with a colon
/// between every two bytes.
pub open spec fn colon_hex(bytes: Seq<u8>) -> Seq<char>
    decreases bytes.len(),
{
    if bytes.len() == 0 {
        Seq::<char>::empty()
    } else if bytes.len() == 1 {
        seq![upper_hex_digit(bytes[0] as int / 16), upper_hex_digit(bytes[0] as int % 16)]
    } else {
        colon_hex(bytes.drop_last()) + seq![
            ':',
            upper_hex_digit(bytes.last() as int / 16),
            upper_hex_digit(bytes.last() as int % 16),
        ]
    }
}

/// The fingerprint of a certificate: its SHA-256 in upper-case
/// hexadecimal with colons.
pub open spec fn fingerprint_of(certificate: Seq<u8>) -> Seq<char> {
    colon_hex(sha256_digest(certificate))
}

fn upper_digit(v: u8) -> (c: char)
    requires
        v < 16,
    ensures
        c == upper_hex_digit(v as int),
{
    if v < 10 {
        (48 + v) as char
    } else {
        (55 + v) as char
    }
}

/// Bytes in upper-case hexadecimal with colons.
pub fn format_colon_hex(bytes: &[u8]) -> (r: String)
    ensures
        r@ == colon_hex(bytes@),
{
    let mut out = String::new();
    let n = bytes.len();
    let mut i: usize = 0;
    assert(bytes@.take(0) =~= Seq::<u8>::empty());
    while i < n
        invariant
            i <= n,
            n == bytes@.len(),
            out@ == colon_hex(bytes@.take(i as int)),
        decreases n - i,
    {
        let ghost before = out@;
        assert(bytes@.take(i + 1).drop_last() =~= bytes@.take(i as int));
        assert(bytes@.take(i + 1).last() == bytes@[i as int]);
        if i > 0 {
            push_char(&mut out, ':');
        }
        let b = bytes[i];
        push_char(&mut out, upper_digit(b / 16));
        push_char(&mut out, upper_digit(b % 16));
        proof {
            let t = bytes@.take(i + 1);
            if i == 0 {
                assert(t.len() == 1 && t[0] == b);
                assert(out@ =~= colon_hex(t));
            } else {
                assert(out@ =~= before + seq![
                    ':',
                    upper_hex_digit(b as int / 16),
                    upper_hex_digit(b as int % 16),
                ]);
            }
        }
        i = i + 1;
    }
    assert(bytes@.take(n as int) =~= bytes@);
    out
}

/// What pinning answers for a certificate with the fingerprint `got`:
/// nothing stands against it where no fingerprint is pinned or where the
/// pinned one is `got`; else the message names both.
pub open spec fn pin_verdict(pinned: Option<Seq<char>>, got: Seq<char>) -> Option<Seq<char>> {
    match pinned {
        Some(p) => if p == got {
            None
        } else {
            Some("Certificate pinning failed: expected "@ + p + ", got "@ + got)
        },
        None => None,
    }
}

/// Holds the fingerprint of a presented certificate against the pinned
/// one; the message of a mismatch names both.
pub fn check_pin(pinned: &Option<String>, got: &str) -> (r: Result<(), String>)
    ensures
        match pin_verdict(crate::api::opt_string_view(*pinned), got@) {
            None => r is Ok,
            Some(m) => r matches Err(text) && text@ == m,
        },
{
    match pinned {
        Some(p) => {
            if str_eq(p.as_str(), got) {
                Ok(())
            } else {
                Err(
                    "Certificate pinning failed: expected ".to_string().concat(p.as_str()).concat(
                        ", got ",
                    ).concat(got),
                )
            }
        },
        None => Ok(()),
    }
}

/// Verifies the certificate of the relay by its fingerprint.
#[derive(Debug)]
pub struct PinnedCertVerifier {
    pinned_fingerprint: Option<String>,
}

impl PinnedCertVerifier {
    /// The pinned fingerprint, where there is one.
    pub closed spec fn pinned(self) -> Option<Seq<char>> {
        crate::api::opt_string_view(self.pinned_fingerprint)
    }

    /// A verifier that pins the fingerprint, where one is given.
    pub fn new(pinned_fingerprint: Option<String>) -> (r: PinnedCertVerifier)
        ensures
            r.pinned() == crate::api::opt_string_view(pinned_fingerprint),
    {
        PinnedCertVerifier { pinned_fingerprint }
    }

    /// The fingerprint of a certificate.
    pub fn compute_fingerprint(certificate: &[u8]) -> (r: String)
        ensures
            r@ == fingerprint_of(certificate@),
    {
        let digest = sha256(certificate);
        format_colon_hex(digest.as_slice())
    }

    /// Whether the certificate may be trusted as far as pinning goes.
    pub fn verify_server_cert(&self, end_entity: &[u8]) -> (r: Result<(), String>)
        ensures
            match pin_verdict(self.pinned(), fingerprint_of(end_entity@)) {
                None => r is Ok,
                Some(m) => r matches Err(text) && text@ == m,
            },
    {
        let got = PinnedCertVerifier::compute_fingerprint(end_entity);
        check_pin(&self.pinned_fingerprint, got.as_str())
    }
}

} // verus!
