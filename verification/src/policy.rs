//! Policy: the limits that the environment puts on messages and links.

use crate::message::{Message, MessagePayload, MessageType, PayloadView};
use crate::transport::TransportType;
use crate::wire::utf8_len;
use vstd::prelude::*;
use vstd::utf8::*;

verus! {

/// Bytes of voice that count as one second.
pub const VOICE_BYTES_PER_SECOND: usize = 8000;

/// A set of kinds of link.
#[derive(Clone, Copy, Debug, PartialEq, Eq, Structural)]
pub struct TransportSet {
    pub ble: bool,
    pub wifi_direct: bool,
    pub udp: bool,
    pub satellite: bool,
}

impl TransportSet {
    /// Whether the set holds `t`.
    pub open spec fn has(self, t: TransportType) -> bool {
        match t {
            TransportType::Ble => self.ble,
            TransportType::WifiDirect => self.wifi_direct,
            TransportType::Udp => self.udp,
            TransportType::Satellite => self.satellite,
        }
    }

    /// The set with `t` put in.
    pub open spec fn with(self, t: TransportType) -> TransportSet {
        match t {
            TransportType::Ble => TransportSet { ble: true, ..self },
            TransportType::WifiDirect => TransportSet { wifi_direct: true, ..self },
            TransportType::Udp => TransportSet { udp: true, ..self },
            TransportType::Satellite => TransportSet { satellite: true, ..self },
        }
    }

    /// The set with `t` taken out.
    pub open spec fn without(self, t: TransportType) -> TransportSet {
        match t {
            TransportType::Ble => TransportSet { ble: false, ..self },
            TransportType::WifiDirect => TransportSet { wifi_direct: false, ..self },
            TransportType::Udp => TransportSet { udp: false, ..self },
            TransportType::Satellite => TransportSet { satellite: false, ..self },
        }
    }

    /// The empty set.
    pub fn empty() -> (s: TransportSet)
        ensures
            s == (TransportSet { ble: false, wifi_direct: false, udp: false, satellite: false }),
    {
        TransportSet { ble: false, wifi_direct: false, udp: false, satellite: false }
    }

    /// The set of every kind of link.
    pub fn all() -> (s: TransportSet)
        ensures
            s == (TransportSet { ble: true, wifi_direct: true, udp: true, satellite: true }),
    {
        TransportSet { ble: true, wifi_direct: true, udp: true, satellite: true }
    }

    /// Whether the set holds `t`.
    pub fn contains(&self, t: &TransportType) -> (r: bool)
        ensures
            r == self.has(*t),
    {
        match t {
            TransportType::Ble => self.ble,
            TransportType::WifiDirect => self.wifi_direct,
            TransportType::Udp => self.udp,
            TransportType::Satellite => self.satellite,
        }
    }

    /// Puts `t` into the set. Answers whether it was new.
    pub fn insert(&mut self, t: TransportType) -> (r: bool)
        ensures
            r == !old(self).has(t),
            *final(self) == old(self).with(t),
    {
        let was = self.contains(&t);
        match t {
            TransportType::Ble => {
                self.ble = true;
            },
            TransportType::WifiDirect => {
                self.wifi_direct = true;
            },
            TransportType::Udp => {
                self.udp = true;
            },
            TransportType::Satellite => {
                self.satellite = true;
            },
        }
        !was
    }

    /// Takes `t` out of the set. Answers whether it was there.
    pub fn remove(&mut self, t: &TransportType) -> (r: bool)
        ensures
            r == old(self).has(*t),
            *final(self) == old(self).without(*t),
    {
        let was = self.contains(t);
        match t {
            TransportType::Ble => {
                self.ble = false;
            },
            TransportType::WifiDirect => {
                self.wifi_direct = false;
            },
            TransportType::Udp => {
                self.udp = false;
            },
            TransportType::Satellite => {
                self.satellite = false;
            },
        }
        was
    }
}

/// Putting a kind in makes the set hold it and changes nothing else;
/// taking it out makes the set lack it and changes nothing else.
pub proof fn lemma_transport_set_membership(s: TransportSet, t: TransportType, u: TransportType)
    ensures
        s.with(t).has(u) == (u == t || s.has(u)),
        s.without(t).has(u) == (u != t && s.has(u)),
{
}

/// The limits of one environment.
#[derive(Clone, Copy, Debug, PartialEq, Eq, Structural)]
pub struct Policy {
    /// Most bytes of a text message.
    pub max_text_size: usize,
    /// Most seconds of a voice message.
    pub max_voice_seconds: u8,
    /// Most messages that are kept.
    pub max_stored_messages: usize,
    /// The kinds of link that may be used.
    pub allowed_transports: TransportSet,
    /// Whether a status goes before everything else.
    pub prioritize_status: bool,
    /// Longest life of a message, in seconds.
    pub max_ttl_seconds: u32,
    /// Most hops of a packet.
    pub max_hops: u32,
    /// Whether data is compressed.
    pub enable_compression: bool,
    /// Whether expired data is removed without being asked.
    pub enable_auto_cleanup: bool,
}

/// Why the policy denies something.
#[derive(Debug)]
pub enum PolicyError {
    /// The text has the first number of bytes; the second is the limit.
    TextTooLong(usize, usize),
    /// The voice lasts the first number of seconds; the second is the limit.
    VoiceTooLong(u8, u8),
    /// The kind of link may not be used.
    TransportNotAllowed(TransportType),
    /// Another violation.
    Violation(String),
}

impl PolicyError {
    /// The error in words.
    pub open spec fn words(self) -> Seq<char> {
        match self {
            PolicyError::TextTooLong(_, _) => "Text too long"@,
            PolicyError::VoiceTooLong(_, _) => "Voice too long"@,
            PolicyError::TransportNotAllowed(_) => "Transport not allowed"@,
            PolicyError::Violation(m) => "Policy violation: "@ + m@,
        }
    }

    /// The error in words, as a text.
    pub fn to_string(&self) -> (r: String)
        ensures
            r@ == self.words(),
    {
        match self {
            PolicyError::TextTooLong(_, _) => "Text too long".to_string(),
            PolicyError::VoiceTooLong(_, _) => "Voice too long".to_string(),
            PolicyError::TransportNotAllowed(_) => "Transport not allowed".to_string(),
            PolicyError::Violation(m) => "Policy violation: ".to_string().concat(m.as_str()),
        }
    }
}

/// The seconds that a voice clip of `len` bytes is taken to last: one
/// second for every 8000 bytes begun and finished, and no more than 255.
pub open spec fn voice_seconds(len: nat) -> u8 {
    if len / (VOICE_BYTES_PER_SECOND as nat) > 255 {
        255u8
    } else {
        (len / (VOICE_BYTES_PER_SECOND as nat)) as u8
    }
}

impl Policy {
    /// The civilian policy, which is the default.
    pub open spec fn spec_default() -> Policy {
        Policy {
            max_text_size: 256,
            max_voice_seconds: 7,
            max_stored_messages: 1000,
            allowed_transports: TransportSet {
                ble: true,
                wifi_direct: true,
                udp: true,
                satellite: true,
            },
            prioritize_status: false,
            max_ttl_seconds: 3600,
            max_hops: 10,
            enable_compression: true,
            enable_auto_cleanup: true,
        }
    }

    /// The military policy: tighter sizes and lifetimes, radio and
    /// satellite only, status first.
    pub open spec fn spec_military() -> Policy {
        Policy {
            max_text_size: 128,
            max_voice_seconds: 3,
            max_stored_messages: 100,
            allowed_transports: TransportSet {
                ble: true,
                wifi_direct: false,
                udp: false,
                satellite: true,
            },
            prioritize_status: true,
            max_ttl_seconds: 1800,
            max_hops: 5,
            enable_compression: true,
            enable_auto_cleanup: true,
        }
    }

    /// The collapse policy: the least of everything, radio only, no voice.
    pub open spec fn spec_collapse() -> Policy {
        Policy {
            max_text_size: 64,
            max_voice_seconds: 0,
            max_stored_messages: 50,
            allowed_transports: TransportSet {
                ble: true,
                wifi_direct: false,
                udp: false,
                satellite: false,
            },
            prioritize_status: true,
            max_ttl_seconds: 900,
            max_hops: 3,
            enable_compression: false,
            enable_auto_cleanup: true,
        }
    }

    /// The offline policy: the civilian one without the links that need
    /// the internet or a satellite, and with half the store.
    pub open spec fn spec_offline() -> Policy {
        Policy {
            max_stored_messages: 500,
            allowed_transports: TransportSet {
                ble: true,
                wifi_direct: true,
                udp: false,
                satellite: false,
            },
            ..Policy::spec_default()
        }
    }

    /// The civilian policy.
    pub fn default() -> (p: Policy)
        ensures
            p == Policy::spec_default(),
    {
        Policy {
            max_text_size: 256,
            max_voice_seconds: 7,
            max_stored_messages: 1000,
            allowed_transports: TransportSet::all(),
            prioritize_status: false,
            max_ttl_seconds: 3600,
            max_hops: 10,
            enable_compression: true,
            enable_auto_cleanup: true,
        }
    }

    /// The military policy.
    pub fn military() -> (p: Policy)
        ensures
            p == Policy::spec_military(),
    {
        let mut allowed = TransportSet::empty();
        allowed.insert(TransportType::Ble);
        allowed.insert(TransportType::Satellite);
        Policy {
            max_text_size: 128,
            max_voice_seconds: 3,
            max_stored_messages: 100,
            allowed_transports: allowed,
            prioritize_status: true,
            max_ttl_seconds: 1800,
            max_hops: 5,
            enable_compression: true,
            enable_auto_cleanup: true,
        }
    }

    /// The collapse policy.
    pub fn collapse() -> (p: Policy)
        ensures
            p == Policy::spec_collapse(),
    {
        let mut allowed = TransportSet::empty();
        allowed.insert(TransportType::Ble);
        Policy {
            max_text_size: 64,
            max_voice_seconds: 0,
            max_stored_messages: 50,
            allowed_transports: allowed,
            prioritize_status: true,
            max_ttl_seconds: 900,
            max_hops: 3,
            enable_compression: false,
            enable_auto_cleanup: true,
        }
    }

    /// The offline policy.
    pub fn offline() -> (p: Policy)
        ensures
            p == Policy::spec_offline(),
    {
        let mut policy = Policy::default();
        policy.allowed_transports.remove(&TransportType::Udp);
        policy.allowed_transports.remove(&TransportType::Satellite);
        policy.max_stored_messages = 500;
        policy
    }

    /// Whether the policy lets the kind of link be used.
    pub fn is_transport_allowed(&self, transport: &TransportType) -> (r: bool)
        ensures
            r == self.allowed_transports.has(*transport),
    {
        self.allowed_transports.contains(transport)
    }

    /// Whether the text keeps the limit of the policy; the error names the
    /// length in bytes and the limit.
    pub fn validate_text_size(&self, text: &str) -> (r: Result<(), PolicyError>)
        ensures
            r is Ok <==> encode_utf8(text@).len() <= self.max_text_size,
            r matches Err(e) ==> e matches PolicyError::TextTooLong(len, max) && len
                == encode_utf8(text@).len() && max == self.max_text_size,
    {
        let n = utf8_len(text);
        if n > self.max_text_size {
            return Err(PolicyError::TextTooLong(n, self.max_text_size));
        }
        Ok(())
    }

    /// Whether a voice of that many seconds keeps the limit of the
    /// policy; the error names the seconds and the limit.
    pub fn validate_voice_length(&self, seconds: u8) -> (r: Result<(), PolicyError>)
        ensures
            r is Ok <==> seconds <= self.max_voice_seconds,
            r matches Err(e) ==> e matches PolicyError::VoiceTooLong(s, max) && s == seconds
                && max == self.max_voice_seconds,
    {
        if seconds > self.max_voice_seconds {
            return Err(PolicyError::VoiceTooLong(seconds, self.max_voice_seconds));
        }
        Ok(())
    }

    /// Whether the store holds more than the policy keeps.
    pub fn should_cleanup_storage(&self, current_count: usize) -> (r: bool)
        ensures
            r == (current_count > self.max_stored_messages),
    {
        current_count > self.max_stored_messages
    }

    /// The rank of a kind of message: voice 0, text 1, status 1, or 2
    /// where the policy puts status first.
    pub fn get_message_priority(&self, message_type: &MessageType) -> (r: u8)
        ensures
            r == match *message_type {
                MessageType::Status => if self.prioritize_status {
                    2u8
                } else {
                    1u8
                },
                MessageType::Text => 1u8,
                MessageType::Voice => 0u8,
            },
    {
        match message_type {
            MessageType::Status => {
                if self.prioritize_status {
                    2
                } else {
                    1
                }
            },
            MessageType::Text => 1,
            MessageType::Voice => 0,
        }
    }

    /// Whether the policy lets a payload out.
    pub open spec fn admits(self, p: PayloadView) -> bool {
        match p {
            PayloadView::Status(_) => true,
            PayloadView::Text(t) => encode_utf8(t).len() <= self.max_text_size,
            PayloadView::Voice(v) => voice_seconds(v.len()) <= self.max_voice_seconds,
        }
    }
}

impl Default for Policy {
    fn default() -> (p: Policy)
        ensures
            p == Policy::spec_default(),
    {
        Policy::default()
    }
}

/// Holds the policy in force.
#[derive(Clone, Copy, Debug)]
pub struct PolicyManager {
    current_policy: Policy,
}

impl PolicyManager {
    /// The policy in force.
    pub closed spec fn policy(self) -> Policy {
        self.current_policy
    }

    /// A manager with the civilian policy in force.
    pub fn new() -> (m: PolicyManager)
        ensures
            m.policy() == Policy::spec_default(),
    {
        PolicyManager { current_policy: Policy::default() }
    }

    /// Puts `policy` in force.
    pub fn set_policy(&mut self, policy: Policy)
        ensures
            final(self).policy() == policy,
    {
        self.current_policy = policy;
    }

    /// The policy in force.
    pub fn get_policy(&self) -> (p: &Policy)
        ensures
            *p == self.policy(),
    {
        &self.current_policy
    }

    /// Chooses the policy from the conditions. No condition is read yet:
    /// the civilian policy is put in force.
    pub fn auto_detect_policy(&mut self)
        ensures
            final(self).policy() == Policy::spec_default(),
    {
        self.current_policy = Policy::default();
    }

    /// Whether the policy in force lets the message out. A status always
    /// passes; a text is held to the text limit; a voice clip is held to
    /// the voice limit, at 8000 bytes a second.
    pub fn validate_message(&self, message: &Message) -> (r: Result<(), PolicyError>)
        ensures
            r is Ok <==> self.policy().admits(message@.payload),
            r matches Err(e) ==> match message@.payload {
                PayloadView::Status(_) => false,
                PayloadView::Text(t) => e matches PolicyError::TextTooLong(len, max) && len
                    == encode_utf8(t).len() && max == self.policy().max_text_size,
                PayloadView::Voice(v) => e matches PolicyError::VoiceTooLong(s, max) && s
                    == voice_seconds(v.len()) && max == self.policy().max_voice_seconds,
            },
    {
        match &message.payload {
            MessagePayload::Text(text) => self.current_policy.validate_text_size(text.as_str()),
            MessagePayload::Voice(data) => {
                let whole = data.len() / VOICE_BYTES_PER_SECOND;
                let estimated: u8 = if whole > 255 {
                    255
                } else {
                    whole as u8
                };
                self.current_policy.validate_voice_length(estimated)
            },
            MessagePayload::Status(_) => Ok(()),
        }
    }
}

impl Default for PolicyManager {
    fn default() -> (m: PolicyManager)
        ensures
            m.policy() == Policy::spec_default(),
    {
        PolicyManager::new()
    }
}

} // verus!
