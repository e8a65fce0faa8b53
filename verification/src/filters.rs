//! Filter configurations and their matching predicates.
//!
//! Every filter kind holds an optional configuration; a filter without one
//! matches nothing (it fails closed). The content filter evaluates a regular
//! expression against the payload read as UTF-8 text; a payload that is not
//! UTF-8, or a pattern that does not compile, matches nothing.

use vstd::prelude::*;

use crate::packet::{Packet, PacketView, Protocol};

verus! {

/// Comparison operand used by the rule vocabulary.
#[derive(Clone, Copy, Debug)]
pub enum Operand {
    Equal,
    LessThan,
    GreaterThan,
}

/// A port comparison rule.
#[derive(Clone, Copy, Debug)]
pub struct PortRule {
    pub port: u16,
    pub operand: Operand,
}

/// A length comparison rule.
#[derive(Clone, Copy, Debug)]
pub struct LengthRule {
    pub length: u32,
    pub operand: Operand,
}

/// How content bytes are compared.
#[derive(Clone, Copy, Debug)]
pub enum ContentMatchType {
    Partial,
    Exact,
}

/// A raw content comparison rule.
#[derive(Clone, Debug)]
pub struct ContentRule {
    pub content: Vec<u8>,
    pub match_type: ContentMatchType,
}

/// Which address of a packet an IP filter inspects.
#[derive(Clone, Copy, Debug)]
pub enum IpFilterDirection {
    Source,
    Destination,
}

/// Configuration of an IP filter: match a packet whose chosen address
/// equals the target string.
#[derive(Clone, Debug)]
pub struct IpFilterConfig {
    pub target_ip: String,
    pub direction: IpFilterDirection,
}

/// Which port of a packet a port filter inspects.
#[derive(Clone, Copy, Debug)]
pub enum PortFilterDirection {
    Source,
    Destination,
}

/// Configuration of a port filter: match a packet whose chosen port equals
/// the target.
#[derive(Clone, Copy, Debug)]
pub struct PortFilterConfig {
    pub target_port: u16,
    pub direction: PortFilterDirection,
}

/// How a length filter compares the packet length to its threshold.
#[derive(Clone, Copy, Debug)]
pub enum LengthFilterDirection {
    Exact,
    LessThan,
    GreaterThan,
}

/// Configuration of a length filter.
#[derive(Clone, Copy, Debug)]
pub struct LengthFilterConfig {
    pub threshold: u32,
    pub direction: LengthFilterDirection,
}

/// Configuration of a protocol filter: match a packet of this protocol.
#[derive(Clone, Copy, Debug)]
pub struct ProtocolFilterConfig {
    pub protocol: Protocol,
}

/// Configuration of a content filter: a regular expression applied to the
/// payload text.
#[derive(Clone, Debug)]
pub struct ContentFilterConfig {
    pub pattern: String,
}

/// The configuration slot of a filter structure; the variant fixes the
/// filter kind, the inner option is the (possibly absent) configuration.
#[derive(Clone, Debug)]
pub enum FilterConfig {
    Ip(Option<IpFilterConfig>),
    Port(Option<PortFilterConfig>),
    Length(Option<LengthFilterConfig>),
    Protocol(Option<ProtocolFilterConfig>),
    Content(Option<ContentFilterConfig>),
}

/// Whether `pattern` compiles as a regular expression. Only the trusted
/// wrapper below gives this name meaning.
pub uninterp spec fn regex_is_valid(pattern: Seq<char>) -> bool;

/// Whether the regular expression `pattern` matches somewhere in `text`.
/// Only the trusted wrapper below gives this name meaning.
pub uninterp spec fn regex_accepts(pattern: Seq<char>, text: Seq<char>) -> bool;

/// The text that `bytes` decode to under UTF-8, if they are valid UTF-8.
/// Only the trusted wrapper below gives this name meaning.
pub uninterp spec fn utf8_decode(bytes: Seq<u8>) -> Option<Seq<char>>;

/// Relies on `regex::Regex::new` and `regex::Regex::is_match`: whether the
/// pattern compiles, and whether the compiled expression matches the text,
/// are functions of the two strings alone.
#[verifier::external_body]
fn regex_match(pattern: &str, text: &str) -> (r: Option<bool>)
    ensures
        r is Some <==> regex_is_valid(pattern@),
        (r matches Some(m) ==> m == regex_accepts(pattern@, text@)),
{
    match regex::Regex::new(pattern) {
        Ok(re) => Some(re.is_match(text)),
        Err(_) => None,
    }
}

/// Relies on `str::from_utf8`: whether the bytes form UTF-8 text, and which
/// text, are functions of the bytes alone.
#[verifier::external_body]
fn utf8_to_string(bytes: &[u8]) -> (r: Option<String>)
    ensures
        r is Some <==> utf8_decode(bytes@) is Some,
        (r matches Some(s) ==> utf8_decode(bytes@) == Some(s@)),
{
    match core::str::from_utf8(bytes) {
        Ok(s) => Some(s.to_owned()),
        Err(_) => None,
    }
}

/// What an IP filter configuration matches: equality of the chosen address.
pub open spec fn spec_ip_matches(c: IpFilterConfig, p: PacketView) -> bool {
    match c.direction {
        IpFilterDirection::Source => p.source_ip == c.target_ip@,
        IpFilterDirection::Destination => p.dest_ip == c.target_ip@,
    }
}

/// What a port filter configuration matches: equality of the chosen port.
pub open spec fn spec_port_matches(c: PortFilterConfig, p: PacketView) -> bool {
    match c.direction {
        PortFilterDirection::Source => p.source_port == c.target_port,
        PortFilterDirection::Destination => p.dest_port == c.target_port,
    }
}

/// What a length filter configuration matches: the packet length compared
/// to the threshold.
pub open spec fn spec_length_matches(c: LengthFilterConfig, p: PacketView) -> bool {
    match c.direction {
        LengthFilterDirection::Exact => p.length == c.threshold,
        LengthFilterDirection::LessThan => p.length < c.threshold,
        LengthFilterDirection::GreaterThan => p.length > c.threshold,
    }
}

/// What a protocol filter configuration matches: protocol equality.
pub open spec fn spec_protocol_matches(c: ProtocolFilterConfig, p: PacketView) -> bool {
    p.protocol == c.protocol
}

/// What a content filter pattern matches: the payload is UTF-8 text, the
/// pattern compiles, and the expression matches that text.
pub open spec fn spec_content_matches(pattern: Seq<char>, payload: Seq<u8>) -> bool {
    match utf8_decode(payload) {
        Some(text) => regex_is_valid(pattern) && regex_accepts(pattern, text),
        None => false,
    }
}

/// What a filter configuration slot matches; an absent configuration
/// matches nothing.
pub open spec fn spec_filter_matches(config: FilterConfig, p: PacketView) -> bool {
    match config {
        FilterConfig::Ip(Some(c)) => spec_ip_matches(c, p),
        FilterConfig::Port(Some(c)) => spec_port_matches(c, p),
        FilterConfig::Length(Some(c)) => spec_length_matches(c, p),
        FilterConfig::Protocol(Some(c)) => spec_protocol_matches(c, p),
        FilterConfig::Content(Some(c)) => spec_content_matches(c.pattern@, p.payload),
        FilterConfig::Ip(None) => false,
        FilterConfig::Port(None) => false,
        FilterConfig::Length(None) => false,
        FilterConfig::Protocol(None) => false,
        FilterConfig::Content(None) => false,
    }
}

/// Evaluate a filter configuration against a packet.
pub fn filter_matches(config: &FilterConfig, packet: &Packet) -> (r: bool)
    ensures
        r == spec_filter_matches(*config, packet@),
{
    match config {
        FilterConfig::Ip(Some(c)) => match c.direction {
            IpFilterDirection::Source => packet.source_ip == c.target_ip,
            IpFilterDirection::Destination => packet.dest_ip == c.target_ip,
        },
        FilterConfig::Port(Some(c)) => match c.direction {
            PortFilterDirection::Source => packet.source_port == c.target_port,
            PortFilterDirection::Destination => packet.dest_port == c.target_port,
        },
        FilterConfig::Length(Some(c)) => match c.direction {
            LengthFilterDirection::Exact => packet.length == c.threshold,
            LengthFilterDirection::LessThan => packet.length < c.threshold,
            LengthFilterDirection::GreaterThan => packet.length > c.threshold,
        },
        FilterConfig::Protocol(Some(c)) => packet.protocol == c.protocol,
        FilterConfig::Content(Some(c)) => match utf8_to_string(packet.payload.as_slice()) {
            Some(text) => match regex_match(c.pattern.as_str(), text.as_str()) {
                Some(m) => m,
                None => false,
            },
            None => false,
        },
        FilterConfig::Ip(None) => false,
        FilterConfig::Port(None) => false,
        FilterConfig::Length(None) => false,
        FilterConfig::Protocol(None) => false,
        FilterConfig::Content(None) => false,
    }
}

} // verus!
