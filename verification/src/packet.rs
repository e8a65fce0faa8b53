//! The packet value type and the printable encoding of payload bytes.
//!
//! A packet is value-like: ownership transfers fully on each handoff between
//! structures. Transfer progress is kept in integer microseconds of simulated
//! time, from `0` to [`PROGRESS_FULL`], in place of a unit-interval fraction.

use vstd::prelude::*;

verus! {

/// Progress value meaning "transfer complete": one full simulated second,
/// counted in microseconds.
pub const PROGRESS_FULL: u64 = 1000000;

/// Progress at which a laterally entering packet starts on a conveyor:
/// half of the full path.
pub const PROGRESS_HALF: u64 = 500000;

/// Correctness label carried by a packet, scored on delivery.
#[derive(Clone, Copy, Debug, PartialEq, Eq, Hash, Structural)]
pub enum PacketLabel {
    Correct,
    Incorrect,
    Unknown,
}

impl Default for PacketLabel {
    /// The default label is `Unknown`.
    fn default() -> (r: Self)
        ensures
            r == PacketLabel::Unknown,
    {
        PacketLabel::Unknown
    }
}

impl PacketLabel {
    /// Decode a raw integer label: `1` is correct, `-1` incorrect, anything
    /// else unknown.
    pub fn from_raw(value: i64) -> (r: Self)
        ensures
            r == Self::spec_from_raw(value),
    {
        if value == 1 {
            PacketLabel::Correct
        } else if value == -1 {
            PacketLabel::Incorrect
        } else {
            PacketLabel::Unknown
        }
    }

    pub open spec fn spec_from_raw(value: i64) -> Self {
        if value == 1 {
            PacketLabel::Correct
        } else if value == -1 {
            PacketLabel::Incorrect
        } else {
            PacketLabel::Unknown
        }
    }

    /// Encode the label as the raw integer that [`Self::from_raw`] accepts.
    pub fn to_raw(self) -> (r: i64)
        ensures
            r == self.spec_to_raw(),
    {
        match self {
            PacketLabel::Correct => 1,
            PacketLabel::Incorrect => -1,
            PacketLabel::Unknown => 0,
        }
    }

    pub open spec fn spec_to_raw(self) -> i64 {
        match self {
            PacketLabel::Correct => 1i64,
            PacketLabel::Incorrect => -1i64,
            PacketLabel::Unknown => 0i64,
        }
    }
}

/// Transport protocol of a packet.
#[derive(Clone, Copy, Debug, PartialEq, Eq, Hash, Structural)]
pub enum Protocol {
    Tcp,
    Udp,
    Unknown,
}

impl Protocol {
    /// Decode an IP protocol number: `6` is TCP, `17` UDP, anything else
    /// unknown.
    pub fn from_ip_number(value: u8) -> (r: Self)
        ensures
            r == Self::spec_from_ip_number(value),
    {
        if value == 6 {
            Protocol::Tcp
        } else if value == 17 {
            Protocol::Udp
        } else {
            Protocol::Unknown
        }
    }

    pub open spec fn spec_from_ip_number(value: u8) -> Self {
        if value == 6 {
            Protocol::Tcp
        } else if value == 17 {
            Protocol::Udp
        } else {
            Protocol::Unknown
        }
    }
}

/// A network packet travelling through the factory.
#[derive(Debug)]
pub struct Packet {
    pub source_ip: String,
    pub dest_ip: String,
    pub source_port: u16,
    pub dest_port: u16,
    pub protocol: Protocol,
    pub length: u32,
    pub payload: Vec<u8>,
    /// Transfer progress in microseconds, `0..=PROGRESS_FULL`.
    pub progress: u64,
    pub label: PacketLabel,
}

/// Spec-level image of a packet: strings and byte vectors as sequences.
pub struct PacketView {
    pub source_ip: Seq<char>,
    pub dest_ip: Seq<char>,
    pub source_port: u16,
    pub dest_port: u16,
    pub protocol: Protocol,
    pub length: u32,
    pub payload: Seq<u8>,
    pub progress: u64,
    pub label: PacketLabel,
}

impl View for Packet {
    type V = PacketView;

    open spec fn view(&self) -> PacketView {
        PacketView {
            source_ip: self.source_ip@,
            dest_ip: self.dest_ip@,
            source_port: self.source_port,
            dest_port: self.dest_port,
            protocol: self.protocol,
            length: self.length,
            payload: self.payload@,
            progress: self.progress,
            label: self.label,
        }
    }
}

impl Clone for Packet {
    /// The copy carries the same data as the original.
    fn clone(&self) -> (r: Self)
        ensures
            r@ == self@,
    {
        let r = Packet {
            source_ip: self.source_ip.clone(),
            dest_ip: self.dest_ip.clone(),
            source_port: self.source_port,
            dest_port: self.dest_port,
            protocol: self.protocol,
            length: self.length,
            payload: self.payload.clone(),
            progress: self.progress,
            label: self.label,
        };
        proof {
            assert(r.payload@ =~= self.payload@);
            assert(r@ =~= self@);
        }
        r
    }
}

impl Packet {
    /// Build a packet with progress `0` and the default (`Unknown`) label.
    pub fn new(
        source_ip: String,
        dest_ip: String,
        source_port: u16,
        dest_port: u16,
        protocol: Protocol,
        length: u32,
        payload: Vec<u8>,
    ) -> (r: Self)
        ensures
            r@ == (PacketView {
                source_ip: source_ip@,
                dest_ip: dest_ip@,
                source_port: source_port,
                dest_port: dest_port,
                protocol: protocol,
                length: length,
                payload: payload@,
                progress: 0u64,
                label: PacketLabel::Unknown,
            }),
    {
        Self {
            source_ip,
            dest_ip,
            source_port,
            dest_port,
            protocol,
            length,
            payload,
            progress: 0,
            label: PacketLabel::Unknown,
        }
    }

    /// The payload rendered as an ASCII string, with non-printable bytes
    /// escaped as in [`encode_payload_bytes`].
    pub fn payload_to_string(&self) -> (r: String)
        ensures
            r@ == encode_payload_spec(self.payload@).map_values(|b: u8| b as char),
    {
        encode_payload_bytes(self.payload.as_slice())
    }
}

/// ASCII code of the hexadecimal digit for `n < 16`, lower case.
pub open spec fn spec_hex_digit(n: u8) -> u8 {
    if n < 10 {
        (48 + n) as u8
    } else {
        (87 + n) as u8
    }
}

/// The escape sequence (as ASCII bytes) that one payload byte encodes to.
pub open spec fn spec_encoded_byte(b: u8) -> Seq<u8> {
    if b == 92 {
        seq![92u8, 92u8]
    } else if b == 10 {
        seq![92u8, 110u8]
    } else if b == 13 {
        seq![92u8, 114u8]
    } else if b == 9 {
        seq![92u8, 116u8]
    } else if b == 0 {
        seq![92u8, 48u8]
    } else if 0x20 <= b && b <= 0x7E {
        seq![b]
    } else {
        seq![92u8, 120u8, spec_hex_digit(b >> 4), spec_hex_digit((b & 0x0F) as u8)]
    }
}

/// The printable encoding of a byte sequence: each byte's escape sequence,
/// concatenated in order.
pub open spec fn encode_payload_spec(bytes: Seq<u8>) -> Seq<u8>
    decreases bytes.len(),
{
    if bytes.len() == 0 {
        Seq::empty()
    } else {
        encode_payload_spec(bytes.drop_last()) + spec_encoded_byte(bytes.last())
    }
}

/// Relies on `String::from_utf8`: a vector of ASCII bytes decodes to the
/// string with exactly one `char` per byte.
#[verifier::external_body]
fn ascii_string(bytes: Vec<u8>) -> (r: String)
    requires
        forall|i: int| 0 <= i < bytes@.len() ==> bytes@[i] < 128,
    ensures
        r@ == bytes@.map_values(|b: u8| b as char),
{
    String::from_utf8(bytes).unwrap_or_default()
}

/// Encode raw bytes into an ASCII string: printable ASCII is kept, the
/// escapes `\\`, `\n`, `\r`, `\t` and `\0` are written by name, and every
/// other byte as `\xHH` with lower-case hexadecimal digits.
pub fn encode_payload_bytes(bytes: &[u8]) -> (r: String)
    ensures
        r@ == encode_payload_spec(bytes@).map_values(|b: u8| b as char),
{
    let mut out: Vec<u8> = Vec::new();
    let n = bytes.len();
    let mut i: usize = 0;
    while i < n
        invariant
            n == bytes@.len(),
            i <= n,
            out@ == encode_payload_spec(bytes@.take(i as int)),
            forall|j: int| 0 <= j < out@.len() ==> out@[j] < 128,
        decreases n - i,
    {
        let b = bytes[i];
        proof {
            assert(bytes@.take(i + 1).drop_last() =~= bytes@.take(i as int));
            assert(bytes@.take(i + 1).last() == b);
        }
        if b == 92 {
            out.push(92);
            out.push(92);
        } else if b == 10 {
            out.push(92);
            out.push(110);
        } else if b == 13 {
            out.push(92);
            out.push(114);
        } else if b == 9 {
            out.push(92);
            out.push(116);
        } else if b == 0 {
            out.push(92);
            out.push(48);
        } else if 0x20 <= b && b <= 0x7E {
            out.push(b);
        } else {
            proof {
                assert((b >> 4) < 16 && (b & 0x0F) < 16) by (bit_vector);
            }
            out.push(92);
            out.push(120);
            out.push(hex_digit(b >> 4));
            out.push(hex_digit(b & 0x0F));
        }
        proof {
            assert(out@ =~= encode_payload_spec(bytes@.take(i + 1)));
        }
        i = i + 1;
    }
    proof {
        assert(bytes@.take(n as int) =~= bytes@);
    }
    ascii_string(out)
}

/// Lower-case hexadecimal digit for `n < 16`.
fn hex_digit(n: u8) -> (r: u8)
    requires
        n < 16,
    ensures
        r == spec_hex_digit(n),
{
    if n < 10 {
        48 + n
    } else {
        87 + n
    }
}

} // verus!
