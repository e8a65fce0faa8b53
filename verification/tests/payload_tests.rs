//! Payload encoding, decoding, timestamp and label parsing.

use packet_factory::packet::{encode_payload_bytes, Packet, PacketLabel, Protocol};
use packet_factory::traffic::{decode_payload, normalize_timestamp, parse_label_value};

#[test]
fn encode_payload_bytes_printable_and_binary() {
    let data = b"Hi\\x";
    assert_eq!(encode_payload_bytes(data), "Hi\\\\x");

    let data = [0x48, 0x65, 0x6C, 0x6C, 0x6F, 0x00, 0xFF];
    assert_eq!(encode_payload_bytes(&data), "Hello\\0\\xff");

    let data = b"Line1\nLine2\t";
    assert_eq!(encode_payload_bytes(data), "Line1\\nLine2\\t");
}

#[test]
fn packet_payload_to_string_uses_encoder() {
    let packet = Packet::new(
        "s".to_string(),
        "d".to_string(),
        1,
        2,
        Protocol::Tcp,
        0,
        vec![0x41, 0x00, 0x0A],
    );
    assert_eq!(packet.payload_to_string(), "A\\0\\n");
}

#[test]
fn normalize_timestamp_with_baseline() {
    assert_eq!(normalize_timestamp(2_000, Some(1_500)), 500);
    assert_eq!(normalize_timestamp(2_000, None), 2_000);
}

#[test]
fn decode_payload_supports_mixed_ascii_and_hex() {
    let encoded = "Hello\\x20World\\x21";
    let expected = b"Hello World!".to_vec();
    assert_eq!(decode_payload(encoded), Some(expected));
}

#[test]
fn decode_payload_handles_escape_sequences() {
    let encoded = "Line1\\nLine2";
    assert_eq!(decode_payload(encoded), Some(b"Line1\nLine2".to_vec()));
}

#[test]
fn decode_payload_rejects_invalid_hex() {
    assert_eq!(decode_payload("\\xZZ"), None);
    assert_eq!(decode_payload("\\x1"), None);
}

#[test]
fn decode_payload_round_trips_the_encoder() {
    let data: Vec<u8> = vec![0x00, 0x09, 0x0A, 0x0D, 0x20, 0x41, 0x5C, 0x7E, 0x7F, 0xFF];
    let encoded = encode_payload_bytes(&data);
    assert_eq!(decode_payload(&encoded), Some(data));
}

#[test]
fn parse_label_value_ignores_ascii_case() {
    assert_eq!(parse_label_value("correct"), Some(PacketLabel::Correct));
    assert_eq!(parse_label_value("Incorrect"), Some(PacketLabel::Incorrect));
    assert_eq!(parse_label_value("UNKNOWN"), Some(PacketLabel::Unknown));
    assert_eq!(parse_label_value("bogus"), None);
    assert_eq!(parse_label_value(""), None);
}

#[test]
fn packet_label_raw_round_trip() {
    assert_eq!(PacketLabel::from_raw(1), PacketLabel::Correct);
    assert_eq!(PacketLabel::from_raw(-1), PacketLabel::Incorrect);
    assert_eq!(PacketLabel::from_raw(0), PacketLabel::Unknown);
    assert_eq!(PacketLabel::from_raw(7), PacketLabel::Unknown);
    assert_eq!(PacketLabel::Correct.to_raw(), 1);
    assert_eq!(PacketLabel::Incorrect.to_raw(), -1);
    assert_eq!(PacketLabel::Unknown.to_raw(), 0);
}

#[test]
fn normalize_timestamp_saturates() {
    assert_eq!(normalize_timestamp(i64::MAX, Some(-1)), i64::MAX);
    assert_eq!(normalize_timestamp(i64::MIN, Some(1)), i64::MIN);
}
