//! Filter matching behaviour: every filter kind, configured and
//! unconfigured, against matching and non-matching packets.

use packet_factory::building::{Building, BuildingType};
use packet_factory::dto::Vec2i;
use packet_factory::filters::{
    ContentFilterConfig, FilterConfig, IpFilterConfig, IpFilterDirection, LengthFilterConfig,
    LengthFilterDirection, PortFilterConfig, PortFilterDirection, ProtocolFilterConfig,
};
use packet_factory::packet::{Packet, Protocol};

fn create_test_packet() -> Packet {
    Packet::new(
        "192.168.1.10".to_string(),
        "8.8.8.8".to_string(),
        12345,
        80,
        Protocol::Tcp,
        256,
        b"some payload data".to_vec(),
    )
}

fn origin() -> Vec2i {
    Vec2i { x: 0, y: 0 }
}

#[test]
fn test_ip_filter_source_direction() {
    let config = IpFilterConfig {
        target_ip: "192.168.1.10".to_string(),
        direction: IpFilterDirection::Source,
    };
    let filter = Building::new_filter_with_config(0, origin(), 0, FilterConfig::Ip(Some(config)));

    let packet_match = create_test_packet(); // source address "192.168.1.10"
    let mut packet_no_match = create_test_packet();
    packet_no_match.source_ip = "10.0.0.5".to_string();

    assert_eq!(filter.filter_result(&packet_match), Some(true));
    assert_eq!(filter.filter_result(&packet_no_match), Some(false));
}

#[test]
fn test_ip_filter_destination_direction() {
    let config = IpFilterConfig {
        target_ip: "8.8.8.8".to_string(),
        direction: IpFilterDirection::Destination,
    };
    let filter = Building::new_filter_with_config(0, origin(), 0, FilterConfig::Ip(Some(config)));

    let packet_match = create_test_packet(); // destination address "8.8.8.8"
    let mut packet_no_match = create_test_packet();
    packet_no_match.dest_ip = "10.0.0.5".to_string();

    assert_eq!(filter.filter_result(&packet_match), Some(true));
    assert_eq!(filter.filter_result(&packet_no_match), Some(false));
}

#[test]
fn test_ip_filter_no_config() {
    let filter = Building::new(0, origin(), 0, BuildingType::IpFilter);
    let packet = create_test_packet();

    // Without a configuration the filter matches nothing.
    assert_eq!(filter.filter_result(&packet), Some(false));
}

#[test]
fn test_ip_filter_set_config() {
    let mut filter = Building::new(0, origin(), 0, BuildingType::IpFilter);
    let packet = create_test_packet();

    // Unconfigured, it matches nothing.
    assert_eq!(filter.filter_result(&packet), Some(false));

    // Once configured, matching starts.
    let config = IpFilterConfig {
        target_ip: "192.168.1.10".to_string(),
        direction: IpFilterDirection::Source,
    };
    assert!(filter.set_filter_config(FilterConfig::Ip(Some(config))));
    assert_eq!(filter.filter_result(&packet), Some(true));
}

#[test]
fn test_length_filter_exact_direction() {
    let config = LengthFilterConfig { threshold: 256, direction: LengthFilterDirection::Exact };
    let filter = Building::new_filter_with_config(
        0,
        origin(),
        0,
        FilterConfig::Length(Some(config)),
    );

    let packet_match = create_test_packet(); // length 256
    let mut packet_no_match = create_test_packet();
    packet_no_match.length = 128;

    assert_eq!(filter.filter_result(&packet_match), Some(true));
    assert_eq!(filter.filter_result(&packet_no_match), Some(false));
}

#[test]
fn test_length_filter_less_than_direction() {
    let config = LengthFilterConfig { threshold: 300, direction: LengthFilterDirection::LessThan };
    let filter = Building::new_filter_with_config(
        0,
        origin(),
        0,
        FilterConfig::Length(Some(config)),
    );

    let packet_match = create_test_packet(); // length 256
    let mut packet_no_match = create_test_packet();
    packet_no_match.length = 300;

    assert_eq!(filter.filter_result(&packet_match), Some(true));
    assert_eq!(filter.filter_result(&packet_no_match), Some(false));
}

#[test]
fn test_length_filter_greater_than_direction() {
    let config = LengthFilterConfig {
        threshold: 200,
        direction: LengthFilterDirection::GreaterThan,
    };
    let filter = Building::new_filter_with_config(
        0,
        origin(),
        0,
        FilterConfig::Length(Some(config)),
    );

    let packet_match = create_test_packet(); // length 256
    let mut packet_no_match = create_test_packet();
    packet_no_match.length = 200;

    assert_eq!(filter.filter_result(&packet_match), Some(true));
    assert_eq!(filter.filter_result(&packet_no_match), Some(false));
}

#[test]
fn test_length_filter_no_config() {
    let filter = Building::new(0, origin(), 0, BuildingType::LengthFilter);
    let packet = create_test_packet();

    assert_eq!(filter.filter_result(&packet), Some(false));
}

#[test]
fn test_length_filter_set_config() {
    let mut filter = Building::new(0, origin(), 0, BuildingType::LengthFilter);
    let packet = create_test_packet();

    assert_eq!(filter.filter_result(&packet), Some(false));

    let config = LengthFilterConfig { threshold: 256, direction: LengthFilterDirection::Exact };
    assert!(filter.set_filter_config(FilterConfig::Length(Some(config))));
    assert_eq!(filter.filter_result(&packet), Some(true));
}

#[test]
fn test_content_filter_valid_pattern() {
    let config = ContentFilterConfig { pattern: "payload".to_string() };
    let filter = Building::new_filter_with_config(
        0,
        origin(),
        0,
        FilterConfig::Content(Some(config)),
    );

    let packet_match = create_test_packet(); // payload contains "payload"
    let mut packet_no_match = create_test_packet();
    packet_no_match.payload = b"different data".to_vec();

    assert_eq!(filter.filter_result(&packet_match), Some(true));
    assert_eq!(filter.filter_result(&packet_no_match), Some(false));
}

#[test]
fn test_length_filter_config_pattern() {
    let config = LengthFilterConfig { threshold: 256, direction: LengthFilterDirection::Exact };
    let filter = Building::new_filter_with_config(
        0,
        origin(),
        0,
        FilterConfig::Length(Some(config)),
    );

    let packet_match = create_test_packet(); // length 256
    let mut packet_no_match = create_test_packet();
    packet_no_match.length = 128;

    assert_eq!(filter.filter_result(&packet_match), Some(true));
    assert_eq!(filter.filter_result(&packet_no_match), Some(false));
}

#[test]
fn test_length_filter_direction_greater_than() {
    let config = LengthFilterConfig {
        threshold: 128,
        direction: LengthFilterDirection::GreaterThan,
    };
    let filter = Building::new_filter_with_config(
        0,
        origin(),
        0,
        FilterConfig::Length(Some(config)),
    );

    let packet_match = create_test_packet(); // 256 > 128
    let mut packet_no_match = create_test_packet();
    packet_no_match.length = 64; // 64 < 128

    assert_eq!(filter.filter_result(&packet_match), Some(true));
    assert_eq!(filter.filter_result(&packet_no_match), Some(false));
}

#[test]
fn test_content_filter_regex_pattern() {
    let config = ContentFilterConfig { pattern: r"p.*load".to_string() };
    let filter = Building::new_filter_with_config(
        0,
        origin(),
        0,
        FilterConfig::Content(Some(config)),
    );

    let packet_match = create_test_packet(); // payload matches p.*load
    let mut packet_no_match = create_test_packet();
    packet_no_match.payload = b"different data".to_vec();

    assert_eq!(filter.filter_result(&packet_match), Some(true));
    assert_eq!(filter.filter_result(&packet_no_match), Some(false));
}

#[test]
fn test_content_filter_no_config() {
    let filter = Building::new(0, origin(), 0, BuildingType::ContentFilter);
    let packet = create_test_packet();

    assert_eq!(filter.filter_result(&packet), Some(false));
}

#[test]
fn test_content_filter_set_config() {
    let mut filter = Building::new(0, origin(), 0, BuildingType::ContentFilter);
    let packet = create_test_packet();

    assert_eq!(filter.filter_result(&packet), Some(false));

    let config = ContentFilterConfig { pattern: "payload".to_string() };
    assert!(filter.set_filter_config(FilterConfig::Content(Some(config))));
    assert_eq!(filter.filter_result(&packet), Some(true));
}

#[test]
fn test_content_filter_invalid_regex() {
    let config = ContentFilterConfig { pattern: "[invalid regex".to_string() };
    let filter = Building::new_filter_with_config(
        0,
        origin(),
        0,
        FilterConfig::Content(Some(config)),
    );
    let packet = create_test_packet();

    // An invalid pattern matches nothing.
    assert_eq!(filter.filter_result(&packet), Some(false));
}

#[test]
fn test_content_filter_non_utf8_payload() {
    let config = ContentFilterConfig { pattern: ".*".to_string() };
    let filter = Building::new_filter_with_config(
        0,
        origin(),
        0,
        FilterConfig::Content(Some(config)),
    );
    let mut packet = create_test_packet();
    packet.payload = vec![0xFF, 0xFE, 0x80];

    // A payload that is not UTF-8 text matches nothing.
    assert_eq!(filter.filter_result(&packet), Some(false));
}

#[test]
fn test_protocol_filter_tcp() {
    let config = ProtocolFilterConfig { protocol: Protocol::Tcp };
    let filter = Building::new_filter_with_config(
        0,
        origin(),
        0,
        FilterConfig::Protocol(Some(config)),
    );

    let packet_match = create_test_packet(); // TCP
    let mut packet_no_match = create_test_packet();
    packet_no_match.protocol = Protocol::Udp;

    assert_eq!(filter.filter_result(&packet_match), Some(true));
    assert_eq!(filter.filter_result(&packet_no_match), Some(false));
}

#[test]
fn test_protocol_filter_udp() {
    let config = ProtocolFilterConfig { protocol: Protocol::Udp };
    let filter = Building::new_filter_with_config(
        0,
        origin(),
        0,
        FilterConfig::Protocol(Some(config)),
    );

    let mut packet_match = create_test_packet();
    packet_match.protocol = Protocol::Udp;
    let packet_no_match = create_test_packet(); // TCP

    assert_eq!(filter.filter_result(&packet_match), Some(true));
    assert_eq!(filter.filter_result(&packet_no_match), Some(false));
}

#[test]
fn test_protocol_filter_no_config() {
    let filter = Building::new(0, origin(), 0, BuildingType::ProtocolFilter);
    let packet = create_test_packet();

    assert_eq!(filter.filter_result(&packet), Some(false));
}

#[test]
fn test_protocol_filter_set_config() {
    let mut filter = Building::new(0, origin(), 0, BuildingType::ProtocolFilter);
    let packet = create_test_packet(); // TCP

    assert_eq!(filter.filter_result(&packet), Some(false));

    let config = ProtocolFilterConfig { protocol: Protocol::Tcp };
    assert!(filter.set_filter_config(FilterConfig::Protocol(Some(config))));
    assert_eq!(filter.filter_result(&packet), Some(true));
}

#[test]
fn test_port_filter_source_direction() {
    let config = PortFilterConfig { target_port: 12345, direction: PortFilterDirection::Source };
    let filter = Building::new_filter_with_config(0, origin(), 0, FilterConfig::Port(Some(config)));

    let packet_match = create_test_packet(); // source port 12345
    let mut packet_no_match = create_test_packet();
    packet_no_match.source_port = 54321;

    assert_eq!(filter.filter_result(&packet_match), Some(true));
    assert_eq!(filter.filter_result(&packet_no_match), Some(false));
}

#[test]
fn test_port_filter_destination_direction() {
    let config = PortFilterConfig { target_port: 80, direction: PortFilterDirection::Destination };
    let filter = Building::new_filter_with_config(0, origin(), 0, FilterConfig::Port(Some(config)));

    let packet_match = create_test_packet(); // destination port 80
    let mut packet_no_match = create_test_packet();
    packet_no_match.dest_port = 443;

    assert_eq!(filter.filter_result(&packet_match), Some(true));
    assert_eq!(filter.filter_result(&packet_no_match), Some(false));
}

#[test]
fn test_port_filter_no_config() {
    let filter = Building::new(0, origin(), 0, BuildingType::PortFilter);
    let packet = create_test_packet();

    assert_eq!(filter.filter_result(&packet), Some(false));
}

#[test]
fn test_port_filter_set_config() {
    let mut filter = Building::new(0, origin(), 0, BuildingType::PortFilter);
    let packet = create_test_packet();

    assert_eq!(filter.filter_result(&packet), Some(false));

    let config = PortFilterConfig { target_port: 12345, direction: PortFilterDirection::Source };
    assert!(filter.set_filter_config(FilterConfig::Port(Some(config))));
    assert_eq!(filter.filter_result(&packet), Some(true)); // source port 12345
}

#[test]
fn test_set_config_rejects_other_kind() {
    let mut filter = Building::new(0, origin(), 0, BuildingType::PortFilter);
    let config = ProtocolFilterConfig { protocol: Protocol::Tcp };

    // A configuration of another filter kind is rejected.
    assert!(!filter.set_filter_config(FilterConfig::Protocol(Some(config))));
    assert_eq!(filter.building_type(), BuildingType::PortFilter);
}
