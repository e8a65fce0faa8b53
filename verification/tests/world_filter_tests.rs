//! Placing configured filters through the world and re-configuring
//! placed filters by id.

use packet_factory::building::BuildingType;
use packet_factory::dto::Vec2i;
use packet_factory::filters::{
    ContentFilterConfig, FilterConfig, IpFilterConfig, IpFilterDirection, LengthFilterConfig,
    LengthFilterDirection, PortFilterConfig, PortFilterDirection, ProtocolFilterConfig,
};
use packet_factory::packet::{Packet, PacketLabel, Protocol};
use packet_factory::world::World;

fn create_test_packet() -> Packet {
    let mut packet = Packet::new(
        "192.168.1.1".to_string(),
        "192.168.1.2".to_string(),
        12345,
        80,
        Protocol::Tcp,
        64,
        vec![],
    );
    packet.label = PacketLabel::Correct;
    packet.payload = b"payload data".to_vec();
    packet
}

fn filter_matches_at(world: &World, id: u64, packet: &Packet) -> bool {
    world
        .get_building(id)
        .unwrap()
        .filter_result(packet)
        .expect("structure should be a filter")
}

#[test]
fn test_place_ip_filter_with_config() {
    let mut world = World::new();
    let pos = Vec2i { x: 5, y: 5 };

    let config = IpFilterConfig {
        target_ip: "192.168.1.100".to_string(),
        direction: IpFilterDirection::Source,
    };
    world.place_ip_filter_with_config(pos, 0, config);

    let filter_id = world.get_building_id_at(&pos).unwrap();
    let building = world.get_building(filter_id).unwrap();
    assert_eq!(building.building_type(), BuildingType::IpFilter);
    assert_eq!(building.pos, pos);

    let mut test_packet = create_test_packet();
    test_packet.source_ip = "192.168.1.100".to_string();
    assert!(filter_matches_at(&world, filter_id, &test_packet));

    test_packet.source_ip = "10.0.0.1".to_string();
    assert!(!filter_matches_at(&world, filter_id, &test_packet));
}

#[test]
fn test_ip_filter_set_config_via_building_storage() {
    let mut world = World::new();
    let pos = Vec2i { x: 3, y: 3 };

    world.place_building(pos, BuildingType::IpFilter, 0);
    let filter_id = world.get_building_id_at(&pos).unwrap();

    // Unconfigured: matches nothing.
    assert!(!filter_matches_at(&world, filter_id, &create_test_packet()));

    let config = IpFilterConfig {
        target_ip: "192.168.1.1".to_string(),
        direction: IpFilterDirection::Source,
    };
    assert!(world.set_filter_rule(filter_id, FilterConfig::Ip(Some(config))));

    // Configured: the test packet's source address matches.
    assert!(filter_matches_at(&world, filter_id, &create_test_packet()));
}

#[test]
fn test_place_length_filter_with_config() {
    let mut world = World::new();
    let pos = Vec2i { x: 5, y: 5 };

    let config = LengthFilterConfig { threshold: 512, direction: LengthFilterDirection::LessThan };
    world.place_length_filter_with_config(pos, 0, config);

    let filter_id = world.get_building_id_at(&pos).unwrap();
    let building = world.get_building(filter_id).unwrap();
    assert_eq!(building.building_type(), BuildingType::LengthFilter);
    assert_eq!(building.pos, pos);

    let mut test_packet = create_test_packet();
    test_packet.length = 256; // below the threshold
    assert!(filter_matches_at(&world, filter_id, &test_packet));

    test_packet.length = 1024; // above the threshold
    assert!(!filter_matches_at(&world, filter_id, &test_packet));
}

#[test]
fn test_length_filter_set_config_via_building_storage() {
    let mut world = World::new();
    let pos = Vec2i { x: 3, y: 3 };

    world.place_building(pos, BuildingType::LengthFilter, 0);
    let filter_id = world.get_building_id_at(&pos).unwrap();

    assert!(!filter_matches_at(&world, filter_id, &create_test_packet()));

    let config = LengthFilterConfig { threshold: 64, direction: LengthFilterDirection::Exact };
    assert!(world.set_filter_rule(filter_id, FilterConfig::Length(Some(config))));

    let mut test_packet = create_test_packet();
    test_packet.length = 64; // exactly the threshold
    assert!(filter_matches_at(&world, filter_id, &test_packet));
}

#[test]
fn test_place_protocol_filter_with_config() {
    let mut world = World::new();
    let pos = Vec2i { x: 7, y: 7 };

    let config = ProtocolFilterConfig { protocol: Protocol::Tcp };
    world.place_protocol_filter_with_config(pos, 0, config);

    let filter_id = world.get_building_id_at(&pos).unwrap();
    let building = world.get_building(filter_id).unwrap();
    assert_eq!(building.building_type(), BuildingType::ProtocolFilter);
    assert_eq!(building.pos, pos);

    let test_packet = create_test_packet(); // TCP
    assert!(filter_matches_at(&world, filter_id, &test_packet));

    let mut udp_packet = create_test_packet();
    udp_packet.protocol = Protocol::Udp;
    assert!(!filter_matches_at(&world, filter_id, &udp_packet));
}

#[test]
fn test_protocol_filter_set_config_via_building_storage() {
    let mut world = World::new();
    let pos = Vec2i { x: 4, y: 4 };

    world.place_building(pos, BuildingType::ProtocolFilter, 0);
    let filter_id = world.get_building_id_at(&pos).unwrap();

    assert!(!filter_matches_at(&world, filter_id, &create_test_packet()));

    let config = ProtocolFilterConfig { protocol: Protocol::Tcp };
    assert!(world.set_filter_rule(filter_id, FilterConfig::Protocol(Some(config))));

    assert!(filter_matches_at(&world, filter_id, &create_test_packet()));
}

#[test]
fn test_place_port_filter_with_config() {
    let mut world = World::new();
    let pos = Vec2i { x: 5, y: 5 };

    let config = PortFilterConfig { target_port: 443, direction: PortFilterDirection::Destination };
    world.place_port_filter_with_config(pos, 0, config);

    let filter_id = world.get_building_id_at(&pos).unwrap();
    let building = world.get_building(filter_id).unwrap();
    assert_eq!(building.building_type(), BuildingType::PortFilter);
    assert_eq!(building.pos, pos);

    let mut test_packet = create_test_packet();
    test_packet.dest_port = 443;
    assert!(filter_matches_at(&world, filter_id, &test_packet));

    test_packet.dest_port = 80;
    assert!(!filter_matches_at(&world, filter_id, &test_packet));
}

#[test]
fn test_port_filter_set_config_via_building_storage() {
    let mut world = World::new();
    let pos = Vec2i { x: 3, y: 3 };

    world.place_building(pos, BuildingType::PortFilter, 0);
    let filter_id = world.get_building_id_at(&pos).unwrap();

    assert!(!filter_matches_at(&world, filter_id, &create_test_packet()));

    let config = PortFilterConfig { target_port: 12345, direction: PortFilterDirection::Source };
    assert!(world.set_filter_rule(filter_id, FilterConfig::Port(Some(config))));

    // The test packet's source port is the configured one.
    assert!(filter_matches_at(&world, filter_id, &create_test_packet()));

    let mut test_packet2 = create_test_packet();
    test_packet2.source_port = 54321;
    assert!(!filter_matches_at(&world, filter_id, &test_packet2));
}

#[test]
fn test_place_content_filter_with_config() {
    let mut world = World::new();
    let pos = Vec2i { x: 5, y: 5 };

    let config = ContentFilterConfig { pattern: "malicious".to_string() };
    world.place_content_filter_with_config(pos, 0, config);

    let filter_id = world.get_building_id_at(&pos).unwrap();
    let building = world.get_building(filter_id).unwrap();
    assert_eq!(building.building_type(), BuildingType::ContentFilter);
    assert_eq!(building.pos, pos);

    let mut test_packet_match = create_test_packet();
    test_packet_match.payload = b"this is malicious content".to_vec();
    assert!(filter_matches_at(&world, filter_id, &test_packet_match));

    let mut test_packet_no_match = create_test_packet();
    test_packet_no_match.payload = b"safe content here".to_vec();
    assert!(!filter_matches_at(&world, filter_id, &test_packet_no_match));
}

#[test]
fn test_content_filter_set_config_via_building_storage() {
    let mut world = World::new();
    let pos = Vec2i { x: 3, y: 3 };

    world.place_building(pos, BuildingType::ContentFilter, 0);
    let filter_id = world.get_building_id_at(&pos).unwrap();

    assert!(!filter_matches_at(&world, filter_id, &create_test_packet()));

    let config = ContentFilterConfig { pattern: r"p.*load".to_string() };
    assert!(world.set_filter_rule(filter_id, FilterConfig::Content(Some(config))));

    // The test packet's payload contains "payload".
    assert!(filter_matches_at(&world, filter_id, &create_test_packet()));

    let mut test_packet_no_match = create_test_packet();
    test_packet_no_match.payload = b"different data".to_vec();
    assert!(!filter_matches_at(&world, filter_id, &test_packet_no_match));
}

#[test]
fn get_filter_rule_returns_the_stored_configuration() {
    let mut world = World::new();
    let pos = Vec2i { x: 1, y: 1 };
    let config = PortFilterConfig { target_port: 8080, direction: PortFilterDirection::Source };
    world.place_port_filter_with_config(pos, 0, config);
    let filter_id = world.get_building_id_at(&pos).unwrap();

    match world.get_filter_rule(filter_id) {
        Some(FilterConfig::Port(Some(c))) => {
            assert_eq!(c.target_port, 8080);
            assert!(matches!(c.direction, PortFilterDirection::Source));
        }
        other => panic!("unexpected rule: {:?}", other),
    }

    // A non-filter has no rule.
    world.place_building(Vec2i { x: 4, y: 4 }, BuildingType::Conveyor, 0);
    let conveyor_id = world.get_building_id_at(&Vec2i { x: 4, y: 4 }).unwrap();
    assert!(world.get_filter_rule(conveyor_id).is_none());
}
