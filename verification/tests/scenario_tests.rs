//! End-to-end scenarios: the full source-to-sink pipeline, forced drops,
//! junction pass-through, the traffic schedule and delivered-packet
//! export.

use packet_factory::building::BuildingType;
use packet_factory::dto::Vec2i;
use packet_factory::packet::{Packet, PacketLabel, Protocol};
use packet_factory::packet_export::{datacenter_packets, recyclebin_packets};
use packet_factory::traffic::{
    capture_to_traffic, json_entries_to_traffic, parsed_to_packet, PacketEntry, Traffic,
    TrafficPacket,
};
use packet_factory::world::{building_type_from_id, World, WorldEvent};

fn sample_packet() -> Packet {
    Packet::new(
        "10.0.0.1".to_string(),
        "10.0.0.2".to_string(),
        1000,
        2000,
        Protocol::Tcp,
        1500,
        b"payload".to_vec(),
    )
}

fn schedule_packet(timestamp: i64) -> TrafficPacket {
    TrafficPacket {
        src_ip: "10.0.0.1".to_string(),
        dst_ip: "10.0.0.2".to_string(),
        src_port: 1000,
        dst_port: 2000,
        protocol: 6,
        packet_size: 1500,
        timestamp,
        label: 1,
        payload: Vec::new(),
    }
}

#[test]
fn source_conveyor_datacenter_pipeline() {
    // Source at the origin, conveyor facing east beside it, datacenter
    // behind the conveyor: one injected packet crosses the whole line.
    let mut world = World::new();
    world.place_building(Vec2i { x: 0, y: 0 }, BuildingType::Internet, 0);
    world.place_building(Vec2i { x: 2, y: 0 }, BuildingType::Conveyor, 0);
    world.place_building(Vec2i { x: 3, y: 0 }, BuildingType::Datacenter, 0);

    let internet_id = world.get_building_id_at(&Vec2i { x: 0, y: 0 }).unwrap();
    let conveyor_id = world.get_building_id_at(&Vec2i { x: 2, y: 0 }).unwrap();
    let datacenter_id = world.get_building_id_at(&Vec2i { x: 3, y: 0 }).unwrap();

    assert!(world.add_packet(internet_id, sample_packet()));
    world.drain_events();

    // First tick with no elapsed time: the packet moves onto the conveyor.
    world.update(0);
    let events = world.drain_events();
    let moved: Vec<(u64, u64)> = events
        .iter()
        .filter_map(|e| match e {
            WorldEvent::PacketMoved { from_id, to_id, .. } => Some((*from_id, *to_id)),
            _ => None,
        })
        .collect();
    assert_eq!(moved, vec![(internet_id, conveyor_id)]);

    // One full simulated second: the conveyor finishes and hands over.
    world.update(1_000_000);
    let events = world.drain_events();
    let moved: Vec<(u64, u64)> = events
        .iter()
        .filter_map(|e| match e {
            WorldEvent::PacketMoved { from_id, to_id, .. } => Some((*from_id, *to_id)),
            _ => None,
        })
        .collect();
    assert_eq!(moved, vec![(conveyor_id, datacenter_id)]);
    assert_eq!(world.get_building(datacenter_id).unwrap().get_packets().len(), 1);
}

#[test]
fn source_without_connections_drops_its_packet() {
    let mut world = World::new();
    world.place_building(Vec2i { x: 0, y: 0 }, BuildingType::Internet, 0);
    let internet_id = world.get_building_id_at(&Vec2i { x: 0, y: 0 }).unwrap();

    assert!(world.add_packet(internet_id, sample_packet()));
    world.drain_events();

    // No outgoing edges: the packet is force-dropped, without an event.
    world.update(0);
    let events = world.drain_events();
    assert!(events.iter().all(|e| !matches!(e, WorldEvent::PacketMoved { .. })));
    assert_eq!(world.get_building(internet_id).unwrap().get_packets().len(), 0);
}

#[test]
fn busy_destination_keeps_packet_queued() {
    // Two packets in the source, one single-slot conveyor with nowhere to
    // offload: the second packet must wait, not be dropped.
    let mut world = World::new();
    world.place_building(Vec2i { x: 0, y: 0 }, BuildingType::Internet, 0);
    world.place_building(Vec2i { x: 2, y: 0 }, BuildingType::Conveyor, 0);

    let internet_id = world.get_building_id_at(&Vec2i { x: 0, y: 0 }).unwrap();
    let conveyor_id = world.get_building_id_at(&Vec2i { x: 2, y: 0 }).unwrap();

    assert!(world.add_packet(internet_id, sample_packet()));
    assert!(world.add_packet(internet_id, sample_packet()));
    world.drain_events();

    world.update(0);
    assert_eq!(world.get_building(conveyor_id).unwrap().get_packets().len(), 1);
    assert_eq!(world.get_building(internet_id).unwrap().get_packets().len(), 1);

    // The conveyor is still occupied, so the second packet stays queued.
    world.update(0);
    assert_eq!(world.get_building(internet_id).unwrap().get_packets().len(), 1);
}

#[test]
fn junction_passes_packets_through() {
    let mut world = World::new();
    world.place_building(Vec2i { x: 0, y: 0 }, BuildingType::Conveyor, 0); // east
    world.place_building(Vec2i { x: 1, y: 0 }, BuildingType::Junction, 0);
    world.place_building(Vec2i { x: 2, y: 0 }, BuildingType::RecycleBin, 0);

    let conveyor_id = world.get_building_id_at(&Vec2i { x: 0, y: 0 }).unwrap();
    let junction_id = world.get_building_id_at(&Vec2i { x: 1, y: 0 }).unwrap();
    let bin_id = world.get_building_id_at(&Vec2i { x: 2, y: 0 }).unwrap();

    assert!(world.accept_packet(conveyor_id, sample_packet(), Vec2i { x: -1, y: 0 }));
    world.drain_events();

    world.update(1_000_000); // conveyor completes, hands to junction
    world.drain_events();
    world.update(0); // junction hands to the bin
    let events = world.drain_events();
    let moved: Vec<(u64, u64)> = events
        .iter()
        .filter_map(|e| match e {
            WorldEvent::PacketMoved { from_id, to_id, .. } => Some((*from_id, *to_id)),
            _ => None,
        })
        .collect();
    assert_eq!(moved, vec![(junction_id, bin_id)]);
    assert_eq!(world.get_building(bin_id).unwrap().get_packets().len(), 1);
}

#[test]
fn scheduled_traffic_is_released_in_time_order() {
    let mut world = World::new();
    world.place_building(Vec2i { x: 0, y: 0 }, BuildingType::Internet, 0);
    world.place_building(Vec2i { x: 2, y: 0 }, BuildingType::Conveyor, 0);
    let internet_id = world.get_building_id_at(&Vec2i { x: 0, y: 0 }).unwrap();

    // Two entries half a second apart.
    let traffic = Traffic { packets: vec![schedule_packet(0), schedule_packet(500_000)] };
    assert!(world.set_internet_traffic(internet_id, traffic));
    world.drain_events();

    // At time zero only the first entry is due; it moves out at once.
    world.update(0);
    let events = world.drain_events();
    assert_eq!(
        events.iter().filter(|e| matches!(e, WorldEvent::PacketMoved { .. })).count(),
        1
    );

    // After another 0.4 s the second entry is still in the future.
    world.update(400_000);
    assert_eq!(world.get_building(internet_id).unwrap().get_packets().len(), 0);

    // Crossing the half-second mark releases it.
    world.update(100_000);
    let queued_or_moved = world.get_building(internet_id).unwrap().get_packets().len();
    assert!(queued_or_moved <= 1);
}

#[test]
fn export_rows_carry_delivered_packets() {
    let mut world = World::new();
    world.place_building(Vec2i { x: 0, y: 0 }, BuildingType::Datacenter, 0);
    world.place_building(Vec2i { x: 3, y: 0 }, BuildingType::RecycleBin, 0);
    let datacenter_id = world.get_building_id_at(&Vec2i { x: 0, y: 0 }).unwrap();
    let bin_id = world.get_building_id_at(&Vec2i { x: 3, y: 0 }).unwrap();

    let mut delivered = sample_packet();
    delivered.label = PacketLabel::Incorrect;
    assert!(world.accept_packet(datacenter_id, delivered, Vec2i { x: 0, y: 0 }));

    let rows = datacenter_packets(&world);
    assert_eq!(rows.len(), 1);
    assert_eq!(rows[0].building_id, datacenter_id);
    assert_eq!(rows[0].source_ip, "10.0.0.1");
    assert_eq!(rows[0].dest_ip, "10.0.0.2");
    assert_eq!(rows[0].source_port, 1000);
    assert_eq!(rows[0].dest_port, 2000);
    assert_eq!(rows[0].protocol, Protocol::Tcp);
    assert_eq!(rows[0].length, 1500);
    assert_eq!(rows[0].label, PacketLabel::Incorrect);
    assert_eq!(rows[0].payload_string, "payload");

    assert_eq!(recyclebin_packets(&world).len(), 0);
    assert!(world.accept_packet(bin_id, sample_packet(), Vec2i { x: 0, y: 0 }));
    assert_eq!(recyclebin_packets(&world).len(), 1);
}

#[test]
fn building_type_ids_decode() {
    assert_eq!(building_type_from_id(0), Some(BuildingType::Internet));
    assert_eq!(building_type_from_id(1), Some(BuildingType::Datacenter));
    assert_eq!(building_type_from_id(2), Some(BuildingType::Conveyor));
    assert_eq!(building_type_from_id(10), Some(BuildingType::IpFilter));
    assert_eq!(building_type_from_id(11), Some(BuildingType::PortFilter));
    assert_eq!(building_type_from_id(12), Some(BuildingType::LengthFilter));
    assert_eq!(building_type_from_id(13), Some(BuildingType::ProtocolFilter));
    assert_eq!(building_type_from_id(14), Some(BuildingType::ContentFilter));
    assert_eq!(building_type_from_id(15), Some(BuildingType::Junction));
    assert_eq!(building_type_from_id(16), Some(BuildingType::RecycleBin));
    assert_eq!(building_type_from_id(3), None);
    assert_eq!(building_type_from_id(99), None);
}

#[test]
fn json_entries_build_a_sorted_normalized_schedule() {
    let entry = |ts: Option<i64>, payload: Option<&str>| PacketEntry {
        src_ip: "192.168.0.1".to_string(),
        dst_ip: "10.0.0.5".to_string(),
        src_port: 443,
        dst_port: 60234,
        protocol: 6,
        size: 1500,
        timestamp: ts,
        label: Some(PacketLabel::Correct),
        payload: payload.map(|s| s.as_bytes().to_vec()),
    };

    let traffic = json_entries_to_traffic(vec![
        entry(Some(3_000), None),
        entry(Some(1_000), Some("GET\\x20/")),
    ])
    .expect("schedule should build");

    assert_eq!(traffic.packet_count(), 2);
    // Sorted by timestamp and shifted so the earliest is zero.
    assert_eq!(traffic.get_packet(0).unwrap().timestamp, 0);
    assert_eq!(traffic.get_packet(1).unwrap().timestamp, 2_000);
    assert_eq!(traffic.get_packet(0).unwrap().payload, b"GET /".to_vec());

    // A malformed payload fails the whole load.
    let bad = json_entries_to_traffic(vec![entry(Some(0), Some("\\xZZ"))]);
    assert!(bad.is_none());
}

#[test]
fn capture_frames_become_a_schedule() {
    let p = parsed_to_packet(
        "192.168.1.1".to_string(),
        "192.168.1.2".to_string(),
        1234,
        80,
        6,
        b"net".to_vec(),
        b"transport".to_vec(),
        64,
        2,
        500_000,
    );
    assert_eq!(p.timestamp, 2_500_000);
    assert_eq!(p.packet_size, 64);
    assert_eq!(p.payload, b"transport".to_vec());

    // Without a transport payload the network payload is kept.
    let q = parsed_to_packet(
        "192.168.1.1".to_string(),
        "192.168.1.2".to_string(),
        0,
        0,
        1,
        b"icmp body".to_vec(),
        Vec::new(),
        -5,
        1,
        0,
    );
    assert_eq!(q.packet_size, 0);
    assert_eq!(q.payload, b"icmp body".to_vec());

    let traffic = capture_to_traffic(vec![p, q]);
    assert_eq!(traffic.packet_count(), 2);
    assert_eq!(traffic.get_packet(0).unwrap().timestamp, 0);
    assert_eq!(traffic.get_packet(1).unwrap().timestamp, 1_500_000);
}
