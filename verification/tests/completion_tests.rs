//! Completion reporting: the delivered multiset against the planned one.

use packet_factory::building::BuildingType;
use packet_factory::dto::Vec2i;
use packet_factory::packet::{Packet, PacketLabel, Protocol};
use packet_factory::packet_completion::CompletionTracker;
use packet_factory::world::World;

fn make_packet(
    source_ip: &str,
    dest_ip: &str,
    source_port: u16,
    dest_port: u16,
    protocol: Protocol,
    length: u32,
    label: PacketLabel,
) -> Packet {
    let mut packet = Packet::new(
        source_ip.to_string(),
        dest_ip.to_string(),
        source_port,
        dest_port,
        protocol,
        length,
        Vec::new(),
    );
    packet.label = label;
    packet
}

fn ids_for(world: &World) -> (u64, u64) {
    let datacenter_id = world
        .get_building_id_at(&Vec2i { x: 0, y: 0 })
        .expect("Datacenter not found");
    let recycle_id = world
        .get_building_id_at(&Vec2i { x: 3, y: 0 })
        .expect("Recycle bin not found");
    (datacenter_id, recycle_id)
}

#[test]
fn completed_packets_reports_once_all_delivered() {
    let mut tracker = CompletionTracker::new();
    tracker.clear_planned_packets();

    let planned_packets = vec![
        make_packet(
            "10.0.0.1",
            "10.0.0.100",
            1234,
            80,
            Protocol::Tcp,
            128,
            PacketLabel::Correct,
        ),
        make_packet(
            "10.0.0.2",
            "10.0.0.200",
            4321,
            53,
            Protocol::Udp,
            256,
            PacketLabel::Incorrect,
        ),
    ];
    tracker.register_planned_core_packets(&planned_packets);

    let mut world = World::new();
    world.place_building(Vec2i { x: 0, y: 0 }, BuildingType::Datacenter, 0);
    world.place_building(Vec2i { x: 3, y: 0 }, BuildingType::RecycleBin, 0);

    assert!(tracker.completed_packet_count_for_test(&world).is_none());

    let (datacenter_id, recycle_id) = ids_for(&world);

    assert!(world.accept_packet(
        datacenter_id,
        planned_packets[0].clone(),
        Vec2i { x: 0, y: 0 },
    ));
    assert!(tracker.completed_packet_count_for_test(&world).is_none());

    assert!(world.accept_packet(recycle_id, planned_packets[1].clone(), Vec2i { x: 0, y: 0 }));

    let completed = tracker
        .completed_packet_count_for_test(&world)
        .expect("Expected completion result after all packets delivered");
    assert_eq!(completed, 2);
}

#[test]
fn clear_planned_packets_resets_state() {
    let mut tracker = CompletionTracker::new();
    tracker.register_planned_core_packets(&vec![make_packet(
        "10.0.0.1",
        "10.0.0.100",
        1234,
        80,
        Protocol::Tcp,
        128,
        PacketLabel::Correct,
    )]);
    tracker.clear_planned_packets();

    let world = World::new();
    assert!(tracker.completed_packet_count_for_test(&world).is_none());
}

#[test]
fn completion_ignores_delivery_order_but_counts_duplicates() {
    // Two identical packets planned: delivering only one is not complete,
    // delivering a third extra one is not complete either.
    let p = make_packet("1.1.1.1", "2.2.2.2", 1, 2, Protocol::Tcp, 10, PacketLabel::Unknown);
    let mut tracker = CompletionTracker::new();
    tracker.register_planned_core_packets(&vec![p.clone(), p.clone()]);

    let mut world = World::new();
    world.place_building(Vec2i { x: 0, y: 0 }, BuildingType::Datacenter, 0);
    world.place_building(Vec2i { x: 3, y: 0 }, BuildingType::RecycleBin, 0);
    let (datacenter_id, recycle_id) = ids_for(&world);

    assert!(world.accept_packet(recycle_id, p.clone(), Vec2i { x: 0, y: 0 }));
    assert!(tracker.completed_packet_count_for_test(&world).is_none());

    assert!(world.accept_packet(datacenter_id, p.clone(), Vec2i { x: 0, y: 0 }));
    assert_eq!(tracker.completed_packet_count_for_test(&world), Some(2));

    assert!(world.accept_packet(datacenter_id, p.clone(), Vec2i { x: 0, y: 0 }));
    assert!(tracker.completed_packet_count_for_test(&world).is_none());
}

#[test]
fn completion_distinguishes_packet_keys() {
    // A delivered packet with a different key never completes the plan.
    let planned = make_packet("1.1.1.1", "2.2.2.2", 1, 2, Protocol::Tcp, 10, PacketLabel::Correct);
    let other = make_packet("1.1.1.1", "2.2.2.2", 1, 2, Protocol::Tcp, 11, PacketLabel::Correct);
    let mut tracker = CompletionTracker::new();
    tracker.register_planned_core_packets(&vec![planned]);

    let mut world = World::new();
    world.place_building(Vec2i { x: 0, y: 0 }, BuildingType::Datacenter, 0);
    world.place_building(Vec2i { x: 3, y: 0 }, BuildingType::RecycleBin, 0);
    let (datacenter_id, _) = ids_for(&world);

    assert!(world.accept_packet(datacenter_id, other, Vec2i { x: 0, y: 0 }));
    assert!(tracker.completed_packet_count_for_test(&world).is_none());
}

#[test]
fn empty_plan_is_complete_immediately() {
    let mut tracker = CompletionTracker::new();
    tracker.register_planned_core_packets(&Vec::new());

    let world = World::new();
    assert_eq!(tracker.completed_packet_count_for_test(&world), Some(0));
}
