//! World behaviour: placement, removal, the connection graph and the
//! per-tick packet routing.

use packet_factory::building::{Building, BuildingType};
use packet_factory::dto::Vec2i;
use packet_factory::filters::{FilterConfig, IpFilterConfig, IpFilterDirection};
use packet_factory::packet::{Packet, PacketLabel, Protocol, PROGRESS_FULL, PROGRESS_HALF};
use packet_factory::world::{World, WorldEvent};

fn create_test_packet() -> Packet {
    let mut packet = Packet::new(
        "192.168.1.1".to_string(),
        "192.168.1.2".to_string(),
        12345,
        80,
        Protocol::Tcp,
        64,
        vec![],
    );
    packet.label = PacketLabel::Correct;
    packet.payload = b"payload data".to_vec();
    packet
}

fn get_building_id_by_pos(world: &World, pos: Vec2i) -> Option<u64> {
    world.get_building_id_at(&pos)
}

#[test]
fn test_new_world() {
    let world = World::new();
    assert_eq!(world.building_count(), 0);
}

#[test]
fn test_place_and_get_building() {
    let mut world = World::new();
    let pos = Vec2i { x: 1, y: 2 };

    world.place_building(pos, BuildingType::Internet, 0);

    assert_eq!(world.building_count(), 1);
    let id = get_building_id_by_pos(&world, pos).unwrap();
    let building = world.get_building(id).unwrap();
    assert_eq!(building.pos, pos);
    assert_eq!(building.building_type(), BuildingType::Internet);
}

#[test]
fn test_place_multiple_buildings() {
    let mut world = World::new();
    world.place_building(Vec2i { x: 0, y: 0 }, BuildingType::Internet, 0); // 2x2
    world.place_building(Vec2i { x: 3, y: 0 }, BuildingType::Datacenter, 0); // 2x2
    world.place_building(Vec2i { x: 6, y: 0 }, BuildingType::RecycleBin, 0); // 1x1

    assert_eq!(world.building_count(), 3);
}

#[test]
fn test_remove_building() {
    let mut world = World::new();
    let pos = Vec2i { x: 3, y: 3 };
    world.place_building(pos, BuildingType::Internet, 0);
    assert_eq!(world.building_count(), 1);

    world.remove_building(&pos);
    assert_eq!(world.building_count(), 0);
}

#[test]
fn test_building_placement_and_removal_for_move() {
    let mut world = World::new();
    let old_pos = Vec2i { x: 4, y: 4 };
    let new_pos = Vec2i { x: 5, y: 5 };

    // A move is modelled as removal plus placement.
    world.place_building(old_pos, BuildingType::Datacenter, 0);
    world.remove_building(&old_pos);
    world.place_building(new_pos, BuildingType::Datacenter, 0);

    assert_eq!(world.building_count(), 1);
    let id = get_building_id_by_pos(&world, new_pos).unwrap();
    assert_eq!(world.get_building(id).unwrap().pos, new_pos);
}

#[test]
fn test_update_packet_movement_and_events() {
    let mut world = World::new();
    let internet_pos = Vec2i { x: 0, y: 0 }; // 2x2
    let conveyor_pos = Vec2i { x: 2, y: 0 }; // 1x1
    let datacenter_pos = Vec2i { x: 3, y: 0 }; // 2x2

    world.place_building(internet_pos, BuildingType::Internet, 0);
    world.place_building(conveyor_pos, BuildingType::Conveyor, 0); // faces east
    world.place_building(datacenter_pos, BuildingType::Datacenter, 0);

    let internet_id = get_building_id_by_pos(&world, internet_pos).unwrap();
    let conveyor_id = get_building_id_by_pos(&world, conveyor_pos).unwrap();
    let datacenter_id = get_building_id_by_pos(&world, datacenter_pos).unwrap();

    assert!(world.add_packet(internet_id, create_test_packet()));
    world.drain_events(); // clear placement events

    // Source to conveyor.
    world.update(0);
    let events = world.drain_events();
    assert_eq!(events.len(), 1);
    match &events[0] {
        WorldEvent::PacketMoved { from_id, to_id, .. } => {
            assert_eq!(*from_id, internet_id);
            assert_eq!(*to_id, conveyor_id);
        }
        _ => panic!("Expected PacketMoved event"),
    }
    assert_eq!(world.get_building(conveyor_id).unwrap().get_packets().len(), 1);
    assert_eq!(world.get_building(internet_id).unwrap().get_packets().len(), 0);

    // Almost complete progress: not ready to offload yet.
    world.update(999_000);
    assert!(!world.get_building(conveyor_id).unwrap().can_offload());

    world.drain_events(); // clear progress events
    world.update(1_000); // completes progress and transfers in the same tick

    // Conveyor to datacenter.
    let events = world.drain_events();
    let packet_moved = events
        .iter()
        .find(|e| matches!(e, WorldEvent::PacketMoved { .. }));
    assert!(packet_moved.is_some(), "Expected PacketMoved event after progress completion");

    if let Some(WorldEvent::PacketMoved { from_id, to_id, .. }) = packet_moved {
        assert_eq!(*from_id, conveyor_id);
        assert_eq!(*to_id, datacenter_id);
    }
    assert_eq!(world.get_building(datacenter_id).unwrap().get_packets().len(), 1);
    assert_eq!(world.get_building(conveyor_id).unwrap().get_packets().len(), 0);
}

#[test]
fn test_filter_routing_round_robin_and_mismatch() {
    let mut world = World::new();

    let filter_pos = Vec2i { x: 1, y: 1 };
    world.place_building(filter_pos, BuildingType::IpFilter, 0);
    let front_bin_pos = Vec2i { x: 1, y: 0 };
    let left_bin_pos = Vec2i { x: 0, y: 1 };
    let right_bin_pos = Vec2i { x: 2, y: 1 };

    world.place_building(front_bin_pos, BuildingType::RecycleBin, 0);
    world.place_building(left_bin_pos, BuildingType::RecycleBin, 0);
    world.place_building(right_bin_pos, BuildingType::RecycleBin, 0);

    let filter_id = get_building_id_by_pos(&world, filter_pos).unwrap();
    let front_id = get_building_id_by_pos(&world, front_bin_pos).unwrap();
    let left_id = get_building_id_by_pos(&world, left_bin_pos).unwrap();
    let right_id = get_building_id_by_pos(&world, right_bin_pos).unwrap();

    assert!(world.set_filter_rule(
        filter_id,
        FilterConfig::Ip(Some(IpFilterConfig {
            target_ip: "10.0.0.1".to_string(),
            direction: IpFilterDirection::Source,
        })),
    ));

    let mut left_count = 0;
    let mut right_count = 0;
    let source_pos = Vec2i { x: filter_pos.x, y: filter_pos.y + 1 };

    // Two matching packets should alternate between the lateral outputs.
    for i in 0..2 {
        let mut packet = create_test_packet();
        packet.source_ip = "10.0.0.1".to_string();
        assert!(world.accept_packet(filter_id, packet, source_pos));

        world.update(0);
        let events = world.drain_events();
        let moved = events
            .into_iter()
            .find_map(|event| match event {
                WorldEvent::PacketMoved { to_id, .. } => Some(to_id),
                _ => None,
            })
            .expect("expected a packet move event");

        if moved == left_id {
            left_count += 1;
        } else if moved == right_id {
            right_count += 1;
        }

        let filter_packets = world.get_building(filter_id).unwrap().get_packets();
        assert!(filter_packets.is_empty(), "filter should have offloaded packet {i}");
    }

    assert_eq!(left_count, 1);
    assert_eq!(right_count, 1);

    // A non-matching packet travels to the front output.
    let mut packet = create_test_packet();
    packet.source_ip = "192.168.0.99".to_string();
    assert!(world.accept_packet(filter_id, packet, source_pos));

    world.update(0);
    let events = world.drain_events();
    let moved = events
        .into_iter()
        .find_map(|event| match event {
            WorldEvent::PacketMoved { to_id, .. } => Some(to_id),
            _ => None,
        })
        .expect("expected a packet move event for mismatch");

    assert_eq!(moved, front_id);
}

#[test]
fn test_filter_routing_with_map_update() {
    let mut world = World::new();

    let conveyor_pos = Vec2i { x: 2, y: 2 };
    let filter_pos = Vec2i { x: 2, y: 1 };
    let front_bin_pos = Vec2i { x: 2, y: 0 };
    let left_bin_pos = Vec2i { x: 1, y: 1 };
    let right_bin_pos = Vec2i { x: 3, y: 1 };

    world.place_building(conveyor_pos, BuildingType::Conveyor, 3); // facing north toward the filter
    world.place_building(filter_pos, BuildingType::IpFilter, 0);
    world.place_building(front_bin_pos, BuildingType::RecycleBin, 0);
    world.place_building(left_bin_pos, BuildingType::RecycleBin, 0);
    world.place_building(right_bin_pos, BuildingType::RecycleBin, 0);

    let conveyor_id = get_building_id_by_pos(&world, conveyor_pos).unwrap();
    let filter_id = get_building_id_by_pos(&world, filter_pos).unwrap();
    let front_id = get_building_id_by_pos(&world, front_bin_pos).unwrap();
    let left_id = get_building_id_by_pos(&world, left_bin_pos).unwrap();
    let right_id = get_building_id_by_pos(&world, right_bin_pos).unwrap();

    assert!(world.set_filter_rule(
        filter_id,
        FilterConfig::Ip(Some(IpFilterConfig {
            target_ip: "10.0.0.1".to_string(),
            direction: IpFilterDirection::Source,
        })),
    ));

    let source_pos = Vec2i { x: conveyor_pos.x, y: conveyor_pos.y + 1 };

    let mut deliver_packet = |world: &mut World, packet: Packet| -> u64 {
        assert!(world.accept_packet(conveyor_id, packet, source_pos));

        world.update(1_000_000);
        world.drain_events();
        world.update(0);

        let events = world.drain_events();
        events
            .into_iter()
            .find_map(|event| match event {
                WorldEvent::PacketMoved { from_id, to_id, .. } if from_id == filter_id => {
                    Some(to_id)
                }
                _ => None,
            })
            .expect("filter should forward packet")
    };

    let mut seen_left = false;
    let mut seen_right = false;
    for _ in 0..2 {
        let mut packet = create_test_packet();
        packet.source_ip = "10.0.0.1".to_string();
        let dest_id = deliver_packet(&mut world, packet);
        assert!(dest_id == left_id || dest_id == right_id);
        if dest_id == left_id {
            seen_left = true;
        }
        if dest_id == right_id {
            seen_right = true;
        }
    }
    assert!(
        seen_left && seen_right,
        "filtered packets should alternate between side outputs"
    );

    let mut packet = create_test_packet();
    packet.source_ip = "172.16.0.5".to_string();
    let dest_id = deliver_packet(&mut world, packet);
    assert_eq!(dest_id, front_id);
}

#[test]
fn test_rebuild_connections_simple() {
    let mut world = World::new();
    let pos1 = Vec2i { x: 0, y: 0 };
    let pos2 = Vec2i { x: 1, y: 0 };

    // A conveyor feeding the neighbouring conveyor.
    world.place_building(pos1, BuildingType::Conveyor, 0); // outputs to the east
    world.place_building(pos2, BuildingType::Conveyor, 0); // accepts from the west

    let id1 = get_building_id_by_pos(&world, pos1).unwrap();
    let id2 = get_building_id_by_pos(&world, pos2).unwrap();

    let edges_from_1 = world.get_output_connections(id1).expect("expected connection");
    assert_eq!(edges_from_1.len(), 1);
    assert_eq!(edges_from_1[0].to_id, id2);

    assert!(world.get_output_connections(id2).is_none());

    // Removing the receiver removes the connection.
    world.remove_building(&pos2);
    assert!(world.get_output_connections(id1).is_none());
}

#[test]
fn test_world_reset_logic() {
    let mut world = World::new();
    world.place_building(Vec2i { x: 1, y: 1 }, BuildingType::Internet, 0);
    assert_eq!(world.building_count(), 1);

    world = World::new();
    assert_eq!(world.building_count(), 0);
}

#[test]
fn test_event_generation() {
    let mut world = World::new();
    let pos = Vec2i { x: 1, y: 1 };

    world.place_building(pos, BuildingType::Internet, 0);
    let events = world.drain_events();
    assert_eq!(events.len(), 1);
    assert!(matches!(events[0], WorldEvent::BuildingPlaced { .. }));

    world.remove_building(&pos);
    let events = world.drain_events();
    assert_eq!(events.len(), 1);
    assert!(matches!(events[0], WorldEvent::BuildingRemoved { .. }));
}

#[test]
fn test_place_multiblock_building() {
    let mut world = World::new();
    let pos = Vec2i { x: 2, y: 2 };
    world.place_building(pos, BuildingType::Datacenter, 0);

    let datacenter_id = get_building_id_by_pos(&world, pos).unwrap();

    // All four tiles are occupied by the same structure.
    assert_eq!(get_building_id_by_pos(&world, Vec2i { x: 2, y: 2 }), Some(datacenter_id));
    assert_eq!(get_building_id_by_pos(&world, Vec2i { x: 3, y: 2 }), Some(datacenter_id));
    assert_eq!(get_building_id_by_pos(&world, Vec2i { x: 2, y: 3 }), Some(datacenter_id));
    assert_eq!(get_building_id_by_pos(&world, Vec2i { x: 3, y: 3 }), Some(datacenter_id));

    // A colliding placement is rejected.
    world.place_building(Vec2i { x: 3, y: 3 }, BuildingType::Conveyor, 0);
    assert_eq!(world.building_count(), 1, "Should not be able to place on occupied tile");
}

#[test]
fn test_remove_multiblock_building() {
    let mut world = World::new();
    let pos = Vec2i { x: 2, y: 2 };
    world.place_building(pos, BuildingType::Datacenter, 0);
    assert_eq!(world.building_count(), 1);

    world.remove_building(&Vec2i { x: 3, y: 3 }); // any footprint tile removes the whole structure
    assert_eq!(world.building_count(), 0);

    assert_eq!(get_building_id_by_pos(&world, Vec2i { x: 2, y: 2 }), None);
    assert_eq!(get_building_id_by_pos(&world, Vec2i { x: 3, y: 2 }), None);
    assert_eq!(get_building_id_by_pos(&world, Vec2i { x: 2, y: 3 }), None);
    assert_eq!(get_building_id_by_pos(&world, Vec2i { x: 3, y: 3 }), None);
}

#[test]
fn conveyor_packet_lifecycle() {
    let mut conveyor = Building::new(1, Vec2i { x: 0, y: 1 }, 0, BuildingType::Conveyor);
    let source_pos = Vec2i { x: -1, y: 1 };
    let packet = create_test_packet();

    assert!(conveyor.can_accept(&packet, source_pos));
    conveyor.accept(packet.clone(), source_pos);
    assert!(!conveyor.can_accept(&packet, source_pos));

    assert_eq!(conveyor.get_packets().len(), 1);
    assert_eq!(conveyor.get_progress(), 0);
    assert!(!conveyor.can_offload());

    conveyor.update(500_000);
    assert_eq!(conveyor.get_progress(), PROGRESS_HALF);
    assert!(!conveyor.can_offload());

    conveyor.update(500_000);
    assert_eq!(conveyor.get_progress(), PROGRESS_FULL);
    assert!(conveyor.can_offload());

    let offloaded_packet = conveyor.offload();
    assert_eq!(offloaded_packet.source_ip, "192.168.1.1");
    assert!(conveyor.get_packets().is_empty());
}

#[test]
fn conveyor_lateral_entry_starts_halfway() {
    // A conveyor facing east: a packet arriving from the north enters
    // laterally, starts at half progress and completes after half a
    // simulated second.
    let mut conveyor = Building::new(1, Vec2i { x: 1, y: 1 }, 0, BuildingType::Conveyor);
    let north = Vec2i { x: 1, y: 0 };
    conveyor.accept(create_test_packet(), north);

    assert_eq!(conveyor.get_progress(), PROGRESS_HALF);
    assert!(!conveyor.can_offload());

    conveyor.update(499_999);
    assert!(!conveyor.can_offload());

    conveyor.update(1);
    assert_eq!(conveyor.get_progress(), PROGRESS_FULL);
    assert!(conveyor.can_offload());

    // Progress is clamped: more time never pushes it past full.
    conveyor.update(2_000_000);
    assert_eq!(conveyor.get_progress(), PROGRESS_FULL);
}

#[test]
fn junction_remembers_opposite_output_tile() {
    let mut junction = Building::new(7, Vec2i { x: 5, y: 5 }, 0, BuildingType::Junction);
    assert_eq!(junction.pending_output_pos(), None);

    junction.accept(create_test_packet(), Vec2i { x: 4, y: 5 });
    // The pending output is the tile directly opposite the source.
    assert_eq!(junction.pending_output_pos(), Some(Vec2i { x: 6, y: 5 }));
}
