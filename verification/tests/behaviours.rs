use slant::managers::SimManager;
use slant::builtin::move_behaviours::static_movement::StaticMovement;
use slant::node::{NodeData, NodeInit};
use slant::builtin::node_behaviours::empty_behaviour::EmptyBehaviour;
use slant::builtin::node_behaviours::flood::{Flood, FloodGenerator, FloodPacket, SequencedFloodPacket};
use slant::builtin::node_behaviours::monotonic::Monotonic;
use slant::packets::{GloballySequencedPacket, Packet};
use slant::builtin::propagation_models::simple_distance::{SimpleDistance, SimpleDistanceParams};
use slant::stats::InternalStatKey;

type FloodSim = SimManager<SimpleDistance, Flood<SequencedFloodPacket>, StaticMovement, ()>;

fn line_of_flood_nodes(count: i32, gap: i32, range: u32) -> FloodSim {
    let nodes = (0..count)
        .map(|i| NodeInit {
            starting_position: [i * gap, 0],
            node_behaviour: Flood::new(5),
            move_behaviour: StaticMovement {},
            propagation_params: SimpleDistanceParams { transmit_distance: range },
        })
        .collect();
    SimManager::new(nodes, 123456, SimpleDistance, 1, 0)
}

fn data(id: usize) -> NodeData<SimpleDistanceParams> {
    NodeData {
        position: [0, 0],
        id,
        propagation_params: SimpleDistanceParams { transmit_distance: 1 },
    }
}

#[test]
fn flood_relays_each_packet_once_per_node() {
    let mut sim = line_of_flood_nodes(4, 10, 15);
    let mut origin: Flood<SequencedFloodPacket> = Flood::new(3);
    let first = sim.global_state_manager.nodes()[0];
    let packet = origin.gen_packet(&first, vec![42]);
    sim.global_state_manager.transmit_packet(&first, packet);

    let stats = sim.n_ticks(6);
    let transmits: Vec<isize> =
        stats.iter().map(|s| s.internal_stat(InternalStatKey::PacketTransmits)).collect();
    let receives: Vec<isize> =
        stats.iter().map(|s| s.internal_stat(InternalStatKey::PacketReceives)).collect();
    assert_eq!(transmits, vec![0, 1, 2, 1, 0, 0]);
    assert_eq!(receives, vec![0, 1, 2, 3, 1, 0]);
    assert!(sim.incoming_packets().iter().all(|p| p.is_empty()));
}

#[test]
fn flood_does_not_relay_packets_without_hops() {
    let mut sim = line_of_flood_nodes(3, 10, 15);
    let mut origin: Flood<SequencedFloodPacket> = Flood::new(0);
    let first = sim.global_state_manager.nodes()[0];
    let packet = origin.gen_packet(&first, vec![]);
    assert!(!origin.should_relay(&packet));
    sim.global_state_manager.transmit_packet(&first, packet);
    let stats = sim.n_ticks(3);
    let transmits: isize =
        stats.iter().map(|s| s.internal_stat(InternalStatKey::PacketTransmits)).sum();
    assert_eq!(transmits, 0);
}

#[test]
fn flood_generates_sequenced_packets() {
    let mut flood: Flood<SequencedFloodPacket> = Flood::new(4);
    let a = flood.gen_packet(&data(3), vec![1]);
    let b = flood.gen_packet(&data(3), vec![2]);
    assert_eq!(flood.seq(), 2);
    assert_eq!(a.get_hop_count(), 4);
    assert_eq!(a.local_seq(), 0);
    assert_eq!(b.local_seq(), 1);
    assert_eq!(a.src(), 3);
    assert_eq!(a.content_ref(), &vec![1]);
    assert_ne!(a.seq(), b.seq());
    assert!(flood.should_relay(&a));
}

#[test]
fn sequence_numbers_identify_source_and_local_sequence() {
    let a = <SequencedFloodPacket as FloodPacket>::new(&data(1), 1, 5, vec![]);
    let b = <SequencedFloodPacket as FloodPacket>::new(&data(2), 1, 5, vec![]);
    let c = <SequencedFloodPacket as FloodPacket>::new(&data(1), 1, 6, vec![]);
    assert_eq!(a.seq(), 0x1_0000_0005);
    assert_eq!(b.seq(), 0x2_0000_0005);
    assert_eq!(c.seq(), 0x1_0000_0006);
}

#[test]
fn set_hop_count_keeps_the_sequence_number() {
    let mut p = <SequencedFloodPacket as FloodPacket>::new(&data(7), 3, 9, vec![5, 6]);
    let before = p.seq();
    p.set_hop_count(1);
    assert_eq!(p.get_hop_count(), 1);
    assert_eq!(p.seq(), before);
    assert_eq!(p.clone().content(), vec![5, 6]);
}

#[test]
fn monotonic_flood_originates_on_schedule_and_relays() {
    let nodes = (0..3)
        .map(|i: i32| NodeInit {
            starting_position: [i * 10, 0],
            node_behaviour: Monotonic::new(Flood::new(2), 5, FloodGenerator),
            move_behaviour: StaticMovement {},
            propagation_params: SimpleDistanceParams { transmit_distance: 15 },
        })
        .collect();
    let mut sim: SimManager<
        SimpleDistance,
        Monotonic<Flood<SequencedFloodPacket>, FloodGenerator>,
        StaticMovement,
        (),
    > = SimManager::new(nodes, 1, SimpleDistance, 1, 0);
    sim.tick_time(20);
    for node in sim.nodes() {
        assert_eq!(node.node_behaviour().contained.seq(), 4);
        assert_eq!(node.node_behaviour().next_packet(), 25);
    }
}

#[test]
fn empty_behaviour_transmits_nothing() {
    let nodes = vec![
        NodeInit {
            starting_position: [0, 0],
            node_behaviour: EmptyBehaviour::<SequencedFloodPacket>::new(),
            move_behaviour: StaticMovement {},
            propagation_params: SimpleDistanceParams { transmit_distance: 100 },
        },
    ];
    let mut sim: SimManager<
        SimpleDistance,
        EmptyBehaviour<SequencedFloodPacket>,
        StaticMovement,
        (),
    > = SimManager::new(nodes, 1, SimpleDistance, 1, 0);
    let stats = sim.n_ticks(5);
    assert!(stats.iter().all(|s| s.internal_stat(InternalStatKey::PacketTransmits) == 0));
}

#[test]
fn relayed_packets_carry_one_hop_less() {
    let mut sim = line_of_flood_nodes(3, 10, 15);
    let mut origin: Flood<SequencedFloodPacket> = Flood::new(3);
    let first = sim.global_state_manager.nodes()[0];
    let packet = origin.gen_packet(&first, vec![9]);
    let seq = packet.seq();
    sim.global_state_manager.transmit_packet(&first, packet);
    sim.n_ticks(2);
    for i in [0usize, 2] {
        let relayed = &sim.incoming_packets()[i];
        assert_eq!(relayed.len(), 1);
        assert_eq!(relayed[0].get_hop_count(), 2);
        assert_eq!(relayed[0].seq(), seq);
        assert_eq!(relayed[0].src(), 0);
    }
}
