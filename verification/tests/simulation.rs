use rand::SeedableRng;
use rand_xoshiro::Xoshiro256Plus;
use slant::managers::SimManager;
use slant::builtin::move_behaviours::random_walk::RandomWalk;
use slant::builtin::move_behaviours::static_movement::StaticMovement;
use slant::node::{NodeID, NodeInit};
use slant::builtin::node_behaviours::empty_behaviour::EmptyBehaviour;
use slant::builtin::node_behaviours::monotonic::{
    Monotonic, MulticastGenerator, MulticastOrUnicastGenerator,
};
use slant::builtin::packets::multicast::MulticastPacket;
use slant::builtin::packets::multicast_or_unicast::MulticastOrUnicast;
use slant::builtin::packets::unicast::UnicastPacket;
use slant::packets::Packet;
use slant::builtin::propagation_models::simple_distance::{SimpleDistance, SimpleDistanceParams};
use slant::stats::{InternalEvent, InternalStatKey, TimestepStats};
use slant::traffic_generators::{mixed_multicast_and_random_target_unicast, GENERATED_PACKET_SIZE};

type EmptySim<P> = SimManager<SimpleDistance, EmptyBehaviour<P>, StaticMovement, ()>;

fn static_nodes<P>(
    positions: &[[i32; 2]],
    transmit_distance: u32,
) -> Vec<NodeInit<EmptyBehaviour<P>, StaticMovement, SimpleDistanceParams>> {
    positions
        .iter()
        .map(|p| NodeInit {
            starting_position: *p,
            node_behaviour: EmptyBehaviour::new(),
            move_behaviour: StaticMovement {},
            propagation_params: SimpleDistanceParams { transmit_distance },
        })
        .collect()
}

fn link_count(stats: TimestepStats<()>) -> isize {
    stats
        .events()
        .iter()
        .filter(|e| matches!(e, InternalEvent::PacketLink(_)))
        .count() as isize
}

#[test]
fn tick_time() {
    let delta = 5;

    let mut sim: EmptySim<MulticastPacket> =
        SimManager::new(Vec::new(), 100, SimpleDistance, delta, 0);

    sim.tick_time(1000);

    assert_eq!(sim.global_state_manager.current_time(), 1000);
    assert_eq!(sim.global_state_manager.current_tick(), (1000 / delta) as usize);
}

#[test]
fn monotonic() {
    let interval: u64 = 10;
    let tick_time: u64 = 1000;

    let mut sim_manager: SimManager<
        SimpleDistance,
        Monotonic<EmptyBehaviour<MulticastPacket>, MulticastGenerator>,
        StaticMovement,
        (),
    > = SimManager::new(
        vec![NodeInit {
            node_behaviour: Monotonic::new(EmptyBehaviour::new(), interval, MulticastGenerator),
            starting_position: [0, 0],
            move_behaviour: StaticMovement {},
            propagation_params: SimpleDistanceParams { transmit_distance: 0 },
        }],
        123,
        SimpleDistance,
        3,
        0,
    );

    let stats = sim_manager.tick_time(tick_time);
    let packets_transmitted: isize = stats
        .iter()
        .map(|stat| stat.internal_stat(InternalStatKey::PacketTransmits))
        .sum();

    assert_eq!(packets_transmitted, (tick_time / interval) as isize);
}

#[test]
fn tick_time_on_a_fresh_simulation_includes_the_tick_at_time_zero() {
    let mut sim: EmptySim<MulticastPacket> =
        SimManager::new(static_nodes(&[[0, 0]], 1), 1, SimpleDistance, 5, 0);
    let stats = sim.tick_time(1000);
    assert_eq!(stats.len(), 201);
    let more = sim.tick_time(12);
    assert_eq!(more.len(), 2);
    assert_eq!(sim.global_state_manager.current_time(), 1010);
}

#[test]
fn n_ticks_advances_the_clock_one_step_per_tick() {
    let mut sim: EmptySim<MulticastPacket> =
        SimManager::new(static_nodes(&[[0, 0], [5, 5]], 1), 1, SimpleDistance, 7, 2);
    let stats = sim.n_ticks(4);
    assert_eq!(stats.len(), 4);
    assert_eq!(sim.global_state_manager.current_time(), 21);
    assert_eq!(sim.global_state_manager.current_tick(), 3);
    assert!(stats.iter().all(|s| s.user_key_count() == 2));
}

#[test]
fn multicast_reaches_exactly_the_other_nodes_in_range() {
    let positions = [[0, 0], [3, 4], [6, 8], [0, -7], [1000, 0]];
    let mut sim: EmptySim<MulticastPacket> =
        SimManager::new(static_nodes(&positions, 8), 9, SimpleDistance, 1, 0);
    sim.tick();
    let data = sim.global_state_manager.nodes()[0];
    sim.global_state_manager
        .transmit_packet(&data, MulticastPacket { content: vec![1, 2, 3] });
    let stats = sim.global_state_manager.current_stats();
    assert_eq!(stats.internal_stat(InternalStatKey::PacketTransmits), 1);
    sim.tick();
    let lens: Vec<usize> = sim.incoming_packets().iter().map(|v| v.len()).collect();
    assert_eq!(lens, vec![0, 1, 0, 1, 0]);
    assert_eq!(sim.incoming_packets()[1][0].content_ref(), &vec![1, 2, 3]);
    assert_eq!(sim.incoming_packets()[3][0].content_ref(), &vec![1, 2, 3]);
}

#[test]
fn recipients_are_recorded_as_link_events_after_the_transmission() {
    let positions = [[0, 0], [0, 2], [2, 0]];
    let mut sim: EmptySim<MulticastPacket> =
        SimManager::new(static_nodes(&positions, 3), 9, SimpleDistance, 1, 0);
    let data = sim.global_state_manager.nodes()[2];
    sim.global_state_manager.transmit_packet(&data, MulticastPacket { content: vec![] });
    let events = sim.global_state_manager.current_stats().internal_events().clone();
    assert_eq!(events[0], InternalEvent::PacketTransmit(2));
    let mut links: Vec<(NodeID, NodeID)> = events[1..]
        .iter()
        .map(|e| match e {
            InternalEvent::PacketLink(l) => *l,
            InternalEvent::PacketTransmit(_) => panic!("only links follow the transmission"),
        })
        .collect();
    links.sort();
    assert_eq!(links, vec![(2, 0), (2, 1)]);
}

#[test]
fn unicast_reaches_only_its_target() {
    let positions = [[0, 0], [3, 4], [6, 8]];
    let mut sim: EmptySim<MulticastOrUnicast> =
        SimManager::new(static_nodes(&positions, 100), 9, SimpleDistance, 1, 0);
    let data = sim.global_state_manager.nodes()[0];
    sim.global_state_manager.transmit_packet(
        &data,
        MulticastOrUnicast::UnicastPacket(UnicastPacket { target: 2, content: vec![9] }),
    );
    sim.tick();
    let lens: Vec<usize> = sim.incoming_packets().iter().map(|v| v.len()).collect();
    assert_eq!(lens, vec![0, 0, 1]);
    assert!(matches!(
        &sim.incoming_packets()[2][0],
        MulticastOrUnicast::UnicastPacket(p) if p.target == 2 && p.content == vec![9]
    ));
}

#[test]
fn unicast_out_of_range_is_lost() {
    let positions = [[0, 0], [30, 40]];
    let mut sim: EmptySim<MulticastOrUnicast> =
        SimManager::new(static_nodes(&positions, 50), 9, SimpleDistance, 1, 0);
    let data = sim.global_state_manager.nodes()[0];
    sim.global_state_manager.transmit_packet(
        &data,
        MulticastOrUnicast::UnicastPacket(UnicastPacket { target: 1, content: vec![] }),
    );
    assert!(sim.global_state_manager.eager_targets_exist(&MulticastOrUnicast::UnicastPacket(
        UnicastPacket { target: 1, content: vec![] }
    )));
    assert!(!sim.global_state_manager.eager_targets_exist(&MulticastOrUnicast::UnicastPacket(
        UnicastPacket { target: 2, content: vec![] }
    )));
    sim.tick();
    assert_eq!(sim.incoming_packets()[1].len(), 0);
}

#[test]
fn packets_received_in_a_tick_are_those_linked_in_the_previous_one() {
    let nodes: Vec<_> = (0..8)
        .map(|i: i32| NodeInit {
            starting_position: [(i % 3) * 10, (i / 3) * 10],
            node_behaviour: Monotonic::new(EmptyBehaviour::new(), 10, MulticastOrUnicastGenerator),
            move_behaviour: RandomWalk::new(2, 20),
            propagation_params: SimpleDistanceParams { transmit_distance: 15 },
        })
        .collect();
    let mut sim: SimManager<
        SimpleDistance,
        Monotonic<EmptyBehaviour<MulticastOrUnicast>, MulticastOrUnicastGenerator>,
        RandomWalk,
        (),
    > = SimManager::new(nodes, 123, SimpleDistance, 1, 0);
    let stats = sim.tick_time(1000);
    assert_eq!(stats.len(), 1001);
    let transmitted: isize =
        stats.iter().map(|s| s.internal_stat(InternalStatKey::PacketTransmits)).sum();
    assert_eq!(transmitted, 800);
    let receives: Vec<isize> =
        stats.iter().map(|s| s.internal_stat(InternalStatKey::PacketReceives)).collect();
    let links: Vec<isize> = stats.into_iter().map(link_count).collect();
    assert_eq!(receives[0], 0);
    for k in 1..receives.len() {
        assert_eq!(receives[k], links[k - 1]);
    }
    assert!(links.iter().sum::<isize>() > 0);
}

#[test]
fn random_walk_moves_every_node_away_from_its_start() {
    let starts: Vec<[i32; 2]> = (0..8).map(|i: i32| [(i % 3) * 10, (i / 3) * 10]).collect();
    let nodes: Vec<_> = starts
        .iter()
        .map(|p| NodeInit {
            starting_position: *p,
            node_behaviour: EmptyBehaviour::<MulticastPacket>::new(),
            move_behaviour: RandomWalk::new(100, 20),
            propagation_params: SimpleDistanceParams { transmit_distance: 1 },
        })
        .collect();
    let mut sim: SimManager<SimpleDistance, EmptyBehaviour<MulticastPacket>, RandomWalk, ()> =
        SimManager::new(nodes, 123, SimpleDistance, 1, 0);
    sim.tick_time(1000);
    for (node, start) in sim.nodes().iter().zip(starts.iter()) {
        assert_ne!(node.data().position, *start);
    }
}

#[test]
fn random_walk_keeps_its_direction_between_changes() {
    let mut sim: SimManager<SimpleDistance, EmptyBehaviour<MulticastPacket>, RandomWalk, ()> =
        SimManager::new(
            vec![
                NodeInit {
                    starting_position: [0, 0],
                    node_behaviour: EmptyBehaviour::new(),
                    move_behaviour: RandomWalk::new(100, 1000),
                    propagation_params: SimpleDistanceParams { transmit_distance: 1 },
                },
                NodeInit {
                    starting_position: [5, 5],
                    node_behaviour: EmptyBehaviour::new(),
                    move_behaviour: RandomWalk::new(0, 1000),
                    propagation_params: SimpleDistanceParams { transmit_distance: 1 },
                },
            ],
            42,
            SimpleDistance,
            1,
            0,
        );
    sim.tick();
    let d = sim.nodes()[0].move_behaviour().direction();
    assert!(d[0].abs() <= 100 && d[1].abs() <= 100);
    assert!(d[0] * d[0] + d[1] * d[1] >= 90 * 90);
    assert_eq!(sim.nodes()[0].data().position, d);
    sim.n_ticks(2);
    assert_eq!(sim.nodes()[0].data().position, [3 * d[0], 3 * d[1]]);
    assert_eq!(sim.nodes()[1].data().position, [5, 5]);
    assert_eq!(sim.nodes()[1].move_behaviour().direction(), [0, 0]);
}

#[test]
fn random_draws_come_from_the_generator_seeded_with_seed_plus_id() {
    let mut a: EmptySim<MulticastPacket> =
        SimManager::new(static_nodes(&[[0, 0], [0, 0]], 1), 10, SimpleDistance, 1, 0);
    let mut b: EmptySim<MulticastPacket> =
        SimManager::new(static_nodes(&[[0, 0]], 1), 11, SimpleDistance, 1, 0);
    let from_a: Vec<u64> = (0..4).map(|_| a.global_state_manager.get_random(1)).collect();
    let from_b: Vec<u64> = (0..4).map(|_| b.global_state_manager.get_random(0)).collect();
    assert_eq!(from_a, from_b);
    assert_ne!(from_a[0], from_a[1]);
    for _ in 0..100 {
        let r = a.global_state_manager.get_random_range(0, -5, 5);
        assert!((-5..5).contains(&r));
    }
}

#[test]
fn user_counters_and_events_are_recorded_per_tick() {
    let mut sim: SimManager<SimpleDistance, EmptyBehaviour<MulticastPacket>, StaticMovement, u8> =
        SimManager::new(Vec::new(), 1, SimpleDistance, 1, 2);
    sim.global_state_manager.inc(1, 7);
    sim.global_state_manager.dec(0, 3);
    sim.global_state_manager.add_event(4);
    let stats = sim.global_state_manager.current_stats();
    assert_eq!(stats.user_stat(0), -3);
    assert_eq!(stats.user_stat(1), 7);
    assert_eq!(stats.user_events(), &vec![4u8]);
    let next = sim.tick();
    assert_eq!(next.user_stat(1), 0);
    assert!(next.user_events().is_empty());
}

#[test]
fn generated_traffic_carries_random_bytes_to_valid_recipients() {
    let positions = [[0, 0], [1, 0], [0, 1], [1, 1]];
    let mut sim: EmptySim<MulticastOrUnicast> =
        SimManager::new(static_nodes(&positions, 10), 5, SimpleDistance, 1, 0);
    let mut rng = Xoshiro256Plus::seed_from_u64(7);
    mixed_multicast_and_random_target_unicast(&mut rng, &mut sim.global_state_manager, 3, 5);
    let stats = sim.global_state_manager.current_stats();
    assert_eq!(stats.internal_stat(InternalStatKey::PacketTransmits), 8);
    sim.tick();
    let mut multicast = 0;
    let mut unicast = 0;
    for (i, packets) in sim.incoming_packets().iter().enumerate() {
        for p in packets {
            assert_eq!(p.content_ref().len(), GENERATED_PACKET_SIZE);
            match p {
                MulticastOrUnicast::MulticastPacket(_) => multicast += 1,
                MulticastOrUnicast::UnicastPacket(u) => {
                    assert_eq!(u.target, i);
                    unicast += 1;
                }
            }
        }
    }
    assert_eq!(multicast, 9);
    assert_eq!(unicast, 5);
    let all_zero = sim
        .incoming_packets()
        .iter()
        .flatten()
        .all(|p| p.content_ref().iter().all(|b| *b == 0));
    assert!(!all_zero);
}

#[test]
fn packets_sent_before_a_tick_lead_the_incoming_lists_after_it() {
    let positions = [[0, 0], [1, 0], [2, 0]];
    let nodes: Vec<_> = positions
        .iter()
        .map(|p| NodeInit {
            starting_position: *p,
            node_behaviour: Monotonic::new(EmptyBehaviour::new(), 0, MulticastGenerator),
            move_behaviour: StaticMovement {},
            propagation_params: SimpleDistanceParams { transmit_distance: 5 },
        })
        .collect();
    let mut sim: SimManager<
        SimpleDistance,
        Monotonic<EmptyBehaviour<MulticastPacket>, MulticastGenerator>,
        StaticMovement,
        (),
    > = SimManager::new(nodes, 3, SimpleDistance, 1, 0);
    let first = sim.global_state_manager.nodes()[0];
    let last = sim.global_state_manager.nodes()[2];
    sim.global_state_manager.transmit_packet(&first, MulticastPacket { content: vec![10] });
    sim.global_state_manager.transmit_packet(&last, MulticastPacket { content: vec![20] });
    let stats = sim.tick();
    assert_eq!(stats.internal_stat(InternalStatKey::PacketTransmits), 3);
    let middle = &sim.incoming_packets()[1];
    assert_eq!(middle.len(), 4);
    assert_eq!(middle[0].content, vec![10]);
    assert_eq!(middle[1].content, vec![20]);
    assert_eq!(middle[2].content.len(), 8);
}

#[test]
fn extreme_positions_are_found_by_the_spatial_index() {
    let positions = [[i32::MIN, i32::MIN], [i32::MAX, i32::MAX], [0, 0]];
    let mut sim: EmptySim<MulticastPacket> =
        SimManager::new(static_nodes(&positions, u32::MAX), 9, SimpleDistance, 1, 0);
    let centre = sim.global_state_manager.nodes()[2];
    sim.global_state_manager.transmit_packet(&centre, MulticastPacket { content: vec![] });
    sim.tick();
    let lens: Vec<usize> = sim.incoming_packets().iter().map(|v| v.len()).collect();
    assert_eq!(lens, vec![1, 1, 0]);
    let corner = sim.global_state_manager.nodes()[0];
    sim.global_state_manager.transmit_packet(&corner, MulticastPacket { content: vec![] });
    sim.tick();
    let lens: Vec<usize> = sim.incoming_packets().iter().map(|v| v.len()).collect();
    assert_eq!(lens, vec![0, 0, 1]);
}

#[test]
fn draws_for_one_node_leave_other_generators_alone() {
    let mut a: EmptySim<MulticastPacket> =
        SimManager::new(static_nodes(&[[0, 0], [0, 0]], 1), 20, SimpleDistance, 1, 0);
    let mut b: EmptySim<MulticastPacket> =
        SimManager::new(static_nodes(&[[0, 0], [0, 0]], 20), 20, SimpleDistance, 1, 0);
    let mut from_a = Vec::new();
    for _ in 0..4 {
        a.global_state_manager.get_random(0);
        a.global_state_manager.get_random_range(0, 0, 10);
        from_a.push(a.global_state_manager.get_random(1));
    }
    let from_b: Vec<u64> = (0..4).map(|_| b.global_state_manager.get_random(1)).collect();
    assert_eq!(from_a, from_b);
}

#[test]
fn random_walk_changes_direction_every_change_delay_ticks() {
    let mut sim: SimManager<SimpleDistance, EmptyBehaviour<MulticastPacket>, RandomWalk, ()> =
        SimManager::new(
            vec![NodeInit {
                starting_position: [0, 0],
                node_behaviour: EmptyBehaviour::new(),
                move_behaviour: RandomWalk::new(100, 4),
                propagation_params: SimpleDistanceParams { transmit_distance: 1 },
            }],
            77,
            SimpleDistance,
            2,
            0,
        );
    sim.tick();
    let first = sim.nodes()[0].move_behaviour().direction();
    for _ in 0..3 {
        sim.tick();
        assert_eq!(sim.nodes()[0].move_behaviour().direction(), first);
    }
    sim.tick();
    assert_eq!(sim.global_state_manager.current_tick(), 4);
    let second = sim.nodes()[0].move_behaviour().direction();
    assert_ne!(second, first);
    assert!(second[0] * second[0] + second[1] * second[1] <= 200 * 200);
}

#[test]
fn the_global_state_is_reachable_through_accessors() {
    let positions = [[0, 0], [1, 0], [5, 0]];
    let mut sim: EmptySim<MulticastPacket> =
        SimManager::new(static_nodes(&positions, 2), 7, SimpleDistance, 1, 0);
    let first = sim.global_state_manager().nodes()[0];
    sim.global_state_manager_mut().transmit_packet(&first, MulticastPacket { content: vec![7] });
    let events = sim.global_state_manager().current_stats().internal_events().clone();
    assert_eq!(events, vec![InternalEvent::PacketTransmit(0), InternalEvent::PacketLink((0, 1))]);
    sim.tick();
    let lens: Vec<usize> = sim.incoming_packets().iter().map(|v| v.len()).collect();
    assert_eq!(lens, vec![0, 1, 0]);
    assert_eq!(sim.global_state_manager().current_tick(), 0);
}

/// Nodes laid out as a square grid of side `num_nodes.sqrt()` with `gap` between neighbours.
fn grid_positions(num_nodes: usize, gap: f64) -> Vec<[i32; 2]> {
    let dim = (num_nodes as f64).sqrt();
    (0..num_nodes)
        .map(|i| {
            let mut coord = [0i32; 2];
            let mut rem = i as f64;
            for c in coord.iter_mut() {
                *c = ((rem % dim) * gap).round() as i32;
                rem /= dim;
            }
            coord
        })
        .collect()
}

#[test]
fn one_hundred_secs_random_walk() {
    // One unit of distance here is a thousandth of a unit of the transmit distance, and one unit
    // of time a tenth of a second: 100 seconds in steps of 0.1 s, a packet every second, a walk
    // at 0.1 distance units per second changing direction every 2 seconds.
    let starts = grid_positions(8, 1000.0);
    let nodes: Vec<_> = starts
        .iter()
        .map(|p| NodeInit {
            starting_position: *p,
            node_behaviour: Monotonic::new(EmptyBehaviour::new(), 10, MulticastOrUnicastGenerator),
            move_behaviour: RandomWalk::new(10, 20),
            propagation_params: SimpleDistanceParams { transmit_distance: 1000 },
        })
        .collect();
    let mut sim_manager: SimManager<
        SimpleDistance,
        Monotonic<EmptyBehaviour<MulticastOrUnicast>, MulticastOrUnicastGenerator>,
        RandomWalk,
        (),
    > = SimManager::new(nodes, 123, SimpleDistance, 1, 0);

    let stats = sim_manager.tick_time(1000);

    let mut packets_transmitted = 0;
    let mut packets_received = 0;
    for stat in stats.iter() {
        packets_transmitted += stat.internal_stat(InternalStatKey::PacketTransmits);
        packets_received += stat.internal_stat(InternalStatKey::PacketReceives);
    }
    assert_eq!(packets_transmitted, 800);
    assert!(packets_received > 0);
    assert!(sim_manager
        .global_state_manager
        .nodes()
        .iter()
        .zip(starts.iter())
        .all(|(new, start)| new.position != *start));
}

#[test]
fn ticking_in_two_runs_matches_ticking_in_one() {
    let make = || -> SimManager<
        SimpleDistance,
        Monotonic<EmptyBehaviour<MulticastOrUnicast>, MulticastOrUnicastGenerator>,
        RandomWalk,
        (),
    > {
        let nodes = grid_positions(4, 50.0)
            .into_iter()
            .map(|p| NodeInit {
                starting_position: p,
                node_behaviour: Monotonic::new(EmptyBehaviour::new(), 2, MulticastOrUnicastGenerator),
                move_behaviour: RandomWalk::new(7, 3),
                propagation_params: SimpleDistanceParams { transmit_distance: 60 },
            })
            .collect();
        SimManager::new(nodes, 9, SimpleDistance, 1, 0)
    };
    let mut split = make();
    let mut whole = make();
    let mut split_stats = split.n_ticks(3);
    split_stats.extend(split.n_ticks(4));
    let whole_stats = whole.n_ticks(7);
    assert_eq!(split_stats.len(), 7);
    assert_eq!(split.global_state_manager.current_tick(), 6);
    assert_eq!(whole.global_state_manager.current_tick(), 6);
    assert_eq!(split.global_state_manager.current_time(), 6);
    for (a, b) in split_stats.iter().zip(whole_stats.iter()) {
        assert_eq!(a.internal_events(), b.internal_events());
        assert_eq!(
            a.internal_stat(InternalStatKey::PacketReceives),
            b.internal_stat(InternalStatKey::PacketReceives)
        );
    }
    for (a, b) in split.nodes().iter().zip(whole.nodes().iter()) {
        assert_eq!(a.data().position, b.data().position);
    }
}

#[test]
fn consumed_stats_are_handed_out_once() {
    let mut sim: SimManager<SimpleDistance, EmptyBehaviour<MulticastPacket>, StaticMovement, u8> =
        SimManager::new(Vec::new(), 1, SimpleDistance, 1, 1);
    sim.global_state_manager.inc(0, 5);
    sim.global_state_manager.add_event(9);
    let taken = sim.global_state_manager.consume_stats();
    assert_eq!(taken.user_stat(0), 5);
    assert_eq!(taken.user_events(), &vec![9u8]);
    let left = sim.global_state_manager.current_stats();
    assert_eq!(left.user_stat(0), 0);
    assert!(left.user_events().is_empty());
}

#[test]
fn monotonic_packets_come_once_per_interval() {
    let mut sim: SimManager<
        SimpleDistance,
        Monotonic<EmptyBehaviour<MulticastPacket>, MulticastGenerator>,
        StaticMovement,
        (),
    > = SimManager::new(
        vec![NodeInit {
            node_behaviour: Monotonic::new(EmptyBehaviour::new(), 3, MulticastGenerator),
            starting_position: [0, 0],
            move_behaviour: StaticMovement {},
            propagation_params: SimpleDistanceParams { transmit_distance: 0 },
        }],
        5,
        SimpleDistance,
        1,
        0,
    );
    let transmits: Vec<isize> = sim
        .n_ticks(10)
        .iter()
        .map(|s| s.internal_stat(InternalStatKey::PacketTransmits))
        .collect();
    assert_eq!(transmits, vec![0, 0, 0, 1, 0, 0, 1, 0, 0, 1]);
}

#[test]
fn random_walk_moves_at_its_speed_up_to_rounding() {
    for seed in 0..20u64 {
        let mut sim: SimManager<SimpleDistance, EmptyBehaviour<MulticastPacket>, RandomWalk, ()> =
            SimManager::new(
                vec![NodeInit {
                    starting_position: [0, 0],
                    node_behaviour: EmptyBehaviour::new(),
                    move_behaviour: RandomWalk::new(250, 4),
                    propagation_params: SimpleDistanceParams { transmit_distance: 1 },
                }],
                seed,
                SimpleDistance,
                2,
                0,
            );
        for _ in 0..9 {
            sim.tick();
            let d = sim.nodes()[0].move_behaviour().direction();
            let (a, b) = (d[0].abs() as i64, d[1].abs() as i64);
            assert!(a * a + b * b <= 500 * 500);
            assert!(500 * 500 < (a + 1) * (a + 1) + (b + 1) * (b + 1));
        }
    }
}
