use slant::clock::SimClock;
use slant::builtin::move_behaviours::random_walk::{
    integer_sqrt, step_coordinate, RandomWalk, DIRECTION_RESOLUTION,
};
use slant::node::NodeData;
use slant::builtin::node_behaviours::monotonic::to_big_endian_bytes;
use slant::builtin::packets::multicast::MulticastPacket;
use slant::builtin::packets::multicast_or_unicast::MulticastOrUnicast;
use slant::builtin::packets::unicast::UnicastPacket;
use slant::packets::{copy_bytes, Packet};
use slant::builtin::propagation_models::simple_distance::{SimpleDistance, SimpleDistanceParams};
use slant::propagation_models::{exec_distance_squared, PropagationModel, PropagationParams};
use slant::spatial::{halve_coordinate, halve_position};
use slant::stats::{InternalEvent, InternalStatKey, TimestepStats};

fn node(id: usize, position: [i32; 2], transmit_distance: u32) -> NodeData<SimpleDistanceParams> {
    NodeData { position, id, propagation_params: SimpleDistanceParams { transmit_distance } }
}

#[test]
fn clock_starts_fresh_and_steps_by_delta() {
    let mut clock = SimClock::new(3);
    assert_eq!(clock.current_time(), 0);
    assert_eq!(clock.current_tick(), 0);
    assert_eq!(clock.timestep_delta(), 3);
    clock.advance();
    assert_eq!(clock.current_time(), 0);
    assert_eq!(clock.current_tick(), 0);
    clock.advance();
    assert_eq!(clock.current_time(), 3);
    assert_eq!(clock.current_tick(), 1);
}

#[test]
fn is_time_holds_only_at_the_nearest_tick() {
    let mut clock = SimClock::new(3);
    clock.advance();
    clock.advance();
    clock.advance();
    assert_eq!(clock.current_time(), 6);
    assert!(clock.is_time(5));
    assert!(clock.is_time(6));
    assert!(clock.is_time(7));
    assert!(!clock.is_time(4));
    assert!(!clock.is_time(8));
    let mut even = SimClock::new(4);
    even.advance();
    even.advance();
    assert!(!even.is_time(2));
    assert!(!even.is_time(6));
}

#[test]
fn user_counter_increment_then_decrement_restores() {
    let mut stats: TimestepStats<()> = TimestepStats::new(3);
    stats.inc(1, 5);
    assert_eq!(stats.user_stat(1), 5);
    stats.dec(1, 5);
    assert_eq!((stats.user_stat(0), stats.user_stat(1), stats.user_stat(2)), (0, 0, 0));
    assert_eq!(stats.user_key_count(), 3);
}

#[test]
fn consume_adds_counters_and_appends_events() {
    let mut a: TimestepStats<u8> = TimestepStats::new(1);
    let mut b: TimestepStats<u8> = TimestepStats::new(1);
    a.inc(0, 3);
    b.inc(0, 4);
    a.inc_internal(InternalStatKey::PacketTransmits, 2);
    b.inc_internal(InternalStatKey::PacketTransmits, 5);
    a.add_internal_event(InternalEvent::PacketTransmit(1));
    b.add_internal_event(InternalEvent::PacketLink((2, 3)));
    a.add_user_event(1);
    b.add_user_event(2);
    a.consume(b);
    assert_eq!(a.user_stat(0), 7);
    assert_eq!(a.internal_stat(InternalStatKey::PacketTransmits), 7);
    assert_eq!(a.internal_stat(InternalStatKey::PacketReceives), 0);
    assert_eq!(a.user_events(), &vec![1, 2]);
    assert_eq!(
        a.events(),
        vec![InternalEvent::PacketTransmit(1), InternalEvent::PacketLink((2, 3))]
    );
}

#[test]
fn internal_counters_saturate() {
    let mut stats: TimestepStats<()> = TimestepStats::new(0);
    stats.inc_internal(InternalStatKey::PacketReceives, isize::MAX);
    stats.inc_internal(InternalStatKey::PacketReceives, 1);
    assert_eq!(stats.internal_stat(InternalStatKey::PacketReceives), isize::MAX);
    stats.dec_internal(InternalStatKey::PacketTransmits, isize::MAX);
    stats.dec_internal(InternalStatKey::PacketTransmits, 2);
    assert_eq!(stats.internal_stat(InternalStatKey::PacketTransmits), isize::MIN);
}

#[test]
fn simple_distance_receives_strictly_inside_the_radius() {
    let model = SimpleDistance;
    let a = node(0, [0, 0], 5);
    let b = node(1, [3, 4], 6);
    assert!(!model.signal_received(&a, &b));
    assert!(model.signal_received(&b, &a));
    assert_eq!(a.propagation_params.prune_distance(), 5);
}

#[test]
fn distance_squared_spans_the_whole_coordinate_space() {
    assert_eq!(exec_distance_squared(&[3, -4], &[0, 0]), 25);
    let far = exec_distance_squared(&[i32::MIN, i32::MIN], &[i32::MAX, i32::MAX]);
    assert_eq!(far, 2 * (u32::MAX as u128) * (u32::MAX as u128));
}

#[test]
fn halving_rounds_towards_negative_infinity() {
    assert_eq!(halve_coordinate(3), 1);
    assert_eq!(halve_coordinate(-3), -2);
    assert_eq!(halve_coordinate(i32::MIN), -0x4000_0000);
    assert_eq!(halve_coordinate(i32::MAX), 0x3fff_ffff);
    assert_eq!(halve_position(&[-1, 4]), [-1, 2]);
}

#[test]
fn integer_sqrt_is_the_floor_of_the_square_root() {
    assert_eq!(integer_sqrt(0), 0);
    assert_eq!(integer_sqrt(1), 1);
    assert_eq!(integer_sqrt(15), 3);
    assert_eq!(integer_sqrt(16), 4);
    assert_eq!(integer_sqrt(u64::MAX as u128), 0xffff_ffff);
    assert_eq!(integer_sqrt(u128::MAX), 0xffff_ffff_ffff_ffff);
}

#[test]
fn steps_stop_at_the_edge_of_the_coordinate_space() {
    assert_eq!(step_coordinate(-3, 5), 2);
    assert_eq!(step_coordinate(i32::MAX - 1, 5), i32::MAX);
    assert_eq!(step_coordinate(i32::MIN, -1), i32::MIN);
}

#[test]
fn random_walk_starts_still() {
    let walk = RandomWalk::new(10, 20);
    assert_eq!(walk.direction(), [0, 0]);
    assert_eq!(DIRECTION_RESOLUTION, 1024);
}

#[test]
fn node_ids_are_encoded_big_endian() {
    assert_eq!(to_big_endian_bytes(258, 8), vec![0, 0, 0, 0, 0, 0, 1, 2]);
    assert_eq!(to_big_endian_bytes(u64::MAX, 2), vec![255, 255]);
    assert!(to_big_endian_bytes(7, 0).is_empty());
}

#[test]
fn packets_expose_content_and_targets() {
    let target = node(4, [1, 1], 1);
    let other = node(5, [1, 1], 1);
    let multicast = MulticastOrUnicast::MulticastPacket(MulticastPacket { content: vec![1] });
    let unicast =
        MulticastOrUnicast::UnicastPacket(UnicastPacket { target: 4, content: vec![2, 3] });
    assert!(multicast.eager_targets().is_none());
    assert!(multicast.targets(&other));
    assert_eq!(unicast.eager_targets(), Some(vec![4]));
    assert!(unicast.targets(&target));
    assert!(!unicast.targets(&other));
    assert_eq!(unicast.content_ref(), &vec![2, 3]);
    assert_eq!(unicast.clone().content(), vec![2, 3]);
    assert_eq!(copy_bytes(&vec![9, 8]), vec![9, 8]);
}
