//! A wrapping behaviour which ticks another behaviour and also generates packets at a fixed
//! interval of simulation time.
use crate::behaviours::NodeBehaviour;
use crate::builtin::packets::multicast::MulticastPacket;
use crate::builtin::packets::multicast_or_unicast::MulticastOrUnicast;
use crate::clock::spec_is_time;
use crate::clock::SimClock;
use crate::managers::GlobalStateManager;
use crate::stats::InternalEvent;
use crate::node::{NodeData, NodeID};
use crate::packets::Packet;
use crate::propagation_models::{PropagationModel, PropagationParams};
use vstd::prelude::*;

verus! {

/// The last `count` bytes of `value`, most significant first.
pub open spec fn big_endian_bytes(value: nat, count: nat) -> Seq<u8>
    decreases count,
{
    if count == 0 {
        seq![]
    } else {
        big_endian_bytes(value / 256, (count - 1) as nat).push((value % 256) as u8)
    }
}

/// The number whose big-endian bytes (most significant first) are `bytes`.
pub open spec fn from_big_endian(bytes: Seq<u8>) -> nat
    decreases bytes.len(),
{
    if bytes.len() == 0 {
        0
    } else {
        from_big_endian(bytes.drop_last()) * 256 + bytes.last() as nat
    }
}

/// The number of values `count` bytes can hold: `256` to the power `count`.
pub open spec fn byte_values(count: nat) -> nat
    decreases count,
{
    if count == 0 {
        1
    } else {
        256 * byte_values((count - 1) as nat)
    }
}

/// Writing a value that fits in `count` bytes as `count` big-endian bytes and reading them back
/// gives the value.
pub proof fn lemma_big_endian_round_trip(value: nat, count: nat)
    requires
        value < byte_values(count),
    ensures
        big_endian_bytes(value, count).len() == count,
        from_big_endian(big_endian_bytes(value, count)) == value,
    decreases count,
{
    if count > 0 {
        let rest = (count - 1) as nat;
        vstd::arithmetic::div_mod::lemma_fundamental_div_mod(value as int, 256);
        vstd::arithmetic::div_mod::lemma_mod_bound(value as int, 256);
        assert(value / 256 < byte_values(rest)) by (nonlinear_arith)
            requires
                value < 256 * byte_values(rest),
                value == 256 * (value / 256) + value % 256,
                0 <= value % 256 < 256,
        ;
        lemma_big_endian_round_trip(value / 256, rest);
        let bytes = big_endian_bytes(value, count);
        assert(bytes.drop_last() =~= big_endian_bytes(value / 256, rest));
        assert(bytes.last() as nat == value % 256);
    }
}

/// A node ID fits in eight bytes.
pub proof fn lemma_node_ids_fit_in_eight_bytes(id: NodeID)
    ensures
        id < byte_values(8),
{
    reveal_with_fuel(byte_values, 9);
    assert(byte_values(8) == 0x1_0000_0000_0000_0000);
}

/// The last `count` bytes of `value`, most significant first.
pub fn to_big_endian_bytes(value: u64, count: usize) -> (bytes: Vec<u8>)
    ensures
        bytes@ == big_endian_bytes(value as nat, count as nat),
        bytes@.len() == count,
        value < byte_values(count as nat) ==> from_big_endian(bytes@) == value,
    decreases count,
{
    proof {
        if value < byte_values(count as nat) {
            lemma_big_endian_round_trip(value as nat, count as nat);
        }
    }
    if count == 0 {
        Vec::new()
    } else {
        let mut bytes = to_big_endian_bytes(value / 256, count - 1);
        bytes.push((value % 256) as u8);
        bytes
    }
}

/// Makes the packet that a [Monotonic] behaviour broadcasts, from the contained behaviour, the
/// node's data and the bytes the packet should carry (the node's ID, big-endian).
pub trait PacketGenerator<T, PP> {
    type P: Packet;

    /// `packet` is a packet this generator may make from `contained`, `data` and `content`,
    /// leaving the contained behaviour as `contained_after`.
    spec fn spec_generates(
        &self,
        contained: T,
        data: NodeData<PP>,
        content: Seq<u8>,
        packet: Self::P,
        contained_after: T,
    ) -> bool;

    fn generate(&self, contained: &mut T, node_data: &NodeData<PP>, content: Vec<u8>) -> (p: Self::P)
        ensures
            self.spec_generates(*old(contained), *node_data, content@, p, *final(contained)),
    ;
}

/// Generates a [MulticastPacket] carrying the given bytes.
#[derive(Clone, Copy)]
pub struct MulticastGenerator;

impl<T, PP> PacketGenerator<T, PP> for MulticastGenerator {
    type P = MulticastPacket;

    open spec fn spec_generates(
        &self,
        contained: T,
        data: NodeData<PP>,
        content: Seq<u8>,
        packet: MulticastPacket,
        contained_after: T,
    ) -> bool {
        packet.content@ == content && contained_after == contained
    }

    fn generate(&self, _contained: &mut T, _node_data: &NodeData<PP>, content: Vec<u8>) -> (p:
        MulticastPacket) {
        MulticastPacket { content }
    }
}

/// Generates a multicast [MulticastOrUnicast] packet carrying the given bytes.
#[derive(Clone, Copy)]
pub struct MulticastOrUnicastGenerator;

impl<T, PP> PacketGenerator<T, PP> for MulticastOrUnicastGenerator {
    type P = MulticastOrUnicast;

    open spec fn spec_generates(
        &self,
        contained: T,
        data: NodeData<PP>,
        content: Seq<u8>,
        packet: MulticastOrUnicast,
        contained_after: T,
    ) -> bool {
        &&& packet matches MulticastOrUnicast::MulticastPacket(m) && m.content@ == content
        &&& contained_after == contained
    }

    fn generate(&self, _contained: &mut T, _node_data: &NodeData<PP>, content: Vec<u8>) -> (p:
        MulticastOrUnicast) {
        MulticastOrUnicast::MulticastPacket(MulticastPacket { content })
    }
}

/// The bytes a [Monotonic] behaviour hands its generator: the node's ID, big-endian.
pub open spec fn id_bytes<PP>(data: NodeData<PP>) -> Seq<u8> {
    big_endian_bytes(data.id as nat, 8)
}

/// The bytes a [Monotonic] behaviour hands its generator encode the node's ID: eight bytes that,
/// read big-endian, give back the ID.
pub proof fn lemma_id_bytes_encode_the_id<PP>(data: NodeData<PP>)
    ensures
        id_bytes(data).len() == 8,
        from_big_endian(id_bytes(data)) == data.id,
{
    lemma_node_ids_fit_in_eight_bytes(data.id);
    lemma_big_endian_round_trip(data.id as nat, 8);
}

/// The first event `after` records beyond `before` is a transmission by node `id`.
pub open spec fn transmits_next(before: Seq<InternalEvent>, after: Seq<InternalEvent>, id: NodeID) -> bool {
    &&& after.len() > before.len()
    &&& after[before.len() as int] == InternalEvent::PacketTransmit(id)
}

/// This behaviour wraps another behaviour and ticks it every tick. Every `generation_interval`
/// time units it also generates a packet with its generator, from the contained behaviour, the
/// node's data and the node's ID as big-endian bytes, and transmits it.
pub struct Monotonic<T, G> {
    /// Interval between packet generations in simulation time.
    pub generation_interval: u64,
    next_packet: u64,
    generator: G,
    /// The contained behaviour which is ticked by Monotonic.
    pub contained: T,
}

impl<T, G> Monotonic<T, G> {
    pub closed spec fn spec_next_packet(&self) -> u64 {
        self.next_packet
    }

    pub closed spec fn spec_generation_interval(&self) -> u64 {
        self.generation_interval
    }

    pub closed spec fn spec_contained(&self) -> T {
        self.contained
    }

    pub closed spec fn spec_generator(&self) -> G {
        self.generator
    }

    /// # Arguments
    ///
    /// * `contained`: The behaviour that will be wrapped and ticked each tick.
    /// * `generation_interval`: Interval between transmissions in simulation time; the first is
    ///   due at time `generation_interval`.
    /// * `generator`: Makes each packet.
    pub fn new(contained: T, generation_interval: u64, generator: G) -> (m: Self)
        ensures
            m.spec_generation_interval() == generation_interval,
            m.spec_next_packet() == generation_interval,
            m.spec_contained() == contained,
            m.spec_generator() == generator,
    {
        Monotonic { generation_interval, next_packet: generation_interval, generator, contained }
    }

    /// The time the next packet is due.
    pub fn next_packet(&self) -> (t: u64)
        ensures
            t == self.spec_next_packet(),
    {
        self.next_packet
    }
}

/// The number of intervals of `q` ticks that have begun by tick `k`: 1 at tick 0, and at tick
/// `k >= 1` one more than the whole intervals before it.
pub open spec fn intervals_begun(k: int, q: int) -> int {
    if k == 0 {
        1
    } else {
        (k - 1) / q + 1
    }
}

/// How the number of intervals begun changes from tick `k` to tick `k + 1`: it grows by one
/// exactly after a tick `k >= 1` that ends an interval (`k == q * intervals_begun(k, q)`), which
/// happens exactly at the positive multiples of `q`.
proof fn lemma_intervals_begun(k: int, q: int)
    requires
        k >= 0,
        q >= 1,
    ensures
        intervals_begun(k, q) >= 1,
        q * intervals_begun(k, q) <= k + q,
        (k == q * intervals_begun(k, q)) <==> (k >= 1 && k % q == 0),
        intervals_begun(k + 1, q) == if k == q * intervals_begun(k, q) {
            intervals_begun(k, q) + 1
        } else {
            intervals_begun(k, q)
        },
{
    if k >= 1 {
        vstd::arithmetic::div_mod::lemma_fundamental_div_mod(k - 1, q);
        vstd::arithmetic::div_mod::lemma_mod_bound(k - 1, q);
        vstd::arithmetic::div_mod::lemma_fundamental_div_mod(k, q);
        vstd::arithmetic::div_mod::lemma_mod_bound(k, q);
        vstd::arithmetic::div_mod::lemma_div_pos_is_pos(k - 1, q);
        let a = (k - 1) / q;
        let r = (k - 1) % q;
        assert(k == q * a + r + 1);
        if r == q - 1 {
            assert(k == q * (a + 1)) by (nonlinear_arith)
                requires
                    k == q * a + r + 1,
                    r == q - 1,
            ;
            assert(k / q == a + 1 && k % q == 0) by {
                assert(k == (a + 1) * q + 0) by (nonlinear_arith)
                    requires
                        k == q * (a + 1),
                ;
                vstd::arithmetic::div_mod::lemma_fundamental_div_mod_converse(k, q, a + 1, 0);
            }
        } else {
            assert(k / q == a && k % q == r + 1) by {
                assert(k == a * q + (r + 1)) by (nonlinear_arith)
                    requires
                        k == q * a + r + 1,
                ;
                vstd::arithmetic::div_mod::lemma_fundamental_div_mod_converse(k, q, a, r + 1);
            }
            assert(k != q * (a + 1)) by (nonlinear_arith)
                requires
                    k == q * a + r + 1,
                    0 <= r < q - 1,
            ;
        }
        assert(q * (a + 1) == q * a + q) by (nonlinear_arith);
    } else {
        assert(q * 1 == q);
    }
}

/// On a clock with step `delta`, the instant `k * delta` is the one closest to `j * delta` exactly
/// when they are the same instant.
proof fn lemma_is_time_on_steps(k: int, j: int, delta: int)
    requires
        delta > 0,
    ensures
        spec_is_time(k * delta, delta, j * delta) <==> k == j,
{
    if k > j {
        assert(k * delta - j * delta >= delta) by (nonlinear_arith)
            requires
                k >= j + 1,
                delta > 0,
        ;
    } else if k < j {
        assert(j * delta - k * delta >= delta) by (nonlinear_arith)
            requires
                j >= k + 1,
                delta > 0,
        ;
    }
}

/// A monotonic behaviour made with an interval of `q >= 1` steps of a clock with step `delta`
/// (see [Monotonic::new]), ticked at every tick of a simulation from its start (tick `k` at time
/// `k * delta`), has a packet due exactly at the ticks `k >= 1` that are multiples of `q`: one
/// packet every `generation_interval` units of time, the first one interval after the start.
pub proof fn lemma_packet_every_interval<PM: PropagationModel, E, T: NodeBehaviour<PM, E>, G: PacketGenerator<T, PM::P, P = T::P>>(
    states: Seq<Monotonic<T, G>>,
    clocks: Seq<SimClock>,
    data: Seq<NodeData<PM::P>>,
    worlds: Seq<Seq<NodeData<PM::P>>>,
    incoming: Seq<Seq<T::P>>,
    delta: int,
    q: int,
)
    requires
        states.len() == clocks.len() + 1,
        delta > 0,
        q >= 1,
        states[0].spec_generation_interval() == q * delta,
        states[0].spec_next_packet() == q * delta,
        (clocks.len() + q) * delta <= u64::MAX,
        forall|k: int| 0 <= k < clocks.len() ==> (#[trigger] clocks[k]).time() == k * delta && clocks[k].delta() == delta,
        forall|k: int|
            0 <= k < clocks.len() ==> <Monotonic<T, G> as NodeBehaviour<PM, E>>::spec_ticks_to(
                &states[k],
                data[k],
                #[trigger] clocks[k],
                worlds[k],
                incoming[k],
                states[k + 1],
            ),
    ensures
        forall|k: int|
            0 <= k < clocks.len() ==> (spec_is_time(
                (#[trigger] clocks[k]).time(),
                clocks[k].delta(),
                states[k].spec_next_packet() as int,
            ) <==> (k >= 1 && k % q == 0)),
{
    assert forall|k: int| 0 <= k < states.len() implies #[trigger] states[k].spec_generation_interval()
        == q * delta && states[k].spec_next_packet() == q * delta * intervals_begun(k, q) by {
        lemma_schedule_up_to::<PM, E, T, G>(states, clocks, data, worlds, incoming, delta, q, k);
    }
    assert forall|k: int| 0 <= k < clocks.len() implies (spec_is_time(
        (#[trigger] clocks[k]).time(),
        clocks[k].delta(),
        states[k].spec_next_packet() as int,
    ) <==> (k >= 1 && k % q == 0)) by {
        assert(states[k].spec_generation_interval() == q * delta);
        lemma_intervals_begun(k, q);
        lemma_is_time_on_steps(k, q * intervals_begun(k, q), delta);
        assert(q * delta * intervals_begun(k, q) == q * intervals_begun(k, q) * delta) by (nonlinear_arith);
    }
}

/// Before tick `k` of the run described in [lemma_packet_every_interval], the next packet is due at
/// the end of the interval begun by tick `k`.
proof fn lemma_schedule_up_to<PM: PropagationModel, E, T: NodeBehaviour<PM, E>, G: PacketGenerator<T, PM::P, P = T::P>>(
    states: Seq<Monotonic<T, G>>,
    clocks: Seq<SimClock>,
    data: Seq<NodeData<PM::P>>,
    worlds: Seq<Seq<NodeData<PM::P>>>,
    incoming: Seq<Seq<T::P>>,
    delta: int,
    q: int,
    k: int,
)
    requires
        states.len() == clocks.len() + 1,
        delta > 0,
        q >= 1,
        states[0].spec_generation_interval() == q * delta,
        states[0].spec_next_packet() == q * delta,
        (clocks.len() + q) * delta <= u64::MAX,
        forall|k: int| 0 <= k < clocks.len() ==> (#[trigger] clocks[k]).time() == k * delta && clocks[k].delta() == delta,
        forall|k: int|
            0 <= k < clocks.len() ==> <Monotonic<T, G> as NodeBehaviour<PM, E>>::spec_ticks_to(
                &states[k],
                data[k],
                #[trigger] clocks[k],
                worlds[k],
                incoming[k],
                states[k + 1],
            ),
        0 <= k < states.len(),
    ensures
        states[k].spec_generation_interval() == q * delta,
        states[k].spec_next_packet() == q * delta * intervals_begun(k, q),
    decreases k,
{
    if k == 0 {
        assert(q * delta * 1 == q * delta);
    } else {
        let j = k - 1;
        lemma_schedule_up_to::<PM, E, T, G>(states, clocks, data, worlds, incoming, delta, q, j);
        lemma_intervals_begun(j, q);
        lemma_is_time_on_steps(j, q * intervals_begun(j, q), delta);
        let m = intervals_begun(j, q);
        assert(q * delta * m == q * m * delta) by (nonlinear_arith);
        assert(clocks[j].time() == j * delta);
        assert(<Monotonic<T, G> as NodeBehaviour<PM, E>>::spec_ticks_to(
            &states[j],
            data[j],
            clocks[j],
            worlds[j],
            incoming[j],
            states[j + 1],
        ));
        if j == q * m {
            assert(q * delta * m + q * delta == q * delta * (m + 1)) by (nonlinear_arith);
            assert(q * delta * (m + 1) == (j + q) * delta) by (nonlinear_arith)
                requires
                    j == q * m,
            ;
            assert((j + q) * delta <= (clocks.len() + q) * delta) by (nonlinear_arith)
                requires
                    j < clocks.len(),
                    delta > 0,
            ;
        }
    }
}

impl<PM: PropagationModel, E, T: NodeBehaviour<PM, E>, G: PacketGenerator<T, PM::P, P = T::P>> NodeBehaviour<
    PM,
    E,
> for Monotonic<T, G> {
    type P = T::P;

    /// When a packet is due (the clock is at the tick closest to `next_packet`), the next one is
    /// scheduled one interval later and the generator makes a packet from the contained behaviour;
    /// then the contained behaviour (as the generator left it) is ticked.
    open spec fn spec_ticks_to(
        &self,
        data: NodeData<PM::P>,
        clock: SimClock,
        world: Seq<NodeData<PM::P>>,
        incoming: Seq<T::P>,
        next: Self,
    ) -> bool {
        &&& next.spec_generation_interval() == self.spec_generation_interval()
        &&& next.spec_generator() == self.spec_generator()
        &&& if spec_is_time(clock.time(), clock.delta(), self.spec_next_packet() as int) {
            &&& next.spec_next_packet() == self.spec_next_packet().saturating_add(
                self.spec_generation_interval(),
            )
            &&& exists|packet: T::P, generated: T|
                #[trigger] self.spec_generator().spec_generates(
                    self.spec_contained(),
                    data,
                    id_bytes(data),
                    packet,
                    generated,
                ) && generated.spec_ticks_to(data, clock, world, incoming, next.spec_contained())
        } else {
            &&& next.spec_next_packet() == self.spec_next_packet()
            &&& self.spec_contained().spec_ticks_to(data, clock, world, incoming, next.spec_contained())
        }
    }

    /// When a packet is due, the generator makes a packet, which is transmitted once if every node
    /// it names exists (and not at all otherwise); then the contained behaviour, as the generator
    /// left it, ticks. When no packet is due, only the contained behaviour ticks.
    open spec fn spec_transition(
        &self,
        data: NodeData<PM::P>,
        incoming: Seq<T::P>,
        before: GlobalStateManager<PM, T::P, E>,
        after: GlobalStateManager<PM, T::P, E>,
    ) -> bool {
        if spec_is_time(before.clock().time(), before.clock().delta(), self.spec_next_packet() as int) {
            exists|packet: T::P, generated: T, middle: GlobalStateManager<PM, T::P, E>|
                #![trigger self.spec_generator().spec_generates(self.spec_contained(), data, id_bytes(data), packet, generated), generated.spec_transition(data, incoming, middle, after)]
                self.spec_generator().spec_generates(
                    self.spec_contained(),
                    data,
                    id_bytes(data),
                    packet,
                    generated,
                ) && (if before.targets_exist(packet) {
                    before.transmitted(middle, data, packet)
                } else {
                    middle == before
                }) && generated.spec_transition(data, incoming, middle, after)
        } else {
            self.spec_contained().spec_transition(data, incoming, before, after)
        }
    }

    /// When a packet is due, schedules the next one, generates the packet and transmits it
    /// (unless it names a node that does not exist); then ticks the contained behaviour. The
    /// transmission of a due packet is the first event this tick of the behaviour records.
    fn tick(
        self,
        node_data: &NodeData<PM::P>,
        global_state_manager: &mut GlobalStateManager<PM, Self::P, E>,
        incoming_packets: &Vec<Self::P>,
    ) -> (next: Self)
        ensures
            spec_is_time(
                old(global_state_manager).clock().time(),
                old(global_state_manager).clock().delta(),
                self.spec_next_packet() as int,
            ) ==> exists|packet: T::P, generated: T|
                #[trigger] self.spec_generator().spec_generates(
                    self.spec_contained(),
                    *node_data,
                    id_bytes(*node_data),
                    packet,
                    generated,
                ) && (old(global_state_manager).targets_exist(packet) ==> transmits_next(
                    old(global_state_manager).stats().events_seq(),
                    final(global_state_manager).stats().events_seq(),
                    node_data.id,
                )),
    {
        let Monotonic { generation_interval, mut next_packet, generator, mut contained } = self;
        let ghost start = *global_state_manager;
        let ghost first = contained;
        proof {
            GlobalStateManager::<PM, T::P, E>::lemma_keeps_history(start, start, start);
        }
        let ghost mut made: Option<T::P> = None;
        if global_state_manager.is_time(next_packet) {
            next_packet = next_packet.saturating_add(generation_interval);
            let content = to_big_endian_bytes(node_data.id as u64, 8);
            let packet = generator.generate(&mut contained, node_data, content);
            proof {
                made = Some(packet);
                assert(content@ == id_bytes(*node_data));
            }
            if global_state_manager.eager_targets_exist(&packet) {
                global_state_manager.transmit_packet(node_data, packet);
                assert(global_state_manager.stats().events_seq()[start.stats().events_seq().len() as int]
                    == InternalEvent::PacketTransmit(node_data.id));
            }
        }
        assert(spec_is_time(start.clock().time(), start.clock().delta(), self.spec_next_packet() as int)
            ==> made is Some);
        let ghost middle = *global_state_manager;
        let ghost generated = contained;
        proof {
            GlobalStateManager::<PM, T::P, E>::lemma_same_world_equivalence(middle, start, start);
        }
        let contained_next = contained.tick(node_data, global_state_manager, incoming_packets);
        proof {
            GlobalStateManager::<PM, T::P, E>::lemma_same_world_equivalence(
                *global_state_manager,
                middle,
                start,
            );
            GlobalStateManager::<PM, T::P, E>::lemma_keeps_history(start, middle, *global_state_manager);
            assert(middle.clock() == start.clock() && middle.world() == start.world());
            if let Some(packet) = made {
                let em = middle.stats().events_seq();
                let ef = global_state_manager.stats().events_seq();
                assert(em =~= ef.subrange(0, em.len() as int));
                if start.targets_exist(packet) {
                    assert(ef[start.stats().events_seq().len() as int] == em[start.stats().events_seq().len() as int]);
                    assert(transmits_next(start.stats().events_seq(), ef, node_data.id));
                }
                assert(generator == self.spec_generator() && first == self.spec_contained());
                assert(self.spec_generator().spec_generates(
                    self.spec_contained(),
                    *node_data,
                    id_bytes(*node_data),
                    packet,
                    generated,
                ));
                assert(generated.spec_ticks_to(*node_data, start.clock(), start.world(), incoming_packets@, contained_next));
            }
        }
        let next = Monotonic { generation_interval, next_packet, generator, contained: contained_next };
        proof {
            if let Some(packet) = made {
                assert(self.spec_generator().spec_generates(
                    self.spec_contained(),
                    *node_data,
                    id_bytes(*node_data),
                    packet,
                    generated,
                ));
                assert(generated.spec_transition(*node_data, incoming_packets@, middle, *global_state_manager));
                if start.targets_exist(packet) {
                    assert(start.transmitted(middle, *node_data, packet));
                } else {
                    assert(middle == start);
                }
            } else {
                assert(middle == start);
            }
        }
        assert(self.spec_ticks_to(*node_data, start.clock(), start.world(), incoming_packets@, next));
        next
    }
}

/// When a packet is due, a monotonic behaviour's tick generates it from eight bytes that, read
/// big-endian, give the node's ID.
pub proof fn lemma_due_packet_carries_the_id<PM: PropagationModel, E, T: NodeBehaviour<PM, E>, G: PacketGenerator<T, PM::P, P = T::P>>(
    m: Monotonic<T, G>,
    data: NodeData<PM::P>,
    clock: SimClock,
    world: Seq<NodeData<PM::P>>,
    incoming: Seq<T::P>,
    next: Monotonic<T, G>,
)
    requires
        spec_is_time(clock.time(), clock.delta(), m.spec_next_packet() as int),
        <Monotonic<T, G> as NodeBehaviour<PM, E>>::spec_ticks_to(&m, data, clock, world, incoming, next),
    ensures
        exists|content: Seq<u8>, packet: T::P, generated: T|
            #[trigger] m.spec_generator().spec_generates(
                m.spec_contained(),
                data,
                content,
                packet,
                generated,
            ) && content.len() == 8 && from_big_endian(content) == data.id,
{
    lemma_id_bytes_encode_the_id(data);
}

/// When a packet is due, the packet a monotonic behaviour's tick transmits (if every node it names
/// exists) is one its generator makes from eight bytes that, read big-endian, give the node's ID;
/// the contained behaviour, as the generator left it, then ticks.
pub proof fn lemma_transmitted_packet_carries_the_id<PM: PropagationModel, E, T: NodeBehaviour<PM, E>, G: PacketGenerator<T, PM::P, P = T::P>>(
    m: Monotonic<T, G>,
    data: NodeData<PM::P>,
    incoming: Seq<T::P>,
    before: GlobalStateManager<PM, T::P, E>,
    after: GlobalStateManager<PM, T::P, E>,
)
    requires
        spec_is_time(before.clock().time(), before.clock().delta(), m.spec_next_packet() as int),
        <Monotonic<T, G> as NodeBehaviour<PM, E>>::spec_transition(&m, data, incoming, before, after),
    ensures
        exists|content: Seq<u8>, packet: T::P, generated: T|
            #[trigger] m.spec_generator().spec_generates(
                m.spec_contained(),
                data,
                content,
                packet,
                generated,
            ) && content.len() == 8 && from_big_endian(content) == data.id && exists|
                middle: GlobalStateManager<PM, T::P, E>,
            |
                #[trigger] generated.spec_transition(data, incoming, middle, after) && (
                before.targets_exist(packet) ==> before.transmitted(middle, data, packet)),
{
    lemma_id_bytes_encode_the_id(data);
    let (packet, generated, middle) = choose|packet: T::P, generated: T, middle: GlobalStateManager<
        PM,
        T::P,
        E,
    >|
        m.spec_generator().spec_generates(
            m.spec_contained(),
            data,
            id_bytes(data),
            packet,
            generated,
        ) && (if before.targets_exist(packet) {
            before.transmitted(middle, data, packet)
        } else {
            middle == before
        }) && generated.spec_transition(data, incoming, middle, after);
    assert(m.spec_generator().spec_generates(
        m.spec_contained(),
        data,
        id_bytes(data),
        packet,
        generated,
    ));
    assert(before.targets_exist(packet) ==> before.transmitted(middle, data, packet));
    assert(generated.spec_transition(data, incoming, middle, after));
}

} // verus!
