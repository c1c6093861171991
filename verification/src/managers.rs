//! Structs that manage the simulation and its state.
use crate::behaviours::{MoveBehaviour, NodeBehaviour};
use crate::clock::{
    lemma_is_time_exactly_at_nearest, nearest_steps, not_half_step, spec_is_time, SimClock,
};
use crate::node::{Node, NodeData, NodeID, NodeInit};
use crate::packets::Packet;
use crate::propagation_models::{
    distance_squared, exec_distance_squared, lemma_euclidean_ball_in_box, PropagationModel,
    PropagationParams,
};
use crate::rng::{random_i32_in, random_u64, seeded_rng};
use crate::spatial::{
    build_spatial_index, halve_position, halved_position, index_points,
    lemma_halving_keeps_close_points_close, query_within_box, SpatialIndex,
};
use crate::stats::{InternalEvent, InternalStatKey, TimestepStats, saturating_sum};
use rand_xoshiro::Xoshiro256Plus;
use vstd::prelude::*;

verus! {

/// Largest number of nodes a simulation can hold: item indices of the spatial index are `u32`.
pub open spec fn max_nodes() -> int {
    0x1_0000_0000
}

/// Node `i` of `world` hears a transmission that `transmitter` makes to every node in range:
/// it is another node, within the transmitter's prune distance, and the propagation model lets
/// the signal through.
pub open spec fn hears<PM: PropagationModel>(
    model: PM,
    world: Seq<NodeData<PM::P>>,
    transmitter: NodeData<PM::P>,
    i: int,
) -> bool {
    &&& 0 <= i < world.len()
    &&& world[i].id != transmitter.id
    &&& distance_squared(transmitter.position, world[i].position)
        <= transmitter.propagation_params.spec_prune_distance()
        * transmitter.propagation_params.spec_prune_distance()
    &&& model.spec_signal_received(transmitter, world[i])
}

/// The listed targets that the signal reaches, in order, repeats included.
pub open spec fn eager_recipients<PM: PropagationModel>(
    model: PM,
    world: Seq<NodeData<PM::P>>,
    transmitter: NodeData<PM::P>,
    targets: Seq<NodeID>,
) -> Seq<NodeID>
    decreases targets.len(),
{
    if targets.len() == 0 {
        seq![]
    } else {
        let earlier = eager_recipients(model, world, transmitter, targets.drop_last());
        if model.spec_signal_received(transmitter, world[targets.last() as int]) {
            earlier.push(targets.last())
        } else {
            earlier
        }
    }
}

/// Every node the signal reaches is one of the listed targets.
proof fn lemma_eager_recipients_are_targets<PM: PropagationModel>(
    model: PM,
    world: Seq<NodeData<PM::P>>,
    transmitter: NodeData<PM::P>,
    targets: Seq<NodeID>,
    bound: int,
)
    requires
        forall|j: int| 0 <= j < targets.len() ==> #[trigger] targets[j] < bound,
    ensures
        forall|j: int|
            0 <= j < eager_recipients(model, world, transmitter, targets).len() ==> #[trigger] eager_recipients(
                model,
                world,
                transmitter,
                targets,
            )[j] < bound,
    decreases targets.len(),
{
    if targets.len() > 0 {
        let earlier = targets.drop_last();
        assert(forall|j: int| 0 <= j < earlier.len() ==> earlier[j] == targets[j]);
        lemma_eager_recipients_are_targets(model, world, transmitter, earlier, bound);
        assert(targets.last() == targets[targets.len() - 1]);
        let prev = eager_recipients(model, world, transmitter, earlier);
        let all = eager_recipients(model, world, transmitter, targets);
        assert forall|j: int| 0 <= j < all.len() implies #[trigger] all[j] < bound by {
            if j < prev.len() {
                assert(prev[j] < bound);
            }
        }
    }
}

/// A transmission of `packet` by `transmitter` to every node in range reaches node `i` of
/// `world`: the node hears it, and the packet targets the node.
pub open spec fn reaches<PM: PropagationModel, P: Packet>(
    model: PM,
    world: Seq<NodeData<PM::P>>,
    transmitter: NodeData<PM::P>,
    packet: P,
    i: int,
) -> bool {
    &&& hears(model, world, transmitter, i)
    &&& packet.spec_targets(world[i].id, world[i].position)
}

/// `recipients` are the nodes a transmission of `packet` by `transmitter` reaches: for a packet
/// with eager targets, those the signal reaches; otherwise every node that hears it and that the
/// packet targets, each once, in any order.
pub open spec fn valid_recipients<PM: PropagationModel, P: Packet>(
    model: PM,
    world: Seq<NodeData<PM::P>>,
    transmitter: NodeData<PM::P>,
    packet: P,
    recipients: Seq<NodeID>,
) -> bool {
    match packet.spec_eager_targets() {
        Some(targets) => recipients == eager_recipients(model, world, transmitter, targets),
        None => {
            &&& recipients.no_duplicates()
            &&& forall|j: int| 0 <= j < recipients.len() ==> #[trigger] recipients[j] < world.len()
            &&& forall|i: int|
                0 <= i < world.len() ==> (#[trigger] recipients.contains(i as NodeID) <==> reaches(
                    model,
                    world,
                    transmitter,
                    packet,
                    i,
                ))
        },
    }
}

/// Number of times node `i` occurs in `ids`.
pub open spec fn occurrences(ids: Seq<NodeID>, i: int) -> nat
    decreases ids.len(),
{
    if ids.len() == 0 {
        0
    } else {
        occurrences(ids.drop_last(), i) + if ids.last() == i {
            1nat
        } else {
            0nat
        }
    }
}

/// `after` is `before` with a clone of `packet` appended to the packets of each node, once for
/// every time the node occurs in `recipients`.
pub open spec fn delivers<P: Clone>(
    before: Seq<Seq<P>>,
    after: Seq<Seq<P>>,
    recipients: Seq<NodeID>,
    packet: P,
) -> bool {
    &&& after.len() == before.len()
    &&& forall|i: int|
        0 <= i < before.len() ==> {
            &&& #[trigger] after[i].len() == before[i].len() + occurrences(recipients, i)
            &&& after[i].subrange(0, before[i].len() as int) == before[i]
            &&& forall|j: int|
                before[i].len() <= j < after[i].len() ==> cloned::<P>(packet, #[trigger] after[i][j])
        }
}

/// A delivery only appends to the packet lists.
proof fn lemma_delivery_appends<P: Clone>(
    before: Seq<Seq<P>>,
    after: Seq<Seq<P>>,
    recipients: Seq<NodeID>,
    packet: P,
)
    requires
        delivers(before, after, recipients, packet),
    ensures
        after.len() == before.len(),
        forall|i: int|
            0 <= i < before.len() ==> before[i].len() <= #[trigger] after[i].len() && after[i].subrange(
                0,
                before[i].len() as int,
            ) == before[i],
{
    assert forall|i: int| 0 <= i < before.len() implies before[i].len() <= #[trigger] after[i].len()
        && after[i].subrange(0, before[i].len() as int) == before[i] by {
        assert(after[i].len() == before[i].len() + occurrences(recipients, i));
    }
}

/// The link events recording a transmission from `source` to each of `recipients`, in order.
pub open spec fn link_events(source: NodeID, recipients: Seq<NodeID>) -> Seq<InternalEvent> {
    recipients.map_values(|r: NodeID| InternalEvent::PacketLink((source, r)))
}

/// Number of transmit events in a list of events.
pub open spec fn transmit_count(events: Seq<InternalEvent>) -> int
    decreases events.len(),
{
    if events.len() == 0 {
        0
    } else {
        transmit_count(events.drop_last()) + match events.last() {
            InternalEvent::PacketTransmit(_) => 1int,
            InternalEvent::PacketLink(_) => 0int,
        }
    }
}

/// Link events add no transmit event.
proof fn lemma_transmit_count_links(events: Seq<InternalEvent>, source: NodeID, recipients: Seq<NodeID>)
    ensures
        transmit_count(events + link_events(source, recipients)) == transmit_count(events),
    decreases recipients.len(),
{
    if recipients.len() > 0 {
        let shorter = recipients.drop_last();
        lemma_transmit_count_links(events, source, shorter);
        assert((events + link_events(source, recipients)).drop_last() =~= events + link_events(
            source,
            shorter,
        ));
    } else {
        assert(events + link_events(source, recipients) =~= events);
    }
}

/// No list of events holds a negative number of transmit events.
proof fn lemma_transmit_count_nonnegative(events: Seq<InternalEvent>)
    ensures
        transmit_count(events) >= 0,
    decreases events.len(),
{
    if events.len() > 0 {
        lemma_transmit_count_nonnegative(events.drop_last());
    }
}

/// Number of packets held in a list of packet lists.
pub open spec fn total_len<P>(lists: Seq<Seq<P>>) -> int
    decreases lists.len(),
{
    if lists.len() == 0 {
        0
    } else {
        total_len(lists.drop_last()) + lists.last().len()
    }
}

/// Number of link events in a list of events.
pub open spec fn link_count(events: Seq<InternalEvent>) -> int
    decreases events.len(),
{
    if events.len() == 0 {
        0
    } else {
        link_count(events.drop_last()) + match events.last() {
            InternalEvent::PacketLink(_) => 1int,
            InternalEvent::PacketTransmit(_) => 0int,
        }
    }
}

/// Replacing one list changes the total by the difference in its length.
proof fn lemma_total_len_update<P>(lists: Seq<Seq<P>>, i: int, list: Seq<P>)
    requires
        0 <= i < lists.len(),
    ensures
        total_len(lists.update(i, list)) == total_len(lists) - lists[i].len() + list.len(),
    decreases lists.len(),
{
    let updated = lists.update(i, list);
    if i == lists.len() - 1 {
        assert(updated.drop_last() =~= lists.drop_last());
    } else {
        assert(updated.drop_last() =~= lists.drop_last().update(i, list));
        lemma_total_len_update(lists.drop_last(), i, list);
    }
}

/// Every list of empty lists holds no packet.
proof fn lemma_total_len_empty<P>(lists: Seq<Seq<P>>)
    requires
        forall|i: int| 0 <= i < lists.len() ==> (#[trigger] lists[i]).len() == 0,
    ensures
        total_len(lists) == 0,
    decreases lists.len(),
{
    if lists.len() > 0 {
        lemma_total_len_empty(lists.drop_last());
    }
}

/// A size as a counter increment: sizes beyond `isize::MAX` count as `isize::MAX`.
pub open spec fn as_count(size: int) -> int {
    if size > isize::MAX {
        isize::MAX as int
    } else {
        size
    }
}

/// Saturating sum of the sizes of the packet lists, as the receive counter accumulates it.
pub open spec fn received_total<P>(lists: Seq<Seq<P>>) -> int
    decreases lists.len(),
{
    if lists.len() == 0 {
        0
    } else {
        saturating_sum(received_total(lists.drop_last()), as_count(lists.last().len() as int))
    }
}

/// Stats of one tick: `keys` user-defined counters, and a transmit counter that counts the
/// transmit events recorded.
pub open spec fn per_tick_stats<E>(stats: TimestepStats<E>, keys: nat) -> bool {
    &&& stats.user().len() == keys
    &&& stats.internal(InternalStatKey::PacketTransmits) == as_count(transmit_count(stats.events_seq()))
}

/// Halved positions of all nodes, in ID order.
fn halved_positions<PP>(node_data: &Vec<NodeData<PP>>) -> (points: Vec<[i32; 2]>)
    ensures
        points@.len() == node_data@.len(),
        forall|i: int|
            0 <= i < node_data@.len() ==> (#[trigger] points@[i][0], points@[i][1]) == halved_position(
                node_data@[i].position,
            ),
{
    let mut points: Vec<[i32; 2]> = Vec::with_capacity(node_data.len());
    for i in 0..node_data.len()
        invariant
            points@.len() == i,
            forall|k: int|
                0 <= k < i ==> (#[trigger] points@[k][0], points@[k][1]) == halved_position(
                    node_data@[k].position,
                ),
    {
        points.push(halve_position(&node_data[i].position));
    }
    points
}

/// `n` empty packet lists.
fn empty_lists<P>(n: usize) -> (lists: Vec<Vec<P>>)
    ensures
        lists@.len() == n,
        forall|i: int| 0 <= i < n ==> (#[trigger] lists@[i])@.len() == 0,
{
    let mut lists: Vec<Vec<P>> = Vec::with_capacity(n);
    for i in 0..n
        invariant
            lists@.len() == i,
            forall|k: int| 0 <= k < i ==> (#[trigger] lists@[k])@.len() == 0,
    {
        lists.push(Vec::new());
    }
    lists
}

/// A packet handed over for delivery: the transmitting node, the receiving node and the copy of
/// the packet the receiver gets.
pub type Delivery<P> = (NodeID, NodeID, P);

/// The packets `log` hands to node `i`, in order.
pub open spec fn deliveries_to<P>(log: Seq<Delivery<P>>, i: int) -> Seq<P>
    decreases log.len(),
{
    if log.len() == 0 {
        seq![]
    } else {
        let earlier = deliveries_to(log.drop_last(), i);
        if log.last().1 == i {
            earlier.push(log.last().2)
        } else {
            earlier
        }
    }
}

/// `after` is `before` followed by one delivery from `source` to each of `recipients`, in
/// order, each of a clone of `packet`.
pub open spec fn appends_deliveries<P: Clone>(
    before: Seq<Delivery<P>>,
    after: Seq<Delivery<P>>,
    source: NodeID,
    recipients: Seq<NodeID>,
    packet: P,
) -> bool {
    &&& after.len() == before.len() + recipients.len()
    &&& after.subrange(0, before.len() as int) == before
    &&& forall|j: int|
        0 <= j < recipients.len() ==> {
            &&& (#[trigger] after[before.len() + j]).0 == source
            &&& after[before.len() + j].1 == recipients[j]
            &&& cloned::<P>(packet, after[before.len() + j].2)
        }
}

/// A call a behaviour makes on the user-defined stats.
pub enum UserCall<E> {
    /// `inc(key, by)`.
    Inc(usize, isize),
    /// `dec(key, by)`.
    Dec(usize, isize),
    /// `add_event(event)`.
    Event(E),
}

/// The net amount `calls` add to user-defined counter `key`.
pub open spec fn call_sum<E>(calls: Seq<UserCall<E>>, key: int) -> int
    decreases calls.len(),
{
    if calls.len() == 0 {
        0
    } else {
        call_sum(calls.drop_last(), key) + match calls.last() {
            UserCall::Inc(k, by) => if k == key {
                by as int
            } else {
                0
            },
            UserCall::Dec(k, by) => if k == key {
                -(by as int)
            } else {
                0
            },
            UserCall::Event(_) => 0,
        }
    }
}

/// The user-defined events `calls` record, in order.
pub open spec fn call_events<E>(calls: Seq<UserCall<E>>) -> Seq<E>
    decreases calls.len(),
{
    if calls.len() == 0 {
        seq![]
    } else {
        let earlier = call_events(calls.drop_last());
        match calls.last() {
            UserCall::Event(e) => earlier.push(e),
            _ => earlier,
        }
    }
}

/// Holds the state of the simulation at a specific tick as seen by behaviours: the nodes'
/// data, the spatial index over their positions, the propagation model, the clock, the packets
/// transmitted during this tick, each node's random number generator, and this tick's stats.
pub struct GlobalStateManager<PM: PropagationModel, P, E> {
    node_data: Vec<NodeData<PM::P>>,
    index: SpatialIndex,
    propagation_model: PM,
    clock: SimClock,
    new_packets: Vec<Vec<P>>,
    rngs: Vec<Xoshiro256Plus>,
    stats: TimestepStats<E>,
    /// Deliveries made since the outbox was last handed out.
    sent: Ghost<Seq<Delivery<P>>>,
    /// Deliveries of the outbox last handed out.
    last_sent: Ghost<Seq<Delivery<P>>>,
    /// Calls on the user-defined stats since the stats were last reset.
    calls: Ghost<Seq<UserCall<E>>>,
    /// Calls on the user-defined stats of the last completed tick.
    last_calls: Ghost<Seq<UserCall<E>>>,
    /// The node of each draw from a node's generator, in order.
    draws: Ghost<Seq<NodeID>>,
}

impl<PM: PropagationModel, P, E> GlobalStateManager<PM, P, E> {
    /// Data of every node, in ID order.
    pub closed spec fn world(&self) -> Seq<NodeData<PM::P>> {
        self.node_data@
    }

    pub closed spec fn model(&self) -> PM {
        self.propagation_model
    }

    pub closed spec fn clock(&self) -> SimClock {
        self.clock
    }

    /// The random number generator of node `i`.
    pub closed spec fn generator(&self, i: int) -> Xoshiro256Plus {
        self.rngs@[i]
    }

    /// Packets transmitted to each node since the last tick, by node ID.
    pub closed spec fn outbox(&self) -> Seq<Seq<P>> {
        self.new_packets@.map_values(|v: Vec<P>| v@)
    }

    pub closed spec fn stats(&self) -> TimestepStats<E> {
        self.stats
    }

    /// Deliveries made since the outbox was last handed out, in order: node `i`'s outbox holds
    /// exactly the packets these hand to it.
    pub closed spec fn deliveries(&self) -> Seq<Delivery<P>> {
        self.sent@
    }

    /// Deliveries of the outbox last handed out to the nodes (at the end of the last tick).
    pub closed spec fn last_deliveries(&self) -> Seq<Delivery<P>> {
        self.last_sent@
    }

    /// Calls on the user-defined stats since the stats were last reset (at the start of the tick).
    pub closed spec fn calls(&self) -> Seq<UserCall<E>> {
        self.calls@
    }

    /// Calls on the user-defined stats during the last completed tick.
    pub closed spec fn last_calls(&self) -> Seq<UserCall<E>> {
        self.last_calls@
    }

    /// The node of each draw made from a node's generator, in order.
    pub closed spec fn draws(&self) -> Seq<NodeID> {
        self.draws@
    }

    /// This state is `earlier` with `n` more packets counted as received, and nothing else
    /// changed.
    pub closed spec fn counted_receives(&self, earlier: Self, n: int) -> bool {
        &&& self.node_data == earlier.node_data
        &&& self.index == earlier.index
        &&& self.propagation_model == earlier.propagation_model
        &&& self.clock == earlier.clock
        &&& self.new_packets == earlier.new_packets
        &&& self.rngs == earlier.rngs
        &&& self.sent == earlier.sent
        &&& self.last_sent == earlier.last_sent
        &&& self.calls == earlier.calls
        &&& self.last_calls == earlier.last_calls
        &&& self.draws == earlier.draws
        &&& self.stats.internal(InternalStatKey::PacketReceives) == saturating_sum(
            earlier.stats.internal(InternalStatKey::PacketReceives),
            n,
        )
        &&& self.stats.internal(InternalStatKey::PacketTransmits) == earlier.stats.internal(
            InternalStatKey::PacketTransmits,
        )
        &&& self.stats.user() == earlier.stats.user()
        &&& self.stats.events_seq() == earlier.stats.events_seq()
        &&& self.stats.user_events_seq() == earlier.stats.user_events_seq()
    }

    /// Packets waiting in the outbox beyond those recorded by link events in the stats.
    pub open spec fn unrecorded_packets(&self) -> int {
        total_len(self.outbox()) - link_count(self.stats().events_seq())
    }

    /// Node `i` has ID `i`, the spatial index holds every node's position, and there is one
    /// outbox and one generator per node.
    pub closed spec fn wf(&self) -> bool {
        &&& self.node_data@.len() <= max_nodes()
        &&& self.new_packets@.len() == self.node_data@.len()
        &&& self.rngs@.len() == self.node_data@.len()
        &&& forall|i: int| 0 <= i < self.node_data@.len() ==> (#[trigger] self.node_data@[i]).id == i
        &&& index_points(self.index).len() == self.node_data@.len()
        &&& forall|i: int|
            0 <= i < self.node_data@.len() ==> #[trigger] index_points(self.index)[i]
                == halved_position(self.node_data@[i].position)
        &&& self.clock.wf()
        &&& self.stats.internal(InternalStatKey::PacketTransmits) == as_count(
            transmit_count(self.stats.events_seq()),
        )
        &&& forall|i: int|
            0 <= i < self.new_packets@.len() ==> #[trigger] self.new_packets@[i]@ == deliveries_to(
                self.sent@,
                i,
            )
        &&& forall|k: int|
            0 <= k < self.stats.user().len() ==> #[trigger] self.stats.user()[k] == call_sum(
                self.calls@,
                k,
            )
        &&& self.stats.user_events_seq() == call_events(self.calls@)
    }

    /// What a behaviour cannot change: the nodes' data, the index, the model, the clock, the
    /// number of outboxes, generators and user-defined counters, and the balance between packets
    /// waiting and link events recorded.
    pub closed spec fn same_world(&self, other: Self) -> bool {
        &&& self.node_data@ == other.node_data@
        &&& self.index == other.index
        &&& self.propagation_model == other.propagation_model
        &&& self.clock == other.clock
        &&& self.new_packets@.len() == other.new_packets@.len()
        &&& self.rngs@.len() == other.rngs@.len()
        &&& self.stats.user().len() == other.stats.user().len()
        &&& self.stats.internal(InternalStatKey::PacketReceives) == other.stats.internal(
            InternalStatKey::PacketReceives,
        )
        &&& self.unrecorded_packets() == other.unrecorded_packets()
    }

    /// Every packet waiting in `earlier`'s outbox still waits in this one, in the same place, and
    /// every event `earlier` recorded is still recorded, in the same place: packets and events are
    /// only ever appended.
    pub open spec fn keeps_history(&self, earlier: Self) -> bool {
        &&& earlier.stats().events_seq().is_prefix_of(self.stats().events_seq())
        &&& earlier.deliveries().is_prefix_of(self.deliveries())
        &&& self.outbox().len() == earlier.outbox().len()
        &&& forall|i: int|
            0 <= i < earlier.outbox().len() ==> earlier.outbox()[i].len() <= #[trigger] self.outbox()[i].len()
                && self.outbox()[i].subrange(0, earlier.outbox()[i].len() as int) == earlier.outbox()[i]
    }

    /// Every state keeps its own history, and keeping history is transitive.
    pub proof fn lemma_keeps_history(a: Self, b: Self, c: Self)
        ensures
            a.keeps_history(a),
            b.keeps_history(a) && c.keeps_history(b) ==> c.keeps_history(a),
    {
        assert(a.stats().events_seq() =~= a.stats().events_seq().subrange(
            0,
            a.stats().events_seq().len() as int,
        ));
        assert(a.deliveries() =~= a.deliveries().subrange(0, a.deliveries().len() as int));
        if b.keeps_history(a) && c.keeps_history(b) {
            let da = a.deliveries();
            let db = b.deliveries();
            let dc = c.deliveries();
            assert(da =~= dc.subrange(0, da.len() as int)) by {
                assert(dc.subrange(0, da.len() as int) =~= dc.subrange(0, db.len() as int).subrange(
                    0,
                    da.len() as int,
                ));
            }
            let ea = a.stats().events_seq();
            let eb = b.stats().events_seq();
            let ec = c.stats().events_seq();
            assert(ea =~= ec.subrange(0, ea.len() as int)) by {
                assert(ec.subrange(0, ea.len() as int) =~= ec.subrange(0, eb.len() as int).subrange(
                    0,
                    ea.len() as int,
                ));
            }
        }
        assert forall|i: int| 0 <= i < a.outbox().len() implies #[trigger] a.outbox()[i].subrange(
            0,
            a.outbox()[i].len() as int,
        ) == a.outbox()[i] by {
            assert(a.outbox()[i].subrange(0, a.outbox()[i].len() as int) =~= a.outbox()[i]);
        }
        if b.keeps_history(a) && c.keeps_history(b) {
            assert forall|i: int| 0 <= i < a.outbox().len() implies a.outbox()[i].len()
                <= #[trigger] c.outbox()[i].len() && c.outbox()[i].subrange(
                0,
                a.outbox()[i].len() as int,
            ) == a.outbox()[i] by {
                assert(c.outbox()[i].subrange(0, a.outbox()[i].len() as int) =~= c.outbox()[i].subrange(
                    0,
                    b.outbox()[i].len() as int,
                ).subrange(0, a.outbox()[i].len() as int));
            }
        }
    }

    /// Facts about a well-formed manager.
    pub proof fn lemma_wf(&self)
        requires
            self.wf(),
        ensures
            self.world().len() <= max_nodes(),
            self.outbox().len() == self.world().len(),
            forall|i: int| 0 <= i < self.world().len() ==> (#[trigger] self.world()[i]).id == i,
            self.clock().wf(),
    {
    }

    /// `same_world` is an equivalence.
    pub proof fn lemma_same_world_equivalence(a: Self, b: Self, c: Self)
        ensures
            a.same_world(a),
            a.same_world(b) ==> b.same_world(a),
            a.same_world(b) && b.same_world(c) ==> a.same_world(c),
            a.same_world(b) ==> a.world() == b.world() && a.model() == b.model() && a.clock()
                == b.clock() && a.outbox().len() == b.outbox().len() && a.stats().user().len()
                == b.stats().user().len() && a.unrecorded_packets() == b.unrecorded_packets()
                && a.stats().internal(InternalStatKey::PacketReceives) == b.stats().internal(
                InternalStatKey::PacketReceives,
            ),
    {
    }

    /// State at tick zero: the spatial index over the nodes' positions, no packets in flight,
    /// node `i` seeded with `seed + i`, and empty stats.
    fn new(
        node_data: Vec<NodeData<PM::P>>,
        seed: u64,
        propagation_model: PM,
        timestep_delta: u64,
        user_stat_keys: usize,
    ) -> (gsm: Self)
        requires
            node_data@.len() <= max_nodes(),
            seed + node_data@.len() <= u64::MAX + 1,
            forall|i: int| 0 <= i < node_data@.len() ==> (#[trigger] node_data@[i]).id == i,
        ensures
            gsm.wf(),
            gsm.world() == node_data@,
            gsm.model() == propagation_model,
            gsm.clock().delta() == timestep_delta,
            gsm.clock().time() == 0,
            gsm.clock().tick_number() == 0,
            gsm.clock().is_fresh(),
            forall|i: int| 0 <= i < gsm.outbox().len() ==> (#[trigger] gsm.outbox()[i]).len() == 0,
            gsm.stats().is_empty_for(user_stat_keys as nat),
    {
        let n = node_data.len();
        let index = build_spatial_index(&halved_positions(&node_data));
        let new_packets = empty_lists(n);
        let mut rngs: Vec<Xoshiro256Plus> = Vec::with_capacity(n);
        for i in 0..n
            invariant
                rngs@.len() == i,
                n == node_data@.len(),
                seed + n <= u64::MAX + 1,
        {
            rngs.push(seeded_rng(seed + i as u64));
        }
        assert forall|i: int| 0 <= i < new_packets@.len() implies #[trigger] new_packets@[i]@
            == deliveries_to(Seq::<Delivery<P>>::empty(), i) by {
            assert(new_packets@[i]@ =~= Seq::<P>::empty());
        }
        let stats = TimestepStats::new(user_stat_keys);
        assert forall|k: int| 0 <= k < stats.user().len() implies #[trigger] stats.user()[k] == call_sum(
            Seq::<UserCall<E>>::empty(),
            k,
        ) by {
            assert(stats.user()[k] == 0);
        }
        assert(stats.user_events_seq() =~= call_events(Seq::<UserCall<E>>::empty()));
        GlobalStateManager {
            node_data,
            index,
            propagation_model,
            clock: SimClock::new(timestep_delta),
            new_packets,
            rngs,
            stats,
            sent: Ghost(Seq::empty()),
            last_sent: Ghost(Seq::empty()),
            calls: Ghost(Seq::empty()),
            last_calls: Ghost(Seq::empty()),
            draws: Ghost(Seq::empty()),
        }
    }

    /// Starts a tick: the clock moves on and the stats start empty.
    fn begin_tick(&mut self)
        requires
            old(self).wf(),
            old(self).clock().can_advance(),
        ensures
            final(self).wf(),
            final(self).world() == old(self).world(),
            final(self).model() == old(self).model(),
            final(self).clock() == old(self).clock().spec_advanced(),
            final(self).outbox() == old(self).outbox(),
            final(self).stats().is_empty_for(old(self).stats().user().len()),
            final(self).unrecorded_packets() == total_len(old(self).outbox()),
            final(self).deliveries() == old(self).deliveries(),
            final(self).calls() == Seq::<UserCall<E>>::empty(),
    {
        let keys = self.stats.user_key_count();
        self.clock.advance();
        self.stats = TimestepStats::new(keys);
        self.calls = Ghost(Seq::empty());
        assert forall|k: int| 0 <= k < self.stats.user().len() implies #[trigger] self.stats.user()[k]
            == call_sum(self.calls@, k) by {
            assert(self.stats.user()[k] == 0);
        }
        assert(self.stats.user_events_seq() =~= call_events(self.calls@));
    }

    /// Adds the packets handed to one node to the receive counter.
    fn count_receives(&mut self, received: usize)
        requires
            old(self).wf(),
        ensures
            final(self).wf(),
            final(self).world() == old(self).world(),
            final(self).model() == old(self).model(),
            final(self).clock() == old(self).clock(),
            final(self).outbox() == old(self).outbox(),
            final(self).unrecorded_packets() == old(self).unrecorded_packets(),
            final(self).stats().user().len() == old(self).stats().user().len(),
            final(self).stats().internal(InternalStatKey::PacketReceives) == saturating_sum(
                old(self).stats().internal(InternalStatKey::PacketReceives),
                as_count(received as int),
            ),
            final(self).stats().events_seq() == old(self).stats().events_seq(),
            final(self).deliveries() == old(self).deliveries(),
            final(self).counted_receives(*old(self), as_count(received as int)),
    {
        let by: isize = if received > isize::MAX as usize {
            isize::MAX
        } else {
            received as isize
        };
        proof {
            self.stats.lemma_counter_bounds();
        }
        self.stats.inc_internal(InternalStatKey::PacketReceives, by);
    }

    /// Ends a tick: the world takes the nodes' new data, the packets transmitted during the tick
    /// are handed back (to be delivered next tick) and the stats of the tick are returned.
    fn end_tick(&mut self, node_data: Vec<NodeData<PM::P>>) -> (r: (Vec<Vec<P>>, TimestepStats<E>))
        requires
            old(self).wf(),
            node_data@.len() == old(self).world().len(),
            forall|i: int| 0 <= i < node_data@.len() ==> (#[trigger] node_data@[i]).id == i,
        ensures
            final(self).wf(),
            final(self).world() == node_data@,
            final(self).model() == old(self).model(),
            final(self).clock() == old(self).clock(),
            forall|i: int| 0 <= i < final(self).outbox().len() ==> (#[trigger] final(self).outbox()[i]).len() == 0,
            final(self).stats().is_empty_for(old(self).stats().user().len()),
            r.0@.map_values(|v: Vec<P>| v@) == old(self).outbox(),
            r.1 == old(self).stats(),
            final(self).last_deliveries() == old(self).deliveries(),
            final(self).last_calls() == old(self).calls(),
            final(self).calls() == Seq::<UserCall<E>>::empty(),
            final(self).deliveries() == Seq::<Delivery<P>>::empty(),
    {
        let n = node_data.len();
        let index = build_spatial_index(&halved_positions(&node_data));
        let mut outbox = empty_lists(n);
        std::mem::swap(&mut outbox, &mut self.new_packets);
        let keys = self.stats.user_key_count();
        let mut stats = TimestepStats::new(keys);
        std::mem::swap(&mut stats, &mut self.stats);
        self.node_data = node_data;
        self.index = index;
        self.last_sent = Ghost(self.sent@);
        self.sent = Ghost(Seq::empty());
        self.last_calls = Ghost(self.calls@);
        self.calls = Ghost(Seq::empty());
        assert forall|i: int| 0 <= i < self.new_packets@.len() implies #[trigger] self.new_packets@[i]@
            == deliveries_to(self.sent@, i) by {
            assert(self.new_packets@[i]@ =~= Seq::<P>::empty());
        }
        assert forall|k: int| 0 <= k < self.stats.user().len() implies #[trigger] self.stats.user()[k]
            == call_sum(self.calls@, k) by {
            assert(self.stats.user()[k] == 0);
        }
        assert(self.stats.user_events_seq() =~= call_events(self.calls@));
        (outbox, stats)
    }

    /// Hands out the stats recorded so far and starts new, empty ones, so that recorded stats are
    /// handed out once.
    pub fn consume_stats(&mut self) -> (s: TimestepStats<E>)
        requires
            old(self).wf(),
        ensures
            final(self).wf(),
            s == old(self).stats(),
            final(self).stats().is_empty_for(old(self).stats().user().len()),
            final(self).calls() == Seq::<UserCall<E>>::empty(),
            final(self).world() == old(self).world(),
            final(self).model() == old(self).model(),
            final(self).clock() == old(self).clock(),
            final(self).outbox() == old(self).outbox(),
            final(self).deliveries() == old(self).deliveries(),
    {
        let keys = self.stats.user_key_count();
        let mut stats = TimestepStats::new(keys);
        std::mem::swap(&mut stats, &mut self.stats);
        self.calls = Ghost(Seq::empty());
        assert forall|k: int| 0 <= k < self.stats.user().len() implies #[trigger] self.stats.user()[k]
            == call_sum(self.calls@, k) by {
            assert(self.stats.user()[k] == 0);
        }
        assert(self.stats.user_events_seq() =~= call_events(self.calls@));
        assert(self.outbox() == old(self).outbox());
        stats
    }

    /// Number of nodes.
    pub fn num_nodes(&self) -> (n: usize)
        requires
            self.wf(),
        ensures
            n == self.world().len(),
    {
        self.node_data.len()
    }

    /// Borrow the data of all nodes, in ID order, as of the last completed tick.
    pub fn nodes(&self) -> (v: &Vec<NodeData<PM::P>>)
        ensures
            v@ == self.world(),
    {
        &self.node_data
    }

    /// Borrow the propagation model.
    pub fn propagation_model(&self) -> (m: &PM)
        ensures
            *m == self.model(),
    {
        &self.propagation_model
    }

    /// Get the configured timestep delta.
    pub fn timestep_delta(&self) -> (d: u64)
        ensures
            d == self.clock().delta(),
    {
        self.clock.timestep_delta()
    }

    /// Get the current simulation time in this tick. Use this for scheduling events that should
    /// happen at the same simulation time regardless of the timestep delta.
    pub fn current_time(&self) -> (t: u64)
        ensures
            t == self.clock().time(),
    {
        self.clock.current_time()
    }

    /// Check if the current time is the closest one to `time`; use this to run events at
    /// specific times.
    pub fn is_time(&self, time: u64) -> (b: bool)
        ensures
            b == spec_is_time(self.clock().time(), self.clock().delta(), time as int),
    {
        self.clock.is_time(time)
    }

    /// Get the current simulation tick number.
    pub fn current_tick(&self) -> (t: usize)
        ensures
            t == self.clock().tick_number(),
    {
        self.clock.current_tick()
    }

    /// Borrow this tick's stats.
    pub fn current_stats(&self) -> (s: &TimestepStats<E>)
        ensures
            *s == self.stats(),
    {
        &self.stats
    }

    /// Draw a value from `min..max` with the generator of node `id`; `id` must be unique to the
    /// behaviour drawing, so that runs are reproducible.
    pub fn get_random_range(&mut self, id: NodeID, min: i32, max: i32) -> (r: i32)
        requires
            old(self).wf(),
            id < old(self).world().len(),
            min < max,
        ensures
            final(self).wf(),
            final(self).same_world(*old(self)),
            final(self).outbox() == old(self).outbox(),
            final(self).stats() == old(self).stats(),
            final(self).deliveries() == old(self).deliveries(),
            final(self).calls() == old(self).calls(),
            forall|j: int|
                0 <= j < old(self).world().len() && j != id ==> #[trigger] final(self).generator(j) == old(self).generator(j),
            final(self).draws() == old(self).draws().push(id),
            min <= r < max,
    {
        let r = random_i32_in(&mut self.rngs[id], min, max);
        proof {
            self.draws@ = self.draws@.push(id);
        }
        assert(self.outbox() == old(self).outbox());
        assert forall|j: int| 0 <= j < old(self).world().len() && j != id implies #[trigger] self.generator(j) == old(self).generator(j) by {
            assert(self.rngs@[j] == old(self).rngs@[j]);
        }
        r
    }

    /// Get a random `u64` from the generator of node `node_id`.
    pub fn get_random(&mut self, node_id: NodeID) -> (r: u64)
        requires
            old(self).wf(),
            node_id < old(self).world().len(),
        ensures
            final(self).wf(),
            final(self).same_world(*old(self)),
            final(self).outbox() == old(self).outbox(),
            final(self).stats() == old(self).stats(),
            final(self).deliveries() == old(self).deliveries(),
            final(self).calls() == old(self).calls(),
            forall|j: int|
                0 <= j < old(self).world().len() && j != node_id ==> #[trigger] final(self).generator(j) == old(self).generator(j),
            final(self).draws() == old(self).draws().push(node_id),
    {
        let r = random_u64(&mut self.rngs[node_id]);
        proof {
            self.draws@ = self.draws@.push(node_id);
        }
        assert(self.outbox() == old(self).outbox());
        assert forall|j: int| 0 <= j < old(self).world().len() && j != node_id implies #[trigger] self.generator(j) == old(self).generator(j) by {
            assert(self.rngs@[j] == old(self).rngs@[j]);
        }
        r
    }

    /// Add an event to this tick's stats.
    pub fn add_event(&mut self, event: E)
        requires
            old(self).wf(),
        ensures
            final(self).wf(),
            final(self).same_world(*old(self)),
            final(self).outbox() == old(self).outbox(),
            final(self).stats().user_events_seq() == old(self).stats().user_events_seq().push(event),
            final(self).calls() == old(self).calls().push(UserCall::Event(event)),
            final(self).deliveries() == old(self).deliveries(),
            final(self).stats().events_seq() == old(self).stats().events_seq(),
            final(self).stats().user() == old(self).stats().user(),
            forall|key: InternalStatKey| #[trigger]
                final(self).stats().internal(key) == old(self).stats().internal(key),
    {
        self.stats.add_user_event(event);
        proof {
            self.calls@ = self.calls@.push(UserCall::Event(event));
            assert(self.calls@.drop_last() =~= old(self).calls@);
            assert forall|k: int| 0 <= k < self.stats.user().len() implies #[trigger] self.stats.user()[k]
                == call_sum(self.calls@, k) by {
                assert(old(self).stats.user()[k] == call_sum(old(self).calls@, k));
            }
        }
        assert(self.outbox() == old(self).outbox());
    }

    /// Increment a user-defined counter in this tick's stats.
    pub fn inc(&mut self, key: usize, x: isize)
        requires
            old(self).wf(),
            key < old(self).stats().user().len(),
            isize::MIN <= old(self).stats().user()[key as int] + x <= isize::MAX,
        ensures
            final(self).wf(),
            final(self).same_world(*old(self)),
            final(self).outbox() == old(self).outbox(),
            final(self).stats().user() == old(self).stats().user().update(
                key as int,
                old(self).stats().user()[key as int] + x,
            ),
            final(self).stats().events_seq() == old(self).stats().events_seq(),
            final(self).stats().user_events_seq() == old(self).stats().user_events_seq(),
            final(self).calls() == old(self).calls().push(UserCall::Inc(key, x)),
            final(self).deliveries() == old(self).deliveries(),
    {
        self.stats.inc(key, x);
        proof {
            self.calls@ = self.calls@.push(UserCall::Inc(key, x));
            assert(self.calls@.drop_last() =~= old(self).calls@);
            assert forall|k: int| 0 <= k < self.stats.user().len() implies #[trigger] self.stats.user()[k]
                == call_sum(self.calls@, k) by {
                assert(old(self).stats.user()[k] == call_sum(old(self).calls@, k));
            }
        }
        assert(self.outbox() == old(self).outbox());
    }

    /// Decrement a user-defined counter in this tick's stats.
    pub fn dec(&mut self, key: usize, x: isize)
        requires
            old(self).wf(),
            key < old(self).stats().user().len(),
            isize::MIN <= old(self).stats().user()[key as int] - x <= isize::MAX,
        ensures
            final(self).wf(),
            final(self).same_world(*old(self)),
            final(self).outbox() == old(self).outbox(),
            final(self).stats().user() == old(self).stats().user().update(
                key as int,
                old(self).stats().user()[key as int] - x,
            ),
            final(self).stats().events_seq() == old(self).stats().events_seq(),
            final(self).stats().user_events_seq() == old(self).stats().user_events_seq(),
            final(self).calls() == old(self).calls().push(UserCall::Dec(key, x)),
            final(self).deliveries() == old(self).deliveries(),
    {
        self.stats.dec(key, x);
        proof {
            self.calls@ = self.calls@.push(UserCall::Dec(key, x));
            assert(self.calls@.drop_last() =~= old(self).calls@);
            assert forall|k: int| 0 <= k < self.stats.user().len() implies #[trigger] self.stats.user()[k]
                == call_sum(self.calls@, k) by {
                assert(old(self).stats.user()[k] == call_sum(old(self).calls@, k));
            }
        }
        assert(self.outbox() == old(self).outbox());
    }
}

impl<PM: PropagationModel, P: Packet, E> GlobalStateManager<PM, P, E> {
    /// `after` is this state after one transmission of `packet` by `transmitter` (see
    /// [GlobalStateManager::transmit_packet]): the recipients are those the transmission reaches,
    /// each gets a clone, the deliveries and events record them, the transmit counter counts one
    /// more, and nothing else changes.
    pub open spec fn transmitted(&self, after: Self, transmitter: NodeData<PM::P>, packet: P) -> bool {
        &&& after.wf()
        &&& after.same_world(*self)
        &&& exists|rs: Seq<NodeID>|
            {
                &&& #[trigger] valid_recipients(self.model(), self.world(), transmitter, packet, rs)
                &&& delivers(self.outbox(), after.outbox(), rs, packet)
                &&& appends_deliveries(self.deliveries(), after.deliveries(), transmitter.id, rs, packet)
                &&& after.stats().events_seq() == self.stats().events_seq().push(
                    InternalEvent::PacketTransmit(transmitter.id),
                ) + link_events(transmitter.id, rs)
            }
        &&& after.stats().internal(InternalStatKey::PacketTransmits) == saturating_sum(
            self.stats().internal(InternalStatKey::PacketTransmits),
            1,
        )
        &&& after.stats().internal(InternalStatKey::PacketReceives) == self.stats().internal(
            InternalStatKey::PacketReceives,
        )
        &&& after.stats().user() == self.stats().user()
        &&& after.stats().user_events_seq() == self.stats().user_events_seq()
        &&& after.calls() == self.calls()
        &&& after.last_calls() == self.last_calls()
        &&& after.last_deliveries() == self.last_deliveries()
        &&& after.draws() == self.draws()
        &&& forall|j: int| #[trigger] after.generator(j) == self.generator(j)
    }

    /// Every eager target of `packet`, if it has any, is a node of the simulation.
    pub open spec fn targets_exist(&self, packet: P) -> bool {
        packet.spec_eager_targets() matches Some(targets) ==> forall|j: int|
            0 <= j < targets.len() ==> #[trigger] targets[j] < self.world().len()
    }

    /// Whether every eager target of `packet`, if it has any, is a node of the simulation.
    pub fn eager_targets_exist(&self, packet: &P) -> (b: bool)
        requires
            self.wf(),
        ensures
            b == self.targets_exist(*packet),
    {
        match packet.eager_targets() {
            None => true,
            Some(targets) => {
                let n = self.node_data.len();
                for j in 0..targets.len()
                    invariant
                        n == self.world().len(),
                        packet.spec_eager_targets() == Some(targets@),
                        forall|k: int| 0 <= k < j ==> #[trigger] targets@[k] < n,
                {
                    if targets[j] >= n {
                        assert(!self.targets_exist(*packet)) by {
                            let ts = packet.spec_eager_targets()->0;
                            assert(ts == targets@);
                            assert(!(ts[j as int] < self.world().len()));
                        }
                        return false;
                    }
                }
                true
            },
        }
    }

    /// The listed targets that the signal from `transmitter` reaches, in order.
    #[verifier::spinoff_prover]
    fn eager_recipient_list(&self, transmitter: &NodeData<PM::P>, targets: &Vec<NodeID>) -> (rs: Vec<
        NodeID,
    >)
        requires
            self.wf(),
            forall|j: int| 0 <= j < targets@.len() ==> #[trigger] targets@[j] < self.world().len(),
        ensures
            rs@ == eager_recipients(self.model(), self.world(), *transmitter, targets@),
    {
        let mut rs: Vec<NodeID> = Vec::new();
        for k in 0..targets.len()
            invariant
                self.wf(),
                forall|j: int| 0 <= j < targets@.len() ==> #[trigger] targets@[j] < self.world().len(),
                rs@ == eager_recipients(
                    self.model(),
                    self.world(),
                    *transmitter,
                    targets@.subrange(0, k as int),
                ),
        {
            let target = targets[k];
            assert(targets@.subrange(0, k + 1).drop_last() =~= targets@.subrange(0, k as int));
            if self.propagation_model.signal_received(transmitter, &self.node_data[target]) {
                rs.push(target);
            }
        }
        assert(targets@.subrange(0, targets@.len() as int) =~= targets@);
        rs
    }

    /// The nodes that hear a transmission of `packet` by `transmitter` and that the packet
    /// targets, each once:
    /// the spatial index yields the nodes within the prune distance along each axis, and each is
    /// then tested exactly.
    #[verifier::spinoff_prover]
    fn broadcast_recipients(&self, transmitter: &NodeData<PM::P>, packet: &P) -> (rs: Vec<NodeID>)
        requires
            self.wf(),
        ensures
            rs@.no_duplicates(),
            forall|j: int| 0 <= j < rs@.len() ==> #[trigger] rs@[j] < self.world().len(),
            forall|i: int|
                0 <= i < self.world().len() ==> (#[trigger] rs@.contains(i as NodeID) <==> reaches(self.model(), self.world(), *transmitter, *packet, i)),
    {
        broadcast use vstd::seq_lib::group_seq_properties;

        let prune = transmitter.propagation_params.prune_distance();
        let centre = halve_position(&transmitter.position);
        let half: u64 = (prune as u64 + 1) / 2;
        let radius: i32 = if half > 0x7fff_ffff {
            0x7fff_ffff
        } else {
            half as i32
        };
        let candidates = query_within_box(&self.index, &centre, radius);
        let ghost world = self.world();
        let ghost t = *transmitter;
        let mut rs: Vec<NodeID> = Vec::new();
        for k in 0..candidates.len()
            invariant
                self.wf(),
                world == self.world(),
                t == *transmitter,
                prune == t.propagation_params.spec_prune_distance(),
                candidates@.no_duplicates(),
                forall|j: int| 0 <= j < candidates@.len() ==> #[trigger] candidates@[j] < world.len(),
                rs@.no_duplicates(),
                forall|j: int|
                    0 <= j < rs@.len() ==> #[trigger] rs@[j] < world.len() && candidates@.subrange(
                        0,
                        k as int,
                    ).contains(rs@[j]),
                forall|i: int|
                    0 <= i < world.len() ==> (#[trigger] rs@.contains(i as NodeID) <==> (
                    candidates@.subrange(0, k as int).contains(i as NodeID) && reaches(self.model(), world, t, *packet, i))),
        {
            let c = candidates[k];
            let data = &self.node_data[c];
            let mut heard = false;
            if data.id != transmitter.id {
                let dist = exec_distance_squared(&transmitter.position, &data.position);
                let p = prune as u128;
                assert(p * p <= 0xffff_ffff * 0xffff_ffff) by (nonlinear_arith)
                    requires
                        0 <= p <= 0xffff_ffff,
                ;
                if dist <= p * p {
                    heard = self.propagation_model.signal_received(transmitter, data);
                }
            }
            if heard {
                heard = packet.targets(data);
            }
            assert(heard == reaches(self.model(), world, t, *packet, c as int));
            assert(candidates@.subrange(0, k + 1) =~= candidates@.subrange(0, k as int).push(c));
            assert(!candidates@.subrange(0, k as int).contains(c)) by {
                if candidates@.subrange(0, k as int).contains(c) {
                    let w = choose|w: int| 0 <= w < k && candidates@.subrange(0, k as int)[w] == c;
                    assert(candidates@[w] == candidates@[k as int]);
                }
            }
            let ghost prev = rs@;
            let ghost prefix = candidates@.subrange(0, k as int);
            let ghost next_prefix = candidates@.subrange(0, k + 1);
            if heard {
                rs.push(c);
            }
            assert forall|j: int| 0 <= j < rs@.len() implies #[trigger] rs@[j] < world.len()
                && next_prefix.contains(rs@[j]) by {
                if j < prev.len() {
                    assert(prev[j] == rs@[j]);
                    assert(prefix.contains(prev[j]));
                    let w = choose|w: int| 0 <= w < prefix.len() && prefix[w] == prev[j];
                    assert(next_prefix[w] == rs@[j]);
                } else {
                    assert(next_prefix[k as int] == c);
                }
            }
            assert forall|i: int| 0 <= i < world.len() implies (#[trigger] rs@.contains(i as NodeID) <==> (
            next_prefix.contains(i as NodeID) && reaches(self.model(), world, t, *packet, i))) by {
                if next_prefix.contains(i as NodeID) {
                    let w = choose|w: int| 0 <= w < next_prefix.len() && next_prefix[w] == i as NodeID;
                    if w < k {
                        assert(prefix[w] == i as NodeID);
                    }
                }
                if prefix.contains(i as NodeID) {
                    let w = choose|w: int| 0 <= w < prefix.len() && prefix[w] == i as NodeID;
                    assert(next_prefix[w] == i as NodeID);
                }
                if rs@.contains(i as NodeID) {
                    let w = choose|w: int| 0 <= w < rs@.len() && rs@[w] == i as NodeID;
                    if w < prev.len() {
                        assert(prev[w] == i as NodeID);
                    }
                }
                if prev.contains(i as NodeID) {
                    let w = choose|w: int| 0 <= w < prev.len() && prev[w] == i as NodeID;
                    assert(rs@[w] == i as NodeID);
                }
                if heard && i as NodeID == c {
                    assert(rs@[prev.len() as int] == c);
                }
            }
        }
        assert(candidates@.subrange(0, candidates@.len() as int) =~= candidates@);
        assert forall|i: int| 0 <= i < world.len() && hears(self.model(), world, t, i) implies candidates@.contains(
            i as NodeID,
        ) by {
            lemma_euclidean_ball_in_box(t.position, world[i].position, prune as int);
            lemma_halving_keeps_close_points_close(t.position, world[i].position, prune as int);
            assert(index_points(self.index)[i] == halved_position(world[i].position));
        }
        rs
    }

    /// Transmit a packet; the propagation model decides which nodes receive it, and of a packet
    /// without eager targets only the nodes it targets (see [Packet::targets]) do. Each recipient
    /// gets a clone of the packet in its incoming packets for the next tick, and the stats record
    /// the transmission followed by one link event per recipient.
    #[verifier::spinoff_prover]
    pub fn transmit_packet(&mut self, transmitter: &NodeData<PM::P>, packet: P)
        requires
            old(self).wf(),
            old(self).targets_exist(packet),
        ensures
            final(self).wf(),
            final(self).same_world(*old(self)),
            exists|rs: Seq<NodeID>|
                {
                    &&& valid_recipients(old(self).model(), old(self).world(), *transmitter, packet, rs)
                    &&& delivers(old(self).outbox(), final(self).outbox(), rs, packet)
                    &&& appends_deliveries(
                        old(self).deliveries(),
                        final(self).deliveries(),
                        transmitter.id,
                        rs,
                        packet,
                    )
                    &&& final(self).stats().events_seq() == old(self).stats().events_seq().push(
                        InternalEvent::PacketTransmit(transmitter.id),
                    ) + link_events(transmitter.id, rs)
                },
            transmit_count(final(self).stats().events_seq()) == transmit_count(
                old(self).stats().events_seq(),
            ) + 1,
            final(self).stats().internal(InternalStatKey::PacketTransmits) == saturating_sum(
                old(self).stats().internal(InternalStatKey::PacketTransmits),
                1,
            ),
            final(self).stats().internal(InternalStatKey::PacketReceives) == old(self).stats().internal(
                InternalStatKey::PacketReceives,
            ),
            final(self).stats().user() == old(self).stats().user(),
            final(self).stats().user_events_seq() == old(self).stats().user_events_seq(),
            final(self).keeps_history(*old(self)),
            old(self).transmitted(*final(self), *transmitter, packet),
    {
        proof {
            lemma_transmit_count_nonnegative(old(self).stats().events_seq());
        }
        self.stats.add_internal_event(InternalEvent::PacketTransmit(transmitter.id));
        self.stats.inc_internal(InternalStatKey::PacketTransmits, 1);
        assert(self.stats.events_seq().drop_last() =~= old(self).stats().events_seq());
        assert(transmit_count(self.stats.events_seq()) == transmit_count(old(self).stats().events_seq())
            + 1);
        let recipients = match packet.eager_targets() {
            Some(targets) => {
                assert(packet.spec_eager_targets()->0 == targets@);
                assert(forall|j: int|
                    0 <= j < targets@.len() ==> #[trigger] targets@[j] < self.world().len());
                self.eager_recipient_list(transmitter, &targets)
            },
            None => self.broadcast_recipients(transmitter, &packet),
        };
        proof {
            if let Some(targets) = packet.spec_eager_targets() {
                lemma_eager_recipients_are_targets(
                    self.model(),
                    self.world(),
                    *transmitter,
                    targets,
                    self.world().len() as int,
                );
            }
        }
        let ghost before = old(self).outbox();
        let ghost events_before = self.stats.events_seq();
        assert(link_count(events_before) == link_count(old(self).stats().events_seq())) by {
            assert(events_before.drop_last() =~= old(self).stats().events_seq());
        }
        let ghost rs = recipients@;
        assert(delivers(before, self.outbox(), rs.subrange(0, 0), packet)) by {
            assert forall|i: int| 0 <= i < before.len() implies before[i].subrange(
                0,
                before[i].len() as int,
            ) == before[i] by {
                assert(before[i].subrange(0, before[i].len() as int) =~= before[i]);
            }
        }
        assert(self.deliveries().subrange(0, self.deliveries().len() as int) =~= self.deliveries());
        assert(rs.subrange(0, 0) =~= Seq::<NodeID>::empty());
        for k in 0..recipients.len()
            invariant
                self.wf(),
                self.node_data@ == old(self).node_data@,
                self.index == old(self).index,
                self.propagation_model == old(self).propagation_model,
                self.clock == old(self).clock,
                self.rngs@.len() == old(self).rngs@.len(),
                rs == recipients@,
                valid_recipients(old(self).model(), old(self).world(), *transmitter, packet, rs),
                forall|j: int| 0 <= j < rs.len() ==> #[trigger] rs[j] < self.world().len(),
                delivers(before, self.outbox(), rs.subrange(0, k as int), packet),
                appends_deliveries(
                    old(self).deliveries(),
                    self.deliveries(),
                    transmitter.id,
                    rs.subrange(0, k as int),
                    packet,
                ),
                self.calls@ == old(self).calls@,
                self.rngs@ == old(self).rngs@,
                self.last_sent@ == old(self).last_sent@,
                self.last_calls@ == old(self).last_calls@,
                self.draws@ == old(self).draws@,
                self.stats.events_seq() == events_before + link_events(
                    transmitter.id,
                    rs.subrange(0, k as int),
                ),
                transmit_count(self.stats.events_seq()) == transmit_count(events_before),
                self.stats.internal(InternalStatKey::PacketTransmits) == as_count(
                    transmit_count(events_before),
                ),
                total_len(self.outbox()) - link_count(self.stats.events_seq()) == old(
                    self,
                ).unrecorded_packets(),
                self.stats.internal(InternalStatKey::PacketTransmits) == saturating_sum(
                    old(self).stats().internal(InternalStatKey::PacketTransmits),
                    1,
                ),
                self.stats.internal(InternalStatKey::PacketReceives) == old(self).stats().internal(
                    InternalStatKey::PacketReceives,
                ),
                self.stats.user() == old(self).stats().user(),
                self.stats.user_events_seq() == old(self).stats().user_events_seq(),
        {
            let r = recipients[k];
            let ghost outbox_before = self.outbox();
            let ghost events_now = self.stats.events_seq();
            self.stats.add_internal_event(InternalEvent::PacketLink((transmitter.id, r)));
            let copy = packet.clone();
            let ghost delivered = copy;
            let ghost sent_before = self.sent@;
            self.new_packets[r].push(copy);
            proof {
                self.sent@ = self.sent@.push((transmitter.id, r, delivered));
                assert(self.sent@.drop_last() =~= sent_before);
                assert forall|i: int| 0 <= i < self.new_packets@.len() implies #[trigger] self.new_packets@[i]@
                    == deliveries_to(self.sent@, i) by {
                    assert(deliveries_to(sent_before, i) == outbox_before[i]);
                }
                let od = old(self).deliveries();
                let done = rs.subrange(0, k as int);
                let next = rs.subrange(0, k + 1);
                assert(self.sent@.subrange(0, od.len() as int) =~= sent_before.subrange(0, od.len() as int));
                assert forall|j: int| 0 <= j < next.len() implies {
                    &&& (#[trigger] self.sent@[od.len() + j]).0 == transmitter.id
                    &&& self.sent@[od.len() + j].1 == next[j]
                    &&& cloned::<P>(packet, self.sent@[od.len() + j].2)
                } by {
                    if j < k {
                        assert(sent_before[od.len() + j] == self.sent@[od.len() + j]);
                        assert(done[j] == next[j]);
                    }
                }
                let done = rs.subrange(0, k as int);
                let next = rs.subrange(0, k + 1);
                assert(next.drop_last() =~= done);
                assert(link_events(transmitter.id, next) =~= link_events(transmitter.id, done).push(
                    InternalEvent::PacketLink((transmitter.id, r)),
                ));
                assert(self.stats.events_seq().drop_last() =~= events_now);
                assert(self.outbox() =~= outbox_before.update(
                    r as int,
                    outbox_before[r as int].push(copy),
                ));
                lemma_total_len_update(outbox_before, r as int, outbox_before[r as int].push(copy));
                assert forall|i: int| 0 <= i < before.len() implies {
                    &&& #[trigger] self.outbox()[i].len() == before[i].len() + occurrences(next, i)
                    &&& self.outbox()[i].subrange(0, before[i].len() as int) == before[i]
                    &&& forall|j: int|
                        before[i].len() <= j < self.outbox()[i].len() ==> cloned::<P>(
                            packet,
                            #[trigger] self.outbox()[i][j],
                        )
                } by {
                    if i == r {
                        assert(self.outbox()[i].subrange(0, before[i].len() as int)
                            =~= outbox_before[i].subrange(0, before[i].len() as int));
                    }
                }
            }
        }
        assert(rs.subrange(0, rs.len() as int) =~= rs);
        assert(self.same_world(*old(self)));
        proof {
            lemma_delivery_appends(before, self.outbox(), rs, packet);
            let ev = old(self).stats().events_seq();
            assert(ev =~= self.stats().events_seq().subrange(0, ev.len() as int));
            assert(before == old(self).outbox());
            assert(appends_deliveries(old(self).deliveries(), self.deliveries(), transmitter.id, rs, packet));
            assert(old(self).deliveries() =~= self.deliveries().subrange(
                0,
                old(self).deliveries().len() as int,
            ));
            assert(self.keeps_history(*old(self)));
        }
        proof {
            lemma_transmit_count_links(events_before, transmitter.id, rs);
            assert(events_before.drop_last() =~= old(self).stats().events_seq());
        }
    }
}

/// The data of every node of a node list, in order.
pub open spec fn node_data_of<NB, MB, PP>(nodes: Seq<Node<NB, MB, PP>>) -> Seq<NodeData<PP>> {
    nodes.map_values(|n: Node<NB, MB, PP>| n.data)
}

/// `after` is a node list that `before` may turn into in one tick at clock `clock`, while the
/// global state shows the nodes' data as `world` and node `i` is handed `incoming[i]`: node `i`'s
/// movement behaviour ticks to its new movement behaviour and position, then its node behaviour,
/// given the moved node's data, ticks to its new node behaviour; IDs and propagation parameters
/// stay.
pub open spec fn tick_result<PM: PropagationModel, E, NB: NodeBehaviour<PM, E>, MB: MoveBehaviour<PM::P>>(
    before: Seq<Node<NB, MB, PM::P>>,
    clock: SimClock,
    world: Seq<NodeData<PM::P>>,
    incoming: Seq<Seq<NB::P>>,
    after: Seq<Node<NB, MB, PM::P>>,
) -> bool {
    &&& after.len() == before.len()
    &&& forall|i: int|
        0 <= i < before.len() ==> {
            &&& (#[trigger] after[i]).data.id == before[i].data.id
            &&& after[i].data.propagation_params == before[i].data.propagation_params
            &&& before[i].move_behaviour.spec_ticks_to(
                before[i].data,
                clock,
                world,
                (after[i].move_behaviour, after[i].data.position),
            )
            &&& before[i].behaviour.spec_ticks_to(
                after[i].data,
                clock,
                world,
                incoming[i],
                after[i].behaviour,
            )
        }
}

/// `history` lists the states (nodes, clock, incoming packets) a simulation passes through,
/// one tick apart: each clock is the previous one advanced, and each node list is a result of
/// ticking the previous one (see [tick_result]) at the new clock.
pub open spec fn tick_history<PM: PropagationModel, E, NB: NodeBehaviour<PM, E>, MB: MoveBehaviour<PM::P>>(
    history: Seq<(Seq<Node<NB, MB, PM::P>>, SimClock, Seq<Seq<NB::P>>)>,
) -> bool {
    forall|k: int|
        0 <= k < history.len() - 1 ==> {
            &&& #[trigger] history[k + 1].1 == history[k].1.spec_advanced()
            &&& tick_result(
                history[k].0,
                history[k + 1].1,
                node_data_of(history[k].0),
                history[k].2,
                history[k + 1].0,
            )
        }
}

/// Step `i` of a tick's run through the node behaviours: node `i`'s incoming packets are counted
/// as received (from `states[i]` to `counted[i]`, see [GlobalStateManager::counted_receives]),
/// then the behaviour of node `i` of `nodes`, given the node's data `data[i]` and its incoming
/// packets `incoming[i]`, takes `counted[i]` to `states[i + 1]` (see
/// [NodeBehaviour::spec_transition]).
pub open spec fn behaviour_step<PM: PropagationModel, E, NB: NodeBehaviour<PM, E>, MB: MoveBehaviour<PM::P>>(
    nodes: Seq<Node<NB, MB, PM::P>>,
    data: Seq<NodeData<PM::P>>,
    incoming: Seq<Seq<NB::P>>,
    states: Seq<GlobalStateManager<PM, NB::P, E>>,
    counted: Seq<GlobalStateManager<PM, NB::P, E>>,
    i: int,
) -> bool {
    &&& counted[i].counted_receives(states[i], as_count(incoming[i].len() as int))
    &&& nodes[i].behaviour.spec_transition(data[i], incoming[i], counted[i], states[i + 1])
}

/// The first `len` steps (see [behaviour_step]) of a tick's run through the node behaviours.
pub open spec fn behaviour_steps<PM: PropagationModel, E, NB: NodeBehaviour<PM, E>, MB: MoveBehaviour<PM::P>>(
    nodes: Seq<Node<NB, MB, PM::P>>,
    data: Seq<NodeData<PM::P>>,
    incoming: Seq<Seq<NB::P>>,
    states: Seq<GlobalStateManager<PM, NB::P, E>>,
    counted: Seq<GlobalStateManager<PM, NB::P, E>>,
    len: int,
) -> bool {
    &&& states.len() == len + 1
    &&& counted.len() == len
    &&& forall|i: int| 0 <= i < len ==> #[trigger] behaviour_step(nodes, data, incoming, states, counted, i)
}

/// `states` are the global states the node behaviours take the global state through in one tick,
/// one step per node (see [behaviour_step]), with `counted` between them.
pub open spec fn behaviour_chain<PM: PropagationModel, E, NB: NodeBehaviour<PM, E>, MB: MoveBehaviour<PM::P>>(
    nodes: Seq<Node<NB, MB, PM::P>>,
    data: Seq<NodeData<PM::P>>,
    incoming: Seq<Seq<NB::P>>,
    states: Seq<GlobalStateManager<PM, NB::P, E>>,
    counted: Seq<GlobalStateManager<PM, NB::P, E>>,
) -> bool {
    behaviour_steps(nodes, data, incoming, states, counted, nodes.len() as int)
}

/// One more step extends a run of steps.
proof fn lemma_behaviour_steps_push<PM: PropagationModel, E, NB: NodeBehaviour<PM, E>, MB: MoveBehaviour<PM::P>>(
    nodes: Seq<Node<NB, MB, PM::P>>,
    data: Seq<NodeData<PM::P>>,
    incoming: Seq<Seq<NB::P>>,
    states: Seq<GlobalStateManager<PM, NB::P, E>>,
    counted: Seq<GlobalStateManager<PM, NB::P, E>>,
    len: int,
    next: GlobalStateManager<PM, NB::P, E>,
    count: GlobalStateManager<PM, NB::P, E>,
)
    requires
        len >= 0,
        behaviour_steps(nodes, data, incoming, states, counted, len),
        behaviour_step(nodes, data, incoming, states.push(next), counted.push(count), len),
    ensures
        behaviour_steps(nodes, data, incoming, states.push(next), counted.push(count), len + 1),
{
    let s2 = states.push(next);
    let c2 = counted.push(count);
    assert forall|i: int| 0 <= i < len + 1 implies #[trigger] behaviour_step(nodes, data, incoming, s2, c2, i) by {
        if i < len {
            assert(behaviour_step(nodes, data, incoming, states, counted, i));
            assert(s2[i] == states[i] && s2[i + 1] == states[i + 1] && c2[i] == counted[i]);
        }
    }
}

/// Along a history of ticks, the clock `k` states on is the first clock advanced `k` times.
pub proof fn lemma_history_clocks<PM: PropagationModel, E, NB: NodeBehaviour<PM, E>, MB: MoveBehaviour<PM::P>>(
    history: Seq<(Seq<Node<NB, MB, PM::P>>, SimClock, Seq<Seq<NB::P>>)>,
    k: nat,
)
    requires
        tick_history(history),
        k < history.len(),
    ensures
        history[k as int].1 == history[0].1.advanced_by(k),
    decreases k,
{
    if k > 0 {
        lemma_history_clocks(history, (k - 1) as nat);
        assert(history[(k - 1) + 1].1 == history[k - 1].1.spec_advanced());
    }
}

/// Along a history of ticks the nodes stay: every state has as many nodes as the first, and node
/// `i` keeps its ID and its propagation parameters.
pub proof fn lemma_history_keeps_nodes<PM: PropagationModel, E, NB: NodeBehaviour<PM, E>, MB: MoveBehaviour<PM::P>>(
    history: Seq<(Seq<Node<NB, MB, PM::P>>, SimClock, Seq<Seq<NB::P>>)>,
    k: nat,
)
    requires
        tick_history(history),
        k < history.len(),
    ensures
        history[k as int].0.len() == history[0].0.len(),
        forall|i: int|
            0 <= i < history[0].0.len() ==> (#[trigger] history[k as int].0[i]).data.id
                == history[0].0[i].data.id && history[k as int].0[i].data.propagation_params
                == history[0].0[i].data.propagation_params,
    decreases k,
{
    if k > 0 {
        lemma_history_keeps_nodes(history, (k - 1) as nat);
        let j = k - 1;
        assert(tick_result(
            history[j].0,
            history[j + 1].1,
            node_data_of(history[j].0),
            history[j].2,
            history[j + 1].0,
        ));
        assert forall|i: int| 0 <= i < history[0].0.len() implies (#[trigger] history[k as int].0[i]).data.id
            == history[0].0[i].data.id && history[k as int].0[i].data.propagation_params
            == history[0].0[i].data.propagation_params by {
            assert(history[j].0[i].data.id == history[0].0[i].data.id);
            assert(history[j + 1].0[i].data.id == history[j].0[i].data.id);
        }
    }
}

/// Running `a` ticks and then `b` more is a run of `a + b` ticks: two histories where the second
/// starts in the state the first ends in join into one history, from the start of the first to
/// the end of the second.
pub proof fn lemma_history_concat<PM: PropagationModel, E, NB: NodeBehaviour<PM, E>, MB: MoveBehaviour<PM::P>>(
    first: Seq<(Seq<Node<NB, MB, PM::P>>, SimClock, Seq<Seq<NB::P>>)>,
    second: Seq<(Seq<Node<NB, MB, PM::P>>, SimClock, Seq<Seq<NB::P>>)>,
)
    requires
        tick_history(first),
        tick_history(second),
        first.len() > 0,
        second.len() > 0,
        first.last() == second[0],
    ensures
        tick_history::<PM, E, NB, MB>(first + second.drop_first()),
        (first + second.drop_first()).len() == (first.len() - 1) + (second.len() - 1) + 1,
        (first + second.drop_first())[0] == first[0],
        (first + second.drop_first()).last() == second.last(),
{
    let joined = first + second.drop_first();
    let n = first.len() - 1;
    assert forall|k: int| 0 <= k < joined.len() - 1 implies {
        &&& #[trigger] joined[k + 1].1 == joined[k].1.spec_advanced()
        &&& tick_result(
            joined[k].0,
            joined[k + 1].1,
            node_data_of(joined[k].0),
            joined[k].2,
            joined[k + 1].0,
        )
    } by {
        if k < n {
            assert(joined[k] == first[k]);
            assert(joined[k + 1] == first[k + 1]);
        } else {
            assert(joined[k] == second[k - n]);
            assert(joined[k + 1] == second[(k - n) + 1]);
        }
    }
    if second.len() == 1 {
        assert(joined.last() == first.last());
    }
}

/// Manages the whole simulation throughout its lifetime: the nodes with their behaviours, the
/// packets each node will receive on the next tick, and the global state.
pub struct SimManager<PM: PropagationModel, NB: NodeBehaviour<PM, E>, MB: MoveBehaviour<PM::P>, E> {
    nodes: Vec<Node<NB, MB, PM::P>>,
    incoming_packets: Vec<Vec<NB::P>>,
    /// Stores the state of the current tick.
    pub global_state_manager: GlobalStateManager<PM, NB::P, E>,
}

impl<PM: PropagationModel, NB: NodeBehaviour<PM, E>, MB: MoveBehaviour<PM::P>, E> SimManager<
    PM,
    NB,
    MB,
    E,
> {
    /// The global state.
    pub closed spec fn global(&self) -> GlobalStateManager<PM, NB::P, E> {
        self.global_state_manager
    }

    /// All nodes, in ID order.
    pub closed spec fn node_seq(&self) -> Seq<Node<NB, MB, PM::P>> {
        self.nodes@
    }

    /// Packets each node receives on the next tick, by node ID.
    pub closed spec fn incoming(&self) -> Seq<Seq<NB::P>> {
        self.incoming_packets@.map_values(|v: Vec<NB::P>| v@)
    }

    /// The global state is well formed and holds the data of every node, and every node has a
    /// list of incoming packets.
    pub closed spec fn wf(&self) -> bool {
        &&& self.global_state_manager.wf()
        &&& self.nodes@.len() == self.global_state_manager.world().len()
        &&& forall|i: int|
            0 <= i < self.nodes@.len() ==> (#[trigger] self.nodes@[i]).data
                == self.global_state_manager.world()[i]
        &&& self.incoming_packets@.len() == self.nodes@.len()
    }

    /// In a well-formed simulation the global state is well formed and holds, for node `i`, the
    /// data of node `i`; every node has a list of incoming packets.
    pub proof fn lemma_wf(&self)
        requires
            self.wf(),
        ensures
            self.global().wf(),
            self.global().world().len() == self.node_seq().len(),
            forall|i: int|
                0 <= i < self.node_seq().len() ==> #[trigger] self.global().world()[i]
                    == self.node_seq()[i].data,
            self.incoming().len() == self.node_seq().len(),
            self.global().world() == node_data_of(self.node_seq()),
    {
        assert forall|i: int| 0 <= i < self.node_seq().len() implies #[trigger] self.global().world()[i]
            == self.node_seq()[i].data by {
            assert(self.nodes@[i].data == self.global_state_manager.world()[i]);
        }
        assert(self.global().world() =~= node_data_of(self.node_seq()));
    }

    /// One more tick extends a history of the simulation's states by the state after it.
    proof fn lemma_history_step(
        history: Seq<(Seq<Node<NB, MB, PM::P>>, SimClock, Seq<Seq<NB::P>>)>,
        before: Self,
        after: Self,
    )
        requires
            tick_history(history),
            history.len() > 0,
            history.last() == (before.node_seq(), before.global().clock(), before.incoming()),
            before.wf(),
            after.global().clock() == before.global().clock().spec_advanced(),
            tick_result(
                before.node_seq(),
                before.global().clock().spec_advanced(),
                before.global().world(),
                before.incoming(),
                after.node_seq(),
            ),
        ensures
            tick_history(
                history.push((after.node_seq(), after.global().clock(), after.incoming())),
            ),
    {
        before.lemma_wf();
        let extended = history.push((after.node_seq(), after.global().clock(), after.incoming()));
        assert forall|k: int| 0 <= k < extended.len() - 1 implies {
            &&& #[trigger] extended[k + 1].1 == extended[k].1.spec_advanced()
            &&& tick_result(
                extended[k].0,
                extended[k + 1].1,
                node_data_of(extended[k].0),
                extended[k].2,
                extended[k + 1].0,
            )
        } by {
            if k < history.len() - 1 {
                assert(extended[k] == history[k] && extended[k + 1] == history[k + 1]);
            } else {
                assert(extended[k] == history.last());
            }
        }
    }

    /// Borrows the global state.
    pub fn global_state_manager(&self) -> (g: &GlobalStateManager<PM, NB::P, E>)
        ensures
            *g == self.global(),
    {
        &self.global_state_manager
    }

    /// Borrows the global state mutably, e.g. to transmit a packet between ticks; the nodes and
    /// their incoming packets stay as they are.
    pub fn global_state_manager_mut(&mut self) -> (g: &mut GlobalStateManager<PM, NB::P, E>)
        ensures
            *g == old(self).global(),
            final(self).global() == *final(g),
            final(self).node_seq() == old(self).node_seq(),
            final(self).incoming() == old(self).incoming(),
    {
        &mut self.global_state_manager
    }

    /// Changing the global state only through its own methods keeps the simulation well formed.
    pub proof fn lemma_wf_after_global_change(
        before: Self,
        after: Self,
    )
        requires
            before.wf(),
            after.global().wf(),
            after.global().same_world(before.global()),
            after.node_seq() == before.node_seq(),
            after.incoming() == before.incoming(),
        ensures
            after.wf(),
    {
        assert(after.incoming_packets@.len() == after.incoming().len());
        assert(before.incoming_packets@.len() == before.incoming().len());
        assert(after.nodes@ == before.nodes@);
    }

    /// # Arguments
    ///
    /// * `nodes`: Nodes that will be simulated; node `i` gets ID `i`.
    /// * `seed`: Seed for randomness; node `i` draws from a generator seeded with `seed + i`.
    /// * `propagation_model`: Decides whether a packet transmission is received.
    /// * `timestep_delta`: How far simulation time advances each tick.
    /// * `user_stat_keys`: Number of user-defined counters in each tick's stats.
    pub fn new(
        nodes: Vec<NodeInit<NB, MB, PM::P>>,
        seed: u64,
        propagation_model: PM,
        timestep_delta: u64,
        user_stat_keys: usize,
    ) -> (sim: Self)
        requires
            nodes@.len() <= max_nodes(),
            seed + nodes@.len() <= u64::MAX + 1,
        ensures
            sim.wf(),
            sim.node_seq().len() == nodes@.len(),
            forall|i: int|
                0 <= i < nodes@.len() ==> {
                    &&& (#[trigger] sim.node_seq()[i]).data.id == i
                    &&& sim.node_seq()[i].data.position == nodes@[i].starting_position
                    &&& sim.node_seq()[i].data.propagation_params == nodes@[i].propagation_params
                    &&& sim.node_seq()[i].behaviour == nodes@[i].node_behaviour
                    &&& sim.node_seq()[i].move_behaviour == nodes@[i].move_behaviour
                },
            forall|i: int| 0 <= i < sim.incoming().len() ==> (#[trigger] sim.incoming()[i]).len() == 0,
            sim.global().model() == propagation_model,
            sim.global().clock().delta() == timestep_delta,
            sim.global().clock().time() == 0,
            sim.global().clock().tick_number() == 0,
            sim.global().clock().is_fresh(),
            forall|i: int|
                0 <= i < sim.global().outbox().len() ==> (
                #[trigger] sim.global().outbox()[i]).len() == 0,
            sim.global().stats().is_empty_for(user_stat_keys as nat),
            sim.global().world().len() == nodes@.len(),
            forall|i: int|
                0 <= i < nodes@.len() ==> #[trigger] sim.global().world()[i] == sim.node_seq()[i].data,
    {
        let ghost inits = nodes@;
        let n = nodes.len();
        let mut built: Vec<Node<NB, MB, PM::P>> = Vec::with_capacity(n);
        let mut node_data: Vec<NodeData<PM::P>> = Vec::with_capacity(n);
        for init in it: nodes.into_iter()
            invariant
                n == inits.len(),
                it.seq() == inits,
                built@.len() == it.index,
                node_data@.len() == it.index,
                forall|i: int|
                    0 <= i < built@.len() ==> {
                        &&& (#[trigger] built@[i]).data.id == i
                        &&& built@[i].data.position == inits[i].starting_position
                        &&& built@[i].data.propagation_params == inits[i].propagation_params
                        &&& built@[i].behaviour == inits[i].node_behaviour
                        &&& built@[i].move_behaviour == inits[i].move_behaviour
                        &&& node_data@[i] == built@[i].data
                    },
        {
            let id = built.len();
            let data = NodeData {
                position: init.starting_position,
                id,
                propagation_params: init.propagation_params,
            };
            node_data.push(data);
            built.push(Node { behaviour: init.node_behaviour, move_behaviour: init.move_behaviour, data });
        }
        assert forall|i: int| 0 <= i < node_data@.len() implies (#[trigger] node_data@[i]).id == i by {
            assert(built@[i].data.id == i);
        }
        let global_state_manager = GlobalStateManager::new(
            node_data,
            seed,
            propagation_model,
            timestep_delta,
            user_stat_keys,
        );
        SimManager { nodes: built, incoming_packets: empty_lists(n), global_state_manager }
    }

    /// Perform one tick of the simulation and return the stats generated during it.
    ///
    /// The clock moves on; every node's movement behaviour is ticked and the node moves to the
    /// position it returns; then every node's behaviour is ticked with the packets delivered to it
    /// during the previous tick. While behaviours are ticked, the global state shows the nodes'
    /// data as of the previous tick, and each node's incoming packets are counted as received just
    /// before its behaviour ticks (see [behaviour_chain]). The packets transmitted during the tick
    /// become the nodes' incoming packets for the next one, and the stats returned are those the
    /// behaviours left.
    #[verifier::spinoff_prover]
    pub fn tick(&mut self) -> (stats: TimestepStats<E>)
        requires
            old(self).wf(),
            old(self).global().clock().can_advance(),
        ensures
            final(self).wf(),
            final(self).global().clock() == old(self).global().clock().spec_advanced(),
            final(self).global().model() == old(self).global().model(),
            final(self).node_seq().len() == old(self).node_seq().len(),
            forall|i: int|
                0 <= i < final(self).node_seq().len() ==> (#[trigger] final(self).node_seq()[i]).data.id
                    == i && final(self).node_seq()[i].data.propagation_params == old(
                    self,
                ).node_seq()[i].data.propagation_params,
            forall|i: int|
                0 <= i < final(self).global().outbox().len() ==> (
                #[trigger] final(self).global().outbox()[i]).len() == 0,
            total_len(final(self).incoming()) == total_len(old(self).global().outbox()) + link_count(
                stats.events_seq(),
            ),
            stats.internal(InternalStatKey::PacketReceives) == received_total(old(self).incoming()),
            stats.user().len() == old(self).global().stats().user().len(),
            final(self).global().stats().is_empty_for(old(self).global().stats().user().len()),
            final(self).global().calls() == Seq::<UserCall<E>>::empty(),
            final(self).global().deliveries() == Seq::<Delivery<NB::P>>::empty(),
            stats.internal(InternalStatKey::PacketTransmits) == as_count(
                transmit_count(stats.events_seq()),
            ),
            forall|i: int|
                0 <= i < old(self).global().outbox().len() ==> old(self).global().outbox()[i].len()
                    <= #[trigger] final(self).incoming()[i].len() && final(self).incoming()[i].subrange(
                    0,
                    old(self).global().outbox()[i].len() as int,
                ) == old(self).global().outbox()[i],
            tick_result(
                old(self).node_seq(),
                old(self).global().clock().spec_advanced(),
                old(self).global().world(),
                old(self).incoming(),
                final(self).node_seq(),
            ),
            forall|i: int|
                0 <= i < final(self).incoming().len() ==> #[trigger] final(self).incoming()[i]
                    == deliveries_to(final(self).global().last_deliveries(), i),
            old(self).global().deliveries().is_prefix_of(final(self).global().last_deliveries()),
            forall|k: int|
                0 <= k < stats.user().len() ==> #[trigger] stats.user()[k] == call_sum(
                    final(self).global().last_calls(),
                    k,
                ),
            stats.user_events_seq() == call_events(final(self).global().last_calls()),
            exists|
                states: Seq<GlobalStateManager<PM, NB::P, E>>,
                counted: Seq<GlobalStateManager<PM, NB::P, E>>,
            |
                {
                    &&& #[trigger] behaviour_chain(
                        old(self).node_seq(),
                        node_data_of(final(self).node_seq()),
                        old(self).incoming(),
                        states,
                        counted,
                    )
                    &&& states[0].world() == old(self).global().world()
                    &&& states[0].model() == old(self).global().model()
                    &&& states[0].clock() == old(self).global().clock().spec_advanced()
                    &&& old(self).global().deliveries().is_prefix_of(states[0].deliveries())
                    &&& final(self).global().last_deliveries() == states.last().deliveries()
                    &&& final(self).global().last_calls() == states.last().calls()
                    &&& stats == states.last().stats()
                },
            forall|i: int|
                0 <= i < final(self).node_seq().len() ==> #[trigger] old(
                    self,
                ).node_seq()[i].move_behaviour.spec_ticks_to(
                    old(self).node_seq()[i].data,
                    old(self).global().clock().spec_advanced(),
                    old(self).global().world(),
                    (final(self).node_seq()[i].move_behaviour, final(self).node_seq()[i].data.position),
                ),
            forall|i: int|
                0 <= i < final(self).node_seq().len() ==> #[trigger] old(
                    self,
                ).node_seq()[i].behaviour.spec_ticks_to(
                    final(self).node_seq()[i].data,
                    old(self).global().clock().spec_advanced(),
                    old(self).global().world(),
                    old(self).incoming()[i],
                    final(self).node_seq()[i].behaviour,
                ),
    {
        let n = self.nodes.len();
        let ghost keys = self.global_state_manager.stats.user().len();
        self.global_state_manager.begin_tick();
        let ghost start = self.global_state_manager;
        proof {
            GlobalStateManager::<PM, NB::P, E>::lemma_keeps_history(start, start, start);
        }
        let mut old_nodes: Vec<Node<NB, MB, PM::P>> = Vec::new();
        std::mem::swap(&mut old_nodes, &mut self.nodes);
        let ghost olds = old_nodes@;
        assert(forall|j: int| 0 <= j < olds.len() ==> (#[trigger] olds[j]).data.id == j);
        let mut moved: Vec<Node<NB, MB, PM::P>> = Vec::with_capacity(n);
        for node in it: old_nodes.into_iter()
            invariant
                it.seq() == olds,
                n == olds.len(),
                moved@.len() == it.index,
                forall|j: int| 0 <= j < olds.len() ==> (#[trigger] olds[j]).data.id == j,
                forall|j: int|
                    0 <= j < moved@.len() ==> (#[trigger] moved@[j]).data.id == j
                        && moved@[j].data.propagation_params == olds[j].data.propagation_params,
                forall|j: int|
                    0 <= j < moved@.len() ==> (#[trigger] moved@[j]).behaviour == olds[j].behaviour
                        && olds[j].move_behaviour.spec_ticks_to(
                        olds[j].data,
                        start.clock(),
                        start.world(),
                        (moved@[j].move_behaviour, moved@[j].data.position),
                    ),
                self.global_state_manager.wf(),
                self.global_state_manager.same_world(start),
                self.global_state_manager.keeps_history(start),
                start.world().len() == n,
                self.incoming_packets@ == old(self).incoming_packets@,
        {
            let Node { behaviour, move_behaviour, data } = node;
            let ghost before_move = self.global_state_manager;
            let (next_move, position) = move_behaviour.tick(&data, &mut self.global_state_manager);
            proof {
                GlobalStateManager::<PM, NB::P, E>::lemma_same_world_equivalence(before_move, start, start);
                GlobalStateManager::<PM, NB::P, E>::lemma_keeps_history(
                    start,
                    before_move,
                    self.global_state_manager,
                );
            }
            moved.push(
                Node {
                    behaviour,
                    move_behaviour: next_move,
                    data: NodeData {
                        position,
                        id: data.id,
                        propagation_params: data.propagation_params,
                    },
                },
            );
        }
        let mut incoming: Vec<Vec<NB::P>> = Vec::new();
        std::mem::swap(&mut incoming, &mut self.incoming_packets);
        assert(incoming@ == old(self).incoming_packets@);
        let ghost received = incoming@.map_values(|v: Vec<NB::P>| v@);
        assert(received =~= old(self).incoming());
        let ghost moved_seq = moved@;
        let ghost moved_gsm = self.global_state_manager;
        let ghost mut states: Seq<GlobalStateManager<PM, NB::P, E>> = seq![moved_gsm];
        let ghost mut counted: Seq<GlobalStateManager<PM, NB::P, E>> = Seq::empty();
        let mut ticked: Vec<Node<NB, MB, PM::P>> = Vec::with_capacity(n);
        let mut new_data: Vec<NodeData<PM::P>> = Vec::with_capacity(n);
        for node in it: moved.into_iter()
            invariant
                it.seq() == moved_seq,
                behaviour_steps(moved_seq, node_data_of(moved_seq), received, states, counted, it.index@),
                states[0] == moved_gsm,
                states.last() == self.global_state_manager,
                n == moved_seq.len(),
                n == olds.len(),
                n == incoming@.len(),
                received == incoming@.map_values(|v: Vec<NB::P>| v@),
                ticked@.len() == it.index,
                new_data@.len() == it.index,
                forall|j: int|
                    0 <= j < moved_seq.len() ==> (#[trigger] moved_seq[j]).data.id == j
                        && moved_seq[j].data.propagation_params == olds[j].data.propagation_params,
                forall|j: int|
                    0 <= j < moved_seq.len() ==> (#[trigger] moved_seq[j]).behaviour == olds[j].behaviour
                        && olds[j].move_behaviour.spec_ticks_to(
                        olds[j].data,
                        start.clock(),
                        start.world(),
                        (moved_seq[j].move_behaviour, moved_seq[j].data.position),
                    ),
                forall|j: int|
                    0 <= j < ticked@.len() ==> (#[trigger] ticked@[j]).data == new_data@[j]
                        && new_data@[j].id == j && new_data@[j].propagation_params
                        == olds[j].data.propagation_params,
                forall|j: int|
                    0 <= j < ticked@.len() ==> (#[trigger] ticked@[j]).data == moved_seq[j].data
                        && ticked@[j].move_behaviour == moved_seq[j].move_behaviour
                        && moved_seq[j].behaviour.spec_ticks_to(
                        moved_seq[j].data,
                        start.clock(),
                        start.world(),
                        received[j],
                        ticked@[j].behaviour,
                    ),
                self.global_state_manager.wf(),
                self.global_state_manager.node_data@ == start.node_data@,
                start.node_data@.len() == n,
                self.global_state_manager.propagation_model == start.propagation_model,
                self.global_state_manager.clock == start.clock,
                self.global_state_manager.stats.user().len() == keys,
                self.global_state_manager.unrecorded_packets() == start.unrecorded_packets(),
                self.global_state_manager.keeps_history(start),
                self.global_state_manager.stats.internal(InternalStatKey::PacketReceives)
                    == received_total(received.subrange(0, it.index as int)),
        {
            let i = ticked.len();
            let ghost k: int = it.index@;
            assert(received.subrange(0, k + 1).drop_last() =~= received.subrange(0, k as int));
            assert(received[k as int] == incoming@[k as int]@);
            let ghost before_count = self.global_state_manager;
            self.global_state_manager.count_receives(incoming[i].len());
            let Node { behaviour, move_behaviour, data } = node;
            let ghost before_tick = self.global_state_manager;
            proof {
                GlobalStateManager::<PM, NB::P, E>::lemma_keeps_history(before_tick, before_tick, before_tick);
                GlobalStateManager::<PM, NB::P, E>::lemma_keeps_history(start, before_count, before_tick);
            }
            let next_behaviour = behaviour.tick(&data, &mut self.global_state_manager, &incoming[i]);
            proof {
                assert(states.last() == before_count);
                assert(received[k].len() == incoming@[k]@.len());
                assert(node_data_of(moved_seq)[k] == moved_seq[k].data);
                assert(states.push(self.global_state_manager)[k] == before_count);
                lemma_behaviour_steps_push(
                    moved_seq,
                    node_data_of(moved_seq),
                    received,
                    states,
                    counted,
                    k,
                    self.global_state_manager,
                    before_tick,
                );
                counted = counted.push(before_tick);
                states = states.push(self.global_state_manager);
                GlobalStateManager::<PM, NB::P, E>::lemma_keeps_history(
                    start,
                    before_tick,
                    self.global_state_manager,
                );
            }
            new_data.push(data);
            ticked.push(Node { behaviour: next_behaviour, move_behaviour, data });
        }
        assert(received.subrange(0, n as int) =~= received);
        assert forall|j: int| 0 <= j < new_data@.len() implies (#[trigger] new_data@[j]).id == j by {
            assert(ticked@[j].data == new_data@[j]);
        }
        proof {
            GlobalStateManager::<PM, NB::P, E>::lemma_same_world_equivalence(moved_gsm, start, start);
            assert forall|j: int| 0 <= j < olds.len() implies #[trigger] behaviour_step(
                olds,
                node_data_of(ticked@),
                old(self).incoming(),
                states,
                counted,
                j,
            ) by {
                assert(behaviour_step(moved_seq, node_data_of(moved_seq), received, states, counted, j));
                assert(moved_seq[j].behaviour == olds[j].behaviour);
                assert(ticked@[j].data == moved_seq[j].data);
            }
            assert(behaviour_chain(olds, node_data_of(ticked@), old(self).incoming(), states, counted));
        }
        let ghost last = self.global_state_manager;
        let (outbox, stats) = self.global_state_manager.end_tick(new_data);
        self.incoming_packets = outbox;
        self.nodes = ticked;
        proof {
            assert(states.last() == last);
        }
        stats
    }

    /// Node IDs are positions in the node list, and propagation parameters are those of `other`.
    pub open spec fn keeps_nodes(&self, other: Self) -> bool {
        &&& self.node_seq().len() == other.node_seq().len()
        &&& forall|i: int|
            0 <= i < self.node_seq().len() ==> (#[trigger] self.node_seq()[i]).data.id == i
                && self.node_seq()[i].data.propagation_params == other.node_seq()[i].data.propagation_params
    }

    /// Perform `num_ticks` ticks of the simulation, returning the stats generated during each.
    #[verifier::spinoff_prover]
    pub fn n_ticks(&mut self, num_ticks: usize) -> (stats: Vec<TimestepStats<E>>)
        requires
            old(self).wf(),
            old(self).global().clock().upcoming_time() + num_ticks * old(self).global().clock().delta()
                <= u64::MAX,
            old(self).global().clock().upcoming_tick() + num_ticks <= usize::MAX,
        ensures
            final(self).wf(),
            final(self).keeps_nodes(*old(self)),
            stats@.len() == num_ticks,
            final(self).global().model() == old(self).global().model(),
            final(self).global().clock().delta() == old(self).global().clock().delta(),
            final(self).global().clock().upcoming_time() == old(self).global().clock().upcoming_time()
                + num_ticks * old(self).global().clock().delta(),
            final(self).global().clock().upcoming_tick() == old(self).global().clock().upcoming_tick()
                + num_ticks,
            num_ticks > 0 ==> final(self).global().clock().time() == old(
                self,
            ).global().clock().upcoming_time() + (num_ticks - 1) * old(self).global().clock().delta()
                && final(self).global().clock().tick_number() == old(self).global().clock().upcoming_tick()
                + num_ticks - 1,
            forall|k: int| 0 <= k < stats@.len() ==> #[trigger] per_tick_stats(stats@[k], old(self).global().stats().user().len()),
            exists|history: Seq<(Seq<Node<NB, MB, PM::P>>, SimClock, Seq<Seq<NB::P>>)>|
                #[trigger] tick_history(history) && history.len() == num_ticks + 1 && history[0] == (
                old(self).node_seq(),
                old(self).global().clock(),
                old(self).incoming(),
            ) && history.last() == (
                final(self).node_seq(),
                final(self).global().clock(),
                final(self).incoming(),
            ) && forall|k: int|
                0 <= k < stats@.len() ==> (#[trigger] stats@[k]).internal(
                    InternalStatKey::PacketReceives,
                ) == received_total(history[k].2),
    {
        let ghost delta = self.global_state_manager.clock.delta();
        let ghost first_time = self.global_state_manager.clock.upcoming_time();
        let ghost first_tick = self.global_state_manager.clock.upcoming_tick();
        let ghost mut history: Seq<(Seq<Node<NB, MB, PM::P>>, SimClock, Seq<Seq<NB::P>>)> = seq![
            (self.node_seq(), self.global().clock(), self.incoming()),
        ];
        let mut stats: Vec<TimestepStats<E>> = Vec::with_capacity(num_ticks);
        for i in 0..num_ticks
            invariant
                self.wf(),
                self.keeps_nodes(*old(self)),
                stats@.len() == i,
                self.global().model() == old(self).global().model(),
                self.global().clock().delta() == delta,
                self.global().clock().upcoming_time() == first_time + i * delta,
                self.global().clock().upcoming_tick() == first_tick + i,
                first_time + num_ticks * delta <= u64::MAX,
                first_tick + num_ticks <= usize::MAX,
                i > 0 ==> self.global().clock().time() == first_time + (i - 1) * delta
                    && self.global().clock().tick_number() == first_tick + i - 1,
                self.global().stats().user().len() == old(self).global().stats().user().len(),
                forall|k: int| 0 <= k < stats@.len() ==> #[trigger] per_tick_stats(stats@[k], old(self).global().stats().user().len()),
                tick_history(history),
                history.len() == i + 1,
                history[0] == (old(self).node_seq(), old(self).global().clock(), old(self).incoming()),
                history.last() == (self.node_seq(), self.global().clock(), self.incoming()),
                forall|k: int|
                    0 <= k < stats@.len() ==> (#[trigger] stats@[k]).internal(
                        InternalStatKey::PacketReceives,
                    ) == received_total(history[k].2),
        {
            proof {
                self.global_state_manager.clock.lemma_wf();
                assert(first_time + i * delta + delta <= first_time + num_ticks * delta) by (nonlinear_arith)
                    requires
                        i < num_ticks,
                        delta >= 0,
                ;
                self.global_state_manager.clock.lemma_advanced();
            }
            let ghost before = *self;
            stats.push(self.tick());
            proof {
                Self::lemma_history_step(history, before, *self);
                history = history.push((self.node_seq(), self.global().clock(), self.incoming()));
                assert(history[stats@.len() - 1] == (
                    before.node_seq(),
                    before.global().clock(),
                    before.incoming(),
                ));
            }
            assert((i + 1) * delta == i * delta + delta) by (nonlinear_arith);
        }
        stats
    }

    /// Tick the simulation for `time` units of simulation time: tick until the current time is
    /// the closest the clock gets to `time` units after the current time at the call. That is
    /// `time / delta` (rounded to the nearest) steps of the clock; a simulation that has not
    /// ticked yet first does its tick at the current time. Returns the stats of every tick done.
    #[verifier::spinoff_prover]
    pub fn tick_time(&mut self, time: u64) -> (stats: Vec<TimestepStats<E>>)
        requires
            old(self).wf(),
            old(self).global().clock().delta() > 0,
            not_half_step(time as int, old(self).global().clock().delta()),
            old(self).global().clock().time() + time + 2 * old(self).global().clock().delta() <= u64::MAX,
            old(self).global().clock().tick_number() + (time as int) / old(self).global().clock().delta() + 3
                <= usize::MAX,
        ensures
            final(self).wf(),
            final(self).keeps_nodes(*old(self)),
            final(self).global().model() == old(self).global().model(),
            final(self).global().clock().delta() == old(self).global().clock().delta(),
            final(self).global().clock().time() == old(self).global().clock().time() + nearest_steps(
                time as int,
                old(self).global().clock().delta(),
            ) * old(self).global().clock().delta(),
            final(self).global().clock().tick_number() == old(self).global().clock().tick_number()
                + nearest_steps(time as int, old(self).global().clock().delta()),
            stats@.len() == nearest_steps(time as int, old(self).global().clock().delta()) + if old(
                self,
            ).global().clock().is_fresh() && nearest_steps(
                time as int,
                old(self).global().clock().delta(),
            ) > 0 {
                1int
            } else {
                0int
            },
            forall|k: int| 0 <= k < stats@.len() ==> #[trigger] per_tick_stats(stats@[k], old(self).global().stats().user().len()),
            exists|history: Seq<(Seq<Node<NB, MB, PM::P>>, SimClock, Seq<Seq<NB::P>>)>|
                #[trigger] tick_history(history) && history.len() == stats@.len() + 1 && history[0] == (
                old(self).node_seq(),
                old(self).global().clock(),
                old(self).incoming(),
            ) && history.last() == (
                final(self).node_seq(),
                final(self).global().clock(),
                final(self).incoming(),
            ) && forall|k: int|
                0 <= k < stats@.len() ==> (#[trigger] stats@[k]).internal(
                    InternalStatKey::PacketReceives,
                ) == received_total(history[k].2),
    {
        let ghost mut history: Seq<(Seq<Node<NB, MB, PM::P>>, SimClock, Seq<Seq<NB::P>>)> = seq![
            (self.node_seq(), self.global().clock(), self.incoming()),
        ];
        let ghost delta = self.global_state_manager.clock.delta();
        let ghost start_time = self.global_state_manager.clock.time();
        let ghost start_tick = self.global_state_manager.clock.tick_number();
        let ghost was_fresh = self.global_state_manager.clock.is_fresh();
        let ghost target = nearest_steps(time as int, delta);
        proof {
            self.global_state_manager.clock.lemma_wf();
            lemma_is_time_exactly_at_nearest(start_time, time as int, delta, 0);
            vstd::arithmetic::div_mod::lemma_fundamental_div_mod(time as int, delta);
        }
        let end_time = self.global_state_manager.current_time() + time;
        let mut stats: Vec<TimestepStats<E>> = Vec::new();
        let ghost mut moved: int = 0;
        while !self.global_state_manager.is_time(end_time)
            invariant
                self.wf(),
                self.keeps_nodes(*old(self)),
                self.global().model() == old(self).global().model(),
                self.global().clock().delta() == delta,
                delta > 0,
                end_time == start_time + time,
                not_half_step(time as int, delta),
                start_time + time + 2 * delta <= u64::MAX,
                start_tick + (time as int) / delta + 3 <= usize::MAX,
                target == nearest_steps(time as int, delta),
                target >= 0,
                target * delta <= time + delta,
                target <= (time as int) / delta + 1,
                0 <= moved <= target,
                self.global().clock().time() == start_time + moved * delta,
                self.global().clock().tick_number() == start_tick + moved,
                self.global().clock().is_fresh() ==> was_fresh && moved == 0,
                was_fresh && !self.global().clock().is_fresh() ==> target > 0,
                stats@.len() == moved + if was_fresh && !self.global().clock().is_fresh() {
                    1int
                } else {
                    0int
                },
                self.global().stats().user().len() == old(self).global().stats().user().len(),
                forall|k: int| 0 <= k < stats@.len() ==> #[trigger] per_tick_stats(stats@[k], old(self).global().stats().user().len()),
                tick_history(history),
                history.len() == stats@.len() + 1,
                history[0] == (old(self).node_seq(), old(self).global().clock(), old(self).incoming()),
                history.last() == (self.node_seq(), self.global().clock(), self.incoming()),
                forall|k: int|
                    0 <= k < stats@.len() ==> (#[trigger] stats@[k]).internal(
                        InternalStatKey::PacketReceives,
                    ) == received_total(history[k].2),
            decreases (target - moved) * 2 + if self.global().clock().is_fresh() {
                1int
            } else {
                0int
            },
        {
            proof {
                self.global_state_manager.clock.lemma_wf();
                lemma_is_time_exactly_at_nearest(start_time, time as int, delta, moved);
                assert(moved * delta + delta <= target * delta) by (nonlinear_arith)
                    requires
                        moved < target,
                        delta > 0,
                ;
                self.global_state_manager.clock.lemma_advanced();
            }
            let fresh_before = Ghost(self.global_state_manager.clock.is_fresh());
            let ghost before = *self;
            stats.push(self.tick());
            proof {
                Self::lemma_history_step(history, before, *self);
                history = history.push((self.node_seq(), self.global().clock(), self.incoming()));
                assert(history[stats@.len() - 1] == (
                    before.node_seq(),
                    before.global().clock(),
                    before.incoming(),
                ));
            }
            proof {
                if !fresh_before@ {
                    assert((moved + 1) * delta == moved * delta + delta) by (nonlinear_arith);
                    moved = moved + 1;
                }
            }
        }
        proof {
            lemma_is_time_exactly_at_nearest(start_time, time as int, delta, moved);
        }
        stats
    }

    /// Borrow the nodes, in ID order, with their behaviours and data.
    pub fn nodes(&self) -> (v: &Vec<Node<NB, MB, PM::P>>)
        ensures
            v@ == self.node_seq(),
    {
        &self.nodes
    }

    /// Borrow the packets each node receives on the next tick, by node ID.
    pub fn incoming_packets(&self) -> (v: &Vec<Vec<NB::P>>)
        ensures
            v@.map_values(|p: Vec<NB::P>| p@) == self.incoming(),
    {
        &self.incoming_packets
    }
}

} // verus!
