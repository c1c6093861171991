//! Flood routing: every node relays each packet it has not seen before, while hops remain.
use crate::behaviours::NodeBehaviour;
use crate::builtin::node_behaviours::monotonic::PacketGenerator;
use crate::clock::SimClock;
use crate::managers::{delivers, link_events, transmit_count, valid_recipients, GlobalStateManager};
use crate::stats::InternalEvent;
use crate::node::{NodeData, NodeID, Position};
use crate::packets::{copy_bytes, GloballySequencedPacket, Packet};
use crate::propagation_models::{PropagationModel, PropagationParams};
use std::collections::HashSet;
use std::marker::PhantomData;
use vstd::prelude::*;

verus! {

broadcast use vstd::std_specs::hash::group_hash_axioms;

/// A packet that can be flood-routed: it is sequenced globally and carries a hop count.
pub trait FloodPacket: GloballySequencedPacket {
    spec fn spec_hop_count(&self) -> u8;

    /// Remaining number of times the packet may be relayed.
    fn get_hop_count(&self) -> (h: u8)
        ensures
            h == self.spec_hop_count(),
    ;

    /// Sets the remaining hop count, keeping everything else.
    fn set_hop_count(&mut self, count: u8)
        ensures
            final(self).spec_hop_count() == count,
            final(self).spec_seq() == old(self).spec_seq(),
            final(self).spec_content() == old(self).spec_content(),
            final(self).spec_eager_targets() == old(self).spec_eager_targets(),
    ;

    /// A packet originated by the node with data `data`, with local sequence number `seq`; its
    /// network-wide sequence number is [global_seq] of the two.
    fn new<PP>(data: &NodeData<PP>, hops: u8, seq: u32, content: Vec<u8>) -> (p: Self)
        ensures
            p.spec_hop_count() == hops,
            p.spec_content() == content@,
            p.spec_seq() == global_seq(data.id, seq),
    ;

    /// A clone keeps the packet's sequence number, hop count, content and eager targets.
    proof fn lemma_clone_keeps(original: Self, copy: Self)
        requires
            cloned(original, copy),
        ensures
            copy.spec_seq() == original.spec_seq(),
            copy.spec_hop_count() == original.spec_hop_count(),
            copy.spec_content() == original.spec_content(),
            copy.spec_eager_targets() == original.spec_eager_targets(),
    ;
}

/// A flood packet which identifies itself by its originator and the originator's sequence
/// number, and may be received by every node.
pub struct SequencedFloodPacket {
    hops: u8,
    seq: u32,
    src: NodeID,
    content: Vec<u8>,
}

impl SequencedFloodPacket {
    pub closed spec fn spec_src(&self) -> NodeID {
        self.src
    }

    pub closed spec fn spec_local_seq(&self) -> u32 {
        self.seq
    }

    /// The node that originated this packet.
    pub fn src(&self) -> (s: NodeID)
        ensures
            s == self.spec_src(),
    {
        self.src
    }

    /// The originator's sequence number of this packet.
    pub fn local_seq(&self) -> (s: u32)
        ensures
            s == self.spec_local_seq(),
    {
        self.seq
    }
}

/// The network-wide sequence number of packet `seq` of node `src`: the node's ID (modulo
/// `2^32`) in the high half, the node's sequence number in the low half.
pub open spec fn global_seq(src: NodeID, seq: u32) -> u64 {
    ((src as int % 0x1_0000_0000) * 0x1_0000_0000 + seq) as u64
}

/// Packets of nodes whose IDs fit in 32 bits have the same network-wide sequence number only if
/// they come from the same node with the same sequence number.
pub proof fn lemma_global_seq_unique(src_a: NodeID, seq_a: u32, src_b: NodeID, seq_b: u32)
    requires
        src_a < 0x1_0000_0000,
        src_b < 0x1_0000_0000,
        global_seq(src_a, seq_a) == global_seq(src_b, seq_b),
    ensures
        src_a == src_b,
        seq_a == seq_b,
{
    assert(src_a as int * 0x1_0000_0000 + seq_a == src_b as int * 0x1_0000_0000 + seq_b);
    if src_a < src_b {
        assert(src_a as int * 0x1_0000_0000 + 0x1_0000_0000 <= src_b as int * 0x1_0000_0000);
    }
    if src_b < src_a {
        assert(src_b as int * 0x1_0000_0000 + 0x1_0000_0000 <= src_a as int * 0x1_0000_0000);
    }
}

impl Clone for SequencedFloodPacket {
    fn clone(&self) -> (r: Self)
        ensures
            r.spec_hop_count() == self.spec_hop_count(),
            r.spec_local_seq() == self.spec_local_seq(),
            r.spec_src() == self.spec_src(),
            r.spec_content() == self.spec_content(),
    {
        SequencedFloodPacket {
            hops: self.hops,
            seq: self.seq,
            src: self.src,
            content: copy_bytes(&self.content),
        }
    }
}

impl Packet for SequencedFloodPacket {
    closed spec fn spec_content(&self) -> Seq<u8> {
        self.content@
    }

    open spec fn spec_eager_targets(&self) -> Option<Seq<NodeID>> {
        None
    }

    open spec fn spec_targets(&self, id: NodeID, position: Position) -> bool {
        true
    }

    fn content(self) -> (c: Vec<u8>) {
        self.content
    }

    fn content_ref(&self) -> (c: &Vec<u8>) {
        &self.content
    }

    fn eager_targets(&self) -> (t: Option<Vec<NodeID>>) {
        None
    }

    fn targets<PP>(&self, _target: &NodeData<PP>) -> (b: bool) {
        true
    }
}

impl GloballySequencedPacket for SequencedFloodPacket {
    closed spec fn spec_seq(&self) -> u64 {
        global_seq(self.src, self.seq)
    }

    fn seq(&self) -> (s: u64) {
        let high: u64 = (self.src as u64) % 0x1_0000_0000;
        high * 0x1_0000_0000 + self.seq as u64
    }
}

impl FloodPacket for SequencedFloodPacket {
    closed spec fn spec_hop_count(&self) -> u8 {
        self.hops
    }

    fn get_hop_count(&self) -> (h: u8) {
        self.hops
    }

    fn set_hop_count(&mut self, count: u8) {
        self.hops = count;
    }

    fn new<PP>(data: &NodeData<PP>, hops: u8, seq: u32, content: Vec<u8>) -> (p: Self)
        ensures
            p.spec_src() == data.id,
            p.spec_local_seq() == seq,
    {
        SequencedFloodPacket { hops, seq, src: data.id, content }
    }

    proof fn lemma_clone_keeps(original: Self, copy: Self) {
    }
}

/// Flood routing: every packet received with hops left is relayed once, with one hop less; a
/// packet whose sequence number the node has seen before is not relayed again.
pub struct Flood<PT> {
    seen_packets: HashSet<u64>,
    /// Sequence number of the next packet generated.
    seq: u32,
    /// Hop count of new packets.
    hop_count: u8,
    phantom: PhantomData<PT>,
}

impl<PT: FloodPacket> Flood<PT> {
    /// Sequence numbers of the packets this node has seen.
    pub closed spec fn seen(&self) -> Set<u64> {
        self.seen_packets@
    }

    pub closed spec fn spec_seq(&self) -> u32 {
        self.seq
    }

    pub closed spec fn spec_hop_count(&self) -> u8 {
        self.hop_count
    }

    /// A flood behaviour that has seen nothing, whose packets start with `hops` hops.
    pub fn new(hops: u8) -> (f: Self)
        ensures
            f.seen() == Set::<u64>::empty(),
            f.spec_seq() == 0,
            f.spec_hop_count() == hops,
    {
        Flood { seen_packets: HashSet::new(), seq: 0, hop_count: hops, phantom: PhantomData }
    }

    /// Originates a packet with the configured hop count and the next sequence number (which
    /// wraps around after `u32::MAX`).
    pub fn gen_packet<PP>(&mut self, data: &NodeData<PP>, content: Vec<u8>) -> (p: PT)
        ensures
            p.spec_hop_count() == old(self).spec_hop_count(),
            p.spec_content() == content@,
            p.spec_seq() == global_seq(data.id, old(self).spec_seq()),
            final(self).spec_seq() == old(self).spec_seq().wrapping_add(1),
            final(self).seen() == old(self).seen(),
            final(self).spec_hop_count() == old(self).spec_hop_count(),
    {
        let packet = PT::new(data, self.hop_count, self.seq, content);
        self.seq = self.seq.wrapping_add(1);
        packet
    }

    /// Number of packets originated so far (modulo `2^32`).
    pub fn seq(&self) -> (s: u32)
        ensures
            s == self.spec_seq(),
    {
        self.seq
    }

    /// Whether a packet would be relayed: it has hops left and its sequence number is new.
    pub fn should_relay(&self, packet: &PT) -> (b: bool)
        ensures
            b == (!self.seen().contains(packet.spec_seq()) && packet.spec_hop_count() > 0),
    {
        !self.seen_packets.contains(&packet.seq()) && packet.get_hop_count() > 0
    }
}

/// The sequence numbers of the packets among `packets` that have hops left.
pub open spec fn relayable_seqs<PT: FloodPacket>(packets: Seq<PT>) -> Set<u64> {
    Set::new(
        |s: u64| exists|i: int| 0 <= i < packets.len() && #[trigger] packets[i].spec_seq() == s
            && packets[i].spec_hop_count() > 0,
    )
}

/// Every eager target of `packet`, if it has any, is one of `nodes` nodes.
pub open spec fn names_existing<P: Packet>(packet: P, nodes: int) -> bool {
    packet.spec_eager_targets() matches Some(targets) ==> forall|j: int|
        0 <= j < targets.len() ==> #[trigger] targets[j] < nodes
}

/// A flood behaviour which has seen `seen` relays `packet` after the packets `earlier`: the
/// packet has hops left and neither `seen` nor an earlier relayable packet holds its sequence
/// number.
pub open spec fn relays<PT: FloodPacket>(seen: Set<u64>, earlier: Seq<PT>, packet: PT) -> bool {
    packet.spec_hop_count() > 0 && !seen.union(relayable_seqs(earlier)).contains(packet.spec_seq())
}

/// Number of packets among `packets`, taken in order, that a flood behaviour which has seen
/// `seen` relays in a simulation of `nodes` nodes: those it relays (see [relays]) that name only
/// existing nodes.
pub open spec fn fresh_relay_count<PT: FloodPacket>(seen: Set<u64>, packets: Seq<PT>, nodes: int) -> nat
    decreases packets.len(),
{
    if packets.len() == 0 {
        0
    } else {
        let earlier = packets.drop_last();
        fresh_relay_count(seen, earlier, nodes) + if relays(seen, earlier, packets.last())
            && names_existing(packets.last(), nodes) {
            1nat
        } else {
            0nat
        }
    }
}

/// `packet` is a relay of one of `incoming`: a packet with hops left, with the same sequence
/// number and one hop less.
pub open spec fn relay_of<PT: FloodPacket>(packet: PT, incoming: Seq<PT>) -> bool {
    exists|k: int|
        0 <= k < incoming.len() && #[trigger] incoming[k].spec_hop_count() > 0
            && packet.spec_seq() == incoming[k].spec_seq() && packet.spec_hop_count()
            == incoming[k].spec_hop_count() - 1
}

/// The packet lists `now` hold those of `start` and, after them, only relays of `incoming`.
pub open spec fn only_relays_added<PT: FloodPacket>(
    start: Seq<Seq<PT>>,
    now: Seq<Seq<PT>>,
    incoming: Seq<PT>,
) -> bool {
    &&& now.len() == start.len()
    &&& forall|i: int, j: int|
        0 <= i < start.len() && start[i].len() <= j < now[i].len() ==> relay_of(
            #[trigger] now[i][j],
            incoming,
        )
}

/// Delivering a relay keeps the lists holding only relays after the starting packets.
proof fn lemma_relay_delivery<PT: FloodPacket>(
    start: Seq<Seq<PT>>,
    before: Seq<Seq<PT>>,
    after: Seq<Seq<PT>>,
    recipients: Seq<NodeID>,
    copy: PT,
    incoming: Seq<PT>,
)
    requires
        only_relays_added(start, before, incoming),
        forall|i: int| 0 <= i < start.len() ==> start[i].len() <= #[trigger] before[i].len(),
        delivers(before, after, recipients, copy),
        relay_of(copy, incoming),
    ensures
        only_relays_added(start, after, incoming),
{
    assert forall|i: int, j: int|
        0 <= i < start.len() && start[i].len() <= j < after[i].len() implies relay_of(
        #[trigger] after[i][j],
        incoming,
    ) by {
        if j < before[i].len() {
            assert(after[i][j] == after[i].subrange(0, before[i].len() as int)[j]);
            assert(before[i][j] == after[i][j]);
        } else {
            assert(cloned::<PT>(copy, after[i][j]));
            PT::lemma_clone_keeps(copy, after[i][j]);
            let k = choose|k: int|
                0 <= k < incoming.len() && #[trigger] incoming[k].spec_hop_count() > 0
                    && copy.spec_seq() == incoming[k].spec_seq() && copy.spec_hop_count()
                    == incoming[k].spec_hop_count() - 1;
            assert(incoming[k].spec_hop_count() > 0);
        }
    }
}

/// `copy` is a relay of `packet`: the same packet with one hop less.
pub open spec fn relay_copy<PT: FloodPacket>(packet: PT, copy: PT) -> bool {
    &&& copy.spec_seq() == packet.spec_seq()
    &&& copy.spec_hop_count() == packet.spec_hop_count() - 1
    &&& copy.spec_content() == packet.spec_content()
    &&& copy.spec_eager_targets() == packet.spec_eager_targets()
}

/// What a flood behaviour which has seen `seen` does with packet `k` of `incoming`, taking the
/// global state from `before` to `after`: a packet it relays (see [relays]) that names only
/// existing nodes is transmitted once, as a relay copy, by the node with data `data`; any other
/// packet leaves the global state as it is.
pub open spec fn relay_step<PM: PropagationModel, PT: FloodPacket, E>(
    seen: Set<u64>,
    data: NodeData<PM::P>,
    incoming: Seq<PT>,
    k: int,
    before: GlobalStateManager<PM, PT, E>,
    after: GlobalStateManager<PM, PT, E>,
) -> bool {
    if relays(seen, incoming.subrange(0, k), incoming[k]) && names_existing(
        incoming[k],
        before.world().len() as int,
    ) {
        exists|copy: PT| #[trigger] relay_copy(incoming[k], copy) && before.transmitted(after, data, copy)
    } else {
        after == before
    }
}

/// `states` are the global states a flood behaviour which has seen `seen` passes through while it
/// handles `incoming` in order, one step (see [relay_step]) per packet.
pub open spec fn relay_states<PM: PropagationModel, PT: FloodPacket, E>(
    seen: Set<u64>,
    data: NodeData<PM::P>,
    incoming: Seq<PT>,
    states: Seq<GlobalStateManager<PM, PT, E>>,
) -> bool {
    &&& states.len() == incoming.len() + 1
    &&& forall|k: int|
        0 <= k < incoming.len() ==> #[trigger] relay_step(seen, data, incoming, k, states[k], states[k + 1])
}

impl<PM: PropagationModel, E, PT: FloodPacket> NodeBehaviour<PM, E> for Flood<PT> {
    type P = PT;

    /// The seen set takes in the sequence numbers of the incoming packets with hops left.
    open spec fn spec_ticks_to(
        &self,
        data: NodeData<PM::P>,
        clock: SimClock,
        world: Seq<NodeData<PM::P>>,
        incoming: Seq<PT>,
        next: Self,
    ) -> bool {
        &&& next.seen() == self.seen().union(relayable_seqs(incoming))
        &&& next.spec_seq() == self.spec_seq()
        &&& next.spec_hop_count() == self.spec_hop_count()
    }

    /// The global state passes through one relay step per incoming packet (see [relay_states]).
    open spec fn spec_transition(
        &self,
        data: NodeData<PM::P>,
        incoming: Seq<PT>,
        before: GlobalStateManager<PM, PT, E>,
        after: GlobalStateManager<PM, PT, E>,
    ) -> bool {
        exists|states: Seq<GlobalStateManager<PM, PT, E>>|
            #[trigger] relay_states(self.seen(), data, incoming, states) && states[0] == before
                && states.last() == after
    }

    /// Relays every incoming packet that should be relayed (see [Flood::should_relay]), in order,
    /// with one hop less, marking its sequence number as seen; a relayed packet that names a node
    /// that does not exist is marked but not sent.
    #[verifier::spinoff_prover]
    fn tick(
        self,
        node_data: &NodeData<PM::P>,
        global_state_manager: &mut GlobalStateManager<PM, Self::P, E>,
        incoming_packets: &Vec<Self::P>,
    ) -> (next: Self)
        ensures
            transmit_count(final(global_state_manager).stats().events_seq()) == transmit_count(
                old(global_state_manager).stats().events_seq(),
            ) + fresh_relay_count(
                self.seen(),
                incoming_packets@,
                old(global_state_manager).world().len() as int,
            ),
            only_relays_added(
                old(global_state_manager).outbox(),
                final(global_state_manager).outbox(),
                incoming_packets@,
            ),
    {
        let mut flood = self;
        let ghost start = *global_state_manager;
        let ghost initial = flood.seen();
        proof {
            GlobalStateManager::<PM, PT, E>::lemma_same_world_equivalence(start, start, start);
            GlobalStateManager::<PM, PT, E>::lemma_keeps_history(start, start, start);
            assert(incoming_packets@.subrange(0, 0) =~= Seq::<PT>::empty());
            assert(relayable_seqs(Seq::<PT>::empty()) =~= Set::<u64>::empty());
            assert(initial.union(Set::<u64>::empty()) =~= initial);
        }
        let ghost mut states: Seq<GlobalStateManager<PM, PT, E>> = seq![start];
        for i in 0..incoming_packets.len()
            invariant
                states.len() == i + 1,
                states[0] == start,
                states.last() == *global_state_manager,
                forall|k: int|
                    0 <= k < i ==> #[trigger] relay_step(
                        initial,
                        *node_data,
                        incoming_packets@,
                        k,
                        states[k],
                        states[k + 1],
                    ),
                global_state_manager.wf(),
                global_state_manager.same_world(start),
                start.world().len() == old(global_state_manager).world().len(),
                node_data.id < old(global_state_manager).world().len(),
                old(global_state_manager).same_world(start) && start.same_world(
                    *old(global_state_manager),
                ),
                flood.seen() == initial.union(relayable_seqs(incoming_packets@.subrange(0, i as int))),
                flood.spec_seq() == self.spec_seq(),
                flood.spec_hop_count() == self.spec_hop_count(),
                transmit_count(global_state_manager.stats().events_seq()) == transmit_count(
                    old(global_state_manager).stats().events_seq(),
                ) + fresh_relay_count(
                    initial,
                    incoming_packets@.subrange(0, i as int),
                    old(global_state_manager).world().len() as int,
                ),
                start == *old(global_state_manager),
                only_relays_added(start.outbox(), global_state_manager.outbox(), incoming_packets@),
                global_state_manager.keeps_history(start),
        {
            let packet = &incoming_packets[i];
            let ghost prefix = incoming_packets@.subrange(0, i as int);
            let ghost next_prefix = incoming_packets@.subrange(0, i + 1);
            let ghost before = *global_state_manager;
            assert(next_prefix.drop_last() =~= prefix);
            assert(next_prefix.last() == *packet);
            let ghost n = old(global_state_manager).world().len() as int;
            assert(fresh_relay_count(initial, next_prefix, n) == fresh_relay_count(initial, prefix, n)
                + if relays(initial, prefix, *packet) && names_existing(*packet, n) {
                1int
            } else {
                0int
            });
            proof {
                GlobalStateManager::<PM, PT, E>::lemma_same_world_equivalence(before, start, start);
            }
            assert(before.world().len() == n);
            let ghost mut relayed_copy: Option<PT> = None;
            let relayed = flood.should_relay(packet);
            assert(relayed == relays(initial, prefix, *packet));
            if relayed {
                let hops = packet.get_hop_count();
                let mut copy = packet.clone();
                proof {
                    PT::lemma_clone_keeps(*packet, copy);
                }
                copy.set_hop_count(hops - 1);
                flood.seen_packets.insert(packet.seq());
                assert(copy.spec_eager_targets() == packet.spec_eager_targets());
                assert(relay_of(copy, incoming_packets@)) by {
                    assert(incoming_packets@[i as int] == *packet);
                }
                assert(relay_copy(*packet, copy));
                if global_state_manager.eager_targets_exist(&copy) {
                    let ghost pre = *global_state_manager;
                    global_state_manager.transmit_packet(node_data, copy);
                    assert(pre.transmitted(*global_state_manager, *node_data, copy));
                    proof {
                        relayed_copy = Some(copy);
                    }
                    proof {
                        let rs = choose|rs: Seq<NodeID>|
                            {
                                &&& valid_recipients(pre.model(), pre.world(), *node_data, copy, rs)
                                &&& delivers(pre.outbox(), global_state_manager.outbox(), rs, copy)
                                &&& global_state_manager.stats().events_seq()
                                    == pre.stats().events_seq().push(
                                    InternalEvent::PacketTransmit(node_data.id),
                                ) + link_events(node_data.id, rs)
                            };
                        lemma_relay_delivery(
                            start.outbox(),
                            pre.outbox(),
                            global_state_manager.outbox(),
                            rs,
                            copy,
                            incoming_packets@,
                        );
                    }
                    assert(names_existing(*packet, n));
                } else {
                    assert(!names_existing(*packet, n));
                }
            }
            proof {
                GlobalStateManager::<PM, PT, E>::lemma_same_world_equivalence(
                    *global_state_manager,
                    before,
                    start,
                );
                GlobalStateManager::<PM, PT, E>::lemma_keeps_history(before, before, before);
                GlobalStateManager::<PM, PT, E>::lemma_keeps_history(
                    start,
                    before,
                    *global_state_manager,
                );
                assert(incoming_packets@.subrange(0, i as int) == prefix);
                assert(incoming_packets@[i as int] == *packet);
                if let Some(c) = relayed_copy {
                    assert(relay_copy(incoming_packets@[i as int], c));
                    assert(before.transmitted(*global_state_manager, *node_data, c));
                } else {
                    assert(*global_state_manager == before);
                }
                assert(relay_step(
                    initial,
                    *node_data,
                    incoming_packets@,
                    i as int,
                    before,
                    *global_state_manager,
                ));
                let previous = states;
                states = states.push(*global_state_manager);
                assert forall|k: int| 0 <= k < i + 1 implies #[trigger] relay_step(
                    initial,
                    *node_data,
                    incoming_packets@,
                    k,
                    states[k],
                    states[k + 1],
                ) by {
                    if k < i {
                        assert(states[k] == previous[k] && states[k + 1] == previous[k + 1]);
                    }
                }
                assert(flood.seen() =~= initial.union(relayable_seqs(next_prefix))) by {
                    assert forall|s: u64| #[trigger] relayable_seqs(next_prefix).contains(s) <==> (
                    relayable_seqs(prefix).contains(s) || (packet.spec_seq() == s
                        && packet.spec_hop_count() > 0)) by {
                        if relayable_seqs(next_prefix).contains(s) {
                            let w = choose|w: int|
                                0 <= w < next_prefix.len() && #[trigger] next_prefix[w].spec_seq() == s
                                    && next_prefix[w].spec_hop_count() > 0;
                            if w < i {
                                assert(prefix[w] == next_prefix[w]);
                            }
                        }
                        if relayable_seqs(prefix).contains(s) {
                            let w = choose|w: int|
                                0 <= w < prefix.len() && #[trigger] prefix[w].spec_seq() == s
                                    && prefix[w].spec_hop_count() > 0;
                            assert(next_prefix[w] == prefix[w]);
                        }
                        if packet.spec_seq() == s && packet.spec_hop_count() > 0 {
                            assert(next_prefix[i as int] == *packet);
                        }
                    }
                }
            }
        }
        assert(incoming_packets@.subrange(0, incoming_packets@.len() as int) =~= incoming_packets@);
        assert(relay_states(initial, *node_data, incoming_packets@, states));
        flood
    }
}

/// Generates the next packet of a contained [Flood] behaviour (see [Flood::gen_packet]).
#[derive(Clone, Copy)]
pub struct FloodGenerator;

impl<PP, PT: FloodPacket> PacketGenerator<Flood<PT>, PP> for FloodGenerator {
    type P = PT;

    open spec fn spec_generates(
        &self,
        contained: Flood<PT>,
        data: NodeData<PP>,
        content: Seq<u8>,
        packet: PT,
        contained_after: Flood<PT>,
    ) -> bool {
        &&& packet.spec_hop_count() == contained.spec_hop_count()
        &&& packet.spec_content() == content
        &&& packet.spec_seq() == global_seq(data.id, contained.spec_seq())
        &&& contained_after.spec_seq() == contained.spec_seq().wrapping_add(1)
        &&& contained_after.seen() == contained.seen()
        &&& contained_after.spec_hop_count() == contained.spec_hop_count()
    }

    fn generate(&self, contained: &mut Flood<PT>, node_data: &NodeData<PP>, content: Vec<u8>) -> (p:
        PT) {
        contained.gen_packet(node_data, content)
    }
}

/// A flood behaviour relays a sequence number at most once: once a tick has handed it a packet
/// with hops left, it never relays a packet with that sequence number again (its seen set only
/// grows, and [Flood::should_relay] is false for seen sequence numbers).
pub proof fn lemma_relayed_at_most_once<PT: FloodPacket>(
    before: Flood<PT>,
    after: Flood<PT>,
    incoming: Seq<PT>,
    i: int,
    later: PT,
)
    requires
        after.seen() == before.seen().union(relayable_seqs(incoming)),
        0 <= i < incoming.len(),
        incoming[i].spec_hop_count() > 0,
        later.spec_seq() == incoming[i].spec_seq(),
    ensures
        before.seen().subset_of(after.seen()),
        !(!after.seen().contains(later.spec_seq()) && later.spec_hop_count() > 0),
{
    assert(relayable_seqs(incoming).contains(incoming[i].spec_seq()));
}

} // verus!
