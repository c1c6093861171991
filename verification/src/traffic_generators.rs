//! Generators of background traffic: random packets transmitted from random nodes.
use crate::managers::{
    delivers, link_events, occurrences, transmit_count, valid_recipients, GlobalStateManager,
};
use crate::node::{NodeData, NodeID};
use crate::stats::InternalEvent;
use crate::builtin::packets::multicast::MulticastPacket;
use crate::builtin::packets::multicast_or_unicast::MulticastOrUnicast;
use crate::builtin::packets::unicast::UnicastPacket;
use crate::packets::Packet;
use crate::propagation_models::PropagationModel;
use crate::rng::{fill_random_bytes, random_usize_in};
use rand_xoshiro::Xoshiro256Plus;
use vstd::prelude::*;

verus! {

/// Number of random bytes each generated packet carries.
pub const GENERATED_PACKET_SIZE: usize = 32;

/// `after` is `before` with packets appended only: each appended packet carries
/// [`GENERATED_PACKET_SIZE`] bytes, and an appended unicast packet sits in the list of the node
/// it targets.
pub open spec fn only_generated_traffic_added(
    before: Seq<Seq<MulticastOrUnicast>>,
    after: Seq<Seq<MulticastOrUnicast>>,
) -> bool {
    &&& after.len() == before.len()
    &&& forall|i: int|
        0 <= i < before.len() ==> {
            &&& before[i].len() <= #[trigger] after[i].len()
            &&& after[i].subrange(0, before[i].len() as int) == before[i]
            &&& forall|j: int|
                before[i].len() <= j < after[i].len() ==> {
                    &&& (#[trigger] after[i][j]).spec_content().len() == GENERATED_PACKET_SIZE
                    &&& (after[i][j] matches MulticastOrUnicast::UnicastPacket(p) ==> p.target == i)
                }
        }
}

/// Appending to appended lists is appending.
proof fn lemma_generated_traffic_transitive(
    a: Seq<Seq<MulticastOrUnicast>>,
    b: Seq<Seq<MulticastOrUnicast>>,
    c: Seq<Seq<MulticastOrUnicast>>,
)
    requires
        only_generated_traffic_added(a, b),
        only_generated_traffic_added(b, c),
    ensures
        only_generated_traffic_added(a, c),
{
    assert forall|i: int| 0 <= i < a.len() implies {
        &&& a[i].len() <= #[trigger] c[i].len()
        &&& c[i].subrange(0, a[i].len() as int) == a[i]
        &&& forall|j: int|
            a[i].len() <= j < c[i].len() ==> {
                &&& (#[trigger] c[i][j]).spec_content().len() == GENERATED_PACKET_SIZE
                &&& (c[i][j] matches MulticastOrUnicast::UnicastPacket(p) ==> p.target == i)
            }
    } by {
        assert(c[i].subrange(0, a[i].len() as int) =~= c[i].subrange(0, b[i].len() as int).subrange(
            0,
            a[i].len() as int,
        ));
        assert forall|j: int| a[i].len() <= j < c[i].len() implies {
            &&& (#[trigger] c[i][j]).spec_content().len() == GENERATED_PACKET_SIZE
            &&& (c[i][j] matches MulticastOrUnicast::UnicastPacket(p) ==> p.target == i)
        } by {
            if j < b[i].len() {
                assert(c[i][j] == c[i].subrange(0, b[i].len() as int)[j]);
                assert(b[i][j] == c[i][j]);
            }
        }
    }
}

/// A node that occurs a positive number of times occurs at some position.
proof fn lemma_occurrences_positive(ids: Seq<NodeID>, i: int)
    requires
        occurrences(ids, i) > 0,
    ensures
        exists|k: int| 0 <= k < ids.len() && ids[k] == i,
    decreases ids.len(),
{
    if ids.last() == i {
        assert(ids[ids.len() - 1] == i);
    } else {
        lemma_occurrences_positive(ids.drop_last(), i);
        let k = choose|k: int| 0 <= k < ids.drop_last().len() && ids.drop_last()[k] == i;
        assert(ids[k] == i);
    }
}

/// One transmission of a generated packet appends only generated traffic.
proof fn lemma_transmission_adds_generated_traffic<PM: PropagationModel>(
    model: PM,
    world: Seq<crate::node::NodeData<PM::P>>,
    transmitter: crate::node::NodeData<PM::P>,
    packet: MulticastOrUnicast,
    rs: Seq<NodeID>,
    before: Seq<Seq<MulticastOrUnicast>>,
    after: Seq<Seq<MulticastOrUnicast>>,
)
    requires
        packet.spec_content().len() == GENERATED_PACKET_SIZE,
        valid_recipients(model, world, transmitter, packet, rs),
        delivers(before, after, rs, packet),
    ensures
        only_generated_traffic_added(before, after),
{
    assert forall|i: int| 0 <= i < before.len() implies {
        &&& before[i].len() <= #[trigger] after[i].len()
        &&& after[i].subrange(0, before[i].len() as int) == before[i]
        &&& forall|j: int|
            before[i].len() <= j < after[i].len() ==> {
                &&& (#[trigger] after[i][j]).spec_content().len() == GENERATED_PACKET_SIZE
                &&& (after[i][j] matches MulticastOrUnicast::UnicastPacket(p) ==> p.target == i)
            }
    } by {
        assert(after[i].len() == before[i].len() + occurrences(rs, i));
        assert forall|j: int| before[i].len() <= j < after[i].len() implies {
            &&& (#[trigger] after[i][j]).spec_content().len() == GENERATED_PACKET_SIZE
            &&& (after[i][j] matches MulticastOrUnicast::UnicastPacket(p) ==> p.target == i)
        } by {
            assert(cloned::<MulticastOrUnicast>(packet, after[i][j]));
            if let MulticastOrUnicast::UnicastPacket(u) = packet {
                let target = u.target;
                lemma_occurrences_positive(rs, i);
                let k = choose|k: int| 0 <= k < rs.len() && rs[k] == i;
                let targets = seq![target];
                assert(targets.drop_last() =~= Seq::<NodeID>::empty());
                assert(targets.last() == target);
                assert(crate::managers::eager_recipients(model, world, transmitter, targets.drop_last())
                    == Seq::<NodeID>::empty());
                assert(rs[k] == target);
                if let MulticastOrUnicast::UnicastPacket(p) = after[i][j] {
                    assert(after[i][j].spec_eager_targets() == packet.spec_eager_targets());
                    assert(seq![p.target][0] == p.target);
                    assert(seq![target][0] == target);
                }
            }
        }
    }
}

/// One transmission: the index of the sending node, the packet and the nodes it reached.
pub type Transmission = (NodeID, MulticastOrUnicast, Seq<NodeID>);

/// The events a run of transmissions records: for each, its transmit event followed by one link
/// event per node reached.
pub open spec fn transmission_events(record: Seq<Transmission>) -> Seq<InternalEvent>
    decreases record.len(),
{
    if record.len() == 0 {
        seq![]
    } else {
        let last = record.last();
        transmission_events(record.drop_last()).push(InternalEvent::PacketTransmit(last.0))
            + link_events(last.0, last.2)
    }
}

/// `record` is what the generator sends into a world of nodes `world` under `model`: first
/// `num_multicast` multicast packets, then `num_unicast` unicast packets to existing nodes, each
/// with [`GENERATED_PACKET_SIZE`] bytes, sent by an existing node and reaching exactly the nodes a
/// transmission of it reaches.
pub open spec fn generated_traffic<PM: PropagationModel>(
    model: PM,
    world: Seq<NodeData<PM::P>>,
    num_multicast: int,
    num_unicast: int,
    record: Seq<Transmission>,
) -> bool {
    &&& record.len() == num_multicast + num_unicast
    &&& forall|k: int|
        0 <= k < record.len() ==> {
            &&& (#[trigger] record[k]).0 < world.len()
            &&& record[k].1.spec_content().len() == GENERATED_PACKET_SIZE
            &&& valid_recipients(model, world, world[record[k].0 as int], record[k].1, record[k].2)
            &&& if k < num_multicast {
                record[k].1 is MulticastPacket
            } else {
                record[k].1 matches MulticastOrUnicast::UnicastPacket(u) && u.target < world.len()
            }
        }
}

/// Transmits `num_multicast` multicast packets and then `num_unicast` unicast packets, each with
/// [`GENERATED_PACKET_SIZE`] random bytes of content and sent from a node chosen at random; each
/// unicast packet targets a node chosen at random. Every draw comes from `rng`.
#[verifier::spinoff_prover]
pub fn mixed_multicast_and_random_target_unicast<PM: PropagationModel, E>(
    rng: &mut Xoshiro256Plus,
    global_state_manager: &mut GlobalStateManager<PM, MulticastOrUnicast, E>,
    num_multicast: usize,
    num_unicast: usize,
)
    requires
        old(global_state_manager).wf(),
        num_multicast > 0 || num_unicast > 0 ==> old(global_state_manager).world().len() > 0,
    ensures
        final(global_state_manager).wf(),
        final(global_state_manager).same_world(*old(global_state_manager)),
        only_generated_traffic_added(
            old(global_state_manager).outbox(),
            final(global_state_manager).outbox(),
        ),
        transmit_count(final(global_state_manager).stats().events_seq()) == transmit_count(
            old(global_state_manager).stats().events_seq(),
        ) + num_multicast + num_unicast,
        final(global_state_manager).stats().user() == old(global_state_manager).stats().user(),
        final(global_state_manager).stats().user_events_seq() == old(
            global_state_manager,
        ).stats().user_events_seq(),
        exists|record: Seq<Transmission>|
            #[trigger] generated_traffic(
                old(global_state_manager).model(),
                old(global_state_manager).world(),
                num_multicast as int,
                num_unicast as int,
                record,
            ) && final(global_state_manager).stats().events_seq() == old(
                global_state_manager,
            ).stats().events_seq() + transmission_events(record),
{
    let ghost start = *global_state_manager;
    let ghost mut record: Seq<Transmission> = seq![];
    assert(start.stats().events_seq() + transmission_events(record) =~= start.stats().events_seq());
    proof {
        GlobalStateManager::lemma_same_world_equivalence(start, start, start);
        assert(only_generated_traffic_added(start.outbox(), start.outbox())) by {
            assert forall|i: int| 0 <= i < start.outbox().len() implies #[trigger] start.outbox()[i].subrange(
                0,
                start.outbox()[i].len() as int,
            ) == start.outbox()[i] by {
                assert(start.outbox()[i].subrange(0, start.outbox()[i].len() as int)
                    =~= start.outbox()[i]);
            }
        }
    }
    let mut sent: usize = 0;
    while sent < num_multicast
        invariant
            global_state_manager.wf(),
            global_state_manager.same_world(start),
            start.wf(),
            num_multicast > 0 ==> start.world().len() > 0,
            sent <= num_multicast,
            only_generated_traffic_added(start.outbox(), global_state_manager.outbox()),
            transmit_count(global_state_manager.stats().events_seq()) == transmit_count(
                start.stats().events_seq(),
            ) + sent,
            global_state_manager.stats().user() == start.stats().user(),
            global_state_manager.stats().user_events_seq() == start.stats().user_events_seq(),
            generated_traffic(start.model(), start.world(), sent as int, 0, record),
            global_state_manager.stats().events_seq() == start.stats().events_seq()
                + transmission_events(record),
        decreases num_multicast - sent,
    {
        proof {
            GlobalStateManager::lemma_same_world_equivalence(*global_state_manager, start, start);
        }
        let n = global_state_manager.num_nodes();
        let index = random_usize_in(rng, 0, n);
        let mut bytes: Vec<u8> = vec![0u8; GENERATED_PACKET_SIZE];
        fill_random_bytes(rng, &mut bytes);
        let transmitter = global_state_manager.nodes()[index];
        let packet = MulticastOrUnicast::MulticastPacket(MulticastPacket { content: bytes });
        let ghost before = *global_state_manager;
        global_state_manager.transmit_packet(&transmitter, packet);
        proof {
            let rs = choose|rs: Seq<NodeID>|
                {
                    &&& valid_recipients(before.model(), before.world(), transmitter, packet, rs)
                    &&& delivers(before.outbox(), global_state_manager.outbox(), rs, packet)
                    &&& global_state_manager.stats().events_seq() == before.stats().events_seq().push(
                        crate::stats::InternalEvent::PacketTransmit(transmitter.id),
                    ) + link_events(transmitter.id, rs)
                };
            lemma_transmission_adds_generated_traffic(
                before.model(),
                before.world(),
                transmitter,
                packet,
                rs,
                before.outbox(),
                global_state_manager.outbox(),
            );
            lemma_generated_traffic_transitive(
                start.outbox(),
                before.outbox(),
                global_state_manager.outbox(),
            );
            GlobalStateManager::lemma_same_world_equivalence(*global_state_manager, before, start);
            GlobalStateManager::lemma_same_world_equivalence(before, start, start);
            before.lemma_wf();
            let entry: Transmission = (index, packet, rs);
            let previous = record;
            record = record.push(entry);
            assert(record.drop_last() =~= previous);
            assert(transmitter.id == index);
            assert(global_state_manager.stats().events_seq() =~= start.stats().events_seq()
                + transmission_events(record));
        }
        sent = sent + 1;
    }
    let mut sent: usize = 0;
    let ghost mid_count = transmit_count(global_state_manager.stats().events_seq());
    while sent < num_unicast
        invariant
            global_state_manager.wf(),
            global_state_manager.same_world(start),
            start.wf(),
            num_unicast > 0 ==> start.world().len() > 0,
            sent <= num_unicast,
            only_generated_traffic_added(start.outbox(), global_state_manager.outbox()),
            mid_count == transmit_count(start.stats().events_seq()) + num_multicast,
            transmit_count(global_state_manager.stats().events_seq()) == mid_count + sent,
            global_state_manager.stats().user() == start.stats().user(),
            global_state_manager.stats().user_events_seq() == start.stats().user_events_seq(),
            generated_traffic(start.model(), start.world(), num_multicast as int, sent as int, record),
            global_state_manager.stats().events_seq() == start.stats().events_seq()
                + transmission_events(record),
        decreases num_unicast - sent,
    {
        proof {
            GlobalStateManager::lemma_same_world_equivalence(*global_state_manager, start, start);
        }
        let n = global_state_manager.num_nodes();
        let index = random_usize_in(rng, 0, n);
        let target: NodeID = random_usize_in(rng, 0, n);
        let mut bytes: Vec<u8> = vec![0u8; GENERATED_PACKET_SIZE];
        fill_random_bytes(rng, &mut bytes);
        let transmitter = global_state_manager.nodes()[index];
        let packet = MulticastOrUnicast::UnicastPacket(UnicastPacket { target, content: bytes });
        let ghost before = *global_state_manager;
        assert(packet.spec_eager_targets() == Some(seq![target]));
        assert(before.targets_exist(packet));
        global_state_manager.transmit_packet(&transmitter, packet);
        proof {
            let rs = choose|rs: Seq<NodeID>|
                {
                    &&& valid_recipients(before.model(), before.world(), transmitter, packet, rs)
                    &&& delivers(before.outbox(), global_state_manager.outbox(), rs, packet)
                    &&& global_state_manager.stats().events_seq() == before.stats().events_seq().push(
                        crate::stats::InternalEvent::PacketTransmit(transmitter.id),
                    ) + link_events(transmitter.id, rs)
                };
            lemma_transmission_adds_generated_traffic(
                before.model(),
                before.world(),
                transmitter,
                packet,
                rs,
                before.outbox(),
                global_state_manager.outbox(),
            );
            lemma_generated_traffic_transitive(
                start.outbox(),
                before.outbox(),
                global_state_manager.outbox(),
            );
            GlobalStateManager::lemma_same_world_equivalence(*global_state_manager, before, start);
            GlobalStateManager::lemma_same_world_equivalence(before, start, start);
            before.lemma_wf();
            let entry: Transmission = (index, packet, rs);
            let previous = record;
            record = record.push(entry);
            assert(record.drop_last() =~= previous);
            assert(transmitter.id == index);
            assert(global_state_manager.stats().events_seq() =~= start.stats().events_seq()
                + transmission_events(record));
        }
        sent = sent + 1;
    }
}

} // verus!
