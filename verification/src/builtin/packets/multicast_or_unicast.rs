//! A packet which can be either multicast or unicast.
use crate::builtin::packets::multicast::MulticastPacket;
use crate::builtin::packets::unicast::UnicastPacket;
use crate::node::{NodeData, NodeID, Position};
use crate::packets::Packet;
use vstd::prelude::*;

verus! {

/// A packet which can be either multicast or unicast.
pub enum MulticastOrUnicast {
    /// A packet which can be received by any node.
    MulticastPacket(MulticastPacket),
    /// A packet which can be received only by a specific node.
    UnicastPacket(UnicastPacket),
}

impl Clone for MulticastOrUnicast {
    fn clone(&self) -> (r: Self)
        ensures
            r.spec_content() == self.spec_content(),
            r.spec_eager_targets() == self.spec_eager_targets(),
            r is MulticastPacket <==> self is MulticastPacket,
    {
        match self {
            MulticastOrUnicast::MulticastPacket(p) => MulticastOrUnicast::MulticastPacket(p.clone()),
            MulticastOrUnicast::UnicastPacket(p) => MulticastOrUnicast::UnicastPacket(p.clone()),
        }
    }
}

impl Packet for MulticastOrUnicast {
    open spec fn spec_content(&self) -> Seq<u8> {
        match self {
            MulticastOrUnicast::MulticastPacket(p) => p.spec_content(),
            MulticastOrUnicast::UnicastPacket(p) => p.spec_content(),
        }
    }

    open spec fn spec_eager_targets(&self) -> Option<Seq<NodeID>> {
        match self {
            MulticastOrUnicast::MulticastPacket(p) => p.spec_eager_targets(),
            MulticastOrUnicast::UnicastPacket(p) => p.spec_eager_targets(),
        }
    }

    open spec fn spec_targets(&self, id: NodeID, position: Position) -> bool {
        match self {
            MulticastOrUnicast::MulticastPacket(p) => p.spec_targets(id, position),
            MulticastOrUnicast::UnicastPacket(p) => p.spec_targets(id, position),
        }
    }

    fn content(self) -> (c: Vec<u8>) {
        match self {
            MulticastOrUnicast::MulticastPacket(p) => p.content(),
            MulticastOrUnicast::UnicastPacket(p) => p.content(),
        }
    }

    fn content_ref(&self) -> (c: &Vec<u8>) {
        match self {
            MulticastOrUnicast::MulticastPacket(p) => p.content_ref(),
            MulticastOrUnicast::UnicastPacket(p) => p.content_ref(),
        }
    }

    fn eager_targets(&self) -> (t: Option<Vec<NodeID>>) {
        match self {
            MulticastOrUnicast::MulticastPacket(p) => p.eager_targets(),
            MulticastOrUnicast::UnicastPacket(p) => p.eager_targets(),
        }
    }

    fn targets<PP>(&self, target: &NodeData<PP>) -> (b: bool) {
        match self {
            MulticastOrUnicast::UnicastPacket(p) => p.targets(target),
            MulticastOrUnicast::MulticastPacket(p) => p.targets(target),
        }
    }
}

/// Every built-in packet type targets exactly the nodes it lists as eager targets, and every
/// node when it lists none.
pub proof fn lemma_builtin_targets_agree_with_eager_targets<PP>(
    packet: MulticastOrUnicast,
    node: NodeData<PP>,
)
    ensures
        packet.spec_targets(node.id, node.position) <==> match packet.spec_eager_targets() {
            Some(ids) => ids.contains(node.id),
            None => true,
        },
{
    if let MulticastOrUnicast::UnicastPacket(p) = packet {
        assert(seq![p.target][0] == p.target);
    }
}

} // verus!
