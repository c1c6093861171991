//! A packet which can be received only by a specific node.
use crate::node::{NodeData, NodeID, Position};
use crate::packets::{copy_bytes, Packet};
use vstd::prelude::*;

verus! {

/// A packet which can only be received by a specific node.
pub struct UnicastPacket {
    /// The node which can receive this packet.
    pub target: NodeID,
    /// The bytes content of the packet.
    pub content: Vec<u8>,
}

impl Clone for UnicastPacket {
    fn clone(&self) -> (r: Self)
        ensures
            r.target == self.target,
            r.content@ == self.content@,
    {
        UnicastPacket { target: self.target, content: copy_bytes(&self.content) }
    }
}

impl Packet for UnicastPacket {
    open spec fn spec_content(&self) -> Seq<u8> {
        self.content@
    }

    open spec fn spec_eager_targets(&self) -> Option<Seq<NodeID>> {
        Some(seq![self.target])
    }

    open spec fn spec_targets(&self, id: NodeID, position: Position) -> bool {
        id == self.target
    }

    fn content(self) -> (c: Vec<u8>) {
        self.content
    }

    fn content_ref(&self) -> (c: &Vec<u8>) {
        &self.content
    }

    fn eager_targets(&self) -> (t: Option<Vec<NodeID>>) {
        let mut v: Vec<NodeID> = Vec::new();
        v.push(self.target);
        assert(v@ == seq![self.target]);
        Some(v)
    }

    fn targets<PP>(&self, target: &NodeData<PP>) -> (b: bool) {
        target.id == self.target
    }
}

} // verus!
