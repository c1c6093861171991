//! A packet which can be received by any node.
use crate::node::{NodeData, NodeID, Position};
use crate::packets::{copy_bytes, Packet};
use vstd::prelude::*;

verus! {

/// A packet which can be received by any node.
pub struct MulticastPacket {
    /// The bytes content of the packet.
    pub content: Vec<u8>,
}

impl Clone for MulticastPacket {
    fn clone(&self) -> (r: Self)
        ensures
            r.content@ == self.content@,
    {
        MulticastPacket { content: copy_bytes(&self.content) }
    }
}

impl Packet for MulticastPacket {
    open spec fn spec_content(&self) -> Seq<u8> {
        self.content@
    }

    open spec fn spec_eager_targets(&self) -> Option<Seq<NodeID>> {
        None
    }

    open spec fn spec_targets(&self, id: NodeID, position: Position) -> bool {
        true
    }

    fn content(self) -> (c: Vec<u8>) {
        self.content
    }

    fn content_ref(&self) -> (c: &Vec<u8>) {
        &self.content
    }

    fn eager_targets(&self) -> (t: Option<Vec<NodeID>>) {
        None
    }

    fn targets<PP>(&self, _target: &NodeData<PP>) -> (b: bool) {
        true
    }
}

} // verus!
