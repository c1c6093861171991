//! Packets and the properties they can have; the packet types themselves are in `builtin::packets`.
use crate::node::{NodeData, NodeID, Position};
use vstd::prelude::*;

verus! {

/// A packet which can be received by nodes in the network.
///
/// The `spec_*` functions give the meaning of the methods of the same name without the prefix.
pub trait Packet: Sized + Clone {
    /// The bytes the packet carries.
    spec fn spec_content(&self) -> Seq<u8>;

    /// The nodes which could receive the packet if in range, or `None` if targeting is dynamic.
    spec fn spec_eager_targets(&self) -> Option<Seq<NodeID>>;

    /// Whether the packet should be received by the node with the given ID and position.
    spec fn spec_targets(&self, id: NodeID, position: Position) -> bool;

    /// Returns the bytes content of the packet.
    fn content(self) -> (c: Vec<u8>)
        ensures
            c@ == self.spec_content(),
    ;

    /// Borrows the bytes content of the packet.
    fn content_ref(&self) -> (c: &Vec<u8>)
        ensures
            c@ == self.spec_content(),
    ;

    /// Returns all NodeIDs which could receive the packet if they are in range, so the transmitter
    /// can avoid looking up all nodes in range. Returns `None` if the targeting is dynamic.
    fn eager_targets(&self) -> (t: Option<Vec<NodeID>>)
        ensures
            match t {
                Some(v) => self.spec_eager_targets() == Some(v@),
                None => self.spec_eager_targets() is None,
            },
    ;

    /// Whether the packet should be received by the given node.
    fn targets<PP>(&self, target: &NodeData<PP>) -> (b: bool)
        ensures
            b == self.spec_targets(target.id, target.position),
    ;
}

/// A packet that can provide the ID of the node which originated it.
pub trait OriginatedPacket: Packet {
    spec fn spec_origin(&self) -> NodeID;

    /// Get the ID of the node which originated this packet.
    fn get_origin(&self) -> (o: NodeID)
        ensures
            o == self.spec_origin(),
    ;
}

/// A packet that can provide a sequence number uniquely identifying it with respect to its
/// originator.
pub trait LocallySequencedPacket: OriginatedPacket {
    spec fn spec_local_seq(&self) -> u64;

    /// A sequence number for the packet which is unique for the originating node.
    fn local_seq(&self) -> (s: u64)
        ensures
            s == self.spec_local_seq(),
    ;
}

/// A packet that can provide a sequence number uniquely identifying it across the network.
pub trait GloballySequencedPacket: Packet {
    spec fn spec_seq(&self) -> u64;

    /// A sequence number for the packet which is unique across the network.
    fn seq(&self) -> (s: u64)
        ensures
            s == self.spec_seq(),
    ;
}

/// Copies a byte buffer.
pub fn copy_bytes(bytes: &Vec<u8>) -> (r: Vec<u8>)
    ensures
        r@ == bytes@,
{
    let mut r: Vec<u8> = Vec::with_capacity(bytes.len());
    for i in 0..bytes.len()
        invariant
            r@ == bytes@.subrange(0, i as int),
    {
        r.push(bytes[i]);
    }
    assert(r@ == bytes@);
    r
}

} // verus!
