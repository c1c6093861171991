//! Per-node state: the data every node has, and the nodes the simulation is built from.
use vstd::prelude::*;

verus! {

/// Nodes are numbered in the order they are given to the simulation, from zero.
pub type NodeID = usize;

/// A position in the two-dimensional integer coordinate space of the simulation.
pub type Position = [i32; 2];

/// Stores behaviour-agnostic state for a node.
pub struct NodeData<PP> {
    /// Current position of the node in the coordinate space.
    pub position: Position,
    /// Unique ID of the node, assigned incrementally at the start of the simulation.
    pub id: NodeID,
    /// Whatever parameters the propagation model needs, e.g. transmit power or directionality.
    pub propagation_params: PP,
}

impl<PP: Copy> Clone for NodeData<PP> {
    fn clone(&self) -> (r: Self)
        ensures
            r == *self,
    {
        NodeData { position: self.position, id: self.id, propagation_params: self.propagation_params }
    }
}

impl<PP: Copy> Copy for NodeData<PP> {

}

/// A simulated node: its two behaviours and its data.
pub struct Node<NB, MB, PP> {
    /// The node behaviour, ticked every tick after all nodes have moved.
    pub behaviour: NB,
    /// The movement behaviour, ticked first every tick.
    pub move_behaviour: MB,
    /// Position, ID and propagation parameters.
    pub data: NodeData<PP>,
}

impl<NB, MB, PP> Node<NB, MB, PP> {
    /// The node behaviour of this node.
    pub fn node_behaviour(&self) -> (b: &NB)
        ensures
            *b == self.behaviour,
    {
        &self.behaviour
    }

    /// The movement behaviour of this node.
    pub fn move_behaviour(&self) -> (b: &MB)
        ensures
            *b == self.move_behaviour,
    {
        &self.move_behaviour
    }

    /// The behaviour-agnostic data of this node.
    pub fn data(&self) -> (d: &NodeData<PP>)
        ensures
            *d == self.data,
    {
        &self.data
    }
}

/// Constructed by the user and passed to the simulation to construct a [Node].
pub struct NodeInit<NB, MB, PP> {
    pub starting_position: Position,
    pub node_behaviour: NB,
    pub move_behaviour: MB,
    pub propagation_params: PP,
}

} // verus!
