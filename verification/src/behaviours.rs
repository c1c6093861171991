//! Traits implemented by simulation behaviours.
use crate::clock::SimClock;
use crate::managers::GlobalStateManager;
use crate::node::{NodeData, Position};
use crate::packets::Packet;
use crate::propagation_models::{PropagationModel, PropagationParams};
use vstd::prelude::*;

verus! {

/// Describes a node behaviour which performs some processing each tick to produce a new version
/// of itself.
pub trait NodeBehaviour<PM: PropagationModel, E>: Sized {
    /// Packet type that this node can receive and process.
    type P: Packet;

    /// `next` is a state this behaviour may tick to, for a node with data `data`, when the clock
    /// reads `clock`, the nodes' data is `world` and the node is handed `incoming`.
    spec fn spec_ticks_to(
        &self,
        data: NodeData<PM::P>,
        clock: SimClock,
        world: Seq<NodeData<PM::P>>,
        incoming: Seq<Self::P>,
        next: Self,
    ) -> bool;

    /// `after` is a global state this behaviour's tick may leave `before` in, for a node with data
    /// `data` that is handed `incoming`.
    spec fn spec_transition(
        &self,
        data: NodeData<PM::P>,
        incoming: Seq<Self::P>,
        before: GlobalStateManager<PM, Self::P, E>,
        after: GlobalStateManager<PM, Self::P, E>,
    ) -> bool;

    /// Returns the *new* state of the behaviour. It receives the packets delivered to the node
    /// during the previous tick and may transmit packets, draw random numbers and record stats
    /// through the global state manager.
    fn tick(
        self,
        node_data: &NodeData<PM::P>,
        global_state_manager: &mut GlobalStateManager<PM, Self::P, E>,
        incoming_packets: &Vec<Self::P>,
    ) -> (next: Self)
        requires
            old(global_state_manager).wf(),
            node_data.id < old(global_state_manager).world().len(),
        ensures
            final(global_state_manager).wf(),
            final(global_state_manager).same_world(*old(global_state_manager)),
            final(global_state_manager).keeps_history(*old(global_state_manager)),
            self.spec_ticks_to(
                *node_data,
                old(global_state_manager).clock(),
                old(global_state_manager).world(),
                incoming_packets@,
                next,
            ),
            self.spec_transition(
                *node_data,
                incoming_packets@,
                *old(global_state_manager),
                *final(global_state_manager),
            ),
    ;
}

/// Describes a movement behaviour which is ticked each tick and returns a new position for a node.
/// When calculating the new position, scale any velocity by the timestep delta.
pub trait MoveBehaviour<PP: PropagationParams>: Sized {
    /// `next` (the next state and the node's new position) is a result this behaviour may tick
    /// to, for a node with data `data`, when the clock reads `clock` and the nodes' data is
    /// `world`.
    spec fn spec_ticks_to(
        &self,
        data: NodeData<PP>,
        clock: SimClock,
        world: Seq<NodeData<PP>>,
        next: (Self, Position),
    ) -> bool;

    /// Returns the *new* state of the behaviour and the node's new position.
    fn tick<PM: PropagationModel<P = PP>, P: Packet, E>(
        self,
        data: &NodeData<PP>,
        global_state_manager: &mut GlobalStateManager<PM, P, E>,
    ) -> (next: (Self, Position))
        requires
            old(global_state_manager).wf(),
            data.id < old(global_state_manager).world().len(),
        ensures
            final(global_state_manager).wf(),
            final(global_state_manager).same_world(*old(global_state_manager)),
            final(global_state_manager).keeps_history(*old(global_state_manager)),
            self.spec_ticks_to(
                *data,
                old(global_state_manager).clock(),
                old(global_state_manager).world(),
                next,
            ),
    ;
}

} // verus!
