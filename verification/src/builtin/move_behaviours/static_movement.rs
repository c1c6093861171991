//! Movement behaviour which keeps a node where it is.
use crate::behaviours::MoveBehaviour;
use crate::clock::SimClock;
use crate::managers::GlobalStateManager;
use crate::node::{NodeData, Position};
use crate::packets::Packet;
use crate::propagation_models::{PropagationModel, PropagationParams};
use vstd::prelude::*;

verus! {

/// Movement behaviour which keeps a node where it is.
#[derive(Clone, Copy)]
pub struct StaticMovement {}

impl<PP: PropagationParams> MoveBehaviour<PP> for StaticMovement {
    /// The behaviour stays as it is and the node stays where it is.
    open spec fn spec_ticks_to(
        &self,
        data: NodeData<PP>,
        clock: SimClock,
        world: Seq<NodeData<PP>>,
        next: (Self, Position),
    ) -> bool {
        next.0 == *self && next.1 == data.position
    }

    fn tick<PM: PropagationModel<P = PP>, P: Packet, E>(
        self,
        data: &NodeData<PP>,
        global_state_manager: &mut GlobalStateManager<PM, P, E>,
    ) -> (next: (Self, Position))
        ensures
            *final(global_state_manager) == *old(global_state_manager),
    {
        proof {
            GlobalStateManager::<PM, P, E>::lemma_same_world_equivalence(
                *global_state_manager,
                *global_state_manager,
                *global_state_manager,
            );
            GlobalStateManager::<PM, P, E>::lemma_keeps_history(
                *global_state_manager,
                *global_state_manager,
                *global_state_manager,
            );
        }
        (self, data.position)
    }
}

} // verus!
