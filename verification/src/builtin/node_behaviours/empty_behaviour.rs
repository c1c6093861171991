//! A node behaviour which does nothing.
use crate::behaviours::NodeBehaviour;
use crate::clock::SimClock;
use crate::managers::GlobalStateManager;
use crate::node::NodeData;
use crate::packets::Packet;
use crate::propagation_models::{PropagationModel, PropagationParams};
use std::marker::PhantomData;
use vstd::prelude::*;

verus! {

/// A node behaviour which does nothing.
pub struct EmptyBehaviour<P> {
    phantom_p: PhantomData<P>,
}

impl<P> EmptyBehaviour<P> {
    pub fn new() -> (b: Self) {
        EmptyBehaviour { phantom_p: PhantomData }
    }
}

impl<PM: PropagationModel, E, P: Packet> NodeBehaviour<PM, E> for EmptyBehaviour<P> {
    type P = P;

    /// The behaviour stays as it is.
    open spec fn spec_ticks_to(
        &self,
        data: NodeData<PM::P>,
        clock: SimClock,
        world: Seq<NodeData<PM::P>>,
        incoming: Seq<P>,
        next: Self,
    ) -> bool {
        next == *self
    }

    /// The global state stays as it is.
    open spec fn spec_transition(
        &self,
        data: NodeData<PM::P>,
        incoming: Seq<P>,
        before: GlobalStateManager<PM, P, E>,
        after: GlobalStateManager<PM, P, E>,
    ) -> bool {
        after == before
    }

    fn tick(
        self,
        _node_data: &NodeData<PM::P>,
        global_state_manager: &mut GlobalStateManager<PM, Self::P, E>,
        _incoming_packets: &Vec<Self::P>,
    ) -> (next: Self)
        ensures
            *final(global_state_manager) == *old(global_state_manager),
    {
        proof {
            GlobalStateManager::<PM, P, E>::lemma_same_world_equivalence(
                *global_state_manager,
                *global_state_manager,
                *global_state_manager,
            );
            GlobalStateManager::<PM, P, E>::lemma_keeps_history(
                *global_state_manager,
                *global_state_manager,
                *global_state_manager,
            );
        }
        self
    }
}

} // verus!
