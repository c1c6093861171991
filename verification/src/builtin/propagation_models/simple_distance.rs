//! A propagation model which accepts packets within a radius of the sender.
use crate::node::NodeData;
use crate::propagation_models::{distance_squared, exec_distance_squared, PropagationModel, PropagationParams};
use vstd::prelude::*;

verus! {

/// A simple propagation model which only accepts packets within the radius given in
/// [SimpleDistanceParams] of the sender.
#[derive(Clone, Copy)]
pub struct SimpleDistance;

/// Parameters for [SimpleDistance].
#[derive(Clone, Copy)]
pub struct SimpleDistanceParams {
    /// The distance this node can transmit packets.
    pub transmit_distance: u32,
}

impl PropagationParams for SimpleDistanceParams {
    open spec fn spec_prune_distance(&self) -> u32 {
        self.transmit_distance
    }

    fn prune_distance(&self) -> (d: u32) {
        self.transmit_distance
    }
}

impl PropagationModel for SimpleDistance {
    type P = SimpleDistanceParams;

    open spec fn spec_signal_received(
        &self,
        sender: NodeData<SimpleDistanceParams>,
        receiver: NodeData<SimpleDistanceParams>,
    ) -> bool {
        distance_squared(sender.position, receiver.position) < sender.propagation_params.transmit_distance
            * sender.propagation_params.transmit_distance
    }

    fn signal_received(
        &self,
        sender: &NodeData<SimpleDistanceParams>,
        receiver: &NodeData<SimpleDistanceParams>,
    ) -> (b: bool) {
        let d = exec_distance_squared(&sender.position, &receiver.position);
        let r = sender.propagation_params.transmit_distance as u128;
        assert(r * r <= 0xffff_ffff * 0xffff_ffff) by (nonlinear_arith)
            requires
                0 <= r <= 0xffff_ffff,
        ;
        d < r * r
    }
}

/// Every node that hears a [SimpleDistance] transmission lies within the sender's prune distance.
pub proof fn lemma_simple_distance_within_prune_distance(
    model: SimpleDistance,
    sender: NodeData<SimpleDistanceParams>,
    receiver: NodeData<SimpleDistanceParams>,
)
    requires
        model.spec_signal_received(sender, receiver),
    ensures
        distance_squared(sender.position, receiver.position) <= sender.propagation_params.spec_prune_distance()
            * sender.propagation_params.spec_prune_distance(),
{
}

} // verus!
