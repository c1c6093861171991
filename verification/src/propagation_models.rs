//! Propagation models decide which nodes receive a transmission.
use crate::node::{NodeData, Position};
use vstd::prelude::*;

verus! {

/// Difference of two coordinates.
pub open spec fn axis_gap(a: i32, b: i32) -> int {
    if a >= b {
        a - b
    } else {
        b - a
    }
}

/// Squared Euclidean distance between two positions.
pub open spec fn distance_squared(a: Position, b: Position) -> int {
    (a[0] - b[0]) * (a[0] - b[0]) + (a[1] - b[1]) * (a[1] - b[1])
}

/// Largest per-axis distance between two positions.
pub open spec fn chebyshev_distance(a: Position, b: Position) -> int {
    if axis_gap(a[0], b[0]) >= axis_gap(a[1], b[1]) {
        axis_gap(a[0], b[0])
    } else {
        axis_gap(a[1], b[1])
    }
}

/// A point within Euclidean distance `r` is within Chebyshev distance `r` too.
pub proof fn lemma_euclidean_ball_in_box(a: Position, b: Position, r: int)
    requires
        r >= 0,
        distance_squared(a, b) <= r * r,
    ensures
        chebyshev_distance(a, b) <= r,
{
    let dx = (a[0] - b[0]) as int;
    let dy = (a[1] - b[1]) as int;
    assert(axis_gap(a[0], b[0]) * axis_gap(a[0], b[0]) == dx * dx) by (nonlinear_arith)
        requires
            axis_gap(a[0], b[0]) == dx || axis_gap(a[0], b[0]) == -dx,
    ;
    assert(axis_gap(a[1], b[1]) * axis_gap(a[1], b[1]) == dy * dy) by (nonlinear_arith)
        requires
            axis_gap(a[1], b[1]) == dy || axis_gap(a[1], b[1]) == -dy,
    ;
    assert(dx * dx >= 0 && dy * dy >= 0) by (nonlinear_arith);
    let c = chebyshev_distance(a, b);
    assert(c * c <= dx * dx + dy * dy);
    assert(c <= r) by (nonlinear_arith)
        requires
            c >= 0,
            r >= 0,
            c * c <= r * r,
    ;
}

/// Computes the squared Euclidean distance between two positions exactly.
pub fn exec_distance_squared(a: &Position, b: &Position) -> (d: u128)
    ensures
        d == distance_squared(*a, *b),
{
    let dx: i64 = a[0] as i64 - b[0] as i64;
    let dy: i64 = a[1] as i64 - b[1] as i64;
    let ux: u128 = if dx >= 0 { dx as u128 } else { (-dx) as u128 };
    let uy: u128 = if dy >= 0 { dy as u128 } else { (-dy) as u128 };
    assert(ux * ux == dx * dx && ux * ux <= 0x1_0000_0000 * 0x1_0000_0000) by (nonlinear_arith)
        requires
            ux == dx || ux == -dx,
            0 <= ux <= 0x1_0000_0000,
    ;
    assert(uy * uy == dy * dy && uy * uy <= 0x1_0000_0000 * 0x1_0000_0000) by (nonlinear_arith)
        requires
            uy == dy || uy == -dy,
            0 <= uy <= 0x1_0000_0000,
    ;
    ux * ux + uy * uy
}

/// An instance of parameters for a propagation model: each node gets its own parameters.
pub trait PropagationParams: Copy {
    spec fn spec_prune_distance(&self) -> u32;

    /// The maximum possible distance at which a transmission from this node could be heard.
    /// Used to prune node lookups by distance: no node further away receives the transmission.
    fn prune_distance(&self) -> (d: u32)
        ensures
            d == self.spec_prune_distance(),
    ;
}

/// A propagation model is responsible for determining what nodes receive a transmitted packet.
pub trait PropagationModel {
    /// Propagation parameters of each node (e.g. transmit power, directionality).
    type P: PropagationParams;

    /// Whether a signal sent by `sender` is received by `receiver`.
    spec fn spec_signal_received(&self, sender: NodeData<Self::P>, receiver: NodeData<Self::P>) -> bool;

    /// Returns true if a signal sent by `sender` is received by `receiver`.
    fn signal_received(&self, sender: &NodeData<Self::P>, receiver: &NodeData<Self::P>) -> (b: bool)
        ensures
            b == self.spec_signal_received(*sender, *receiver),
    ;
}

} // verus!
