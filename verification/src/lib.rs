//! SLANT (Simulator for Large Ad hoc Network Topologies): a simulation library for MANETs.
//!
//! Nodes carry a movement behaviour and a node behaviour that are ticked every simulation
//! tick; packets that a node transmits are delivered, through a propagation model, to the
//! nodes that hear them, and are handed to those nodes' behaviours on the next tick.
//!
//! Simulation time is kept in integer time units and positions in integer coordinates, so
//! that every step of the orchestration can be stated and proved exactly.
pub mod clock;
pub mod node;
pub mod packets;
pub mod propagation_models;
pub mod spatial;
pub mod rng;
pub mod stats;
pub mod behaviours;
pub mod builtin;
pub mod managers;
pub mod traffic_generators;
