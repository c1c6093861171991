//! Behaviours, packets and propagation models that come with the library.
pub mod move_behaviours;
pub mod node_behaviours;
pub mod packets;
pub mod propagation_models;
