//! Built-in movement behaviours.
pub mod random_walk;
pub mod static_movement;
