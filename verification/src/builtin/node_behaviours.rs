//! Built-in node behaviours.
pub mod empty_behaviour;
pub mod flood;
pub mod monotonic;
