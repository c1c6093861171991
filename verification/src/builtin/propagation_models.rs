//! Built-in propagation models.
pub mod simple_distance;
