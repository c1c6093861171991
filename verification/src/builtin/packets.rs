//! Built-in packet types.
pub mod multicast;
pub mod multicast_or_unicast;
pub mod unicast;
