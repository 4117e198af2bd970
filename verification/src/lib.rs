//! Gossip layer for the Grand Pattern: rooms, murmurs, cell graphs, gossip
//! nodes and the binary wire formats they exchange.
//!
//! The vibe carried by rooms and murmurs is a type parameter `V`: every
//! operation here only moves vibes around, and the arithmetic on them is
//! handed in by the caller as a closure.

pub mod murmur;
pub mod room;
pub mod gossip;
pub mod coord;
pub mod discovery;
pub mod order;
pub mod serialize;
pub mod tcp_transport;
