//! Scylla, a mix-net packet format with fragmentation, and a latency
//! simulation of fragmented message delivery over a mix network.
pub mod bytes;
pub mod primitives;
pub mod keys;
pub mod error;
pub mod aont;
pub mod onion;
pub mod laws;
pub mod sim;
pub mod simulation;
pub mod timeline;
pub mod step_laws;
