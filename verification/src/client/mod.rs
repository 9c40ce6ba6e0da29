//! The reliability engine and the handshake on top of it.

pub mod client;
pub mod framer;
pub mod invariants;
pub mod laws;
pub mod model;
