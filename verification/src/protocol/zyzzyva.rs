//! Speculative replication: messages, the client's model, the client and the
//! laws it keeps.

pub mod client;
pub mod laws;
pub mod message;
pub mod model;
pub mod runs;
