//! Ordered multicast replication: messages, the mathematical model of a
//! replica, the replica itself and the laws it keeps.

pub mod delivery;
pub mod laws;
pub mod lemmas;
pub mod message;
pub mod model;
pub mod replica;
pub mod runs;
pub mod shared;
pub mod steps;
