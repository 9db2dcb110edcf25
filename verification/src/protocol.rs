//! The protocols.

pub mod neo;
pub mod zyzzyva;
