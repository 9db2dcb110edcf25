//! Sans-I/O cores of two Byzantine fault tolerant protocols and of the
//! pieces they share: a replica that orders requests by an authenticated
//! multicast, a speculative client, the cluster configuration and a small
//! two-level task executor.

pub mod app;
pub mod common;
pub mod config;
pub mod config_laws;
pub mod config_text;
pub mod executor;
pub mod protocol;
pub mod text;
pub mod transport;
