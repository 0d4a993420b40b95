//! Bootstrap and runtime core of an xchangefs peer-to-peer node: listen
//! address resolution, identity persistence decisions, a bounded record
//! store, listen-outcome aggregation and event dispatch.

pub mod text;
pub mod address;
pub mod swarm;
pub mod record_store;
pub mod identity;
pub mod constants;
pub mod config;
pub mod filesystem;
pub mod network;
