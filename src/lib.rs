//! Peer membership for a permissioned peer-to-peer network: identity
//! derivation, the table of known peers, liveness records, the decisions of
//! the discovery protocol and of the acknowledged broadcast, and the
//! transactions that carry settlement executions.

pub mod identity;
pub mod known_peers;
pub mod peers;
pub mod discovery;
pub mod broadcast;
pub mod execution;
pub mod message;
pub mod node;
