//! A distributed proactive secret-sharing service core.
//!
//! A client splits a secret into N shares under a (K, N) threshold scheme and
//! hands one share to each of N server nodes. Nodes store their share and
//! periodically cooperate to refresh all shares: every share is replaced by a
//! fresh share of the same secret, so shares collected across a refresh
//! boundary are useless to an attacker.
//!
//! This crate holds the verified core of the server cluster: the GF(2^8)
//! field and polynomial kernel that underpins share renewal, the per-node
//! share store with its deterministic replicated state machine, the wire
//! codec for consensus commands and snapshots, the refresh coordinator's
//! decision logic, and the admission checks of the HTTP ingress.

pub mod api;
pub mod codec;
pub mod error;
pub mod gf256;
pub mod messages;
pub mod model;
pub mod poly;
pub mod refresher;
pub mod settings;
pub mod share;
pub mod store;
