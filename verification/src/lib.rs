//! A signaling relay for peer-to-peer session negotiation.
//!
//! Peers announce themselves under an identifier, are matched into rooms, and
//! exchange opaque negotiation payloads through the relay. This crate holds the
//! room rules, the peer registry and the per-connection protocol state machine;
//! every function here is verified against its contract.

pub mod room;
pub mod matchbox;
pub mod model;
pub mod registry;
pub mod dispatch;
pub mod session;
pub mod laws;
