//! Peer-discovery protocol engine: message validation, per-session
//! bookkeeping, an in-memory address manager and the gossip controller.

pub mod addr;
pub mod known;
pub mod manager;
pub mod message;
pub mod protocol;
pub mod state;
