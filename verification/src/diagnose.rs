//! What the diagnostics send, and what they make of what comes back.

pub mod handshake;
pub mod packets;
pub mod probe;
