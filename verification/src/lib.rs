//! A tunnel core: what it carries, what it answers and what it puts on the wire.

pub mod address;
pub mod buffer;
pub mod control;
pub mod diagnose;
pub mod dns;
pub mod encoding;
pub mod engine;
pub mod ip;
pub mod link;
pub mod log;
pub mod names;
pub mod options;
pub mod probe;
pub mod queue;
pub mod report;
pub mod routing;
pub mod state;
pub mod status;
pub mod text;
pub mod transport;
pub mod tun;
pub mod up;
pub mod warp;
pub mod wire;
