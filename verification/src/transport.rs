//! The tunnel's own transport: two carriers, and what goes on the wire of each.

pub mod capsule;
pub mod carrier;
pub mod connect_ip;
pub mod handshake;
pub mod http3;
pub mod huffman;
pub mod qpack;
pub mod quic;
pub mod tcp;
pub mod tls;
pub mod varint;
