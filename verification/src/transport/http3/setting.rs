//! Setting identifiers.

use vstd::prelude::*;

verus! {

/// RFC 9220: extended CONNECT, which is what lets a CONNECT carry `:protocol`.
pub const ENABLE_CONNECT_PROTOCOL: u64 = 0x08;

/// RFC 9297: HTTP datagrams.
pub const H3_DATAGRAM: u64 = 0x33;

/// The draft-00 identifier for the same thing, which other clients of the endpoint still send
/// beside the RFC one.
pub const H3_DATAGRAM_DRAFT00: u64 = 0x276;

/// HTTP/2 settings HTTP/3 reserves: receiving one is an error.
pub const FROM_HTTP2: [u64; 4] = [0x02, 0x03, 0x04, 0x05];

} // verus!
