//! Frame types (RFC 9114 §7.2).

use vstd::prelude::*;

verus! {

pub const DATA: u64 = 0x00;

pub const HEADERS: u64 = 0x01;

pub const CANCEL_PUSH: u64 = 0x03;

pub const SETTINGS: u64 = 0x04;

pub const PUSH_PROMISE: u64 = 0x05;

pub const GOAWAY: u64 = 0x07;

pub const MAX_PUSH_ID: u64 = 0x0d;

/// Types HTTP/2 used that HTTP/3 reserves: receiving one is an error on any stream.
pub const FROM_HTTP2: [u64; 4] = [0x02, 0x06, 0x08, 0x09];

} // verus!
