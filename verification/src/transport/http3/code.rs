//! Error codes a connection is closed with (RFC 9114 §8.1, RFC 9204 §6).

use vstd::prelude::*;

verus! {

pub const NO_ERROR: u64 = 0x100;

pub const STREAM_CREATION_ERROR: u64 = 0x103;

pub const CLOSED_CRITICAL_STREAM: u64 = 0x104;

pub const FRAME_UNEXPECTED: u64 = 0x105;

pub const FRAME_ERROR: u64 = 0x106;

pub const EXCESSIVE_LOAD: u64 = 0x107;

pub const SETTINGS_ERROR: u64 = 0x109;

pub const MISSING_SETTINGS: u64 = 0x10a;

pub const MESSAGE_ERROR: u64 = 0x10e;

pub const QPACK_DECOMPRESSION_FAILED: u64 = 0x200;

} // verus!
