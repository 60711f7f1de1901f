//! Unidirectional stream types (RFC 9114 §6.2, RFC 9204 §4.2).

use vstd::prelude::*;

verus! {

pub const CONTROL: u64 = 0x00;

pub const PUSH: u64 = 0x01;

pub const QPACK_ENCODER: u64 = 0x02;

pub const QPACK_DECODER: u64 = 0x03;

} // verus!
