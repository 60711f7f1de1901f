//! Big-endian numbers, as every header this core reads or writes carries them.

use vstd::prelude::*;

verus! {

/// The number two bytes spell, the more significant first.
pub open spec fn be16_spec(hi: u8, lo: u8) -> int {
    hi * 256 + lo
}

/// The number four bytes spell, the most significant first.
pub open spec fn be32_spec(a: u8, b: u8, c: u8, d: u8) -> int {
    a * 16777216 + b * 65536 + c * 256 + d
}

/// The two bytes of a 16-bit number, the more significant first.
pub open spec fn be16_bytes(value: int) -> Seq<u8> {
    seq![(value / 256) as u8, (value % 256) as u8]
}

/// Read two bytes as one number.
pub fn be16(hi: u8, lo: u8) -> (value: u16)
    ensures
        value == be16_spec(hi, lo),
{
    (hi as u16) * 256 + (lo as u16)
}

/// Read four bytes as one number.
pub fn be32(a: u8, b: u8, c: u8, d: u8) -> (value: u32)
    ensures
        value == be32_spec(a, b, c, d),
{
    (a as u32) * 16777216 + (b as u32) * 65536 + (c as u32) * 256 + (d as u32)
}

/// The more significant byte of a 16-bit number.
pub fn high_byte(value: u16) -> (byte: u8)
    ensures
        byte == value as int / 256,
{
    (value / 256) as u8
}

/// The less significant byte of a 16-bit number.
pub fn low_byte(value: u16) -> (byte: u8)
    ensures
        byte == value as int % 256,
{
    (value % 256) as u8
}

} // verus!
