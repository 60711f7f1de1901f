//! QUIC variable-length integers (RFC 9000 §16).
//!
//! Every length and type in both framings this core speaks is one of these: the capsules inside the
//! HTTP/2 stream, and the HTTP/3 frames, settings and datagram prefixes over QUIC.

use bytes::BytesMut;
use vstd::prelude::*;
use crate::buffer::{held, put_slice, put_u8};

verus! {

/// The largest value the encoding can carry: 2^62 - 1.
pub const MAX: u64 = 0x3fff_ffff_ffff_ffff;

/// The number a run of bytes spells, the most significant first.
pub open spec fn big_endian(bytes: Seq<u8>) -> nat
    decreases bytes.len(),
{
    if bytes.len() == 0 {
        0
    } else {
        big_endian(bytes.drop_last()) * 256 + bytes.last() as nat
    }
}

/// The length an encoding has, as its first byte gives it.
pub open spec fn width(first: u8) -> int {
    if first < 64 {
        1
    } else if first < 128 {
        2
    } else if first < 192 {
        4
    } else {
        8
    }
}

/// The value at the front of `buf` and the bytes it takes, when a whole one is there.
pub open spec fn decoded(buf: Seq<u8>) -> Option<(u64, int)> {
    if buf.len() == 0 || buf.len() < width(buf[0]) {
        None
    } else {
        let width = width(buf[0]);
        let bytes = buf.take(width).update(0, (buf[0] as int % 64) as u8);
        Some((big_endian(bytes) as u64, width))
    }
}

/// The bytes a value takes.
pub open spec fn encoded_len(value: u64) -> int {
    if value < 64 {
        1
    } else if value < 16_384 {
        2
    } else if value < 0x4000_0000 {
        4
    } else {
        8
    }
}

/// The shortest encoding of a value.
pub open spec fn encoded(value: u64) -> Seq<u8> {
    let v = value as int;
    if value < 64 {
        seq![v as u8]
    } else if value < 16_384 {
        seq![(0x40 + v / 0x100) as u8, (v % 0x100) as u8]
    } else if value < 0x4000_0000 {
        seq![
            (0x80 + v / 0x100_0000) as u8,
            (v / 0x1_0000 % 0x100) as u8,
            (v / 0x100 % 0x100) as u8,
            (v % 0x100) as u8,
        ]
    } else {
        seq![
            (0xc0 + v / 0x100_0000_0000_0000) as u8,
            (v / 0x1_0000_0000_0000 % 0x100) as u8,
            (v / 0x100_0000_0000 % 0x100) as u8,
            (v / 0x1_0000_0000 % 0x100) as u8,
            (v / 0x100_0000 % 0x100) as u8,
            (v / 0x1_0000 % 0x100) as u8,
            (v / 0x100 % 0x100) as u8,
            (v % 0x100) as u8,
        ]
    }
}

/// Write a QUIC variable-length integer.
///
/// The two most significant bits of the first byte give the length, so the value's magnitude picks
/// the encoding: one byte up to 63, two up to 16383, four up to 2^30-1, eight beyond that.
pub fn put(buf: &mut BytesMut, value: u64)
    requires
        value <= MAX,
        held(*old(buf)).len() + encoded_len(value) <= isize::MAX,
    ensures
        held(*final(buf)) == held(*old(buf)) + encoded(value),
{
    let ghost before = held(*buf);
    if value < 64 {
        put_u8(buf, value as u8);
        assert(held(*buf) =~= before + encoded(value));
    } else if value < 16_384 {
        let bytes: [u8; 2] = [(0x40 + value / 0x100) as u8, (value % 0x100) as u8];
        put_slice(buf, &bytes);
        assert(bytes@ =~= encoded(value));
    } else if value < 0x4000_0000 {
        let bytes: [u8; 4] = [
            (0x80 + value / 0x100_0000) as u8,
            (value / 0x1_0000 % 0x100) as u8,
            (value / 0x100 % 0x100) as u8,
            (value % 0x100) as u8,
        ];
        put_slice(buf, &bytes);
        assert(bytes@ =~= encoded(value));
    } else {
        let bytes: [u8; 8] = [
            (0xc0 + value / 0x100_0000_0000_0000) as u8,
            (value / 0x1_0000_0000_0000 % 0x100) as u8,
            (value / 0x100_0000_0000 % 0x100) as u8,
            (value / 0x1_0000_0000 % 0x100) as u8,
            (value / 0x100_0000 % 0x100) as u8,
            (value / 0x1_0000 % 0x100) as u8,
            (value / 0x100 % 0x100) as u8,
            (value % 0x100) as u8,
        ];
        put_slice(buf, &bytes);
        assert(bytes@ =~= encoded(value));
    }
}

/// How many bytes `put` will use for this value.
pub fn len(value: u64) -> (len: usize)
    ensures
        len == encoded_len(value),
        len == encoded(value).len(),
{
    if value < 64 {
        1
    } else if value < 16_384 {
        2
    } else if value < 0x4000_0000 {
        4
    } else {
        8
    }
}

/// Read a QUIC variable-length integer, or `None` when the buffer does not hold a whole one yet.
///
/// Returns the value and how many bytes it occupied; the caller advances only once it has a whole
/// record, so a partial read leaves the buffer untouched.
pub fn get(buf: &[u8]) -> (read: Option<(u64, usize)>)
    ensures
        match read {
            Some((value, used)) => decoded(buf@) == Some((value, used as int)) && used <= buf.len()
                && value <= MAX && 1 <= used <= 8,
            None => decoded(buf@) is None,
        },
{
    if buf.len() == 0 {
        return None;
    }
    let first = buf[0];
    let class = first / 64;
    let width: usize = if class == 0 {
        1
    } else if class == 1 {
        2
    } else if class == 2 {
        4
    } else {
        8
    };
    if buf.len() < width {
        return None;
    }
    let mut value: u64 = (first % 64) as u64;
    let mut at: usize = 1;
    let ghost bytes = buf@.take(width as int).update(0, (first as int % 64) as u8);
    proof {
        reveal_with_fuel(big_endian, 2);
        assert(bytes.take(1).drop_last() =~= Seq::<u8>::empty());
        assert(big_endian(bytes.take(1)) == value);
    }
    while at < width
        invariant
            1 <= at <= width <= 8,
            width <= buf.len(),
            bytes == buf@.take(width as int).update(0, (first as int % 64) as u8),
            value == big_endian(bytes.take(at as int)),
            value < bound(at as int),
        decreases width - at,
    {
        proof {
            assert(bytes.take(at + 1).drop_last() =~= bytes.take(at as int));
        }
        value = value * 256 + buf[at] as u64;
        at += 1;
    }
    assert(bytes.take(width as int) =~= bytes);
    Some((value, width))
}

/// One more than the largest value that many bytes can carry after the length bits.
spec fn bound(bytes: int) -> int {
    if bytes <= 1 {
        0x40
    } else if bytes == 2 {
        0x4000
    } else if bytes == 3 {
        0x40_0000
    } else if bytes == 4 {
        0x4000_0000
    } else if bytes == 5 {
        0x40_0000_0000
    } else if bytes == 6 {
        0x4000_0000_0000
    } else if bytes == 7 {
        0x40_0000_0000_0000
    } else {
        0x4000_0000_0000_0000
    }
}

/// Peeling the last byte off a number of known length.
proof fn lemma_big_endian_step(bytes: Seq<u8>, n: int)
    requires
        0 < n <= bytes.len(),
    ensures
        big_endian(bytes.take(n)) == big_endian(bytes.take(n - 1)) * 256 + bytes[n - 1],
        big_endian(bytes.take(0)) == 0,
{
    assert(bytes.take(n).drop_last() =~= bytes.take(n - 1));
    assert(bytes.take(0) =~= Seq::<u8>::empty());
}

/// A whole integer is read the same whatever follows it, and one cut short is not read at all.
pub proof fn law_decoding_needs_its_bytes_and_no_more(buf: Seq<u8>, more: Seq<u8>)
    ensures
        match decoded(buf) {
            Some((value, used)) => {
                &&& decoded(buf + more) == Some((value, used))
                &&& 1 <= used <= buf.len()
                &&& forall|cut: int| 0 <= cut < used ==> decoded(#[trigger] buf.take(cut)) is None
            },
            None => true,
        },
{
    if let Some((value, used)) = decoded(buf) {
        assert((buf + more).take(used) =~= buf.take(used));
        assert forall|cut: int| 0 <= cut < used implies decoded(#[trigger] buf.take(cut)) is None by {
            if cut > 0 {
                assert(buf.take(cut)[0] == buf[0]);
            }
        }
    }
}

/// One more base-256 digit of a number: what stands above a digit is the number divided once more.
proof fn lemma_digit(value: int, unit: int)
    requires
        value >= 0,
        unit > 0,
    ensures
        value / (unit * 256) * 256 + value / unit % 256 == value / unit,
{
    vstd::arithmetic::div_mod::lemma_div_denominator(value, unit, 256);
}

proof fn lemma_eight_bytes(value: u64)
    requires
        0x4000_0000 <= value <= MAX,
    ensures
        big_endian(encoded(value).update(0, (encoded(value)[0] as int % 64) as u8)) == value,
{
    let v = value as int;
    let plain = encoded(value).update(0, (encoded(value)[0] as int % 64) as u8);
    assert(v / 0x100_0000_0000_0000 < 64);
    lemma_big_endian_step(plain, 1);
    assert(big_endian(plain.take(1)) == v / 0x100_0000_0000_0000);
    lemma_big_endian_step(plain, 2);
    lemma_digit(v, 0x1_0000_0000_0000);
    assert(big_endian(plain.take(2)) == v / 0x1_0000_0000_0000);
    lemma_big_endian_step(plain, 3);
    lemma_digit(v, 0x100_0000_0000);
    assert(big_endian(plain.take(3)) == v / 0x100_0000_0000);
    lemma_big_endian_step(plain, 4);
    lemma_digit(v, 0x1_0000_0000);
    assert(big_endian(plain.take(4)) == v / 0x1_0000_0000);
    lemma_big_endian_step(plain, 5);
    lemma_digit(v, 0x100_0000);
    assert(big_endian(plain.take(5)) == v / 0x100_0000);
    lemma_big_endian_step(plain, 6);
    lemma_digit(v, 0x1_0000);
    assert(big_endian(plain.take(6)) == v / 0x1_0000);
    lemma_big_endian_step(plain, 7);
    lemma_digit(v, 0x100);
    assert(big_endian(plain.take(7)) == v / 0x100);
    lemma_big_endian_step(plain, 8);
    assert(plain.take(8) =~= plain);
}

proof fn lemma_four_bytes(value: u64)
    requires
        16_384 <= value < 0x4000_0000,
    ensures
        big_endian(encoded(value).update(0, (encoded(value)[0] as int % 64) as u8)) == value,
{
    let v = value as int;
    let plain = encoded(value).update(0, (encoded(value)[0] as int % 64) as u8);
    lemma_big_endian_step(plain, 1);
    assert(big_endian(plain.take(1)) == v / 0x100_0000);
    lemma_big_endian_step(plain, 2);
    lemma_digit(v, 0x1_0000);
    assert(big_endian(plain.take(2)) == v / 0x1_0000);
    lemma_big_endian_step(plain, 3);
    lemma_digit(v, 0x100);
    assert(big_endian(plain.take(3)) == v / 0x100);
    lemma_big_endian_step(plain, 4);
    assert(plain.take(4) =~= plain);
}

/// Writing a value and reading it back gives the value, and takes exactly what was written,
/// whatever follows.
pub proof fn law_varint_round_trip(value: u64, rest: Seq<u8>)
    requires
        value <= MAX,
    ensures
        decoded(encoded(value) + rest) == Some((value, encoded_len(value))),
        encoded(value).len() == encoded_len(value),
{
    let bytes = encoded(value);
    let n = encoded_len(value);
    law_decoding_needs_its_bytes_and_no_more(bytes, rest);
    let plain = bytes.update(0, (bytes[0] as int % 64) as u8);
    assert(bytes.take(n) =~= bytes);
    if value < 64 {
        lemma_big_endian_step(plain, 1);
        assert(plain.take(1) =~= plain);
    } else if value < 16_384 {
        lemma_big_endian_step(plain, 1);
        lemma_big_endian_step(plain, 2);
        assert(plain.take(2) =~= plain);
    } else if value < 0x4000_0000 {
        lemma_four_bytes(value);
    } else {
        assert(value as int / 0x100_0000_0000_0000 < 64);
        lemma_eight_bytes(value);
    }
    assert(big_endian(plain) == value);
    assert(width(bytes[0]) == n);
}

/// No encoding of a value is shorter than the one written.
pub proof fn law_varint_is_shortest(buf: Seq<u8>)
    ensures
        match decoded(buf) {
            Some((value, used)) => encoded_len(value) <= used && value <= MAX,
            None => true,
        },
{
    if let Some((value, used)) = decoded(buf) {
        let n = used;
        let plain = buf.take(n).update(0, (buf[0] as int % 64) as u8);
        assert(plain.take(n) =~= plain);
        lemma_big_endian_step(plain, 1);
        if n >= 2 {
            lemma_big_endian_step(plain, 2);
        }
        if n >= 4 {
            lemma_big_endian_step(plain, 3);
            lemma_big_endian_step(plain, 4);
        }
        if n >= 8 {
            lemma_big_endian_step(plain, 5);
            lemma_big_endian_step(plain, 6);
            lemma_big_endian_step(plain, 7);
            lemma_big_endian_step(plain, 8);
        }
    }
}

/// The first two bits of a number say how many bytes it takes, one, two, four or eight, and the rest
/// of them, the most significant first, are the number.
pub proof fn law_the_first_two_bits_say_the_length(bytes: Seq<u8>)
    ensures
        bytes.len() == 0 ==> decoded(bytes) is None,
        bytes.len() >= 1 && bytes[0] / 64 == 0 ==> decoded(bytes) == Some((bytes[0] as u64, 1int)),
        bytes.len() >= 2 && bytes[0] / 64 == 1 ==> decoded(bytes) == Some(
            (((bytes[0] % 64) * 256 + bytes[1]) as u64, 2int),
        ),
        bytes.len() >= 4 && bytes[0] / 64 == 2 ==> decoded(bytes) == Some(
            (
                (((bytes[0] % 64) * 256 + bytes[1]) * 65_536 + bytes[2] * 256 + bytes[3]) as u64,
                4int,
            ),
        ),
        bytes.len() >= 8 && bytes[0] / 64 == 3 ==> decoded(bytes) == Some(
            (
                ((((bytes[0] % 64) * 256 + bytes[1]) * 65_536 + bytes[2] * 256 + bytes[3])
                    * 0x1_0000_0000 + bytes[4] * 0x100_0000 + bytes[5] * 0x1_0000 + bytes[6] * 0x100
                    + bytes[7]) as u64,
                8int,
            ),
        ),
{
    if decoded(bytes) is Some {
        let n = width(bytes[0]);
        let plain = bytes.take(n).update(0, (bytes[0] as int % 64) as u8);
        assert(plain.take(n) =~= plain);
        lemma_big_endian_step(plain, 1);
        if n >= 2 {
            lemma_big_endian_step(plain, 2);
        }
        if n >= 4 {
            lemma_big_endian_step(plain, 3);
            lemma_big_endian_step(plain, 4);
        }
        if n >= 8 {
            lemma_big_endian_step(plain, 5);
            lemma_big_endian_step(plain, 6);
            lemma_big_endian_step(plain, 7);
            lemma_big_endian_step(plain, 8);
        }
    }
}

} // verus!
