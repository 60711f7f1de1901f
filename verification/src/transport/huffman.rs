//! The Huffman code HPACK and QPACK compress header strings with (RFC 7541 Appendix B).
//!
//! Only the decoding side. The endpoint may Huffman-code any string in its response; this core's own
//! request is written as plain literals, which the format always permits.

use vstd::arithmetic::power2::{lemma2_to64, lemma_pow2_unfold, pow2};
use vstd::prelude::*;
use vstd::set_lib::{lemma_int_range, lemma_subset_equality, set_int_range};

verus! {

/// Each symbol's code and its length in bits, indexed by symbol. 256 is the end-of-string symbol,
/// which only ever appears as padding.
///
/// The code is canonical: codes of one length are consecutive in symbol order, and each length
/// starts where the last one ended, shifted. The decoder needs nothing from this table but the
/// lengths for that reason: how many codes there are of each, and which symbols they stand for.
pub const CODES: [(u32, u8); 257] = [
    (0x1ff8, 13), (0x7fffd8, 23), (0xfffffe2, 28), (0xfffffe3, 28),
    (0xfffffe4, 28), (0xfffffe5, 28), (0xfffffe6, 28), (0xfffffe7, 28),
    (0xfffffe8, 28), (0xffffea, 24), (0x3ffffffc, 30), (0xfffffe9, 28),
    (0xfffffea, 28), (0x3ffffffd, 30), (0xfffffeb, 28), (0xfffffec, 28),
    (0xfffffed, 28), (0xfffffee, 28), (0xfffffef, 28), (0xffffff0, 28),
    (0xffffff1, 28), (0xffffff2, 28), (0x3ffffffe, 30), (0xffffff3, 28),
    (0xffffff4, 28), (0xffffff5, 28), (0xffffff6, 28), (0xffffff7, 28),
    (0xffffff8, 28), (0xffffff9, 28), (0xffffffa, 28), (0xffffffb, 28),
    (0x14, 6), (0x3f8, 10), (0x3f9, 10), (0xffa, 12),
    (0x1ff9, 13), (0x15, 6), (0xf8, 8), (0x7fa, 11),
    (0x3fa, 10), (0x3fb, 10), (0xf9, 8), (0x7fb, 11),
    (0xfa, 8), (0x16, 6), (0x17, 6), (0x18, 6),
    (0x0, 5), (0x1, 5), (0x2, 5), (0x19, 6),
    (0x1a, 6), (0x1b, 6), (0x1c, 6), (0x1d, 6),
    (0x1e, 6), (0x1f, 6), (0x5c, 7), (0xfb, 8),
    (0x7ffc, 15), (0x20, 6), (0xffb, 12), (0x3fc, 10),
    (0x1ffa, 13), (0x21, 6), (0x5d, 7), (0x5e, 7),
    (0x5f, 7), (0x60, 7), (0x61, 7), (0x62, 7),
    (0x63, 7), (0x64, 7), (0x65, 7), (0x66, 7),
    (0x67, 7), (0x68, 7), (0x69, 7), (0x6a, 7),
    (0x6b, 7), (0x6c, 7), (0x6d, 7), (0x6e, 7),
    (0x6f, 7), (0x70, 7), (0x71, 7), (0x72, 7),
    (0xfc, 8), (0x73, 7), (0xfd, 8), (0x1ffb, 13),
    (0x7fff0, 19), (0x1ffc, 13), (0x3ffc, 14), (0x22, 6),
    (0x7ffd, 15), (0x3, 5), (0x23, 6), (0x4, 5),
    (0x24, 6), (0x5, 5), (0x25, 6), (0x26, 6),
    (0x27, 6), (0x6, 5), (0x74, 7), (0x75, 7),
    (0x28, 6), (0x29, 6), (0x2a, 6), (0x7, 5),
    (0x2b, 6), (0x76, 7), (0x2c, 6), (0x8, 5),
    (0x9, 5), (0x2d, 6), (0x77, 7), (0x78, 7),
    (0x79, 7), (0x7a, 7), (0x7b, 7), (0x7ffe, 15),
    (0x7fc, 11), (0x3ffd, 14), (0x1ffd, 13), (0xffffffc, 28),
    (0xfffe6, 20), (0x3fffd2, 22), (0xfffe7, 20), (0xfffe8, 20),
    (0x3fffd3, 22), (0x3fffd4, 22), (0x3fffd5, 22), (0x7fffd9, 23),
    (0x3fffd6, 22), (0x7fffda, 23), (0x7fffdb, 23), (0x7fffdc, 23),
    (0x7fffdd, 23), (0x7fffde, 23), (0xffffeb, 24), (0x7fffdf, 23),
    (0xffffec, 24), (0xffffed, 24), (0x3fffd7, 22), (0x7fffe0, 23),
    (0xffffee, 24), (0x7fffe1, 23), (0x7fffe2, 23), (0x7fffe3, 23),
    (0x7fffe4, 23), (0x1fffdc, 21), (0x3fffd8, 22), (0x7fffe5, 23),
    (0x3fffd9, 22), (0x7fffe6, 23), (0x7fffe7, 23), (0xffffef, 24),
    (0x3fffda, 22), (0x1fffdd, 21), (0xfffe9, 20), (0x3fffdb, 22),
    (0x3fffdc, 22), (0x7fffe8, 23), (0x7fffe9, 23), (0x1fffde, 21),
    (0x7fffea, 23), (0x3fffdd, 22), (0x3fffde, 22), (0xfffff0, 24),
    (0x1fffdf, 21), (0x3fffdf, 22), (0x7fffeb, 23), (0x7fffec, 23),
    (0x1fffe0, 21), (0x1fffe1, 21), (0x3fffe0, 22), (0x1fffe2, 21),
    (0x7fffed, 23), (0x3fffe1, 22), (0x7fffee, 23), (0x7fffef, 23),
    (0xfffea, 20), (0x3fffe2, 22), (0x3fffe3, 22), (0x3fffe4, 22),
    (0x7ffff0, 23), (0x3fffe5, 22), (0x3fffe6, 22), (0x7ffff1, 23),
    (0x3ffffe0, 26), (0x3ffffe1, 26), (0xfffeb, 20), (0x7fff1, 19),
    (0x3fffe7, 22), (0x7ffff2, 23), (0x3fffe8, 22), (0x1ffffec, 25),
    (0x3ffffe2, 26), (0x3ffffe3, 26), (0x3ffffe4, 26), (0x7ffffde, 27),
    (0x7ffffdf, 27), (0x3ffffe5, 26), (0xfffff1, 24), (0x1ffffed, 25),
    (0x7fff2, 19), (0x1fffe3, 21), (0x3ffffe6, 26), (0x7ffffe0, 27),
    (0x7ffffe1, 27), (0x3ffffe7, 26), (0x7ffffe2, 27), (0xfffff2, 24),
    (0x1fffe4, 21), (0x1fffe5, 21), (0x3ffffe8, 26), (0x3ffffe9, 26),
    (0xffffffd, 28), (0x7ffffe3, 27), (0x7ffffe4, 27), (0x7ffffe5, 27),
    (0xfffec, 20), (0xfffff3, 24), (0xfffed, 20), (0x1fffe6, 21),
    (0x3fffe9, 22), (0x1fffe7, 21), (0x1fffe8, 21), (0x7ffff3, 23),
    (0x3fffea, 22), (0x3fffeb, 22), (0x1ffffee, 25), (0x1ffffef, 25),
    (0xfffff4, 24), (0xfffff5, 24), (0x3ffffea, 26), (0x7ffff4, 23),
    (0x3ffffeb, 26), (0x7ffffe6, 27), (0x3ffffec, 26), (0x3ffffed, 26),
    (0x7ffffe7, 27), (0x7ffffe8, 27), (0x7ffffe9, 27), (0x7ffffea, 27),
    (0x7ffffeb, 27), (0xffffffe, 28), (0x7ffffec, 27), (0x7ffffed, 27),
    (0x7ffffee, 27), (0x7ffffef, 27), (0x7fffff0, 27), (0x3ffffee, 26),
    (0x3fffffff, 30),
];

/// The longest code, in bits.
pub const LONGEST: usize = 30;

/// The symbols ordered by code length and, within one length, by symbol: the order the codes are
/// handed out in. The end-of-string symbol would be the one after the last.
pub const SYMBOLS: [u8; 256] = [
    48, 49, 50, 97, 99, 101, 105, 111, 115, 116, 32, 37, 45, 46, 47, 51,
    52, 53, 54, 55, 56, 57, 61, 65, 95, 98, 100, 102, 103, 104, 108, 109,
    110, 112, 114, 117, 58, 66, 67, 68, 69, 70, 71, 72, 73, 74, 75, 76,
    77, 78, 79, 80, 81, 82, 83, 84, 85, 86, 87, 89, 106, 107, 113, 118,
    119, 120, 121, 122, 38, 42, 44, 59, 88, 90, 33, 34, 40, 41, 63, 39,
    43, 124, 35, 62, 0, 36, 64, 91, 93, 126, 94, 125, 60, 96, 123, 92,
    195, 208, 128, 130, 131, 162, 184, 194, 224, 226, 153, 161, 167, 172, 176, 177,
    179, 209, 216, 217, 227, 229, 230, 129, 132, 133, 134, 136, 146, 154, 156, 160,
    163, 164, 169, 170, 173, 178, 181, 185, 186, 187, 189, 190, 196, 198, 228, 232,
    233, 1, 135, 137, 138, 139, 140, 141, 143, 147, 149, 150, 151, 152, 155, 157,
    158, 165, 166, 168, 174, 175, 180, 182, 183, 188, 191, 197, 231, 239, 9, 142,
    144, 145, 148, 159, 171, 206, 215, 225, 236, 237, 199, 207, 234, 235, 192, 193,
    200, 201, 202, 205, 210, 213, 218, 219, 238, 240, 242, 243, 255, 203, 204, 211,
    212, 214, 221, 222, 223, 241, 244, 245, 246, 247, 248, 250, 251, 252, 253, 254,
    2, 3, 4, 5, 6, 7, 8, 11, 12, 14, 15, 16, 17, 18, 19, 20,
    21, 23, 24, 25, 26, 27, 28, 29, 30, 31, 127, 220, 249, 10, 13, 22,
];

/// How many symbols have a code of each length.
pub open spec fn count(length: int) -> int {
    if length == 5 {
        10
    } else if length == 6 {
        26
    } else if length == 7 {
        32
    } else if length == 8 {
        6
    } else if length == 10 {
        5
    } else if length == 11 {
        3
    } else if length == 12 {
        2
    } else if length == 13 {
        6
    } else if length == 14 {
        2
    } else if length == 15 {
        3
    } else if length == 19 {
        3
    } else if length == 20 {
        8
    } else if length == 21 {
        13
    } else if length == 22 {
        26
    } else if length == 23 {
        29
    } else if length == 24 {
        12
    } else if length == 25 {
        4
    } else if length == 26 {
        15
    } else if length == 27 {
        19
    } else if length == 28 {
        29
    } else if length == 30 {
        4
    } else {
        0
    }
}

/// The value the codes of a length start at: twice where those one bit shorter ended.
pub open spec fn first(length: int) -> int
    decreases length,
{
    if length <= 1 {
        0
    } else {
        2 * (first(length - 1) + count(length - 1))
    }
}

/// How many symbols have a code shorter than a length.
pub open spec fn shorter(length: int) -> int
    decreases length,
{
    if length <= 1 {
        0
    } else {
        shorter(length - 1) + count(length - 1)
    }
}

/// The number a run of bits spells, the most significant first.
pub open spec fn number(bits: Seq<bool>) -> int
    decreases bits.len(),
{
    if bits.len() == 0 {
        0
    } else {
        2 * number(bits.drop_last()) + if bits.last() {
            1int
        } else {
            0int
        }
    }
}

/// The bits of a byte, the most significant first.
#[verifier::opaque]
pub open spec fn bits_of_byte(byte: u8) -> Seq<bool> {
    let b = byte as int;
    seq![
        b / 128 % 2 == 1,
        b / 64 % 2 == 1,
        b / 32 % 2 == 1,
        b / 16 % 2 == 1,
        b / 8 % 2 == 1,
        b / 4 % 2 == 1,
        b / 2 % 2 == 1,
        b % 2 == 1,
    ]
}

/// The bits of a run of bytes.
pub open spec fn bits_of(bytes: Seq<u8>) -> Seq<bool>
    decreases bytes.len(),
{
    if bytes.len() == 0 {
        Seq::empty()
    } else {
        bits_of(bytes.drop_last()) + bits_of_byte(bytes.last())
    }
}

/// The code at the front of `bits`, looked for from `length` bits up: which symbol in the order of
/// codes it is, and how many bits it takes. `None` when the bits run out first.
pub open spec fn code_from(bits: Seq<bool>, length: int) -> Option<(int, int)>
    decreases bits.len() - length + 1,
{
    if length < 1 || length > bits.len() {
        None
    } else {
        let code = number(bits.take(length));
        if first(length) <= code < first(length) + count(length) {
            Some((shorter(length) + code - first(length), length))
        } else {
            code_from(bits, length + 1)
        }
    }
}

/// The code at the front of `bits`.
pub open spec fn code_at_front(bits: Seq<bool>) -> Option<(int, int)> {
    code_from(bits, 1)
}

/// What may follow the last code: the high bits of the end-of-string code, which are all ones, and
/// fewer than a byte of them.
pub open spec fn is_padding(bits: Seq<bool>) -> bool {
    bits.len() <= 7 && forall|i: int| 0 <= i < bits.len() ==> #[trigger] bits[i]
}

/// Why a Huffman-coded string could not be read. Each is the peer writing something the format
/// forbids (RFC 7541 §5.2), so the header block is refused rather than guessed at.
#[derive(Debug, Clone, Copy, PartialEq, Eq, Structural)]
pub enum HuffmanError {
    /// The string codes the end-of-string symbol.
    Eos,
    /// The string ends in padding longer than seven bits or not made of ones.
    Padding,
}

/// What is said about a string that is not a Huffman code.
pub open spec fn huffman_text(error: HuffmanError) -> Seq<char> {
    match error {
        HuffmanError::Eos => "the string codes the end-of-string symbol"@,
        HuffmanError::Padding => {
            "the string ends in padding longer than seven bits or not made of ones"@
        },
    }
}

impl HuffmanError {
    /// What is said about it.
    pub fn text(&self) -> (text: &'static str)
        ensures
            text@ == huffman_text(*self),
    {
        match self {
            HuffmanError::Eos => "the string codes the end-of-string symbol",
            HuffmanError::Padding => {
                "the string ends in padding longer than seven bits or not made of ones"
            },
        }
    }
}

/// What a run of bits stands for: one symbol after another, then padding.
pub open spec fn meaning(bits: Seq<bool>) -> Result<Seq<u8>, HuffmanError>
    decreases bits.len(),
{
    match code_at_front(bits) {
        None => if is_padding(bits) {
            Ok(Seq::empty())
        } else {
            Err(HuffmanError::Padding)
        },
        Some((place, length)) => {
            if place >= 256 {
                Err(HuffmanError::Eos)
            } else if 1 <= length <= bits.len() {
                match meaning(bits.skip(length)) {
                    Ok(rest) => Ok(seq![SYMBOLS@[place]] + rest),
                    Err(problem) => Err(problem),
                }
            } else {
                Err(HuffmanError::Padding)
            }
        },
    }
}

/// How many symbols have a code of each length.
fn count_of(length: u32) -> (symbols: u32)
    ensures
        symbols == count(length as int),
{
    if length == 5 {
        10
    } else if length == 6 {
        26
    } else if length == 7 {
        32
    } else if length == 8 {
        6
    } else if length == 10 {
        5
    } else if length == 11 {
        3
    } else if length == 12 {
        2
    } else if length == 13 {
        6
    } else if length == 14 {
        2
    } else if length == 15 {
        3
    } else if length == 19 {
        3
    } else if length == 20 {
        8
    } else if length == 21 {
        13
    } else if length == 22 {
        26
    } else if length == 23 {
        29
    } else if length == 24 {
        12
    } else if length == 25 {
        4
    } else if length == 26 {
        15
    } else if length == 27 {
        19
    } else if length == 28 {
        29
    } else if length == 30 {
        4
    } else {
        0
    }
}

/// A bit of a byte, counted from the most significant.
fn bit_of(byte: u8, place: usize) -> (bit: bool)
    requires
        place < 8,
    ensures
        bit == bits_of_byte(byte)[place as int],
{
    let unit: u8 = if place == 0 {
        128
    } else if place == 1 {
        64
    } else if place == 2 {
        32
    } else if place == 3 {
        16
    } else if place == 4 {
        8
    } else if place == 5 {
        4
    } else if place == 6 {
        2
    } else {
        1
    };
    reveal(bits_of_byte);
    byte / unit % 2 == 1
}

/// Where the codes of each length start, and how many symbols have a shorter one.
proof fn lemma_starts()
    ensures
        first(1) == 0 && shorter(1) == 0,
        first(2) == 0 && shorter(2) == 0,
        first(3) == 0 && shorter(3) == 0,
        first(4) == 0 && shorter(4) == 0,
        first(5) == 0 && shorter(5) == 0,
        first(6) == 20 && shorter(6) == 10,
        first(7) == 92 && shorter(7) == 36,
        first(8) == 248 && shorter(8) == 68,
        first(9) == 508 && shorter(9) == 74,
        first(10) == 1016 && shorter(10) == 74,
        first(11) == 2042 && shorter(11) == 79,
        first(12) == 4090 && shorter(12) == 82,
        first(13) == 8184 && shorter(13) == 84,
        first(14) == 16380 && shorter(14) == 90,
        first(15) == 32764 && shorter(15) == 92,
        first(16) == 65534 && shorter(16) == 95,
        first(17) == 131068 && shorter(17) == 95,
        first(18) == 262136 && shorter(18) == 95,
        first(19) == 524272 && shorter(19) == 95,
        first(20) == 1048550 && shorter(20) == 98,
        first(21) == 2097116 && shorter(21) == 106,
        first(22) == 4194258 && shorter(22) == 119,
        first(23) == 8388568 && shorter(23) == 145,
        first(24) == 16777194 && shorter(24) == 174,
        first(25) == 33554412 && shorter(25) == 186,
        first(26) == 67108832 && shorter(26) == 190,
        first(27) == 134217694 && shorter(27) == 205,
        first(28) == 268435426 && shorter(28) == 224,
        first(29) == 536870910 && shorter(29) == 253,
        first(30) == 1073741820 && shorter(30) == 253,
        first(31) == 2147483648 && shorter(31) == 257,
{
    assert(first(1) == 0 && shorter(1) == 0);
    assert(first(2) == 0 && shorter(2) == 0);
    assert(first(3) == 0 && shorter(3) == 0);
    assert(first(4) == 0 && shorter(4) == 0);
    assert(first(5) == 0 && shorter(5) == 0);
    assert(first(6) == 20 && shorter(6) == 10);
    assert(first(7) == 92 && shorter(7) == 36);
    assert(first(8) == 248 && shorter(8) == 68);
    assert(first(9) == 508 && shorter(9) == 74);
    assert(first(10) == 1016 && shorter(10) == 74);
    assert(first(11) == 2042 && shorter(11) == 79);
    assert(first(12) == 4090 && shorter(12) == 82);
    assert(first(13) == 8184 && shorter(13) == 84);
    assert(first(14) == 16380 && shorter(14) == 90);
    assert(first(15) == 32764 && shorter(15) == 92);
    assert(first(16) == 65534 && shorter(16) == 95);
    assert(first(17) == 131068 && shorter(17) == 95);
    assert(first(18) == 262136 && shorter(18) == 95);
    assert(first(19) == 524272 && shorter(19) == 95);
    assert(first(20) == 1048550 && shorter(20) == 98);
    assert(first(21) == 2097116 && shorter(21) == 106);
    assert(first(22) == 4194258 && shorter(22) == 119);
    assert(first(23) == 8388568 && shorter(23) == 145);
    assert(first(24) == 16777194 && shorter(24) == 174);
    assert(first(25) == 33554412 && shorter(25) == 186);
    assert(first(26) == 67108832 && shorter(26) == 190);
    assert(first(27) == 134217694 && shorter(27) == 205);
    assert(first(28) == 268435426 && shorter(28) == 224);
    assert(first(29) == 536870910 && shorter(29) == 253);
    assert(first(30) == 1073741820 && shorter(30) == 253);
    assert(first(31) == 2147483648 && shorter(31) == 257);
}

/// Where the codes of each length start, and that the code is complete: thirty bits always end in
/// a symbol, and there are 257 of them.
proof fn lemma_lengths(length: int)
    requires
        1 <= length <= 30,
    ensures
        first(30) + count(30) == 0x4000_0000,
        first(31) == 0x8000_0000,
        0 <= shorter(length),
        shorter(length) + count(length) <= 257,
        0 <= first(length),
        first(length) + count(length) <= 0x4000_0000,
        count(length) >= 0,
{
    lemma_starts();
}

/// What so many bits can spell.
proof fn lemma_number_bound(bits: Seq<bool>)
    ensures
        0 <= number(bits) < pow2(bits.len()),
    decreases bits.len(),
{
    if bits.len() == 0 {
        lemma2_to64();
    } else {
        lemma_number_bound(bits.drop_last());
        lemma_pow2_unfold(bits.len());
    }
}

/// The bits of a run of bytes, byte by byte.
proof fn lemma_bits_of(bytes: Seq<u8>, i: int)
    requires
        0 <= i < bytes.len(),
    ensures
        bits_of(bytes).len() == 8 * bytes.len(),
        bits_of(bytes).subrange(8 * i, 8 * i + 8) == bits_of_byte(bytes[i]),
    decreases bytes.len(),
{
    let rest = bytes.drop_last();
    lemma_bits_len(bytes);
    lemma_bits_len(rest);
    if i < rest.len() {
        lemma_bits_of(rest, i);
        assert(bits_of(bytes).subrange(8 * i, 8 * i + 8) =~= bits_of(rest).subrange(
            8 * i,
            8 * i + 8,
        ));
    } else {
        assert(bits_of(bytes).subrange(8 * i, 8 * i + 8) =~= bits_of_byte(bytes[i]));
    }
}

proof fn lemma_bits_len(bytes: Seq<u8>)
    ensures
        bits_of(bytes).len() == 8 * bytes.len(),
        bytes.len() > 0 ==> bits_of_byte(bytes.last()).len() == 8,
    decreases bytes.len(),
{
    if bytes.len() > 0 {
        lemma_bits_len(bytes.drop_last());
        reveal(bits_of_byte);
    }
}

/// What is decoded so far, followed by what the rest means.
spec fn followed_by(out: Seq<u8>, rest: Result<Seq<u8>, HuffmanError>) -> Result<
    Seq<u8>,
    HuffmanError,
> {
    match rest {
        Ok(rest) => Ok(out + rest),
        Err(problem) => Err(problem),
    }
}

/// Decode a Huffman-coded string.
///
/// Read a bit at a time against the canonical ranges: at each length, the codes of that length are
/// so many values starting at `base`, so a code is complete as soon as it falls inside its
/// length's range. Speed does not matter here: one response per connection.
pub fn decode(input: &[u8]) -> (decoded: Result<Vec<u8>, HuffmanError>)
    ensures
        match decoded {
            Ok(out) => meaning(bits_of(input@)) == Ok::<Seq<u8>, HuffmanError>(out@),
            Err(problem) => meaning(bits_of(input@)) == Err::<Seq<u8>, HuffmanError>(problem),
        },
{
    let mut out: Vec<u8> = Vec::new();
    let mut word = Word::new();
    let ghost all = bits_of(input@);
    let ghost mut start: int = 0;
    proof {
        word.lemma_fresh(all, 0);
        assert(all.skip(0) =~= all);
        if let Ok(rest) = meaning(all) {
            assert(out@ + rest =~= rest);
        }
    }
    let mut i: usize = 0;
    while i < input.len()
        invariant
            i <= input.len(),
            all == bits_of(input@),
            word.reads(all, start, 8 * i),
            meaning(all) == followed_by(out@, meaning(all.skip(start))),
        decreases input.len() - i,
    {
        let byte = input[i];
        proof {
            lemma_bits_of(input@, i as int);
        }
        let mut j: usize = 0;
        while j < 8
            invariant
                j <= 8,
                i < input.len(),
                byte == input@[i as int],
                all == bits_of(input@),
                all.len() == 8 * input.len(),
                all.subrange(8 * i, 8 * i + 8) == bits_of_byte(byte),
                word.reads(all, start, 8 * i + j),
                meaning(all) == followed_by(out@, meaning(all.skip(start))),
            decreases 8 - j,
        {
            let ghost here = 8 * i + j;
            let bit = bit_of(byte, j);
            assert(all.subrange(8 * i, 8 * i + 8)[j as int] == all[here]);
            match word.next(bit, Ghost(all), Ghost(start), Ghost(here)) {
                Some(place) => {
                    if place >= 256 {
                        return Err(HuffmanError::Eos);
                    }
                    let ghost before = out@;
                    out.push(SYMBOLS[place]);
                    proof {
                        let symbol = SYMBOLS@[place as int];
                        assert(all.skip(start).skip(here + 1 - start) =~= all.skip(here + 1));
                        if let Ok(tail) = meaning(all.skip(here + 1)) {
                            assert(before + (seq![symbol] + tail) =~= before.push(symbol) + tail);
                        }
                        start = here + 1;
                    }
                },
                None => {},
            }
            j += 1;
        }
        i += 1;
    }
    proof {
        lemma_bits_len(input@);
        assert(all.len() == 8 * i);
        assert(all.subrange(start, 8 * i) =~= all.skip(start));
    }
    // What is left is padding: the high bits of the end-of-string code, which are all ones, and
    // fewer than a byte.
    if word.length > 7 || !word.all_ones {
        proof {
            if !word.all_ones {
                let k = choose|k: int| start <= k < 8 * i && !#[trigger] all[k];
                assert(!all.skip(start)[k - start]);
            }
        }
        return Err(HuffmanError::Padding);
    }
    assert(out@ + Seq::<u8>::empty() =~= out@);
    Ok(out)
}

/// A code being read, bit by bit.
struct Word {
    /// What the bits read so far spell.
    code: u32,
    /// Where the codes one bit longer start.
    base: u32,
    /// How many symbols have a code no longer than what has been read.
    below: u32,
    length: u32,
    all_ones: bool,
}

impl Word {
    /// The code being read began at `start`, and has been read up to `here`.
    spec fn reads(&self, all: Seq<bool>, start: int, here: int) -> bool {
        &&& reading(all, start, here, self.length as int, self.code as int, self.all_ones)
        &&& self.base == first(self.length + 1)
        &&& self.below == shorter(self.length + 1)
    }

    proof fn lemma_fresh(&self, all: Seq<bool>, start: int)
        requires
            0 <= start <= all.len(),
            self.code == 0,
            self.base == 0,
            self.below == 0,
            self.length == 0,
            self.all_ones,
        ensures
            self.reads(all, start, start),
    {
        assert(all.subrange(start, start) =~= Seq::<bool>::empty());
    }

    fn new() -> (word: Self)
        ensures
            word.code == 0,
            word.base == 0,
            word.below == 0,
            word.length == 0,
            word.all_ones,
    {
        Word { code: 0, base: 0, below: 0, length: 0, all_ones: true }
    }

    /// Read one bit more. When it completes a code, say which symbol in the order of codes it is,
    /// and begin the next.
    fn next(
        &mut self,
        bit: bool,
        Ghost(all): Ghost<Seq<bool>>,
        Ghost(start): Ghost<int>,
        Ghost(here): Ghost<int>,
    ) -> (place: Option<usize>)
        requires
            old(self).reads(all, start, here),
            here < all.len(),
            bit == all[here],
        ensures
            match place {
                Some(place) => {
                    &&& code_at_front(all.skip(start)) == Some((place as int, here + 1 - start))
                    &&& final(self).reads(all, here + 1, here + 1)
                },
                None => final(self).reads(all, start, here + 1),
            },
    {
        proof {
            lemma_next_bit(all, start, here, self.length as int, self.code as int, self.all_ones);
            lemma_lengths(self.length + 1);
        }
        self.code = 2 * self.code + if bit { 1 } else { 0 };
        self.all_ones = self.all_ones && bit;
        self.length += 1;
        let count = count_of(self.length);
        if self.code - self.base < count {
            let place: usize = (self.below + (self.code - self.base)) as usize;
            proof {
                lemma_symbol(all, start, here + 1, self.length as int, self.code as int);
            }
            *self = Word::new();
            proof {
                self.lemma_fresh(all, here + 1);
            }
            Some(place)
        } else {
            // No bound check on the length: the code is complete, so thirty bits always end in a
            // symbol, and the longest code of all is the end-of-string one.
            proof {
                lemma_no_symbol(
                    all,
                    start,
                    here + 1,
                    self.length as int,
                    self.code as int,
                    self.all_ones,
                );
            }
            self.below = self.below + count;
            self.base = 2 * (self.base + count);
            None
        }
    }
}

/// A code being read: it began at `start`, `length` bits of it have been read up to `here`, they
/// spell `code`, and no shorter run of them is a code.
spec fn reading(
    all: Seq<bool>,
    start: int,
    here: int,
    length: int,
    code: int,
    all_ones: bool,
) -> bool {
    &&& 0 <= start <= here <= all.len()
    &&& length == here - start
    &&& length <= 29
    &&& code == number(all.subrange(start, here))
    &&& first(length + 1) <= 2 * code
    &&& 2 * code < 0x4000_0000
    &&& all_ones == forall|k: int| start <= k < here ==> #[trigger] all[k]
    &&& code_at_front(all.skip(start)) == code_from(all.skip(start), length + 1)
}

/// One bit more of a code being read.
proof fn lemma_next_bit(
    all: Seq<bool>,
    start: int,
    here: int,
    length: int,
    code: int,
    all_ones: bool,
)
    requires
        reading(all, start, here, length, code, all_ones),
        here < all.len(),
    ensures
        ({
            let longer = 2 * code + if all[here] {
                1int
            } else {
                0int
            };
            &&& longer == number(all.subrange(start, here + 1))
            &&& longer < 0x4000_0000
            &&& (all_ones && all[here]) == forall|k: int|
                start <= k < here + 1 ==> #[trigger] all[k]
        }),
{
    assert(all.subrange(start, here + 1).drop_last() =~= all.subrange(start, here));
    lemma_number_bound(all.subrange(start, here + 1));
    lemma2_to64();
    lemma_pow2_at_most(length + 1, 30);
}

proof fn lemma_pow2_at_most(a: int, b: int)
    requires
        0 <= a <= b <= 30,
    ensures
        pow2(a as nat) <= pow2(b as nat),
        pow2(30) == 0x4000_0000,
    decreases b - a,
{
    lemma2_to64();
    if a < b {
        lemma_pow2_unfold((a + 1) as nat);
        lemma_pow2_at_most(a + 1, b);
    }
}

/// The bits read are a code.
proof fn lemma_symbol(all: Seq<bool>, start: int, here: int, length: int, code: int)
    requires
        0 <= start < here <= all.len(),
        length == here - start,
        1 <= length <= 30,
        code == number(all.subrange(start, here)),
        first(length) <= code < first(length) + count(length),
        code_at_front(all.skip(start)) == code_from(all.skip(start), length),
    ensures
        code_at_front(all.skip(start)) == Some((shorter(length) + code - first(length), length)),
        shorter(length) + code - first(length) <= 256,
{
    assert(all.skip(start).take(length) =~= all.subrange(start, here));
    lemma_lengths(length);
}

/// The bits read are no code yet.
proof fn lemma_no_symbol(
    all: Seq<bool>,
    start: int,
    here: int,
    length: int,
    code: int,
    all_ones: bool,
)
    requires
        0 <= start < here <= all.len(),
        length == here - start,
        1 <= length <= 30,
        code == number(all.subrange(start, here)),
        code < 0x4000_0000,
        first(length) <= code,
        code - first(length) >= count(length),
        all_ones == forall|k: int| start <= k < here ==> #[trigger] all[k],
        code_at_front(all.skip(start)) == code_from(all.skip(start), length),
    ensures
        reading(all, start, here, length, code, all_ones),
{
    assert(all.skip(start).take(length) =~= all.subrange(start, here));
    lemma_lengths(length);
    assert(length <= 29);
    lemma_number_bound(all.subrange(start, here));
    lemma_pow2_at_most(length, 29);
    lemma2_to64();
}

/// Whether `code` is what the symbol at `place` in the order of codes is written as.
pub open spec fn is_code(place: int, code: Seq<bool>) -> bool {
    let length = code.len() as int;
    &&& 1 <= length <= LONGEST
    &&& shorter(length) <= place < shorter(length) + count(length)
    &&& number(code) == first(length) + place - shorter(length)
}

/// A run of codes, one after another.
pub open spec fn concatenated(codes: Seq<Seq<bool>>) -> Seq<bool>
    decreases codes.len(),
{
    if codes.len() == 0 {
        Seq::empty()
    } else {
        codes[0] + concatenated(codes.drop_first())
    }
}

/// A code that has reached its range has been past the end of every shorter one.
proof fn lemma_past_shorter(code: Seq<bool>, length: int)
    requires
        1 <= length <= code.len(),
        number(code) >= first(code.len() as int),
    ensures
        number(code.take(length)) >= first(length),
        length < code.len() ==> number(code.take(length)) >= first(length) + count(length),
    decreases code.len() - length,
{
    if length == code.len() {
        assert(code.take(length) =~= code);
    } else {
        lemma_past_shorter(code, length + 1);
        assert(code.take(length + 1).drop_last() =~= code.take(length));
        assert(first(length + 1) == 2 * (first(length) + count(length)));
        if length <= 30 {
            lemma_lengths(length);
        }
    }
}

proof fn lemma_code_from(code: Seq<bool>, rest: Seq<bool>, place: int, length: int)
    requires
        is_code(place, code),
        1 <= length <= code.len(),
    ensures
        code_from(code + rest, length) == Some((place, code.len() as int)),
    decreases code.len() - length,
{
    lemma_past_shorter(code, length);
    assert((code + rest).take(length) =~= code.take(length));
    if length == code.len() {
        assert(code.take(length) =~= code);
    } else {
        lemma_code_from(code, rest, place, length + 1);
    }
}

/// No code is the start of another: a code is read as its own symbol whatever follows it.
pub proof fn law_a_code_is_read_as_its_symbol(place: int, code: Seq<bool>, rest: Seq<bool>)
    requires
        is_code(place, code),
    ensures
        code_at_front(code + rest) == Some((place, code.len() as int)),
{
    lemma_code_from(code, rest, place, 1);
}

/// Nothing but a code is read as a symbol.
pub proof fn law_only_codes_are_read(bits: Seq<bool>)
    ensures
        match code_at_front(bits) {
            Some((place, length)) => 1 <= length <= bits.len() && number(bits.take(length))
                == first(length) + place - shorter(length) && shorter(length) <= place < shorter(
                length,
            ) + count(length),
            None => true,
        },
{
    lemma_read_is_code(bits, 1);
}

proof fn lemma_read_is_code(bits: Seq<bool>, from: int)
    requires
        from >= 1,
    ensures
        match code_from(bits, from) {
            Some((place, length)) => from <= length <= bits.len() && number(bits.take(length))
                == first(length) + place - shorter(length) && shorter(length) <= place < shorter(
                length,
            ) + count(length),
            None => true,
        },
    decreases bits.len() - from + 1,
{
    if from <= bits.len() {
        lemma_read_is_code(bits, from + 1);
    }
}

/// The code is complete: every thirty bits begin with a symbol, which is why a decoder never runs
/// past the longest code.
pub proof fn law_the_code_is_complete(bits: Seq<bool>)
    requires
        bits.len() >= LONGEST,
    ensures
        code_at_front(bits) is Some,
{
    lemma_number_bound(bits.take(1));
    lemma_complete(bits, 1);
}

proof fn lemma_complete(bits: Seq<bool>, length: int)
    requires
        bits.len() >= 30,
        1 <= length <= 30,
        number(bits.take(length)) >= first(length),
    ensures
        code_from(bits, length) is Some,
    decreases 30 - length,
{
    let code = number(bits.take(length));
    lemma_lengths(length);
    if !(code < first(length) + count(length)) {
        lemma_number_bound(bits.take(length));
        lemma_pow2_at_most(length, 30);
        assert(length < 30);
        assert(bits.take(length + 1).drop_last() =~= bits.take(length));
        assert(first(length + 1) == 2 * (first(length) + count(length)));
        lemma_complete(bits, length + 1);
    }
}

/// Every string survives the round trip: its symbols' codes one after another, padded with fewer
/// than eight ones, read back as the same symbols.
pub proof fn law_huffman_round_trip(places: Seq<int>, codes: Seq<Seq<bool>>, padding: Seq<bool>)
    requires
        places.len() == codes.len(),
        forall|i: int|
            0 <= i < places.len() ==> is_code(#[trigger] places[i], codes[i]) && places[i] < 256,
        is_padding(padding),
    ensures
        meaning(concatenated(codes) + padding) == Ok::<Seq<u8>, HuffmanError>(
            Seq::new(places.len(), |i: int| SYMBOLS@[places[i]]),
        ),
    decreases places.len(),
{
    let symbols = Seq::new(places.len(), |i: int| SYMBOLS@[places[i]]);
    if places.len() == 0 {
        assert(concatenated(codes) + padding =~= padding);
        lemma_padding_is_no_code(padding, 1);
        assert(symbols =~= Seq::empty());
    } else {
        let fewer = places.drop_first();
        let shorter_codes = codes.drop_first();
        assert forall|i: int| 0 <= i < fewer.len() implies is_code(
            #[trigger] fewer[i],
            shorter_codes[i],
        ) && fewer[i] < 256 by {
            assert(fewer[i] == places[i + 1]);
        }
        law_huffman_round_trip(fewer, shorter_codes, padding);
        let rest = concatenated(shorter_codes) + padding;
        let bits = concatenated(codes) + padding;
        assert(bits =~= codes[0] + rest);
        assert(is_code(places[0], codes[0]));
        law_a_code_is_read_as_its_symbol(places[0], codes[0], rest);
        assert(bits.skip(codes[0].len() as int) =~= rest);
        let tail = Seq::new(fewer.len(), |i: int| SYMBOLS@[fewer[i]]);
        assert(symbols =~= seq![SYMBOLS@[places[0]]] + tail);
    }
}

proof fn lemma_padding_is_no_code(padding: Seq<bool>, length: int)
    requires
        is_padding(padding),
        1 <= length,
    ensures
        code_from(padding, length) is None,
    decreases padding.len() - length + 1,
{
    if length <= padding.len() {
        lemma_ones(padding, length);
        reveal_with_fuel(first, 8);
        assert(first(1) == 0 && first(2) == 0 && first(3) == 0 && first(4) == 0);
        assert(first(5) == 0 && first(6) == 20 && first(7) == 92);
        lemma2_to64();
        lemma_padding_is_no_code(padding, length + 1);
    }
}

proof fn lemma_ones(padding: Seq<bool>, length: int)
    requires
        is_padding(padding),
        0 <= length <= padding.len(),
    ensures
        number(padding.take(length)) == pow2(length as nat) - 1,
    decreases length,
{
    lemma2_to64();
    if length > 0 {
        assert(padding.take(length).drop_last() =~= padding.take(length - 1));
        lemma_ones(padding, length - 1);
        lemma_pow2_unfold(length as nat);
    }
}

/// Whether the symbol at a place in the order of codes has the code that is handed out there, of a
/// length whose codes start at `start` with the symbol at `under`.
spec fn coded(place: int, length: int, start: int, under: int) -> bool {
    CODES@[SYMBOLS@[place] as int] == ((start + place - under) as u32, length as u8)
}

/// The same of every place from one on up to another.
spec fn all_coded(place: int, end: int, length: int, start: int, under: int) -> bool
    decreases end - place,
{
    place >= end || coded(place, length, start, under) && all_coded(
        place + 1,
        end,
        length,
        start,
        under,
    )
}

proof fn lemma_coded(place: int, from: int, end: int, length: int, start: int, under: int)
    requires
        all_coded(from, end, length, start, under),
        from <= place < end,
    ensures
        coded(place, length, start, under),
    decreases end - from,
{
    if from < place {
        lemma_coded(place, from + 1, end, length, start, under);
    }
}

/// The codes of each length, read off the table.
proof fn lemma_all_coded()
    ensures
        all_coded(0, 10, 5, 0, 0),
        all_coded(10, 36, 6, 20, 10),
        all_coded(36, 68, 7, 92, 36),
        all_coded(68, 74, 8, 248, 68),
        all_coded(74, 79, 10, 1016, 74),
        all_coded(79, 82, 11, 2042, 79),
        all_coded(82, 84, 12, 4090, 82),
        all_coded(84, 90, 13, 8184, 84),
        all_coded(90, 92, 14, 16380, 90),
        all_coded(92, 95, 15, 32764, 92),
        all_coded(95, 98, 19, 524272, 95),
        all_coded(98, 106, 20, 1048550, 98),
        all_coded(106, 119, 21, 2097116, 106),
        all_coded(119, 145, 22, 4194258, 119),
        all_coded(145, 174, 23, 8388568, 145),
        all_coded(174, 186, 24, 16777194, 174),
        all_coded(186, 190, 25, 33554412, 186),
        all_coded(190, 205, 26, 67108832, 190),
        all_coded(205, 224, 27, 134217694, 205),
        all_coded(224, 253, 28, 268435426, 224),
        all_coded(253, 256, 30, 1073741820, 253),
{
    assert(all_coded(0, 10, 5, 0, 0)) by {
        reveal_with_fuel(all_coded, 11);
    }
    assert(all_coded(10, 36, 6, 20, 10)) by {
        reveal_with_fuel(all_coded, 27);
    }
    assert(all_coded(36, 68, 7, 92, 36)) by {
        reveal_with_fuel(all_coded, 33);
    }
    assert(all_coded(68, 74, 8, 248, 68)) by {
        reveal_with_fuel(all_coded, 7);
    }
    assert(all_coded(74, 79, 10, 1016, 74)) by {
        reveal_with_fuel(all_coded, 6);
    }
    assert(all_coded(79, 82, 11, 2042, 79)) by {
        reveal_with_fuel(all_coded, 4);
    }
    assert(all_coded(82, 84, 12, 4090, 82)) by {
        reveal_with_fuel(all_coded, 3);
    }
    assert(all_coded(84, 90, 13, 8184, 84)) by {
        reveal_with_fuel(all_coded, 7);
    }
    assert(all_coded(90, 92, 14, 16380, 90)) by {
        reveal_with_fuel(all_coded, 3);
    }
    assert(all_coded(92, 95, 15, 32764, 92)) by {
        reveal_with_fuel(all_coded, 4);
    }
    assert(all_coded(95, 98, 19, 524272, 95)) by {
        reveal_with_fuel(all_coded, 4);
    }
    assert(all_coded(98, 106, 20, 1048550, 98)) by {
        reveal_with_fuel(all_coded, 9);
    }
    assert(all_coded(106, 119, 21, 2097116, 106)) by {
        reveal_with_fuel(all_coded, 14);
    }
    assert(all_coded(119, 145, 22, 4194258, 119)) by {
        reveal_with_fuel(all_coded, 27);
    }
    assert(all_coded(145, 174, 23, 8388568, 145)) by {
        reveal_with_fuel(all_coded, 30);
    }
    assert(all_coded(174, 186, 24, 16777194, 174)) by {
        reveal_with_fuel(all_coded, 13);
    }
    assert(all_coded(186, 190, 25, 33554412, 186)) by {
        reveal_with_fuel(all_coded, 5);
    }
    assert(all_coded(190, 205, 26, 67108832, 190)) by {
        reveal_with_fuel(all_coded, 16);
    }
    assert(all_coded(205, 224, 27, 134217694, 205)) by {
        reveal_with_fuel(all_coded, 20);
    }
    assert(all_coded(224, 253, 28, 268435426, 224)) by {
        reveal_with_fuel(all_coded, 30);
    }
    assert(all_coded(253, 256, 30, 1073741820, 253)) by {
        reveal_with_fuel(all_coded, 4);
    }
}

/// The symbols stand in the order their codes are handed out in: the one at a place has the code of
/// its length that is as far from the first of that length as the symbol is, and the end-of-string
/// symbol has the last code of all.
pub proof fn law_symbols_stand_in_the_order_of_their_codes(place: int)
    requires
        0 <= place < 256,
    ensures
        ({
            let (code, length) = CODES@[SYMBOLS@[place] as int];
            &&& 1 <= length <= LONGEST
            &&& shorter(length as int) <= place < shorter(length as int) + count(length as int)
            &&& code == first(length as int) + place - shorter(length as int)
        }),
        CODES@[256] == ((first(30) + 256 - shorter(30)) as u32, 30u8),
        first(30) + 256 - shorter(30) == first(30) + count(30) - 1 == 0x3fff_ffff,
{
    lemma_all_coded();
    lemma_lengths(1);
    lemma_starts();
    if place < 10 {
        lemma_coded(place, 0, 10, 5, 0, 0);
    } else if place < 36 {
        lemma_coded(place, 10, 36, 6, 20, 10);
    } else if place < 68 {
        lemma_coded(place, 36, 68, 7, 92, 36);
    } else if place < 74 {
        lemma_coded(place, 68, 74, 8, 248, 68);
    } else if place < 79 {
        lemma_coded(place, 74, 79, 10, 1016, 74);
    } else if place < 82 {
        lemma_coded(place, 79, 82, 11, 2042, 79);
    } else if place < 84 {
        lemma_coded(place, 82, 84, 12, 4090, 82);
    } else if place < 90 {
        lemma_coded(place, 84, 90, 13, 8184, 84);
    } else if place < 92 {
        lemma_coded(place, 90, 92, 14, 16380, 90);
    } else if place < 95 {
        lemma_coded(place, 92, 95, 15, 32764, 92);
    } else if place < 98 {
        lemma_coded(place, 95, 98, 19, 524272, 95);
    } else if place < 106 {
        lemma_coded(place, 98, 106, 20, 1048550, 98);
    } else if place < 119 {
        lemma_coded(place, 106, 119, 21, 2097116, 106);
    } else if place < 145 {
        lemma_coded(place, 119, 145, 22, 4194258, 119);
    } else if place < 174 {
        lemma_coded(place, 145, 174, 23, 8388568, 145);
    } else if place < 186 {
        lemma_coded(place, 174, 186, 24, 16777194, 174);
    } else if place < 190 {
        lemma_coded(place, 186, 190, 25, 33554412, 186);
    } else if place < 205 {
        lemma_coded(place, 190, 205, 26, 67108832, 190);
    } else if place < 224 {
        lemma_coded(place, 205, 224, 27, 134217694, 205);
    } else if place < 253 {
        lemma_coded(place, 224, 253, 28, 268435426, 224);
    } else if place < 256 {
        lemma_coded(place, 253, 256, 30, 1073741820, 253);
    }
}

/// Two hundred and fifty-six different bytes are all there are.
proof fn lemma_all_bytes(symbols: Seq<u8>, symbol: u8)
    requires
        symbols.len() == 256,
        symbols.no_duplicates(),
    ensures
        symbols.contains(symbol),
{
    let numbers = symbols.map_values(|symbol: u8| symbol as int);
    assert forall|i: int, j: int| 0 <= i < numbers.len() && 0 <= j < numbers.len() && i
        != j implies numbers[i] != numbers[j] by {
        assert(symbols[i] != symbols[j]);
    }
    numbers.unique_seq_to_set();
    let range = set_int_range(0, 256);
    lemma_int_range(0, 256);
    assert(numbers.to_set().subset_of(range));
    lemma_subset_equality(numbers.to_set(), range);
    assert(numbers.to_set().contains(symbol as int));
    let place = choose|i: int| 0 <= i < numbers.len() && numbers[i] == symbol as int;
    assert(symbols[place] == symbol);
}

/// No symbol stands at two places.
proof fn lemma_one_place(i: int, j: int)
    requires
        0 <= i < 256,
        0 <= j < 256,
        SYMBOLS@[i] == SYMBOLS@[j],
    ensures
        i == j,
{
    law_symbols_stand_in_the_order_of_their_codes(i);
    law_symbols_stand_in_the_order_of_their_codes(j);
}

/// Every byte stands at a place.
proof fn lemma_place_of(symbol: u8) -> (place: int)
    ensures
        0 <= place < 256,
        SYMBOLS@[place] == symbol,
{
    let symbols = SYMBOLS@;
    assert(symbols.len() == 256);
    assert forall|i: int, j: int| 0 <= i < symbols.len() && 0 <= j < symbols.len() && i
        != j implies symbols[i] != symbols[j] by {
        if symbols[i] == symbols[j] {
            lemma_one_place(i, j);
        }
    }
    lemma_all_bytes(symbols, symbol);
    choose|place: int| 0 <= place < symbols.len() && symbols[place] == symbol
}

/// Bits that spell no less than the first code of their length spell, cut shorter, more than any
/// code of the shorter length.
proof fn lemma_shorter_prefix(bits: Seq<bool>, length: int, shorter_one: int)
    requires
        1 <= shorter_one < length <= bits.len(),
        number(bits.take(length)) >= first(length),
    ensures
        number(bits.take(shorter_one)) >= first(shorter_one) + count(shorter_one),
    decreases length - shorter_one,
{
    assert(bits.take(length).drop_last() =~= bits.take(length - 1));
    if shorter_one < length - 1 {
        lemma_count_is_none_or_more(length - 1);
        lemma_shorter_prefix(bits, length - 1, shorter_one);
    }
}

proof fn lemma_count_is_none_or_more(length: int)
    ensures
        count(length) >= 0,
{
}

proof fn lemma_found_at(bits: Seq<bool>, from: int, length: int)
    requires
        1 <= from <= length <= bits.len(),
        first(length) <= number(bits.take(length)) < first(length) + count(length),
    ensures
        code_from(bits, from) == Some(
            (shorter(length) + number(bits.take(length)) - first(length), length),
        ),
    decreases length - from,
{
    if from < length {
        lemma_shorter_prefix(bits, length, from);
        lemma_found_at(bits, from + 1, length);
    }
}

/// Every byte is read back from its code: bits that begin with the code of a byte in the table begin
/// with that byte, whatever follows, and those that begin with the end-of-string code are refused.
pub proof fn law_every_code_is_read_as_its_symbol(symbol: int, bits: Seq<bool>)
    requires
        0 <= symbol <= 256,
        bits.len() >= CODES@[symbol].1,
        number(bits.take(CODES@[symbol].1 as int)) == CODES@[symbol].0,
    ensures
        symbol == 256 ==> meaning(bits) == Err::<Seq<u8>, HuffmanError>(HuffmanError::Eos),
        symbol < 256 ==> meaning(bits) == match meaning(bits.skip(CODES@[symbol].1 as int)) {
            Ok(rest) => Ok::<Seq<u8>, HuffmanError>(seq![symbol as u8] + rest),
            Err(problem) => Err(problem),
        },
{
    let length = CODES@[symbol].1 as int;
    if symbol < 256 {
        let place = lemma_place_of(symbol as u8);
        law_symbols_stand_in_the_order_of_their_codes(place);
        lemma_found_at(bits, 1, length);
    } else {
        law_symbols_stand_in_the_order_of_their_codes(0);
        lemma_found_at(bits, 1, 30);
    }
}

/// What is left once no code is whole is padding: up to seven ones are nothing, and eight bits or more,
/// or any zero among them, make the string unreadable. Up to seven ones are never a code.
pub proof fn law_what_is_left_over_is_padding(bits: Seq<bool>, ones: nat, zero: int)
    ensures
        code_at_front(bits) is None && bits.len() >= 8 ==> meaning(bits) == Err::<
            Seq<u8>,
            HuffmanError,
        >(HuffmanError::Padding),
        code_at_front(bits) is None && 0 <= zero < bits.len() && !bits[zero] ==> meaning(bits) == Err::<
            Seq<u8>,
            HuffmanError,
        >(HuffmanError::Padding),
        ones <= 7 ==> meaning(Seq::new(ones, |i: int| true)) == Ok::<Seq<u8>, HuffmanError>(
            Seq::empty(),
        ),
{
    if ones <= 7 {
        lemma_padding_is_no_code(Seq::new(ones, |i: int| true), 1);
    }
}

/// A byte is eight bits, the most significant first, and bytes are their bits one behind the other.
pub proof fn law_bits_come_most_significant_first(bytes: Seq<u8>, byte: u8)
    ensures
        bits_of(Seq::empty()) == Seq::<bool>::empty(),
        bits_of(bytes.push(byte)) == bits_of(bytes) + bits_of_byte(byte),
        bits_of_byte(byte).len() == 8,
        byte == (if bits_of_byte(byte)[0] {
            128int
        } else {
            0
        }) + (if bits_of_byte(byte)[1] {
            64int
        } else {
            0
        }) + (if bits_of_byte(byte)[2] {
            32int
        } else {
            0
        }) + (if bits_of_byte(byte)[3] {
            16int
        } else {
            0
        }) + (if bits_of_byte(byte)[4] {
            8int
        } else {
            0
        }) + (if bits_of_byte(byte)[5] {
            4int
        } else {
            0
        }) + (if bits_of_byte(byte)[6] {
            2int
        } else {
            0
        }) + (if bits_of_byte(byte)[7] {
            1int
        } else {
            0
        }),
{
    reveal(bits_of_byte);
    assert(bytes.push(byte).drop_last() =~= bytes);
}

} // verus!
