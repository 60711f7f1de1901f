//! Ones'-complement arithmetic over IP headers.
//!
//! One fold serves the IPv4 header checksum, the ICMP checksum and the IPv6 pseudo-header sum.

use vstd::prelude::*;
use crate::wire::be16;

verus! {

/// The plain sum of the big-endian 16-bit words of `bytes`. An odd length is padded on the right
/// with a zero byte.
pub open spec fn word_sum(bytes: Seq<u8>) -> nat
    decreases bytes.len(),
{
    if bytes.len() == 0 {
        0
    } else if bytes.len() == 1 {
        (bytes[0] * 256) as nat
    } else {
        (bytes[0] * 256 + bytes[1]) as nat + word_sum(bytes.skip(2))
    }
}

/// A sum with its carries brought back round until sixteen bits hold it: zero stays zero, and
/// anything else is its residue modulo 65535, written 1 to 65535.
pub open spec fn folded(sum: nat) -> nat {
    if sum == 0 {
        0
    } else {
        ((sum - 1) % 65535 + 1) as nat
    }
}

/// The value a checksum field carries for a given plain sum.
pub open spec fn checksum_of(sum: nat) -> int {
    65535 - folded(sum)
}

/// What an IPv4 header checksum covers: the whole 16-bit words of the header, with the checksum
/// field itself (bytes 10 and 11) read as zero.
pub open spec fn without_checksum(header: Seq<u8>) -> Seq<u8> {
    let words = header.take(header.len() - header.len() % 2);
    if words.len() >= 12 {
        words.update(10, 0).update(11, 0)
    } else {
        words
    }
}

/// A header with `checksum` written into its checksum field.
pub open spec fn with_checksum(header: Seq<u8>, checksum: int) -> Seq<u8> {
    header.update(10, (checksum / 256) as u8).update(11, (checksum % 256) as u8)
}

/// Folding as it goes and folding at the end come to the same.
pub proof fn lemma_folded_add(a: nat, b: nat)
    ensures
        folded(folded(a) + b) == folded(a + b),
        folded(a) <= 65535,
        a <= 65535 ==> folded(a) == a,
{
}

/// Two runs of bytes sum to what they sum to one after the other, when the first is whole words.
pub proof fn lemma_word_sum_concat(a: Seq<u8>, b: Seq<u8>)
    requires
        a.len() % 2 == 0,
    ensures
        word_sum(a + b) == word_sum(a) + word_sum(b),
    decreases a.len(),
{
    if a.len() == 0 {
        assert(a + b =~= b);
    } else {
        assert((a + b).skip(2) =~= a.skip(2) + b);
        lemma_word_sum_concat(a.skip(2), b);
    }
}

/// One word sums to itself.
pub proof fn lemma_word_sum_pair(pair: Seq<u8>)
    requires
        pair.len() == 2,
    ensures
        word_sum(pair) == pair[0] * 256 + pair[1],
{
    reveal_with_fuel(word_sum, 2);
    assert(pair.skip(2).len() == 0);
}

/// A running ones'-complement sum.
///
/// Separate from the fold because the IPv6 pseudo-header is summed from pieces that are never
/// contiguous in memory: two addresses, a length and a next-header byte, then the datagram.
pub struct Sum(u16);

impl Sum {
    /// The sum so far, carries folded in.
    pub closed spec fn total(&self) -> nat {
        self.0 as nat
    }

    /// A sum of nothing.
    pub fn new() -> (sum: Self)
        ensures
            sum.total() == 0,
    {
        Sum(0)
    }

    /// Add a run of bytes. An odd length is padded on the right with a zero byte, as the
    /// definition requires.
    pub fn add(&mut self, bytes: &[u8])
        ensures
            final(self).total() == folded(old(self).total() + word_sum(bytes@)),
    {
        let mut at: usize = 0;
        let ghost start = self.total();
        proof {
            lemma_folded_add(start, 0);
            assert(bytes@.take(0) =~= Seq::<u8>::empty());
        }
        while at + 1 < bytes.len()
            invariant
                at % 2 == 0,
                at <= bytes.len(),
                start == old(self).total(),
                self.total() == folded(start + word_sum(bytes@.take(at as int))),
            decreases bytes.len() - at,
        {
            let word = be16(bytes[at], bytes[at + 1]);
            proof {
                let pair = bytes@.subrange(at as int, at + 2);
                assert(bytes@.take(at + 2) =~= bytes@.take(at as int) + pair);
                lemma_word_sum_concat(bytes@.take(at as int), pair);
                lemma_word_sum_pair(pair);
                lemma_folded_add(start + word_sum(bytes@.take(at as int)), word as nat);
            }
            self.add_word(word);
            at += 2;
        }
        if at < bytes.len() {
            let word = be16(bytes[at], 0);
            proof {
                let last = bytes@.subrange(at as int, at + 1);
                assert(bytes@ =~= bytes@.take(at as int) + last);
                lemma_word_sum_concat(bytes@.take(at as int), last);
                lemma_folded_add(start + word_sum(bytes@.take(at as int)), word as nat);
            }
            self.add_word(word);
        } else {
            assert(bytes@.take(at as int) =~= bytes@);
        }
    }

    fn add_word(&mut self, word: u16)
        ensures
            final(self).total() == folded(old(self).total() + word as nat),
    {
        let sum: u32 = self.0 as u32 + word as u32;
        self.0 = if sum > 65535 { (sum - 65535) as u16 } else { sum as u16 };
    }

    /// The carries folded in and the result inverted: the value a checksum field carries.
    pub fn fold(self) -> (checksum: u16)
        ensures
            checksum == checksum_of(self.total()),
    {
        proof {
            lemma_folded_add(self.total(), 0);
        }
        65535 - self.0
    }
}

impl Default for Sum {
    fn default() -> (sum: Self)
        ensures
            sum.total() == 0,
    {
        Sum::new()
    }
}

/// The checksum of a run of bytes, for a header that carries no checksum field of its own.
pub fn checksum(bytes: &[u8]) -> (checksum: u16)
    ensures
        checksum == checksum_of(word_sum(bytes@)),
{
    let mut sum = Sum::new();
    sum.add(bytes);
    proof {
        lemma_folded_add(word_sum(bytes@), 0);
    }
    sum.fold()
}

/// The IPv4 header checksum: the whole header, with the checksum field itself read as zero.
pub fn ipv4_checksum(header: &[u8]) -> (checksum: u16)
    ensures
        checksum == checksum_of(word_sum(without_checksum(header@))),
{
    let mut sum = Sum::new();
    let mut at: usize = 0;
    let ghost covered = without_checksum(header@);
    assert(covered.take(0) =~= Seq::<u8>::empty());
    while at + 1 < header.len()
        invariant
            at % 2 == 0,
            at <= header.len(),
            covered == without_checksum(header@),
            sum.total() == folded(word_sum(covered.take(at as int))),
        decreases header.len() - at,
    {
        let word = if at == 10 { 0 } else { be16(header[at], header[at + 1]) };
        proof {
            let pair = covered.subrange(at as int, at + 2);
            assert(covered.take(at + 2) =~= covered.take(at as int) + pair);
            lemma_word_sum_concat(covered.take(at as int), pair);
            lemma_word_sum_pair(pair);
            lemma_folded_add(word_sum(covered.take(at as int)), word as nat);
        }
        // Bytes 10..12 are the field being computed.
        sum.add_word(word);
        at += 2;
    }
    proof {
        assert(covered.take(at as int) =~= covered);
        lemma_folded_add(word_sum(covered), 0);
    }
    sum.fold()
}

/// Bytes verify where the sum of their words is a multiple of 65535 and not nothing at all, which is
/// how a receiver in ones' complement finds them whole; and the sum of bytes is that of their words.
pub proof fn law_what_verifies_is_a_multiple(bytes: Seq<u8>)
    ensures
        checksum_of(word_sum(bytes)) == 0 <==> word_sum(bytes) % 65535 == 0 && word_sum(bytes) > 0,
        0 <= checksum_of(word_sum(bytes)) <= 65535,
        (word_sum(bytes) + checksum_of(word_sum(bytes))) % 65535 == 0,
{
}

/// The sum of bytes is the sum of their words, the more significant byte first: a word in front adds
/// itself, and a byte alone at the end counts as the more significant of one.
pub proof fn law_bytes_sum_by_words(high: u8, low: u8, rest: Seq<u8>)
    ensures
        word_sum(seq![high, low] + rest) == high * 256 + low + word_sum(rest),
        word_sum(seq![high]) == high * 256,
        word_sum(Seq::empty()) == 0,
{
    assert((seq![high, low] + rest).skip(2) =~= rest);
}

/// Writing the checksum into a header makes the header verify: summed whole, with its checksum in
/// place, it comes to zero. That is how a receiver checks one.
pub proof fn law_header_verifies(header: Seq<u8>)
    requires
        header.len() % 2 == 0,
        header.len() >= 12,
    ensures
        checksum_of(
            word_sum(
                with_checksum(header, checksum_of(word_sum(without_checksum(header)))),
            ),
        ) == 0,
{
    let sum = word_sum(without_checksum(header));
    let c = checksum_of(sum);
    let sealed = with_checksum(header, c);
    let before = header.take(10);
    let after = header.skip(12);
    let field = seq![(c / 256) as u8, (c % 256) as u8];
    let zero = seq![0u8, 0u8];
    lemma_folded_add(sum, 0);
    assert(sealed =~= before + (field + after));
    assert(header.take(header.len() as int) =~= header);
    assert(without_checksum(header) =~= before + (zero + after));
    lemma_word_sum_concat(before, field + after);
    lemma_word_sum_concat(before, zero + after);
    lemma_word_sum_concat(field, after);
    lemma_word_sum_concat(zero, after);
    lemma_word_sum_pair(field);
    lemma_word_sum_pair(zero);
    assert(word_sum(sealed) == sum + c);
}

} // verus!
