//! Internet addresses, as numbers.

use vstd::prelude::*;

pub mod laws;
pub mod shown;
pub mod written;

verus! {

/// An address of either family: its bits as a number, the first byte the most significant.
#[derive(Debug, Clone, Copy, PartialEq, Eq, Structural)]
pub enum IpAddr {
    V4(u32),
    V6(u128),
}

/// An address and a port.
#[derive(Debug, Clone, Copy, PartialEq, Eq, Structural)]
pub struct SocketAddr {
    pub ip: IpAddr,
    pub port: u16,
}

/// The number that bytes spell, the most significant first.
pub open spec fn number(bytes: Seq<u8>) -> nat
    decreases bytes.len(),
{
    if bytes.len() == 0 {
        0
    } else {
        number(bytes.drop_last()) * 256 + bytes.last() as nat
    }
}

/// 256 multiplied by itself.
pub open spec fn pow256(n: nat) -> nat
    decreases n,
{
    if n == 0 {
        1
    } else {
        pow256((n - 1) as nat) * 256
    }
}

/// A number of so many bytes is below 256 to that power.
pub proof fn lemma_number_bound(bytes: Seq<u8>)
    ensures
        number(bytes) < pow256(bytes.len()),
    decreases bytes.len(),
{
    if bytes.len() > 0 {
        lemma_number_bound(bytes.drop_last());
    }
}

/// The first powers of 256.
pub proof fn lemma_pow256()
    ensures
        pow256(4) == 0x1_0000_0000,
        pow256(16) == 0x1_0000_0000_0000_0000_0000_0000_0000_0000,
{
    reveal_with_fuel(pow256, 17);
}

/// The number that at most sixteen bytes spell.
pub fn number_of(bytes: &[u8]) -> (n: u128)
    requires
        bytes@.len() <= 16,
    ensures
        n == number(bytes@),
{
    let mut n: u128 = 0;
    let mut i: usize = 0;
    assert(bytes@.take(0) =~= Seq::<u8>::empty());
    while i < bytes.len()
        invariant
            i <= bytes.len() <= 16,
            n == number(bytes@.take(i as int)),
        decreases bytes.len() - i,
    {
        proof {
            let next = bytes@.take(i + 1);
            assert(next.drop_last() =~= bytes@.take(i as int));
            lemma_number_bound(next);
            lemma_pow256_grows((i + 1) as nat, 16);
            lemma_pow256();
        }
        n = n * 256 + bytes[i] as u128;
        i += 1;
    }
    assert(bytes@.take(i as int) =~= bytes@);
    n
}

/// The last so many bytes of a number, the most significant first.
pub open spec fn octets(n: nat, count: nat) -> Seq<u8>
    decreases count,
{
    if count == 0 {
        Seq::empty()
    } else {
        octets(n / 256, (count - 1) as nat).push((n % 256) as u8)
    }
}

/// The last so many bytes of a number, the most significant first.
pub fn octets_of(n: u128, count: usize) -> (bytes: Vec<u8>)
    ensures
        bytes@ == octets(n as nat, count as nat),
        bytes@.len() == count,
    decreases count,
{
    if count == 0 {
        return Vec::new();
    }
    let mut bytes = octets_of(n / 256, count - 1);
    bytes.push((n % 256) as u8);
    bytes
}

/// As many bytes as are asked for.
pub proof fn lemma_octets_len(n: nat, count: nat)
    ensures
        octets(n, count).len() == count,
    decreases count,
{
    if count > 0 {
        lemma_octets_len(n / 256, (count - 1) as nat);
    }
}

/// The bytes of a number spell it.
pub proof fn law_octets_spell_the_number(n: nat, count: nat)
    requires
        n < pow256(count),
    ensures
        number(octets(n, count)) == n,
    decreases count,
{
    if count > 0 {
        law_octets_spell_the_number(n / 256, (count - 1) as nat);
        assert(octets(n, count).drop_last() =~= octets(n / 256, (count - 1) as nat));
    }
}

/// Bytes are those of the number they spell.
pub proof fn law_a_number_is_its_octets(bytes: Seq<u8>)
    ensures
        octets(number(bytes), bytes.len()) == bytes,
    decreases bytes.len(),
{
    if bytes.len() > 0 {
        law_a_number_is_its_octets(bytes.drop_last());
        assert(octets(number(bytes), bytes.len()) =~= bytes);
    } else {
        assert(octets(number(bytes), bytes.len()) =~= bytes);
    }
}

/// A higher power of 256 is no less.
pub proof fn lemma_pow256_grows(low: nat, high: nat)
    requires
        low <= high,
    ensures
        pow256(low) <= pow256(high),
    decreases high,
{
    if low < high {
        lemma_pow256_grows(low, (high - 1) as nat);
    }
}

} // verus!
