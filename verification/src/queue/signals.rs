//! What the queue reads out of a packet, and the one thing it writes into one.

use vstd::prelude::*;
use crate::ip::{checksum_of, ipv4_checksum, with_checksum, without_checksum, word_sum};
use crate::wire::{be32, be32_spec, high_byte, low_byte};

verus! {

/// How many buckets flows are filed into. Collisions cost fairness between the two flows that
/// collide and nothing else, so this is a memory choice rather than a correctness one.
pub const FLOWS: usize = 64;

/// The IP version a packet says it is, or none for an empty one.
pub open spec fn version(packet: Seq<u8>) -> int {
    if packet.len() == 0 {
        -1
    } else {
        packet[0] as int / 16
    }
}

/// The length an IPv4 header says it has.
pub open spec fn ipv4_header_len(packet: Seq<u8>) -> int {
    (packet[0] as int % 16) * 4
}

/// An IPv4 packet with its fixed header whole.
pub open spec fn is_ipv4(packet: Seq<u8>) -> bool {
    version(packet) == 4 && packet.len() >= 20
}

/// An IPv6 packet with its fixed header whole.
pub open spec fn is_ipv6(packet: Seq<u8>) -> bool {
    version(packet) == 6 && packet.len() >= 40
}

/// Where the transport header starts, and which protocol it is.
pub open spec fn transport_spec(packet: Seq<u8>) -> Option<(int, u8)> {
    if is_ipv4(packet) {
        let header = ipv4_header_len(packet);
        if header >= 20 && packet.len() >= header {
            Some((header, packet[9]))
        } else {
            None
        }
    } else if is_ipv6(packet) {
        Some((40, packet[6]))
    } else {
        None
    }
}

/// The two addresses of a packet, source first.
pub open spec fn addresses(packet: Seq<u8>) -> Seq<u8> {
    if version(packet) == 4 {
        packet.subrange(12, 20)
    } else {
        packet.subrange(8, 40)
    }
}

/// The two ports of a packet whose transport header starts at `at`.
pub open spec fn ports(packet: Seq<u8>, at: int) -> Seq<u8> {
    packet.subrange(at, at + 4)
}

/// Two packets of one connection: the same family, protocol, addresses and ports.
pub open spec fn same_connection_spec(a: Seq<u8>, b: Seq<u8>) -> bool {
    match (transport_spec(a), transport_spec(b)) {
        (Some((a_at, a_proto)), Some((b_at, b_proto))) => {
            &&& a_proto == b_proto
            &&& version(a) == version(b)
            &&& addresses(a) == addresses(b)
            &&& a.len() >= a_at + 4
            &&& b.len() >= b_at + 4
            &&& ports(a, a_at) == ports(b, b_at)
        },
        _ => false,
    }
}

/// The acknowledgement number of a TCP segment with exactly the ACK flag, no options and no
/// payload.
pub open spec fn pure_ack_spec(packet: Seq<u8>) -> Option<u32> {
    match transport_spec(packet) {
        Some((at, proto)) => {
            if proto == 6 && packet.len() == at + 20 && packet[at + 12] == 0x50 && packet[at + 13]
                == 0x10 {
                Some(
                    be32_spec(packet[at + 8], packet[at + 9], packet[at + 10], packet[at + 11]) as u32,
                )
            } else {
                None
            }
        },
        None => None,
    }
}

/// Whether a sender said it would rather be told about congestion than lose the packet, in a
/// packet whose header can be rewritten.
pub open spec fn can_be_marked(packet: Seq<u8>) -> bool {
    if is_ipv4(packet) {
        &&& packet[1] as int % 4 != 0
        &&& packet[1] as int % 4 == 3 || 20 <= ipv4_header_len(packet) <= packet.len()
    } else if is_ipv6(packet) {
        packet[1] as int / 16 % 4 != 0
    } else {
        false
    }
}

/// The packet with the congestion mark set. An IPv4 header that had to change has its checksum
/// put back; an IPv6 header carries none.
pub open spec fn marked(packet: Seq<u8>) -> Seq<u8> {
    if is_ipv4(packet) {
        if packet[1] as int % 4 == 3 {
            packet
        } else {
            let header = ipv4_header_len(packet);
            let changed = packet.update(1, (packet[1] - packet[1] as int % 4 + 3) as u8);
            with_checksum(
                changed,
                checksum_of(word_sum(without_checksum(changed.take(header)))),
            )
        }
    } else {
        packet.update(1, (packet[1] - (packet[1] as int / 16 % 4) * 16 + 48) as u8)
    }
}

/// What tells one flow from another: addresses, protocol and, where there are any, ports.
pub open spec fn five_tuple(packet: Seq<u8>) -> Seq<u8> {
    if is_ipv4(packet) {
        let protocol = packet[9];
        let header = ipv4_header_len(packet);
        packet.subrange(12, 20) + seq![protocol] + if (protocol == 6 || protocol == 17)
            && packet.len() >= header + 4 {
            packet.subrange(header, header + 4)
        } else {
            Seq::empty()
        }
    } else if is_ipv6(packet) {
        let protocol = packet[6];
        packet.subrange(8, 40) + seq![protocol] + if (protocol == 6 || protocol == 17)
            && packet.len() >= 44 {
            packet.subrange(40, 44)
        } else {
            Seq::empty()
        }
    } else {
        seq![0u8]
    }
}

/// The offset basis of 64-bit FNV-1a.
pub const FNV_OFFSET: u64 = 0xcbf2_9ce4_8422_2325;

/// The prime of 64-bit FNV-1a.
pub const FNV_PRIME: u64 = 0x100_0000_01b3;

/// FNV-1a of `bytes`, starting from `hash`.
pub open spec fn fnv(hash: u64, bytes: Seq<u8>) -> u64
    decreases bytes.len(),
{
    if bytes.len() == 0 {
        hash
    } else {
        (fnv(hash, bytes.drop_last()) ^ (bytes.last() as u64)).wrapping_mul(FNV_PRIME)
    }
}

/// The bucket a packet belongs in.
pub open spec fn bucket(packet: Seq<u8>) -> int {
    fnv(FNV_OFFSET, five_tuple(packet)) as int % FLOWS as int
}

/// Hashing one run after another is hashing the two as one.
pub proof fn lemma_fnv_concat(hash: u64, a: Seq<u8>, b: Seq<u8>)
    ensures
        fnv(fnv(hash, a), b) == fnv(hash, a + b),
    decreases b.len(),
{
    if b.len() == 0 {
        assert(a + b =~= a);
    } else {
        assert((a + b).drop_last() =~= a + b.drop_last());
        lemma_fnv_concat(hash, a, b.drop_last());
    }
}

/// The bucket follows the five-tuple and nothing else: packets of one flow are filed together
/// whatever their size and payload.
pub proof fn law_bucket_follows_the_five_tuple(a: Seq<u8>, b: Seq<u8>)
    requires
        five_tuple(a) == five_tuple(b),
    ensures
        bucket(a) == bucket(b),
        0 <= bucket(a) < FLOWS,
{
}

/// Marking a packet that can be marked leaves it marked, of the same length and in the same flow,
/// and marking it again changes nothing.
pub proof fn law_marking_is_idempotent(packet: Seq<u8>)
    requires
        can_be_marked(packet),
    ensures
        can_be_marked(marked(packet)),
        marked(marked(packet)) == marked(packet),
        marked(packet).len() == packet.len(),
        five_tuple(marked(packet)) == five_tuple(packet),
{
    let once = marked(packet);
    let twice = marked(once);
    assert(once[0] == packet[0]);
    if is_ipv6(packet) {
        assert(twice =~= once);
    }
    assert(five_tuple(once) =~= five_tuple(packet));
}

/// An IPv4 header whose mark had to be set verifies afterwards, whatever its checksum was before.
pub proof fn law_marked_header_verifies(packet: Seq<u8>)
    requires
        is_ipv4(packet),
        can_be_marked(packet),
        packet[1] as int % 4 != 3,
    ensures
        checksum_of(word_sum(marked(packet).take(ipv4_header_len(packet)))) == 0,
{
    let header = ipv4_header_len(packet);
    let changed = packet.update(1, (packet[1] - packet[1] as int % 4 + 3) as u8);
    let sum = checksum_of(word_sum(without_checksum(changed.take(header))));
    crate::ip::law_header_verifies(changed.take(header));
    assert(with_checksum(changed, sum).take(header) =~= with_checksum(changed.take(header), sum));
}

/// Marking writes the congestion field and, in IPv4, the header checksum, and nothing else: the field
/// then says that congestion was met. It is done exactly where the sender said that it would rather be
/// told, in a header that is whole.
pub proof fn law_a_mark_is_all_that_changes(packet: Seq<u8>, i: int)
    requires
        0 <= i < packet.len(),
    ensures
        packet[0] / 16 == 4 && packet.len() >= 20 ==> (can_be_marked(packet) <==> packet[1] % 4 == 3
            || (packet[1] % 4 != 0 && 5 <= packet[0] % 16 && (packet[0] % 16) * 4 <= packet.len())),
        packet[0] / 16 == 6 && packet.len() >= 40 ==> (can_be_marked(packet) <==> packet[1] / 16 % 4
            != 0),
        can_be_marked(packet) ==> {
            let told = marked(packet);
            &&& packet[0] / 16 == 4 || packet[0] / 16 == 6
            &&& told.len() == packet.len()
            &&& packet[0] / 16 == 4 ==> packet.len() >= 20 && told[1] % 4 == 3 && told[1] / 4
                == packet[1] / 4 && (i != 1 && i != 10 && i != 11 ==> told[i] == packet[i])
            &&& packet[0] / 16 == 6 ==> packet.len() >= 40 && told[1] / 16 % 4 == 3 && told[1] % 16
                == packet[1] % 16 && told[1] / 64 == packet[1] / 64 && (i != 1 ==> told[i]
                == packet[i])
        },
{
}

/// Packets of one connection are filed together, whatever else is in them: the same addresses, the
/// same protocol and, where that has them, the same ports. IPv4 headers may differ in length.
pub proof fn law_one_connection_has_one_bucket(a: Seq<u8>, b: Seq<u8>)
    requires
        a.len() > 0,
        b.len() > 0,
        a[0] / 16 == b[0] / 16,
        (a[0] / 16 == 4 && a.len() >= (a[0] % 16) * 4 + 4 && b.len() >= (b[0] % 16) * 4 + 4 && a.len()
            >= 20 && b.len() >= 20 && a[9] == b[9] && a.subrange(12, 20) == b.subrange(12, 20)
            && a.subrange((a[0] % 16) * 4, (a[0] % 16) * 4 + 4) == b.subrange(
            (b[0] % 16) * 4,
            (b[0] % 16) * 4 + 4,
        )) || (a[0] / 16 == 6 && a.len() >= 44 && b.len() >= 44 && a[6] == b[6] && a.subrange(
            8,
            44,
        ) == b.subrange(8, 44)),
    ensures
        bucket(a) == bucket(b),
{
    if a[0] / 16 == 6 {
        assert(a.subrange(8, 40) =~= a.subrange(8, 44).take(32));
        assert(b.subrange(8, 40) =~= b.subrange(8, 44).take(32));
        assert(a.subrange(40, 44) =~= a.subrange(8, 44).skip(32));
        assert(b.subrange(40, 44) =~= b.subrange(8, 44).skip(32));
    }
}

/// Connections that differ only in the port they go to, by less than there are buckets, are told
/// apart: TCP and UDP packets of one pair of hosts, from one port, to ports that differ in the low six
/// bits of their last byte.
pub proof fn law_neighbouring_ports_have_their_own_buckets(a: Seq<u8>, port: u8)
    requires
        a.len() > 0,
        a[0] / 16 == 4 && a.len() >= 20 && a.len() >= (a[0] % 16) * 4 + 4 && a[0] % 16 >= 5 && (a[9]
            == 6 || a[9] == 17) || a[0] / 16 == 6 && a.len() >= 44 && (a[6] == 6 || a[6] == 17),
        port % 64 != a[if a[0] / 16 == 4 {
            (a[0] % 16) * 4 + 3
        } else {
            43
        }] % 64,
    ensures
        bucket(a) != bucket(
            a.update(
                if a[0] / 16 == 4 {
                    (a[0] % 16) * 4 + 3
                } else {
                    43
                },
                port,
            ),
        ),
{
    let at = if a[0] / 16 == 4 {
        (a[0] % 16) * 4 + 3
    } else {
        43
    };
    let b = a.update(at, port);
    let from = five_tuple(a);
    let to = five_tuple(b);
    assert(from.drop_last() =~= to.drop_last());
    assert(from.last() == a[at]);
    assert(to.last() == port);
    let before = fnv(FNV_OFFSET, from.drop_last());
    lemma_last_byte_counts(before, a[at], port);
}

/// The last byte that is hashed decides the low six bits, whatever was hashed before it.
#[verifier::spinoff_prover]
proof fn lemma_last_byte_counts(before: u64, a: u8, b: u8)
    requires
        a % 64 != b % 64,
    ensures
        (before ^ (a as u64)).wrapping_mul(FNV_PRIME) % 64 != (before ^ (b as u64)).wrapping_mul(
            FNV_PRIME,
        ) % 64,
{
    let x = before ^ (a as u64);
    let y = before ^ (b as u64);
    lemma_low_bits_differ(before, a as u64, b as u64);
    lemma_prime_keeps(x);
    lemma_prime_keeps(y);
    lemma_fifty_one(x as int % 64, y as int % 64);
}

/// 51 times 59 is 1 modulo 64: what differs there still differs once it is multiplied by 51.
proof fn lemma_fifty_one(p: int, r: int)
    requires
        0 <= p < 64,
        0 <= r < 64,
        p != r,
    ensures
        p * 51 % 64 != r * 51 % 64,
{
    let i = p * 51 / 64;
    let j = r * 51 / 64;
    if p * 51 % 64 == r * 51 % 64 {
        assert((p - r) * 51 == 64 * (i - j));
        let k = 59 * (i - j) - 47 * (p - r);
        assert(p - r == 64 * k);
        assert(k == 0);
    }
}

proof fn lemma_low_bits_differ(before: u64, a: u64, b: u64)
    by (bit_vector)
    requires
        a % 64 != b % 64,
    ensures
        (before ^ a) % 64 != (before ^ b) % 64,
{
}

/// Modulo 64 the prime multiplies by 51.
#[verifier::spinoff_prover]
proof fn lemma_prime_keeps(x: u64)
    ensures
        x.wrapping_mul(FNV_PRIME) as int % 64 == (x as int % 64) * 51 % 64,
{
    let wrapped = x.wrapping_mul(FNV_PRIME) as int;
    let product = x * 0x100_0000_01b3;
    assert(wrapped == product % 0x1_0000_0000_0000_0000);
    let over = product / 0x1_0000_0000_0000_0000;
    assert(product == over * 0x1_0000_0000_0000_0000 + wrapped);
    let high = x as int / 64;
    let low = x as int % 64;
    let rest = high * 0x100_0000_01b3 + low * 17179869190;
    assert(product == 64 * rest + low * 51);
    assert(wrapped == 64 * (rest - over * 0x400_0000_0000_0000) + low * 51);
}

fn equal_bytes(a: &[u8], a_from: usize, b: &[u8], b_from: usize, len: usize) -> (equal: bool)
    requires
        a_from + len <= a.len(),
        b_from + len <= b.len(),
    ensures
        equal == (a@.subrange(a_from as int, a_from + len) == b@.subrange(
            b_from as int,
            b_from + len,
        )),
{
    let ghost left = a@.subrange(a_from as int, a_from + len);
    let ghost right = b@.subrange(b_from as int, b_from + len);
    let mut i: usize = 0;
    while i < len
        invariant
            i <= len,
            a_from + len <= a.len(),
            b_from + len <= b.len(),
            left == a@.subrange(a_from as int, a_from + len),
            right == b@.subrange(b_from as int, b_from + len),
            forall|j: int| 0 <= j < i ==> left[j] == right[j],
        decreases len - i,
    {
        if a[a_from + i] != b[b_from + i] {
            assert(left[i as int] != right[i as int]);
            return false;
        }
        i += 1;
    }
    assert(left =~= right);
    true
}

/// Where the transport header starts, and which protocol it is, for a packet this queue can read.
///
/// IPv6 extension headers are not walked: a packet carrying them is reported as unreadable rather
/// than guessed at, which costs it the treatment below and nothing else.
pub fn transport(packet: &[u8]) -> (found: Option<(usize, u8)>)
    ensures
        match found {
            Some((at, proto)) => transport_spec(packet@) == Some((at as int, proto)) && at
                <= packet.len(),
            None => transport_spec(packet@) is None,
        },
{
    if packet.len() == 0 {
        return None;
    }
    let version = packet[0] / 16;
    if version == 4 && packet.len() >= 20 {
        let header: usize = (packet[0] % 16) as usize * 4;
        if header >= 20 && packet.len() >= header {
            Some((header, packet[9]))
        } else {
            None
        }
    } else if version == 6 && packet.len() >= 40 {
        Some((40, packet[6]))
    } else {
        None
    }
}

/// Whether two packets belong to the same connection, compared rather than assumed: buckets are
/// shared by hashing, so two connections can be sitting in one.
pub fn same_connection(a: &[u8], b: &[u8]) -> (same: bool)
    ensures
        same == same_connection_spec(a@, b@),
{
    match (transport(a), transport(b)) {
        (Some((a_at, a_proto)), Some((b_at, b_proto))) => {
            if a_proto != b_proto || a[0] / 16 != b[0] / 16 {
                return false;
            }
            let same_addresses = if a[0] / 16 == 4 {
                equal_bytes(a, 12, b, 12, 8)
            } else {
                equal_bytes(a, 8, b, 8, 32)
            };
            same_addresses && a.len() - a_at >= 4 && b.len() - b_at >= 4 && equal_bytes(
                a,
                a_at,
                b,
                b_at,
                4,
            )
        },
        _ => false,
    }
}

/// The acknowledgement number of a packet that is an acknowledgement and nothing else.
///
/// Deliberately strict. Exactly the ACK flag: a packet also carrying SYN, FIN, RST, PUSH or either
/// congestion flag is saying something of its own. No payload. And no options, which keeps
/// selective acknowledgements and timestamps out of reach of anything that acts on this.
pub fn pure_ack(packet: &[u8]) -> (acked: Option<u32>)
    ensures
        acked == pure_ack_spec(packet@),
{
    match transport(packet) {
        Some((at, proto)) => {
            if proto != 6 || packet.len() - at != 20 {
                return None;
            }
            if packet[at + 12] != 0x50 || packet[at + 13] != 0x10 {
                return None;
            }
            Some(be32(packet[at + 8], packet[at + 9], packet[at + 10], packet[at + 11]))
        },
        None => None,
    }
}

/// Set the congestion mark, and say whether the packet was willing to carry it.
///
/// A sender that left the field at zero has not asked to be told this way, and marking it would be
/// a signal nothing reads: the packet has to be dropped instead.
pub fn mark_congestion(packet: &mut [u8]) -> (willing: bool)
    ensures
        willing == can_be_marked(old(packet)@),
        final(packet)@ == if willing {
            marked(old(packet)@)
        } else {
            old(packet)@
        },
{
    if packet.len() == 0 {
        return false;
    }
    let version = packet[0] / 16;
    if version == 4 && packet.len() >= 20 {
        // The low two bits of the type-of-service byte, and a header checksum to put back.
        let told = packet[1] % 4;
        if told == 0 {
            return false;
        }
        if told == 3 {
            return true;
        }
        let header: usize = (packet[0] % 16) as usize * 4;
        if header < 20 || packet.len() < header {
            return false;
        }
        packet[1] = packet[1] - told + 3;
        let sum = ipv4_checksum(vstd::slice::slice_subrange(packet, 0, header));
        assert(packet@.take(header as int) =~= packet@.subrange(0, header as int));
        packet[10] = high_byte(sum);
        packet[11] = low_byte(sum);
        true
    } else if version == 6 && packet.len() >= 40 {
        // The traffic class straddles two bytes; its low two bits are bits 4 and 5 of the second.
        // Nothing to recompute: an IPv6 header carries no checksum of its own.
        let told = packet[1] / 16 % 4;
        if told == 0 {
            return false;
        }
        packet[1] = packet[1] - told * 16 + 48;
        true
    } else {
        false
    }
}

fn eat(hash: u64, bytes: &[u8], from: usize, to: usize) -> (eaten: u64)
    requires
        from <= to <= bytes.len(),
    ensures
        eaten == fnv(hash, bytes@.subrange(from as int, to as int)),
{
    let mut eaten: u64 = hash;
    let mut at: usize = from;
    assert(bytes@.subrange(from as int, from as int) =~= Seq::<u8>::empty());
    while at < to
        invariant
            from <= at <= to <= bytes.len(),
            eaten == fnv(hash, bytes@.subrange(from as int, at as int)),
        decreases to - at,
    {
        eaten = (eaten ^ (bytes[at] as u64)).wrapping_mul(FNV_PRIME);
        at += 1;
        assert(bytes@.subrange(from as int, at as int).drop_last() =~= bytes@.subrange(
            from as int,
            at - 1,
        ));
    }
    eaten
}

/// Which bucket a packet belongs in: its 5-tuple, hashed.
///
/// Extension headers on IPv6 are not walked. Getting the ports wrong for those files a flow under
/// the wrong bucket, which costs fairness between two flows and nothing else, and the packets of
/// one flow still hash alike, which is the property that matters.
pub fn flow_of(packet: &[u8]) -> (idx: usize)
    ensures
        idx == bucket(packet@),
        idx < FLOWS,
{
    let version: u8 = if packet.len() == 0 { 0 } else { packet[0] / 16 };
    let hash: u64;
    if version == 4 && packet.len() >= 20 {
        let protocol = packet[9];
        let header: usize = (packet[0] % 16) as usize * 4;
        let with_addresses = eat(FNV_OFFSET, packet, 12, 20);
        let with_protocol = eat(with_addresses, packet, 9, 10);
        let ghost key = packet@.subrange(12, 20) + seq![protocol];
        proof {
            assert(packet@.subrange(9, 10) =~= seq![protocol]);
            lemma_fnv_concat(FNV_OFFSET, packet@.subrange(12, 20), seq![protocol]);
        }
        if (protocol == 6 || protocol == 17) && packet.len() >= header + 4 {
            hash = eat(with_protocol, packet, header, header + 4);
            proof {
                lemma_fnv_concat(
                    FNV_OFFSET,
                    key,
                    packet@.subrange(header as int, header + 4),
                );
            }
        } else {
            hash = with_protocol;
            assert(key + Seq::<u8>::empty() =~= key);
        }
    } else if version == 6 && packet.len() >= 40 {
        let protocol = packet[6];
        let with_addresses = eat(FNV_OFFSET, packet, 8, 40);
        let with_protocol = eat(with_addresses, packet, 6, 7);
        let ghost key = packet@.subrange(8, 40) + seq![protocol];
        proof {
            assert(packet@.subrange(6, 7) =~= seq![protocol]);
            lemma_fnv_concat(FNV_OFFSET, packet@.subrange(8, 40), seq![protocol]);
        }
        if (protocol == 6 || protocol == 17) && packet.len() >= 44 {
            hash = eat(with_protocol, packet, 40, 44);
            proof {
                lemma_fnv_concat(FNV_OFFSET, key, packet@.subrange(40, 44));
            }
        } else {
            hash = with_protocol;
            assert(key + Seq::<u8>::empty() =~= key);
        }
    } else {
        // Not IP, or too short to read. One bucket for all of them: they are rare, and giving them
        // their own fair share is not worth a second rule.
        let zero: [u8; 1] = [0];
        hash = eat(FNV_OFFSET, &zero, 0, 1);
        assert(zero@.subrange(0, 1) =~= seq![0u8]);
    }
    (hash % FLOWS as u64) as usize
}

/// Two packets are of one connection exactly where they are of one version and one protocol, between
/// the same two addresses in the same direction, and from and to the same ports, wherever in them the
/// ports stand. What is too short to have ports is of none.
pub proof fn law_a_connection_is_its_addresses_protocol_and_ports(a: Seq<u8>, b: Seq<u8>)
    requires
        a.len() > 0,
        b.len() > 0,
    ensures
        ({
            let x = (a[0] % 16) * 4;
            let y = (b[0] % 16) * 4;
            a[0] / 16 == 4 && b[0] / 16 == 4 && x >= 20 && y >= 20 && a.len() >= x && b.len() >= y
                ==> (same_connection_spec(a, b) <==> a.len() >= x + 4 && b.len() >= y + 4 && a[9]
                == b[9] && a.subrange(12, 16) == b.subrange(12, 16) && a.subrange(16, 20)
                == b.subrange(16, 20) && a[x] == b[y] && a[x + 1] == b[y + 1] && a[x + 2] == b[y + 2]
                && a[x + 3] == b[y + 3])
        }),
        a[0] / 16 == 6 && b[0] / 16 == 6 && a.len() >= 40 && b.len() >= 40 ==> (
        same_connection_spec(a, b) <==> a.len() >= 44 && b.len() >= 44 && a[6] == b[6] && a.subrange(
            8,
            24,
        ) == b.subrange(8, 24) && a.subrange(24, 40) == b.subrange(24, 40) && a[40] == b[40] && a[41]
            == b[41] && a[42] == b[42] && a[43] == b[43]),
        a[0] / 16 != b[0] / 16 ==> !same_connection_spec(a, b),
        a[0] / 16 != 4 && a[0] / 16 != 6 ==> !same_connection_spec(a, b),
{
    let x = (a[0] % 16) * 4;
    let y = (b[0] % 16) * 4;
    if a[0] / 16 == 4 && b[0] / 16 == 4 && x >= 20 && y >= 20 && a.len() >= x && b.len() >= y {
        lemma_halves(a, b, 12, 16, 20);
        if a.len() >= x + 4 && b.len() >= y + 4 {
            lemma_four_same(a, b, x, y);
        }
    }
    if a[0] / 16 == 6 && b[0] / 16 == 6 && a.len() >= 40 && b.len() >= 40 {
        lemma_halves(a, b, 8, 24, 40);
        if a.len() >= 44 && b.len() >= 44 {
            lemma_four_same(a, b, 40, 40);
        }
    }
}

proof fn lemma_halves(a: Seq<u8>, b: Seq<u8>, from: int, middle: int, to: int)
    requires
        0 <= from <= middle <= to <= a.len(),
        to <= b.len(),
    ensures
        a.subrange(from, to) == b.subrange(from, to) <==> a.subrange(from, middle) == b.subrange(
            from,
            middle,
        ) && a.subrange(middle, to) == b.subrange(middle, to),
{
    if a.subrange(from, to) == b.subrange(from, to) {
        assert(a.subrange(from, middle) =~= a.subrange(from, to).take(middle - from));
        assert(b.subrange(from, middle) =~= b.subrange(from, to).take(middle - from));
        assert(a.subrange(middle, to) =~= a.subrange(from, to).skip(middle - from));
        assert(b.subrange(middle, to) =~= b.subrange(from, to).skip(middle - from));
    }
    if a.subrange(from, middle) == b.subrange(from, middle) && a.subrange(middle, to) == b.subrange(
        middle,
        to,
    ) {
        assert(a.subrange(from, to) =~= a.subrange(from, middle) + a.subrange(middle, to));
        assert(b.subrange(from, to) =~= b.subrange(from, middle) + b.subrange(middle, to));
    }
}

proof fn lemma_four_same(a: Seq<u8>, b: Seq<u8>, x: int, y: int)
    requires
        0 <= x <= x + 4 <= a.len(),
        0 <= y <= y + 4 <= b.len(),
    ensures
        a.subrange(x, x + 4) == b.subrange(y, y + 4) <==> a[x] == b[y] && a[x + 1] == b[y + 1] && a[x
            + 2] == b[y + 2] && a[x + 3] == b[y + 3],
{
    let left = a.subrange(x, x + 4);
    let right = b.subrange(y, y + 4);
    if left == right {
        assert(left[0] == right[0] && left[1] == right[1] && left[2] == right[2] && left[3]
            == right[3]);
    }
    if a[x] == b[y] && a[x + 1] == b[y + 1] && a[x + 2] == b[y + 2] && a[x + 3] == b[y + 3] {
        assert(left =~= right);
    }
}

} // verus!
