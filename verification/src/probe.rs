//! Measuring whether the tunnel carries IPv6.
//!
//! Assuming it does is the expensive mistake. Nothing here resolves on a program's behalf: the
//! operating system races the address families itself, using the routing table to decide what is
//! reachable. A v6 prefix routed into a tunnel that drops v6 tells it the faster-looking path exists,
//! and every connection then waits out its own fallback.
//!
//! One DNS query over the live tunnel is the smallest exchange that proves the path: one datagram
//! out, one back, no handshake state.
//!
//! The UDP checksum below is computed rather than zeroed. Over IPv6 it is not optional, and a
//! datagram carrying a wrong one is discarded without a reply.

use vstd::prelude::*;
use vstd::string::StringSliceAdditionalSpecFns;
use crate::address::{lemma_octets_len, lemma_pow256, number, number_of, octets, octets_of};
use crate::ip::{
    checksum_of, lemma_folded_add, lemma_word_sum_concat, lemma_word_sum_pair, word_sum, Sum,
};
use crate::wire::{be16, be16_bytes, be16_spec, high_byte, low_byte};

pub mod laws;

verus! {

/// How long to wait for the answer before deciding there is none, in milliseconds.
///
/// Short: this runs between the tunnel coming up and traffic starting to move. An exit that has not
/// answered in two seconds is not an exit that is about to.
pub const PROBE_TIMEOUT: u64 = 2000;

/// Who is asked: 2606:4700:4700::1111. A resolver reachable over IPv6 from anywhere the tunnel could
/// plausibly exit, and one the endpoint operates itself, so the answer describes the tunnel rather
/// than the internet.
pub const PROBE_RESOLVER: u128 = 0x2606_4700_4700_0000_0000_0000_0000_1111;

/// The name asked about. Any name would do; this one is short, and it is the endpoint's own.
pub const PROBE_NAME: &'static str = "cloudflare.com";

/// The source port. Arbitrary, and only ever compared against what comes back.
pub const PROBE_PORT: u16 = 40_001;

/// Next-header value for UDP, in both the header and the checksum's pseudo-header.
pub const NEXT_HEADER_UDP: u8 = 17;

/// Where the first dot from a place on stands, or where the name ends.
pub open spec fn first_dot(name: Seq<u8>, from: int) -> int
    decreases name.len() - from,
{
    if from >= name.len() || name[from] == 0x2e {
        from
    } else {
        first_dot(name, from + 1)
    }
}

/// The labels of a name from a place on, each behind its length.
pub open spec fn labels_from(name: Seq<u8>, from: int) -> Seq<u8>
    decreases name.len() - from,
{
    let dot = first_dot(name, from);
    let label = seq![((dot - from) % 256) as u8] + name.subrange(from, dot);
    if 0 <= from <= dot < name.len() {
        label + labels_from(name, dot + 1)
    } else {
        label
    }
}

/// A minimal A-record query for a name, given as its bytes.
pub open spec fn query_for(name: Seq<u8>) -> Seq<u8> {
    seq![0x2au8, 0x2a, 0x01, 0x00, 0, 1, 0, 0, 0, 0, 0, 0] + labels_from(name, 0) + seq![
        0u8,
        0,
        1,
        0,
        1,
    ]
}

proof fn lemma_first_dot(name: Seq<u8>, from: int)
    requires
        0 <= from <= name.len(),
    ensures
        from <= first_dot(name, from) <= name.len(),
        first_dot(name, from) < name.len() ==> name[first_dot(name, from)] == 0x2e,
        forall|i: int| from <= i < first_dot(name, from) ==> name[i] != 0x2e,
    decreases name.len() - from,
{
    if from < name.len() && name[from] != 0x2e {
        lemma_first_dot(name, from + 1);
    }
}

/// A minimal A-record query. The transaction id is fixed: nothing here reads it back, and the
/// question being asked is whether a packet returns at all.
pub fn dns_query(name: &str) -> (query: Vec<u8>)
    ensures
        query@ == query_for(name.spec_bytes()),
{
    let bytes = name.as_bytes();
    let mut query: Vec<u8> = vec![0x2a, 0x2a, 0x01, 0x00, 0, 1, 0, 0, 0, 0, 0, 0];
    let ghost head = query@;
    let mut from: usize = 0;
    loop
        invariant_except_break
            query@ + labels_from(bytes@, from as int) == head + labels_from(bytes@, 0),
        invariant
            bytes@ == name.spec_bytes(),
            from <= bytes@.len(),
        ensures
            query@ == head + labels_from(bytes@, 0),
        decreases bytes@.len() - from,
    {
        let ghost before = query@;
        let total: usize = bytes.len();
        let mut dot: usize = from;
        proof {
            lemma_first_dot(bytes@, from as int);
        }
        while dot < total && bytes[dot] != 0x2e
            invariant
                from <= dot <= total == bytes@.len(),
                first_dot(bytes@, from as int) == first_dot(bytes@, dot as int),
            decreases total - dot,
        {
            dot += 1;
        }
        query.push(((dot - from) % 256) as u8);
        let label = vstd::slice::slice_subrange(bytes, from, dot);
        query.extend_from_slice(label);
        proof {
            let label = seq![((dot - from) % 256) as u8] + bytes@.subrange(
                from as int,
                dot as int,
            );
            assert(query@ =~= before + label);
            if dot < total {
                assert(query@ + labels_from(bytes@, dot + 1) =~= before + (label + labels_from(
                    bytes@,
                    dot + 1,
                )));
            }
        }
        if dot == total {
            break;
        }
        from = dot + 1;
    }
    query.push(0);
    query.push(0);
    query.push(1);
    query.push(0);
    query.push(1);
    assert(query@ =~= query_for(name.spec_bytes()));
    query
}

/// What the checksum covers before the datagram: the two addresses, the length and the next header.
/// It is not transmitted; it exists so that a datagram delivered to the wrong address fails to verify
/// rather than being accepted by whoever received it.
pub open spec fn pseudo_header(source: u128, destination: u128, len: nat) -> Seq<u8> {
    octets(source as nat, 16) + octets(destination as nat, 16) + octets(len, 4) + seq![
        0u8,
        0,
        0,
        NEXT_HEADER_UDP,
    ]
}

/// The UDP checksum over IPv6. Zero would mean "no checksum", which over IPv6 is not a thing a
/// sender may say, and the all-ones form stands for a checksum that computes to zero.
pub open spec fn udp_checksum_of(source: u128, destination: u128, datagram: Seq<u8>) -> int {
    let sum = word_sum(pseudo_header(source, destination, datagram.len())) + word_sum(datagram);
    if checksum_of(sum) == 0 {
        0xffff
    } else {
        checksum_of(sum)
    }
}

proof fn lemma_pseudo_header(source: u128, destination: u128, len: nat)
    ensures
        pseudo_header(source, destination, len).len() == 40,
        word_sum(pseudo_header(source, destination, len)) == word_sum(octets(source as nat, 16))
            + word_sum(octets(destination as nat, 16)) + word_sum(octets(len, 4)) + word_sum(
            seq![0u8, 0, 0, NEXT_HEADER_UDP],
        ),
{
    let a = octets(source as nat, 16);
    let b = octets(destination as nat, 16);
    let c = octets(len, 4);
    lemma_octets_len(source as nat, 16);
    lemma_octets_len(destination as nat, 16);
    lemma_octets_len(len, 4);
    lemma_word_sum_concat(a, b);
    lemma_word_sum_concat(a + b, c);
    lemma_word_sum_concat(a + b + c, seq![0u8, 0, 0, NEXT_HEADER_UDP]);
}

/// The UDP checksum over IPv6: the pseudo-header, then the datagram.
pub fn udp_checksum(source: u128, destination: u128, datagram: &[u8]) -> (checksum: u16)
    ensures
        checksum == udp_checksum_of(source, destination, datagram@),
{
    let from = octets_of(source, 16);
    let to = octets_of(destination, 16);
    let len = octets_of(datagram.len() as u128, 4);
    let next: [u8; 4] = [0, 0, 0, NEXT_HEADER_UDP];
    let mut sum = Sum::new();
    sum.add(from.as_slice());
    sum.add(to.as_slice());
    sum.add(len.as_slice());
    sum.add(next.as_slice());
    sum.add(datagram);
    proof {
        let a = word_sum(from@);
        let b = word_sum(to@);
        let c = word_sum(len@);
        let d = word_sum(next@);
        let e = word_sum(datagram@);
        assert(next@ =~= seq![0u8, 0, 0, NEXT_HEADER_UDP]);
        lemma_folded_add(a, b);
        lemma_folded_add(a + b, c);
        lemma_folded_add(a + b + c, d);
        lemma_folded_add(a + b + c + d, e);
        lemma_folded_add(a + b + c + d + e, 0);
        lemma_pseudo_header(source, destination, datagram@.len());
    }
    let folded = sum.fold();
    if folded == 0 {
        0xffff
    } else {
        folded
    }
}

/// A UDP datagram to a resolver, its checksum not yet in place.
pub open spec fn unsealed(port: u16, query: Seq<u8>) -> Seq<u8> {
    be16_bytes(port as int) + be16_bytes(53) + be16_bytes((8 + query.len() as int) % 65536) + seq![
        0u8,
        0,
    ] + query
}

/// A datagram with its checksum in place.
pub open spec fn sealed(datagram: Seq<u8>, checksum: int) -> Seq<u8> {
    datagram.update(6, (checksum / 256) as u8).update(7, (checksum % 256) as u8)
}

/// An IPv6 packet carrying a UDP DNS query: no traffic class, no flow label, sixty-four hops.
pub open spec fn query_packet(source: u128, destination: u128, port: u16, name: Seq<u8>) -> Seq<
    u8,
> {
    let plain = unsealed(port, query_for(name));
    seq![0x60u8, 0, 0, 0] + be16_bytes((plain.len() as int) % 65536) + seq![
        NEXT_HEADER_UDP,
        64u8,
    ] + octets(source as nat, 16) + octets(destination as nat, 16) + sealed(
        plain,
        udp_checksum_of(source, destination, plain),
    )
}

/// Put a number of two bytes behind what is there.
fn push_be16(out: &mut Vec<u8>, value: u16)
    ensures
        final(out)@ == old(out)@ + be16_bytes(value as int),
{
    out.push(high_byte(value));
    out.push(low_byte(value));
    assert(out@ =~= old(out)@ + be16_bytes(value as int));
}

/// An IPv6 packet carrying a UDP DNS query.
///
/// The checksum is computed and not skipped. Over IPv4 a zero UDP checksum means "not computed" and
/// is accepted; over IPv6 there is no such licence, and a datagram with the wrong one is dropped
/// silently, which would read here as "the tunnel does not carry v6", and would be wrong.
pub fn dns_over_ipv6(source: u128, destination: u128, port: u16, name: &str) -> (packet: Vec<u8>)
    requires
        name.spec_bytes().len() <= usize::MAX / 4,
    ensures
        packet@ == query_packet(source, destination, port, name.spec_bytes()),
{
    let query = dns_query(name);
    let mut udp: Vec<u8> = Vec::new();
    proof {
        lemma_labels_len(name.spec_bytes(), 0);
    }
    let udp_len: u16 = ((8 + query.len()) % 65536) as u16;
    push_be16(&mut udp, port);
    push_be16(&mut udp, 53);
    push_be16(&mut udp, udp_len);
    udp.push(0);
    udp.push(0);
    udp.extend_from_slice(query.as_slice());
    let ghost plain = unsealed(port, query@);
    assert(udp@ =~= plain);
    let checksum = udp_checksum(source, destination, udp.as_slice());
    udp[6] = high_byte(checksum);
    udp[7] = low_byte(checksum);
    assert(udp@ =~= sealed(plain, checksum as int));

    let from = octets_of(source, 16);
    let to = octets_of(destination, 16);
    let mut packet: Vec<u8> = vec![0x60, 0, 0, 0];
    push_be16(&mut packet, udp_len);
    packet.push(NEXT_HEADER_UDP);
    packet.push(64);
    packet.extend_from_slice(from.as_slice());
    packet.extend_from_slice(to.as_slice());
    packet.extend_from_slice(udp.as_slice());
    assert(packet@ =~= query_packet(source, destination, port, name.spec_bytes()));
    packet
}

/// The labels of a name take one byte more than the name.
pub proof fn lemma_labels_len(name: Seq<u8>, from: int)
    requires
        0 <= from <= name.len(),
    ensures
        labels_from(name, from).len() == name.len() - from + 1,
    decreases name.len() - from,
{
    lemma_first_dot(name, from);
    let dot = first_dot(name, from);
    if dot < name.len() {
        lemma_labels_len(name, dot + 1);
    }
}

/// Whether a packet is a UDP datagram over IPv6 to an address and a port.
pub open spec fn answers_to(packet: Seq<u8>, us: u128, port: u16) -> bool {
    &&& packet.len() >= 48
    &&& packet[0] / 16 == 6
    &&& packet[6] == NEXT_HEADER_UDP
    &&& number(packet.subrange(24, 40)) == us
    &&& be16_spec(packet[42], packet[43]) == port
}

/// Whether a packet is a UDP datagram addressed back to us on the port we asked from.
pub fn is_reply_to(packet: &[u8], us: u128, port: u16) -> (reply: bool)
    ensures
        reply == answers_to(packet@, us, port),
{
    // Forty bytes of header, eight of UDP.
    if packet.len() < 48 || packet[0] / 16 != 6 || packet[6] != NEXT_HEADER_UDP {
        return false;
    }
    if number_of(vstd::slice::slice_subrange(packet, 24, 40)) != us {
        return false;
    }
    be16(packet[42], packet[43]) == port
}

/// What a wait for the answer came to.
#[derive(Debug)]
pub enum Waited {
    /// A packet came.
    Packet(Vec<u8>),
    /// The tunnel closed or failed, or the time is over.
    Nothing,
}

/// Whether the tunnel carries IPv6, or `None` while that is still open.
///
/// Something else coming back is not an answer either way: the deadline, not the packet, is what
/// ends the wait. A false answer is not a failure of the tunnel. Plenty of exits carry v4 only, and
/// the right response is to leave v6 on the line rather than to refuse to run.
pub fn carries_ipv6(waited: &Waited, source: u128) -> (carries: Option<bool>)
    ensures
        carries == match *waited {
            Waited::Packet(packet) => if answers_to(packet@, source, PROBE_PORT) {
                Some(true)
            } else {
                None
            },
            Waited::Nothing => Some(false),
        },
{
    match waited {
        Waited::Packet(packet) => if is_reply_to(packet.as_slice(), source, PROBE_PORT) {
            Some(true)
        } else {
            None
        },
        Waited::Nothing => Some(false),
    }
}

/// The checksum makes the datagram verify: summed with the pseudo-header, as the receiver sums it,
/// it comes to all ones. And it is never zero.
pub proof fn law_the_datagram_verifies(source: u128, destination: u128, port: u16, query: Seq<u8>)
    ensures
        ({
            let plain = unsealed(port, query);
            let checksum = udp_checksum_of(source, destination, plain);
            let datagram = sealed(plain, checksum);
            &&& 0 < checksum <= 0xffff
            &&& datagram.len() == plain.len()
            &&& checksum_of(
                word_sum(pseudo_header(source, destination, datagram.len()) + datagram),
            ) == 0
        }),
{
    let plain = unsealed(port, query);
    let checksum = udp_checksum_of(source, destination, plain);
    let datagram = sealed(plain, checksum);
    let pseudo = pseudo_header(source, destination, plain.len());
    lemma_pseudo_header(source, destination, plain.len());
    lemma_word_sum_concat(pseudo, datagram);
    let before = plain.take(6);
    let after = plain.skip(8);
    let zero = seq![0u8, 0u8];
    let sum = word_sum(pseudo) + word_sum(plain);
    lemma_folded_add(sum, 0);
    let field = seq![(checksum / 256) as u8, (checksum % 256) as u8];
    assert(plain =~= before + (zero + after));
    assert(datagram =~= before + (field + after));
    lemma_word_sum_concat(before, zero + after);
    lemma_word_sum_concat(before, field + after);
    lemma_word_sum_concat(zero, after);
    lemma_word_sum_concat(field, after);
    lemma_word_sum_pair(zero);
    lemma_word_sum_pair(field);
    assert(word_sum(datagram) == word_sum(plain) + checksum);
}

/// A datagram sent back where a query came from is taken for its answer: the query's own addresses
/// turned round, from the port it was sent to, to the port it was sent from.
pub proof fn law_a_reply_is_recognised(packet: Seq<u8>, us: u128, port: u16)
    requires
        packet.len() >= 48,
        packet[0] == 0x60,
        packet[6] == NEXT_HEADER_UDP,
        packet.subrange(24, 40) == octets(us as nat, 16),
        packet.subrange(42, 44) == be16_bytes(port as int),
    ensures
        answers_to(packet, us, port),
{
    lemma_pow256();
    crate::address::law_octets_spell_the_number(us as nat, 16);
    assert(packet[42] == packet.subrange(42, 44)[0]);
    assert(packet[43] == packet.subrange(42, 44)[1]);
}

} // verus!
