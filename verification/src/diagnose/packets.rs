//! The smallest packets that prove the path.
//!
//! Built by hand: the checks need exactly these shapes, and building them by hand keeps what is being
//! proved visible.

use vstd::prelude::*;
use vstd::string::{StringExecFns, StringSliceAdditionalSpecFns};
use crate::ip::{
    checksum, checksum_of, ipv4_checksum, law_header_verifies, lemma_folded_add,
    lemma_word_sum_concat, lemma_word_sum_pair, with_checksum, without_checksum, word_sum,
};
use crate::probe::query_for;
use crate::text::{decimal, digits, texts};
use crate::wire::{be16, be16_bytes, be16_spec, high_byte, low_byte};

pub mod laws;

verus! {

/// The number of the protocol in an IPv4 header: ICMP, and UDP.
pub const ICMP: u8 = 1;

pub const UDP: u8 = 17;

/// An IPv4 header without options, its checksum not yet in place: no fragments, sixty-four hops.
pub open spec fn plain_header(total: nat, protocol: u8, src: Seq<u8>, dst: Seq<u8>) -> Seq<u8> {
    seq![0x45u8, 0] + be16_bytes((total % 65536) as int) + seq![0u8, 0, 0x40, 0, 64, protocol, 0, 0] + src
        + dst
}

/// An IPv4 header without options.
pub open spec fn ipv4_header(total: nat, protocol: u8, src: Seq<u8>, dst: Seq<u8>) -> Seq<u8> {
    let plain = plain_header(total, protocol, src, dst);
    with_checksum(plain, checksum_of(word_sum(without_checksum(plain))))
}

/// Put a number of two bytes behind what is there.
fn push_be16(out: &mut Vec<u8>, value: u16)
    ensures
        final(out)@ == old(out)@ + be16_bytes(value as int),
{
    out.push(high_byte(value));
    out.push(low_byte(value));
    assert(out@ =~= old(out)@ + be16_bytes(value as int));
}

/// An IPv4 header for a packet of so many bytes.
fn header(total: usize, protocol: u8, src: &[u8; 4], dst: &[u8; 4]) -> (header: Vec<u8>)
    ensures
        header@ == ipv4_header(total as nat, protocol, src@, dst@),
{
    let mut header: Vec<u8> = vec![0x45, 0];
    push_be16(&mut header, (total % 65536) as u16);
    header.push(0);
    header.push(0);
    header.push(0x40);
    header.push(0);
    header.push(64);
    header.push(protocol);
    header.push(0);
    header.push(0);
    header.extend_from_slice(src.as_slice());
    header.extend_from_slice(dst.as_slice());
    let ghost plain = plain_header(total as nat, protocol, src@, dst@);
    assert(header@ =~= plain);
    let sum = ipv4_checksum(header.as_slice());
    header[10] = high_byte(sum);
    header[11] = low_byte(sum);
    assert(header@ =~= with_checksum(plain, sum as int));
    header
}

/// An ICMP echo request, its checksum not yet in place.
pub open spec fn plain_echo(id: u16, seq: u16, payload: Seq<u8>) -> Seq<u8> {
    seq![8u8, 0, 0, 0] + be16_bytes(id as int) + be16_bytes(seq as int) + payload
}

/// An ICMP echo request.
pub open spec fn echo(id: u16, seq: u16, payload: Seq<u8>) -> Seq<u8> {
    let plain = plain_echo(id, seq, payload);
    let sum = checksum_of(word_sum(plain));
    plain.update(2, (sum / 256) as u8).update(3, (sum % 256) as u8)
}

/// An IPv4 packet carrying an ICMP echo request.
pub open spec fn echo_packet(
    src: Seq<u8>,
    dst: Seq<u8>,
    id: u16,
    seq: u16,
    payload: Seq<u8>,
) -> Seq<u8> {
    ipv4_header(28 + payload.len(), ICMP, src, dst) + echo(id, seq, payload)
}

/// An IPv4 packet carrying an ICMP echo request.
pub fn ipv4_icmp_echo(
    src: [u8; 4],
    dst: [u8; 4],
    id: u16,
    seq: u16,
    payload: &[u8],
) -> (packet: Vec<u8>)
    requires
        payload@.len() <= usize::MAX - 28,
    ensures
        packet@ == echo_packet(src@, dst@, id, seq, payload@),
        packet@.len() == 28 + payload@.len(),
{
    let mut icmp: Vec<u8> = vec![8, 0, 0, 0];
    push_be16(&mut icmp, id);
    push_be16(&mut icmp, seq);
    icmp.extend_from_slice(payload);
    let ghost plain = plain_echo(id, seq, payload@);
    assert(icmp@ =~= plain);
    let sum = checksum(icmp.as_slice());
    icmp[2] = high_byte(sum);
    icmp[3] = low_byte(sum);
    assert(icmp@ =~= echo(id, seq, payload@));
    let mut packet = header(28 + payload.len(), ICMP, &src, &dst);
    packet.extend_from_slice(icmp.as_slice());
    assert(packet@ =~= echo_packet(src@, dst@, id, seq, payload@));
    packet
}

/// The sequence number of an echo reply to an address, with an id.
pub open spec fn echo_reply(packet: Seq<u8>, ours: Seq<u8>, id: u16) -> Option<u16> {
    let at = packet[0] as int % 16 * 4;
    if packet.len() < 28 || packet[0] / 16 != 4 || packet[9] != ICMP || packet.subrange(16, 20)
        != ours {
        None
    } else if packet.len() < at + 8 || packet[at] != 0 || be16_spec(
        packet[at + 4],
        packet[at + 5],
    ) != id {
        None
    } else {
        Some(be16_spec(packet[at + 6], packet[at + 7]) as u16)
    }
}

/// How long an IPv4 header is, as its first byte gives it.
fn header_len(first: u8) -> (len: usize)
    ensures
        len == first as int % 16 * 4,
{
    (first % 16) as usize * 4
}

/// Whether a packet is addressed to us.
fn is_to(packet: &[u8], ours: &[u8; 4]) -> (is: bool)
    requires
        packet@.len() >= 20,
    ensures
        is == (packet@.subrange(16, 20) == ours@),
{
    let is = packet[16] == ours[0] && packet[17] == ours[1] && packet[18] == ours[2] && packet[19]
        == ours[3];
    proof {
        let to = packet@.subrange(16, 20);
        if is {
            assert(to =~= ours@);
        } else {
            assert(to[0] != ours@[0] || to[1] != ours@[1] || to[2] != ours@[2] || to[3]
                != ours@[3]);
        }
    }
    is
}

/// The sequence number of an echo reply addressed back to us, or `None` for anything else.
pub fn icmp_echo_reply(packet: &[u8], ours: [u8; 4], id: u16) -> (seq: Option<u16>)
    ensures
        seq == echo_reply(packet@, ours@, id),
{
    let total: usize = packet.len();
    if total < 28 || packet[0] / 16 != 4 || packet[9] != ICMP || !is_to(packet, &ours) {
        return None;
    }
    let at = header_len(packet[0]);
    if total < at + 8 || packet[at] != 0 {
        return None;
    }
    if be16(packet[at + 4], packet[at + 5]) != id {
        return None;
    }
    Some(be16(packet[at + 6], packet[at + 7]))
}

/// An IPv4 packet carrying UDP.
pub open spec fn udp_packet(
    src: Seq<u8>,
    dst: Seq<u8>,
    sport: u16,
    dport: u16,
    payload: Seq<u8>,
) -> Seq<u8> {
    ipv4_header(28 + payload.len(), UDP, src, dst) + be16_bytes(sport as int) + be16_bytes(
        dport as int,
    ) + be16_bytes((8 + payload.len() as int) % 65536) + seq![0u8, 0] + payload
}

/// An IPv4 packet carrying UDP. The UDP checksum is left zero, which IPv4 allows and which means
/// "not computed": what is being proved is the path, not the checksum.
pub fn ipv4_udp(src: [u8; 4], dst: [u8; 4], sport: u16, dport: u16, payload: &[u8]) -> (packet: Vec<
    u8,
>)
    requires
        payload@.len() <= usize::MAX - 28,
    ensures
        packet@ == udp_packet(src@, dst@, sport, dport, payload@),
{
    let mut packet = header(28 + payload.len(), UDP, &src, &dst);
    push_be16(&mut packet, sport);
    push_be16(&mut packet, dport);
    push_be16(&mut packet, ((8 + payload.len()) % 65536) as u16);
    packet.push(0);
    packet.push(0);
    packet.extend_from_slice(payload);
    assert(packet@ =~= udp_packet(src@, dst@, sport, dport, payload@));
    packet
}

/// The UDP payload of a packet to an address.
pub open spec fn payload_of(packet: Seq<u8>, ours: Seq<u8>) -> Option<Seq<u8>> {
    let at = packet[0] as int % 16 * 4;
    if packet.len() < 28 || packet[0] / 16 != 4 || packet[9] != UDP || packet.len() < at + 8
        || packet.subrange(16, 20) != ours {
        None
    } else {
        Some(packet.skip(at + 8))
    }
}

/// The UDP payload of a reply addressed back to us, or `None` for anything else.
pub fn udp_payload(packet: &[u8], ours: [u8; 4]) -> (payload: Option<&[u8]>)
    ensures
        match payload {
            Some(payload) => payload_of(packet@, ours@) == Some(payload@),
            None => payload_of(packet@, ours@) is None,
        },
{
    let total: usize = packet.len();
    if total < 28 || packet[0] / 16 != 4 || packet[9] != UDP {
        return None;
    }
    let at = header_len(packet[0]);
    if total < at + 8 || !is_to(packet, &ours) {
        return None;
    }
    let payload = vstd::slice::slice_subrange(packet, at + 8, total);
    assert(payload@ =~= packet@.skip(at + 8));
    Some(payload)
}

/// A minimal A-record query.
pub fn dns_query(name: &str) -> (query: Vec<u8>)
    ensures
        query@ == query_for(name.spec_bytes()),
{
    crate::probe::dns_query(name)
}

/// How much of a message is ahead of a place.
pub open spec fn ahead(message: Seq<u8>, at: int) -> nat {
    if at < message.len() {
        (message.len() - at) as nat
    } else {
        0
    }
}

/// Where a name that starts at a place ends: labels ending in a zero byte, or a pointer of two bytes.
pub open spec fn name_end(message: Seq<u8>, at: int) -> int
    decreases ahead(message, at),
{
    if !(0 <= at < message.len()) {
        at
    } else if message[at] >= 0xc0 {
        at + 2
    } else if message[at] == 0 {
        at + 1
    } else {
        name_end(message, at + 1 + message[at])
    }
}

/// Where so many questions that start at a place end.
pub open spec fn questions_end(message: Seq<u8>, at: int, count: nat) -> int
    decreases count,
{
    if count == 0 {
        at
    } else {
        questions_end(message, name_end(message, at) + 4, (count - 1) as nat)
    }
}

/// Four bytes as an address is written.
pub open spec fn quad(bytes: Seq<u8>) -> Seq<char> {
    digits(bytes[0] as nat) + "."@ + digits(bytes[1] as nat) + "."@ + digits(bytes[2] as nat)
        + "."@ + digits(bytes[3] as nat)
}

/// The addresses among so many records that start at a place, as far as they can be walked.
pub open spec fn records_walked(message: Seq<u8>, at: int, count: nat) -> Seq<Seq<char>>
    decreases count,
{
    let head = name_end(message, at);
    if count == 0 || head + 10 > message.len() {
        Seq::empty()
    } else {
        let body = head + 10;
        let len = be16_spec(message[head + 8], message[head + 9]);
        if body + len > message.len() {
            Seq::empty()
        } else {
            let rest = records_walked(message, body + len, (count - 1) as nat);
            if be16_spec(message[head], message[head + 1]) == 1 && len == 4 {
                seq![quad(message.subrange(body, body + 4))] + rest
            } else {
                rest
            }
        }
    }
}

/// The A records in a reply.
pub open spec fn addresses_in(message: Seq<u8>) -> Seq<Seq<char>> {
    if message.len() < 12 {
        Seq::empty()
    } else {
        records_walked(
            message,
            questions_end(message, 12, be16_spec(message[4], message[5]) as nat),
            be16_spec(message[6], message[7]) as nat,
        )
    }
}

/// Whether two places are the same to whoever walks a message: beyond its end there is nothing to
/// read.
spec fn same_place(message: Seq<u8>, a: int, b: int) -> bool {
    a == b || (a >= message.len() && b >= message.len())
}

proof fn lemma_name_end(message: Seq<u8>, at: int)
    requires
        0 <= at,
    ensures
        at <= name_end(message, at),
    decreases ahead(message, at),
{
    if at < message.len() && message[at] < 0xc0 && message[at] != 0 {
        lemma_name_end(message, at + 1 + message[at]);
    }
}

/// From the same place, questions end in the same place.
proof fn lemma_same_questions(message: Seq<u8>, a: int, b: int, count: nat)
    requires
        0 <= a,
        0 <= b,
        same_place(message, a, b),
    ensures
        same_place(message, questions_end(message, a, count), questions_end(message, b, count)),
    decreases count,
{
    if count > 0 {
        lemma_name_end(message, a);
        lemma_name_end(message, b);
        lemma_same_questions(
            message,
            name_end(message, a) + 4,
            name_end(message, b) + 4,
            (count - 1) as nat,
        );
    }
}

/// From the same place, the records are the same.
proof fn lemma_same_records(message: Seq<u8>, a: int, b: int, count: nat)
    requires
        0 <= a,
        0 <= b,
        same_place(message, a, b),
    ensures
        records_walked(message, a, count) == records_walked(message, b, count),
{
    lemma_name_end(message, a);
    lemma_name_end(message, b);
}

/// Step over a name, which is either labels ending in a zero byte or a two-byte pointer, but not
/// over the end of the message.
fn skip_name(message: &[u8], start: usize) -> (end: usize)
    requires
        start <= message@.len(),
    ensures
        end <= message@.len(),
        same_place(message@, end as int, name_end(message@, start as int)),
{
    let total: usize = message.len();
    let mut at: usize = start;
    while at < total
        invariant
            at <= total == message@.len(),
            name_end(message@, start as int) == name_end(message@, at as int),
        decreases total - at,
    {
        let len = message[at];
        if len >= 0xc0 {
            return if total - at > 2 {
                at + 2
            } else {
                total
            };
        }
        if len == 0 {
            return at + 1;
        }
        if total - at <= 1 + len as usize {
            proof {
                lemma_name_end(message@, at + 1 + len);
            }
            return total;
        }
        at = at + 1 + len as usize;
    }
    at
}

/// Write four bytes as an address is written.
fn write_quad(message: &[u8], at: usize) -> (text: String)
    requires
        at + 4 <= message@.len(),
    ensures
        text@ == quad(message@.subrange(at as int, at + 4)),
{
    let mut text = decimal(message[at] as u128);
    let second = decimal(message[at + 1] as u128);
    let third = decimal(message[at + 2] as u128);
    let fourth = decimal(message[at + 3] as u128);
    text.append(".");
    text.append(second.as_str());
    text.append(".");
    text.append(third.as_str());
    text.append(".");
    text.append(fourth.as_str());
    text
}

/// The A records in a reply, as dotted quads. Anything it cannot walk yields nothing rather than an
/// error: this is a probe, and a reply it does not understand is simply not the answer.
pub fn dns_answers(message: &[u8]) -> (out: Vec<String>)
    ensures
        texts(out@) == addresses_in(message@),
{
    let mut out: Vec<String> = Vec::new();
    let total: usize = message.len();
    assert(texts(out@) =~= Seq::empty());
    if total < 12 {
        return out;
    }
    let questions = be16(message[4], message[5]);
    let answers = be16(message[6], message[7]);
    let mut at: usize = 12;
    let mut left: u16 = questions;
    while left > 0
        invariant
            at <= total == message@.len(),
            left <= questions,
            same_place(
                message@,
                questions_end(message@, 12, questions as nat),
                questions_end(message@, at as int, left as nat),
            ),
        decreases left,
    {
        let end = skip_name(message, at);
        proof {
            lemma_name_end(message@, at as int);
            lemma_same_questions(
                message@,
                if total - end > 4 {
                    end + 4
                } else {
                    total as int
                },
                name_end(message@, at as int) + 4,
                (left - 1) as nat,
            );
        }
        at = if total - end > 4 {
            end + 4
        } else {
            total
        };
        left -= 1;
    }
    let ghost all = addresses_in(message@);
    proof {
        lemma_questions_end(message@, 12, questions as nat);
        lemma_same_records(
            message@,
            questions_end(message@, 12, questions as nat),
            at as int,
            answers as nat,
        );
        assert(texts(out@) + records_walked(message@, at as int, answers as nat) =~= all);
    }
    let mut left: u16 = answers;
    while left > 0
        invariant
            at <= total == message@.len(),
            texts(out@) + records_walked(message@, at as int, left as nat) == all,
            all == addresses_in(message@),
        decreases left,
    {
        let head = skip_name(message, at);
        proof {
            lemma_name_end(message@, at as int);
            assert(texts(out@) + Seq::empty() =~= texts(out@));
        }
        if total - head < 10 {
            return out;
        }
        let rtype = be16(message[head], message[head + 1]);
        let rdlen = be16(message[head + 8], message[head + 9]) as usize;
        let body: usize = head + 10;
        if total - body < rdlen {
            return out;
        }
        let ghost before = out@;
        if rtype == 1 && rdlen == 4 {
            out.push(write_quad(message, body));
            proof {
                let one = quad(message@.subrange(body as int, body + 4));
                let rest = records_walked(message@, body + rdlen, (left - 1) as nat);
                assert(texts(out@) =~= texts(before).push(one));
                assert(texts(out@) + rest =~= texts(before) + (seq![one] + rest));
            }
        }
        at = body + rdlen;
        left -= 1;
    }
    assert(texts(out@) + Seq::empty() =~= texts(out@));
    out
}

proof fn lemma_questions_end(message: Seq<u8>, at: int, count: nat)
    requires
        0 <= at,
    ensures
        at <= questions_end(message, at, count),
    decreases count,
{
    if count > 0 {
        lemma_name_end(message, at);
        lemma_questions_end(message, name_end(message, at) + 4, (count - 1) as nat);
    }
}

/// An echo request carries checksums that verify: summed with its own checksum in place, the header
/// comes to zero, and so does the message.
pub proof fn law_an_echo_request_verifies(
    src: Seq<u8>,
    dst: Seq<u8>,
    id: u16,
    seq: u16,
    payload: Seq<u8>,
)
    requires
        src.len() == 4,
        dst.len() == 4,
    ensures
        ({
            let packet = echo_packet(src, dst, id, seq, payload);
            &&& packet.len() == 28 + payload.len()
            &&& checksum_of(word_sum(packet.take(20))) == 0
            &&& checksum_of(word_sum(packet.skip(20))) == 0
        }),
{
    let packet = echo_packet(src, dst, id, seq, payload);
    let head = plain_header(28 + payload.len(), ICMP, src, dst);
    law_header_verifies(head);
    assert(packet.take(20) =~= ipv4_header(28 + payload.len(), ICMP, src, dst));
    assert(packet.skip(20) =~= echo(id, seq, payload));
    let plain = plain_echo(id, seq, payload);
    let sum = word_sum(plain);
    let c = checksum_of(sum);
    let before = plain.take(2);
    let after = plain.skip(4);
    let zero = seq![0u8, 0u8];
    let field = seq![(c / 256) as u8, (c % 256) as u8];
    lemma_folded_add(sum, 0);
    assert(plain =~= before + (zero + after));
    assert(echo(id, seq, payload) =~= before + (field + after));
    lemma_word_sum_concat(before, zero + after);
    lemma_word_sum_concat(before, field + after);
    lemma_word_sum_concat(zero, after);
    lemma_word_sum_concat(field, after);
    lemma_word_sum_pair(zero);
    lemma_word_sum_pair(field);
    assert(word_sum(echo(id, seq, payload)) == sum + c);
}

/// Only a reply to this run is counted: the request with its addresses turned round and its type
/// made a reply gives back the sequence number, under its own id and to its own address only.
pub proof fn law_only_a_reply_to_this_run_is_counted(
    us: Seq<u8>,
    them: Seq<u8>,
    id: u16,
    seq: u16,
    payload: Seq<u8>,
    reply: Seq<u8>,
    ours: Seq<u8>,
    asked: u16,
)
    requires
        us.len() == 4,
        them.len() == 4,
        reply.len() == 28 + payload.len(),
        reply[0] == 0x45,
        reply[9] == ICMP,
        reply.subrange(16, 20) == us,
        reply.skip(20) == echo(id, seq, payload).update(0, 0u8),
    ensures
        echo_reply(reply, us, id) == Some(seq),
        echo_reply(reply, ours, asked) is Some ==> ours == us && asked == id,
{
    let message = reply.skip(20);
    assert(reply[20] == message[0]);
    assert(reply[24] == message[4]);
    assert(reply[25] == message[5]);
    assert(reply[26] == message[6]);
    assert(reply[27] == message[7]);
}

/// What a datagram carries is what was put into it, and only its own address reads it.
pub proof fn law_a_datagram_is_read_back(
    src: Seq<u8>,
    dst: Seq<u8>,
    sport: u16,
    dport: u16,
    payload: Seq<u8>,
    other: Seq<u8>,
)
    requires
        src.len() == 4,
        dst.len() == 4,
    ensures
        payload_of(udp_packet(src, dst, sport, dport, payload), dst) == Some(payload),
        other != dst ==> payload_of(udp_packet(src, dst, sport, dport, payload), other) is None,
{
    let packet = udp_packet(src, dst, sport, dport, payload);
    assert(packet.subrange(16, 20) =~= dst);
    assert(packet.skip(28) =~= payload);
}

} // verus!
