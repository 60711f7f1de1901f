//! What the packets say, over the bytes they are made of.

use vstd::prelude::*;
use crate::diagnose::packets::{
    addresses_in, echo_packet, echo_reply, name_end, payload_of, quad, questions_end,
    records_walked, udp_packet,
};
use crate::ip::word_sum;

verus! {

/// Whether bytes are an IPv4 header of so many words for a protocol, to an address.
pub open spec fn is_header(header: Seq<u8>, protocol: u8, to: Seq<u8>) -> bool {
    &&& 20 <= header.len() <= 60
    &&& header.len() % 4 == 0
    &&& header[0] == 0x40 + header.len() / 4
    &&& header[9] == protocol
    &&& header[16] == to[0] && header[17] == to[1] && header[18] == to[2] && header[19] == to[3]
}

/// An echo reply behind a header of any length is recognised by whom it is addressed to, by its
/// protocol, by its type and by its id, and it is its sequence number that is read; whatever else it
/// carries makes no difference.
pub proof fn law_an_echo_reply_is_read(
    header: Seq<u8>,
    message: Seq<u8>,
    protocol: u8,
    to: Seq<u8>,
    ours: Seq<u8>,
    id: u16,
)
    requires
        to.len() == 4,
        ours.len() == 4,
        is_header(header, protocol, to),
        message.len() >= 8,
    ensures
        protocol == 1 && to == ours && message[0] == 0 && message[4] * 256 + message[5] == id
            ==> echo_reply(header + message, ours, id) == Some(
            (message[6] * 256 + message[7]) as u16,
        ),
        protocol != 1 || to != ours || message[0] != 0 || message[4] * 256 + message[5] != id
            ==> echo_reply(header + message, ours, id) is None,
{
    let packet = header + message;
    let at = header.len() as int;
    assert(packet.subrange(16, 20) =~= to);
    assert(packet[0] as int % 16 * 4 == at);
    assert(forall|i: int| 0 <= i < 8 ==> packet[at + i] == #[trigger] message[i]);
    assert(packet[at] == message[0] && packet[at + 4] == message[4] && packet[at + 5] == message[5]
        && packet[at + 6] == message[6] && packet[at + 7] == message[7]);
}

/// What does not hold a header and eight bytes, or is not of version 4, is no reply and no datagram.
pub proof fn law_what_is_cut_off_is_not_read(packet: Seq<u8>, ours: Seq<u8>, id: u16)
    requires
        packet.len() < 28 || packet[0] / 16 != 4 || packet.len() < (packet[0] % 16) * 4 + 8,
    ensures
        echo_reply(packet, ours, id) is None,
        payload_of(packet, ours) is None,
{
}

/// A datagram behind a header of any length is taken out by whom it is addressed to and its
/// protocol: what is behind its eight bytes of header, whatever those say.
pub proof fn law_a_datagram_is_taken_out(
    header: Seq<u8>,
    udp: Seq<u8>,
    payload: Seq<u8>,
    protocol: u8,
    to: Seq<u8>,
    ours: Seq<u8>,
)
    requires
        to.len() == 4,
        ours.len() == 4,
        is_header(header, protocol, to),
        udp.len() == 8,
    ensures
        protocol == 17 && to == ours ==> payload_of(header + udp + payload, ours) == Some(payload),
        protocol != 17 || to != ours ==> payload_of(header + udp + payload, ours) is None,
{
    let packet = header + udp + payload;
    assert(packet.subrange(16, 20) =~= to);
    assert(packet.skip(header.len() as int + 8) =~= payload);
}

/// An echo request says what it was asked to: its length, sixty-four hops, ICMP, from whom and to
/// whom, the id and the sequence number, and the payload behind them.
pub proof fn law_an_echo_request_says_what_it_was_asked_to(
    src: Seq<u8>,
    dst: Seq<u8>,
    id: u16,
    seq: u16,
    payload: Seq<u8>,
)
    requires
        src.len() == 4,
        dst.len() == 4,
        payload.len() <= 65_507,
    ensures
        ({
            let packet = echo_packet(src, dst, id, seq, payload);
            &&& packet.len() == 28 + payload.len()
            &&& packet[0] == 0x45 && packet[1] == 0
            &&& packet[2] * 256 + packet[3] == 28 + payload.len()
            &&& packet[4] == 0 && packet[5] == 0 && packet[6] == 0x40 && packet[7] == 0
            &&& packet[8] == 64 && packet[9] == 1
            &&& packet.subrange(12, 16) == src && packet.subrange(16, 20) == dst
            &&& packet[20] == 8 && packet[21] == 0
            &&& packet[24] * 256 + packet[25] == id
            &&& packet[26] * 256 + packet[27] == seq
            &&& packet.skip(28) == payload
        }),
{
    let packet = echo_packet(src, dst, id, seq, payload);
    assert(packet.subrange(12, 16) =~= src);
    assert(packet.subrange(16, 20) =~= dst);
    assert(packet.skip(28) =~= payload);
}

/// A datagram says what it was asked to: its lengths, sixty-four hops, UDP, from whom and to whom, the
/// two ports, no checksum, and the payload behind them.
pub proof fn law_a_datagram_says_what_it_was_asked_to(
    src: Seq<u8>,
    dst: Seq<u8>,
    sport: u16,
    dport: u16,
    payload: Seq<u8>,
)
    requires
        src.len() == 4,
        dst.len() == 4,
        payload.len() <= 65_507,
    ensures
        ({
            let packet = udp_packet(src, dst, sport, dport, payload);
            &&& packet.len() == 28 + payload.len()
            &&& packet[0] == 0x45 && packet[1] == 0
            &&& packet[2] * 256 + packet[3] == 28 + payload.len()
            &&& packet[4] == 0 && packet[5] == 0 && packet[6] == 0x40 && packet[7] == 0
            &&& packet[8] == 64 && packet[9] == 17
            &&& packet.subrange(12, 16) == src && packet.subrange(16, 20) == dst
            &&& packet[20] * 256 + packet[21] == sport
            &&& packet[22] * 256 + packet[23] == dport
            &&& packet[24] * 256 + packet[25] == 8 + payload.len()
            &&& packet[26] == 0 && packet[27] == 0
            &&& packet.skip(28) == payload
            &&& word_sum(packet.take(20)) % 65_535 == 0
        }),
{
    let packet = udp_packet(src, dst, sport, dport, payload);
    assert(packet.subrange(12, 16) =~= src);
    assert(packet.subrange(16, 20) =~= dst);
    assert(packet.skip(28) =~= payload);
    let head = crate::diagnose::packets::plain_header(28 + payload.len(), 17, src, dst);
    crate::ip::law_header_verifies(head);
    assert(packet.take(20) =~= crate::diagnose::packets::ipv4_header(
        28 + payload.len(),
        17,
        src,
        dst,
    ));
    crate::ip::law_what_verifies_is_a_multiple(packet.take(20));
}

/// Whether bytes are a name whole: labels, each behind its length, and then a zero or a pointer of
/// two bytes.
pub open spec fn is_name(name: Seq<u8>) -> bool
    decreases name.len(),
{
    name.len() > 0 && if name[0] == 0 {
        name.len() == 1
    } else if name[0] >= 0xc0 {
        name.len() == 2
    } else {
        name.len() > 1 + name[0] && is_name(name.skip(1 + name[0]))
    }
}

proof fn lemma_name_ends(before: Seq<u8>, name: Seq<u8>, after: Seq<u8>)
    requires
        is_name(name),
    ensures
        name_end(before + name + after, before.len() as int) == before.len() + name.len(),
    decreases name.len(),
{
    let message = before + name + after;
    let at = before.len() as int;
    assert(message[at] == name[0]);
    if name[0] != 0 && name[0] < 0xc0 {
        let step = 1 + name[0];
        let label = name.take(step);
        lemma_name_ends(before + label, name.skip(step), after);
        assert(before + label + name.skip(step) + after =~= message);
        assert((before + label).len() == at + step);
    }
}

/// Questions are stepped over one by one, each a name and four bytes.
pub proof fn law_questions_are_stepped_over(
    before: Seq<u8>,
    name: Seq<u8>,
    kind: Seq<u8>,
    after: Seq<u8>,
    count: nat,
)
    requires
        is_name(name),
        kind.len() == 4,
    ensures
        questions_end(before + name + kind + after, before.len() as int, 0) == before.len(),
        questions_end(before + name + kind + after, before.len() as int, count + 1)
            == questions_end(
            before + name + kind + after,
            before.len() as int + name.len() + 4,
            count,
        ),
{
    assert(before + name + kind + after =~= before + name + (kind + after));
    lemma_name_ends(before, name, kind + after);
}

/// Records are read one by one: a name, type and class, time to live, the length of the data and the
/// data. One of type 1 with four bytes is an address, and it comes ahead of those behind it; any other
/// is stepped over.
pub proof fn law_records_are_read_one_by_one(
    before: Seq<u8>,
    name: Seq<u8>,
    fixed: Seq<u8>,
    data: Seq<u8>,
    after: Seq<u8>,
    count: nat,
)
    requires
        is_name(name),
        fixed.len() == 10,
        fixed[8] * 256 + fixed[9] == data.len(),
    ensures
        ({
            let message = before + name + fixed + data + after;
            let at = before.len() as int;
            let rest = records_walked(message, at + name.len() + 10 + data.len(), count);
            &&& records_walked(message, at, 0) == Seq::<Seq<char>>::empty()
            &&& records_walked(message, at, count + 1) == if fixed[0] == 0 && fixed[1] == 1
                && data.len() == 4 {
                seq![quad(data)] + rest
            } else {
                rest
            }
        }),
{
    let message = before + name + fixed + data + after;
    assert(message =~= before + name + (fixed + data + after));
    lemma_name_ends(before, name, fixed + data + after);
    let head = before.len() as int + name.len();
    assert(message[head] == fixed[0] && message[head + 1] == fixed[1] && message[head + 8]
        == fixed[8] && message[head + 9] == fixed[9]);
    if data.len() == 4 {
        assert(message.subrange(head + 10, head + 14) =~= data);
    }
}

/// A record that the message does not hold whole ends the walk: what came before it is kept.
pub proof fn law_a_record_cut_off_ends_the_walk(
    before: Seq<u8>,
    name: Seq<u8>,
    rest: Seq<u8>,
    count: nat,
)
    requires
        is_name(name),
        rest.len() < 10 || rest[8] * 256 + rest[9] + 10 > rest.len(),
    ensures
        records_walked(before + name + rest, before.len() as int, count) == Seq::<Seq<char>>::empty(),
{
    lemma_name_ends(before, name, rest);
    let head = before.len() as int + name.len();
    let message = before + name + rest;
    if rest.len() >= 10 {
        assert(message[head + 8] == rest[8] && message[head + 9] == rest[9]);
    }
}

/// The addresses in a reply are those of its answers: behind a header of twelve bytes, which counts
/// them, and as many questions as it counts.
pub proof fn law_answers_stand_behind_the_questions(message: Seq<u8>, questions: nat, answers: nat)
    requires
        message.len() >= 12,
        message[4] * 256 + message[5] == questions,
        message[6] * 256 + message[7] == answers,
    ensures
        addresses_in(message) == records_walked(
            message,
            questions_end(message, 12, questions),
            answers,
        ),
{
}

} // verus!
