//! What the question says, over the bytes it is made of.

use vstd::prelude::*;
use crate::address::{law_octets_spell_the_number, lemma_octets_len, lemma_pow256, number};
use crate::probe::{
    answers_to, first_dot, labels_from, lemma_labels_len, pseudo_header, query_for, query_packet,
};

verus! {

/// A name with a dot is its first label, behind its length, and then the rest of it; a name without
/// is one label behind its length.
pub proof fn law_a_name_is_written_label_by_label(label: Seq<u8>, rest: Seq<u8>)
    requires
        forall|i: int| 0 <= i < label.len() ==> #[trigger] label[i] != 0x2e,
        label.len() <= 255,
    ensures
        labels_from(label, 0) == seq![label.len() as u8] + label,
        labels_from(label + seq![0x2eu8] + rest, 0) == seq![label.len() as u8] + label
            + labels_from(rest, 0),
{
    lemma_dot_at(label, 0, label.len() as int);
    assert(label.subrange(0, label.len() as int) =~= label);
    let name = label + seq![0x2eu8] + rest;
    assert forall|i: int| 0 <= i < label.len() implies #[trigger] name[i] != 0x2e by {
        assert(name[i] == label[i]);
    }
    assert(name[label.len() as int] == 0x2e);
    lemma_dot_at(name, 0, label.len() as int);
    assert(name.subrange(0, label.len() as int) =~= label);
    lemma_labels_behind(label + seq![0x2eu8], rest, 0);
}

proof fn lemma_dot_at(name: Seq<u8>, from: int, dot: int)
    requires
        0 <= from <= dot <= name.len(),
        dot < name.len() ==> name[dot] == 0x2e,
        forall|i: int| from <= i < dot ==> #[trigger] name[i] != 0x2e,
    ensures
        first_dot(name, from) == dot,
    decreases dot - from,
{
    if from < dot {
        assert(name[from] != 0x2e);
        lemma_dot_at(name, from + 1, dot);
    }
}

proof fn lemma_dot_behind(before: Seq<u8>, name: Seq<u8>, from: int)
    requires
        0 <= from <= name.len(),
    ensures
        first_dot(before + name, before.len() as int + from) == before.len() as int + first_dot(name, from),
        from <= first_dot(name, from) <= name.len(),
    decreases name.len() - from,
{
    if from < name.len() {
        assert((before + name)[before.len() as int + from] == name[from]);
        if name[from] != 0x2e {
            lemma_dot_behind(before, name, from + 1);
        }
    }
}

proof fn lemma_labels_behind(before: Seq<u8>, name: Seq<u8>, from: int)
    requires
        0 <= from <= name.len(),
    ensures
        labels_from(before + name, before.len() as int + from) == labels_from(name, from),
    decreases name.len() - from,
{
    lemma_dot_behind(before, name, from);
    let dot = first_dot(name, from);
    assert((before + name).subrange(before.len() as int + from, before.len() as int + dot) =~= name.subrange(
        from,
        dot,
    ));
    if dot < name.len() {
        lemma_labels_behind(before, name, dot + 1);
    }
}

/// A question asks for one address of one name, and asks that it be looked up: one question and
/// nothing else, of type 1 and class 1 behind the name, which ends in a zero.
pub proof fn law_a_question_asks_for_an_address(name: Seq<u8>)
    ensures
        ({
            let query = query_for(name);
            let labels = labels_from(name, 0);
            &&& query.len() == 12 + name.len() + 1 + 5
            &&& query[0] == 0x2a && query[1] == 0x2a
            &&& query[2] == 1 && query[3] == 0
            &&& query[4] == 0 && query[5] == 1
            &&& forall|i: int| 6 <= i < 12 ==> #[trigger] query[i] == 0
            &&& query.subrange(12, 12 + labels.len() as int) == labels
            &&& query.skip(12 + labels.len() as int) == seq![0u8, 0, 1, 0, 1]
        }),
{
    lemma_labels_len(name, 0);
    let query = query_for(name);
    let labels = labels_from(name, 0);
    assert(query.subrange(12, 12 + labels.len() as int) =~= labels);
    assert(query.skip(12 + labels.len() as int) =~= seq![0u8, 0, 1, 0, 1]);
}

/// The packet says what it was asked to: version 6, the length of the datagram, UDP, sixty-four hops,
/// from whom and to whom, from the port it was given to port 53, and the question behind it.
pub proof fn law_the_packet_says_what_it_was_asked_to(
    source: u128,
    destination: u128,
    port: u16,
    name: Seq<u8>,
)
    requires
        name.len() <= 1000,
    ensures
        ({
            let packet = query_packet(source, destination, port, name);
            let query = query_for(name);
            &&& packet.len() == 48 + query.len()
            &&& packet[0] == 0x60 && packet[1] == 0 && packet[2] == 0 && packet[3] == 0
            &&& packet[4] * 256 + packet[5] == 8 + query.len()
            &&& packet[6] == 17 && packet[7] == 64
            &&& number(packet.subrange(8, 24)) == source
            &&& number(packet.subrange(24, 40)) == destination
            &&& packet[40] * 256 + packet[41] == port
            &&& packet[42] == 0 && packet[43] == 53
            &&& packet[44] * 256 + packet[45] == 8 + query.len()
            &&& packet.skip(48) == query
        }),
{
    lemma_labels_len(name, 0);
    lemma_octets_len(source as nat, 16);
    lemma_octets_len(destination as nat, 16);
    lemma_pow256();
    law_octets_spell_the_number(source as nat, 16);
    law_octets_spell_the_number(destination as nat, 16);
    let packet = query_packet(source, destination, port, name);
    let query = query_for(name);
    assert(packet.subrange(8, 24) =~= crate::address::octets(source as nat, 16));
    assert(packet.subrange(24, 40) =~= crate::address::octets(destination as nat, 16));
    assert(packet.skip(48) =~= query);
}

/// The sum of a datagram covers the addresses it goes between, its length and its protocol.
pub proof fn law_the_sum_covers_the_addresses(source: u128, destination: u128, len: u32)
    ensures
        ({
            let pseudo = pseudo_header(source, destination, len as nat);
            &&& pseudo.len() == 40
            &&& number(pseudo.subrange(0, 16)) == source
            &&& number(pseudo.subrange(16, 32)) == destination
            &&& number(pseudo.subrange(32, 36)) == len
            &&& pseudo.skip(36) == seq![0u8, 0, 0, 17]
        }),
{
    lemma_octets_len(source as nat, 16);
    lemma_octets_len(destination as nat, 16);
    lemma_octets_len(len as nat, 4);
    lemma_pow256();
    law_octets_spell_the_number(source as nat, 16);
    law_octets_spell_the_number(destination as nat, 16);
    law_octets_spell_the_number(len as nat, 4);
    let pseudo = pseudo_header(source, destination, len as nat);
    assert(pseudo.subrange(0, 16) =~= crate::address::octets(source as nat, 16));
    assert(pseudo.subrange(16, 32) =~= crate::address::octets(destination as nat, 16));
    assert(pseudo.subrange(32, 36) =~= crate::address::octets(len as nat, 4));
    assert(pseudo.skip(36) =~= seq![0u8, 0, 0, 17]);
}

/// Only a datagram over IPv6 to this address and this port is taken for an answer, and every such
/// datagram is, whoever sent it and whatever it carries.
pub proof fn law_only_what_is_sent_back_is_an_answer(packet: Seq<u8>, us: u128, port: u16)
    ensures
        packet.len() < 48 ==> !answers_to(packet, us, port),
        packet.len() >= 48 ==> (answers_to(packet, us, port) <==> packet[0] / 16 == 6 && packet[6]
            == 17 && number(packet.subrange(24, 40)) == us && packet[42] * 256 + packet[43] == port),
{
}

} // verus!
