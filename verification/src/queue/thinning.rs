//! What thinning may take, said over the bytes of the packets.

use vstd::prelude::*;
use crate::queue::laws::{law_a_packet_is_filed_last, lemma_last_redundant};
use crate::queue::model::{
    enqueued, last_redundant, not_redundant, redundant, thinned_by, total_bytes, well_formed,
    QueueState, Waiting, LIMIT_BYTES,
};
use crate::queue::signals::{bucket, ports, pure_ack_spec, transport_spec, FLOWS};

verus! {

/// The last twenty bytes of a packet, which are its TCP header where that has no options and nothing
/// comes behind it.
pub open spec fn last_twenty(packet: Seq<u8>) -> Seq<u8> {
    packet.skip(packet.len() - 20)
}

/// Whether a packet is one IP header and one TCP header of twenty bytes that carries the ACK flag
/// and no other: not CWR, ECE, URG, PSH, RST, SYN or FIN.
pub open spec fn is_plain_ack(packet: Seq<u8>) -> bool {
    &&& packet.len() >= 40
    &&& last_twenty(packet)[12] == 0x50
    &&& last_twenty(packet)[13] == 0x10
    &&& (packet[0] / 16 == 4 && packet.len() == (packet[0] % 16) * 4 + 20 && packet[9] == 6) || (
    packet[0] / 16 == 6 && packet.len() == 60 && packet[6] == 6)
}

/// What a plain acknowledgement acknowledges.
pub open spec fn acknowledged(packet: Seq<u8>) -> int {
    let tcp = last_twenty(packet);
    ((tcp[8] * 256 + tcp[9]) * 256 + tcp[10]) * 256 + tcp[11]
}

/// Whether one plain acknowledgement says nothing that another does not: the same addresses, the same
/// ports, and strictly less acknowledged, on numbers that wrap.
pub open spec fn says_less(older: Seq<u8>, newer: Seq<u8>) -> bool {
    &&& is_plain_ack(older)
    &&& is_plain_ack(newer)
    &&& older[0] / 16 == newer[0] / 16
    &&& newer[0] / 16 == 4 ==> older.subrange(12, 20) == newer.subrange(12, 20)
    &&& newer[0] / 16 == 6 ==> older.subrange(8, 40) == newer.subrange(8, 40)
    &&& last_twenty(older).take(4) == last_twenty(newer).take(4)
    &&& 1 <= (acknowledged(newer) - acknowledged(older)) % 0x1_0000_0000 < 0x8000_0000
}

/// An acknowledgement is read out of a packet exactly where it is the ACK flag and nothing else that
/// the packet carries, and what is read is the number in it. One that also carries SYN, FIN, RST,
/// PSH, URG or a congestion flag, options or a payload is saying something of its own.
pub proof fn law_only_a_bare_ack_is_an_acknowledgement(packet: Seq<u8>)
    ensures
        pure_ack_spec(packet) is Some <==> is_plain_ack(packet),
        pure_ack_spec(packet) matches Some(acked) ==> acked == acknowledged(packet),
{
    let tcp = last_twenty(packet);
    if packet.len() >= 20 {
        let at = packet.len() - 20;
        assert(forall|i: int| 0 <= i < 20 ==> #[trigger] tcp[i] == packet[at + i]);
    }
    if let Some((at, proto)) = transport_spec(packet) {
        if packet.len() == at + 20 {
            assert(tcp[8] == packet[at + 8] && tcp[9] == packet[at + 9]);
            assert(tcp[10] == packet[at + 10] && tcp[11] == packet[at + 11]);
            assert(tcp[12] == packet[at + 12] && tcp[13] == packet[at + 13]);
        }
    }
}

/// A waiting packet is redundant exactly where it is a bare acknowledgement of the same connection
/// that acknowledges strictly less.
pub proof fn law_only_what_says_less_is_redundant(older: Waiting, newer: Seq<u8>)
    ensures
        redundant(older, newer) <==> says_less(older.packet, newer),
{
    law_only_a_bare_ack_is_an_acknowledgement(older.packet);
    law_only_a_bare_ack_is_an_acknowledgement(newer);
    if is_plain_ack(older.packet) && is_plain_ack(newer) {
        let a = older.packet;
        assert(transport_spec(a) == Some((a.len() - 20, 6u8)));
        assert(transport_spec(newer) == Some((newer.len() - 20, 6u8)));
        assert(ports(a, a.len() - 20) =~= last_twenty(a).take(4));
        assert(ports(newer, newer.len() - 20) =~= last_twenty(newer).take(4));
    }
}

proof fn lemma_filter_within(
    packets: Seq<Waiting>,
    wide: spec_fn(Waiting) -> bool,
    narrow: spec_fn(Waiting) -> bool,
)
    requires
        forall|w: Waiting| narrow(w) ==> #[trigger] wide(w),
    ensures
        packets.filter(wide).filter(narrow) == packets.filter(narrow),
    decreases packets.len(),
{
    reveal(Seq::filter);
    if packets.len() > 0 {
        let rest = packets.drop_last();
        lemma_filter_within(rest, wide, narrow);
        if wide(packets.last()) {
            assert(packets.filter(wide).drop_last() =~= rest.filter(wide));
        }
    }
}

/// The waiting packets that are not bare acknowledgements.
pub open spec fn saying_something() -> spec_fn(Waiting) -> bool {
    |w: Waiting| !is_plain_ack(w.packet)
}

/// Filing a packet that fits takes nothing but bare acknowledgements: every other packet that waited,
/// one with FIN, SYN, RST, PSH, URG, ECE or CWR among them, still waits, in the order it did, ahead
/// of the one that was filed.
pub proof fn law_nothing_but_bare_acks_is_thinned(q: QueueState, packet: Seq<u8>, now: int, i: int)
    requires
        well_formed(q),
        q.flows.len() == FLOWS,
        total_bytes(q.flows) + packet.len() <= LIMIT_BYTES,
        0 <= i < FLOWS,
    ensures
        ({
            let before = q.flows[i].packets;
            let after = enqueued(q, packet, now).flows[i].packets;
            let arrived = Waiting { packet, at: now };
            let waits = saying_something();
            &&& i != bucket(packet) ==> after == before
            &&& i == bucket(packet) ==> after.len() > 0 && after.last() == arrived
                && after.drop_last().filter(waits) == before.filter(waits)
            &&& forall|k: int|
                0 <= k < before.len() && !is_plain_ack((#[trigger] before[k]).packet)
                    ==> after.contains(before[k])
        }),
{
    law_a_packet_is_filed_last(q, packet, now);
    let before = q.flows[i].packets;
    let after = enqueued(q, packet, now).flows[i].packets;
    let waits = saying_something();
    if i == bucket(packet) {
        let kept = thinned_by(before, packet);
        assert(after.drop_last() =~= kept);
        lemma_thinned_keeps(before, packet);
        assert forall|k: int|
            0 <= k < before.len() && !is_plain_ack(
                (#[trigger] before[k]).packet,
            ) implies after.contains(before[k]) by {
            lemma_filter_has(before, waits, k);
            lemma_filter_from(kept, waits, before[k]);
            let at = choose|at: int| 0 <= at < kept.len() && kept[at] == before[k];
            assert(after[at] == before[k]);
        }
    } else {
        assert forall|k: int| 0 <= k < before.len() implies after.contains(
            #[trigger] before[k],
        ) by {
            assert(after[k] == before[k]);
        }
    }
}

proof fn lemma_thinned_keeps(packets: Seq<Waiting>, newer: Seq<u8>)
    ensures
        thinned_by(packets, newer).filter(saying_something()) == packets.filter(
            saying_something(),
        ),
{
    let waits = saying_something();
    let keep = not_redundant(newer);
    let last = last_redundant(packets, newer);
    lemma_last_redundant(packets, newer);
    if last >= 0 {
        assert forall|w: Waiting| waits(w) implies #[trigger] keep(w) by {
            law_only_what_says_less_is_redundant(w, newer);
        }
        let ahead = packets.take(last);
        let from = packets.skip(last);
        assert(packets =~= ahead + from);
        Seq::filter_distributes_over_add(ahead, from, waits);
        Seq::filter_distributes_over_add(ahead.filter(keep), from, waits);
        lemma_filter_within(ahead, keep, waits);
    }
}

proof fn lemma_filter_has(packets: Seq<Waiting>, keep: spec_fn(Waiting) -> bool, k: int)
    requires
        0 <= k < packets.len(),
        keep(packets[k]),
    ensures
        packets.filter(keep).contains(packets[k]),
    decreases packets.len(),
{
    reveal(Seq::filter);
    let rest = packets.drop_last();
    let all = packets.filter(keep);
    if k < rest.len() {
        lemma_filter_has(rest, keep, k);
        let at = choose|at: int| 0 <= at < rest.filter(keep).len() && rest.filter(keep)[at]
            == rest[k];
        assert(all[at] == packets[k]);
    } else {
        assert(all[all.len() - 1] == packets[k]);
    }
}

proof fn lemma_filter_from(packets: Seq<Waiting>, keep: spec_fn(Waiting) -> bool, one: Waiting)
    requires
        packets.filter(keep).contains(one),
    ensures
        packets.contains(one),
    decreases packets.len(),
{
    reveal(Seq::filter);
    if packets.len() > 0 {
        let rest = packets.drop_last();
        if keep(packets.last()) && one == packets.last() {
            assert(packets[packets.len() - 1] == one);
        } else {
            let at = choose|at: int| 0 <= at < packets.filter(keep).len() && packets.filter(keep)[at]
                == one;
            assert(rest.filter(keep)[at] == one);
            lemma_filter_from(rest, keep, one);
            let back = choose|back: int| 0 <= back < rest.len() && rest[back] == one;
            assert(packets[back] == one);
        }
    }
}

/// Of the waiting packets that say less than the one that arrives, the last stays and the others
/// might as well not have been there; and where there are not two of them, nothing goes.
pub proof fn law_the_last_that_says_less_stays(packets: Seq<Waiting>, newer: Seq<u8>)
    ensures
        (forall|j: int, k: int|
            0 <= j < k < packets.len() ==> !(says_less((#[trigger] packets[j]).packet, newer)
                && says_less((#[trigger] packets[k]).packet, newer))) ==> thinned_by(packets, newer)
            == packets,
        forall|j: int, k: int|
            0 <= j < k < packets.len() && says_less((#[trigger] packets[j]).packet, newer)
                && says_less((#[trigger] packets[k]).packet, newer) ==> thinned_by(packets, newer)
                == thinned_by(packets.remove(j), newer),
{
    let keep = not_redundant(newer);
    let last = last_redundant(packets, newer);
    lemma_last_redundant(packets, newer);
    assert forall|k: int| 0 <= k < packets.len() implies redundant(#[trigger] packets[k], newer)
        == says_less(packets[k].packet, newer) by {
        law_only_what_says_less_is_redundant(packets[k], newer);
    }
    if last >= 0 {
        if forall|j: int, k: int|
            0 <= j < k < packets.len() ==> !(says_less((#[trigger] packets[j]).packet, newer)
                && says_less((#[trigger] packets[k]).packet, newer)) {
            let ahead = packets.take(last);
            assert forall|j: int| 0 <= j < ahead.len() implies keep(#[trigger] ahead[j]) by {
                assert(ahead[j] == packets[j]);
                assert(says_less(packets[last].packet, newer));
            }
            lemma_filter_all(ahead, keep);
            assert(thinned_by(packets, newer) =~= packets);
        }
        assert forall|j: int, k: int|
            0 <= j < k < packets.len() && says_less((#[trigger] packets[j]).packet, newer)
                && says_less((#[trigger] packets[k]).packet, newer) implies thinned_by(
            packets,
            newer,
        ) == thinned_by(packets.remove(j), newer) by {
            lemma_one_less(packets, newer, j, k);
        }
    } else {
        assert forall|j: int, k: int|
            0 <= j < k < packets.len() && says_less((#[trigger] packets[j]).packet, newer)
                && says_less((#[trigger] packets[k]).packet, newer) implies thinned_by(
            packets,
            newer,
        ) == thinned_by(packets.remove(j), newer) by {
            assert(redundant(packets[j], newer));
        }
    }
}

proof fn lemma_filter_all(packets: Seq<Waiting>, keep: spec_fn(Waiting) -> bool)
    requires
        forall|j: int| 0 <= j < packets.len() ==> keep(#[trigger] packets[j]),
    ensures
        packets.filter(keep) == packets,
    decreases packets.len(),
{
    reveal(Seq::filter);
    if packets.len() > 0 {
        let rest = packets.drop_last();
        assert forall|j: int| 0 <= j < rest.len() implies keep(#[trigger] rest[j]) by {
            assert(rest[j] == packets[j]);
        }
        lemma_filter_all(rest, keep);
        assert(keep(packets[packets.len() - 1]));
        assert(rest.push(packets.last()) =~= packets);
    }
}

proof fn lemma_one_less(packets: Seq<Waiting>, newer: Seq<u8>, j: int, k: int)
    requires
        0 <= j < k < packets.len(),
        redundant(packets[j], newer),
        redundant(packets[k], newer),
    ensures
        thinned_by(packets, newer) == thinned_by(packets.remove(j), newer),
{
    let keep = not_redundant(newer);
    let less = packets.remove(j);
    let last = last_redundant(packets, newer);
    let other = last_redundant(less, newer);
    lemma_last_redundant(packets, newer);
    lemma_last_redundant(less, newer);
    assert(last >= k);
    assert(less[last - 1] == packets[last]);
    assert(redundant(less[last - 1], newer));
    if other > last - 1 {
        assert(less[other] == packets[other + 1]);
        assert(!redundant(packets[other + 1], newer));
    }
    assert(other == last - 1);
    let one = seq![packets[j]];
    let ahead = packets.take(j);
    let between = packets.subrange(j + 1, last);
    assert(packets.take(last) =~= ahead + (one + between));
    assert(less.take(other) =~= ahead + between);
    assert(less.skip(other) =~= packets.skip(last));
    Seq::filter_distributes_over_add(ahead, one + between, keep);
    Seq::filter_distributes_over_add(one, between, keep);
    Seq::filter_distributes_over_add(ahead, between, keep);
    assert(one.filter(keep) =~= Seq::<Waiting>::empty()) by {
        reveal_with_fuel(Seq::filter, 2);
        assert(one.drop_last() =~= Seq::<Waiting>::empty());
    }
    assert(packets.take(last).filter(keep) =~= less.take(other).filter(keep));
}

} // verus!
