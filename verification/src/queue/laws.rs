//! What holds of the queue whatever is put into it.

use vstd::prelude::*;
use crate::queue::model::{
    blended, bytes_of, codel, counted, dequeued, due, enqueued, episode, front, is_fattest,
    last_redundant, lemma_bytes_concat, lemma_fattest_head, lemma_flow_changed, lemma_listed,
    lemma_rotated, lemma_totals_update, lemma_turns_update, lemma_unlisted, longer, not_redundant,
    redundant, rotated, scheduled, served, stale_heads, taken, thinned_by, total_bytes,
    total_packets, total_turns, unlisted_front, waited, well_formed, with_outcome, with_room,
    without_fattest_head, without_stale, FlowState, Outcome, QueueState, Waiting,
    INTERVAL_CEILING, INTERVAL_FLOOR, LIMIT_BYTES, QUANTUM, RTT_TO_INTERVAL,
};
use crate::queue::signals::{bucket, can_be_marked, marked, FLOWS};

verus! {

/// An episode keeps a bucket's credit and its place on its list, and a bucket that delivered
/// nothing is empty.
pub proof fn lemma_episode_keeps(
    f: FlowState,
    packet: Seq<u8>,
    wait: int,
    now: int,
    interval: int,
)
    ensures
        ({
            let outcome = episode(f, packet, wait, now, interval);
            &&& outcome.flow.deficit == f.deficit
            &&& outcome.flow.listed == f.listed
            &&& outcome.flow.packets.len() <= f.packets.len()
            &&& outcome.delivered is None ==> outcome.flow.packets.len() == 0
        }),
    decreases f.packets.len(),
{
    if f.dropping && due(f, now) && f.packets.len() > 0 && !can_be_marked(packet) {
        let from = f.drop_next->0;
        let more = FlowState { count: (f.count + 1) % 0x1_0000_0000, ..f };
        let next = taken(more, now, interval);
        let then = if next.overdue {
            scheduled(next.flow, from, interval)
        } else {
            FlowState { dropping: false, ..next.flow }
        };
        lemma_episode_keeps(then, next.packet, next.waited, now, interval);
    }
}

/// CoDel keeps a bucket's credit and its place on its list, and a bucket that delivered nothing is
/// empty.
pub proof fn lemma_codel_keeps(f: FlowState, now: int, interval: int)
    ensures
        ({
            let outcome = codel(f, now, interval);
            &&& outcome.flow.deficit == f.deficit
            &&& outcome.flow.listed == f.listed
            &&& outcome.delivered is None ==> outcome.flow.packets.len() == 0
        }),
{
    if f.packets.len() > 0 {
        let first = taken(f, now, interval);
        lemma_episode_keeps(first.flow, first.packet, first.waited, now, interval);
    }
}

/// Whether `packet` is what was sent of `original`: the same bytes, or the same with the
/// congestion mark set.
pub open spec fn sent_as(original: Seq<u8>, packet: Seq<u8>) -> bool {
    packet == original || (can_be_marked(original) && packet == marked(original))
}

/// An episode takes packets off the head in order, and counts every one it does not deliver.
pub proof fn lemma_episode_order(
    f: FlowState,
    packet: Seq<u8>,
    wait: int,
    now: int,
    interval: int,
)
    ensures
        ({
            let outcome = episode(f, packet, wait, now, interval);
            let gone = f.packets.len() - outcome.flow.packets.len();
            &&& gone >= 0
            &&& outcome.flow.packets == f.packets.skip(gone)
            &&& match outcome.delivered {
                Some(delivered) => {
                    &&& outcome.dropped == gone
                    &&& gone == 0 ==> sent_as(packet, delivered) && outcome.waited == wait
                    &&& gone > 0 ==> sent_as(f.packets[gone - 1].packet, delivered)
                        && outcome.waited == waited(f.packets[gone - 1].at, now)
                },
                None => outcome.dropped == gone + 1 && outcome.waited == 0,
            }
        }),
    decreases f.packets.len(),
{
    assert(f.packets.skip(0) =~= f.packets);
    if f.dropping && due(f, now) && f.packets.len() > 0 && !can_be_marked(packet) {
        let from = f.drop_next->0;
        let more = FlowState { count: (f.count + 1) % 0x1_0000_0000, ..f };
        let next = taken(more, now, interval);
        let then = if next.overdue {
            scheduled(next.flow, from, interval)
        } else {
            FlowState { dropping: false, ..next.flow }
        };
        lemma_episode_order(then, next.packet, next.waited, now, interval);
        let outcome = episode(then, next.packet, next.waited, now, interval);
        let gone = then.packets.len() - outcome.flow.packets.len();
        assert(f.packets.drop_first().skip(gone) =~= f.packets.skip(gone + 1));
    }
}

/// One turn of a bucket takes packets off its head in order; the one delivered is the last taken,
/// and it is its wait that is measured, and every other one taken is counted as dropped.
pub proof fn law_codel_takes_in_order(f: FlowState, now: int, interval: int)
    ensures
        ({
            let outcome = codel(f, now, interval);
            let gone = f.packets.len() - outcome.flow.packets.len();
            &&& gone >= 0
            &&& outcome.flow.packets == f.packets.skip(gone)
            &&& match outcome.delivered {
                Some(delivered) => {
                    &&& gone > 0
                    &&& outcome.dropped == gone - 1
                    &&& sent_as(f.packets[gone - 1].packet, delivered)
                    &&& outcome.waited == waited(f.packets[gone - 1].at, now)
                },
                None => outcome.dropped == gone && outcome.flow.packets.len() == 0
                    && outcome.waited == 0,
            }
        }),
{
    lemma_codel_keeps(f, now, interval);
    assert(f.packets.skip(0) =~= f.packets);
    if f.packets.len() > 0 {
        let first = taken(f, now, interval);
        assert(f.packets.drop_first() =~= f.packets.skip(1));
        if first.flow.dropping && first.overdue {
            lemma_episode_order(first.flow, first.packet, first.waited, now, interval);
            let outcome = episode(first.flow, first.packet, first.waited, now, interval);
            let gone = first.flow.packets.len() - outcome.flow.packets.len();
            assert(f.packets.drop_first().skip(gone) =~= f.packets.skip(gone + 1));
        } else if !first.flow.dropping && first.overdue && !can_be_marked(first.packet) {
            assert(first.flow.packets.len() > 0) by {
                if first.flow.packets.len() == 0 {
                    assert(bytes_of(first.flow.packets) == 0);
                }
            }
            assert(f.packets.drop_first().drop_first() =~= f.packets.skip(2));
        }
    }
}

/// Nothing is reordered within a flow: whatever a dequeue does, each bucket is left with a tail of
/// what it held, in order, and the packet delivered is the one just ahead of some bucket's tail.
pub proof fn law_one_flow_keeps_its_order(q: QueueState, now: int)
    requires
        well_formed(q),
    ensures
        ({
            let (after, packet) = dequeued(q, now);
            &&& after.flows.len() == q.flows.len()
            &&& forall|i: int|
                0 <= i < q.flows.len() ==> {
                    let gone = q.flows[i].packets.len() - (
                    #[trigger] after.flows[i]).packets.len();
                    gone >= 0 && after.flows[i].packets == q.flows[i].packets.skip(gone)
                }
            &&& packet is Some ==> exists|i: int|
                #![trigger after.flows[i]]
                0 <= i < q.flows.len() && {
                    let gone = q.flows[i].packets.len() - after.flows[i].packets.len();
                    gone > 0 && sent_as(q.flows[i].packets[gone - 1].packet, packet->0)
                }
        }),
    decreases q.fresh.len() + q.backlogged.len(), total_turns(q.flows),
{
    let (after, packet) = dequeued(q, now);
    assert forall|i: int| 0 <= i < q.flows.len() implies (#[trigger] q.flows[i]).packets.skip(0)
        == q.flows[i].packets by {
        assert(q.flows[i].packets.skip(0) =~= q.flows[i].packets);
    }
    if served(q).len() > 0 {
        lemma_rotated(q);
        let idx = front(q);
        let f = q.flows[idx];
        if f.deficit <= 0 {
            lemma_turns_update(
                q.flows,
                idx,
                FlowState { deficit: f.deficit + QUANTUM as int, ..f },
            );
            let turned = rotated(q);
            law_one_flow_keeps_its_order(turned, now);
            assert forall|i: int| 0 <= i < q.flows.len() implies (
            #[trigger] turned.flows[i]).packets == q.flows[i].packets by {}
            assert forall|i: int| 0 <= i < q.flows.len() implies {
                let gone = q.flows[i].packets.len() - (#[trigger] after.flows[i]).packets.len();
                gone >= 0 && after.flows[i].packets == q.flows[i].packets.skip(gone)
            } by {
                assert(turned.flows[i].packets == q.flows[i].packets);
            }
            if packet is Some {
                let i = choose|i: int|
                    #![trigger after.flows[i]]
                    0 <= i < turned.flows.len() && {
                        let gone = turned.flows[i].packets.len() - after.flows[i].packets.len();
                        gone > 0 && sent_as(turned.flows[i].packets[gone - 1].packet, packet->0)
                    };
                assert(turned.flows[i].packets == q.flows[i].packets);
            }
        } else {
            let outcome = codel(f, now, q.interval);
            law_codel_takes_in_order(f, now, q.interval);
            lemma_codel_keeps(f, now, q.interval);
            if outcome.delivered is Some {
                assert(after.flows[idx].packets == outcome.flow.packets);
            } else {
                let dry = FlowState { listed: false, ..outcome.flow };
                let less = unlisted_front(with_outcome(q, idx, Outcome { flow: dry, ..outcome }));
                lemma_unlisted(q, idx, dry);
                assert(well_formed(less)) by {
                    let plain = unlisted_front(
                        QueueState { flows: q.flows.update(idx, dry), ..q },
                    );
                    assert(well_formed(plain));
                    assert(served(less) =~= served(plain));
                }
                law_one_flow_keeps_its_order(less, now);
                assert forall|i: int| 0 <= i < q.flows.len() implies {
                    let gone = q.flows[i].packets.len() - (
                    #[trigger] after.flows[i]).packets.len();
                    gone >= 0 && after.flows[i].packets == q.flows[i].packets.skip(gone)
                } by {
                    if i == idx {
                        assert(less.flows[i].packets.len() == 0);
                        assert(after.flows[i].packets =~= q.flows[i].packets.skip(
                            q.flows[i].packets.len() as int,
                        ));
                    } else {
                        assert(less.flows[i] == q.flows[i]);
                    }
                }
                if packet is Some {
                    let i = choose|i: int|
                        #![trigger after.flows[i]]
                        0 <= i < less.flows.len() && {
                            let gone = less.flows[i].packets.len() - after.flows[i].packets.len();
                            gone > 0 && sent_as(
                                less.flows[i].packets[gone - 1].packet,
                                packet->0,
                            )
                        };
                    assert(i != idx) by {
                        if i == idx {
                            assert(less.flows[i].packets.len() == 0);
                        }
                    }
                    assert(less.flows[i] == q.flows[i]);
                }
            }
        }
    } else {
        assert(after == q);
    }
}

/// Every packet that leaves is either the one delivered or counted as dropped by CoDel, and none
/// appears from nowhere.
#[verifier::rlimit(40)]
#[verifier::spinoff_prover]
pub proof fn law_every_packet_is_accounted_for(q: QueueState, now: int)
    requires
        well_formed(q),
    ensures
        ({
            let (after, packet) = dequeued(q, now);
            let gone = total_packets(q.flows) - total_packets(after.flows);
            let delivered = if packet is Some {
                1int
            } else {
                0int
            };
            &&& gone >= delivered
            &&& after.over_target == counted(
                q.over_target,
                gone - delivered,
            ) || (gone == delivered && after.over_target == q.over_target)
            &&& packet is None ==> total_packets(after.flows) == 0
        }),
    decreases q.fresh.len() + q.backlogged.len(), total_turns(q.flows),
{
    if served(q).len() > 0 {
        lemma_rotated(q);
        let idx = front(q);
        let f = q.flows[idx];
        if f.deficit <= 0 {
            let more = FlowState { deficit: f.deficit + QUANTUM as int, ..f };
            lemma_turns_update(q.flows, idx, more);
            lemma_totals_update(q.flows, idx, more);
            law_every_packet_is_accounted_for(rotated(q), now);
        } else {
            let outcome = codel(f, now, q.interval);
            law_codel_takes_in_order(f, now, q.interval);
            lemma_codel_keeps(f, now, q.interval);
            if outcome.delivered is Some {
                let packet = outcome.delivered->0;
                let charged = FlowState {
                    deficit: outcome.flow.deficit - packet.len(),
                    ..outcome.flow
                };
                lemma_totals_update(q.flows, idx, charged);
            } else {
                let dry = FlowState { listed: false, ..outcome.flow };
                let less = unlisted_front(with_outcome(q, idx, Outcome { flow: dry, ..outcome }));
                lemma_unlisted(q, idx, dry);
                assert(well_formed(less)) by {
                    let plain = unlisted_front(
                        QueueState { flows: q.flows.update(idx, dry), ..q },
                    );
                    assert(well_formed(plain));
                    assert(served(less) =~= served(plain));
                }
                lemma_totals_update(q.flows, idx, dry);
                law_every_packet_is_accounted_for(less, now);
            }
        }
    } else {
        assert forall|i: int| 0 <= i < q.flows.len() implies (
        #[trigger] q.flows[i]).packets.len() == 0 by {
            if q.flows[i].packets.len() > 0 {
                assert(served(q).contains(i));
            }
        }
        lemma_no_packets(q.flows);
    }
}

/// An episode that leaves a packet behind the one in hand for as long as it goes on delivers one.
proof fn lemma_episode_delivers(
    f: FlowState,
    packet: Seq<u8>,
    wait: int,
    now: int,
    interval: int,
)
    requires
        f.dropping ==> f.packets.len() > 0,
    ensures
        episode(f, packet, wait, now, interval).delivered is Some,
    decreases f.packets.len(),
{
    if f.dropping && due(f, now) && !can_be_marked(packet) {
        let from = f.drop_next->0;
        let more = FlowState { count: (f.count + 1) % 0x1_0000_0000, ..f };
        let next = taken(more, now, interval);
        let then = if next.overdue {
            scheduled(next.flow, from, interval)
        } else {
            FlowState { dropping: false, ..next.flow }
        };
        lemma_overdue_leaves_some(more, now, interval);
        lemma_episode_delivers(then, next.packet, next.waited, now, interval);
    }
}

/// A bucket that is overdue has something behind the packet taken: more than a quantum of it.
proof fn lemma_overdue_leaves_some(f: FlowState, now: int, interval: int)
    ensures
        taken(f, now, interval).overdue ==> taken(f, now, interval).flow.packets.len() > 0,
{
}

/// Congestion never costs a bucket its last packet: one turn of a bucket delivers one exactly where
/// it holds any.
pub proof fn law_codel_delivers_one(f: FlowState, now: int, interval: int)
    ensures
        codel(f, now, interval).delivered is Some <==> f.packets.len() > 0,
{
    if f.packets.len() > 0 {
        let first = taken(f, now, interval);
        lemma_overdue_leaves_some(f, now, interval);
        if first.flow.dropping && first.overdue {
            lemma_episode_delivers(first.flow, first.packet, first.waited, now, interval);
        }
    }
}

/// A queue with packets always gives one up, and one without gives none: a dequeue comes back with
/// nothing exactly where nothing waits.
pub proof fn law_a_queue_with_packets_gives_one(q: QueueState, now: int)
    requires
        well_formed(q),
    ensures
        dequeued(q, now).1 is None <==> total_packets(q.flows) == 0,
    decreases q.fresh.len() + q.backlogged.len(), total_turns(q.flows),
{
    if served(q).len() > 0 {
        lemma_rotated(q);
        let idx = front(q);
        let f = q.flows[idx];
        if f.deficit <= 0 {
            let more = FlowState { deficit: f.deficit + QUANTUM as int, ..f };
            lemma_turns_update(q.flows, idx, more);
            lemma_totals_update(q.flows, idx, more);
            law_a_queue_with_packets_gives_one(rotated(q), now);
        } else {
            let outcome = codel(f, now, q.interval);
            law_codel_delivers_one(f, now, q.interval);
            let dry = FlowState { listed: false, ..outcome.flow };
            lemma_totals_update(q.flows, idx, dry);
            if outcome.delivered is None {
                let less = unlisted_front(with_outcome(q, idx, Outcome { flow: dry, ..outcome }));
                lemma_unlisted(q, idx, dry);
                assert(well_formed(less)) by {
                    let plain = unlisted_front(
                        QueueState { flows: q.flows.update(idx, dry), ..q },
                    );
                    assert(well_formed(plain));
                    assert(served(less) =~= served(plain));
                }
                law_a_queue_with_packets_gives_one(less, now);
            } else {
                lemma_holds_some(q.flows, idx);
            }
        }
    } else {
        law_every_packet_is_accounted_for(q, now);
    }
}

/// Whether a dequeue took what it took from one bucket: that one lost packets off its head, of which
/// the last was sent as `packet` and the others are counted as dropped by CoDel, the wait of the one
/// that was sent was measured, and every other bucket holds what it held.
pub open spec fn taken_from(
    q: QueueState,
    after: QueueState,
    i: int,
    packet: Seq<u8>,
    now: int,
) -> bool {
    let held = q.flows[i].packets;
    let gone = held.len() - after.flows[i].packets.len();
    &&& 0 <= i < q.flows.len()
    &&& after.flows.len() == q.flows.len()
    &&& forall|j: int|
        0 <= j < q.flows.len() && j != i ==> (#[trigger] after.flows[j]).packets
            == q.flows[j].packets
    &&& gone > 0
    &&& after.flows[i].packets == held.skip(gone)
    &&& after.over_target == counted(q.over_target, gone - 1)
    &&& sent_as(held[gone - 1].packet, packet)
    &&& after.worst_wait == longer(q.worst_wait, waited(held[gone - 1].at, now))
}

/// A flow can only hold up itself: a dequeue that delivers takes from one bucket, and what congestion
/// costs is paid by that one; a dequeue that delivers nothing takes nothing.
#[verifier::spinoff_prover]
pub proof fn law_a_dequeue_takes_from_one_bucket(q: QueueState, now: int)
    requires
        well_formed(q),
    ensures
        ({
            let (after, packet) = dequeued(q, now);
            match packet {
                Some(packet) => exists|i: int| #[trigger] taken_from(q, after, i, packet, now),
                None => after.flows.len() == q.flows.len() && forall|j: int|
                    0 <= j < q.flows.len() ==> (#[trigger] after.flows[j]).packets
                        == q.flows[j].packets,
            }
        }),
    decreases q.fresh.len() + q.backlogged.len(), total_turns(q.flows),
{
    let (after, packet) = dequeued(q, now);
    if served(q).len() > 0 {
        lemma_rotated(q);
        let idx = front(q);
        let f = q.flows[idx];
        if f.deficit <= 0 {
            let more = FlowState { deficit: f.deficit + QUANTUM as int, ..f };
            lemma_turns_update(q.flows, idx, more);
            let turned = rotated(q);
            law_a_dequeue_takes_from_one_bucket(turned, now);
            lemma_same_packets(q, turned, after, packet, now);
        } else {
            let outcome = codel(f, now, q.interval);
            law_codel_takes_in_order(f, now, q.interval);
            law_codel_delivers_one(f, now, q.interval);
            if outcome.delivered is Some {
                assert(taken_from(q, after, idx, packet->0, now));
            } else {
                let dry = FlowState { listed: false, ..outcome.flow };
                let less = unlisted_front(with_outcome(q, idx, Outcome { flow: dry, ..outcome }));
                lemma_unlisted(q, idx, dry);
                assert(well_formed(less)) by {
                    let plain = unlisted_front(
                        QueueState { flows: q.flows.update(idx, dry), ..q },
                    );
                    assert(well_formed(plain));
                    assert(served(less) =~= served(plain));
                }
                law_a_dequeue_takes_from_one_bucket(less, now);
                lemma_same_packets(q, less, after, packet, now);
            }
        }
    }
}

/// What is taken from a queue is taken from any other that holds the same packets and has counted as
/// much.
proof fn lemma_same_packets(
    q: QueueState,
    other: QueueState,
    after: QueueState,
    packet: Option<Seq<u8>>,
    now: int,
)
    requires
        other.flows.len() == q.flows.len(),
        forall|j: int|
            0 <= j < q.flows.len() ==> (#[trigger] other.flows[j]).packets == q.flows[j].packets,
        other.over_target == q.over_target || other.over_target == counted(q.over_target, 0),
        other.worst_wait == q.worst_wait || other.worst_wait == longer(q.worst_wait, 0),
        match packet {
            Some(packet) => exists|i: int| #[trigger] taken_from(other, after, i, packet, now),
            None => after.flows.len() == other.flows.len() && forall|j: int|
                0 <= j < other.flows.len() ==> (#[trigger] after.flows[j]).packets
                    == other.flows[j].packets,
        },
    ensures
        match packet {
            Some(packet) => exists|i: int| #[trigger] taken_from(q, after, i, packet, now),
            None => after.flows.len() == q.flows.len() && forall|j: int|
                0 <= j < q.flows.len() ==> (#[trigger] after.flows[j]).packets
                    == q.flows[j].packets,
        },
{
    match packet {
        Some(packet) => {
            let i = choose|i: int| #[trigger] taken_from(other, after, i, packet, now);
            assert(other.flows[i].packets == q.flows[i].packets);
            assert forall|j: int| 0 <= j < q.flows.len() && j != i implies (
            #[trigger] after.flows[j]).packets == q.flows[j].packets by {
                assert(other.flows[j].packets == q.flows[j].packets);
            }
            assert(taken_from(q, after, i, packet, now));
        },
        None => {
            assert forall|j: int| 0 <= j < q.flows.len() implies (
            #[trigger] after.flows[j]).packets == q.flows[j].packets by {
                assert(other.flows[j].packets == q.flows[j].packets);
            }
        },
    }
}

/// A bucket with packets is part of what waits.
proof fn lemma_holds_some(flows: Seq<FlowState>, idx: int)
    requires
        0 <= idx < flows.len(),
    ensures
        flows[idx].packets.len() <= total_packets(flows),
    decreases flows.len(),
{
    if idx < flows.len() - 1 {
        lemma_holds_some(flows.drop_last(), idx);
    }
}

proof fn lemma_no_packets(flows: Seq<FlowState>)
    requires
        forall|i: int| 0 <= i < flows.len() ==> (#[trigger] flows[i]).packets.len() == 0,
    ensures
        total_packets(flows) == 0,
    decreases flows.len(),
{
    if flows.len() > 0 {
        let rest = flows.drop_last();
        assert forall|i: int| 0 <= i < rest.len() implies (#[trigger] rest[i]).packets.len()
            == 0 by {
            assert(rest[i] == flows[i]);
        }
        lemma_no_packets(rest);
    }
}

/// Making room touches nothing but packets at the head of buckets that have some, and the count of
/// what was dropped.
pub proof fn lemma_with_room(q: QueueState, len: nat)
    requires
        well_formed(q),
    ensures
        ({
            let roomy = with_room(q, len);
            &&& well_formed(roomy)
            &&& roomy.flows.len() == q.flows.len()
            &&& roomy.fresh == q.fresh
            &&& roomy.backlogged == q.backlogged
            &&& roomy.interval == q.interval
            &&& roomy.closed == q.closed
            &&& total_bytes(roomy.flows) + len <= LIMIT_BYTES || total_bytes(roomy.flows) == 0
            &&& total_packets(roomy.flows) <= total_packets(q.flows)
            &&& forall|i: int|
                0 <= i < q.flows.len() ==> (#[trigger] roomy.flows[i]).listed
                    == q.flows[i].listed && (q.flows[i].packets.len() == 0 ==> roomy.flows[i]
                    == q.flows[i])
        }),
    decreases total_packets(q.flows),
{
    if total_bytes(q.flows) + len > LIMIT_BYTES && total_bytes(q.flows) > 0 {
        lemma_fattest_head(q);
        let idx = choose|idx: int| is_fattest(q.flows, idx);
        let f = q.flows[idx];
        let left = FlowState { packets: f.packets.drop_first(), ..f };
        lemma_flow_changed(q, idx, left);
        let less = without_fattest_head(q);
        assert(well_formed(less)) by {
            assert(served(less) =~= served(q));
            assert(well_formed(QueueState { flows: q.flows.update(idx, left), ..q }));
        }
        lemma_with_room(less, len);
        let roomy = with_room(q, len);
        assert forall|i: int| 0 <= i < q.flows.len() implies (#[trigger] roomy.flows[i]).listed
            == q.flows[i].listed && (q.flows[i].packets.len() == 0 ==> roomy.flows[i]
            == q.flows[i]) by {
            assert(less.flows[i].listed == q.flows[i].listed);
        }
    }
}

/// A packet filed keeps the queue within its ceiling, unless it is alone and larger than that by
/// itself.
pub proof fn law_push_keeps_the_ceiling(q: QueueState, packet: Seq<u8>, now: int)
    requires
        well_formed(q),
        q.flows.len() == FLOWS,
    ensures
        total_bytes(enqueued(q, packet, now).flows) <= LIMIT_BYTES || total_bytes(
            enqueued(q, packet, now).flows,
        ) == packet.len(),
        well_formed(enqueued(q, packet, now)),
{
    lemma_with_room(q, packet.len());
    let roomy = with_room(q, packet.len());
    let idx = bucket(packet);
    let f = roomy.flows[idx];
    let after = enqueued(q, packet, now);
    let item = Waiting { packet, at: now };
    let kept = thinned_by(f.packets, packet);
    law_thinning_spares_the_rest(f.packets, packet);
    assert(kept.push(item) =~= kept + seq![item]);
    lemma_bytes_concat(kept, seq![item]);
    reveal_with_fuel(bytes_of, 2);
    assert(seq![item].drop_last() =~= Seq::<Waiting>::empty());
    lemma_totals_update(roomy.flows, idx, after.flows[idx]);
    assert(well_formed(after)) by {
        if f.listed {
            lemma_flow_changed(roomy, idx, after.flows[idx]);
            let plain = QueueState { flows: roomy.flows.update(idx, after.flows[idx]), ..roomy };
            assert(well_formed(plain));
            assert(served(after) =~= served(plain));
        } else {
            lemma_listed(roomy, idx, after.flows[idx]);
            let plain = QueueState {
                flows: roomy.flows.update(idx, after.flows[idx]),
                fresh: roomy.fresh.push(idx),
                ..roomy
            };
            assert(well_formed(plain));
            assert(served(after) =~= served(plain));
        }
    }
}

/// Whether a bucket lost nothing but heads, and only while it was the fattest: with the last one it
/// lost, it had as many bytes as any bucket is left with.
pub open spec fn lost_as_fattest(
    before: Seq<FlowState>,
    after: Seq<FlowState>,
    i: int,
) -> bool {
    let gone = before[i].packets.len() - after[i].packets.len();
    &&& gone >= 0
    &&& after[i].packets == before[i].packets.skip(gone)
    &&& gone > 0 ==> forall|j: int|
        0 <= j < after.len() ==> bytes_of((#[trigger] after[j]).packets) <= bytes_of(
            before[i].packets.skip(gone - 1),
        )
}

/// Room is made at the head of the fattest bucket, and nowhere where there is room already.
proof fn lemma_room_from_the_fattest(q: QueueState, len: nat)
    requires
        well_formed(q),
    ensures
        ({
            let roomy = with_room(q, len);
            &&& roomy.flows.len() == q.flows.len()
            &&& forall|i: int|
                0 <= i < q.flows.len() ==> #[trigger] lost_as_fattest(q.flows, roomy.flows, i)
            &&& forall|i: int|
                0 <= i < q.flows.len() ==> bytes_of((#[trigger] roomy.flows[i]).packets)
                    <= bytes_of(q.flows[i].packets)
        }),
    decreases total_packets(q.flows),
{
    assert forall|i: int| 0 <= i < q.flows.len() implies (#[trigger] q.flows[i]).packets.skip(0)
        == q.flows[i].packets by {
        assert(q.flows[i].packets.skip(0) =~= q.flows[i].packets);
    }
    if total_bytes(q.flows) + len > LIMIT_BYTES && total_bytes(q.flows) > 0 {
        lemma_fattest_head(q);
        let idx = choose|idx: int| is_fattest(q.flows, idx);
        let f = q.flows[idx];
        let left = FlowState { packets: f.packets.drop_first(), ..f };
        lemma_flow_changed(q, idx, left);
        let less = without_fattest_head(q);
        assert(well_formed(less)) by {
            assert(served(less) =~= served(q));
            assert(well_formed(QueueState { flows: q.flows.update(idx, left), ..q }));
        }
        lemma_room_from_the_fattest(less, len);
        let roomy = with_room(q, len);
        assert(bytes_of(left.packets) <= bytes_of(f.packets)) by {
            assert(f.packets =~= seq![f.packets[0]] + f.packets.drop_first());
            lemma_bytes_concat(seq![f.packets[0]], f.packets.drop_first());
        }
        assert forall|i: int| 0 <= i < q.flows.len() implies bytes_of(
            (#[trigger] roomy.flows[i]).packets,
        ) <= bytes_of(q.flows[i].packets) by {
            assert(bytes_of(roomy.flows[i].packets) <= bytes_of(less.flows[i].packets));
        }
        assert forall|i: int| 0 <= i < q.flows.len() implies #[trigger] lost_as_fattest(
            q.flows,
            roomy.flows,
            i,
        ) by {
            assert(lost_as_fattest(less.flows, roomy.flows, i));
            if i == idx {
                let later = less.flows[i].packets.len() - roomy.flows[i].packets.len();
                assert(f.packets.drop_first().skip(later) =~= f.packets.skip(later + 1));
                if later > 0 {
                    assert(f.packets.drop_first().skip(later - 1) =~= f.packets.skip(later));
                }
            } else {
                assert(less.flows[i] == q.flows[i]);
            }
        }
    } else {
        assert forall|i: int| 0 <= i < q.flows.len() implies #[trigger] lost_as_fattest(
            q.flows,
            q.flows,
            i,
        ) by {
            assert(q.flows[i].packets.skip(0) == q.flows[i].packets);
        }
    }
}

/// A packet filed waits last in its bucket, behind what it leaves of the acknowledgements there; no
/// other bucket changes, but for heads of the fattest, which go where the packet would not fit and
/// only there; and what waits then is within the ceiling, unless it is that packet alone.
pub proof fn law_a_packet_is_filed_last(q: QueueState, packet: Seq<u8>, now: int)
    requires
        well_formed(q),
        q.flows.len() == FLOWS,
    ensures
        ({
            let roomy = with_room(q, packet.len());
            let after = enqueued(q, packet, now);
            let idx = bucket(packet);
            &&& after.flows.len() == q.flows.len() == roomy.flows.len()
            &&& 0 <= idx < q.flows.len()
            &&& after.flows[idx].packets == thinned_by(roomy.flows[idx].packets, packet).push(
                Waiting { packet, at: now },
            )
            &&& forall|i: int|
                0 <= i < q.flows.len() && i != idx ==> #[trigger] after.flows[i] == roomy.flows[i]
            &&& forall|i: int|
                0 <= i < q.flows.len() ==> #[trigger] lost_as_fattest(q.flows, roomy.flows, i)
            &&& total_bytes(q.flows) + packet.len() <= LIMIT_BYTES ==> roomy == q
            &&& total_bytes(after.flows) <= LIMIT_BYTES || total_bytes(after.flows) == packet.len()
        }),
{
    lemma_room_from_the_fattest(q, packet.len());
    law_push_keeps_the_ceiling(q, packet, now);
}

/// Overflow is taken from the flood: the bucket that loses its head has as many bytes as any, and
/// every bucket with fewer bytes than some other is left as it was.
pub proof fn law_a_flood_is_taken_from_the_flood(q: QueueState, small: int, large: int)
    requires
        total_bytes(q.flows) > 0,
        0 <= small < q.flows.len(),
        0 <= large < q.flows.len(),
        bytes_of(q.flows[small].packets) < bytes_of(q.flows[large].packets),
    ensures
        without_fattest_head(q).flows[small] == q.flows[small],
        total_packets(without_fattest_head(q).flows) == total_packets(q.flows) - 1,
{
    lemma_fattest_head(q);
}

/// A flow that has just started goes ahead of a backlog: with nothing else fresh, a packet filed
/// in a bucket that was not being served is the very next one delivered, as it was filed.
pub proof fn law_a_new_flow_goes_ahead_of_a_backlog(
    q: QueueState,
    packet: Seq<u8>,
    filed: int,
    now: int,
)
    requires
        well_formed(q),
        q.flows.len() == FLOWS,
        q.fresh.len() == 0,
        !q.flows[bucket(packet)].listed,
    ensures
        dequeued(enqueued(q, packet, filed), now).1 == Some(packet),
{
    lemma_with_room(q, packet.len());
    let idx = bucket(packet);
    let roomy = with_room(q, packet.len());
    assert(q.flows[idx].packets.len() == 0);
    assert(roomy.flows[idx] == q.flows[idx]);
    let after = enqueued(q, packet, filed);
    let f = after.flows[idx];
    assert(thinned_by(roomy.flows[idx].packets, packet) =~= Seq::<Waiting>::empty());
    assert(f.packets.len() == 1);
    let first = taken(f, now, after.interval);
    assert(f.packets.drop_first() =~= Seq::<Waiting>::empty());
    assert(bytes_of(first.flow.packets) == 0);
    assert(front(after) == idx);
}

/// Thinning spares everything the newer acknowledgement does not make redundant, and the most
/// recent one that it does: a repeat, an acknowledgement with options and a neighbour's packets
/// all stay, in the order they were.
pub proof fn law_thinning_spares_the_rest(packets: Seq<Waiting>, newer: Seq<u8>)
    ensures
        ({
            let kept = thinned_by(packets, newer);
            let last = last_redundant(packets, newer);
            &&& -1 <= last < packets.len()
            &&& kept.filter(not_redundant(newer)) == packets.filter(not_redundant(newer))
            &&& last >= 0 ==> redundant(packets[last], newer) && kept.contains(packets[last])
            &&& last < 0 ==> kept == packets
            &&& forall|i: int| last < i < packets.len() ==> !redundant(#[trigger] packets[i], newer)
            &&& forall|i: int, j: int|
                0 <= i < j < kept.len() && redundant(kept[i], newer) ==> !redundant(
                    kept[j],
                    newer,
                )
            &&& bytes_of(kept) <= bytes_of(packets)
            &&& kept.len() <= packets.len()
        }),
{
    let keep = not_redundant(newer);
    let last = last_redundant(packets, newer);
    let kept = thinned_by(packets, newer);
    lemma_last_redundant(packets, newer);
    if last >= 0 {
        let before = packets.take(last);
        let from = packets.skip(last);
        assert(packets =~= before + from);
        Seq::filter_distributes_over_add(before, from, keep);
        Seq::filter_distributes_over_add(before.filter(keep), from, keep);
        lemma_filter_twice(before, keep);
        assert(kept[before.filter(keep).len() as int] == packets[last]);
        assert forall|i: int| 0 <= i < before.filter(keep).len() implies keep(
            #[trigger] before.filter(keep)[i],
        ) by {
            lemma_filter_keeps(before, keep);
        }
        assert forall|i: int, j: int| 0 <= i < j < kept.len() && redundant(
            kept[i],
            newer,
        ) implies !redundant(kept[j], newer) by {
            let n = before.filter(keep).len();
            if i < n {
                assert(keep(before.filter(keep)[i]));
            }
            assert(kept[j] == packets[last + (j - n)]);
        }
        lemma_filter_bytes(before, keep);
        lemma_bytes_concat(before, from);
        lemma_bytes_concat(before.filter(keep), from);
    }
}

pub proof fn lemma_last_redundant(packets: Seq<Waiting>, newer: Seq<u8>)
    ensures
        ({
            let last = last_redundant(packets, newer);
            &&& -1 <= last < packets.len()
            &&& last >= 0 ==> redundant(packets[last], newer)
            &&& forall|i: int| last < i < packets.len() ==> !redundant(#[trigger] packets[i], newer)
        }),
    decreases packets.len(),
{
    if packets.len() > 0 && !redundant(packets.last(), newer) {
        let rest = packets.drop_last();
        lemma_last_redundant(rest, newer);
        let last = last_redundant(packets, newer);
        assert forall|i: int| last < i < packets.len() implies !redundant(
            #[trigger] packets[i],
            newer,
        ) by {
            if i < rest.len() {
                assert(rest[i] == packets[i]);
            }
        }
    }
}

proof fn lemma_filter_twice(packets: Seq<Waiting>, keep: spec_fn(Waiting) -> bool)
    ensures
        packets.filter(keep).filter(keep) == packets.filter(keep),
    decreases packets.len(),
{
    reveal(Seq::filter);
    if packets.len() > 0 {
        let rest = packets.drop_last();
        lemma_filter_twice(rest, keep);
        if keep(packets.last()) {
            assert(packets.filter(keep).drop_last() =~= rest.filter(keep));
        }
    }
}

proof fn lemma_filter_keeps(packets: Seq<Waiting>, keep: spec_fn(Waiting) -> bool)
    ensures
        forall|i: int|
            0 <= i < packets.filter(keep).len() ==> keep(#[trigger] packets.filter(keep)[i]),
    decreases packets.len(),
{
    reveal(Seq::filter);
    if packets.len() > 0 {
        lemma_filter_keeps(packets.drop_last(), keep);
    }
}

proof fn lemma_filter_bytes(packets: Seq<Waiting>, keep: spec_fn(Waiting) -> bool)
    ensures
        bytes_of(packets.filter(keep)) <= bytes_of(packets),
        packets.filter(keep).len() <= packets.len(),
    decreases packets.len(),
{
    reveal(Seq::filter);
    if packets.len() > 0 {
        let rest = packets.drop_last();
        lemma_filter_bytes(rest, keep);
        if keep(packets.last()) {
            assert(packets.filter(keep).drop_last() =~= rest.filter(keep));
        }
    }
}

/// What waited out a gap between tunnels is not sent on the next: in a bucket filed in order of
/// time, exactly the packets that waited less than `age` are left, and no standing delay is held
/// against them.
pub proof fn law_what_is_stale_is_gone(q: QueueState, now: int, age: int, i: int)
    requires
        0 <= i < q.flows.len(),
        forall|a: int, b: int|
            0 <= a <= b < q.flows[i].packets.len() ==> q.flows[i].packets[a].at
                <= q.flows[i].packets[b].at,
    ensures
        ({
            let before = q.flows[i].packets;
            let after = without_stale(q, now, age).flows[i];
            let gone = before.len() - after.packets.len();
            &&& after.packets == before.skip(gone)
            &&& gone >= 0
            &&& forall|k: int| 0 <= k < gone ==> waited((#[trigger] before[k]).at, now) >= age
            &&& forall|k: int|
                0 <= k < after.packets.len() ==> waited((#[trigger] after.packets[k]).at, now)
                    < age
            &&& !after.dropping && after.above_since is None
        }),
{
    lemma_stale_heads(q.flows[i].packets, now, age);
}

proof fn lemma_stale_heads(packets: Seq<Waiting>, now: int, age: int)
    requires
        forall|a: int, b: int| 0 <= a <= b < packets.len() ==> packets[a].at <= packets[b].at,
    ensures
        ({
            let gone = stale_heads(packets, now, age);
            &&& gone <= packets.len()
            &&& forall|k: int| 0 <= k < gone ==> waited((#[trigger] packets[k]).at, now) >= age
            &&& forall|k: int|
                gone <= k < packets.len() ==> waited((#[trigger] packets[k]).at, now) < age
        }),
    decreases packets.len(),
{
    if packets.len() > 0 && waited(packets[0].at, now) >= age {
        let rest = packets.drop_first();
        lemma_stale_heads(rest, now, age);
        let gone = stale_heads(packets, now, age);
        assert forall|k: int| 0 <= k < gone implies waited((#[trigger] packets[k]).at, now)
            >= age by {
            if k > 0 {
                assert(rest[k - 1] == packets[k]);
            }
        }
        assert forall|k: int| gone <= k < packets.len() implies waited(
            (#[trigger] packets[k]).at,
            now,
        ) < age by {
            assert(rest[k - 1] == packets[k]);
        }
    } else if packets.len() > 0 {
        assert forall|k: int| 0 <= k < packets.len() implies waited(
            (#[trigger] packets[k]).at,
            now,
        ) < age by {
            assert(packets[0].at <= packets[k].at);
        }
    }
}

/// The interval never leaves its bounds, and a round trip whose multiple is the interval already
/// leaves it where it is.
pub proof fn law_the_interval_follows_the_round_trip(interval: int, rtt: int)
    requires
        rtt >= 0,
    ensures
        INTERVAL_FLOOR <= blended(interval, rtt) <= INTERVAL_CEILING,
        interval == rtt * RTT_TO_INTERVAL && INTERVAL_FLOOR <= interval <= INTERVAL_CEILING
            ==> blended(interval, rtt) == interval,
{
}

} // verus!
