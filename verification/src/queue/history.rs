//! What the worst wait comes to, over everything that happens to a queue.

use vstd::prelude::*;
use crate::queue::laws::{
    law_a_dequeue_takes_from_one_bucket, law_codel_takes_in_order, law_push_keeps_the_ceiling,
    lemma_codel_keeps, lemma_with_room, taken_from,
};
use crate::queue::model::{
    blended, codel, dequeued, empty_queue, enqueued, front, lemma_fattest_head, lemma_flow_changed,
    lemma_rotated, lemma_turns_update, lemma_unlisted, longer, popped, rotated, served, stale_heads,
    total_bytes, total_packets, total_turns, unlisted_front, waited, well_formed, with_outcome,
    with_room, without_fattest_head, without_stale, FlowState, Outcome, QueueState, Waiting,
    LIMIT_BYTES, QUANTUM, STALE_AFTER,
};
use crate::queue::signals::FLOWS;

verus! {

/// What happens to a queue.
pub enum Event {
    /// A packet arrives.
    Pushed { packet: Seq<u8>, at: int },
    /// A batch is taken.
    Popped { max: nat, at: int },
    /// A tunnel comes up, and what is stale goes.
    Freshened { at: int },
    /// A round trip was measured.
    Measured { rtt: int },
    /// The counters are read.
    Read,
    /// The adapter side ends.
    Closed,
}

/// A queue after one event.
pub open spec fn after_event(q: QueueState, event: Event) -> QueueState {
    match event {
        Event::Pushed { packet, at } => if q.closed {
            q
        } else {
            enqueued(q, packet, at)
        },
        Event::Popped { max, at } => popped(q, max, at).0,
        Event::Freshened { at } => without_stale(q, at, STALE_AFTER as int),
        Event::Measured { rtt } => QueueState { interval: blended(q.interval, rtt), ..q },
        Event::Read => QueueState { worst_wait: 0, ..q },
        Event::Closed => QueueState { closed: true, ..q },
    }
}

/// A new queue after these events.
pub open spec fn after_events(events: Seq<Event>) -> QueueState
    decreases events.len(),
{
    if events.len() == 0 {
        empty_queue(FLOWS as nat)
    } else {
        after_event(after_events(events.drop_last()), events.last())
    }
}

/// How long the packet that a dequeue delivers had waited: the last one that left the bucket that
/// lost any.
pub open spec fn delivered_wait(q: QueueState, now: int) -> int {
    let after = dequeued(q, now).0;
    let i = choose|i: int|
        0 <= i < q.flows.len() && (#[trigger] after.flows[i]).packets.len()
            < q.flows[i].packets.len();
    let gone = q.flows[i].packets.len() - after.flows[i].packets.len();
    waited(q.flows[i].packets[gone - 1].at, now)
}

/// How long each packet of a batch had waited.
pub open spec fn batch_waits(q: QueueState, max: nat, now: int) -> Seq<int>
    decreases max,
{
    if max == 0 {
        Seq::empty()
    } else {
        let (before, out) = popped(q, (max - 1) as nat, now);
        let waits = batch_waits(q, (max - 1) as nat, now);
        if out.len() == max - 1 && dequeued(before, now).1 is Some {
            waits.push(delivered_wait(before, now))
        } else {
            waits
        }
    }
}

/// How long each packet had waited that was delivered since the counters were last read, or since
/// the queue was new.
pub open spec fn waits_since_read(events: Seq<Event>) -> Seq<int>
    decreases events.len(),
{
    if events.len() == 0 {
        Seq::empty()
    } else {
        let before = events.drop_last();
        match events.last() {
            Event::Read => Seq::empty(),
            Event::Popped { max, at } => waits_since_read(before) + batch_waits(
                after_events(before),
                max,
                at,
            ),
            _ => waits_since_read(before),
        }
    }
}

/// The longest of these waits, and nothing where there are none.
pub open spec fn longest(waits: Seq<int>) -> int
    decreases waits.len(),
{
    if waits.len() == 0 {
        0
    } else {
        longer(longest(waits.drop_last()), waits.last())
    }
}

proof fn lemma_longest(a: Seq<int>, b: Seq<int>)
    ensures
        longest(a) >= 0,
        longest(a + b) == longer(longest(a), longest(b)),
    decreases a.len() + b.len(),
{
    if b.len() > 0 {
        lemma_longest(a, b.drop_last());
        assert((a + b).drop_last() =~= a + b.drop_last());
    } else {
        assert(a + b =~= a);
        if a.len() > 0 {
            lemma_longest(a.drop_last(), b);
        }
    }
}

/// A dequeue keeps a queue what it always is, and one that delivers nothing measures nothing.
#[verifier::spinoff_prover]
pub proof fn lemma_dequeued(q: QueueState, now: int)
    requires
        well_formed(q),
        q.worst_wait >= 0,
    ensures
        ({
            let (after, packet) = dequeued(q, now);
            &&& well_formed(after)
            &&& after.flows.len() == q.flows.len()
            &&& packet is None ==> after.worst_wait == q.worst_wait
            &&& after.worst_wait >= 0
        }),
    decreases q.fresh.len() + q.backlogged.len(), total_turns(q.flows),
{
    if served(q).len() > 0 {
        lemma_rotated(q);
        let idx = front(q);
        let f = q.flows[idx];
        if f.deficit <= 0 {
            let more = FlowState { deficit: f.deficit + QUANTUM as int, ..f };
            lemma_turns_update(q.flows, idx, more);
            lemma_dequeued(rotated(q), now);
        } else {
            let outcome = codel(f, now, q.interval);
            law_codel_takes_in_order(f, now, q.interval);
            lemma_codel_keeps(f, now, q.interval);
            if outcome.delivered is Some {
                let charged = FlowState {
                    deficit: outcome.flow.deficit - outcome.delivered->0.len(),
                    ..outcome.flow
                };
                lemma_flow_changed(q, idx, charged);
                let plain = QueueState { flows: q.flows.update(idx, charged), ..q };
                assert(served(dequeued(q, now).0) =~= served(plain));
            } else {
                let dry = FlowState { listed: false, ..outcome.flow };
                let less = unlisted_front(with_outcome(q, idx, Outcome { flow: dry, ..outcome }));
                lemma_unlisted(q, idx, dry);
                let plain = unlisted_front(QueueState { flows: q.flows.update(idx, dry), ..q });
                assert(served(less) =~= served(plain));
                lemma_dequeued(less, now);
            }
        }
    }
}

/// What a dequeue measures is how long the packet that it delivers had waited.
proof fn lemma_delivered_wait(q: QueueState, now: int)
    requires
        well_formed(q),
        dequeued(q, now).1 is Some,
    ensures
        dequeued(q, now).0.worst_wait == longer(q.worst_wait, delivered_wait(q, now)),
{
    let (after, packet) = dequeued(q, now);
    law_a_dequeue_takes_from_one_bucket(q, now);
    let from = choose|i: int| #[trigger] taken_from(q, after, i, packet->0, now);
    assert(after.flows[from].packets.len() < q.flows[from].packets.len());
    let i = choose|i: int|
        0 <= i < q.flows.len() && (#[trigger] after.flows[i]).packets.len()
            < q.flows[i].packets.len();
    if i != from {
        assert(after.flows[i].packets == q.flows[i].packets);
    }
}

/// A batch measures the longest wait of the packets in it.
proof fn lemma_batch(q: QueueState, max: nat, now: int)
    requires
        well_formed(q),
        q.worst_wait >= 0,
    ensures
        ({
            let (after, out) = popped(q, max, now);
            &&& well_formed(after)
            &&& after.flows.len() == q.flows.len()
            &&& after.worst_wait == longer(q.worst_wait, longest(batch_waits(q, max, now)))
            &&& batch_waits(q, max, now).len() == out.len() <= max
        }),
    decreases max,
{
    if max > 0 {
        let (before, out) = popped(q, (max - 1) as nat, now);
        let waits = batch_waits(q, (max - 1) as nat, now);
        lemma_batch(q, (max - 1) as nat, now);
        if out.len() == max - 1 {
            lemma_dequeued(before, now);
            if dequeued(before, now).1 is Some {
                lemma_delivered_wait(before, now);
                let wait = delivered_wait(before, now);
                assert(waits.push(wait).drop_last() =~= waits);
            }
        }
    }
}

/// Making room measures nothing: what is dropped for it was not delivered.
proof fn lemma_room_measures_nothing(q: QueueState, len: nat)
    ensures
        with_room(q, len).worst_wait == q.worst_wait,
    decreases total_packets(q.flows),
{
    if total_bytes(q.flows) + len > LIMIT_BYTES && total_bytes(q.flows) > 0 {
        lemma_fattest_head(q);
        lemma_room_measures_nothing(without_fattest_head(q), len);
    }
}

/// A queue rid of what is stale is still what a queue always is.
proof fn lemma_freshened(q: QueueState, now: int, age: int)
    requires
        well_formed(q),
    ensures
        well_formed(without_stale(q, now, age)),
{
    let after = without_stale(q, now, age);
    assert(served(after) =~= served(q));
    assert forall|i: int| 0 <= i < after.flows.len() implies ((
    #[trigger] after.flows[i]).listed <==> (after.fresh + after.backlogged).contains(i)) && (
    after.flows[i].packets.len() > 0 ==> after.flows[i].listed) by {
        lemma_stale_are_there(q.flows[i].packets, now, age);
        assert(q.flows[i].listed <==> served(q).contains(i));
    }
}

proof fn lemma_stale_are_there(packets: Seq<Waiting>, now: int, age: int)
    ensures
        stale_heads(packets, now, age) <= packets.len(),
    decreases packets.len(),
{
    if packets.len() > 0 && waited(packets[0].at, now) >= age {
        lemma_stale_are_there(packets.drop_first(), now, age);
    }
}

/// The worst wait is the longest that a packet delivered since the counters were last read had
/// waited, and nothing where none was: a packet that was dropped, for room, for congestion or for
/// age, counts for nothing. Whatever happens to a queue, it stays what a queue always is.
pub proof fn law_the_worst_wait_is_of_a_delivered_packet(events: Seq<Event>)
    ensures
        after_events(events).worst_wait == longest(waits_since_read(events)),
        well_formed(after_events(events)),
        after_events(events).flows.len() == FLOWS,
    decreases events.len(),
{
    if events.len() == 0 {
        let q = empty_queue(FLOWS as nat);
        assert(served(q) =~= Seq::<int>::empty());
    } else {
        let before = events.drop_last();
        let q = after_events(before);
        let waits = waits_since_read(before);
        law_the_worst_wait_is_of_a_delivered_packet(before);
        lemma_longest(waits, Seq::empty());
        let after = after_event(q, events.last());
        match events.last() {
            Event::Pushed { packet, at } => {
                if !q.closed {
                    lemma_room_measures_nothing(q, packet.len());
                    lemma_with_room(q, packet.len());
                    law_push_keeps_the_ceiling(q, packet, at);
                }
            },
            Event::Popped { max, at } => {
                lemma_batch(q, max, at);
                lemma_longest(waits, batch_waits(q, max, at));
            },
            Event::Freshened { at } => {
                lemma_freshened(q, at, STALE_AFTER as int);
            },
            _ => {
                assert(served(after) =~= served(q));
            },
        }
    }
}

/// Reading the counters twice with nothing between them gives the same again, but for the worst wait,
/// of which there is then nothing to tell.
pub proof fn law_a_second_read_tells_of_no_wait(q: QueueState)
    ensures
        ({
            let once = after_event(q, Event::Read);
            &&& once.worst_wait == 0
            &&& once == (QueueState { worst_wait: 0, ..q })
            &&& after_event(once, Event::Read) == once
        }),
{
}

} // verus!
