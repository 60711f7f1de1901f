//! The queue as a value: what each operation makes of it.
//!
//! A bucket is a sequence of packets with its round-robin credit and its CoDel state, and the
//! queue is its buckets, the two service lists and the counters. Times are nanoseconds on one
//! clock. Counters wrap.

use vstd::prelude::*;
use crate::queue::signals::{bucket, can_be_marked, marked, pure_ack_spec, same_connection_spec};

verus! {

/// CoDel's interval to begin with: 100 ms.
pub const INTERVAL: u64 = 100_000_000;

/// The least interval a measurement may lead to: 50 ms.
pub const INTERVAL_FLOOR: u64 = 50_000_000;

/// The greatest interval a measurement may lead to: 300 ms.
pub const INTERVAL_CEILING: u64 = 300_000_000;

/// What a measured tunnel round trip is multiplied by to get the interval.
///
/// The tunnel leg is one part of the path each inner connection takes, and the rest of it cannot
/// be seen from here. Four is chosen so that an ordinary tunnel leg of 25 ms reproduces the 100 ms
/// default exactly.
pub const RTT_TO_INTERVAL: u64 = 4;

/// How much of the interval a packet may spend waiting before it counts against the queue: one
/// part in this many.
pub const TARGET_SHARE: u64 = 20;

/// Bytes a flow may send per turn. One MTU, so a turn is one packet for the flows that send full
/// ones and several for the flows that send small ones.
pub const QUANTUM: usize = 1280;

/// The hard ceiling, for the case CoDel cannot answer: a burst arriving faster than the tunnel can
/// possibly drain it.
pub const LIMIT_BYTES: usize = 2097152;

/// How long a packet may have waited for a tunnel before it is no longer worth sending on one: one
/// second, the initial retransmission timeout.
pub const STALE_AFTER: u64 = 1_000_000_000;

/// A packet, and when it was put in the queue.
#[verifier::ext_equal]
pub struct Waiting {
    pub packet: Seq<u8>,
    pub at: int,
}

/// One bucket.
#[verifier::ext_equal]
pub struct FlowState {
    pub packets: Seq<Waiting>,
    pub deficit: int,
    /// Whether the bucket is on one of the two service lists.
    pub listed: bool,
    /// When the sojourn time first went above target, plus one interval.
    pub above_since: Option<int>,
    /// When the next drop is due while dropping.
    pub drop_next: Option<int>,
    pub count: int,
    pub dropping: bool,
}

/// The whole queue.
#[verifier::ext_equal]
pub struct QueueState {
    pub flows: Seq<FlowState>,
    pub fresh: Seq<int>,
    pub backlogged: Seq<int>,
    pub over_limit: int,
    pub over_target: int,
    pub marked: int,
    pub thinned: int,
    pub stale: int,
    pub worst_wait: int,
    pub interval: int,
    pub closed: bool,
}

/// A 64-bit counter after `n` more events.
pub open spec fn counted(counter: int, n: int) -> int {
    (counter + n) % 0x1_0000_0000_0000_0000
}

/// The longer of two waits.
pub open spec fn longer(a: int, b: int) -> int {
    if a >= b {
        a
    } else {
        b
    }
}

/// How long a packet put here at `at` has waited by `now`.
pub open spec fn waited(at: int, now: int) -> int {
    if now >= at {
        now - at
    } else {
        0
    }
}

/// The bytes a run of packets comes to.
pub open spec fn bytes_of(packets: Seq<Waiting>) -> nat
    decreases packets.len(),
{
    if packets.len() == 0 {
        0
    } else {
        bytes_of(packets.drop_last()) + packets.last().packet.len()
    }
}

/// The bytes waiting in all buckets.
pub open spec fn total_bytes(flows: Seq<FlowState>) -> nat
    decreases flows.len(),
{
    if flows.len() == 0 {
        0
    } else {
        total_bytes(flows.drop_last()) + bytes_of(flows.last().packets)
    }
}

/// The packets waiting in all buckets.
pub open spec fn total_packets(flows: Seq<FlowState>) -> nat
    decreases flows.len(),
{
    if flows.len() == 0 {
        0
    } else {
        total_packets(flows.drop_last()) + flows.last().packets.len()
    }
}

/// How many buckets hold anything.
pub open spec fn busy_flows(flows: Seq<FlowState>) -> nat
    decreases flows.len(),
{
    if flows.len() == 0 {
        0
    } else {
        busy_flows(flows.drop_last()) + if flows.last().packets.len() > 0 {
            1nat
        } else {
            0nat
        }
    }
}

/// A bucket nothing has been filed into.
pub open spec fn empty_flow() -> FlowState {
    FlowState {
        packets: Seq::empty(),
        deficit: 0,
        listed: false,
        above_since: None,
        drop_next: None,
        count: 0,
        dropping: false,
    }
}

/// A queue nothing has been put into.
pub open spec fn empty_queue(flows: nat) -> QueueState {
    QueueState {
        flows: Seq::new(flows, |i: int| empty_flow()),
        fresh: Seq::empty(),
        backlogged: Seq::empty(),
        over_limit: 0,
        over_target: 0,
        marked: 0,
        thinned: 0,
        stale: 0,
        worst_wait: 0,
        interval: INTERVAL as int,
        closed: false,
    }
}

/// What a queue always is: every bucket with packets is on exactly one service list, once, and the
/// lists name nothing else.
pub open spec fn well_formed(q: QueueState) -> bool {
    &&& forall|i: int|
        0 <= i < q.flows.len() ==> ((#[trigger] q.flows[i]).listed <==> (q.fresh
            + q.backlogged).contains(i))
    &&& forall|i: int|
        0 <= i < q.flows.len() && (#[trigger] q.flows[i]).packets.len() > 0
            ==> q.flows[i].listed
    &&& forall|k: int|
        0 <= k < (q.fresh + q.backlogged).len() ==> 0 <= #[trigger] (q.fresh + q.backlogged)[k]
            < q.flows.len()
    &&& (q.fresh + q.backlogged).no_duplicates()
    &&& INTERVAL_FLOOR <= q.interval <= INTERVAL_CEILING
}

// ── overflow ────────────────────────────────────────────────────────────────────────────────────

/// The bucket responsible for a full queue: the one with the most bytes, the last of them where
/// several have as many.
pub open spec fn is_fattest(flows: Seq<FlowState>, idx: int) -> bool {
    &&& 0 <= idx < flows.len()
    &&& forall|j: int|
        0 <= j < flows.len() ==> bytes_of((#[trigger] flows[j]).packets) <= bytes_of(
            flows[idx].packets,
        )
    &&& forall|j: int|
        idx < j < flows.len() ==> bytes_of((#[trigger] flows[j]).packets) < bytes_of(
            flows[idx].packets,
        )
}

/// The queue with the head of the fattest bucket dropped.
pub open spec fn without_fattest_head(q: QueueState) -> QueueState {
    let idx = choose|idx: int| is_fattest(q.flows, idx);
    let f = q.flows[idx];
    QueueState {
        flows: q.flows.update(idx, FlowState { packets: f.packets.drop_first(), ..f }),
        over_limit: counted(q.over_limit, 1),
        ..q
    }
}

/// The queue with room made for `len` more bytes: the fattest bucket loses its head for as long as
/// the limit would be passed and there are any bytes to take.
pub open spec fn with_room(q: QueueState, len: nat) -> QueueState
    decreases total_packets(q.flows),
{
    if total_bytes(q.flows) + len > LIMIT_BYTES && total_bytes(q.flows) > 0 {
        proof {
            lemma_fattest_exists(q.flows);
            lemma_fattest_head(q);
        }
        with_room(without_fattest_head(q), len)
    } else {
        q
    }
}

// ── acknowledgements ────────────────────────────────────────────────────────────────────────────

/// Whether acknowledging `newer` is acknowledging strictly more than `older`, on numbers that wrap.
pub open spec fn ahead(newer: u32, older: u32) -> bool {
    1 <= (newer - older) % 0x1_0000_0000 < 0x8000_0000
}

/// Whether a waiting packet says nothing that the acknowledgement `newer` does not say.
pub open spec fn redundant(older: Waiting, newer: Seq<u8>) -> bool {
    match (pure_ack_spec(newer), pure_ack_spec(older.packet)) {
        (Some(acked), Some(before)) => ahead(acked, before) && same_connection_spec(
            newer,
            older.packet,
        ),
        _ => false,
    }
}

/// Where the last packet that `newer` makes redundant waits, or -1 when there is none.
pub open spec fn last_redundant(packets: Seq<Waiting>, newer: Seq<u8>) -> int
    decreases packets.len(),
{
    if packets.len() == 0 {
        -1
    } else if redundant(packets.last(), newer) {
        packets.len() - 1
    } else {
        last_redundant(packets.drop_last(), newer)
    }
}

/// What `newer` leaves of the packets waiting ahead of the last redundant one.
pub open spec fn not_redundant(newer: Seq<u8>) -> spec_fn(Waiting) -> bool {
    |w: Waiting| !redundant(w, newer)
}

/// A bucket's packets once `newer` has been taken into account: the most recent redundant one
/// stays, those behind it go, and everything else stays where it was.
pub open spec fn thinned_by(packets: Seq<Waiting>, newer: Seq<u8>) -> Seq<Waiting> {
    let last = last_redundant(packets, newer);
    if last < 0 {
        packets
    } else {
        packets.take(last).filter(not_redundant(newer)) + packets.skip(last)
    }
}

/// The queue after a packet has been filed at `now`.
pub open spec fn enqueued(q: QueueState, packet: Seq<u8>, now: int) -> QueueState {
    let roomy = with_room(q, packet.len());
    let idx = bucket(packet);
    let f = roomy.flows[idx];
    let kept = thinned_by(f.packets, packet);
    let filed = FlowState {
        packets: kept.push(Waiting { packet, at: now }),
        deficit: if f.listed {
            f.deficit
        } else {
            QUANTUM as int
        },
        listed: true,
        ..f
    };
    QueueState {
        flows: roomy.flows.update(idx, filed),
        fresh: if f.listed {
            roomy.fresh
        } else {
            roomy.fresh.push(idx)
        },
        thinned: counted(roomy.thinned, f.packets.len() - kept.len()),
        ..roomy
    }
}

// ── CoDel ───────────────────────────────────────────────────────────────────────────────────────

/// How long a packet may wait before it counts against the queue.
pub open spec fn target(interval: int) -> int {
    interval / TARGET_SHARE as int
}

/// Whether `step` is `interval / sqrt(count)`, rounded to the nearest nanosecond.
pub open spec fn is_control_step(step: int, interval: int, count: int) -> bool {
    &&& 0 <= step
    &&& (2 * interval) * (2 * interval) < (2 * step + 1) * (2 * step + 1) * count
    &&& step > 0 ==> (2 * step - 1) * (2 * step - 1) * count <= (2 * interval) * (2 * interval)
}

/// The control law: drops come `interval / sqrt(count)` apart, so the rate rises as the square
/// root of how long the queue has refused to drain.
pub open spec fn control_step(interval: int, count: int) -> int {
    choose|step: int| is_control_step(step, interval, count)
}

/// A bucket with its next drop scheduled one step after `from`.
pub open spec fn scheduled(f: FlowState, from: int, interval: int) -> FlowState {
    FlowState { drop_next: Some(from + control_step(interval, longer(f.count, 1))), ..f }
}

/// A packet taken off the head of a bucket.
#[verifier::ext_equal]
pub struct Taken {
    pub flow: FlowState,
    pub packet: Seq<u8>,
    /// Whether the bucket has been standing for a whole interval.
    pub overdue: bool,
    pub waited: int,
}

/// Take the head of a bucket. Standing delay is a wait over target with more than a quantum still
/// behind it; it is overdue once it has lasted an interval.
pub open spec fn taken(f: FlowState, now: int, interval: int) -> Taken {
    let head = f.packets[0];
    let rest = f.packets.drop_first();
    let wait = waited(head.at, now);
    let standing = wait >= target(interval) && bytes_of(rest) > QUANTUM;
    Taken {
        flow: FlowState {
            packets: rest,
            above_since: if !standing {
                None
            } else if f.above_since is None {
                Some(now + interval)
            } else {
                f.above_since
            },
            ..f
        },
        packet: head.packet,
        overdue: standing && f.above_since is Some && now >= f.above_since->0,
        waited: wait,
    }
}

/// What CoDel made of one turn of a bucket.
#[verifier::ext_equal]
pub struct Outcome {
    pub flow: FlowState,
    pub delivered: Option<Seq<u8>>,
    pub dropped: int,
    pub marked: int,
    /// How long the packet delivered had waited, and nothing where none was.
    pub waited: int,
}

/// Whether the next drop of an episode is due.
pub open spec fn due(f: FlowState, now: int) -> bool {
    f.drop_next is Some && now >= f.drop_next->0
}

/// An episode going on: for as long as a drop is due, the packet in hand carries the signal, by a
/// mark it keeps or by not being delivered, in which case the next one is in hand. `wait` is how long
/// the packet in hand has waited.
pub open spec fn episode(
    f: FlowState,
    packet: Seq<u8>,
    wait: int,
    now: int,
    interval: int,
) -> Outcome
    decreases f.packets.len(),
{
    if !(f.dropping && due(f, now)) {
        Outcome { flow: f, delivered: Some(packet), dropped: 0, marked: 0, waited: wait }
    } else {
        let from = f.drop_next->0;
        let more = FlowState { count: (f.count + 1) % 0x1_0000_0000, ..f };
        if can_be_marked(packet) {
            Outcome {
                flow: scheduled(more, from, interval),
                delivered: Some(marked(packet)),
                dropped: 0,
                marked: 1,
                waited: wait,
            }
        } else if f.packets.len() == 0 {
            Outcome {
                flow: FlowState { dropping: false, ..more },
                delivered: None,
                dropped: 1,
                marked: 0,
                waited: 0,
            }
        } else {
            let next = taken(more, now, interval);
            let then = episode(
                if next.overdue {
                    scheduled(next.flow, from, interval)
                } else {
                    FlowState { dropping: false, ..next.flow }
                },
                next.packet,
                next.waited,
                now,
                interval,
            );
            Outcome { dropped: then.dropped + 1, ..then }
        }
    }
}

/// A bucket entering an episode. Coming back within sixteen intervals of the last one resumes the
/// drop rate near where it left off rather than from the beginning.
pub open spec fn entered(f: FlowState, now: int, interval: int) -> FlowState {
    let resumed = f.drop_next is Some && waited(f.drop_next->0, now) < 16 * interval;
    scheduled(
        FlowState {
            count: if f.count > 2 && resumed {
                f.count - 2
            } else {
                1
            },
            dropping: true,
            ..f
        },
        now,
        interval,
    )
}

/// CoDel proper: deliver the head, unless the bucket has been standing, in which case the head
/// carries the congestion signal away.
pub open spec fn codel(f: FlowState, now: int, interval: int) -> Outcome {
    if f.packets.len() == 0 {
        Outcome { flow: f, delivered: None, dropped: 0, marked: 0, waited: 0 }
    } else {
        let first = taken(f, now, interval);
        if first.flow.dropping && first.overdue {
            episode(first.flow, first.packet, first.waited, now, interval)
        } else if first.flow.dropping || !first.overdue {
            Outcome {
                flow: FlowState { dropping: false, ..first.flow },
                delivered: Some(first.packet),
                dropped: 0,
                marked: 0,
                waited: first.waited,
            }
        } else if can_be_marked(first.packet) {
            Outcome {
                flow: entered(first.flow, now, interval),
                delivered: Some(marked(first.packet)),
                dropped: 0,
                marked: 1,
                waited: first.waited,
            }
        } else {
            // Overdue means more than a quantum is still waiting, so there is a next packet.
            let next = taken(first.flow, now, interval);
            Outcome {
                flow: entered(next.flow, now, interval),
                delivered: Some(next.packet),
                dropped: 1,
                marked: 0,
                waited: next.waited,
            }
        }
    }
}

// ── scheduling between flows ────────────────────────────────────────────────────────────────────

/// How many more turns a bucket waits before it may send.
pub open spec fn turns_owed(deficit: int) -> nat {
    if deficit > 0 {
        0
    } else {
        ((-deficit) / QUANTUM as int + 1) as nat
    }
}

/// The turns all buckets together still wait.
pub open spec fn total_turns(flows: Seq<FlowState>) -> nat
    decreases flows.len(),
{
    if flows.len() == 0 {
        0
    } else {
        total_turns(flows.drop_last()) + turns_owed(flows.last().deficit)
    }
}

/// The queue with the bucket in front of its list taken off that list.
pub open spec fn unlisted_front(q: QueueState) -> QueueState {
    if q.fresh.len() > 0 {
        QueueState { fresh: q.fresh.drop_first(), ..q }
    } else {
        QueueState { backlogged: q.backlogged.drop_first(), ..q }
    }
}

/// The bucket whose turn it is: fresh ones first, and only then the ones already backlogged.
pub open spec fn front(q: QueueState) -> int {
    if q.fresh.len() > 0 {
        q.fresh[0]
    } else {
        q.backlogged[0]
    }
}

/// The queue with CoDel's outcome for one bucket taken in.
pub open spec fn with_outcome(q: QueueState, idx: int, outcome: Outcome) -> QueueState {
    QueueState {
        flows: q.flows.update(idx, outcome.flow),
        over_target: counted(q.over_target, outcome.dropped),
        marked: counted(q.marked, outcome.marked),
        worst_wait: longer(q.worst_wait, outcome.waited),
        ..q
    }
}

/// The next packet to send and the queue without it, chosen between flows by deficit round-robin
/// and filtered by CoDel within one.
///
/// A bucket that has spent its credit gets a quantum more and goes to the back of the backlogged
/// list. A bucket that ran dry is unlisted, so its next packet makes it fresh again.
pub open spec fn dequeued(q: QueueState, now: int) -> (QueueState, Option<Seq<u8>>)
    decreases q.fresh.len() + q.backlogged.len(), total_turns(q.flows),
{
    let idx = front(q);
    if q.fresh.len() + q.backlogged.len() == 0 || !(0 <= idx < q.flows.len()) {
        (q, None)
    } else {
        let f = q.flows[idx];
        if f.deficit <= 0 {
            let rotated = rotated(q);
            proof {
                lemma_turns_update(
                    q.flows,
                    idx,
                    FlowState { deficit: f.deficit + QUANTUM as int, ..f },
                );
            }
            dequeued(rotated, now)
        } else {
            let outcome = codel(f, now, q.interval);
            match outcome.delivered {
                Some(packet) => {
                    let charged = FlowState {
                        deficit: outcome.flow.deficit - packet.len(),
                        ..outcome.flow
                    };
                    (with_outcome(q, idx, Outcome { flow: charged, ..outcome }), Some(packet))
                },
                None => {
                    let dry = FlowState { listed: false, ..outcome.flow };
                    dequeued(
                        unlisted_front(with_outcome(q, idx, Outcome { flow: dry, ..outcome })),
                        now,
                    )
                },
            }
        }
    }
}

/// The queue with the bucket in front given a quantum and sent to the back of the backlogged list.
pub open spec fn rotated(q: QueueState) -> QueueState {
    let idx = front(q);
    let f = q.flows[idx];
    let off = unlisted_front(q);
    QueueState {
        flows: q.flows.update(idx, FlowState { deficit: f.deficit + QUANTUM as int, ..f }),
        backlogged: off.backlogged.push(idx),
        ..off
    }
}

/// Up to `max` packets taken one after another, stopping when there is none.
pub open spec fn popped(q: QueueState, max: nat, now: int) -> (QueueState, Seq<Seq<u8>>)
    decreases max,
{
    if max == 0 {
        (q, Seq::empty())
    } else {
        let (before, out) = popped(q, (max - 1) as nat, now);
        if out.len() < max - 1 {
            (before, out)
        } else {
            match dequeued(before, now) {
                (after, Some(packet)) => (after, out.push(packet)),
                (after, None) => (after, out),
            }
        }
    }
}

// ── a gap between tunnels ───────────────────────────────────────────────────────────────────────

/// How many packets at the head of a bucket have waited `age` or longer.
pub open spec fn stale_heads(packets: Seq<Waiting>, now: int, age: int) -> nat
    decreases packets.len(),
{
    if packets.len() > 0 && waited(packets[0].at, now) >= age {
        1 + stale_heads(packets.drop_first(), now, age)
    } else {
        0
    }
}

/// A bucket rid of its stale heads and of the standing delay they stood for.
pub open spec fn refreshed(f: FlowState, now: int, age: int) -> FlowState {
    FlowState {
        packets: f.packets.skip(stale_heads(f.packets, now, age) as int),
        above_since: None,
        dropping: false,
        ..f
    }
}

/// The queue with every bucket rid of what waited `age` or longer.
pub open spec fn without_stale(q: QueueState, now: int, age: int) -> QueueState {
    let flows = Seq::new(q.flows.len(), |i: int| refreshed(q.flows[i], now, age));
    QueueState {
        flows,
        stale: counted(q.stale, total_packets(q.flows) - total_packets(flows)),
        ..q
    }
}

// ── the measured round trip ─────────────────────────────────────────────────────────────────────

/// A seven-eighths average of the interval and four times a measured round trip, held between the
/// floor and the ceiling.
pub open spec fn blended(interval: int, rtt: int) -> int {
    let raw = (interval * 7 + rtt * RTT_TO_INTERVAL) / 8;
    if raw < INTERVAL_FLOOR {
        INTERVAL_FLOOR as int
    } else if raw > INTERVAL_CEILING {
        INTERVAL_CEILING as int
    } else {
        raw
    }
}

// ── sums over buckets ───────────────────────────────────────────────────────────────────────────

pub proof fn lemma_turns_update(flows: Seq<FlowState>, idx: int, f: FlowState)
    requires
        0 <= idx < flows.len(),
    ensures
        total_turns(flows.update(idx, f)) == total_turns(flows) - turns_owed(flows[idx].deficit)
            + turns_owed(f.deficit),
    decreases flows.len(),
{
    let last = flows.len() - 1;
    if idx == last {
        assert(flows.update(idx, f).drop_last() =~= flows.drop_last());
    } else {
        assert(flows.update(idx, f).drop_last() =~= flows.drop_last().update(idx, f));
        lemma_turns_update(flows.drop_last(), idx, f);
    }
}

/// Changing one bucket changes the totals by what changed in it.
pub proof fn lemma_totals_update(flows: Seq<FlowState>, idx: int, f: FlowState)
    requires
        0 <= idx < flows.len(),
    ensures
        total_bytes(flows.update(idx, f)) == total_bytes(flows) - bytes_of(flows[idx].packets)
            + bytes_of(f.packets),
        total_packets(flows.update(idx, f)) == total_packets(flows) - flows[idx].packets.len()
            + f.packets.len(),
        bytes_of(flows[idx].packets) <= total_bytes(flows),
        flows[idx].packets.len() <= total_packets(flows),
    decreases flows.len(),
{
    let last = flows.len() - 1;
    if idx == last {
        assert(flows.update(idx, f).drop_last() =~= flows.drop_last());
    } else {
        assert(flows.update(idx, f).drop_last() =~= flows.drop_last().update(idx, f));
        lemma_totals_update(flows.drop_last(), idx, f);
    }
}

pub proof fn lemma_bytes_concat(a: Seq<Waiting>, b: Seq<Waiting>)
    ensures
        bytes_of(a + b) == bytes_of(a) + bytes_of(b),
    decreases b.len(),
{
    if b.len() == 0 {
        assert(a + b =~= a);
    } else {
        assert((a + b).drop_last() =~= a + b.drop_last());
        lemma_bytes_concat(a, b.drop_last());
    }
}

/// Taking the head of a run of packets takes its bytes.
pub proof fn lemma_bytes_drop_first(packets: Seq<Waiting>)
    requires
        packets.len() > 0,
    ensures
        bytes_of(packets) == packets[0].packet.len() + bytes_of(packets.drop_first()),
{
    let head = seq![packets[0]];
    assert(packets =~= head + packets.drop_first());
    lemma_bytes_concat(head, packets.drop_first());
    reveal_with_fuel(bytes_of, 2);
    assert(head.drop_last() =~= Seq::empty());
}

/// Some bucket is the fattest.
pub proof fn lemma_fattest_exists(flows: Seq<FlowState>)
    requires
        flows.len() > 0,
    ensures
        exists|idx: int| is_fattest(flows, idx),
    decreases flows.len(),
{
    let last = flows.len() - 1;
    if last == 0 {
        assert(is_fattest(flows, 0));
    } else {
        let rest = flows.drop_last();
        lemma_fattest_exists(rest);
        let idx = choose|idx: int| is_fattest(rest, idx);
        if bytes_of(flows[last].packets) >= bytes_of(flows[idx].packets) {
            assert forall|j: int| 0 <= j < flows.len() implies bytes_of(
                (#[trigger] flows[j]).packets,
            ) <= bytes_of(flows[last].packets) by {
                if j < last {
                    assert(rest[j] == flows[j]);
                }
            }
            assert(is_fattest(flows, last));
        } else {
            assert(rest[idx] == flows[idx]);
            assert forall|j: int| 0 <= j < flows.len() implies bytes_of(
                (#[trigger] flows[j]).packets,
            ) <= bytes_of(flows[idx].packets) by {
                if j < last {
                    assert(rest[j] == flows[j]);
                }
            }
            assert forall|j: int| idx < j < flows.len() implies bytes_of(
                (#[trigger] flows[j]).packets,
            ) < bytes_of(flows[idx].packets) by {
                if j < last {
                    assert(rest[j] == flows[j]);
                }
            }
            assert(is_fattest(flows, idx));
        }
    }
}

/// Only one bucket is the fattest.
pub proof fn lemma_fattest_unique(flows: Seq<FlowState>, a: int, b: int)
    requires
        is_fattest(flows, a),
        is_fattest(flows, b),
    ensures
        a == b,
{
    if a < b {
        assert(bytes_of(flows[b].packets) < bytes_of(flows[a].packets));
    } else if b < a {
        assert(bytes_of(flows[a].packets) < bytes_of(flows[b].packets));
    }
}

/// When there are bytes at all, the fattest bucket has some.
pub proof fn lemma_fattest_has_bytes(flows: Seq<FlowState>, idx: int)
    requires
        is_fattest(flows, idx),
    ensures
        total_bytes(flows) > 0 <==> bytes_of(flows[idx].packets) > 0,
        bytes_of(flows[idx].packets) > 0 ==> flows[idx].packets.len() > 0,
{
    lemma_totals_update(flows, idx, flows[idx]);
    if bytes_of(flows[idx].packets) == 0 {
        assert forall|j: int| 0 <= j < flows.len() implies bytes_of(
            (#[trigger] flows[j]).packets,
        ) == 0 by {}
        lemma_no_bytes(flows);
    }
}

proof fn lemma_no_bytes(flows: Seq<FlowState>)
    requires
        forall|j: int| 0 <= j < flows.len() ==> bytes_of((#[trigger] flows[j]).packets) == 0,
    ensures
        total_bytes(flows) == 0,
    decreases flows.len(),
{
    if flows.len() > 0 {
        let rest = flows.drop_last();
        assert forall|j: int| 0 <= j < rest.len() implies bytes_of(
            (#[trigger] rest[j]).packets,
        ) == 0 by {
            assert(rest[j] == flows[j]);
        }
        lemma_no_bytes(rest);
    }
}

/// Dropping the fattest bucket's head takes one packet and its bytes.
pub proof fn lemma_fattest_head(q: QueueState)
    requires
        total_bytes(q.flows) > 0,
    ensures
        total_packets(without_fattest_head(q).flows) == total_packets(q.flows) - 1,
        ({
            let idx = choose|idx: int| is_fattest(q.flows, idx);
            &&& is_fattest(q.flows, idx)
            &&& q.flows[idx].packets.len() > 0
            &&& total_bytes(without_fattest_head(q).flows) == total_bytes(q.flows)
                - q.flows[idx].packets[0].packet.len()
        }),
{
    lemma_fattest_exists(q.flows);
    let idx = choose|idx: int| is_fattest(q.flows, idx);
    lemma_fattest_has_bytes(q.flows, idx);
    let f = q.flows[idx];
    lemma_bytes_drop_first(f.packets);
    lemma_totals_update(q.flows, idx, FlowState { packets: f.packets.drop_first(), ..f });
}

/// The buckets on the service lists, in the order they are served.
pub open spec fn served(q: QueueState) -> Seq<int> {
    q.fresh + q.backlogged
}

/// Sending the front of the service order to its back lists the same buckets.
pub proof fn lemma_rotated(q: QueueState)
    requires
        well_formed(q),
        served(q).len() > 0,
    ensures
        well_formed(rotated(q)),
        front(q) == served(q)[0],
        0 <= front(q) < q.flows.len(),
{
    let all = served(q);
    let turned = served(rotated(q));
    assert(front(q) == all[0]);
    assert(turned =~= all.drop_first().push(all[0]));
    assert forall|i: int| all.contains(i) == turned.contains(i) by {
        if all.contains(i) {
            let k = choose|k: int| 0 <= k < all.len() && all[k] == i;
            if k == 0 {
                assert(turned[all.len() - 1] == i);
            } else {
                assert(turned[k - 1] == i);
            }
        }
        if turned.contains(i) {
            let k = choose|k: int| 0 <= k < turned.len() && turned[k] == i;
            if k == all.len() - 1 {
                assert(all[0] == i);
            } else {
                assert(all[k + 1] == i);
            }
        }
    }
    assert forall|k: int| 0 <= k < turned.len() implies 0 <= #[trigger] turned[k]
        < q.flows.len() by {
        assert(all.contains(turned[k])) by {
            assert(turned.contains(turned[k]));
        }
    }
    assert(turned.no_duplicates()) by {
        assert forall|a: int, b: int| 0 <= a < turned.len() && 0 <= b < turned.len() && a
            != b implies turned[a] != turned[b] by {
            let from_a = if a == all.len() - 1 {
                0
            } else {
                a + 1
            };
            let from_b = if b == all.len() - 1 {
                0
            } else {
                b + 1
            };
            assert(turned[a] == all[from_a] && turned[b] == all[from_b] && from_a != from_b);
        }
    }
    let r = rotated(q);
    assert forall|i: int| 0 <= i < r.flows.len() implies ((#[trigger] r.flows[i]).listed <==> (
    r.fresh + r.backlogged).contains(i)) && (r.flows[i].packets.len() > 0
        ==> r.flows[i].listed) by {
        assert(q.flows[i].listed <==> all.contains(i));
    }
}

/// Taking a dry bucket off its list leaves the others where they are.
pub proof fn lemma_unlisted(q: QueueState, idx: int, f: FlowState)
    requires
        well_formed(q),
        served(q).len() > 0,
        idx == front(q),
        f.packets.len() == 0,
        !f.listed,
    ensures
        well_formed(unlisted_front(QueueState { flows: q.flows.update(idx, f), ..q })),
{
    let r = unlisted_front(QueueState { flows: q.flows.update(idx, f), ..q });
    let all = served(q);
    let rest = served(r);
    assert(idx == all[0]);
    assert(rest =~= all.drop_first());
    assert forall|i: int| rest.contains(i) == (all.contains(i) && i != idx) by {
        if all.contains(i) && i != idx {
            let k = choose|k: int| 0 <= k < all.len() && all[k] == i;
            assert(rest[k - 1] == i);
        }
        if rest.contains(i) {
            let k = choose|k: int| 0 <= k < rest.len() && rest[k] == i;
            assert(all[k + 1] == i);
        }
    }
    assert forall|i: int| 0 <= i < r.flows.len() implies ((#[trigger] r.flows[i]).listed <==> (
    r.fresh + r.backlogged).contains(i)) && (r.flows[i].packets.len() > 0
        ==> r.flows[i].listed) by {
        assert(q.flows[i].listed <==> all.contains(i));
    }
}

/// A bucket on a list may change in any way but be taken off it.
pub proof fn lemma_flow_changed(q: QueueState, idx: int, f: FlowState)
    requires
        well_formed(q),
        0 <= idx < q.flows.len(),
        f.listed == q.flows[idx].listed,
        f.packets.len() > 0 ==> f.listed,
    ensures
        well_formed(QueueState { flows: q.flows.update(idx, f), ..q }),
{
    let r = QueueState { flows: q.flows.update(idx, f), ..q };
    assert forall|i: int| 0 <= i < r.flows.len() implies ((#[trigger] r.flows[i]).listed <==> (
    r.fresh + r.backlogged).contains(i)) && (r.flows[i].packets.len() > 0
        ==> r.flows[i].listed) by {
        assert(q.flows[i].listed <==> served(q).contains(i));
    }
}

/// A bucket newly listed goes to the end of the fresh ones.
pub proof fn lemma_listed(q: QueueState, idx: int, f: FlowState)
    requires
        well_formed(q),
        0 <= idx < q.flows.len(),
        !q.flows[idx].listed,
        f.listed,
    ensures
        well_formed(
            QueueState { flows: q.flows.update(idx, f), fresh: q.fresh.push(idx), ..q },
        ),
{
    let r = QueueState { flows: q.flows.update(idx, f), fresh: q.fresh.push(idx), ..q };
    let all = served(q);
    let more = served(r);
    let at = q.fresh.len() as int;
    assert(!all.contains(idx));
    assert forall|k: int| 0 <= k < more.len() implies #[trigger] more[k] == if k < at {
        all[k]
    } else if k == at {
        idx
    } else {
        all[k - 1]
    } by {}
    assert forall|i: int| more.contains(i) == (all.contains(i) || i == idx) by {
        if all.contains(i) {
            let k = choose|k: int| 0 <= k < all.len() && all[k] == i;
            if k < at {
                assert(more[k] == i);
            } else {
                assert(more[k + 1] == i);
            }
        }
        if i == idx {
            assert(more[at] == i);
        }
        if more.contains(i) && i != idx {
            let k = choose|k: int| 0 <= k < more.len() && more[k] == i;
            if k < at {
                assert(all[k] == i);
            } else {
                assert(all[k - 1] == i);
            }
        }
    }
    assert(more.no_duplicates()) by {
        assert forall|a: int, b: int| 0 <= a < more.len() && 0 <= b < more.len() && a
            != b implies more[a] != more[b] by {
            let from_a = if a < at {
                a
            } else {
                a - 1
            };
            let from_b = if b < at {
                b
            } else {
                b - 1
            };
            if a == at {
                assert(all.contains(all[from_b]));
            } else if b == at {
                assert(all.contains(all[from_a]));
            } else {
                assert(from_a != from_b);
            }
        }
    }
    assert forall|i: int| 0 <= i < r.flows.len() implies ((#[trigger] r.flows[i]).listed <==> (
    r.fresh + r.backlogged).contains(i)) && (r.flows[i].packets.len() > 0
        ==> r.flows[i].listed) by {
        assert(q.flows[i].listed <==> all.contains(i));
    }
}

/// There is one control step for an interval and a count, and it is no longer than the interval.
pub proof fn lemma_control_step(step: int, interval: int, count: int)
    requires
        is_control_step(step, interval, count),
        interval >= 0,
        count >= 1,
    ensures
        step == control_step(interval, count),
        step <= interval,
{
    let other = control_step(interval, count);
    assert(is_control_step(other, interval, count));
    if step < other {
        assert((2 * step + 1) * (2 * step + 1) * count <= (2 * other - 1) * (2 * other - 1) * count)
            by (nonlinear_arith)
            requires
                0 <= step < other,
                count >= 1,
        ;
    } else if other < step {
        assert((2 * other + 1) * (2 * other + 1) * count <= (2 * step - 1) * (2 * step - 1) * count)
            by (nonlinear_arith)
            requires
                0 <= other < step,
                count >= 1,
        ;
    }
    if step > interval {
        assert((2 * interval) * (2 * interval) < (2 * step - 1) * (2 * step - 1) * count)
            by (nonlinear_arith)
            requires
                0 <= interval < step,
                count >= 1,
        ;
    }
}

} // verus!
