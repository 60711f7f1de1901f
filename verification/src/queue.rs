//! Flow queueing and CoDel on the way into the tunnel.
//!
//! This is the upload path only: packets read from the adapter, waiting to be written to the
//! endpoint. Nothing queues in the other direction.
//!
//! **Flow queueing.** Packets are filed into buckets by 5-tuple and served by deficit round-robin,
//! so a flow can only hold up itself. A bucket that was empty is served *before* the backlogged
//! ones: the half that fixes the symptom, since every new request is a new flow. Never within a
//! flow: each bucket is a FIFO, because inner TCP reads reordering as loss.
//!
//! **CoDel.** A packet waiting longer than the target, for longer than the interval, is told to
//! slow down, marked if it carries ECT and dropped otherwise, at a rate rising with the square
//! root of how long the queue refuses to drain. Over HTTP/2 the outer TCP delivers everything
//! reliably, so the connections inside the tunnel never see loss and never back off; this is where
//! their congestion signal has to come from.
//!
//! Every operation is told the time, in nanoseconds on one clock.

use std::collections::VecDeque;
use vstd::prelude::*;

mod flow;
pub mod history;
pub mod laws;
pub mod model;
pub mod signals;
pub mod standing;
pub mod thinning;

use crate::queue::flow::{on_the_clock, Flow};
use crate::queue::model::{
    blended, busy_flows, bytes_of, counted, dequeued, empty_queue, enqueued, front, is_fattest,
    lemma_fattest_head, lemma_fattest_unique, lemma_flow_changed, lemma_listed, lemma_rotated,
    lemma_totals_update, lemma_turns_update, lemma_unlisted, longer, popped, refreshed, rotated,
    served, target, thinned_by, total_bytes, total_packets, total_turns, unlisted_front,
    well_formed, with_outcome, with_room, without_fattest_head, without_stale, FlowState, Outcome,
    QueueState, INTERVAL, INTERVAL_CEILING, INTERVAL_FLOOR, LIMIT_BYTES, QUANTUM, RTT_TO_INTERVAL,
    STALE_AFTER, TARGET_SHARE,
};
use crate::queue::signals::{bucket, flow_of, pure_ack, pure_ack_spec, FLOWS};

verus! {

/// What the queue has been doing. Read for the journal; nothing acts on it.
#[derive(Clone, Copy, Debug, PartialEq, Eq, Structural)]
pub struct QueueStats {
    /// Waiting right now.
    pub packets: usize,
    pub bytes: usize,
    /// Buckets with anything in them right now.
    pub flows: usize,
    /// Dropped because the queue was full: the tunnel could not keep up at all.
    pub over_limit: u64,
    /// Dropped by CoDel: the queue was draining, but not fast enough to stay under target.
    pub over_target: u64,
    /// Told to slow down without being dropped, because the sender asked to be told that way.
    pub marked: u64,
    /// Acknowledgements removed as redundant before they were ever sent.
    pub thinned: u64,
    /// Dropped when a tunnel came up, having waited for one longer than their senders wait before
    /// sending again.
    pub stale: u64,
    /// What CoDel is currently working to, which moves with the measured round trip.
    pub interval: u64,
    /// The longest a delivered packet waited. Reset by each read, so it describes the interval.
    pub worst_wait: u64,
}

/// The queue. One producer (the thread reading the adapter) and one consumer (the tunnel).
pub struct PacketQueue {
    flows: Vec<Flow>,
    /// Buckets that were empty when their last packet arrived. Served first: a flow that has just
    /// started is a request waiting for its first byte, and it is cheap to let it go ahead.
    fresh: VecDeque<usize>,
    /// Buckets that have been backlogged for at least one turn.
    backlogged: VecDeque<usize>,
    bytes: usize,
    packets: usize,
    over_limit: u64,
    over_target: u64,
    marked: u64,
    thinned: u64,
    stale: u64,
    worst_wait: u64,
    interval: u64,
    closed: bool,
}

spec fn states(flows: Seq<Flow>) -> Seq<FlowState> {
    flows.map_values(|flow: Flow| flow@)
}

spec fn indices(list: Seq<usize>) -> Seq<int> {
    list.map_values(|idx: usize| idx as int)
}

impl View for PacketQueue {
    type V = QueueState;

    closed spec fn view(&self) -> QueueState {
        QueueState {
            flows: states(self.flows@),
            fresh: indices(self.fresh@),
            backlogged: indices(self.backlogged@),
            over_limit: self.over_limit as int,
            over_target: self.over_target as int,
            marked: self.marked as int,
            thinned: self.thinned as int,
            stale: self.stale as int,
            worst_wait: self.worst_wait as int,
            interval: self.interval as int,
            closed: self.closed,
        }
    }
}

proof fn lemma_states_update(flows: Seq<Flow>, idx: int, flow: Flow)
    requires
        0 <= idx < flows.len(),
    ensures
        states(flows.update(idx, flow)) == states(flows).update(idx, flow@),
        states(flows)[idx] == flows[idx]@,
{
    assert(states(flows.update(idx, flow)) =~= states(flows).update(idx, flow@));
}

impl PacketQueue {
    /// What a queue always is: its buckets and lists agree, and its totals are the sums they
    /// stand for.
    pub closed spec fn wf(&self) -> bool {
        &&& self.flows.len() == FLOWS
        &&& forall|i: int| 0 <= i < self.flows@.len() ==> (#[trigger] self.flows@[i]).wf()
        &&& self.bytes == total_bytes(self@.flows)
        &&& self.packets == total_packets(self@.flows)
        &&& well_formed(self@)
    }

    /// An empty queue, at the published defaults.
    pub fn new() -> (queue: Self)
        ensures
            queue.wf(),
            queue@ == empty_queue(FLOWS as nat),
    {
        let mut flows: Vec<Flow> = Vec::new();
        while flows.len() < FLOWS
            invariant
                flows.len() <= FLOWS,
                forall|i: int|
                    0 <= i < flows@.len() ==> (#[trigger] flows@[i]).wf() && flows@[i]@
                        == model::empty_flow(),
            decreases FLOWS - flows.len(),
        {
            flows.push(Flow::new());
        }
        let queue = PacketQueue {
            flows,
            fresh: VecDeque::new(),
            backlogged: VecDeque::new(),
            bytes: 0,
            packets: 0,
            over_limit: 0,
            over_target: 0,
            marked: 0,
            thinned: 0,
            stale: 0,
            worst_wait: 0,
            interval: INTERVAL,
            closed: false,
        };
        proof {
            assert(queue@.flows =~= empty_queue(FLOWS as nat).flows);
            assert(queue@.fresh =~= Seq::empty());
            assert(queue@.backlogged =~= Seq::empty());
            assert(served(queue@) =~= Seq::empty());
            lemma_empty_totals(queue@.flows);
        }
        queue
    }

    /// Take a packet, or say that nothing more is taken. `now` is when it arrived.
    ///
    /// Never blocks and never waits. The thread calling this is inside the adapter's driver, and
    /// blocking it would let the driver's own ring fill instead: the same packets lost, but
    /// without a count and without the choice of which to lose.
    pub fn push(&mut self, packet: Vec<u8>, now: u64) -> (taken: bool)
        requires
            old(self).wf(),
            total_packets(old(self)@.flows) < usize::MAX,
        ensures
            final(self).wf(),
            taken == !old(self)@.closed,
            final(self)@ == if taken {
                enqueued(old(self)@, packet@, now as int)
            } else {
                old(self)@
            },
    {
        if self.closed {
            return false;
        }
        self.enqueue(packet, now);
        true
    }

    /// Fill `out` with up to `max` packets. `None` means there is nothing yet and more may come;
    /// `Some(false)` means the adapter side has gone and nothing more is coming.
    ///
    /// A batch rather than a packet because everything downstream is cheaper in batches: over
    /// HTTP/2 several packets become one capsule run, one TLS record and one write instead of one
    /// of each apiece.
    pub fn pop_batch(&mut self, out: &mut Vec<Vec<u8>>, max: usize, now: u64) -> (more: Option<
        bool,
    >)
        requires
            old(self).wf(),
            on_the_clock(now),
        ensures
            final(self).wf(),
            ({
                let (after, batch) = popped(old(self)@, max as nat, now as int);
                &&& final(self)@ == after
                &&& contents(final(out)@) == batch
                &&& more == if batch.len() > 0 {
                    Some(true)
                } else if old(self)@.closed {
                    Some(false)
                } else {
                    None
                }
            }),
    {
        out.clear();
        proof {
            assert(contents(out@) =~= Seq::empty());
        }
        let mut dry = false;
        while out.len() < max && !dry
            invariant
                self.wf(),
                on_the_clock(now),
                self@.closed == old(self)@.closed,
                out.len() <= max,
                !dry ==> (self@, contents(out@)) == popped(old(self)@, out@.len(), now as int),
                dry ==> (self@, contents(out@)) == popped(old(self)@, max as nat, now as int),
            decreases
                max - out.len(),
                (if dry {
                    0int
                } else {
                    1int
                }),
        {
            let ghost before = contents(out@);
            match self.dequeue(now) {
                Some(packet) => {
                    out.push(packet);
                    assert(contents(out@) =~= before.push(packet@));
                },
                None => {
                    dry = true;
                    proof {
                        lemma_popped_dry(old(self)@, out@.len(), max as nat, now as int);
                    }
                },
            }
        }
        if out.len() > 0 {
            Some(true)
        } else if self.closed {
            Some(false)
        } else {
            None
        }
    }

    /// Take a round trip measured on the tunnel itself, so CoDel works to this link rather than to
    /// the one its defaults were chosen against.
    ///
    /// Smoothed rather than taken as read: one sample every few seconds is noisy, and an interval
    /// that jumps with it would make the queue behave differently for no reason a person could
    /// see. A seven-eighths average settles over about a minute.
    pub fn observe_rtt(&mut self, rtt: u64)
        requires
            old(self).wf(),
        ensures
            final(self).wf(),
            final(self)@ == (QueueState {
                interval: blended(old(self)@.interval, rtt as int),
                ..old(self)@
            }),
    {
        let scaled: u128 = rtt as u128 * RTT_TO_INTERVAL as u128;
        let raw: u128 = (self.interval as u128 * 7 + scaled) / 8;
        self.interval = if raw < INTERVAL_FLOOR as u128 {
            INTERVAL_FLOOR
        } else if raw > INTERVAL_CEILING as u128 {
            INTERVAL_CEILING
        } else {
            raw as u64
        };
    }

    /// The share of the interval a packet may wait before it counts against the queue.
    pub fn target(&self) -> (wait: u64)
        ensures
            wait == target(self@.interval),
    {
        self.interval / TARGET_SHARE
    }

    /// Drop what waited longer than [`STALE_AFTER`], and say how many. Called as a tunnel comes
    /// up, when the queue may be holding everything that arrived while there was none.
    pub fn drop_stale(&mut self, now: u64) -> (dropped: usize)
        requires
            old(self).wf(),
        ensures
            final(self).wf(),
            final(self)@ == without_stale(old(self)@, now as int, STALE_AFTER as int),
            dropped == total_packets(old(self)@.flows) - total_packets(final(self)@.flows),
    {
        self.drop_older_than(now, STALE_AFTER)
    }

    /// Read the counters, and reset the one that describes an interval rather than a level.
    pub fn stats(&mut self) -> (stats: QueueStats)
        requires
            old(self).wf(),
        ensures
            final(self).wf(),
            final(self)@ == (QueueState { worst_wait: 0, ..old(self)@ }),
            ({
                let q = old(self)@;
                &&& stats.packets == total_packets(q.flows)
                &&& stats.bytes == total_bytes(q.flows)
                &&& stats.flows == busy_flows(q.flows)
                &&& stats.over_limit == q.over_limit
                &&& stats.over_target == q.over_target
                &&& stats.marked == q.marked
                &&& stats.thinned == q.thinned
                &&& stats.stale == q.stale
                &&& stats.interval == q.interval
                &&& stats.worst_wait == q.worst_wait
            }),
    {
        let mut busy: usize = 0;
        let mut i: usize = 0;
        assert(self@.flows.take(0) =~= Seq::empty());
        while i < self.flows.len()
            invariant
                *self == *old(self),
                i <= self.flows.len(),
                busy <= i,
                busy == busy_flows(self@.flows.take(i as int)),
            decreases self.flows.len() - i,
        {
            assert(self@.flows[i as int] == self.flows@[i as int]@);
            assert(self@.flows.take(i + 1).drop_last() =~= self@.flows.take(i as int));
            if self.flows[i].packets.len() > 0 {
                busy += 1;
            }
            i += 1;
        }
        assert(self@.flows.take(i as int) =~= self@.flows);
        let stats = QueueStats {
            packets: self.packets,
            bytes: self.bytes,
            flows: busy,
            over_limit: self.over_limit,
            over_target: self.over_target,
            marked: self.marked,
            thinned: self.thinned,
            stale: self.stale,
            interval: self.interval,
            worst_wait: self.worst_wait,
        };
        self.worst_wait = 0;
        stats
    }

    /// The adapter side has ended.
    pub fn close(&mut self)
        requires
            old(self).wf(),
        ensures
            final(self).wf(),
            final(self)@ == (QueueState { closed: true, ..old(self)@ }),
    {
        self.closed = true;
    }

    fn enqueue(&mut self, packet: Vec<u8>, now: u64)
        requires
            old(self).wf(),
            total_packets(old(self)@.flows) < usize::MAX,
        ensures
            final(self).wf(),
            final(self)@ == enqueued(old(self)@, packet@, now as int),
    {
        let len = packet.len();
        while (self.bytes > LIMIT_BYTES || len > LIMIT_BYTES - self.bytes) && self.bytes > 0
            invariant
                self.wf(),
                len == packet@.len(),
                with_room(self@, len as nat) == with_room(old(self)@, len as nat),
                total_packets(self@.flows) < usize::MAX,
            decreases total_packets(self@.flows),
        {
            proof {
                lemma_fattest_head(self@);
            }
            self.drop_fattest();
        }
        let ghost roomy = self@;
        assert(roomy == with_room(old(self)@, len as nat));
        let idx = flow_of(packet.as_slice());
        self.thin_acks(idx, packet.as_slice());
        let ghost thin = self@;
        let ghost kept = thin.flows[idx as int];
        proof {
            lemma_totals_update(
                roomy.flows,
                idx as int,
                FlowState {
                    packets: thinned_by(roomy.flows[idx as int].packets, packet@),
                    ..roomy.flows[idx as int]
                },
            );
            lemma_totals_update(thin.flows, idx as int, kept);
            assert(self.flows@[idx as int].wf());
            assert(kept == self.flows@[idx as int]@);
        }
        let ghost flows = self.flows@;
        self.flows[idx].push_tail(packet, now);
        self.bytes = self.bytes + len;
        self.packets = self.packets + 1;
        let listed = self.flows[idx].listed;
        if !listed {
            self.flows[idx].listed = true;
            self.flows[idx].deficit = QUANTUM as i128;
            self.fresh.push_back(idx);
        }
        proof {
            let filed = self.flows@[idx as int];
            assert(self.flows@ =~= flows.update(idx as int, filed));
            lemma_states_update(flows, idx as int, filed);
            lemma_totals_update(thin.flows, idx as int, filed@);
            let item = model::Waiting { packet: packet@, at: now as int };
            assert(filed@.packets == kept.packets.push(item));
            assert(kept.packets.push(item).drop_last() =~= kept.packets);
            assert(roomy.flows.update(idx as int, kept).update(idx as int, filed@)
                =~= roomy.flows.update(idx as int, filed@));
            if listed {
                lemma_flow_changed(thin, idx as int, filed@);
                assert(self@ =~= QueueState { flows: thin.flows.update(idx as int, filed@), ..thin });
            } else {
                lemma_listed(thin, idx as int, filed@);
                assert(self@.fresh =~= thin.fresh.push(idx as int));
                assert(self@ =~= QueueState {
                    flows: thin.flows.update(idx as int, filed@),
                    fresh: thin.fresh.push(idx as int),
                    ..thin
                });
            }
            assert(self@ =~= enqueued(old(self)@, packet@, now as int));
        }
    }

    /// Drop acknowledgements that `newer` has made redundant.
    ///
    /// A later acknowledgement covers everything an earlier one did, and where upstream is the
    /// narrow direction, sending all of them is most of what fills it. Three rules:
    ///
    /// * Only when the newer one acknowledges **strictly more**. A repeat is a duplicate, and
    ///   duplicates are how a sender learns to retransmit before its timer fires.
    /// * The most recent redundant one stays, so two are always in flight and one lost
    ///   acknowledgement costs nothing.
    /// * Only ones with no options: selective-ack blocks and timestamps are not repeated by a
    ///   later plain acknowledgement.
    fn thin_acks(&mut self, idx: usize, newer: &[u8])
        requires
            old(self).wf(),
            idx < FLOWS,
        ensures
            final(self).wf(),
            ({
                let f = old(self)@.flows[idx as int];
                let kept = thinned_by(f.packets, newer@);
                final(self)@ == (QueueState {
                    flows: old(self)@.flows.update(idx as int, FlowState { packets: kept, ..f }),
                    thinned: counted(old(self)@.thinned, f.packets.len() - kept.len()),
                    ..old(self)@
                })
            }),
            total_packets(final(self)@.flows) <= total_packets(old(self)@.flows),
            total_bytes(final(self)@.flows) <= total_bytes(old(self)@.flows),
    {
        let ghost q = self@;
        let ghost f = q.flows[idx as int];
        let ghost flows = self.flows@;
        assert(f == flows[idx as int]@);
        match pure_ack(newer) {
            None => {
                proof {
                    lemma_nothing_thinned(f.packets, newer@);
                    assert(q.flows.update(idx as int, f) =~= q.flows);
                    assert(self@ =~= QueueState {
                        flows: q.flows.update(idx as int, f),
                        thinned: counted(q.thinned, 0),
                        ..q
                    });
                }
            },
            Some(acked) => {
                let bytes_before = self.flows[idx].bytes;
                let packets_before = self.flows[idx].packets.len();
                self.flows[idx].thin(newer, acked);
                let bytes_gone = bytes_before - self.flows[idx].bytes;
                let packets_gone = packets_before - self.flows[idx].packets.len();
                proof {
                    let thin = self.flows@[idx as int];
                    assert(self.flows@ =~= flows.update(idx as int, thin));
                    lemma_states_update(flows, idx as int, thin);
                    lemma_totals_update(q.flows, idx as int, thin@);
                    lemma_flow_changed(q, idx as int, thin@);
                }
                self.bytes = self.bytes - bytes_gone;
                self.packets = self.packets - packets_gone;
                self.thinned = self.thinned.wrapping_add(packets_gone as u64);
                proof {
                    let thin = self.flows@[idx as int];
                    assert(well_formed(QueueState {
                        flows: q.flows.update(idx as int, thin@),
                        ..q
                    }));
                    assert(self@ =~= QueueState {
                        flows: q.flows.update(idx as int, thin@),
                        thinned: counted(q.thinned, packets_gone as int),
                        ..q
                    });
                }
            },
        }
    }

    /// Make room by taking the head of the longest bucket.
    ///
    /// The longest, because that is the flow responsible for the queue being full; dropping the
    /// arriving packet instead would punish whoever happened to be unlucky, which on a queue held
    /// full by one download is everyone else.
    fn drop_fattest(&mut self)
        requires
            old(self).wf(),
            total_bytes(old(self)@.flows) > 0,
        ensures
            final(self).wf(),
            final(self)@ == without_fattest_head(old(self)@),
    {
        let ghost q = self@;
        let mut idx: usize = 0;
        let mut at: usize = 1;
        while at < self.flows.len()
            invariant
                *self == *old(self),
                self.wf(),
                q == self@,
                idx < at <= self.flows.len(),
                forall|j: int|
                    0 <= j < at ==> bytes_of((#[trigger] q.flows[j]).packets) <= bytes_of(
                        q.flows[idx as int].packets,
                    ),
                forall|j: int|
                    idx < j < at ==> bytes_of((#[trigger] q.flows[j]).packets) < bytes_of(
                        q.flows[idx as int].packets,
                    ),
            decreases self.flows.len() - at,
        {
            assert(self.flows@[at as int].wf() && self.flows@[idx as int].wf());
            assert(q.flows[at as int] == self.flows@[at as int]@);
            assert(q.flows[idx as int] == self.flows@[idx as int]@);
            if self.flows[at].bytes >= self.flows[idx].bytes {
                idx = at;
            }
            at += 1;
        }
        let ghost flows = self.flows@;
        proof {
            assert(is_fattest(q.flows, idx as int));
            lemma_fattest_head(q);
            lemma_fattest_unique(
                q.flows,
                idx as int,
                choose|idx: int| is_fattest(q.flows, idx),
            );
            assert(q.flows[idx as int] == flows[idx as int]@);
            assert(flows[idx as int].wf());
        }
        let dropped = self.flows[idx].pop_head();
        proof {
            let left = self.flows@[idx as int];
            assert(self.flows@ =~= flows.update(idx as int, left));
            lemma_states_update(flows, idx as int, left);
            lemma_totals_update(q.flows, idx as int, left@);
            lemma_flow_changed(q, idx as int, left@);
        }
        self.bytes = self.bytes - dropped.packet.len();
        self.packets = self.packets - 1;
        self.over_limit = self.over_limit.wrapping_add(1);
        proof {
            let left = self.flows@[idx as int];
            assert(well_formed(QueueState { flows: q.flows.update(idx as int, left@), ..q }));
            assert(self@ =~= without_fattest_head(q));
        }
    }

    /// Take every packet that has waited `age` or longer.
    fn drop_older_than(&mut self, now: u64, age: u64) -> (dropped: usize)
        requires
            old(self).wf(),
        ensures
            final(self).wf(),
            final(self)@ == without_stale(old(self)@, now as int, age as int),
            dropped == total_packets(old(self)@.flows) - total_packets(final(self)@.flows),
    {
        let ghost q = self@;
        let packets_before = self.packets;
        let mut i: usize = 0;
        while i < self.flows.len()
            invariant
                self.wf(),
                i <= self.flows.len(),
                q.flows.len() == self.flows.len(),
                self.packets <= packets_before,
                self@ == (QueueState { flows: self@.flows, ..q }),
                forall|j: int|
                    0 <= j < i ==> #[trigger] self@.flows[j] == refreshed(
                        q.flows[j],
                        now as int,
                        age as int,
                    ),
                forall|j: int| i <= j < q.flows.len() ==> #[trigger] self@.flows[j] == q.flows[j],
            decreases self.flows.len() - i,
        {
            let ghost before = self@;
            let ghost flows = self.flows@;
            assert(before.flows[i as int] == flows[i as int]@);
            let flow_bytes = self.flows[i].bytes;
            let flow_packets = self.flows[i].packets.len();
            self.flows[i].refresh(now, age);
            let bytes_gone = flow_bytes - self.flows[i].bytes;
            let packets_gone = flow_packets - self.flows[i].packets.len();
            proof {
                let left = self.flows@[i as int];
                assert(self.flows@ =~= flows.update(i as int, left));
                lemma_states_update(flows, i as int, left);
                lemma_totals_update(before.flows, i as int, left@);
                lemma_flow_changed(before, i as int, left@);
            }
            self.bytes = self.bytes - bytes_gone;
            self.packets = self.packets - packets_gone;
            proof {
                let left = self.flows@[i as int];
                assert(self@ =~= QueueState { flows: before.flows.update(i as int, left@), ..q });
            }
            i += 1;
        }
        let dropped = packets_before - self.packets;
        let ghost flows = self@.flows;
        self.stale = self.stale.wrapping_add(dropped as u64);
        proof {
            assert(self@.flows =~= without_stale(q, now as int, age as int).flows);
            assert(self@ =~= without_stale(q, now as int, age as int));
        }
        dropped
    }

    /// The next packet to send, chosen between flows and filtered by CoDel within one.
    fn dequeue(&mut self, now: u64) -> (packet: Option<Vec<u8>>)
        requires
            old(self).wf(),
            on_the_clock(now),
        ensures
            final(self).wf(),
            ({
                let (after, taken) = dequeued(old(self)@, now as int);
                &&& final(self)@ == after
                &&& flow::delivered(packet) == taken
            }),
            final(self)@.closed == old(self)@.closed,
    {
        while self.fresh.len() > 0 || self.backlogged.len() > 0
            invariant
                self.wf(),
                on_the_clock(now),
                self@.closed == old(self)@.closed,
                dequeued(self@, now as int) == dequeued(old(self)@, now as int),
            decreases
                self@.fresh.len() + self@.backlogged.len(),
                total_turns(self@.flows),
        {
            let ghost q = self@;
            proof {
                lemma_rotated(q);
            }
            // Fresh flows first, and only then the ones already backlogged.
            let idx: usize = if self.fresh.len() > 0 { self.fresh[0] } else { self.backlogged[0] };
            assert(idx == front(q));
            assert(q.flows[idx as int] == self.flows@[idx as int]@);
            if self.flows[idx].deficit <= 0 {
                // Its credit is spent. It has had its head start, and it is now an ordinary flow.
                self.rotate();
                proof {
                    let f = q.flows[idx as int];
                    lemma_turns_update(
                        q.flows,
                        idx as int,
                        FlowState { deficit: f.deficit + QUANTUM as int, ..f },
                    );
                }
            } else {
                let packet = self.codel(idx, now);
                if packet.is_some() {
                    return packet;
                }
            }
        }
        assert(self@.fresh.len() + self@.backlogged.len() == 0);
        None
    }

    /// Give the bucket in front a quantum and send it to the back of the backlogged ones.
    fn rotate(&mut self)
        requires
            old(self).wf(),
            served(old(self)@).len() > 0,
            old(self)@.flows[front(old(self)@)].deficit <= 0,
        ensures
            final(self).wf(),
            final(self)@ == rotated(old(self)@),
    {
        let ghost q = self@;
        let ghost flows = self.flows@;
        proof {
            lemma_rotated(q);
        }
        let idx: usize = if self.fresh.len() > 0 { self.fresh[0] } else { self.backlogged[0] };
        assert(idx == front(q));
        assert(q.flows[idx as int] == flows[idx as int]@);
        assert(flows[idx as int].wf());
        self.flows[idx].deficit = self.flows[idx].deficit + QUANTUM as i128;
        self.drop_front();
        self.backlogged.push_back(idx);
        proof {
            let turned = self.flows@[idx as int];
            assert(self.flows@ =~= flows.update(idx as int, turned));
            lemma_states_update(flows, idx as int, turned);
            lemma_totals_update(q.flows, idx as int, turned@);
            assert(self@.backlogged =~= rotated(q).backlogged);
            assert(self@.fresh =~= rotated(q).fresh);
            assert(self@ =~= rotated(q));
        }
    }

    /// Give the bucket in front its turn. One that ran dry is unlisted, so its next packet makes it
    /// fresh again, which is what makes "a flow that has just started" mean something.
    fn codel(&mut self, idx: usize, now: u64) -> (packet: Option<Vec<u8>>)
        requires
            old(self).wf(),
            on_the_clock(now),
            served(old(self)@).len() > 0,
            idx == front(old(self)@),
            idx < FLOWS,
            old(self)@.flows[idx as int].deficit > 0,
        ensures
            final(self).wf(),
            ({
                let q = old(self)@;
                let outcome = model::codel(q.flows[idx as int], now as int, q.interval);
                &&& flow::delivered(packet) == outcome.delivered
                &&& match packet {
                    Some(packet) => final(self)@ == with_outcome(
                        q,
                        idx as int,
                        (Outcome {
                            flow: FlowState {
                                deficit: outcome.flow.deficit - packet@.len(),
                                ..outcome.flow
                            },
                            ..outcome
                        }),
                    ),
                    None => final(self)@ == unlisted_front(
                        with_outcome(
                            q,
                            idx as int,
                            (Outcome {
                                flow: FlowState { listed: false, ..outcome.flow },
                                ..outcome
                            }),
                        ),
                    ),
                }
            }),
    {
        let ghost q = self@;
        let ghost flows = self.flows@;
        assert(q.flows[idx as int] == flows[idx as int]@);
        assert(flows[idx as int].wf());
        let bytes_before = self.flows[idx].bytes;
        let packets_before = self.flows[idx].packets.len();
        let interval = self.interval;
        let turn = self.flows[idx].codel(now, interval);
        let ghost outcome = model::codel(q.flows[idx as int], now as int, q.interval);
        proof {
            assert(self.flows@[idx as int]@ == outcome.flow);
            lemma_totals_update(q.flows, idx as int, outcome.flow);
            laws::lemma_codel_keeps(q.flows[idx as int], now as int, q.interval);
        }
        self.bytes = self.bytes - (bytes_before - self.flows[idx].bytes);
        self.packets = self.packets - (packets_before - self.flows[idx].packets.len());
        self.over_target = self.over_target.wrapping_add(turn.dropped);
        if turn.marked {
            self.marked = self.marked.wrapping_add(1);
        }
        if turn.waited > self.worst_wait {
            self.worst_wait = turn.waited;
        }
        match turn.packet {
            Some(packet) => {
                let len = packet.len();
                self.flows[idx].deficit = self.flows[idx].deficit - len as i128;
                proof {
                    let charged = self.flows@[idx as int];
                    assert(self.flows@ =~= flows.update(idx as int, charged));
                    lemma_states_update(flows, idx as int, charged);
                    lemma_flow_changed(q, idx as int, charged@);
                    lemma_totals_update(q.flows, idx as int, charged@);
                    assert(well_formed(
                        QueueState { flows: q.flows.update(idx as int, charged@), ..q },
                    ));
                    assert(charged@ =~= FlowState {
                        deficit: outcome.flow.deficit - packet@.len(),
                        ..outcome.flow
                    });
                    assert(self@ =~= with_outcome(
                        q,
                        idx as int,
                        Outcome { flow: charged@, ..outcome },
                    ));
                }
                Some(packet)
            },
            None => {
                self.drop_front();
                self.flows[idx].listed = false;
                proof {
                    let dry = self.flows@[idx as int];
                    assert(self.flows@ =~= flows.update(idx as int, dry));
                    lemma_states_update(flows, idx as int, dry);
                    lemma_unlisted(q, idx as int, dry@);
                    lemma_totals_update(q.flows, idx as int, dry@);
                    assert(dry@ =~= FlowState { listed: false, ..outcome.flow });
                    let next = unlisted_front(
                        with_outcome(q, idx as int, Outcome { flow: dry@, ..outcome }),
                    );
                    assert(self@.fresh =~= next.fresh);
                    assert(self@.backlogged =~= next.backlogged);
                    assert(self@ =~= next);
                }
                None
            },
        }
    }

    /// Take the bucket in front off its list.
    fn drop_front(&mut self)
        requires
            old(self).fresh@.len() + old(self).backlogged@.len() > 0,
        ensures
            final(self).fresh@ == if old(self).fresh@.len() > 0 {
                old(self).fresh@.drop_first()
            } else {
                old(self).fresh@
            },
            final(self).backlogged@ == if old(self).fresh@.len() > 0 {
                old(self).backlogged@
            } else {
                old(self).backlogged@.drop_first()
            },
            *final(self) == (PacketQueue {
                fresh: final(self).fresh,
                backlogged: final(self).backlogged,
                ..*old(self)
            }),
    {
        if self.fresh.len() > 0 {
            let _ = self.fresh.pop_front();
        } else {
            let _ = self.backlogged.pop_front();
        }
    }
}

/// The packets of a batch as plain values.
pub open spec fn contents(batch: Seq<Vec<u8>>) -> Seq<Seq<u8>> {
    batch.map_values(|packet: Vec<u8>| packet@)
}

proof fn lemma_empty_totals(flows: Seq<FlowState>)
    requires
        forall|i: int| 0 <= i < flows.len() ==> (#[trigger] flows[i]) == model::empty_flow(),
    ensures
        total_bytes(flows) == 0,
        total_packets(flows) == 0,
    decreases flows.len(),
{
    if flows.len() > 0 {
        let rest = flows.drop_last();
        assert forall|i: int| 0 <= i < rest.len() implies (#[trigger] rest[i])
            == model::empty_flow() by {
            assert(rest[i] == flows[i]);
        }
        lemma_empty_totals(rest);
    }
}

/// Once there is nothing to take, asking for more packets takes no more.
proof fn lemma_popped_dry(q: QueueState, taken: nat, max: nat, now: int)
    requires
        taken < max,
        popped(q, taken, now).1.len() == taken,
        dequeued(popped(q, taken, now).0, now).1 is None,
    ensures
        popped(q, max, now) == (dequeued(popped(q, taken, now).0, now).0, popped(q, taken, now).1),
    decreases max - taken,
{
    if max > taken + 1 {
        lemma_popped_dry(q, taken, (max - 1) as nat, now);
    }
}

/// A packet that is not a plain acknowledgement makes nothing redundant.
proof fn lemma_nothing_thinned(packets: Seq<model::Waiting>, newer: Seq<u8>)
    requires
        pure_ack_spec(newer) is None,
    ensures
        thinned_by(packets, newer) == packets,
        model::last_redundant(packets, newer) == -1,
    decreases packets.len(),
{
    if packets.len() > 0 {
        lemma_nothing_thinned(packets.drop_last(), newer);
    }
}

} // verus!
