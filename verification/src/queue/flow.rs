//! One bucket: a FIFO of packets, its round-robin credit and its CoDel state.

use std::collections::VecDeque;
use vstd::prelude::*;
use crate::queue::model::{
    bytes_of, codel, due, empty_flow, entered, episode, is_control_step, lemma_bytes_concat,
    last_redundant, lemma_bytes_drop_first, lemma_control_step, not_redundant, redundant,
    refreshed, scheduled, stale_heads, taken, target, thinned_by, waited, FlowState, Waiting,
    INTERVAL_CEILING, QUANTUM, TARGET_SHARE,
};
use crate::queue::signals::{mark_congestion, marked, pure_ack, pure_ack_spec, same_connection};

verus! {

/// A packet, and when it was put here. The time is what CoDel measures; nothing else reads it.
pub struct Queued {
    pub packet: Vec<u8>,
    pub at: u64,
}

impl View for Queued {
    type V = Waiting;

    open spec fn view(&self) -> Waiting {
        Waiting { packet: self.packet@, at: self.at as int }
    }
}

/// One bucket.
pub struct Flow {
    pub packets: VecDeque<Queued>,
    pub bytes: usize,
    pub deficit: i128,
    /// Whether this bucket is on one of the two service lists. Listed while it has packets and
    /// unlisted the moment it runs dry, so its next packet makes it new again.
    pub listed: bool,
    /// When the sojourn time first went above target, plus one interval. `None` means it is under.
    pub above_since: Option<u64>,
    /// When the next drop is due while dropping.
    pub drop_next: Option<u64>,
    /// How many drops the current episode has made. Carried across episodes, so a queue that keeps
    /// coming back gets its delay under control faster each time.
    pub count: u32,
    pub dropping: bool,
}

/// A time as a plain number.
pub open spec fn when(at: Option<u64>) -> Option<int> {
    match at {
        Some(at) => Some(at as int),
        None => None,
    }
}

/// The waiting packets of a bucket.
pub open spec fn waiting(packets: Seq<Queued>) -> Seq<Waiting> {
    packets.map_values(|queued: Queued| queued@)
}

impl View for Flow {
    type V = FlowState;

    open spec fn view(&self) -> FlowState {
        FlowState {
            packets: waiting(self.packets@),
            deficit: self.deficit as int,
            listed: self.listed,
            above_since: when(self.above_since),
            drop_next: when(self.drop_next),
            count: self.count as int,
            dropping: self.dropping,
        }
    }
}

/// A packet taken off the head of a bucket, and whether the bucket has been standing too long.
struct Head {
    packet: Vec<u8>,
    overdue: bool,
    waited: u64,
}

/// What CoDel made of one turn of a bucket.
pub struct Turn {
    pub packet: Option<Vec<u8>>,
    pub dropped: u64,
    pub marked: bool,
    /// How long the packet delivered had waited, and nothing where none was.
    pub waited: u64,
}

/// The packet of a turn as a plain value.
pub open spec fn delivered(packet: Option<Vec<u8>>) -> Option<Seq<u8>> {
    match packet {
        Some(packet) => Some(packet@),
        None => None,
    }
}

/// The latest time the queue can work with: an interval more still fits the clock.
pub open spec fn on_the_clock(now: u64) -> bool {
    now + INTERVAL_CEILING <= u64::MAX
}

/// How long a packet put here at `at` has waited.
pub fn wait_since(at: u64, now: u64) -> (wait: u64)
    ensures
        wait == waited(at as int, now as int),
{
    if now >= at {
        now - at
    } else {
        0
    }
}

/// `interval / sqrt(count)`, rounded to the nearest nanosecond, found by halving.
pub fn control_step(interval: u64, count: u32) -> (step: u64)
    requires
        interval <= INTERVAL_CEILING,
        count >= 1,
    ensures
        step == crate::queue::model::control_step(interval as int, count as int),
        step <= interval,
{
    assert((2 * interval) * (2 * interval) <= 600_000_000 * 600_000_000) by (nonlinear_arith)
        requires
            0 <= interval <= 300_000_000,
    ;
    let bound: u128 = (2 * interval as u128) * (2 * interval as u128);
    let mut low: u64 = 0;
    let mut high: u64 = interval;
    assert((2 * interval) * (2 * interval) < (2 * interval + 1) * (2 * interval + 1) * count)
        by (nonlinear_arith)
        requires
            count >= 1,
            interval >= 0,
    ;
    while low < high
        invariant
            low <= high <= interval <= INTERVAL_CEILING,
            count >= 1,
            bound == (2 * interval) * (2 * interval),
            (2 * interval) * (2 * interval) < (2 * high + 1) * (2 * high + 1) * count,
            low > 0 ==> (2 * low - 1) * (2 * low - 1) * count <= (2 * interval) * (2 * interval),
        decreases high - low,
    {
        let middle = low + (high - low) / 2;
        let odd: u128 = 2 * middle as u128 + 1;
        assert(odd * odd <= 600_000_001 * 600_000_001) by (nonlinear_arith)
            requires
                0 <= odd <= 600_000_001,
        ;
        let square: u128 = odd * odd;
        assert(square * count <= 600_000_001 * 600_000_001 * 0x1_0000_0000) by (nonlinear_arith)
            requires
                0 <= square <= 600_000_001 * 600_000_001,
                0 <= count <= 0x1_0000_0000,
        ;
        if bound < square * (count as u128) {
            high = middle;
        } else {
            low = middle + 1;
        }
    }
    proof {
        assert(is_control_step(low as int, interval as int, count as int));
        lemma_control_step(low as int, interval as int, count as int);
    }
    low
}

proof fn lemma_waiting_drop_first(packets: Seq<Queued>)
    requires
        packets.len() > 0,
    ensures
        waiting(packets.drop_first()) == waiting(packets).drop_first(),
        bytes_of(waiting(packets)) == packets[0].packet@.len() + bytes_of(
            waiting(packets.drop_first()),
        ),
{
    assert(waiting(packets.drop_first()) =~= waiting(packets).drop_first());
    lemma_bytes_drop_first(waiting(packets));
}

impl Flow {
    /// The byte count and the credit say what they stand for.
    pub open spec fn wf(&self) -> bool {
        &&& self.bytes == bytes_of(self@.packets)
        &&& -0x1_0000_0000_0000_0000 <= self.deficit <= QUANTUM
    }

    pub fn new() -> (flow: Self)
        ensures
            flow.wf(),
            flow@ == empty_flow(),
    {
        let flow = Flow {
            packets: VecDeque::new(),
            bytes: 0,
            deficit: 0,
            listed: false,
            above_since: None,
            drop_next: None,
            count: 0,
            dropping: false,
        };
        assert(flow@.packets =~= Seq::empty());
        flow
    }

    /// Take the packet at the head. The caller accounts for it.
    pub fn pop_head(&mut self) -> (head: Queued)
        requires
            old(self).wf(),
            old(self)@.packets.len() > 0,
        ensures
            final(self).wf(),
            head@ == old(self)@.packets[0],
            final(self)@ == (FlowState {
                packets: old(self)@.packets.drop_first(),
                ..old(self)@
            }),
            final(self).bytes == old(self).bytes - head.packet@.len(),
    {
        proof {
            lemma_waiting_drop_first(self.packets@);
        }
        let head = self.packets.pop_front().unwrap();
        self.bytes = self.bytes - head.packet.len();
        head
    }

    /// File a packet at the tail.
    pub fn push_tail(&mut self, packet: Vec<u8>, now: u64)
        requires
            old(self).wf(),
            old(self).bytes + packet@.len() <= usize::MAX,
        ensures
            final(self).wf(),
            final(self)@ == (FlowState {
                packets: old(self)@.packets.push(Waiting { packet: packet@, at: now as int }),
                ..old(self)@
            }),
    {
        let len = packet.len();
        let ghost before = self.packets@;
        self.packets.push_back(Queued { packet, at: now });
        self.bytes = self.bytes + len;
        proof {
            let item = Waiting { packet: packet@, at: now as int };
            assert(waiting(self.packets@) =~= waiting(before).push(item));
            assert(waiting(before).push(item).drop_last() =~= waiting(before));
        }
    }

    /// Take the head of the bucket, and say whether the queue has been standing too long.
    ///
    /// The second half of the test is what stops CoDel acting on a queue that is merely a packet
    /// or two deep: a burst below one quantum is not standing delay, it is the link being used.
    fn take(&mut self, now: u64, interval: u64) -> (head: Option<Head>)
        requires
            old(self).wf(),
            on_the_clock(now),
            interval <= INTERVAL_CEILING,
        ensures
            final(self).wf(),
            match head {
                Some(head) => {
                    let step = taken(old(self)@, now as int, interval as int);
                    &&& old(self)@.packets.len() > 0
                    &&& final(self)@ == step.flow
                    &&& head.packet@ == step.packet
                    &&& head.overdue == step.overdue
                    &&& head.waited == step.waited
                },
                None => old(self)@.packets.len() == 0 && *final(self) == *old(self),
            },
            final(self).bytes <= old(self).bytes,
    {
        if self.packets.len() == 0 {
            return None;
        }
        let head = self.pop_head();
        let wait = wait_since(head.at, now);
        // Standing delay, not a burst: over target AND still more than a quantum behind it.
        let standing = wait >= interval / TARGET_SHARE && self.bytes > QUANTUM;
        let overdue = if !standing {
            self.above_since = None;
            false
        } else {
            match self.above_since {
                None => {
                    self.above_since = Some(now + interval);
                    false
                },
                Some(due) => now >= due,
            }
        };
        Some(Head { packet: head.packet, overdue, waited: wait })
    }

    /// Whether the next drop is due.
    fn is_due(&self, now: u64) -> (is_due: bool)
        ensures
            is_due == due(self@, now as int),
    {
        match self.drop_next {
            Some(next) => now >= next,
            None => false,
        }
    }

    /// The control law: drops come `interval / sqrt(count)` apart, so the rate rises as the square
    /// root of how long the queue has refused to drain.
    fn schedule(&mut self, from: u64, interval: u64)
        requires
            old(self).wf(),
            on_the_clock(from),
            interval <= INTERVAL_CEILING,
        ensures
            final(self).wf(),
            final(self)@ == scheduled(old(self)@, from as int, interval as int),
    {
        let count: u32 = if self.count >= 1 { self.count } else { 1 };
        self.drop_next = Some(from + control_step(interval, count));
    }

    /// An episode going on: for as long as a drop is due, the packet in hand carries the signal.
    /// `wait` is how long the one in hand has waited.
    fn episode(&mut self, first: Vec<u8>, wait: u64, now: u64, interval: u64) -> (turn: Turn)
        requires
            old(self).wf(),
            old(self)@.packets.len() < usize::MAX,
            on_the_clock(now),
            interval <= INTERVAL_CEILING,
        ensures
            final(self).wf(),
            final(self).bytes <= old(self).bytes,
            ({
                let outcome = episode(
                    old(self)@,
                    first@,
                    wait as int,
                    now as int,
                    interval as int,
                );
                &&& final(self)@ == outcome.flow
                &&& delivered(turn.packet) == outcome.delivered
                &&& turn.dropped == outcome.dropped
                &&& turn.marked == (outcome.marked == 1)
                &&& outcome.marked == 0 || outcome.marked == 1
                &&& turn.waited == outcome.waited
                &&& turn.dropped <= old(self)@.packets.len() - final(self)@.packets.len() + 1
                &&& final(self)@.packets.len() <= old(self)@.packets.len()
            }),
        decreases old(self)@.packets.len(),
    {
        if !(self.dropping && self.is_due(now)) {
            return Turn { packet: Some(first), dropped: 0, marked: false, waited: wait };
        }
        let from: u64 = match self.drop_next {
            Some(next) => next,
            None => now,
        };
        self.count = self.count.wrapping_add(1);
        let ghost more = FlowState {
            count: (old(self)@.count + 1) % 0x1_0000_0000,
            ..old(self)@
        };
        assert(self@ =~= more);
        let mut packet = first;
        if mark_congestion(packet.as_mut_slice()) {
            self.schedule(from, interval);
            return Turn { packet: Some(packet), dropped: 0, marked: true, waited: wait };
        }
        match self.take(now, interval) {
            None => {
                self.dropping = false;
                Turn { packet: None, dropped: 1, marked: false, waited: 0 }
            },
            Some(next) => {
                if next.overdue {
                    self.schedule(from, interval);
                } else {
                    self.dropping = false;
                }
                let then = self.episode(next.packet, next.waited, now, interval);
                Turn { dropped: then.dropped + 1, ..then }
            },
        }
    }

    /// Coming back soon after the last episode means the queue never really recovered, so the drop
    /// rate resumes near where it left off rather than from the beginning. Sixteen intervals is
    /// CoDel's own figure for "soon".
    fn enter(&mut self, now: u64, interval: u64)
        requires
            old(self).wf(),
            on_the_clock(now),
            interval <= INTERVAL_CEILING,
        ensures
            final(self).wf(),
            final(self)@ == entered(old(self)@, now as int, interval as int),
    {
        let resumed = match self.drop_next {
            Some(last) => wait_since(last, now) < 16 * interval,
            None => false,
        };
        self.count = if self.count > 2 && resumed { self.count - 2 } else { 1 };
        self.dropping = true;
        self.schedule(now, interval);
    }

    /// CoDel proper: deliver the head, unless the queue has been standing, in which case the head
    /// carries the congestion signal away, either as a mark it keeps or by not being delivered.
    ///
    /// Which of the two is the sender's choice, not ours: a sender that set ECT has said it would
    /// rather be told than lose the packet, and telling it costs nothing. A sender that said
    /// nothing is told the only other way there is.
    pub fn codel(&mut self, now: u64, interval: u64) -> (turn: Turn)
        requires
            old(self).wf(),
            on_the_clock(now),
            interval <= INTERVAL_CEILING,
        ensures
            final(self).wf(),
            ({
                let outcome = codel(old(self)@, now as int, interval as int);
                &&& final(self)@ == outcome.flow
                &&& delivered(turn.packet) == outcome.delivered
                &&& turn.dropped == outcome.dropped
                &&& turn.marked == (outcome.marked == 1)
                &&& outcome.marked == 0 || outcome.marked == 1
                &&& turn.waited == outcome.waited
            }),
            final(self)@.packets.len() <= old(self)@.packets.len(),
            final(self).bytes <= old(self).bytes,
    {
        assert(self@.packets.len() == self.packets.len());
        match self.take(now, interval) {
            None => Turn { packet: None, dropped: 0, marked: false, waited: 0 },
            Some(first) => {
                if self.dropping {
                    if first.overdue {
                        self.episode(first.packet, first.waited, now, interval)
                    } else {
                        self.dropping = false;
                        Turn {
                            packet: Some(first.packet),
                            dropped: 0,
                            marked: false,
                            waited: first.waited,
                        }
                    }
                } else if first.overdue {
                    let mut packet = first.packet;
                    if mark_congestion(packet.as_mut_slice()) {
                        self.enter(now, interval);
                        Turn {
                            packet: Some(packet),
                            dropped: 0,
                            marked: true,
                            waited: first.waited,
                        }
                    } else {
                        let next = self.take(now, interval).unwrap();
                        self.enter(now, interval);
                        Turn {
                            packet: Some(next.packet),
                            dropped: 1,
                            marked: false,
                            waited: next.waited,
                        }
                    }
                } else {
                    Turn {
                        packet: Some(first.packet),
                        dropped: 0,
                        marked: false,
                        waited: first.waited,
                    }
                }
            },
        }
    }
}

impl Queued {
    /// Whether this packet says nothing that `newer`, acknowledging `acked`, does not say.
    fn is_redundant(&self, newer: &[u8], acked: u32) -> (is_redundant: bool)
        requires
            pure_ack_spec(newer@) == Some(acked),
        ensures
            is_redundant == redundant(self@, newer@),
    {
        match pure_ack(self.packet.as_slice()) {
            Some(older) => {
                // Wrapping subtraction, because sequence numbers wrap: what is being asked is
                // whether `acked` is ahead of `older`, not whether it is the larger number.
                let gap = acked.wrapping_sub(older);
                1 <= gap && gap < 0x8000_0000 && same_connection(newer, self.packet.as_slice())
            },
            None => false,
        }
    }
}

impl Flow {
    /// Drop acknowledgements that `newer` has made redundant.
    pub fn thin(&mut self, newer: &[u8], acked: u32)
        requires
            old(self).wf(),
            pure_ack_spec(newer@) == Some(acked),
        ensures
            final(self).wf(),
            final(self)@ == (FlowState {
                packets: thinned_by(old(self)@.packets, newer@),
                ..old(self)@
            }),
            final(self)@.packets.len() <= old(self)@.packets.len(),
            final(self).bytes <= old(self).bytes,
    {
        let ghost all = self@.packets;
        let ghost keep = not_redundant(newer@);
        let mut end: usize = self.packets.len();
        assert(all.take(end as int) =~= all);
        while end > 0 && !self.packets[end - 1].is_redundant(newer, acked)
            invariant
                *self == *old(self),
                all == self@.packets,
                end <= self.packets.len(),
                pure_ack_spec(newer@) == Some(acked),
                last_redundant(all, newer@) == last_redundant(all.take(end as int), newer@),
            decreases end,
        {
            end -= 1;
            assert(all.take(end + 1).drop_last() =~= all.take(end as int));
        }
        if end == 0 {
            return;
        }
        // The newest redundant one is left where it is; only what is behind it goes, back to front
        // so that the positions still ahead of each removal stay valid.
        let ghost last = end - 1;
        assert(last_redundant(all, newer@) == last);
        let mut at: usize = end - 1;
        let ghost kept = Seq::<Waiting>::empty();
        assert(all.subrange(last, last).filter(keep) =~= Seq::empty()) by {
            reveal(Seq::filter);
        }
        assert(all =~= all.take(last) + all.subrange(last, last).filter(keep) + all.skip(last));
        while at > 0
            invariant
                at <= last < all.len(),
                keep == not_redundant(newer@),
                pure_ack_spec(newer@) == Some(acked),
                self.wf(),
                self@ == (FlowState {
                    packets: all.take(at as int) + all.subrange(at as int, last).filter(keep)
                        + all.skip(last),
                    ..old(self)@
                }),
                self.bytes <= old(self).bytes,
            decreases at,
        {
            at -= 1;
            let ghost one = seq![all[at as int]];
            proof {
                assert(all.subrange(at as int, last) =~= one + all.subrange(at + 1, last));
                Seq::filter_distributes_over_add(one, all.subrange(at + 1, last), keep);
                reveal_with_fuel(Seq::filter, 2);
                assert(one.drop_last() =~= Seq::<Waiting>::empty());
                assert(self.packets@[at as int]@ == self@.packets[at as int]);
            }
            if self.packets[at].is_redundant(newer, acked) {
                let ghost before = self.packets@;
                let dropped = self.packets.remove(at).unwrap();
                proof {
                    let w = waiting(before);
                    assert(waiting(self.packets@) =~= w.remove(at as int));
                    lemma_bytes_removed(w, at as int);
                    assert(one.filter(keep) =~= Seq::<Waiting>::empty());
                    assert(w.remove(at as int) =~= all.take(at as int) + all.subrange(
                        at as int,
                        last,
                    ).filter(keep) + all.skip(last));
                }
                self.bytes = self.bytes - dropped.packet.len();
            } else {
                proof {
                    assert(one.filter(keep) =~= one);
                    assert(self@.packets =~= all.take(at as int) + all.subrange(
                        at as int,
                        last,
                    ).filter(keep) + all.skip(last));
                }
            }
        }
        proof {
            assert(all.subrange(0, last) =~= all.take(last));
            assert(self@.packets =~= thinned_by(all, newer@));
            lemma_filter_shorter(all.take(last), keep);
        }
    }

    /// Take every packet at the head that has waited `age` or longer.
    ///
    /// A bucket is a FIFO, so its old packets are the ones at its head, and what is left keeps its
    /// order. The CoDel state is also cleared of standing delay: the delay was the gap between
    /// tunnels, and read against the new one it would start dropping the moment it came up.
    pub fn refresh(&mut self, now: u64, age: u64)
        requires
            old(self).wf(),
        ensures
            final(self).wf(),
            final(self)@ == refreshed(old(self)@, now as int, age as int),
            final(self)@.packets.len() <= old(self)@.packets.len(),
            final(self).bytes <= old(self).bytes,
    {
        let ghost all = self@.packets;
        let ghost gone: int = 0;
        assert(all.skip(0) =~= all);
        while self.packets.len() > 0 && wait_since(self.packets[0].at, now) >= age
            invariant
                self.wf(),
                0 <= gone <= all.len(),
                self@ == (FlowState { packets: all.skip(gone), ..old(self)@ }),
                stale_heads(all, now as int, age as int) == gone + stale_heads(
                    self@.packets,
                    now as int,
                    age as int,
                ),
                self.bytes <= old(self).bytes,
            decreases self@.packets.len(),
        {
            assert(self@.packets[0] == self.packets@[0]@);
            let _ = self.pop_head();
            proof {
                gone = gone + 1;
                assert(all.skip(gone - 1).drop_first() =~= all.skip(gone));
            }
        }
        proof {
            if self@.packets.len() > 0 {
                assert(self@.packets[0] == self.packets@[0]@);
            }
        }
        self.above_since = None;
        self.dropping = false;
    }
}

proof fn lemma_bytes_removed(packets: Seq<Waiting>, at: int)
    requires
        0 <= at < packets.len(),
    ensures
        bytes_of(packets.remove(at)) == bytes_of(packets) - packets[at].packet.len(),
{
    let before = packets.take(at);
    let from = packets.skip(at);
    assert(packets =~= before + from);
    assert(packets.remove(at) =~= before + from.drop_first());
    lemma_bytes_concat(before, from);
    lemma_bytes_concat(before, from.drop_first());
    lemma_bytes_drop_first(from);
}

proof fn lemma_filter_shorter(packets: Seq<Waiting>, keep: spec_fn(Waiting) -> bool)
    ensures
        packets.filter(keep).len() <= packets.len(),
    decreases packets.len(),
{
    reveal(Seq::filter);
    if packets.len() > 0 {
        lemma_filter_shorter(packets.drop_last(), keep);
    }
}

} // verus!
