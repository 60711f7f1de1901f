//! When congestion is acted on, what it costs, and whose turn it is.

use vstd::prelude::*;
use crate::queue::history::lemma_dequeued;
use crate::queue::laws::law_a_queue_with_packets_gives_one;
use crate::queue::model::{
    blended, bytes_of, codel, control_step, dequeued, enqueued, episode, is_control_step,
    lemma_control_step, popped, served, taken, total_bytes, total_packets, well_formed, with_room,
    FlowState, QueueState,
};
use crate::queue::signals::{bucket, can_be_marked, marked, FLOWS};

verus! {

/// Whether the packet at a place has waited a twentieth of the interval or longer, with more than
/// 1280 bytes behind it.
pub open spec fn stands(f: FlowState, place: int, now: int, interval: int) -> bool {
    &&& 0 <= place < f.packets.len()
    &&& 20 * (now - f.packets[place].at) >= interval - interval % 20
    &&& bytes_of(f.packets.skip(place + 1)) > 1280
}

/// Whether a step is the nearest nanosecond to an interval divided by the square root of a count:
/// half a nanosecond more is longer, and half a nanosecond less is no longer.
pub open spec fn nearest_step(step: int, interval: int, count: int) -> bool {
    &&& 0 <= step <= interval
    &&& 4 * interval * interval < (2 * step + 1) * (2 * step + 1) * count
    &&& step > 0 ==> (2 * step - 1) * (2 * step - 1) * count <= 4 * interval * interval
}

proof fn lemma_standing(f: FlowState, now: int, interval: int)
    requires
        f.packets.len() > 0,
        interval >= 20,
    ensures
        ({
            let head = taken(f, now, interval);
            &&& head.packet == f.packets[0].packet
            &&& head.flow.packets == f.packets.skip(1)
            &&& head.flow.dropping == f.dropping && head.flow.count == f.count
                && head.flow.drop_next == f.drop_next
            &&& stands(f, 0, now, interval) ==> head.flow.above_since == (match f.above_since {
                None => Some(now + interval),
                Some(since) => Some(since),
            })
            &&& !stands(f, 0, now, interval) ==> head.flow.above_since is None
            &&& head.overdue <==> stands(f, 0, now, interval) && f.above_since is Some && now
                >= f.above_since->0
        }),
{
    assert(f.packets.drop_first() =~= f.packets.skip(1));
}

/// A queue that drains is left alone: where the head has not waited a twentieth of the interval, or
/// no more than 1280 bytes wait behind it, it is delivered as it was filed, and what was held against
/// the bucket is forgotten.
pub proof fn law_a_queue_that_drains_is_left_alone(f: FlowState, now: int, interval: int)
    requires
        f.packets.len() > 0,
        interval >= 20,
        20 * (now - f.packets[0].at) < interval - interval % 20 || bytes_of(f.packets.skip(1))
            <= 1280,
    ensures
        ({
            let turn = codel(f, now, interval);
            &&& turn.delivered == Some(f.packets[0].packet)
            &&& turn.flow.packets == f.packets.skip(1)
            &&& turn.dropped == 0 && turn.marked == 0
            &&& turn.flow.above_since is None && !turn.flow.dropping
            &&& turn.flow.count == f.count && turn.flow.drop_next == f.drop_next
            &&& turn.flow.deficit == f.deficit && turn.flow.listed == f.listed
        }),
{
    lemma_standing(f, now, interval);
}

/// Standing delay is given one interval to go away: it is first noted, and until an interval has
/// passed since then packets are delivered as they were filed.
pub proof fn law_standing_delay_is_given_an_interval(f: FlowState, now: int, interval: int)
    requires
        interval >= 20,
        stands(f, 0, now, interval),
        f.above_since is Some ==> now < f.above_since->0,
    ensures
        ({
            let turn = codel(f, now, interval);
            &&& turn.delivered == Some(f.packets[0].packet)
            &&& turn.flow.packets == f.packets.skip(1)
            &&& turn.dropped == 0 && turn.marked == 0
            &&& f.above_since is None ==> turn.flow.above_since == Some(now + interval)
            &&& f.above_since is Some ==> turn.flow.above_since == f.above_since
            &&& !turn.flow.dropping
        }),
{
    lemma_standing(f, now, interval);
}

proof fn lemma_step(interval: int, count: int)
    requires
        0 <= interval <= 300_000_000,
        count >= 1,
    ensures
        nearest_step(control_step(interval, count), interval, count),
{
    lemma_step_exists(interval, interval, count);
    let step = choose|step: int| is_control_step(step, interval, count);
    lemma_control_step(step, interval, count);
    assert((2 * interval) * (2 * interval) == 4 * interval * interval) by (nonlinear_arith);
}

/// There is a nearest nanosecond: one that is too long by half a nanosecond is shortened until it is
/// not.
proof fn lemma_step_exists(from: int, interval: int, count: int)
    requires
        0 <= from,
        count >= 1,
        interval >= 0,
        from == interval || (2 * interval) * (2 * interval) < (2 * from + 1) * (2 * from + 1)
            * count,
    ensures
        exists|step: int| is_control_step(step, interval, count),
    decreases from,
{
    if from == interval {
        assert((2 * interval) * (2 * interval) < (2 * from + 1) * (2 * from + 1) * count)
            by (nonlinear_arith)
            requires
                from == interval,
                count >= 1,
                interval >= 0,
        ;
    }
    if is_control_step(from, interval, count) {
    } else {
        assert((2 * from - 1) == 2 * (from - 1) + 1);
        lemma_step_exists(from - 1, interval, count);
    }
}

/// Standing delay that lasted an interval costs one signal: a mark where the head can carry one, and
/// the head itself where it cannot, when the one behind it is delivered. The next signal is due an
/// interval over the square root of the count later, and the count starts from one, or from two
/// less than it was where the last episode is within sixteen intervals.
pub proof fn law_standing_delay_costs_one_signal(f: FlowState, now: int, interval: int)
    requires
        20 <= interval <= 300_000_000,
        stands(f, 0, now, interval),
        f.above_since is Some && f.above_since->0 <= now,
        !f.dropping,
    ensures
        ({
            let turn = codel(f, now, interval);
            let resumes = f.count > 2 && f.drop_next is Some && now - f.drop_next->0 < 16 * interval;
            let head = f.packets[0].packet;
            &&& f.packets.len() > 1
            &&& can_be_marked(head) ==> {
                &&& turn.delivered == Some(marked(head))
                &&& turn.flow.packets == f.packets.skip(1)
                &&& turn.dropped == 0 && turn.marked == 1
            }
            &&& !can_be_marked(head) ==> {
                &&& turn.delivered == Some(f.packets[1].packet)
                &&& turn.flow.packets == f.packets.skip(2)
                &&& turn.dropped == 1 && turn.marked == 0
            }
            &&& turn.flow.dropping
            &&& turn.flow.count == if resumes {
                f.count - 2
            } else {
                1
            }
            &&& turn.flow.drop_next is Some
            &&& nearest_step(turn.flow.drop_next->0 - now, interval, turn.flow.count)
        }),
{
    lemma_standing(f, now, interval);
    assert(f.packets.len() > 1) by {
        if f.packets.len() == 1 {
            assert(f.packets.skip(1) =~= Seq::empty());
        }
    }
    let first = taken(f, now, interval);
    lemma_standing(first.flow, now, interval);
    assert(f.packets.skip(1).skip(1) =~= f.packets.skip(2));
    assert(first.flow.packets[0] == f.packets[1]);
    let turn = codel(f, now, interval);
    assert(turn.flow.count >= 1);
    lemma_step(interval, turn.flow.count);
}

/// Within an episode a packet is delivered as it was filed until the next signal is due; a signal
/// that is due is one mark where the head can carry one, and the signal after it is due one step
/// later, counted from when this one was.
pub proof fn law_an_episode_signals_when_it_is_due(f: FlowState, now: int, interval: int)
    requires
        20 <= interval <= 300_000_000,
        stands(f, 0, now, interval),
        f.above_since is Some && f.above_since->0 <= now,
        f.dropping,
        f.drop_next is Some,
        1 <= f.count < 0xffff_ffff,
    ensures
        ({
            let turn = codel(f, now, interval);
            let head = f.packets[0].packet;
            &&& now < f.drop_next->0 ==> {
                &&& turn.delivered == Some(head)
                &&& turn.flow.packets == f.packets.skip(1)
                &&& turn.dropped == 0 && turn.marked == 0
                &&& turn.flow.dropping && turn.flow.count == f.count && turn.flow.drop_next
                    == f.drop_next
            }
            &&& now >= f.drop_next->0 && can_be_marked(head) ==> {
                &&& turn.delivered == Some(marked(head))
                &&& turn.flow.packets == f.packets.skip(1)
                &&& turn.dropped == 0 && turn.marked == 1
                &&& turn.flow.dropping && turn.flow.count == f.count + 1
                &&& turn.flow.drop_next is Some
                &&& nearest_step(turn.flow.drop_next->0 - f.drop_next->0, interval, f.count + 1)
            }
        }),
{
    lemma_standing(f, now, interval);
    lemma_step(interval, f.count + 1);
}

/// A signal that is due on a packet that cannot carry a mark costs that packet. Where the delay ends
/// with it, the one behind it is delivered and the episode is over; where it goes on, the one behind
/// it is delivered too, unless the next signal is due already.
pub proof fn law_an_episode_drops_what_cannot_be_marked(f: FlowState, now: int, interval: int)
    requires
        20 <= interval <= 300_000_000,
        stands(f, 0, now, interval),
        f.above_since is Some && f.above_since->0 <= now,
        f.dropping,
        f.drop_next is Some && f.drop_next->0 <= now,
        1 <= f.count < 0xffff_ffff,
        !can_be_marked(f.packets[0].packet),
    ensures
        ({
            let turn = codel(f, now, interval);
            &&& f.packets.len() > 1
            &&& turn.dropped >= 1
            &&& !stands(f, 1, now, interval) ==> {
                &&& turn.delivered == Some(f.packets[1].packet)
                &&& turn.flow.packets == f.packets.skip(2)
                &&& turn.dropped == 1 && turn.marked == 0
                &&& !turn.flow.dropping && turn.flow.above_since is None
            }
            &&& forall|step: int|
                #![trigger nearest_step(step, interval, f.count + 1)]
                stands(f, 1, now, interval) && nearest_step(step, interval, f.count + 1) && now
                    < f.drop_next->0 + step ==> {
                    &&& turn.delivered == Some(f.packets[1].packet)
                    &&& turn.flow.packets == f.packets.skip(2)
                    &&& turn.dropped == 1 && turn.marked == 0
                    &&& turn.flow.dropping && turn.flow.count == f.count + 1
                    &&& turn.flow.drop_next == Some(f.drop_next->0 + step)
                }
        }),
{
    lemma_standing(f, now, interval);
    assert(f.packets.len() > 1) by {
        if f.packets.len() == 1 {
            assert(f.packets.skip(1) =~= Seq::empty());
        }
    }
    let first = taken(f, now, interval);
    let more = FlowState { count: f.count + 1, ..first.flow };
    lemma_standing(more, now, interval);
    assert(f.packets.skip(1).skip(1) =~= f.packets.skip(2));
    assert(more.packets[0] == f.packets[1]);
    assert(stands(more, 0, now, interval) == stands(f, 1, now, interval)) by {
        assert(more.packets.skip(1) =~= f.packets.skip(2));
    }
    let next = taken(more, now, interval);
    let rest = episode(
        if next.overdue {
            crate::queue::model::scheduled(next.flow, f.drop_next->0, interval)
        } else {
            FlowState { dropping: false, ..next.flow }
        },
        next.packet,
        next.waited,
        now,
        interval,
    );
    crate::queue::laws::lemma_episode_order(
        if next.overdue {
            crate::queue::model::scheduled(next.flow, f.drop_next->0, interval)
        } else {
            FlowState { dropping: false, ..next.flow }
        },
        next.packet,
        next.waited,
        now,
        interval,
    );
    reveal_with_fuel(episode, 2);
    assert forall|step: int| #[trigger]
        nearest_step(step, interval, f.count + 1) implies step == control_step(
        interval,
        f.count + 1,
    ) by {
        assert((2 * interval) * (2 * interval) == 4 * interval * interval) by (nonlinear_arith);
        assert(is_control_step(step, interval, f.count + 1));
        lemma_control_step(step, interval, f.count + 1);
    }
}

/// The signals come as the square root of their count says: at the square of a number they are that
/// many times closer together, to the nearest nanosecond, and they never move apart.
pub proof fn law_signals_come_closer_by_the_square_root(interval: int, n: int, count: int)
    requires
        0 <= interval <= 300_000_000,
        n >= 1,
        count >= 1,
    ensures
        control_step(interval, 1) == interval,
        -n <= 2 * n * control_step(interval, n * n) - 2 * interval <= n,
        control_step(interval, count + 1) <= control_step(interval, count),
{
    lemma_step(interval, 1);
    let one = control_step(interval, 1);
    assert(one == interval) by (nonlinear_arith)
        requires
            0 <= one <= interval,
            4 * interval * interval < (2 * one + 1) * (2 * one + 1) * 1,
    ;
    assert(n * n >= 1) by (nonlinear_arith)
        requires
            n >= 1,
    ;
    lemma_step(interval, n * n);
    let step = control_step(interval, n * n);
    let up = (2 * step + 1) * n;
    assert((2 * step + 1) * (2 * step + 1) * (n * n) == up * up) by (nonlinear_arith)
        requires
            up == (2 * step + 1) * n,
    ;
    assert(up > 2 * interval) by (nonlinear_arith)
        requires
            4 * interval * interval < up * up,
            interval >= 0,
            up == (2 * step + 1) * n,
            step >= 0,
            n >= 1,
    ;
    assert(up == 2 * n * step + n) by (nonlinear_arith)
        requires
            up == (2 * step + 1) * n,
    ;
    if step > 0 {
        let down = (2 * step - 1) * n;
        assert((2 * step - 1) * (2 * step - 1) * (n * n) == down * down) by (nonlinear_arith)
            requires
                down == (2 * step - 1) * n,
        ;
        assert(down <= 2 * interval) by (nonlinear_arith)
            requires
                down * down <= 4 * interval * interval,
                interval >= 0,
                down == (2 * step - 1) * n,
        ;
        assert(down == 2 * n * step - n) by (nonlinear_arith)
            requires
                down == (2 * step - 1) * n,
        ;
    } else {
        assert(2 * n * step == 0) by (nonlinear_arith)
            requires
                step == 0,
        ;
    }
    lemma_step(interval, count);
    lemma_step(interval, count + 1);
    let more = control_step(interval, count + 1);
    let less = control_step(interval, count);
    if more > less {
        assert((2 * less + 1) * (2 * less + 1) * count <= (2 * more - 1) * (2 * more - 1) * (count
            + 1)) by (nonlinear_arith)
            requires
                0 <= less < more,
                count >= 1,
        ;
    }
}

/// The interval moves an eighth of the way to four times the round trip, and stays between 50 and
/// 300 milliseconds.
pub proof fn law_the_interval_moves_an_eighth(interval: int, rtt: int)
    requires
        rtt >= 0,
        interval >= 0,
    ensures
        7 * interval + 4 * rtt < 400_000_000 ==> blended(interval, rtt) == 50_000_000,
        7 * interval + 4 * rtt >= 2_400_000_008 ==> blended(interval, rtt) == 300_000_000,
        400_000_000 <= 7 * interval + 4 * rtt < 2_400_000_008 ==> 0 <= 7 * interval + 4 * rtt - 8
            * blended(interval, rtt) < 8,
{
}

/// The bucket in front of those that have just started goes first, and where there is none the
/// bucket in front of the others. While it has credit it is served, and what it sends is taken off
/// its credit; once it has none it gets 1280 bytes more and goes behind all the others.
pub proof fn law_buckets_take_turns(q: QueueState, now: int)
    requires
        well_formed(q),
        q.fresh.len() + q.backlogged.len() > 0,
    ensures
        ({
            let i = if q.fresh.len() > 0 {
                q.fresh[0]
            } else {
                q.backlogged[0]
            };
            let f = q.flows[i];
            let (after, packet) = dequeued(q, now);
            &&& f.deficit > 0 && f.packets.len() > 0 ==> {
                &&& packet is Some
                &&& packet == codel(f, now, q.interval).delivered
                &&& after.flows[i].packets == codel(f, now, q.interval).flow.packets
                &&& after.flows[i].deficit == f.deficit - packet->0.len()
                &&& after.fresh == q.fresh && after.backlogged == q.backlogged
                &&& after.flows.len() == q.flows.len() && forall|j: int|
                    0 <= j < q.flows.len() && j != i ==> #[trigger] after.flows[j] == q.flows[j]
            }
            &&& f.deficit <= 0 ==> dequeued(q, now) == dequeued(
                QueueState {
                    flows: q.flows.update(i, FlowState { deficit: f.deficit + 1280, ..f }),
                    fresh: if q.fresh.len() > 0 {
                        q.fresh.skip(1)
                    } else {
                        q.fresh
                    },
                    backlogged: if q.fresh.len() > 0 {
                        q.backlogged.push(i)
                    } else {
                        q.backlogged.skip(1).push(i)
                    },
                    ..q
                },
                now,
            )
            &&& f.deficit > 0 && f.packets.len() == 0 ==> dequeued(q, now) == dequeued(
                QueueState {
                    flows: q.flows.update(i, FlowState { listed: false, ..f }),
                    fresh: if q.fresh.len() > 0 {
                        q.fresh.skip(1)
                    } else {
                        q.fresh
                    },
                    backlogged: if q.fresh.len() > 0 {
                        q.backlogged
                    } else {
                        q.backlogged.skip(1)
                    },
                    over_target: q.over_target % 0x1_0000_0000_0000_0000,
                    marked: q.marked % 0x1_0000_0000_0000_0000,
                    worst_wait: if q.worst_wait >= 0 {
                        q.worst_wait
                    } else {
                        0
                    },
                    ..q
                },
                now,
            )
        }),
{
    let all = q.fresh + q.backlogged;
    assert(all[0] == if q.fresh.len() > 0 {
        q.fresh[0]
    } else {
        q.backlogged[0]
    });
    let i = all[0];
    assert(0 <= i < q.flows.len());
    let f = q.flows[i];
    if q.fresh.len() > 0 {
        assert(q.fresh.skip(1) =~= q.fresh.drop_first());
    } else {
        assert(q.backlogged.skip(1) =~= q.backlogged.drop_first());
    }
    crate::queue::laws::law_codel_delivers_one(f, now, q.interval);
    crate::queue::laws::lemma_codel_keeps(f, now, q.interval);
}

/// A packet filed in a bucket that is not being served puts it behind those that have just started,
/// with 1280 bytes of credit; one filed in a bucket that is leaves its turn and its credit alone.
pub proof fn law_a_bucket_starts_with_one_turn(q: QueueState, packet: Seq<u8>, now: int)
    requires
        well_formed(q),
        q.flows.len() == FLOWS,
    ensures
        ({
            let i = bucket(packet);
            let after = enqueued(q, packet, now);
            &&& !q.flows[i].listed ==> after.flows[i].listed && after.flows[i].deficit == 1280
                && after.fresh == q.fresh.push(i)
            &&& q.flows[i].listed ==> after.flows[i].listed && after.flows[i].deficit
                == q.flows[i].deficit && after.fresh == q.fresh
            &&& after.backlogged == q.backlogged
            &&& after.flows[i].packets.last().packet == packet && after.flows[i].packets.last().at
                == now
        }),
{
    lemma_room_keeps_turns(q, packet.len(), bucket(packet));
    crate::queue::laws::law_push_keeps_the_ceiling(q, packet, now);
}

proof fn lemma_room_keeps_turns(q: QueueState, len: nat, i: int)
    requires
        0 <= i < q.flows.len(),
    ensures
        ({
            let roomy = with_room(q, len);
            &&& roomy.flows.len() == q.flows.len()
            &&& roomy.flows[i].listed == q.flows[i].listed
            &&& roomy.flows[i].deficit == q.flows[i].deficit
            &&& roomy.fresh == q.fresh && roomy.backlogged == q.backlogged
        }),
    decreases total_packets(q.flows),
{
    if with_room(q, len) != q {
        crate::queue::model::lemma_fattest_head(q);
        lemma_room_keeps_turns(crate::queue::model::without_fattest_head(q), len, i);
    }
}

/// Nothing is dropped for room while what waits and what comes are within two mebibytes, and
/// something is wherever they are not and anything waits.
pub proof fn law_room_is_made_past_two_mebibytes(q: QueueState, len: nat)
    requires
        well_formed(q),
        q.flows.len() == FLOWS,
    ensures
        total_bytes(q.flows) + len <= 2_097_152 ==> with_room(q, len) == q,
        total_bytes(q.flows) + len > 2_097_152 && total_bytes(q.flows) > 0 ==> total_packets(
            with_room(q, len).flows,
        ) < total_packets(q.flows),
        total_bytes(with_room(q, len).flows) == 0 || total_bytes(with_room(q, len).flows) + len
            <= 2_097_152,
    decreases total_packets(q.flows),
{
    crate::queue::laws::lemma_with_room(q, len);
    if total_bytes(q.flows) + len > 2_097_152 && total_bytes(q.flows) > 0 {
        crate::queue::model::lemma_fattest_head(q);
        lemma_room_takes(crate::queue::model::without_fattest_head(q), len);
    }
}

proof fn lemma_room_takes(q: QueueState, len: nat)
    ensures
        total_packets(with_room(q, len).flows) <= total_packets(q.flows),
    decreases total_packets(q.flows),
{
    if with_room(q, len) != q {
        crate::queue::model::lemma_fattest_head(q);
        lemma_room_takes(crate::queue::model::without_fattest_head(q), len);
    }
}

/// A batch is packets taken one after another: taking some and then some more is taking them all at
/// once, and a batch that comes out short has left nothing waiting.
pub proof fn law_a_batch_is_packets_one_by_one(q: QueueState, first: nat, more: nat, now: int)
    requires
        well_formed(q),
        q.worst_wait >= 0,
    ensures
        popped(q, first, now).1.len() <= first,
        popped(q, first, now).1.len() == first ==> popped(q, first + more, now) == ({
            let (between, out) = popped(q, first, now);
            let (after, rest) = popped(between, more, now);
            (after, out + rest)
        }),
        popped(q, first, now).1.len() < first ==> total_packets(popped(q, first, now).0.flows) == 0,
    decreases first + more,
{
    lemma_popped(q, first, now);
    if more > 0 {
        law_a_batch_is_packets_one_by_one(q, first, (more - 1) as nat, now);
        let (between, out) = popped(q, first, now);
        if out.len() == first {
            let (after, rest) = popped(between, (more - 1) as nat, now);
            lemma_popped(between, (more - 1) as nat, now);
            assert((first + more - 1) as nat == first + (more - 1) as nat);
            if rest.len() == more - 1 {
                match dequeued(after, now) {
                    (last, Some(packet)) => {
                        assert((out + rest).push(packet) =~= out + rest.push(packet));
                    },
                    (last, None) => {},
                }
            }
        }
    } else {
        let (between, out) = popped(q, first, now);
        assert(out + Seq::<Seq<u8>>::empty() =~= out);
    }
}

proof fn lemma_popped(q: QueueState, max: nat, now: int)
    requires
        well_formed(q),
        q.worst_wait >= 0,
    ensures
        popped(q, max, now).1.len() <= max,
        well_formed(popped(q, max, now).0),
        popped(q, max, now).0.worst_wait >= 0,
        popped(q, max, now).1.len() < max ==> total_packets(popped(q, max, now).0.flows) == 0,
    decreases max,
{
    if max > 0 {
        lemma_popped(q, (max - 1) as nat, now);
        let (before, out) = popped(q, (max - 1) as nat, now);
        law_a_queue_with_packets_gives_one(before, now);
        lemma_dequeued(before, now);
        crate::queue::laws::law_every_packet_is_accounted_for(before, now);
    }
}

/// What is dropped for room is the head of the bucket with the most bytes, the last of those that have
/// as many: that bucket loses its oldest packet, it is counted, and nothing else changes.
pub proof fn law_the_last_of_the_fattest_loses_its_head(q: QueueState, i: int, j: int)
    requires
        total_bytes(q.flows) > 0,
        0 <= i < q.flows.len(),
        forall|k: int|
            0 <= k < q.flows.len() ==> bytes_of((#[trigger] q.flows[k]).packets) <= bytes_of(
                q.flows[i].packets,
            ),
        forall|k: int|
            i < k < q.flows.len() ==> bytes_of((#[trigger] q.flows[k]).packets) < bytes_of(
                q.flows[i].packets,
            ),
        0 <= j < q.flows.len(),
    ensures
        ({
            let after = crate::queue::model::without_fattest_head(q);
            &&& after.flows.len() == q.flows.len()
            &&& after.flows[i].packets == q.flows[i].packets.skip(1)
            &&& j != i ==> after.flows[j] == q.flows[j]
            &&& after.over_limit == (q.over_limit + 1) % 0x1_0000_0000_0000_0000
            &&& after.fresh == q.fresh && after.backlogged == q.backlogged
            &&& after.over_target == q.over_target && after.marked == q.marked && after.thinned
                == q.thinned && after.stale == q.stale && after.worst_wait == q.worst_wait
        }),
{
    crate::queue::model::lemma_fattest_head(q);
    let idx = choose|idx: int| crate::queue::model::is_fattest(q.flows, idx);
    assert(idx == i) by {
        if idx < i {
            assert(bytes_of(q.flows[i].packets) < bytes_of(q.flows[idx].packets));
        }
        if idx > i {
            assert(bytes_of(q.flows[idx].packets) < bytes_of(q.flows[i].packets));
        }
    }
    assert(q.flows[i].packets.drop_first() =~= q.flows[i].packets.skip(1));
}

/// Every packet filed is accounted for: what waits afterwards is what waited before and this one, less
/// what was dropped for room and less the acknowledgements it made redundant, and each of those is
/// counted as what it is.
pub proof fn law_every_packet_filed_is_accounted_for(q: QueueState, packet: Seq<u8>, now: int)
    requires
        well_formed(q),
        q.flows.len() == FLOWS,
        0 <= q.over_limit < 0x1_0000_0000_0000_0000,
        0 <= q.thinned < 0x1_0000_0000_0000_0000,
    ensures
        ({
            let after = enqueued(q, packet, now);
            let dropped = total_packets(q.flows) - total_packets(with_room(q, packet.len()).flows);
            let thinned = total_packets(q.flows) + 1 - dropped - total_packets(after.flows);
            &&& dropped >= 0 && thinned >= 0
            &&& after.over_limit == (q.over_limit + dropped) % 0x1_0000_0000_0000_0000
            &&& after.thinned == (q.thinned + thinned) % 0x1_0000_0000_0000_0000
            &&& after.over_target == q.over_target && after.marked == q.marked && after.stale
                == q.stale && after.worst_wait == q.worst_wait && after.interval == q.interval
        }),
{
    lemma_room_counts(q, packet.len());
    crate::queue::laws::lemma_with_room(q, packet.len());
    let roomy = with_room(q, packet.len());
    let idx = bucket(packet);
    let f = roomy.flows[idx];
    let after = enqueued(q, packet, now);
    crate::queue::laws::law_thinning_spares_the_rest(f.packets, packet);
    crate::queue::model::lemma_totals_update(roomy.flows, idx, after.flows[idx]);
}

proof fn lemma_room_counts(q: QueueState, len: nat)
    requires
        0 <= q.over_limit < 0x1_0000_0000_0000_0000,
    ensures
        ({
            let roomy = with_room(q, len);
            let dropped = total_packets(q.flows) - total_packets(roomy.flows);
            &&& dropped >= 0
            &&& roomy.over_limit == (q.over_limit + dropped) % 0x1_0000_0000_0000_0000
            &&& roomy.thinned == q.thinned && roomy.over_target == q.over_target && roomy.marked
                == q.marked && roomy.stale == q.stale && roomy.worst_wait == q.worst_wait
                && roomy.interval == q.interval
        }),
    decreases total_packets(q.flows),
{
    if total_bytes(q.flows) + len > 2_097_152 && total_bytes(q.flows) > 0 {
        crate::queue::model::lemma_fattest_head(q);
        lemma_room_counts(crate::queue::model::without_fattest_head(q), len);
    }
}

/// A turn counts what it cost and how long the packet it delivers has waited, where that is the
/// longest so far; what is stale is counted when it goes.
pub proof fn law_a_turn_counts_what_it_cost(q: QueueState, now: int, age: int)
    requires
        well_formed(q),
    ensures
        q.fresh.len() + q.backlogged.len() > 0 ==> ({
            let i = (q.fresh + q.backlogged)[0];
            let f = q.flows[i];
            let turn = codel(f, now, q.interval);
            let after = dequeued(q, now).0;
            f.deficit > 0 && f.packets.len() > 0 ==> {
                &&& after.over_target == (q.over_target + turn.dropped) % 0x1_0000_0000_0000_0000
                &&& after.marked == (q.marked + turn.marked) % 0x1_0000_0000_0000_0000
                &&& after.worst_wait == if q.worst_wait >= turn.waited {
                    q.worst_wait
                } else {
                    turn.waited
                }
                &&& after.over_limit == q.over_limit && after.thinned == q.thinned && after.stale
                    == q.stale && after.interval == q.interval
            }
        }),
        ({
            let after = crate::queue::model::without_stale(q, now, age);
            &&& after.stale == (q.stale + total_packets(q.flows) - total_packets(after.flows))
                % 0x1_0000_0000_0000_0000
            &&& after.over_limit == q.over_limit && after.over_target == q.over_target
                && after.marked == q.marked && after.thinned == q.thinned && after.worst_wait
                == q.worst_wait
            &&& after.fresh == q.fresh && after.backlogged == q.backlogged
        }),
{
    if q.fresh.len() + q.backlogged.len() > 0 {
        let all = q.fresh + q.backlogged;
        assert(0 <= all[0] < q.flows.len());
        assert(all[0] == if q.fresh.len() > 0 {
            q.fresh[0]
        } else {
            q.backlogged[0]
        });
        let f = q.flows[all[0]];
        crate::queue::laws::law_codel_delivers_one(f, now, q.interval);
    }
}

} // verus!
