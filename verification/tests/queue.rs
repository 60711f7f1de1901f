use masqr::ip::ipv4_checksum;
use masqr::queue::model::{INTERVAL_CEILING, INTERVAL_FLOOR, LIMIT_BYTES, STALE_AFTER, TARGET_SHARE};
use masqr::queue::signals::{flow_of, mark_congestion};
use masqr::queue::PacketQueue;

/// The two flows every test below uses. Their ports are not arbitrary: they were chosen to land
/// in different buckets, which `two_flows_that_the_tests_can_tell_apart` holds them to. Ports
/// that collide would make a fairness test compare a flow against itself — and pass.
const BULK: u16 = 1000;
const SPARSE: u16 = 3000;

/// A TCP packet of `len` bytes from one of the two test flows.
///
/// The tag byte sits past the ports on purpose: anything written inside the 5-tuple changes the
/// bucket, so a test that marked packets there would be filing each one somewhere else.
fn packet(port: u16, len: usize, tag: u8) -> Vec<u8> {
    let mut packet = vec![0u8; len.max(25)];
    packet[0] = 0x45;
    packet[9] = 6;
    packet[12..16].copy_from_slice(&[10, 0, 0, 1]);
    packet[16..20].copy_from_slice(&if port == BULK {
        [1, 1, 1, 1]
    } else {
        [2, 2, 2, 2]
    });
    packet[20..22].copy_from_slice(&port.to_be_bytes());
    packet[22..24].copy_from_slice(&443u16.to_be_bytes());
    packet[24] = tag;
    packet
}

/// A moment the tests start at.
const START: u64 = 1_000_000_000_000;

const MILLISECOND: u64 = 1_000_000;

/// Dequeue up to `max` packets at one instant.
fn drain(queue: &mut PacketQueue, max: usize) -> Vec<Vec<u8>> {
    let mut out = Vec::new();
    queue.pop_batch(&mut out, max, START);
    out
}

/// Dequeue one packet at an instant.
fn dequeue(queue: &mut PacketQueue, now: u64) -> Option<Vec<u8>> {
    let mut out = Vec::new();
    queue.pop_batch(&mut out, 1, now);
    out.pop()
}

/// Which flow each dequeued packet came from.
fn ports(packets: &[Vec<u8>]) -> Vec<u16> {
    packets
        .iter()
        .map(|p| u16::from_be_bytes([p[20], p[21]]))
        .collect()
}

#[test]
fn two_flows_that_the_tests_can_tell_apart() {
    assert_ne!(
        flow_of(&packet(BULK, 100, 0)),
        flow_of(&packet(SPARSE, 100, 0)),
        "the test flows share a bucket, so nothing below measures fairness"
    );
}

#[test]
fn one_flow_keeps_its_order() {
    // Fairness is between flows only. Inner TCP reads reordering as loss, so a bucket has to
    // stay a FIFO — this is the property that must survive every change to the scheduler.
    let mut queue = PacketQueue::new();
    for tag in 0..8u8 {
        queue.push(packet(BULK, 100, tag), START);
    }
    let out = drain(&mut queue, 8);
    assert_eq!(
        out.iter().map(|p| p[24]).collect::<Vec<_>>(),
        (0..8u8).collect::<Vec<_>>()
    );
}

#[test]
fn a_new_flow_goes_ahead_of_a_backlog() {
    // The symptom this queue exists for: a page of small requests behind a download. The
    // request arrives last and must not leave last.
    let mut queue = PacketQueue::new();
    for tag in 0..20u8 {
        queue.push(packet(BULK, 1200, tag), START);
    }
    // Enough turns that the download has spent its head start and become an ordinary flow.
    drain(&mut queue, 3);
    queue.push(packet(SPARSE, 60, 0), START);

    assert_eq!(ports(&drain(&mut queue, 1)), vec![SPARSE]);
}

#[test]
fn neither_of_two_busy_flows_is_starved() {
    let mut queue = PacketQueue::new();
    for tag in 0..10u8 {
        queue.push(packet(BULK, 1300, tag), START);
        queue.push(packet(SPARSE, 1300, tag), START);
    }
    let out = ports(&drain(&mut queue, 12));
    let bulk = out.iter().filter(|p| **p == BULK).count();
    // Round-robin over a deficit does not alternate packet by packet: with packets larger
    // than the quantum a flow can take two turns before yielding. What it may never do is let
    // one flow run away with the queue, which is what this asserts.
    assert!(
        (4..=8).contains(&bulk),
        "one flow took {bulk} of 12 turns: {out:?}"
    );
}

#[test]
fn a_flood_is_taken_from_the_flood_and_not_from_the_bystander() {
    // Overflow drops from the fattest bucket. Dropping the arriving packet instead would let
    // one download push out every small flow it is drowning.
    let mut queue = PacketQueue::new();
    queue.push(packet(SPARSE, 60, 0), START);
    while queue.stats().bytes + 1300 <= LIMIT_BYTES {
        queue.push(packet(BULK, 1300, 0), START);
    }
    for _ in 0..50 {
        queue.push(packet(BULK, 1300, 0), START);
    }

    assert!(queue.stats().over_limit > 0, "the limit never bit");
    assert_eq!(ports(&drain(&mut queue, 1)), vec![SPARSE]);
}

#[test]
fn a_queue_that_stands_too_long_starts_dropping() {
    // CoDel's whole job, and why a tunnel drops at all: the outer TCP hides loss from the
    // connections inside it, so this is the only place their congestion signal can come from.
    let mut queue = PacketQueue::new();
    let start = START;
    for tag in 0..40u8 {
        queue.push(packet(BULK, 1300, tag), start);
    }

    // The first dequeue past target only starts the clock: CoDel drops nothing until the
    // target has been exceeded for a whole interval, so a burst does not count.
    let (target, interval) = (queue.target(), queue.stats().interval);
    let armed = start + target + MILLISECOND;
    assert!(dequeue(&mut queue, armed).is_some());
    assert_eq!(
        queue.stats().over_target, 0,
        "a burst was treated as standing delay"
    );

    assert!(
        dequeue(&mut queue, armed + interval + MILLISECOND).is_some()
    );
    assert!(queue.stats().over_target > 0, "standing delay went unpunished");
}

#[test]
fn a_queue_that_drains_promptly_is_left_alone() {
    let mut queue = PacketQueue::new();
    let start = START;
    for tag in 0..40u8 {
        queue.push(packet(BULK, 1300, tag), start);
    }
    for step in 0..40 {
        dequeue(&mut queue, start + step * 10_000);
    }
    assert_eq!(queue.stats().over_target, 0, "a fast queue was punished");
}

#[test]
fn what_waited_out_a_gap_between_tunnels_is_not_sent_on_the_next() {
    let mut queue = PacketQueue::new();
    let start = START;
    for tag in 0..10u8 {
        queue.push(packet(BULK, 1300, tag), start);
    }
    queue.push(packet(SPARSE, 100, 0), start);
    let later = start + STALE_AFTER;
    for tag in 10..13u8 {
        queue.push(packet(BULK, 1300, tag), later);
    }

    assert_eq!(queue.drop_stale(later), 11);
    let stats = queue.stats();
    assert_eq!((stats.packets, stats.bytes, stats.stale), (3, 3 * 1300, 11));

    // The standing delay was the gap, and it is not held against the tunnel that ends it: the
    // next dequeues at the new tunnel's pace deliver what is left, in order, and drop nothing.
    let mut delivered = Vec::new();
    while let Some(packet) = dequeue(&mut queue, later + MILLISECOND) {
        delivered.push(packet[24]);
    }
    assert_eq!(delivered, vec![10, 11, 12]);
    assert_eq!(queue.stats().over_target, 0);
}

#[test]
fn the_bucket_follows_the_five_tuple_and_nothing_else() {
    let short = flow_of(&packet(BULK, 60, 0));
    let long = flow_of(&packet(BULK, 1200, 7));
    assert_eq!(short, long, "size or payload changed the bucket");
}

#[test]
fn a_closed_queue_delivers_what_is_left_and_then_says_so() {
    let mut queue = PacketQueue::new();
    queue.push(packet(BULK, 60, 0), START);
    queue.close();
    let mut out = Vec::new();
    assert_eq!(queue.pop_batch(&mut out, 16, START), Some(true));
    assert_eq!(out.len(), 1);
    assert_eq!(queue.pop_batch(&mut out, 16, START), Some(false));
}



/// A bare acknowledgement: twenty bytes of IP, twenty of TCP, no options and no payload.
fn ack(port: u16, acked: u32) -> Vec<u8> {
    let mut packet = vec![0u8; 40];
    packet[0] = 0x45;
    packet[2..4].copy_from_slice(&40u16.to_be_bytes());
    packet[9] = 6;
    packet[12..16].copy_from_slice(&[10, 0, 0, 1]);
    packet[16..20].copy_from_slice(&if port == BULK {
        [1, 1, 1, 1]
    } else {
        [2, 2, 2, 2]
    });
    packet[20..22].copy_from_slice(&port.to_be_bytes());
    packet[22..24].copy_from_slice(&443u16.to_be_bytes());
    packet[28..32].copy_from_slice(&acked.to_be_bytes());
    packet[32] = 5 << 4;
    packet[33] = 0x10;
    seal(packet)
}

/// Put the header checksum right, so a test can tell a changed header from a wrong one.
fn seal(mut packet: Vec<u8>) -> Vec<u8> {
    let sum = ipv4_checksum(&packet[..20]);
    packet[10..12].copy_from_slice(&sum.to_be_bytes());
    packet
}

fn checksum_holds(packet: &[u8]) -> bool {
    let stored = u16::from_be_bytes([packet[10], packet[11]]);
    ipv4_checksum(&packet[..20]) == stored
}

/// The same packet, from a sender that asked to be told rather than dropped.
fn ecn_capable(mut packet: Vec<u8>) -> Vec<u8> {
    packet[1] |= 0b10;
    seal(packet)
}

fn acked(packet: &[u8]) -> u32 {
    u32::from_be_bytes([packet[28], packet[29], packet[30], packet[31]])
}

// ── telling a sender to slow down ────────────────────────────────────────

#[test]
fn a_sender_that_asked_to_be_told_is_told_and_not_dropped() {
    let mut packet = ecn_capable(ack(BULK, 1));
    assert!(mark_congestion(&mut packet));
    assert_eq!(packet[1] & 0b11, 0b11, "the mark is not set");
    assert!(checksum_holds(&packet), "the header no longer verifies");
}

#[test]
fn a_sender_that_did_not_ask_is_left_for_dropping() {
    // Marking one of these would be a signal nothing reads, and the packet would go on adding
    // to the queue it was supposed to relieve.
    let mut packet = ack(BULK, 1);
    assert!(!mark_congestion(&mut packet));
    assert_eq!(packet[1] & 0b11, 0, "an unwilling packet was marked anyway");
}

#[test]
fn an_already_marked_packet_is_left_exactly_as_it_is() {
    let mut packet = ecn_capable(ack(BULK, 1));
    assert!(mark_congestion(&mut packet));
    let once = packet.clone();
    assert!(mark_congestion(&mut packet));
    assert_eq!(packet, once, "marking twice changed the packet");
}

#[test]
fn a_standing_queue_of_willing_senders_is_marked_rather_than_thinned() {
    let mut queue = PacketQueue::new();
    let start = START;
    for tag in 0..40u8 {
        queue.push(ecn_capable(packet(BULK, 1300, tag)), start);
    }
    let armed = start + queue.target() + MILLISECOND;
    let interval = queue.stats().interval;
    dequeue(&mut queue, armed);
    dequeue(&mut queue, armed + interval + MILLISECOND);

    assert!(queue.stats().marked > 0, "nothing was told to slow down");
    assert_eq!(queue.stats().over_target, 0, "a willing sender was dropped anyway");
}

// ── acknowledgements ─────────────────────────────────────────────────────

#[test]
fn a_later_acknowledgement_makes_the_earlier_ones_pointless() {
    // Everything an earlier one says, a later one says too. On a link whose narrow direction is
    // upstream, sending all of them is most of what fills it.
    let mut queue = PacketQueue::new();
    for n in 1..=5u32 {
        queue.push(ack(BULK, n * 1000), START);
    }
    let left = drain(&mut queue, 8);
    // The newest, and one behind it: a single lost acknowledgement then costs nothing.
    assert_eq!(
        left.iter().map(|p| acked(p)).collect::<Vec<_>>(),
        vec![4000, 5000]
    );
    assert_eq!(queue.stats().thinned, 3);
}

#[test]
fn a_repeated_acknowledgement_is_never_removed() {
    // Duplicates are how a sender learns to retransmit before its timer fires. Removing them
    // would take fast retransmit away from the connection.
    let mut queue = PacketQueue::new();
    for _ in 0..4 {
        queue.push(ack(BULK, 7000), START);
    }
    assert_eq!(queue.stats().thinned, 0);
    assert_eq!(drain(&mut queue, 8).len(), 4);
}

#[test]
fn an_acknowledgement_carrying_options_is_left_alone() {
    // Selective acknowledgements and timestamps live in the options. A later plain one does not
    // repeat what they said, so it cannot stand in for them.
    let mut queue = PacketQueue::new();
    let mut with_options = ack(BULK, 1000);
    with_options[32] = 6 << 4; // a longer header, whatever is in it
    queue.push(seal(with_options), START);
    queue.push(ack(BULK, 2000), START);
    queue.push(ack(BULK, 3000), START);

    assert_eq!(
        queue.stats().thinned,
        0,
        "an option-carrying ack was removed"
    );
}

#[test]
fn a_neighbour_sharing_the_bucket_is_not_thinned() {
    // Buckets are shared by hashing, so the connection is compared and not assumed. Removing
    // another connection's acknowledgements would be a silent hole in a healthy link.
    // Port 2000 was picked because it hashes into the same bucket as `BULK` — the collision is
    // the point, and the assertion below is what says it still happens.
    const NEIGHBOUR: u16 = 2000;
    let mut queue = PacketQueue::new();
    let mine = ack(BULK, 1000);
    let theirs = ack(NEIGHBOUR, 2000);
    assert_eq!(flow_of(&mine), flow_of(&theirs), "the test premise is gone");

    queue.push(mine, START);
    queue.push(theirs, START);
    queue.push(ack(BULK, 3000), START);
    assert_eq!(queue.stats().thinned, 0);
    assert_eq!(ports(&drain(&mut queue, 8)).len(), 3);
}

#[test]
fn thinning_keeps_the_queue_totals_straight() {
    let mut queue = PacketQueue::new();
    for n in 1..=6u32 {
        queue.push(ack(SPARSE, n * 100), START);
    }
    let stats = queue.stats();
    assert_eq!(stats.packets, 2);
    assert_eq!(stats.bytes, 80, "bytes did not follow the packets out");
}

// ── working to the link that is there ────────────────────────────────────

#[test]
fn the_interval_follows_a_measured_round_trip() {
    let mut queue = PacketQueue::new();
    // An ordinary tunnel leg reproduces the published default, which is why the factor is what
    // it is: the constant is not being replaced, it is being derived.
    for _ in 0..40 {
        queue.observe_rtt(25 * MILLISECOND);
    }
    assert_eq!(queue.stats().interval, 100 * MILLISECOND);

    for _ in 0..40 {
        queue.observe_rtt(200 * MILLISECOND);
    }
    assert_eq!(
        queue.stats().interval,
        INTERVAL_CEILING,
        "a slow link was not held at the ceiling"
    );

    for _ in 0..80 {
        queue.observe_rtt(MILLISECOND / 2);
    }
    assert_eq!(
        queue.stats().interval,
        INTERVAL_FLOOR,
        "a fast link was not held at the floor"
    );
}

#[test]
fn the_target_stays_a_share_of_the_interval() {
    let mut queue = PacketQueue::new();
    for _ in 0..40 {
        queue.observe_rtt(50 * MILLISECOND);
    }
    assert_eq!(queue.target(), queue.stats().interval / TARGET_SHARE);
}

/// Congestion takes packets ahead of others, never the last one: a queue with packets always gives
/// one up, however long it has stood.
#[test]
fn a_standing_queue_gives_one_up_until_it_is_empty() {
    let mut queue = PacketQueue::new();
    for tag in 0..60u8 {
        queue.push(packet(BULK, 1300, tag), START);
    }
    let mut now = START + 200 * MILLISECOND;
    let mut delivered: u64 = 0;
    while queue.stats().packets > 0 {
        assert!(dequeue(&mut queue, now).is_some(), "packets wait and none came");
        delivered += 1;
        now += 60 * MILLISECOND;
    }
    assert!(dequeue(&mut queue, now).is_none());
    assert!(queue.stats().over_target > 0, "the queue never stood long enough");
    assert_eq!(delivered + queue.stats().over_target, 60);
}

/// A packet is filed behind what waits in its own bucket, and where there is room nothing is dropped
/// for it.
#[test]
fn a_packet_is_filed_last_and_costs_nothing_where_there_is_room() {
    let mut queue = PacketQueue::new();
    for tag in 0..5u8 {
        queue.push(packet(BULK, 1300, tag), START);
    }
    assert_eq!(queue.stats().over_limit, 0);
    let tags: Vec<u8> = drain(&mut queue, 5).iter().map(|one| one[24]).collect();
    assert_eq!(tags, [0, 1, 2, 3, 4]);
}

/// The worst wait is that of a packet that was delivered: a head that congestion cost waited longer,
/// and is not what is measured. Reading it starts it again.
#[test]
fn the_worst_wait_is_of_a_packet_that_was_delivered() {
    let mut queue = PacketQueue::new();
    queue.push(packet(BULK, 1300, 0), START);
    queue.push(packet(BULK, 1300, 1), START);
    assert_eq!(dequeue(&mut queue, START + 6 * MILLISECOND).map(|one| one[24]), Some(0));
    assert_eq!(queue.stats().worst_wait, 6 * MILLISECOND);
    assert_eq!(queue.stats().worst_wait, 0);

    for tag in 2..6u8 {
        queue.push(packet(BULK, 1300, tag), START + 101 * MILLISECOND);
    }
    assert_eq!(dequeue(&mut queue, START + 107 * MILLISECOND).map(|one| one[24]), Some(2));
    let stats = queue.stats();
    assert_eq!(stats.over_target, 1, "the head had waited 107 ms");
    assert_eq!(stats.worst_wait, 6 * MILLISECOND);
    let again = queue.stats();
    assert_eq!(again.worst_wait, 0);
    assert_eq!((again.packets, again.bytes, again.over_target), (3, 3900, 1));

    // What goes for its age was not delivered either.
    assert_eq!(queue.drop_stale(START + 107 * MILLISECOND + STALE_AFTER), 3);
    assert!(dequeue(&mut queue, START + 107 * MILLISECOND + STALE_AFTER).is_none());
    assert_eq!(queue.stats().worst_wait, 0);
}

/// Congestion costs the bucket whose turn it is, and no other.
#[test]
fn a_dequeue_takes_from_one_flow() {
    let mut queue = PacketQueue::new();
    for tag in 0..20u8 {
        queue.push(packet(BULK, 1300, tag), START);
        queue.push(packet(SPARSE, 1300, tag), START);
    }
    let mut now = START + 6 * MILLISECOND;
    let mut next = [0u8, 0u8];
    let mut counted: u64 = 0;
    while let Some(one) = dequeue(&mut queue, now) {
        let flow = usize::from(ports(&[one.clone()]) == [SPARSE]);
        let dropped = queue.stats().over_target - counted;
        counted += dropped;
        // The packets of this flow up to the one delivered, and of the other none.
        assert_eq!(u64::from(one[24]), u64::from(next[flow]) + dropped);
        next[flow] = one[24] + 1;
        now += 40 * MILLISECOND;
    }
    assert_eq!(next, [20, 20]);
    assert!(counted > 0, "the queue never stood long enough");
}
