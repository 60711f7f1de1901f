use bytes::{BufMut, BytesMut};
use masqr::transport::capsule::{encode_datagram, take_capsule, DATAGRAM, MAX_CAPSULE};
use masqr::transport::varint;

/// One capsule out of the stream, for a test that is about something other than the shape of
/// the answer. `Err` and "not yet whole" are told apart where each of them is the subject.
fn taken(buf: &mut BytesMut) -> Option<Option<BytesMut>> {
    take_capsule(buf).expect("a length within the ceiling")
}

#[test]
fn a_datagram_survives_the_round_trip() {
    let packet = b"\x45\x00\x00\x28 and the rest of a packet";
    let mut stream = encode_datagram(packet);
    let one = taken(&mut stream).expect("whole").expect("a datagram");
    assert_eq!(&one[..], packet);
    assert!(stream.is_empty());
}

/// The stream arrives in whatever pieces the network chose, so a decoder that assumed whole
/// capsules would lose data on the first split header.
#[test]
fn a_capsule_split_across_reads_is_not_consumed_early() {
    let packet = vec![0x45u8; 300];
    let whole = encode_datagram(&packet);

    let mut buf = BytesMut::new();
    for cut in [1usize, 2, 3, 100] {
        buf.extend_from_slice(&whole[..cut]);
        assert!(taken(&mut buf).is_none(), "acted on {cut} bytes");
        buf.clear();
    }

    buf.extend_from_slice(&whole);
    assert_eq!(taken(&mut buf).unwrap().unwrap().len(), packet.len());
}

/// An unknown capsule type is skipped rather than raised: the stream stays in sync, and the
/// datagram behind it is still read.
#[test]
fn an_unknown_capsule_is_skipped_without_losing_the_next_one() {
    let mut buf = BytesMut::new();
    varint::put(&mut buf, 42);
    varint::put(&mut buf, 3);
    buf.put_slice(b"xyz");
    buf.extend_from_slice(&encode_datagram(b"packet"));

    assert!(taken(&mut buf).expect("whole").is_none());
    assert_eq!(&taken(&mut buf).unwrap().unwrap()[..], b"packet");
}

/// Two capsules in one read must both come out, in order.
#[test]
fn two_capsules_in_one_read_come_out_in_order() {
    let mut buf = BytesMut::new();
    buf.extend_from_slice(&encode_datagram(b"first"));
    buf.extend_from_slice(&encode_datagram(b"second"));
    assert_eq!(&taken(&mut buf).unwrap().unwrap()[..], b"first");
    assert_eq!(&taken(&mut buf).unwrap().unwrap()[..], b"second");
    assert!(taken(&mut buf).is_none());
}

/// A length is a number the other end writes, and the encoding lets it write one no stream
/// could ever deliver. Waiting for it is what turns four bytes into memory without a bound, so
/// it has to be refused on the header rather than on the bytes that never arrive.
#[test]
fn a_capsule_longer_than_any_packet_is_refused_rather_than_waited_for() {
    let mut buf = BytesMut::new();
    varint::put(&mut buf, DATAGRAM);
    varint::put(&mut buf, u64::MAX >> 2);

    let refused = take_capsule(&mut buf).expect_err("a length nothing could satisfy");
    assert_eq!(refused.0, u64::MAX >> 2);
    assert_eq!(buf.len(), 9, "and nothing was consumed");
}

/// The ceiling is where it says it is, on both sides of it.
#[test]
fn the_ceiling_admits_what_it_says_it_admits() {
    let mut just_under = BytesMut::new();
    varint::put(&mut just_under, DATAGRAM);
    varint::put(&mut just_under, MAX_CAPSULE);
    assert!(
        take_capsule(&mut just_under).is_ok(),
        "a capsule at the ceiling is waited for, not refused"
    );

    let mut just_over = BytesMut::new();
    varint::put(&mut just_over, DATAGRAM);
    varint::put(&mut just_over, MAX_CAPSULE + 1);
    assert!(take_capsule(&mut just_over).is_err());
}
