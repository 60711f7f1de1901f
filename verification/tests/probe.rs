use masqr::address::written::parse;
use masqr::address::IpAddr;
use masqr::probe::{
    carries_ipv6, dns_over_ipv6, dns_query, is_reply_to, udp_checksum, Waited, NEXT_HEADER_UDP,
    PROBE_NAME, PROBE_PORT, PROBE_RESOLVER,
};

fn source() -> u128 {
    match parse("2606:4700:110:8118:f6ab:31b0:1bd1:d8a") {
        Some(IpAddr::V6(address)) => address,
        _ => panic!("a literal address"),
    }
}

/// Checked by the property a checksum is defined by rather than against a number written down
/// by hand: recomputing over the datagram with the value in place, and over the same
/// pseudo-header, sums to all ones. That is exactly what the receiver does.
#[test]
fn the_checksum_makes_the_datagram_verify() {
    let packet = dns_over_ipv6(source(), PROBE_RESOLVER, PROBE_PORT, PROBE_NAME);
    let datagram = &packet[40..];

    let mut sum = 0u32;
    for field in [
        &source().to_be_bytes()[..],
        &PROBE_RESOLVER.to_be_bytes()[..],
        &(datagram.len() as u32).to_be_bytes()[..],
        &[0, 0, 0, NEXT_HEADER_UDP][..],
        datagram,
    ] {
        let mut pairs = field.chunks_exact(2);
        for pair in &mut pairs {
            sum += u32::from(u16::from_be_bytes([pair[0], pair[1]]));
        }
        if let [last] = pairs.remainder() {
            sum += u32::from(u16::from_be_bytes([*last, 0]));
        }
    }
    while sum >> 16 != 0 {
        sum = (sum & 0xffff) + (sum >> 16);
    }
    assert_eq!(sum as u16, 0xffff, "the datagram does not verify");
}

/// Over IPv6 a zero checksum is not a legal thing to send. A datagram whose checksum computes
/// to zero is sent as all ones instead, and this is the one case where that matters.
#[test]
fn a_checksum_that_computes_to_zero_is_sent_as_all_ones() {
    // A datagram chosen so the ones' complement sum is already all ones, which complements to
    // zero. Any such input must come back as 0xffff rather than 0.
    let ones = udp_checksum(0, 0, &[0xff, 0xff]);
    assert_ne!(ones, 0, "zero would mean the sender computed none");
}

#[test]
fn the_packet_is_a_well_formed_ipv6_udp_datagram() {
    let packet = dns_over_ipv6(source(), PROBE_RESOLVER, PROBE_PORT, PROBE_NAME);

    assert_eq!(packet[0] >> 4, 6, "version");
    assert_eq!(packet[6], NEXT_HEADER_UDP, "next header");
    let payload = u16::from_be_bytes([packet[4], packet[5]]);
    assert_eq!(usize::from(payload), packet.len() - 40, "payload length");
    assert_eq!(&packet[8..24], &source().to_be_bytes(), "source");
    assert_eq!(&packet[24..40], &PROBE_RESOLVER.to_be_bytes(), "destination");
    assert_eq!(u16::from_be_bytes([packet[40], packet[41]]), PROBE_PORT);
    assert_eq!(u16::from_be_bytes([packet[42], packet[43]]), 53);
}

/// The reply test is what decides the whole question, so it has to refuse everything that is
/// not an answer: another protocol, another address, another port, or something too short to
/// hold any of them.
#[test]
fn only_a_datagram_addressed_back_to_us_counts_as_an_answer() {
    let mut reply = vec![0u8; 48];
    reply[0] = 0x60;
    reply[6] = NEXT_HEADER_UDP;
    reply[24..40].copy_from_slice(&source().to_be_bytes());
    reply[42..44].copy_from_slice(&PROBE_PORT.to_be_bytes());
    assert!(is_reply_to(&reply, source(), PROBE_PORT));

    let mut other_port = reply.clone();
    other_port[42..44].copy_from_slice(&9u16.to_be_bytes());
    assert!(!is_reply_to(&other_port, source(), PROBE_PORT));

    let mut other_address = reply.clone();
    other_address[24..40].copy_from_slice(&1u128.to_be_bytes());
    assert!(!is_reply_to(&other_address, source(), PROBE_PORT));

    let mut other_protocol = reply.clone();
    other_protocol[6] = 58; // an ICMPv6 message, which is not an answer to a query
    assert!(!is_reply_to(&other_protocol, source(), PROBE_PORT));

    let mut v4 = reply.clone();
    v4[0] = 0x45;
    assert!(!is_reply_to(&v4, source(), PROBE_PORT));

    for cut in 0..48 {
        assert!(!is_reply_to(&reply[..cut], source(), PROBE_PORT), "{cut}");
    }
}

#[test]
fn a_query_carries_each_label_behind_its_length() {
    let query = dns_query("ab.c");
    assert_eq!(
        query,
        [0x2a, 0x2a, 1, 0, 0, 1, 0, 0, 0, 0, 0, 0, 2, b'a', b'b', 1, b'c', 0, 0, 1, 0, 1]
    );
    assert_eq!(dns_query("").len(), 12 + 1 + 5);
}

#[test]
fn a_sum_of_nothing_but_ones_is_sent_as_all_ones() {
    // 17 and the length of 2 leave 0xffec to come to all ones.
    assert_eq!(udp_checksum(0, 0, &[0xff, 0xec]), 0xffff);
    assert_eq!(udp_checksum(0, 0, &[0xff, 0xeb]), 0x0001);
}

#[test]
fn only_the_answer_or_the_end_of_the_wait_settles_it() {
    let mut reply = vec![0u8; 48];
    reply[0] = 0x60;
    reply[6] = NEXT_HEADER_UDP;
    reply[24..40].copy_from_slice(&source().to_be_bytes());
    reply[42..44].copy_from_slice(&PROBE_PORT.to_be_bytes());
    assert_eq!(
        carries_ipv6(&Waited::Packet(reply.clone()), source()),
        Some(true)
    );
    reply[6] = 58;
    assert_eq!(carries_ipv6(&Waited::Packet(reply), source()), None);
    assert_eq!(carries_ipv6(&Waited::Nothing, source()), Some(false));
}
