use masqr::ip::ipv4_checksum;
use masqr::transport::carrier::Carrier;
use masqr::transport::connect_ip::{decrement_hop_limit, ConnectError, Stages};

/// Checked by the property the checksum is defined by, not against a number written down by
/// hand: with the computed value in place, the ones' complement sum over the WHOLE header —
/// checksum field included — is 0xffff. A receiver checks it exactly this way.
#[test]
fn a_computed_checksum_makes_the_header_verify() {
    let mut header: [u8; 20] = [
        0x45, 0x00, 0x00, 0x3c, 0x1c, 0x46, 0x40, 0x00, 0x40, 0x06, 0x00, 0x00, 0xac, 0x10,
        0x0a, 0x63, 0xac, 0x10, 0x0a, 0x0c,
    ];
    let checksum = ipv4_checksum(&header);
    header[10..12].copy_from_slice(&checksum.to_be_bytes());

    let mut sum = 0u32;
    for pair in header.chunks_exact(2) {
        sum += u32::from(u16::from_be_bytes([pair[0], pair[1]]));
    }
    while sum >> 16 != 0 {
        sum = (sum & 0xffff) + (sum >> 16);
    }
    assert_eq!(sum as u16, 0xffff, "the header does not verify");
}

#[test]
fn decrementing_ttl_keeps_the_checksum_valid() {
    let mut packet: Vec<u8> = vec![
        0x45, 0x00, 0x00, 0x3c, 0x1c, 0x46, 0x40, 0x00, 0x40, 0x06, 0xb8, 0x61, 0xac, 0x10,
        0x0a, 0x63, 0xac, 0x10, 0x0a, 0x0c,
    ];
    assert!(decrement_hop_limit(&mut packet));
    assert_eq!(packet[8], 0x3f);
    // Recomputing over the new header must reproduce the checksum that was just written.
    let written = u16::from_be_bytes([packet[10], packet[11]]);
    assert_eq!(ipv4_checksum(&packet[..20]), written);
}

/// The same, for a header carrying options — the case a fixed twenty-byte sum gets wrong.
///
/// Rare on the wire, which is why it mattered: a packet with a Router Alert or a timestamp
/// left here with a checksum covering only part of its header and was dropped at the far end,
/// with nothing on this side to say so.
#[test]
fn a_header_with_options_is_summed_whole() {
    // IHL 6: twenty bytes of header and one four-byte option (Router Alert).
    let mut packet: Vec<u8> = vec![
        0x46, 0x00, 0x00, 0x40, 0x1c, 0x46, 0x40, 0x00, 0x40, 0x06, 0x00, 0x00, 0xac, 0x10,
        0x0a, 0x63, 0xac, 0x10, 0x0a, 0x0c, 0x94, 0x04, 0x00, 0x00,
    ];
    let sum = ipv4_checksum(&packet[..24]);
    packet[10..12].copy_from_slice(&sum.to_be_bytes());

    assert!(decrement_hop_limit(&mut packet));
    assert_eq!(packet[8], 0x3f);
    let written = u16::from_be_bytes([packet[10], packet[11]]);
    assert_eq!(
        ipv4_checksum(&packet[..24]),
        written,
        "the option bytes were left out of the sum"
    );
}

/// A header shorter than it claims is refused rather than read past.
#[test]
fn a_header_longer_than_the_packet_is_refused() {
    let mut packet = vec![0x46u8; 20]; // says twenty-four bytes, carries twenty
    packet[8] = 64;
    assert!(!decrement_hop_limit(&mut packet));
}

/// A packet that has run out of hops is dropped rather than forwarded with a wrapped TTL.
#[test]
fn a_spent_hop_count_is_refused() {
    let mut v4 = vec![0x45u8; 20];
    v4[8] = 1;
    assert!(!decrement_hop_limit(&mut v4));

    let mut v6 = vec![0x60u8; 40];
    v6[7] = 0;
    assert!(!decrement_hop_limit(&mut v6));
}

#[test]
fn a_truncated_packet_is_refused_rather_than_indexed_into() {
    assert!(!decrement_hop_limit(&mut [0x45, 0x00]));
    assert!(!decrement_hop_limit(&mut [0x60, 0x00]));
    assert!(!decrement_hop_limit(&mut []));
}

/// The two failures that mean something on the way refused the handshake, one per carrier,
/// and nothing else.
#[test]
fn only_a_cut_or_unanswered_handshake_reads_as_blocked() {
    let cut = ConnectError::HandshakeCut {
        sni: "www.cloudflare.com".to_string(),
        how: "fronted",
    };
    let unanswered = ConnectError::H3Unanswered {
        sni: "www.cloudflare.com".to_string(),
        how: "fronted",
    };
    assert!(cut.is_blocked());
    assert!(unanswered.is_blocked());
    assert!(!ConnectError::QuicUnavailable("no answer within 4 s".into()).is_blocked());
    assert!(!ConnectError::H3Refused(403).is_blocked());
}

#[test]
fn stages_say_which_carrier_and_each_step() {
    let h3 = Stages::H3 {
        quic_ms: 61,
        settings_ms: 1,
        connect_ms: 74,
    };
    assert_eq!(h3.to_string(), "h3 · quic 61 · settings 1 · connect 74");
    let h2 = Stages::H2 {
        tcp_ms: 21,
        tls_ms: 64,
        http2_ms: 3,
        connect_ms: 80,
    };
    assert_eq!(h2.carrier(), Carrier::H2);
    assert_eq!(h2.steps()[0], ("tcp", 21));
}
