use bytes::BytesMut;
use masqr::address::IpAddr;
use masqr::transport::capsule::{encode_datagram, TooLong};
use masqr::transport::connect_ip::{connect, did_not_open, ConnectError, Stages};
use masqr::transport::handshake::{select, Handshake, Presented};
use masqr::transport::carrier;
use masqr::transport::carrier::{Carriage, Carrier, Choice, Plan, PARK_FOR};
use masqr::transport::tcp::{
    endpoint, request_headers, stage, take_packet, OpenAction, OpenEvent, Opening,
};
use masqr::transport::tls::TlsSetupError;
use masqr::transport::varint;

fn v6(hops: u8, tag: u8) -> Vec<u8> {
    let mut packet = vec![0u8; 41];
    packet[0] = 0x60;
    packet[7] = hops;
    packet[40] = tag;
    packet
}

#[test]
fn a_run_goes_out_in_order_without_what_has_no_hop_left() {
    let mut staging = BytesMut::new();
    let mut packets = vec![v6(64, 1), v6(1, 2), v6(2, 3)];
    stage(&mut staging, &mut packets);
    assert_eq!(packets[0][7], 63);
    assert_eq!(packets[1][7], 1, "left as it was");

    let first = take_packet(&mut staging).unwrap().expect("a packet");
    assert_eq!(&first[..], &v6(63, 1)[..]);
    let second = take_packet(&mut staging).unwrap().expect("another");
    assert_eq!(&second[..], &v6(1, 3)[..]);
    assert_eq!(take_packet(&mut staging), Ok(None));
    assert!(staging.is_empty());
}

#[test]
fn a_packet_behind_other_records_is_still_read() {
    let mut pending = BytesMut::new();
    varint::put(&mut pending, 42);
    varint::put(&mut pending, 3);
    pending.extend_from_slice(b"xyz");
    let whole = encode_datagram(b"packet");
    pending.extend_from_slice(&whole[..3]);
    assert_eq!(take_packet(&mut pending), Ok(None));
    pending.extend_from_slice(&whole[3..]);
    assert_eq!(&take_packet(&mut pending).unwrap().unwrap()[..], b"packet");

    let mut long = BytesMut::new();
    varint::put(&mut long, 0);
    varint::put(&mut long, 70_000);
    assert_eq!(take_packet(&mut long), Err(TooLong(70_000)));
}

#[test]
fn opening_goes_from_stage_to_stage() {
    let presented = Presented::new();
    let mut opening = Opening::new();
    assert_eq!(
        opening.step(
            OpenEvent::Endpoint("162.159.198.2".to_string()),
            &presented
        ),
        OpenAction::Dial(IpAddr::V4(0xa29f_c602))
    );
    assert_eq!(
        opening.step(OpenEvent::Dialled { ms: 21 }, &presented),
        OpenAction::Secure
    );
    assert_eq!(
        opening.step(OpenEvent::Secured { ms: 64 }, &presented),
        OpenAction::StartHttp2
    );
    assert_eq!(
        opening.step(OpenEvent::Ready { ms: 3 }, &presented),
        OpenAction::Request
    );
    assert_eq!(
        opening.step(
            OpenEvent::Responded {
                status: 200,
                ms: 80
            },
            &presented
        ),
        OpenAction::Opened(Stages::H2 {
            tcp_ms: 21,
            tls_ms: 64,
            http2_ms: 3,
            connect_ms: 80
        })
    );
}

#[test]
fn each_way_of_not_opening_is_reported_as_itself() {
    let mut presented = Presented::new();
    let said = || "why".to_string();
    for (event, error) in [
        (
            OpenEvent::NoSession(TlsSetupError::Rustls(said())),
            ConnectError::TlsSetup("rustls: why".to_string()),
        ),
        (
            OpenEvent::Endpoint("nowhere".to_string()),
            ConnectError::BadEndpoint("nowhere".to_string()),
        ),
        (OpenEvent::NotDialled(said()), ConnectError::Io(said())),
        (
            OpenEvent::NotSecured {
                cut: false,
                said: said(),
            },
            ConnectError::Io(said()),
        ),
        (
            OpenEvent::NotSecured {
                cut: true,
                said: said(),
            },
            ConnectError::HandshakeCut {
                sni: "www.cloudflare.com".to_string(),
                how: "fronted",
            },
        ),
        (OpenEvent::NotReady(said()), ConnectError::H2(said())),
        (OpenEvent::NoRequest(said()), ConnectError::Request(said())),
        (OpenEvent::NotAnswered(said()), ConnectError::H2(said())),
        (
            OpenEvent::Responded {
                status: 403,
                ms: 1,
            },
            ConnectError::Refused(403),
        ),
    ] {
        assert_eq!(
            Opening::new().step(event, &presented),
            OpenAction::Fail(error)
        );
    }
    select(&mut presented, Handshake::NoSni);
    assert_eq!(
        Opening::new().step(
            OpenEvent::NotSecured {
                cut: true,
                said: said()
            },
            &presented
        ),
        OpenAction::Fail(ConnectError::HandshakeCut {
            sni: "none".to_string(),
            how: "no-sni"
        })
    );
}

#[test]
fn the_request_names_the_protocol() {
    assert_eq!(
        request_headers(),
        [
            ("cf-connect-proto", "cf-connect-ip"),
            ("pq-enabled", "false"),
            ("user-agent", "")
        ]
    );
    assert_eq!(endpoint("::1"), Ok(IpAddr::V6(1)));
}

#[test]
fn http3_is_left_alone_after_it_did_not_open() {
    let presented = Presented::new();
    let mut carriage = Carriage::new();
    let now: u64 = 1_000;
    let plan = connect(&carriage, &presented, now);
    assert_eq!(plan, Plan::H3ThenH2);
    assert_eq!(plan.first(), Carrier::H3);
    assert_eq!(
        did_not_open(&mut carriage, plan, now),
        Some(Carrier::H2)
    );
    assert_eq!(
        connect(&carriage, &presented, now + PARK_FOR - 1),
        Plan::Only(Carrier::H2)
    );
    assert_eq!(
        connect(&carriage, &presented, now + PARK_FOR),
        Plan::H3ThenH2
    );
    carrier::unpark(&mut carriage);
    assert!(!carrier::parked(&carriage, now));
    carrier::select(&mut carriage, Choice::H3);
    let plan = connect(&carriage, &presented, now);
    assert_eq!(plan, Plan::Only(Carrier::H3));
    assert_eq!(did_not_open(&mut carriage, plan, now), None);
    assert!(!carrier::parked(&carriage, now));
}
