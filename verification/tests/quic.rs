use bytes::BytesMut;
use masqr::address::IpAddr;
use masqr::transport::connect_ip::{ConnectError, Stages};
use masqr::transport::handshake::{select, Handshake, Presented};
use masqr::transport::http3::{
    code, control_stream_preface, frame, stream, FrameReader, H3Error, PeerSettings,
};
use masqr::transport::quic::{
    going_away, gone, heard, not_sent, outgoing, request, server_name, ControlReader, Ended, Heard,
    OpenAction, OpenEvent, Opening, PeerStreams, ResponseReader, SendProblem, StreamUse,
};
use masqr::transport::tls::TlsSetupError;
use masqr::transport::{huffman::HuffmanError, qpack::QpackError, varint};

fn said() -> String {
    "why".to_string()
}

#[test]
fn opening_over_quic_goes_from_the_handshake_to_a_path_with_room() {
    let presented = Presented::new();
    let mut opening = Opening::new(1280);
    let mut step = |event| opening.step(event, None, &presented);
    assert_eq!(
        step(OpenEvent::Connected { ms: 61 }),
        OpenAction::OpenControl
    );
    let settings = PeerSettings {
        h3_datagram: true,
        extended_connect: true,
    };
    assert_eq!(
        step(OpenEvent::Offered { settings, ms: 1 }),
        OpenAction::Request
    );
    assert_eq!(
        step(OpenEvent::Responded {
            status: 200,
            stream_id: 0
        }),
        OpenAction::LookForRoom
    );
    let room = |room: Option<usize>, late: bool| OpenEvent::Room {
        room,
        lost: None,
        late,
        ms: 74,
    };
    assert_eq!(step(room(Some(1281), false)), OpenAction::WaitForRoom);
    assert_eq!(
        step(room(Some(1282), false)),
        OpenAction::Opened(Stages::H3 {
            quic_ms: 61,
            settings_ms: 1,
            connect_ms: 74
        })
    );
    assert_eq!(
        step(room(Some(1281), true)),
        OpenAction::Fail {
            error: ConnectError::H3Unfit(
                "the path takes 1281-byte datagrams, and a full packet needs 1282".into()
            ),
            close: None
        }
    );
    assert_eq!(
        step(room(None, false)),
        OpenAction::Fail {
            error: ConnectError::H3Unfit("the endpoint takes no datagrams".into()),
            close: None
        }
    );
}

#[test]
fn each_way_of_not_opening_over_quic_is_reported_as_itself() {
    let mut presented = Presented::new();
    let unavailable = |words: &str| ConnectError::QuicUnavailable(words.into());
    let offers = |h3_datagram: bool, extended_connect: bool| OpenEvent::Offered {
        settings: PeerSettings {
            h3_datagram,
            extended_connect,
        },
        ms: 1,
    };
    for (event, error, close) in [
        (
            OpenEvent::NoSession(TlsSetupError::PrivateKey(said())),
            ConnectError::TlsSetup(
                "the identity's private key is not a usable P-256 key: why".into(),
            ),
            None,
        ),
        (
            OpenEvent::NoSocket(said()),
            ConnectError::Io(said()),
            None,
        ),
        (
            OpenEvent::NoCrypto(said()),
            unavailable("the TLS setup cannot run inside QUIC: why"),
            None,
        ),
        (OpenEvent::NotDialled(said()), unavailable("why"), None),
        (OpenEvent::HandshakeFailed(said()), unavailable("why"), None),
        (
            OpenEvent::HandshakeTimedOut,
            unavailable("no answer within 4 s"),
            None,
        ),
        (
            offers(false, true),
            ConnectError::H3Unfit("the endpoint does not offer HTTP datagrams".into()),
            None,
        ),
        (
            offers(true, false),
            ConnectError::H3Unfit("the endpoint does not offer extended CONNECT".into()),
            None,
        ),
        (
            OpenEvent::NoSettings { lost: Some(said()) },
            ConnectError::Quic(said()),
            None,
        ),
        (
            OpenEvent::NoSettings { lost: None },
            ConnectError::H3(H3Error::ControlClosed),
            Some(H3Error::ControlClosed),
        ),
        (
            OpenEvent::ExchangeFailed(ConnectError::H3(H3Error::Message("is not one"))),
            ConnectError::H3(H3Error::Message("is not one")),
            Some(H3Error::Message("is not one")),
        ),
        (
            OpenEvent::ExchangeTimedOut,
            ConnectError::H3Unanswered {
                sni: "www.cloudflare.com".into(),
                how: "fronted",
            },
            None,
        ),
        (
            OpenEvent::Responded {
                status: 403,
                stream_id: 0,
            },
            ConnectError::H3Refused(403),
            None,
        ),
    ] {
        assert_eq!(
            Opening::new(1280).step(event, None, &presented),
            OpenAction::Fail { error, close }
        );
    }
    // What the endpoint's streams recorded explains a failure better than the error it caused.
    assert_eq!(
        Opening::new(1280).step(
            OpenEvent::ExchangeFailed(ConnectError::Quic(said())),
            Some(Ended::GoingAway),
            &presented
        ),
        OpenAction::Fail {
            error: ConnectError::GoingAway,
            close: None
        }
    );
    // The connection is still closed for the rule that was broken, in its own words.
    assert_eq!(
        Opening::new(1280).step(
            OpenEvent::ExchangeFailed(ConnectError::H3(H3Error::Message("is not one"))),
            Some(Ended::GoingAway),
            &presented
        ),
        OpenAction::Fail {
            error: ConnectError::GoingAway,
            close: Some(H3Error::Message("is not one"))
        }
    );
    let address = IpAddr::V4(0x0102_0304);
    assert_eq!(server_name(&presented, address), "www.cloudflare.com");
    select(&mut presented, Handshake::NoSni);
    assert_eq!(server_name(&presented, address), "1.2.3.4");
    select(&mut presented, Handshake::Named);
    assert_eq!(
        server_name(&presented, address),
        "consumer-masque.cloudflareclient.com"
    );
}

#[test]
fn the_endpoints_streams_are_read_by_the_type_they_open_with() {
    let mut streams = PeerStreams::new();
    assert_eq!(streams.opened(stream::QPACK_ENCODER), StreamUse::Drain);
    assert_eq!(streams.opened(stream::CONTROL), StreamUse::Control);
    assert_eq!(
        streams.opened(stream::CONTROL),
        StreamUse::Broke(H3Error::SecondControl)
    );
    assert_eq!(
        streams.opened(1),
        StreamUse::Stop(code::STREAM_CREATION_ERROR)
    );
    assert_eq!(going_away(None), Ended::GoingAway);
    let broke = Ended::Broke(H3Error::MissingSettings);
    assert_eq!(going_away(Some(broke)), broke);
    assert_eq!(gone(None, said()), ConnectError::Quic(said()));
    assert_eq!(
        gone(Some(broke), said()),
        ConnectError::H3(H3Error::MissingSettings)
    );
}

/// The control stream this side opens is one that it would accept of the other.
#[test]
fn a_control_stream_is_read_however_it_is_cut() {
    let preface = control_stream_preface();
    let mut reader = FrameReader::new();
    reader.extend(&preface);
    assert_eq!(reader.take_varint(), Some(stream::CONTROL));
    let mut control = ControlReader::new(FrameReader::new());
    let frames = &preface[1..];
    for byte in frames {
        control.extend(&[*byte]);
    }
    assert!(matches!(control.next_event(), Ok(Some(_))));
    assert!(matches!(control.next_event(), Ok(None)));
    assert_eq!(control.ended(), H3Error::ControlClosed);

    let mut first = ControlReader::new(FrameReader::new());
    let mut goaway = BytesMut::new();
    varint::put(&mut goaway, frame::GOAWAY);
    varint::put(&mut goaway, 1);
    varint::put(&mut goaway, 0);
    first.extend(&goaway);
    assert_eq!(first.next_event(), Err(H3Error::MissingSettings));
}

#[test]
fn a_response_is_read_up_to_its_final_status() {
    let mut response = ResponseReader::new();
    assert_eq!(response.status(), Ok(None));
    // A header block of four bytes that holds status 100, and then one of three that holds 200.
    response.extend(&[frame::HEADERS as u8, 4]);
    assert_eq!(response.status(), Ok(None));
    response.extend(&[0, 0, 0xff, 0]);
    assert_eq!(response.status(), Ok(None), "more is coming");
    response.extend(&[1, 3, 0, 0, 0xc0 | 25]);
    assert_eq!(response.status(), Ok(Some(200)));
    assert_eq!(
        response.ended(),
        H3Error::Message("ended before it began")
    );
    assert_eq!(request()[0], 1, "a header block");
}

#[test]
fn a_packet_goes_out_one_hop_on_or_not_at_all() {
    let mut packet = vec![0u8; 40];
    packet[0] = 0x60;
    packet[7] = 2;
    let datagram = outgoing(4, &mut packet).unwrap();
    assert_eq!(&datagram[..2], &[1, 0]);
    assert_eq!(datagram[2 + 7], 1);
    assert_eq!(outgoing(4, &mut packet), None);
    assert_eq!(
        not_sent(SendProblem::TooLarge { room: Some(1200) }, 1280, None),
        ConnectError::H3Unfit(
            "a 1280-byte packet no longer fits the path, which now takes 1200 bytes".into()
        )
    );
    assert_eq!(
        not_sent(SendProblem::NotTaken, 1, None),
        ConnectError::H3Unfit("the endpoint stopped taking datagrams".into())
    );
    assert_eq!(
        not_sent(SendProblem::Lost(said()), 1, Some(Ended::GoingAway)),
        ConnectError::GoingAway
    );
    assert_eq!(heard(5, 5, None, None), Heard::Wait);
    assert_eq!(heard(5, 6, None, None), Heard::Answered);
    assert_eq!(
        heard(5, 6, Some(said()), None),
        Heard::Lost(ConnectError::Quic(said()))
    );
}

#[test]
fn every_rule_the_endpoint_can_break_is_said() {
    for (error, words) in [
        (
            H3Error::ControlClosed,
            "the endpoint closed its control stream, which lives as long as the connection",
        ),
        (
            H3Error::SecondControl,
            "the endpoint opened a second control stream",
        ),
        (
            H3Error::FrameTooLong {
                kind: 0x21,
                length: 70_000,
            },
            "a frame of type 0x21 declared 70000 bytes, more than this side buffers",
        ),
        (
            H3Error::Unexpected {
                kind: 0,
                stream: "control",
            },
            "a frame of type 0x0 arrived on the control stream, where it has no place",
        ),
        (
            H3Error::Malformed("GOAWAY"),
            "a GOAWAY frame whose payload does not parse",
        ),
        (
            H3Error::MissingSettings,
            "the endpoint's control stream began with something other than SETTINGS",
        ),
        (
            H3Error::Settings("say nothing"),
            "the endpoint's SETTINGS say nothing",
        ),
        (
            H3Error::Qpack(QpackError::Huffman(HuffmanError::Eos)),
            "the response header block: a Huffman-coded string: the string codes the end-of-string symbol",
        ),
        (
            H3Error::Qpack(QpackError::UnknownIndex(99)),
            "the response header block: the field section refers to static entry 99, and the table ends at 98",
        ),
        (
            H3Error::Message("carries no status"),
            "the response carries no status",
        ),
    ] {
        assert_eq!(error.text(), words);
        assert_eq!(
            ConnectError::H3(error).text(),
            format!("http/3: {words}")
        );
    }
}
