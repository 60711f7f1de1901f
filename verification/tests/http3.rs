use bytes::{BufMut, Bytes, BytesMut};
use masqr::transport::http3::{
    control_stream_preface, datagram, datagram_overhead, datagram_packet, frame, put_frame,
    response_status, stream, ControlEvent, ControlStream, Frame, FrameReader, H3Error, PeerSettings,
    MAX_FRAME,
};
use masqr::transport::qpack::QpackError;
use masqr::transport::varint;

fn encoded(kind: u64, payload: &[u8]) -> BytesMut {
    let mut out = BytesMut::new();
    put_frame(&mut out, kind, payload);
    out
}

/// The preface is the stream type and one SETTINGS frame carrying exactly the three settings
/// the endpoint was measured to accept.
#[test]
fn the_control_preface_says_what_the_tunnel_needs() {
    let preface = control_stream_preface();
    let mut reader = FrameReader::new();
    reader.extend(&preface);
    assert_eq!(reader.take_varint(), Some(stream::CONTROL));
    let settings = reader
        .next_frame()
        .unwrap()
        .expect("a whole SETTINGS frame");
    assert_eq!(settings.kind, frame::SETTINGS);

    let mut ids = Vec::new();
    let mut payload = &settings.payload[..];
    while !payload.is_empty() {
        let (id, a) = varint::get(payload).unwrap();
        let (value, b) = varint::get(&payload[a..]).unwrap();
        ids.push((id, value));
        payload = &payload[a + b..];
    }
    assert_eq!(ids, [(0x08, 1), (0x33, 1), (0x276, 1)]);
    assert_eq!(reader.next_frame(), Ok(None));
}

/// Frames arrive in whatever pieces the network chose; none is returned before it is whole.
#[test]
fn a_frame_split_across_reads_is_not_returned_early() {
    let whole = encoded(frame::HEADERS, &[0xaa; 300]);
    for cut in [1usize, 2, 3, 100, whole.len() - 1] {
        let mut reader = FrameReader::new();
        reader.extend(&whole[..cut]);
        assert_eq!(reader.next_frame(), Ok(None), "acted on {cut} bytes");
        reader.extend(&whole[cut..]);
        let one = reader.next_frame().unwrap().expect("whole now");
        assert_eq!(one.payload.len(), 300);
    }
}

/// A GREASE frame (0x1f·N + 0x21) is skipped, including when it is far larger than anything
/// this side buffers and arrives a piece at a time, and the frame behind it still comes out.
#[test]
fn unknown_frames_are_skipped_without_buffering_them() {
    let grease = 0x1f * 7 + 0x21;
    let big = encoded(grease, &vec![0u8; 200_000]);
    let mut reader = FrameReader::new();
    for piece in big.chunks(1_000) {
        reader.extend(piece);
        assert_eq!(reader.next_frame(), Ok(None));
        assert!(reader.buffered() <= 1_000, "the unknown frame was kept");
    }
    reader.extend(&encoded(frame::GOAWAY, &[0x04]));
    let goaway = reader.next_frame().unwrap().expect("the frame behind it");
    assert_eq!(goaway.kind, frame::GOAWAY);
}

#[test]
fn a_known_frame_longer_than_the_ceiling_is_refused_on_its_header() {
    let mut header = BytesMut::new();
    varint::put(&mut header, frame::HEADERS);
    varint::put(&mut header, MAX_FRAME + 1);
    let mut reader = FrameReader::new();
    reader.extend(&header);
    assert_eq!(
        reader.next_frame(),
        Err(H3Error::FrameTooLong {
            kind: frame::HEADERS,
            length: MAX_FRAME + 1
        })
    );
}

fn settings_payload(pairs: &[(u64, u64)]) -> BytesMut {
    let mut out = BytesMut::new();
    for &(id, value) in pairs {
        varint::put(&mut out, id);
        varint::put(&mut out, value);
    }
    out
}

/// The endpoint's SETTINGS as measured: datagrams and extended CONNECT on, among others this
/// side ignores.
#[test]
fn peer_settings_read_what_matters_and_ignore_the_rest() {
    let payload = settings_payload(&[(0x01, 0), (0x33, 1), (0x08, 1), (0x21, 7)]);
    assert_eq!(
        PeerSettings::parse(&payload),
        Ok(PeerSettings {
            h3_datagram: true,
            extended_connect: true
        })
    );
    assert_eq!(
        PeerSettings::parse(&settings_payload(&[(0x06, 16_384)])),
        Ok(PeerSettings::default())
    );
}

#[test]
fn peer_settings_that_break_the_rules_are_refused() {
    let reserved = settings_payload(&[(0x04, 65_535)]);
    assert!(matches!(
        PeerSettings::parse(&reserved),
        Err(H3Error::Settings(_))
    ));
    let repeated = settings_payload(&[(0x33, 1), (0x33, 1)]);
    assert!(matches!(
        PeerSettings::parse(&repeated),
        Err(H3Error::Settings(_))
    ));
    assert_eq!(
        PeerSettings::parse(&[0x33]),
        Err(H3Error::Malformed("SETTINGS"))
    );
}

fn whole(kind: u64, payload: &[u8]) -> Frame {
    Frame {
        kind,
        payload: Bytes::copy_from_slice(payload),
    }
}

#[test]
fn the_control_stream_wants_settings_first_and_once() {
    let mut control = ControlStream::default();
    assert_eq!(
        control.on_frame(whole(frame::GOAWAY, &[0])),
        Err(H3Error::MissingSettings)
    );

    let mut control = ControlStream::default();
    let settings = settings_payload(&[(0x33, 1)]);
    assert!(matches!(
        control.on_frame(whole(frame::SETTINGS, &settings)),
        Ok(Some(ControlEvent::Settings(PeerSettings {
            h3_datagram: true,
            ..
        })))
    ));
    assert_eq!(
        control.on_frame(whole(frame::GOAWAY, &[0x04])),
        Ok(Some(ControlEvent::GoAway(4)))
    );
    assert_eq!(control.on_frame(whole(frame::MAX_PUSH_ID, &[0])), Ok(None));
    for kind in [frame::SETTINGS, frame::HEADERS, frame::DATA, 0x02] {
        assert!(
            matches!(
                control.on_frame(whole(kind, &[])),
                Err(H3Error::Unexpected { .. })
            ),
            "{kind:#x}"
        );
    }
    assert_eq!(
        control.on_frame(whole(frame::GOAWAY, &[0x04, 0x00])),
        Err(H3Error::Malformed("GOAWAY"))
    );
}

#[test]
fn the_response_status_is_read_and_interim_ones_passed_over() {
    // 0xd9 is static entry 25, :status 200; 0xff 0x00 is entry 63, :status 100.
    assert_eq!(
        response_status(whole(frame::HEADERS, &[0x00, 0x00, 0xd9])),
        Ok(Some(200))
    );
    assert_eq!(
        response_status(whole(frame::HEADERS, &[0x00, 0x00, 0xff, 0x00])),
        Ok(None)
    );
    // 403 as a name reference and a literal value.
    assert_eq!(
        response_status(whole(frame::HEADERS, b"\x00\x00\x5f\x09\x03403")),
        Ok(Some(403))
    );
}

#[test]
fn a_response_without_a_status_or_before_its_headers_is_refused() {
    assert!(matches!(
        response_status(whole(frame::DATA, b"body")),
        Err(H3Error::Unexpected { .. })
    ));
    // user-agent alone: static entry 95.
    assert_eq!(
        response_status(whole(frame::HEADERS, &[0x00, 0x00, 0xff, 32])),
        Err(H3Error::Message("has no :status"))
    );
    assert_eq!(
        response_status(whole(frame::HEADERS, &[0x00, 0x00, 0xd9, 0xd9])),
        Err(H3Error::Message("has two :status fields"))
    );
    assert!(matches!(
        response_status(whole(frame::HEADERS, &[0x01, 0x00])),
        Err(H3Error::Qpack(QpackError::Dynamic))
    ));
}

/// The layout measured against the endpoint: quarter stream id, context 0, the packet.
#[test]
fn a_datagram_is_quarter_id_context_zero_and_the_packet() {
    let packet = b"\x45\x00\x00\x1c the rest of it";
    let framed = datagram(0, packet);
    assert_eq!(&framed[..2], &[0x00, 0x00]);
    assert_eq!(&framed[2..], packet);
    assert_eq!(datagram_overhead(0), 2);

    // Stream 256 is quarter 64, which takes a two-byte varint.
    let framed = datagram(256, packet);
    assert_eq!(&framed[..3], &[0x40, 0x40, 0x00]);
    assert_eq!(datagram_overhead(256), 3);
    assert_eq!(datagram_packet(framed, 256).as_deref(), Some(&packet[..]));
}

#[test]
fn a_datagram_for_another_request_or_context_is_dropped() {
    let packet = b"\x45 packet";
    assert_eq!(datagram_packet(datagram(4, packet), 0), None);

    let mut other_context = BytesMut::new();
    varint::put(&mut other_context, 0);
    varint::put(&mut other_context, 2);
    other_context.put_slice(packet);
    assert_eq!(datagram_packet(other_context.freeze(), 0), None);

    assert_eq!(datagram_packet(Bytes::new(), 0), None);
}

/// Every frame a stream holds, however its bytes are cut.
fn read_in_pieces(bytes: &[u8], piece: usize) -> (Vec<(u64, Vec<u8>)>, Option<H3Error>) {
    let mut reader = FrameReader::new();
    let mut frames = Vec::new();
    for chunk in bytes.chunks(piece) {
        reader.extend(chunk);
        loop {
            match reader.next_frame() {
                Ok(Some(one)) => frames.push((one.kind, one.payload.to_vec())),
                Ok(None) => break,
                Err(problem) => return (frames, Some(problem)),
            }
        }
    }
    (frames, None)
}

/// However a stream is cut, the same frames come out of it: the known ones, whole and in order, up to
/// one that is not waited for.
#[test]
fn the_same_frames_come_out_whatever_the_pieces() {
    let mut stream = BytesMut::new();
    put_frame(&mut stream, frame::SETTINGS, &[0x08, 0x01]);
    put_frame(&mut stream, 0x21, &[0xee; 70_000]);
    put_frame(&mut stream, frame::HEADERS, &[]);
    put_frame(&mut stream, 0x40, &[]);
    put_frame(&mut stream, frame::DATA, &[7; 300]);
    let wanted = vec![
        (frame::SETTINGS, vec![0x08, 0x01]),
        (frame::HEADERS, Vec::new()),
        (frame::DATA, vec![7; 300]),
    ];
    for piece in [1, 2, 3, 7, 1000, stream.len()] {
        assert_eq!(read_in_pieces(&stream, piece), (wanted.clone(), None));
    }

    varint::put(&mut stream, 0x0d);
    varint::put(&mut stream, 65_536);
    let refused = Some(H3Error::FrameTooLong {
        kind: 0x0d,
        length: 65_536,
    });
    for piece in [1, 5, 1000, stream.len()] {
        assert_eq!(read_in_pieces(&stream, piece), (wanted.clone(), refused));
    }
}
