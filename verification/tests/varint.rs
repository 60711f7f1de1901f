use bytes::BytesMut;
use masqr::transport::varint::{get, len, put, MAX};

/// Every length class of the encoding, including the boundaries between them — those are where
/// an off-by-one turns into a stream that never resynchronises.
#[test]
fn varints_round_trip_across_every_length_class() {
    for value in [0u64, 63, 64, 16_383, 16_384, (1 << 30) - 1, 1 << 30, MAX] {
        let mut buf = BytesMut::new();
        put(&mut buf, value);
        assert_eq!(buf.len(), len(value), "length disagrees for {value}");
        let (decoded, used) = get(&buf).expect("a whole varint");
        assert_eq!(decoded, value);
        assert_eq!(used, buf.len());
    }
}

/// The worked examples of RFC 9000 Appendix A.1, byte for byte.
#[test]
fn the_rfc_examples_decode_to_their_values() {
    for (bytes, value) in [
        (
            &[0xc2, 0x19, 0x7c, 0x5e, 0xff, 0x14, 0xe8, 0x8c][..],
            151_288_809_941_952_652,
        ),
        (&[0x9d, 0x7f, 0x3e, 0x7d][..], 494_878_333),
        (&[0x7b, 0xbd][..], 15_293),
        (&[0x25][..], 37),
        // The same 37 in two bytes: the encoding does not have to be minimal.
        (&[0x40, 0x25][..], 37),
    ] {
        assert_eq!(get(bytes), Some((value, bytes.len())));
    }
}

#[test]
fn a_varint_cut_short_is_not_read() {
    assert_eq!(get(&[]), None);
    assert_eq!(get(&[0x9d, 0x7f, 0x3e]), None);
}
