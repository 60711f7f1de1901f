use bytes::BytesMut;
use masqr::transport::qpack::{decode, encode, get_int, put_int, Field, QpackError, STATIC};

/// An entry of the static table as bytes.
fn entry(index: usize) -> (&'static [u8], &'static [u8]) {
    (STATIC[index].0.as_bytes(), STATIC[index].1.as_bytes())
}

fn field(name: &str, value: &str) -> Field {
    (name.as_bytes().to_vec(), value.as_bytes().to_vec())
}

/// The entries this core's own request and the response it waits for depend on, at the indices
/// RFC 9204 Appendix A gives them.
#[test]
fn the_static_table_is_where_the_rfc_puts_it() {
    assert_eq!(entry(0), (&b":authority"[..], &b""[..]));
    assert_eq!(entry(1), (&b":path"[..], &b"/"[..]));
    assert_eq!(entry(15), (&b":method"[..], &b"CONNECT"[..]));
    assert_eq!(entry(23), (&b":scheme"[..], &b"https"[..]));
    assert_eq!(entry(25), (&b":status"[..], &b"200"[..]));
    assert_eq!(entry(71), (&b":status"[..], &b"500"[..]));
    assert_eq!(entry(95), (&b"user-agent"[..], &b""[..]));
    assert_eq!(entry(98), (&b"x-frame-options"[..], &b"sameorigin"[..]));
}

/// The request this core sends, byte for byte, and back through the decoder unchanged.
#[test]
fn the_connect_request_round_trips() {
    let request: [(&[u8], &[u8]); 7] = [
        (b":method", b"CONNECT"),
        (b":protocol", b"cf-connect-ip"),
        (b":scheme", b"https"),
        (b":authority", b"cloudflareaccess.com"),
        (b":path", b"/"),
        (b"capsule-protocol", b"?1"),
        (b"user-agent", b""),
    ];
    let mut out = BytesMut::new();
    encode(&request, &mut out);

    let mut expected = vec![0x00, 0x00, 0xc0 | 15];
    expected.extend_from_slice(b"\x27\x02:protocol\x0dcf-connect-ip");
    expected.push(0xc0 | 23);
    expected.extend_from_slice(b"\x50\x14cloudflareaccess.com");
    expected.push(0xc0 | 1);
    expected.extend_from_slice(b"\x27\x09capsule-protocol\x02?1");
    expected.push(0xff);
    expected.push(95 - 63);
    assert_eq!(&out[..], &expected[..]);

    let decoded = decode(&out).expect("its own output reads");
    let wanted: Vec<Field> = request
        .iter()
        .map(|&(name, value)| (name.to_vec(), value.to_vec()))
        .collect();
    assert_eq!(decoded, wanted);
}

/// A 200 the way a server usually writes it: one indexed byte.
#[test]
fn an_indexed_status_reads() {
    assert_eq!(
        decode(&[0x00, 0x00, 0xd9]),
        Ok(vec![field(":status", "200")])
    );
}

/// A status the table has no entry for arrives as a reference to the name and a literal value,
/// either plain or Huffman-coded; a header the table does not know at all arrives whole.
#[test]
fn literal_forms_read_plain_and_huffman_coded() {
    // :status 403 as name reference 24 and a plain value.
    assert_eq!(
        decode(b"\x00\x00\x5f\x09\x03403"),
        Ok(vec![field(":status", "403")])
    );
    // The same with the value Huffman-coded: '4' 011010, '0' 00000, '3' 011001, then ones.
    assert_eq!(
        decode(b"\x00\x00\x5f\x09\x83\x68\x0c\xff"),
        Ok(vec![field(":status", "403")])
    );
    // A name the table does not have, both name and value Huffman-coded (RFC 7541 C.4.3): an
    // eight-byte name overflows the three-bit prefix, hence 0x2f 0x01.
    let mut custom = vec![0x00, 0x00, 0x2f, 0x01];
    custom.extend_from_slice(b"\x25\xa8\x49\xe9\x5b\xa9\x7d\x7f");
    custom.push(0x89);
    custom.extend_from_slice(b"\x25\xa8\x49\xe9\x5b\xb8\xe8\xb4\xbf");
    assert_eq!(
        decode(&custom),
        Ok(vec![field("custom-key", "custom-value")])
    );
}

/// Anything that points into a dynamic table is refused: this side declared none, so the
/// endpoint writing one is a protocol error, not a reason to wait.
#[test]
fn every_dynamic_reference_is_refused() {
    for section in [
        &[0x01, 0x00][..],             // a Required Insert Count
        &[0x00, 0x00, 0x80][..],       // indexed, T=0
        &[0x00, 0x00, 0x40, 0x00][..], // name reference, T=0
        &[0x00, 0x00, 0x10][..],       // indexed, post-Base
        &[0x00, 0x00, 0x00, 0x00][..], // name reference, post-Base
    ] {
        assert_eq!(decode(section), Err(QpackError::Dynamic), "{section:02x?}");
    }
}

#[test]
fn a_section_cut_short_or_out_of_range_is_refused() {
    assert_eq!(decode(&[]), Err(QpackError::Truncated));
    assert_eq!(decode(&[0x00]), Err(QpackError::Truncated));
    // A literal value that claims more bytes than follow.
    assert_eq!(
        decode(b"\x00\x00\x5f\x09\x05403"),
        Err(QpackError::Truncated)
    );
    // Index 99, one past the end of the table.
    assert_eq!(
        decode(&[0x00, 0x00, 0xff, 99 - 63]),
        Err(QpackError::UnknownIndex(99))
    );
    // A continuation that never stops.
    assert_eq!(
        decode(&[
            0x00, 0x00, 0xff, 0xff, 0xff, 0xff, 0xff, 0xff, 0xff, 0xff, 0xff, 0xff, 0x01
        ]),
        Err(QpackError::Overflow)
    );
}

/// The prefixed integers of RFC 7541 C.1, which QPACK reuses unchanged.
#[test]
fn prefixed_integers_match_the_rfc_examples() {
    let mut out = BytesMut::new();
    put_int(&mut out, 5, 0, 10);
    assert_eq!(&out[..], &[0x0a]);
    assert_eq!(get_int(&out, 5), Ok((10, 1)));

    let mut out = BytesMut::new();
    put_int(&mut out, 5, 0, 1337);
    assert_eq!(&out[..], &[0x1f, 0x9a, 0x0a]);
    assert_eq!(get_int(&out, 5), Ok((1337, 3)));

    let mut out = BytesMut::new();
    put_int(&mut out, 8, 0, 42);
    assert_eq!(&out[..], &[0x2a]);
}

/// Each field takes the smallest form: a reference where the table has it whole, in two bytes past
/// what one can name, a reference and a literal where it has the name, and the whole of it else.
#[test]
fn a_field_takes_the_smallest_form() {
    let written = |name: &[u8], value: &[u8]| {
        let mut out = BytesMut::new();
        encode(&[(name, value)], &mut out);
        out.len() - 2
    };
    for index in 0..99 {
        let (name, value) = entry(index);
        assert_eq!(written(name, value), if index < 63 { 1 } else { 2 });
    }
    assert_eq!(written(b":path", b"/x"), 1 + 3);
    assert_eq!(written(b"user-agent", b"x"), 2 + 2);
    assert_eq!(written(b"x", b"y"), 2 + 2);
    assert_eq!(written(b"", b""), 2);
}
