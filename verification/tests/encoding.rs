use masqr::address::shown::{hexadecimal, show, show_socket};
use masqr::address::written::{parse, parse_socket};
use masqr::address::{number_of, octets_of, IpAddr, SocketAddr};
use masqr::encoding;
use masqr::text::{cut_at, decimal, list, lowered, parse_number, trim, wide};

#[test]
fn base64_is_the_standard_one_with_padding() {
    for (plain, coded) in [
        (&b""[..], ""),
        (&b"f"[..], "Zg=="),
        (&b"fo"[..], "Zm8="),
        (&b"foo"[..], "Zm9v"),
        (&b"foob"[..], "Zm9vYg=="),
        (&b"fooba"[..], "Zm9vYmE="),
        (&b"foobar"[..], "Zm9vYmFy"),
        (&[0xff, 0xfe, 0xfb][..], "//77"),
        (&[0xfb, 0xef][..], "++8="),
    ] {
        assert_eq!(encoding::b64(plain), coded);
        assert_eq!(encoding::from_b64(coded).as_deref(), Ok(plain));
    }
}

#[test]
fn base64_that_is_not_canonical_is_refused() {
    for text in ["Zg", "Zg=", "Zh==", " Zg==", "Zg==\n", "Zm9v=", "Z-_="] {
        assert!(encoding::from_b64(text).is_err(), "{text:?}");
    }
}

#[test]
fn bytes_are_written_in_hexadecimal() {
    assert_eq!(encoding::hexadecimal(&[]), "");
    assert_eq!(encoding::hexadecimal(&[0x00, 0x0f, 0xa5, 0xff]), "000fa5ff");
    assert_eq!(hexadecimal(0), "0");
    assert_eq!(hexadecimal(0x1234_5678_9abc_def0), "123456789abcdef0");
}

#[test]
fn addresses_are_read_as_they_are_written() {
    assert_eq!(parse("1.2.3.4"), Some(IpAddr::V4(0x0102_0304)));
    assert_eq!(parse("255.255.255.255"), Some(IpAddr::V4(u32::MAX)));
    for text in ["1.2.3", "1.2.3.4.5", "256.1.1.1", "01.2.3.4", "1.2.3.4 ", ""] {
        assert_eq!(parse(text), None, "{text:?}");
    }
    assert_eq!(parse("::"), Some(IpAddr::V6(0)));
    assert_eq!(parse("::1"), Some(IpAddr::V6(1)));
    assert_eq!(
        parse("2606:4700::1111"),
        Some(IpAddr::V6(0x2606_4700_0000_0000_0000_0000_0000_1111))
    );
    assert_eq!(
        parse("::ffff:1.2.3.4"),
        Some(IpAddr::V6(0xffff_0102_0304))
    );
    for text in ["1::2::3", "1:2:3:4:5:6:7", "12345::", ":::", "g::"] {
        assert_eq!(parse(text), None, "{text:?}");
    }
}

#[test]
fn addresses_are_shown_as_they_are_read() {
    for text in [
        "0.0.0.0",
        "162.159.198.1",
        "::",
        "::1",
        "2606:4700:103::1",
        "fe80::1:0:0:1",
        "1:0:2:3:4:5:6:7",
        "::ffff:1.2.3.4",
        "2001:db8:1:2:3:4:5:6",
    ] {
        assert_eq!(show(parse(text).unwrap()), text);
    }
    for text in ["127.0.0.1:53", "[::1]:53", "[2001:4860:4860::8888]:443"] {
        assert_eq!(show_socket(parse_socket(text).unwrap()), text);
    }
    assert_eq!(parse_socket("127.0.0.1"), None);
    assert_eq!(parse_socket("127.0.0.1:65536"), None);
    assert_eq!(parse_socket("::1:53"), None);
    assert_eq!(
        parse_socket("1.1.1.1:0"),
        Some(SocketAddr {
            ip: IpAddr::V4(0x0101_0101),
            port: 0
        })
    );
}

#[test]
fn octets_and_numbers_are_each_others() {
    assert_eq!(octets_of(0x0102_0304, 4), [1, 2, 3, 4]);
    assert_eq!(octets_of(0x0102_0304, 2), [3, 4]);
    assert_eq!(number_of(&[1, 2, 3, 4]), 0x0102_0304);
    assert_eq!(number_of(&octets_of(u128::MAX - 7, 16)), u128::MAX - 7);
}

#[test]
fn text_is_taken_apart_and_put_together() {
    assert_eq!(decimal(0), "0");
    assert_eq!(decimal(u128::MAX), format!("{}", u128::MAX));
    assert_eq!(lowered("MiXeD Ä"), "mixed Ä");
    assert_eq!(trim("\t two words \n"), "two words");
    assert_eq!(
        cut_at("a/b/c", '/'),
        Some(("a".to_string(), "b/c".to_string()))
    );
    assert_eq!(cut_at("abc", '/'), None);
    assert_eq!(parse_number("+255", 255), Some(255));
    assert_eq!(parse_number("256", 255), None);
    assert_eq!(parse_number("", 255), None);
    assert_eq!(parse_number("-1", 255), None);
    assert_eq!(wide("a😀"), [0x61, 0xd83d, 0xde00, 0]);
    assert_eq!(
        list(&vec!["a".to_string(), "b".to_string(), "c".to_string()]),
        "a, b, c"
    );
    assert_eq!(list(&Vec::new()), "");
}
