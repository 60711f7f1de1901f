use masqr::ip::{checksum, ipv4_checksum, Sum};

#[test]
fn a_header_verifies_against_its_own_checksum() {
    // Summing a header that already carries a correct checksum gives all ones, which is how a
    // receiver checks one.
    let mut header: Vec<u8> = vec![
        0x45, 0x00, 0x00, 0x3c, 0x1c, 0x46, 0x40, 0x00, 0x40, 0x06, 0x00, 0x00, 0xac, 0x10,
        0x0a, 0x63, 0xac, 0x10, 0x0a, 0x0c,
    ];
    let sum = ipv4_checksum(&header);
    header[10..12].copy_from_slice(&sum.to_be_bytes());
    assert_eq!(checksum(&header), 0);
}

#[test]
fn an_odd_length_is_padded_on_the_right() {
    // The last byte is the high half of a word, not the low one. Getting this backwards
    // produces a checksum that verifies here and nowhere else.
    assert_eq!(checksum(&[0x12]), checksum(&[0x12, 0x00]));
    assert_ne!(checksum(&[0x12]), checksum(&[0x00, 0x12]));
}

#[test]
fn carries_are_folded_rather_than_dropped() {
    // Two words that overflow sixteen bits: the carry has to come back round.
    let mut sum = Sum::default();
    sum.add(&[0xff, 0xff]);
    sum.add(&[0x00, 0x01]);
    assert_eq!(sum.fold(), 0xfffe);
}
