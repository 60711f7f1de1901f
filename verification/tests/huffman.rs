use masqr::transport::huffman::{decode, HuffmanError, CODES, LONGEST, SYMBOLS};

/// The encoder, kept to the tests: it is how the round-trip below reaches every symbol.
fn encode(input: &[u8]) -> Vec<u8> {
    let mut out = Vec::new();
    let mut pending = 0u64;
    let mut bits = 0u32;
    for &byte in input {
        let (code, length) = CODES[byte as usize];
        pending = (pending << length) | u64::from(code);
        bits += u32::from(length);
        while bits >= 8 {
            bits -= 8;
            out.push((pending >> bits) as u8);
        }
    }
    if bits > 0 {
        out.push(((pending << (8 - bits)) | (0xff >> bits)) as u8);
    }
    out
}

/// The decoder takes only the lengths from the table and derives the codes; this is the proof
/// that deriving them gives back every code RFC 7541 lists.
#[test]
fn the_table_is_canonical() {
    let mut order: Vec<usize> = (0..CODES.len()).collect();
    order.sort_by_key(|&symbol| (CODES[symbol].1, symbol));
    let mut expected = 0u32;
    let mut previous = CODES[order[0]].1;
    for (position, &symbol) in order.iter().enumerate() {
        let (code, length) = CODES[symbol];
        if position > 0 {
            expected = (expected + 1) << (length - previous);
        }
        previous = length;
        assert_eq!(code, expected, "symbol {symbol}");
    }
}

/// Kraft's sum is exactly one: every bit sequence is the start of some code, which is why the
/// decoder never runs past the longest length.
#[test]
fn the_code_is_complete() {
    let sum: u64 = CODES
        .iter()
        .map(|&(_, length)| 1u64 << (LONGEST - length as usize))
        .sum();
    assert_eq!(sum, 1 << LONGEST);
}

/// RFC 7541 Appendix C.4, the request examples with Huffman coding.
#[test]
fn the_rfc_examples_decode() {
    for (coded, plain) in [
        (
            &b"\xf1\xe3\xc2\xe5\xf2\x3a\x6b\xa0\xab\x90\xf4\xff"[..],
            &b"www.example.com"[..],
        ),
        (&b"\xa8\xeb\x10\x64\x9c\xbf"[..], &b"no-cache"[..]),
        (&b"\x25\xa8\x49\xe9\x5b\xa9\x7d\x7f"[..], &b"custom-key"[..]),
        (
            &b"\x25\xa8\x49\xe9\x5b\xb8\xe8\xb4\xbf"[..],
            &b"custom-value"[..],
        ),
    ] {
        assert_eq!(decode(coded).as_deref(), Ok(plain));
        assert_eq!(encode(plain), coded);
    }
}

#[test]
fn every_byte_value_survives_the_round_trip() {
    let all: Vec<u8> = (0..=255).collect();
    assert_eq!(decode(&encode(&all)).as_deref(), Ok(&all[..]));
    assert_eq!(decode(&[]).as_deref(), Ok(&b""[..]));
}

/// RFC 7541 §5.2: padding is at most seven bits, all ones, and EOS itself is never coded.
#[test]
fn padding_and_eos_are_held_to_the_rules() {
    // '0' is 00000 (five bits); three bits of ones pad the byte.
    assert_eq!(decode(&[0b0000_0111]).as_deref(), Ok(&b"0"[..]));
    // The same symbol padded with something other than ones.
    assert_eq!(decode(&[0b0000_0101]), Err(HuffmanError::Padding));
    // A whole byte of ones is eight bits of padding: one too many.
    assert_eq!(decode(&[0b0000_0111, 0xff]), Err(HuffmanError::Padding));
    // EOS written out in full: thirty ones.
    assert_eq!(decode(&[0xff, 0xff, 0xff, 0xfc]), Err(HuffmanError::Eos));
}

/// The symbols stand in the order of their codes: by length, and by symbol within one length.
#[test]
fn the_symbols_stand_in_the_order_of_their_codes() {
    let mut order: Vec<u8> = (0..=255).collect();
    order.sort_by_key(|&symbol| (CODES[symbol as usize].1, symbol));
    assert_eq!(order, SYMBOLS);
    assert_eq!(CODES[256], (0x3fff_ffff, 30));
    assert!(order.windows(2).all(|pair| {
        let (before, then) = (CODES[pair[0] as usize], CODES[pair[1] as usize]);
        then.0 == (before.0 + 1) << (then.1 - before.1)
    }));
}
