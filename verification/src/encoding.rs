//! Bytes as text: base64 and hexadecimal.

use base64::Engine;
use vstd::prelude::*;

verus! {

/// One character of base64's standard alphabet.
pub open spec fn base64_char(n: int) -> char {
    if n < 26 {
        (65 + n) as char
    } else if n < 52 {
        (97 + n - 26) as char
    } else if n < 62 {
        (48 + n - 52) as char
    } else if n == 62 {
        '+'
    } else {
        '/'
    }
}

/// Bytes in base64, standard alphabet, padded: four characters for each three bytes, and two or
/// three of them filled up with `=` for one or two bytes left over.
pub open spec fn base64_of(bytes: Seq<u8>) -> Seq<char>
    decreases bytes.len(),
{
    if bytes.len() == 0 {
        Seq::empty()
    } else if bytes.len() == 1 {
        seq![base64_char(bytes[0] as int / 4), base64_char(bytes[0] as int % 4 * 16), '=', '=']
    } else if bytes.len() == 2 {
        seq![
            base64_char(bytes[0] as int / 4),
            base64_char(bytes[0] as int % 4 * 16 + bytes[1] as int / 16),
            base64_char(bytes[1] as int % 16 * 4),
            '=',
        ]
    } else {
        seq![
            base64_char(bytes[0] as int / 4),
            base64_char(bytes[0] as int % 4 * 16 + bytes[1] as int / 16),
            base64_char(bytes[1] as int % 16 * 4 + bytes[2] as int / 64),
            base64_char(bytes[2] as int % 64),
        ] + base64_of(bytes.skip(3))
    }
}

/// `base64::Engine::encode` of the standard engine: the bytes in base64, padded. It panics where the
/// length of the text overflows.
#[verifier::external_body]
fn base64_encode(bytes: &[u8]) -> (text: String)
    requires
        bytes@.len() <= usize::MAX / 4,
    ensures
        text@ == base64_of(bytes@),
{
    base64::engine::general_purpose::STANDARD.encode(bytes)
}

/// `base64::Engine::decode` of the standard engine: the bytes that the text is the base64 of. The
/// engine asks for canonical padding and for no bits left over, so a text that is not exactly what
/// some bytes are encoded as is refused. What is said about a refusal is left open.
#[verifier::external_body]
fn base64_decode(text: &str) -> (bytes: Result<Vec<u8>, String>)
    ensures
        bytes matches Ok(bytes) ==> text@ == base64_of(bytes@),
        bytes is Err ==> forall|some: Seq<u8>| #[trigger] base64_of(some) != text@,
{
    base64::engine::general_purpose::STANDARD.decode(text).map_err(|problem| problem.to_string())
}

/// Base64 with the standard alphabet and padding, which is what every field of the registration is
/// encoded in.
pub fn b64(bytes: &[u8]) -> (text: String)
    requires
        bytes@.len() <= usize::MAX / 4,
    ensures
        text@ == base64_of(bytes@),
{
    base64_encode(bytes)
}

/// The bytes that a text is the base64 of, or what is said where it is of none.
pub fn from_b64(text: &str) -> (bytes: Result<Vec<u8>, String>)
    ensures
        bytes matches Ok(bytes) ==> text@ == base64_of(bytes@),
        bytes is Err ==> forall|some: Seq<u8>| #[trigger] base64_of(some) != text@,
{
    base64_decode(text)
}

/// One byte as two hexadecimal digits.
pub open spec fn hex_pair(byte: u8) -> Seq<char> {
    seq![
        crate::address::shown::hex_digit((byte / 16) as nat),
        crate::address::shown::hex_digit((byte % 16) as nat),
    ]
}

/// Bytes in hexadecimal, lower case.
pub open spec fn hex_of(bytes: Seq<u8>) -> Seq<char>
    decreases bytes.len(),
{
    if bytes.len() == 0 {
        Seq::empty()
    } else {
        hex_of(bytes.drop_last()) + hex_pair(bytes.last())
    }
}

/// `hex::encode`: two lower-case hexadecimal digits for each byte.
#[verifier::external_body]
fn hex_encode(bytes: &[u8]) -> (text: String)
    requires
        bytes@.len() <= usize::MAX / 4,
    ensures
        text@ == hex_of(bytes@),
{
    hex::encode(bytes)
}

/// Bytes in hexadecimal, lower case.
pub fn hexadecimal(bytes: &[u8]) -> (text: String)
    requires
        bytes@.len() <= usize::MAX / 4,
    ensures
        text@ == hex_of(bytes@),
{
    hex_encode(bytes)
}

/// Different bytes are different base64, so a text says which bytes it is of.
pub proof fn law_base64_tells_bytes_apart(a: Seq<u8>, b: Seq<u8>)
    requires
        base64_of(a) == base64_of(b),
    ensures
        a == b,
    decreases a.len(),
{
    lemma_base64_len(a);
    lemma_base64_len(b);
    let text = base64_of(a);
    if a.len() == 0 || b.len() == 0 {
        assert(a =~= b);
    } else {
        lemma_base64_head(a);
        lemma_base64_head(b);
        lemma_char(a[0] as int / 4, b[0] as int / 4);
        if a.len() == 1 {
            assert(text[2] == '=');
            lemma_char(a[0] as int % 4 * 16, b[0] as int % 4 * 16);
            assert(a[0] == b[0]);
            assert(a =~= b);
        } else if a.len() == 2 {
            assert(text[2] != '=' && text[3] == '=');
            lemma_char(
                a[0] as int % 4 * 16 + a[1] as int / 16,
                b[0] as int % 4 * 16 + b[1] as int / 16,
            );
            lemma_char(a[1] as int % 16 * 4, b[1] as int % 16 * 4);
            assert(a[0] == b[0] && a[1] == b[1]);
            assert(a =~= b);
        } else {
            assert(text[2] != '=' && text[3] != '=');
            lemma_char(
                a[0] as int % 4 * 16 + a[1] as int / 16,
                b[0] as int % 4 * 16 + b[1] as int / 16,
            );
            lemma_char(
                a[1] as int % 16 * 4 + a[2] as int / 64,
                b[1] as int % 16 * 4 + b[2] as int / 64,
            );
            lemma_char(a[2] as int % 64, b[2] as int % 64);
            lemma_base64_group(a);
            lemma_base64_group(b);
            assert(a[0] == b[0]);
            assert(a[1] as int / 16 == b[1] as int / 16);
            assert(a[1] == b[1]);
            assert(a[2] as int / 64 == b[2] as int / 64);
            assert(a[2] == b[2]);
            assert(text.skip(4) =~= base64_of(a.skip(3)));
            assert(base64_of(b).skip(4) =~= base64_of(b.skip(3)));
            law_base64_tells_bytes_apart(a.skip(3), b.skip(3));
            assert(a =~= a.take(3) + a.skip(3));
            assert(b =~= b.take(3) + b.skip(3));
            assert(a.take(3) =~= b.take(3));
        }
    }
}

/// Characters of the alphabet are told apart, and none of them is the padding.
proof fn lemma_char(m: int, n: int)
    requires
        0 <= m < 64,
        0 <= n < 64,
    ensures
        base64_char(m) == base64_char(n) <==> m == n,
        base64_char(m) != '=',
{
}

proof fn lemma_base64_len(bytes: Seq<u8>)
    ensures
        bytes.len() > 0 ==> base64_of(bytes).len() >= 4,
        bytes.len() == 0 ==> base64_of(bytes).len() == 0,
        1 <= bytes.len() <= 2 ==> base64_of(bytes).len() == 4,
{
}

/// The first four characters of three bytes or more.
proof fn lemma_base64_group(bytes: Seq<u8>)
    requires
        bytes.len() >= 3,
    ensures
        base64_of(bytes)[0] == base64_char(bytes[0] as int / 4),
        base64_of(bytes)[1] == base64_char(bytes[0] as int % 4 * 16 + bytes[1] as int / 16),
        base64_of(bytes)[2] == base64_char(bytes[1] as int % 16 * 4 + bytes[2] as int / 64),
        base64_of(bytes)[3] == base64_char(bytes[2] as int % 64),
{
}

/// Where the padding of the first four characters is.
proof fn lemma_base64_head(bytes: Seq<u8>)
    requires
        bytes.len() > 0,
    ensures
        base64_of(bytes)[2] == '=' <==> bytes.len() == 1,
        base64_of(bytes)[3] == '=' <==> bytes.len() <= 2,
{
    if bytes.len() >= 2 {
        lemma_char(bytes[1] as int % 16 * 4, 0);
    }
    if bytes.len() >= 3 {
        lemma_char(bytes[1] as int % 16 * 4 + bytes[2] as int / 64, 0);
        lemma_char(bytes[2] as int % 64, 0);
    }
}

/// Bytes in hexadecimal are two digits each, 0 to 9 and a to f, from which they can be read back, one
/// behind the other.
pub proof fn law_hexadecimal_can_be_read_back(bytes: Seq<u8>, more: Seq<u8>, byte: u8)
    ensures
        hex_of(bytes).len() == 2 * bytes.len(),
        hex_of(bytes + more) == hex_of(bytes) + hex_of(more),
        hex_of(seq![byte]).len() == 2,
        ({
            let high = crate::address::written::digit_value(hex_of(seq![byte])[0]);
            let low = crate::address::written::digit_value(hex_of(seq![byte])[1]);
            high * 16 + low == byte && 0 <= high < 16 && 0 <= low < 16
        }),
        ({
            let high = hex_of(seq![byte])[0];
            let low = hex_of(seq![byte])[1];
            !('A' <= high <= 'F') && !('A' <= low <= 'F')
        }),
    decreases more.len(),
{
    reveal_with_fuel(hex_of, 2);
    assert(seq![byte].drop_last() =~= Seq::empty());
    assert(hex_of(seq![byte]) =~= hex_pair(byte));
    lemma_hex_len(bytes);
    if more.len() == 0 {
        assert(bytes + more =~= bytes);
        assert(hex_of(bytes) + hex_of(more) =~= hex_of(bytes));
    } else {
        law_hexadecimal_can_be_read_back(bytes, more.drop_last(), byte);
        assert((bytes + more).drop_last() =~= bytes + more.drop_last());
        assert(hex_of(bytes + more) =~= hex_of(bytes) + hex_of(more));
    }
}

proof fn lemma_hex_len(bytes: Seq<u8>)
    ensures
        hex_of(bytes).len() == 2 * bytes.len(),
    decreases bytes.len(),
{
    if bytes.len() > 0 {
        lemma_hex_len(bytes.drop_last());
    }
}

} // verus!
