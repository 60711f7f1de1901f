//! QPACK (RFC 9204), as much of it as one request and one response need.
//!
//! This side declares a dynamic table of capacity zero, so every field section either direction
//! writes is self-contained: static-table references and literals, nothing that refers to state
//! built up on another stream. That is why there is no encoder or decoder stream here, which
//! RFC 9204 §4.2 permits for a table this size, and why a reference into a dynamic table is a
//! protocol error rather than something to wait for.
//!
//! The request is written with plain literals; the response is read in any form the static-only
//! subset allows, Huffman included.

use bytes::BytesMut;
use vstd::prelude::*;
use vstd::string::{StringExecFns, StringSliceAdditionalSpecFns};
use crate::buffer::{held, put_slice, put_u8};
use crate::text::{between, decimal, digits, joined};
use crate::transport::huffman;
use crate::transport::huffman::{bits_of, huffman_text, meaning, HuffmanError};

pub mod laws;

verus! {

/// RFC 9204 Appendix A: the static table, indexed from zero.
pub const STATIC: [(&'static str, &'static str); 99] = [
    (":authority", ""),
    (":path", "/"),
    ("age", "0"),
    ("content-disposition", ""),
    ("content-length", "0"),
    ("cookie", ""),
    ("date", ""),
    ("etag", ""),
    ("if-modified-since", ""),
    ("if-none-match", ""),
    ("last-modified", ""),
    ("link", ""),
    ("location", ""),
    ("referer", ""),
    ("set-cookie", ""),
    (":method", "CONNECT"),
    (":method", "DELETE"),
    (":method", "GET"),
    (":method", "HEAD"),
    (":method", "OPTIONS"),
    (":method", "POST"),
    (":method", "PUT"),
    (":scheme", "http"),
    (":scheme", "https"),
    (":status", "103"),
    (":status", "200"),
    (":status", "304"),
    (":status", "404"),
    (":status", "503"),
    ("accept", "*/*"),
    ("accept", "application/dns-message"),
    ("accept-encoding", "gzip, deflate, br"),
    ("accept-ranges", "bytes"),
    ("access-control-allow-headers", "cache-control"),
    ("access-control-allow-headers", "content-type"),
    ("access-control-allow-origin", "*"),
    ("cache-control", "max-age=0"),
    ("cache-control", "max-age=2592000"),
    ("cache-control", "max-age=604800"),
    ("cache-control", "no-cache"),
    ("cache-control", "no-store"),
    ("cache-control", "public, max-age=31536000"),
    ("content-encoding", "br"),
    ("content-encoding", "gzip"),
    ("content-type", "application/dns-message"),
    ("content-type", "application/javascript"),
    ("content-type", "application/json"),
    ("content-type", "application/x-www-form-urlencoded"),
    ("content-type", "image/gif"),
    ("content-type", "image/jpeg"),
    ("content-type", "image/png"),
    ("content-type", "text/css"),
    ("content-type", "text/html; charset=utf-8"),
    ("content-type", "text/plain"),
    ("content-type", "text/plain;charset=utf-8"),
    ("range", "bytes=0-"),
    ("strict-transport-security", "max-age=31536000"),
    ("strict-transport-security", "max-age=31536000; includesubdomains"),
    ("strict-transport-security", "max-age=31536000; includesubdomains; preload"),
    ("vary", "accept-encoding"),
    ("vary", "origin"),
    ("x-content-type-options", "nosniff"),
    ("x-xss-protection", "1; mode=block"),
    (":status", "100"),
    (":status", "204"),
    (":status", "206"),
    (":status", "302"),
    (":status", "400"),
    (":status", "403"),
    (":status", "421"),
    (":status", "425"),
    (":status", "500"),
    ("accept-language", ""),
    ("access-control-allow-credentials", "FALSE"),
    ("access-control-allow-credentials", "TRUE"),
    ("access-control-allow-headers", "*"),
    ("access-control-allow-methods", "get"),
    ("access-control-allow-methods", "get, post, options"),
    ("access-control-allow-methods", "options"),
    ("access-control-expose-headers", "content-length"),
    ("access-control-request-headers", "content-type"),
    ("access-control-request-method", "get"),
    ("access-control-request-method", "post"),
    ("alt-svc", "clear"),
    ("authorization", ""),
    ("content-security-policy", "script-src 'none'; object-src 'none'; base-uri 'none'"),
    ("early-data", "1"),
    ("expect-ct", ""),
    ("forwarded", ""),
    ("if-range", ""),
    ("origin", ""),
    ("purpose", "prefetch"),
    ("server", ""),
    ("timing-allow-origin", "*"),
    ("upgrade-insecure-requests", "1"),
    ("user-agent", ""),
    ("x-forwarded-for", ""),
    ("x-frame-options", "deny"),
    ("x-frame-options", "sameorigin"),
];

/// One field line: a name and its value, as bytes. HTTP does not promise either is UTF-8.
pub type Field = (Vec<u8>, Vec<u8>);

/// Why a field section could not be read.
#[derive(Debug, Clone, Copy, PartialEq, Eq, Structural)]
pub enum QpackError {
    /// The field section ends in the middle of a field line.
    Truncated,
    /// The field section refers to a dynamic table, which this side declared no room for.
    Dynamic,
    /// The field section refers to a static entry past the end of the table.
    UnknownIndex(u64),
    /// An integer in the field section runs longer than any field needs.
    Overflow,
    /// A Huffman-coded string that could not be read.
    Huffman(HuffmanError),
}

/// What is said about a field section that cannot be read.
pub open spec fn qpack_text(error: QpackError) -> Seq<char> {
    match error {
        QpackError::Truncated => "the field section ends in the middle of a field line"@,
        QpackError::Dynamic => {
            "the field section refers to a dynamic table, which this side declared no room for"@
        },
        QpackError::UnknownIndex(index) => "the field section refers to static entry "@ + digits(
            index as nat,
        ) + ", and the table ends at 98"@,
        QpackError::Overflow => {
            "an integer in the field section runs longer than any field needs"@
        },
        QpackError::Huffman(error) => "a Huffman-coded string: "@ + huffman_text(error),
    }
}

impl QpackError {
    /// What is said about it.
    pub fn text(&self) -> (text: String)
        ensures
            text@ == qpack_text(*self),
    {
        match self {
            QpackError::Truncated => String::from_str(
                "the field section ends in the middle of a field line",
            ),
            QpackError::Dynamic => String::from_str(
                "the field section refers to a dynamic table, which this side declared no room for",
            ),
            QpackError::UnknownIndex(index) => {
                let index = decimal(*index as u128);
                between(
                    "the field section refers to static entry ",
                    index.as_str(),
                    ", and the table ends at 98",
                )
            },
            QpackError::Overflow => String::from_str(
                "an integer in the field section runs longer than any field needs",
            ),
            QpackError::Huffman(error) => joined("a Huffman-coded string: ", error.text()),
        }
    }
}

/// A field line as plain values.
pub type Line = (Seq<u8>, Seq<u8>);

/// An entry of the static table, as the bytes it puts on the wire.
#[verifier::opaque]
pub open spec fn static_line(index: int) -> Line {
    (STATIC@[index].0.spec_bytes(), STATIC@[index].1.spec_bytes())
}

/// The largest value a prefix of so many bits holds by itself plus one is where continuation
/// starts: all of its bits set.
pub open spec fn ones(prefix: u32) -> int {
    if prefix == 1 {
        1
    } else if prefix == 2 {
        3
    } else if prefix == 3 {
        7
    } else if prefix == 4 {
        15
    } else if prefix == 5 {
        31
    } else if prefix == 6 {
        63
    } else if prefix == 7 {
        127
    } else {
        255
    }
}

/// A number in groups of seven bits, the least significant first, each but the last with its high
/// bit set.
pub open spec fn groups(value: nat) -> Seq<u8>
    decreases value,
{
    if value < 128 {
        seq![value as u8]
    } else {
        seq![(128 + value % 128) as u8] + groups(value / 128)
    }
}

/// An RFC 7541 §5.1 prefixed integer: the low `prefix` bits of the first byte, continued in groups
/// when they are all ones. `flags` fills the bits above the prefix.
pub open spec fn int_bytes(prefix: u32, flags: u8, value: u64) -> Seq<u8> {
    if value < ones(prefix) {
        seq![(flags + value) as u8]
    } else {
        seq![(flags + ones(prefix)) as u8] + groups((value - ones(prefix)) as nat)
    }
}

/// The number that groups of seven bits spell, `read` of them having gone before, and how many
/// bytes it took. Nine already carry 63 bits; a tenth is a number no field needs.
pub open spec fn read_groups(buf: Seq<u8>, read: int) -> Result<(nat, int), QpackError>
    decreases buf.len(),
{
    if buf.len() == 0 {
        Err(QpackError::Truncated)
    } else if read >= 9 {
        Err(QpackError::Overflow)
    } else if buf[0] < 128 {
        Ok((buf[0] as nat, 1))
    } else {
        match read_groups(buf.drop_first(), read + 1) {
            Ok((high, used)) => Ok(((buf[0] - 128 + 128 * high) as nat, used + 1)),
            Err(problem) => Err(problem),
        }
    }
}

/// The prefixed integer at the front of `buf`, and how many bytes it took.
pub open spec fn read_int(buf: Seq<u8>, prefix: u32) -> Result<(nat, int), QpackError> {
    if buf.len() == 0 {
        Err(QpackError::Truncated)
    } else {
        let low = buf[0] as int % (ones(prefix) + 1);
        if low < ones(prefix) {
            Ok((low as nat, 1))
        } else {
            match read_groups(buf.drop_first(), 0) {
                Ok((high, used)) => Ok(((ones(prefix) + high) as nat, used + 1)),
                Err(problem) => Err(problem),
            }
        }
    }
}

/// A plain string literal: a seven-bit length, then the bytes.
pub open spec fn string_bytes(value: Seq<u8>) -> Seq<u8> {
    int_bytes(7, 0, value.len() as u64) + value
}

/// The string literal at the front of `buf` whose length has a `prefix`-bit prefix, and how many
/// bytes it took. The Huffman flag is the bit just above the prefix.
pub open spec fn read_string(buf: Seq<u8>, prefix: u32) -> Result<(Seq<u8>, int), QpackError> {
    match read_int(buf, prefix) {
        Err(problem) => Err(problem),
        Ok((length, used)) => {
            let end = used + length;
            if end > buf.len() {
                Err(QpackError::Truncated)
            } else {
                let raw = buf.subrange(used, end);
                if buf[0] as int / (ones(prefix) + 1) % 2 == 1 {
                    match meaning(bits_of(raw)) {
                        Ok(value) => Ok((value, end)),
                        Err(problem) => Err(QpackError::Huffman(problem)),
                    }
                } else {
                    Ok((raw, end))
                }
            }
        },
    }
}

/// An entry of the static table, where there is one.
pub open spec fn static_entry_spec(index: nat) -> Result<Line, QpackError> {
    if index < 99 {
        Ok(static_line(index as int))
    } else {
        Err(QpackError::UnknownIndex(index as u64))
    }
}

/// The field line at the front of `buf`, and how many bytes it took.
pub open spec fn read_line(buf: Seq<u8>) -> Result<(Line, int), QpackError> {
    if buf[0] >= 128 {
        // Indexed field line.
        if buf[0] < 192 {
            Err(QpackError::Dynamic)
        } else {
            match read_int(buf, 6) {
                Err(problem) => Err(problem),
                Ok((index, used)) => match static_entry_spec(index) {
                    Err(problem) => Err(problem),
                    Ok(line) => Ok((line, used)),
                },
            }
        }
    } else if buf[0] >= 64 {
        // Literal with name reference.
        if buf[0] as int / 16 % 2 == 0 {
            Err(QpackError::Dynamic)
        } else {
            match read_int(buf, 4) {
                Err(problem) => Err(problem),
                Ok((index, used)) => match static_entry_spec(index) {
                    Err(problem) => Err(problem),
                    Ok(line) => match read_string(buf.skip(used), 7) {
                        Err(problem) => Err(problem),
                        Ok((value, more)) => Ok(((line.0, value), used + more)),
                    },
                },
            }
        }
    } else if buf[0] >= 32 {
        // Literal with literal name; its Huffman bit sits below the N bit.
        match read_string(buf, 3) {
            Err(problem) => Err(problem),
            Ok((name, used)) => match read_string(buf.skip(used), 7) {
                Err(problem) => Err(problem),
                Ok((value, more)) => Ok(((name, value), used + more)),
            },
        }
    } else {
        // The two post-Base forms, which only ever point into a dynamic table.
        Err(QpackError::Dynamic)
    }
}

/// The field lines a run of bytes holds.
pub open spec fn read_lines(buf: Seq<u8>) -> Result<Seq<Line>, QpackError>
    decreases buf.len(),
{
    if buf.len() == 0 {
        Ok(Seq::empty())
    } else {
        match read_line(buf) {
            Err(problem) => Err(problem),
            Ok((line, used)) => if 1 <= used <= buf.len() {
                match read_lines(buf.skip(used)) {
                    Err(problem) => Err(problem),
                    Ok(lines) => Ok(seq![line] + lines),
                }
            } else {
                Err(QpackError::Truncated)
            },
        }
    }
}

/// What a field section written without a dynamic table says.
pub open spec fn read_section(section: Seq<u8>) -> Result<Seq<Line>, QpackError> {
    match read_int(section, 8) {
        Err(problem) => Err(problem),
        Ok((required, used)) => if required != 0 {
            Err(QpackError::Dynamic)
        } else {
            match read_int(section.skip(used), 7) {
                Err(problem) => Err(problem),
                Ok((_, more)) => read_lines(section.skip(used).skip(more)),
            }
        },
    }
}

/// The first entry of the static table that is exactly this field, from `from` on, or 99.
pub open spec fn whole_match(line: Line, from: int) -> int
    decreases 99 - from,
{
    if from >= 99 || static_line(from) == line {
        from
    } else {
        whole_match(line, from + 1)
    }
}

/// The first entry of the static table with this name, from `from` on, or 99.
pub open spec fn name_match(name: Seq<u8>, from: int) -> int
    decreases 99 - from,
{
    if from >= 99 || static_line(from).0 == name {
        from
    } else {
        name_match(name, from + 1)
    }
}

/// A field as the smallest static-only form that fits it: a reference when the static table has it
/// whole, a reference and a literal value when it has the name, and otherwise all of it.
pub open spec fn line_bytes(line: Line) -> Seq<u8> {
    let whole = whole_match(line, 0);
    let named = name_match(line.0, 0);
    if whole < 99 {
        int_bytes(6, 0b1100_0000, whole as u64)
    } else if named < 99 {
        int_bytes(4, 0b0101_0000, named as u64) + string_bytes(line.1)
    } else {
        int_bytes(3, 0b0010_0000, line.0.len() as u64) + line.0 + string_bytes(line.1)
    }
}

/// Fields one after another.
pub open spec fn lines_bytes(lines: Seq<Line>) -> Seq<u8>
    decreases lines.len(),
{
    if lines.len() == 0 {
        Seq::empty()
    } else {
        lines_bytes(lines.drop_last()) + line_bytes(lines.last())
    }
}

/// A field section: the prefix that says no dynamic table is involved, then each field.
pub open spec fn section_bytes(lines: Seq<Line>) -> Seq<u8> {
    seq![0u8, 0u8] + lines_bytes(lines)
}

/// Borrowed fields as plain values.
pub open spec fn borrowed_lines(fields: Seq<(&[u8], &[u8])>) -> Seq<Line> {
    fields.map_values(|field: (&[u8], &[u8])| (field.0@, field.1@))
}

/// Owned fields as plain values.
pub open spec fn owned_lines(fields: Seq<Field>) -> Seq<Line> {
    fields.map_values(|field: Field| (field.0@, field.1@))
}

fn prefix_ones(prefix: u32) -> (max: u64)
    requires
        1 <= prefix <= 8,
    ensures
        max == ones(prefix),
{
    if prefix == 1 {
        1
    } else if prefix == 2 {
        3
    } else if prefix == 3 {
        7
    } else if prefix == 4 {
        15
    } else if prefix == 5 {
        31
    } else if prefix == 6 {
        63
    } else if prefix == 7 {
        127
    } else {
        255
    }
}

fn same_bytes(a: &[u8], b: &[u8]) -> (same: bool)
    ensures
        same == (a@ == b@),
{
    if a.len() != b.len() {
        return false;
    }
    let mut i: usize = 0;
    while i < a.len()
        invariant
            i <= a.len(),
            a.len() == b.len(),
            forall|j: int| 0 <= j < i ==> a@[j] == b@[j],
        decreases a.len() - i,
    {
        if a[i] != b[i] {
            return false;
        }
        i += 1;
    }
    assert(a@ =~= b@);
    true
}

fn tail(buf: &[u8], from: usize) -> (rest: &[u8])
    requires
        from <= buf.len(),
    ensures
        rest@ == buf@.skip(from as int),
{
    let rest = vstd::slice::slice_subrange(buf, from, buf.len());
    assert(rest@ =~= buf@.skip(from as int));
    rest
}

/// Write a field section: the prefix that says no dynamic table is involved, then each field as
/// the smallest static-only form that fits it.
///
/// None is Huffman-coded: the saving on one request per connection is a few bytes, and plain
/// literals are the form every decoder must read.
pub fn encode(fields: &[(&[u8], &[u8])], out: &mut BytesMut)
    requires
        held(*old(out)).len() + section_bytes(borrowed_lines(fields@)).len() <= isize::MAX,
    ensures
        held(*final(out)) == held(*old(out)) + section_bytes(borrowed_lines(fields@)),
{
    let ghost before = held(*out);
    let ghost lines = borrowed_lines(fields@);
    // Required Insert Count 0, and a Delta Base of 0 with the sign bit clear.
    let prefix: [u8; 2] = [0, 0];
    put_slice(out, &prefix);
    let mut i: usize = 0;
    proof {
        assert(prefix@ =~= seq![0u8, 0u8]);
        assert(lines.take(0) =~= Seq::<Line>::empty());
        assert(held(*out) =~= before + section_bytes(lines.take(0)));
    }
    while i < fields.len()
        invariant
            i <= fields.len(),
            lines == borrowed_lines(fields@),
            before.len() + section_bytes(lines).len() <= isize::MAX,
            held(*out) == before + section_bytes(lines.take(i as int)),
        decreases fields.len() - i,
    {
        let (name, value) = fields[i];
        let ghost line = lines[i as int];
        proof {
            assert(line == (name@, value@));
            assert(lines.take(i + 1).drop_last() =~= lines.take(i as int));
            lemma_lines_prefix(lines, i + 1);
            assert(before + section_bytes(lines.take(i as int)) + line_bytes(line) =~= before
                + section_bytes(lines.take(i + 1)));
        }
        put_line(name, value, out);
        i += 1;
    }
    assert(lines.take(i as int) =~= lines);
}

/// Part of a run of fields takes no more bytes than all of it.
proof fn lemma_lines_prefix(lines: Seq<Line>, n: int)
    requires
        0 <= n <= lines.len(),
    ensures
        lines_bytes(lines.take(n)).len() <= lines_bytes(lines).len(),
    decreases lines.len(),
{
    if n == lines.len() {
        assert(lines.take(n) =~= lines);
    } else {
        lemma_lines_prefix(lines.drop_last(), n);
        assert(lines.drop_last().take(n) =~= lines.take(n));
    }
}

fn put_line(name: &[u8], value: &[u8], out: &mut BytesMut)
    requires
        held(*old(out)).len() + line_bytes((name@, value@)).len() <= isize::MAX,
    ensures
        held(*final(out)) == held(*old(out)) + line_bytes((name@, value@)),
{
    let ghost before = held(*out);
    let ghost line = (name@, value@);
    assert(ones(6) == 63 && ones(4) == 15 && ones(3) == 7);
    reveal(static_line);
    let mut whole: usize = 0;
    while whole < 99 && !(same_bytes(STATIC[whole].0.as_bytes(), name) && same_bytes(
        STATIC[whole].1.as_bytes(),
        value,
    ))
        invariant
            whole <= 99,
            line == (name@, value@),
            whole_match(line, 0) == whole_match(line, whole as int),
        decreases 99 - whole,
    {
        reveal(static_line);
        whole += 1;
    }
    if whole < 99 {
        // Indexed field line, static: 1 · T=1 · index.
        put_int(out, 6, 0b1100_0000, whole as u64);
        return;
    }
    let mut named: usize = 0;
    while named < 99 && !same_bytes(STATIC[named].0.as_bytes(), name)
        invariant
            named <= 99,
            name_match(name@, 0) == name_match(name@, named as int),
        decreases 99 - named,
    {
        reveal(static_line);
        named += 1;
    }
    if named < 99 {
        // Literal with name reference, static, may be indexed by intermediaries:
        // 01 · N=0 · T=1 · index.
        put_int(out, 4, 0b0101_0000, named as u64);
        put_string(out, value);
    } else {
        // Literal with literal name: 001 · N=0 · H=0 · length.
        put_int(out, 3, 0b0010_0000, name.len() as u64);
        put_slice(out, name);
        put_string(out, value);
    }
    assert(held(*out) =~= before + line_bytes(line));
}

/// Read a field section written without a dynamic table.
pub fn decode(section: &[u8]) -> (fields: Result<Vec<Field>, QpackError>)
    ensures
        match fields {
            Ok(fields) => read_section(section@) == Ok::<Seq<Line>, QpackError>(
                owned_lines(fields@),
            ),
            Err(problem) => read_section(section@) == Err::<Seq<Line>, QpackError>(problem),
        },
{
    let (required_insert_count, used) = match get_int(section, 8) {
        Ok(read) => read,
        Err(problem) => {
            return Err(problem);
        },
    };
    if required_insert_count != 0 {
        return Err(QpackError::Dynamic);
    }
    let after_count = tail(section, used);
    // The Base means nothing without a dynamic table, but it is part of the prefix.
    let more = match get_int(after_count, 7) {
        Ok((_, more)) => more,
        Err(problem) => {
            return Err(problem);
        },
    };
    let mut rest = tail(after_count, more);
    let mut fields: Vec<Field> = Vec::new();
    let ghost all = rest@;
    proof {
        assert(owned_lines(fields@) =~= Seq::<Line>::empty());
        if let Ok(lines) = read_lines(all) {
            assert(Seq::<Line>::empty() + lines =~= lines);
        }
    }
    while rest.len() > 0
        invariant
            read_section(section@) == read_lines(all),
            read_lines(all) == lines_after(owned_lines(fields@), read_lines(rest@)),
        decreases rest@.len(),
    {
        let ghost here = rest@;
        let ghost so_far = owned_lines(fields@);
        match get_line(rest) {
            Ok((field, used)) => {
                let ghost line = (field.0@, field.1@);
                rest = tail(rest, used);
                fields.push(field);
                proof {
                    assert(owned_lines(fields@) =~= so_far.push(line));
                    if let Ok(lines) = read_lines(rest@) {
                        assert(so_far + (seq![line] + lines) =~= so_far.push(line) + lines);
                    }
                }
            },
            Err(problem) => {
                return Err(problem);
            },
        }
    }
    proof {
        assert(owned_lines(fields@) + Seq::<Line>::empty() =~= owned_lines(fields@));
    }
    Ok(fields)
}

spec fn lines_after(so_far: Seq<Line>, rest: Result<Seq<Line>, QpackError>) -> Result<
    Seq<Line>,
    QpackError,
> {
    match rest {
        Ok(lines) => Ok(so_far + lines),
        Err(problem) => Err(problem),
    }
}

/// Read the field line at the front of `buf`; returns it and how many bytes it took.
fn get_line(buf: &[u8]) -> (read: Result<(Field, usize), QpackError>)
    requires
        buf@.len() > 0,
    ensures
        match read {
            Ok((field, used)) => {
                &&& read_line(buf@) == Ok::<(Line, int), QpackError>(
                    ((field.0@, field.1@), used as int),
                )
                &&& 1 <= used <= buf@.len()
            },
            Err(problem) => read_line(buf@) == Err::<(Line, int), QpackError>(problem),
        },
{
    let first = buf[0];
    if first >= 128 {
        // Indexed field line.
        if first < 192 {
            return Err(QpackError::Dynamic);
        }
        let (index, used) = match get_int(buf, 6) {
            Ok(read) => read,
            Err(problem) => {
                return Err(problem);
            },
        };
        match static_entry(index) {
            Ok((name, value)) => Ok(
                ((vstd::slice::slice_to_vec(name), vstd::slice::slice_to_vec(value)), used),
            ),
            Err(problem) => Err(problem),
        }
    } else if first >= 64 {
        // Literal with name reference.
        if first / 16 % 2 == 0 {
            return Err(QpackError::Dynamic);
        }
        let (index, used) = match get_int(buf, 4) {
            Ok(read) => read,
            Err(problem) => {
                return Err(problem);
            },
        };
        let name = match static_entry(index) {
            Ok((name, _)) => name,
            Err(problem) => {
                return Err(problem);
            },
        };
        match get_string(tail(buf, used), 7) {
            Ok((value, more)) => Ok(((vstd::slice::slice_to_vec(name), value), used + more)),
            Err(problem) => Err(problem),
        }
    } else if first >= 32 {
        // Literal with literal name; its Huffman bit sits below the N bit.
        let (name, used) = match get_string(buf, 3) {
            Ok(read) => read,
            Err(problem) => {
                return Err(problem);
            },
        };
        match get_string(tail(buf, used), 7) {
            Ok((value, more)) => Ok(((name, value), used + more)),
            Err(problem) => Err(problem),
        }
    } else {
        // 0001 and 0000: the two post-Base forms, which only ever point into a dynamic table.
        Err(QpackError::Dynamic)
    }
}

/// An entry of the static table, as the bytes it puts on the wire.
pub fn static_entry(index: u64) -> (entry: Result<
    (&'static [u8], &'static [u8]),
    QpackError,
>)
    ensures
        match entry {
            Ok((name, value)) => static_entry_spec(index as nat) == Ok::<Line, QpackError>(
                (name@, value@),
            ),
            Err(problem) => static_entry_spec(index as nat) == Err::<Line, QpackError>(problem),
        },
{
    if index < 99 {
        let (name, value) = STATIC[index as usize];
        reveal(static_line);
        Ok((name.as_bytes(), value.as_bytes()))
    } else {
        Err(QpackError::UnknownIndex(index))
    }
}

/// An RFC 7541 §5.1 prefixed integer: the low `prefix` bits of the first byte, continued in
/// seven-bit groups when they are all ones. `flags` fills the bits above the prefix.
pub fn put_int(out: &mut BytesMut, prefix: u32, flags: u8, value: u64)
    requires
        1 <= prefix <= 8,
        flags as int % (ones(prefix) + 1) == 0,
        held(*old(out)).len() + int_bytes(prefix, flags, value).len() <= isize::MAX,
    ensures
        held(*final(out)) == held(*old(out)) + int_bytes(prefix, flags, value),
{
    let ghost before = held(*out);
    let max = prefix_ones(prefix);
    proof {
        lemma_flags(flags, prefix);
    }
    if value < max {
        put_u8(out, flags + value as u8);
        assert(held(*out) =~= before + int_bytes(prefix, flags, value));
        return;
    }
    put_u8(out, flags + max as u8);
    let mut rest: u64 = value - max;
    proof {
        assert(before.push((flags + max) as u8) + groups(rest as nat) =~= before + int_bytes(
            prefix,
            flags,
            value,
        ));
    }
    while rest >= 128
        invariant
            held(*out) + groups(rest as nat) == before + int_bytes(prefix, flags, value),
            before.len() + int_bytes(prefix, flags, value).len() <= isize::MAX,
        decreases rest,
    {
        let ghost written = held(*out);
        proof {
            lemma_groups_len(rest as nat);
            assert((written + groups(rest as nat)).len() == (before + int_bytes(
                prefix,
                flags,
                value,
            )).len());
        }
        put_u8(out, (128 + rest % 128) as u8);
        proof {
            assert(written.push((128 + rest % 128) as u8) + groups(rest as nat / 128) =~= written
                + groups(rest as nat));
        }
        rest = rest / 128;
    }
    proof {
        assert((held(*out) + groups(rest as nat)).len() == (before + int_bytes(
            prefix,
            flags,
            value,
        )).len());
        assert(held(*out).push(rest as u8) =~= held(*out) + groups(rest as nat));
    }
    put_u8(out, rest as u8);
}

/// Bits above a prefix leave room for the prefix.
proof fn lemma_flags(flags: u8, prefix: u32)
    requires
        1 <= prefix <= 8,
        flags as int % (ones(prefix) + 1) == 0,
    ensures
        flags + ones(prefix) <= 255,
{
    let f = flags as int;
    if prefix == 1 {
        assert(f % 2 == 0);
    } else if prefix == 2 {
        assert(f % 4 == 0);
    } else if prefix == 3 {
        assert(f % 8 == 0);
    } else if prefix == 4 {
        assert(f % 16 == 0);
    } else if prefix == 5 {
        assert(f % 32 == 0);
    } else if prefix == 6 {
        assert(f % 64 == 0);
    } else if prefix == 7 {
        assert(f % 128 == 0);
    } else {
        assert(f % 256 == 0);
    }
}

proof fn lemma_groups_len(value: nat)
    ensures
        groups(value).len() >= 1,
        value >= 128 ==> groups(value).len() >= 2,
    decreases value,
{
    if value >= 128 {
        lemma_groups_len(value / 128);
    }
}

/// What was read so far, followed by what the rest of the groups say.
spec fn groups_after(low: nat, unit: nat, read: int, rest: Result<(nat, int), QpackError>) -> Result<
    (nat, int),
    QpackError,
> {
    match rest {
        Ok((high, used)) => Ok((low + unit * high, read + used)),
        Err(problem) => Err(problem),
    }
}

/// Read a prefixed integer; returns it and how many bytes it took.
pub fn get_int(buf: &[u8], prefix: u32) -> (read: Result<(u64, usize), QpackError>)
    requires
        1 <= prefix <= 8,
    ensures
        match read {
            Ok((value, used)) => {
                &&& read_int(buf@, prefix) == Ok::<(nat, int), QpackError>(
                    (value as nat, used as int),
                )
                &&& 1 <= used <= buf@.len()
            },
            Err(problem) => read_int(buf@, prefix) == Err::<(nat, int), QpackError>(problem),
        },
{
    let max = prefix_ones(prefix);
    if buf.len() == 0 {
        return Err(QpackError::Truncated);
    }
    let low: u64 = buf[0] as u64 % (max + 1);
    if low < max {
        return Ok((low, 1));
    }
    let ghost continued = buf@.drop_first();
    let mut value: u64 = 0;
    let mut unit: u64 = 1;
    let mut at: usize = 1;
    proof {
        assert(continued.skip(0) =~= continued);
        lemma_groups_after_none(read_groups(continued, 0));
    }
    while at < buf.len()
        invariant
            1 <= at <= buf.len(),
            continued == buf@.drop_first(),
            at <= 10,
            unit == unit_of(at - 1),
            value < unit,
            read_groups(continued, 0) == groups_after(
                value as nat,
                unit as nat,
                at - 1,
                read_groups(continued.skip(at - 1), at - 1),
            ),
            max == ones(prefix),
            1 <= prefix <= 8,
            buf@[0] as int % (ones(prefix) + 1) == max,
        decreases buf.len() - at,
    {
        let ghost rest = continued.skip(at - 1);
        assert(rest[0] == buf@[at as int]);
        assert(rest.drop_first() =~= continued.skip(at as int));
        // Nine continuation bytes already carry 63 bits; a tenth is a number no field needs.
        if at > 9 {
            return Err(QpackError::Overflow);
        }
        let byte = buf[at];
        let low_bits: u64 = (byte % 128) as u64;
        proof {
            lemma_unit(at - 1);
            assert(low_bits * unit <= 127 * unit) by (nonlinear_arith)
                requires
                    0 <= low_bits <= 127,
            ;
        }
        let ghost old_value = value as nat;
        let ghost old_unit = unit as nat;
        value = value + low_bits * unit;
        at += 1;
        if byte < 128 {
            assert(old_unit * (byte as nat) == low_bits * old_unit) by (nonlinear_arith)
                requires
                    low_bits == byte,
            ;
            return Ok((value + max, at));
        }
        proof {
            lemma_groups_step(
                old_value,
                old_unit,
                at - 2,
                low_bits as nat,
                read_groups(continued.skip(at - 1), at - 1),
            );
        }
        unit = 128 * unit;
    }
    assert(continued.skip(at - 1).len() == 0);
    Err(QpackError::Truncated)
}

/// 128 to the power of a small number.
spec fn unit_of(groups: int) -> int
    decreases groups,
{
    if groups <= 0 {
        1
    } else {
        128 * unit_of(groups - 1)
    }
}

proof fn lemma_unit(groups: int)
    requires
        0 <= groups <= 8,
    ensures
        1 <= unit_of(groups) <= 0x100_0000_0000_0000,
        128 * unit_of(groups) == unit_of(groups + 1),
{
    reveal_with_fuel(unit_of, 10);
}

proof fn lemma_groups_after_none(rest: Result<(nat, int), QpackError>)
    ensures
        groups_after(0, 1, 0, rest) == rest,
{
}

proof fn lemma_groups_step(
    value: nat,
    unit: nat,
    read: int,
    low: nat,
    rest: Result<(nat, int), QpackError>,
)
    ensures
        groups_after(
            value,
            unit,
            read,
            match rest {
                Ok((high, used)) => Ok(((low + 128 * high) as nat, used + 1)),
                Err(problem) => Err(problem),
            },
        ) == groups_after((value + low * unit) as nat, 128 * unit, read + 1, rest),
{
    if let Ok((high, used)) = rest {
        assert(unit * (low + 128 * high) == low * unit + (128 * unit) * high) by (nonlinear_arith);
    }
}

/// A plain string literal: H=0 and a seven-bit length, then the bytes.
fn put_string(out: &mut BytesMut, value: &[u8])
    requires
        held(*old(out)).len() + string_bytes(value@).len() <= isize::MAX,
    ensures
        held(*final(out)) == held(*old(out)) + string_bytes(value@),
{
    let ghost before = held(*out);
    put_int(out, 7, 0, value.len() as u64);
    put_slice(out, value);
    assert(held(*out) =~= before + string_bytes(value@));
}

/// Read a string literal whose length has a `prefix`-bit prefix; the Huffman flag is the bit just
/// above it. Returns the decoded bytes and how many bytes of `buf` it took.
fn get_string(buf: &[u8], prefix: u32) -> (read: Result<(Vec<u8>, usize), QpackError>)
    requires
        1 <= prefix <= 7,
    ensures
        match read {
            Ok((value, used)) => {
                &&& read_string(buf@, prefix) == Ok::<(Seq<u8>, int), QpackError>(
                    (value@, used as int),
                )
                &&& 1 <= used <= buf@.len()
            },
            Err(problem) => read_string(buf@, prefix) == Err::<(Seq<u8>, int), QpackError>(problem),
        },
{
    let (length, used) = match get_int(buf, prefix) {
        Ok(read) => read,
        Err(problem) => {
            return Err(problem);
        },
    };
    if length > (buf.len() - used) as u64 {
        return Err(QpackError::Truncated);
    }
    let end: usize = used + length as usize;
    let raw = vstd::slice::slice_subrange(buf, used, end);
    let huffman_coded = buf[0] as u64 / (prefix_ones(prefix) + 1) % 2 == 1;
    if huffman_coded {
        match huffman::decode(raw) {
            Ok(value) => Ok((value, end)),
            Err(problem) => Err(QpackError::Huffman(problem)),
        }
    } else {
        Ok((vstd::slice::slice_to_vec(raw), end))
    }
}

/// Groups of seven bits read back as the number they were written from, whatever follows.
proof fn lemma_groups_round_trip(value: nat, rest: Seq<u8>, read: int)
    requires
        0 <= read <= 8,
        value < unit_of(9 - read),
    ensures
        read_groups(groups(value) + rest, read) == Ok::<(nat, int), QpackError>(
            (value, groups(value).len() as int),
        ),
    decreases value,
{
    let buf = groups(value) + rest;
    lemma_groups_len(value);
    if value < 128 {
        assert(buf[0] == value);
    } else {
        lemma_unit(8 - read);
        lemma_unit(0);
        assert(unit_of(0) == 1);
        if read == 8 {
            assert(unit_of(1) == 128);
        }
        assert(value / 128 < unit_of(8 - read));
        lemma_groups_round_trip(value / 128, rest, read + 1);
        assert(buf.drop_first() =~= groups(value / 128) + rest);
    }
}

/// A prefixed integer is read back as it was written, whatever follows. Past sixty-three bits
/// beyond its prefix it is written in more groups than are read.
pub proof fn law_int_round_trip(prefix: u32, flags: u8, value: u64, rest: Seq<u8>)
    requires
        1 <= prefix <= 8,
        flags as int % (ones(prefix) + 1) == 0,
        value < ones(prefix) + 0x8000_0000_0000_0000,
    ensures
        read_int(int_bytes(prefix, flags, value) + rest, prefix) == Ok::<(nat, int), QpackError>(
            (value as nat, int_bytes(prefix, flags, value).len() as int),
        ),
        (int_bytes(prefix, flags, value) + rest)[0] == flags + if value < ones(prefix) {
            value as int
        } else {
            ones(prefix)
        },
{
    let bytes = int_bytes(prefix, flags, value);
    let buf = bytes + rest;
    let max = ones(prefix);
    lemma_flags(flags, prefix);
    let low = if value < max {
        value as int
    } else {
        max
    };
    assert(buf[0] == flags + low);
    assert((flags + low) % (max + 1) == low) by {
        vstd::arithmetic::div_mod::lemma_fundamental_div_mod(flags as int, max + 1);
        vstd::arithmetic::div_mod::lemma_mod_multiples_vanish(
            flags as int / (max + 1),
            low,
            max + 1,
        );
        vstd::arithmetic::div_mod::lemma_small_mod(low as nat, (max + 1) as nat);
    }
    if value >= max {
        let high = (value - max) as nat;
        reveal_with_fuel(unit_of, 11);
        assert(unit_of(9) == 0x8000_0000_0000_0000);
        lemma_groups_round_trip(high, rest, 0);
        assert(buf.drop_first() =~= groups(high) + rest);
    }
}

/// A plain string literal is read back as it was written, whatever follows.
pub proof fn law_string_round_trip(value: Seq<u8>, rest: Seq<u8>)
    requires
        value.len() < 0x8000_0000_0000_0000,
    ensures
        read_string(string_bytes(value) + rest, 7) == Ok::<(Seq<u8>, int), QpackError>(
            (value, string_bytes(value).len() as int),
        ),
{
    let head = int_bytes(7, 0, value.len() as u64);
    let buf = string_bytes(value) + rest;
    assert(ones(7) == 127);
    law_int_round_trip(7, 0, value.len() as u64, value + rest);
    assert(buf =~= head + (value + rest));
    assert(buf.subrange(head.len() as int, (head.len() + value.len()) as int) =~= value);
}

proof fn lemma_matches(line: Line, from: int)
    requires
        0 <= from <= 99,
    ensures
        from <= whole_match(line, from) <= 99,
        whole_match(line, from) < 99 ==> static_line(whole_match(line, from)) == line,
        from <= name_match(line.0, from) <= 99,
        name_match(line.0, from) < 99 ==> static_line(name_match(line.0, from)).0 == line.0,
    decreases 99 - from,
{
    if from < 99 {
        lemma_matches(line, from + 1);
    }
}

proof fn lemma_indexed_line(index: int, rest: Seq<u8>)
    requires
        0 <= index < 99,
    ensures
        ({
            let bytes = int_bytes(6, 0b1100_0000, index as u64);
            &&& bytes.len() > 0
            &&& read_line(bytes + rest) == Ok::<(Line, int), QpackError>(
                (static_line(index), bytes.len() as int),
            )
        }),
{
    assert(ones(6) == 63);
    law_int_round_trip(6, 0b1100_0000, index as u64, rest);
}

proof fn lemma_named_line(index: int, value: Seq<u8>, rest: Seq<u8>)
    requires
        0 <= index < 99,
        value.len() < 0x8000_0000_0000_0000,
    ensures
        ({
            let bytes = int_bytes(4, 0b0101_0000, index as u64) + string_bytes(value);
            &&& bytes.len() > 0
            &&& read_line(bytes + rest) == Ok::<(Line, int), QpackError>(
                ((static_line(index).0, value), bytes.len() as int),
            )
        }),
{
    let head = int_bytes(4, 0b0101_0000, index as u64);
    let literal = string_bytes(value);
    let buf = head + literal + rest;
    assert(ones(4) == 15);
    law_int_round_trip(4, 0b0101_0000, index as u64, literal + rest);
    assert(buf =~= head + (literal + rest));
    assert(64 <= buf[0] < 128 && buf[0] as int / 16 % 2 == 1);
    law_string_round_trip(value, rest);
    assert(buf.skip(head.len() as int) =~= literal + rest);
}

proof fn lemma_literal_line(name: Seq<u8>, value: Seq<u8>, rest: Seq<u8>)
    requires
        name.len() < 0x8000_0000_0000_0000,
        value.len() < 0x8000_0000_0000_0000,
    ensures
        ({
            let bytes = int_bytes(3, 0b0010_0000, name.len() as u64) + name + string_bytes(value);
            &&& bytes.len() > 0
            &&& read_line(bytes + rest) == Ok::<(Line, int), QpackError>(
                ((name, value), bytes.len() as int),
            )
        }),
{
    let head = int_bytes(3, 0b0010_0000, name.len() as u64);
    let literal = string_bytes(value);
    let buf = head + name + literal + rest;
    assert(ones(3) == 7);
    law_int_round_trip(3, 0b0010_0000, name.len() as u64, name + (literal + rest));
    assert(buf =~= head + (name + (literal + rest)));
    assert(32 <= buf[0] < 40 && buf[0] as int / 8 % 2 == 0);
    let end = (head.len() + name.len()) as int;
    assert(buf.subrange(head.len() as int, end) =~= name);
    assert(read_string(buf, 3) == Ok::<(Seq<u8>, int), QpackError>((name, end)));
    law_string_round_trip(value, rest);
    assert(buf.skip(end) =~= literal + rest);
}

/// A field line is read back as it was written, whatever follows, in whichever form it was
/// written.
pub proof fn law_line_round_trip(line: Line, rest: Seq<u8>)
    requires
        line_bytes(line).len() < 0x8000_0000_0000_0000,
    ensures
        read_line(line_bytes(line) + rest) == Ok::<(Line, int), QpackError>(
            (line, line_bytes(line).len() as int),
        ),
        line_bytes(line).len() > 0,
{
    let whole = whole_match(line, 0);
    let named = name_match(line.0, 0);
    lemma_matches(line, 0);
    if whole < 99 {
        lemma_indexed_line(whole, rest);
    } else if named < 99 {
        lemma_named_line(named, line.1, rest);
    } else {
        lemma_literal_line(line.0, line.1, rest);
    }
}

proof fn lemma_lines_first(lines: Seq<Line>)
    requires
        lines.len() > 0,
    ensures
        lines_bytes(lines) == line_bytes(lines[0]) + lines_bytes(lines.drop_first()),
    decreases lines.len(),
{
    reveal_with_fuel(lines_bytes, 2);
    if lines.len() == 1 {
        assert(lines.drop_last() =~= Seq::<Line>::empty());
        assert(lines.drop_first() =~= Seq::<Line>::empty());
        assert(lines_bytes(lines) =~= line_bytes(lines[0]));
        assert(line_bytes(lines[0]) + Seq::<u8>::empty() =~= line_bytes(lines[0]));
    } else {
        lemma_lines_first(lines.drop_last());
        assert(lines.drop_last().drop_first() =~= lines.drop_first().drop_last());
        assert(lines_bytes(lines) =~= line_bytes(lines[0]) + lines_bytes(lines.drop_first()));
    }
}

proof fn lemma_lines_round_trip(lines: Seq<Line>)
    requires
        lines_bytes(lines).len() < 0x8000_0000_0000_0000,
    ensures
        read_lines(lines_bytes(lines)) == Ok::<Seq<Line>, QpackError>(lines),
    decreases lines.len(),
{
    if lines.len() == 0 {
        assert(lines =~= Seq::<Line>::empty());
    } else {
        let rest = lines.drop_first();
        lemma_lines_first(lines);
        lemma_lines_round_trip(rest);
        let first = line_bytes(lines[0]);
        law_line_round_trip(lines[0], lines_bytes(rest));
        assert(lines_bytes(lines).skip(first.len() as int) =~= lines_bytes(rest));
        assert(seq![lines[0]] + rest =~= lines);
    }
}

/// A field section reads back as the fields it was written from, byte for byte and in the same
/// order, for every list of fields that [`encode`] can write into an empty buffer.
pub proof fn law_section_round_trip(lines: Seq<Line>)
    requires
        section_bytes(lines).len() <= isize::MAX,
    ensures
        read_section(section_bytes(lines)) == Ok::<Seq<Line>, QpackError>(lines),
{
    let section = section_bytes(lines);
    assert(ones(8) == 255 && ones(7) == 127);
    assert(section[0] == 0 && section[1] == 0);
    assert(section.skip(1).skip(1) =~= lines_bytes(lines));
    lemma_lines_round_trip(lines);
}

/// Whether each name of the static table, from one entry on up to another, has a character.
spec fn all_named(from: int, end: int) -> bool
    decreases end - from,
{
    from >= end || STATIC@[from].0@.len() > 0 && all_named(from + 1, end)
}

proof fn lemma_all_named()
    ensures
        all_named(0, 25),
        all_named(25, 50),
        all_named(50, 75),
        all_named(75, 99),
{
    reveal_strlit(":authority");
    reveal_strlit(":path");
    reveal_strlit("age");
    reveal_strlit("content-disposition");
    reveal_strlit("content-length");
    reveal_strlit("cookie");
    reveal_strlit("date");
    reveal_strlit("etag");
    reveal_strlit("if-modified-since");
    reveal_strlit("if-none-match");
    reveal_strlit("last-modified");
    reveal_strlit("link");
    reveal_strlit("location");
    reveal_strlit("referer");
    reveal_strlit("set-cookie");
    reveal_strlit(":method");
    reveal_strlit(":scheme");
    reveal_strlit(":status");
    reveal_strlit("accept");
    reveal_strlit("accept-encoding");
    reveal_strlit("accept-ranges");
    reveal_strlit("access-control-allow-headers");
    reveal_strlit("access-control-allow-origin");
    reveal_strlit("cache-control");
    reveal_strlit("content-encoding");
    reveal_strlit("content-type");
    reveal_strlit("range");
    reveal_strlit("strict-transport-security");
    reveal_strlit("vary");
    reveal_strlit("x-content-type-options");
    reveal_strlit("x-xss-protection");
    reveal_strlit("accept-language");
    reveal_strlit("access-control-allow-credentials");
    reveal_strlit("access-control-allow-methods");
    reveal_strlit("access-control-expose-headers");
    reveal_strlit("access-control-request-headers");
    reveal_strlit("access-control-request-method");
    reveal_strlit("alt-svc");
    reveal_strlit("authorization");
    reveal_strlit("content-security-policy");
    reveal_strlit("early-data");
    reveal_strlit("expect-ct");
    reveal_strlit("forwarded");
    reveal_strlit("if-range");
    reveal_strlit("origin");
    reveal_strlit("purpose");
    reveal_strlit("server");
    reveal_strlit("timing-allow-origin");
    reveal_strlit("upgrade-insecure-requests");
    reveal_strlit("user-agent");
    reveal_strlit("x-forwarded-for");
    reveal_strlit("x-frame-options");
    reveal_with_fuel(all_named, 26);
}

proof fn lemma_named(index: int, from: int, end: int)
    requires
        all_named(from, end),
        from <= index < end,
    ensures
        STATIC@[index].0@.len() > 0,
    decreases index - from,
{
    if from < index {
        lemma_named(index, from + 1, end);
    }
}

/// No entry of the static table is nameless.
proof fn lemma_static_name(index: int)
    requires
        0 <= index < 99,
    ensures
        static_line(index).0.len() > 0,
{
    lemma_all_named();
    if index < 25 {
        lemma_named(index, 0, 25);
    } else if index < 50 {
        lemma_named(index, 25, 50);
    } else if index < 75 {
        lemma_named(index, 50, 75);
    } else {
        lemma_named(index, 75, 99);
    }
    reveal(static_line);
    let name = STATIC@[index].0@;
    assert(vstd::utf8::encode_scalar(name[0] as u32).len() > 0);
    assert(vstd::utf8::encode_utf8(name).len() > 0);
}

/// Numbers are written in no more groups than they can be read from.
proof fn lemma_groups_fewest(buf: Seq<u8>, read: int)
    ensures
        read_groups(buf, read) matches Ok((value, used)) ==> groups(value).len() <= used,
    decreases buf.len(),
{
    if buf.len() > 0 && read < 9 && buf[0] >= 128 {
        lemma_groups_fewest(buf.drop_first(), read + 1);
        if let Ok((high, used)) = read_groups(buf.drop_first(), read + 1) {
            let value = (buf[0] - 128 + 128 * high) as nat;
            assert(value / 128 == high);
            lemma_groups_len(high);
        }
    }
}

/// A prefixed integer is written in no more bytes than it can be read from.
proof fn lemma_int_fewest(buf: Seq<u8>, prefix: u32, flags: u8)
    ensures
        read_int(buf, prefix) matches Ok((value, used)) ==> (value <= u64::MAX ==> int_bytes(
            prefix,
            flags,
            value as u64,
        ).len() <= used) && 1 <= used <= buf.len(),
{
    if buf.len() > 0 {
        lemma_groups_fewest(buf.drop_first(), 0);
        lemma_groups_used(buf.drop_first(), 0);
    }
}

proof fn lemma_groups_used(buf: Seq<u8>, read: int)
    ensures
        read_groups(buf, read) matches Ok((value, used)) ==> 1 <= used <= buf.len(),
    decreases buf.len(),
{
    if buf.len() > 0 && read < 9 && buf[0] >= 128 {
        lemma_groups_used(buf.drop_first(), read + 1);
    }
}

/// An entry of the static table is referred to in one byte, or in two where the prefix is full.
proof fn lemma_index_len(prefix: u32, flags: u8, index: int)
    requires
        0 <= index < 99,
    ensures
        int_bytes(prefix, flags, index as u64).len() == if index < ones(prefix) {
            1nat
        } else {
            2nat
        },
{
    if index >= ones(prefix) {
        assert(groups((index - ones(prefix)) as nat).len() == 1);
    }
}

/// A plain string is written in no more bytes than it can be read from.
proof fn lemma_string_fewest(buf: Seq<u8>)
    requires
        buf.len() <= u64::MAX,
    ensures
        read_string(buf, 7) matches Ok((value, used)) ==> used >= 1 && (buf[0] < 128 ==> string_bytes(
            value,
        ).len() <= used),
{
    assert(ones(7) == 127);
    lemma_int_fewest(buf, 7, 0);
    if let Ok((length, used)) = read_int(buf, 7) {
        if used + length <= buf.len() && buf[0] < 128 {
            assert(buf[0] as int / 128 % 2 == 0);
            assert(buf.subrange(used, used + length).len() == length);
        }
    }
}

/// The first match is no later than any.
proof fn lemma_first_match(line: Line, from: int, index: int)
    requires
        0 <= from <= index < 99,
    ensures
        static_line(index) == line ==> whole_match(line, from) <= index,
        static_line(index).0 == line.0 ==> name_match(line.0, from) <= index,
    decreases index - from,
{
    if from < index {
        lemma_first_match(line, from + 1, index);
    }
}

/// Whether the field line at the front of `buf` holds no Huffman-coded string.
pub open spec fn is_plain(buf: Seq<u8>) -> bool {
    if buf[0] >= 128 {
        true
    } else if buf[0] >= 64 {
        read_int(buf, 4) matches Ok((_, used)) ==> buf.skip(used)[0] < 128
    } else {
        &&& buf[0] as int / 8 % 2 == 0
        &&& read_string(buf, 3) matches Ok((_, used)) ==> buf.skip(used)[0] < 128
    }
}

/// A field is written in the smallest static-only form that fits it: no plain field line that reads
/// as the same field is shorter.
pub proof fn law_a_field_takes_the_fewest_bytes(buf: Seq<u8>)
    requires
        0 < buf.len() <= u64::MAX,
        is_plain(buf),
    ensures
        read_line(buf) matches Ok((line, used)) ==> line_bytes(line).len() <= used,
{
    if let Ok((line, used)) = read_line(buf) {
        lemma_fewest(buf, line, used);
    }
}

/// A field that the static table has whole is one byte, or two past the entries that one byte can
/// name.
pub proof fn law_a_whole_field_is_a_reference(index: int)
    requires
        0 <= index < 99,
    ensures
        ({
            let line = static_line(index);
            line_bytes(line).len() == if whole_match(line, 0) < 63 {
                1nat
            } else {
                2nat
            }
        }),
        index < 63 ==> line_bytes(static_line(index)).len() == 1,
{
    let line = static_line(index);
    assert(ones(6) == 63);
    lemma_matches(line, 0);
    lemma_first_match(line, 0, index);
    lemma_index_len(6, 0b1100_0000, whole_match(line, 0));
}

proof fn lemma_fewest(buf: Seq<u8>, line: Line, used: int)
    requires
        0 < buf.len() <= u64::MAX,
        is_plain(buf),
        read_line(buf) == Ok::<(Line, int), QpackError>((line, used)),
    ensures
        line_bytes(line).len() <= used,
{
    assert(ones(6) == 63 && ones(4) == 15 && ones(3) == 7 && ones(7) == 127);
    let whole = whole_match(line, 0);
    let named = name_match(line.0, 0);
    lemma_matches(line, 0);
    if whole < 99 {
        lemma_index_len(6, 0b1100_0000, whole);
    }
    if named < 99 {
        lemma_index_len(4, 0b0101_0000, named);
        lemma_static_name(named);
    }
    if buf[0] >= 128 {
        let index = read_int(buf, 6)->Ok_0.0 as int;
        lemma_int_fewest(buf, 6, 0b1100_0000);
        lemma_first_match(line, 0, index);
        lemma_index_len(6, 0b1100_0000, index);
    } else if buf[0] >= 64 {
        let (index, head) = read_int(buf, 4)->Ok_0;
        lemma_int_fewest(buf, 4, 0b0101_0000);
        lemma_first_match(line, 0, index as int);
        lemma_index_len(4, 0b0101_0000, index as int);
        lemma_string_fewest(buf.skip(head));
    } else {
        let (length, head) = read_int(buf, 3)->Ok_0;
        lemma_int_fewest(buf, 3, 0b0010_0000);
        assert(buf.subrange(head, head + length).len() == length);
        lemma_string_fewest(buf.skip(head + length));
    }
}

/// A reference into a dynamic table is refused, whatever follows it.
pub proof fn law_dynamic_references_are_refused(buf: Seq<u8>)
    requires
        buf.len() > 0,
        128 <= buf[0] < 192 || (64 <= buf[0] < 128 && buf[0] as int / 16 % 2 == 0) || buf[0] < 32,
    ensures
        read_lines(buf) == Err::<Seq<Line>, QpackError>(QpackError::Dynamic),
{
}

/// A field section is not much longer than its fields.
pub proof fn lemma_section_len(lines: Seq<Line>, most: nat)
    requires
        most < 0x1_0000_0000,
        forall|i: int|
            0 <= i < lines.len() ==> (#[trigger] lines[i]).0.len() <= most && lines[i].1.len()
                <= most,
    ensures
        section_bytes(lines).len() <= 2 + lines.len() * (2 * most + 22),
    decreases lines.len(),
{
    if lines.len() > 0 {
        let before = lines.drop_last();
        assert(forall|i: int| 0 <= i < before.len() ==> before[i] == #[trigger] lines[i]);
        lemma_section_len(before, most);
        let line = lines[lines.len() - 1];
        lemma_matches(line, 0);
        lemma_int_len(6, 0b1100_0000, whole_match(line, 0) as u64);
        lemma_int_len(4, 0b0101_0000, name_match(line.0, 0) as u64);
        lemma_int_len(3, 0b0010_0000, line.0.len() as u64);
        lemma_int_len(7, 0, line.1.len() as u64);
        assert(line_bytes(line).len() <= 2 * most + 22);
        assert(lines.len() * (2 * most + 22) == before.len() * (2 * most + 22) + (2 * most + 22))
            by (nonlinear_arith)
            requires
                lines.len() == before.len() + 1,
        ;
    }
}

/// A number takes at most eleven bytes.
proof fn lemma_int_len(prefix: u32, flags: u8, value: u64)
    ensures
        int_bytes(prefix, flags, value).len() <= 11,
{
    if value >= ones(prefix) {
        reveal_with_fuel(pow128, 11);
        lemma_groups_most((value - ones(prefix)) as nat, 10);
    }
}

/// 128 multiplied by itself.
spec fn pow128(n: nat) -> nat
    decreases n,
{
    if n == 0 {
        1
    } else {
        pow128((n - 1) as nat) * 128
    }
}

/// A number below 128 to a power takes no more groups than that.
proof fn lemma_groups_most(value: nat, n: nat)
    requires
        n >= 1,
        value < pow128(n),
    ensures
        groups(value).len() <= n,
    decreases n,
{
    if value >= 128 {
        if n == 1 {
            reveal_with_fuel(pow128, 2);
        }
        lemma_groups_most(value / 128, (n - 1) as nat);
    }
}

} // verus!
