//! What is read of a field section, over the bytes it may be written in.

use vstd::arithmetic::power2::{lemma2_to64, pow2};
use vstd::prelude::*;
use crate::transport::huffman::{bits_of, meaning};
use crate::transport::qpack::{
    int_bytes, law_int_round_trip, ones, read_groups, read_int, read_line, read_lines, read_section,
    read_string, static_line, Line, QpackError,
};

verus! {

/// The number that groups of seven bits spell, the least significant first.
pub open spec fn sevens(bytes: Seq<u8>) -> nat
    decreases bytes.len(),
{
    if bytes.len() == 0 {
        0
    } else {
        (bytes[0] % 128) as nat + 128 * sevens(bytes.drop_first())
    }
}

/// A number is what its prefix holds, or, where all bits of that are set, as much and what groups of
/// seven bits behind it spell: up to nine of them, each but the last with its high bit set. The bits
/// above the prefix make no difference. A tenth group is one too many, and a number cut short is none.
pub proof fn law_a_number_is_read(
    prefix: u32,
    first: u8,
    more: Seq<u8>,
    last: u8,
    rest: Seq<u8>,
)
    requires
        1 <= prefix <= 8,
        forall|i: int| 0 <= i < more.len() ==> #[trigger] more[i] >= 128,
        last < 128,
    ensures
        ({
            let full = pow2(prefix as nat) - 1;
            let low = first as int % (full + 1);
            let buf = seq![first] + more + seq![last] + rest;
            &&& low < full ==> read_int(buf, prefix) == Ok::<(nat, int), QpackError>(
                (low as nat, 1int),
            )
            &&& low == full && more.len() <= 8 ==> read_int(buf, prefix) == Ok::<
                (nat, int),
                QpackError,
            >(((full + sevens(more.push(last))) as nat, more.len() as int + 2))
            &&& low == full && more.len() >= 9 ==> read_int(buf, prefix) == Err::<
                (nat, int),
                QpackError,
            >(QpackError::Overflow)
            &&& low == full && more.len() <= 8 ==> read_int(seq![first] + more, prefix) == Err::<
                (nat, int),
                QpackError,
            >(QpackError::Truncated)
        }),
        read_int(Seq::empty(), prefix) == Err::<(nat, int), QpackError>(QpackError::Truncated),
{
    lemma2_to64();
    assert(ones(prefix) == pow2(prefix as nat) - 1);
    let buf = seq![first] + more + seq![last] + rest;
    assert(buf.drop_first() =~= more + seq![last] + rest);
    assert((seq![first] + more).drop_first() =~= more);
    lemma_groups(more, last, rest, 0);
}

proof fn lemma_groups(more: Seq<u8>, last: u8, rest: Seq<u8>, read: int)
    requires
        0 <= read <= 9,
        forall|i: int| 0 <= i < more.len() ==> #[trigger] more[i] >= 128,
        last < 128,
    ensures
        read + more.len() <= 8 ==> read_groups(more + seq![last] + rest, read) == Ok::<
            (nat, int),
            QpackError,
        >((sevens(more.push(last)), more.len() as int + 1)),
        read + more.len() >= 9 ==> read_groups(more + seq![last] + rest, read) == Err::<
            (nat, int),
            QpackError,
        >(QpackError::Overflow),
        read + more.len() <= 8 ==> read_groups(more, read) == Err::<(nat, int), QpackError>(
            QpackError::Truncated,
        ),
    decreases more.len(),
{
    let buf = more + seq![last] + rest;
    reveal_with_fuel(sevens, 2);
    if more.len() == 0 {
        assert(buf[0] == last);
        assert(more.push(last).drop_first() =~= Seq::empty());
    } else {
        let less = more.drop_first();
        assert forall|i: int| 0 <= i < less.len() implies #[trigger] less[i] >= 128 by {
            assert(less[i] == more[i + 1]);
        }
        assert(buf[0] == more[0]);
        assert(more[0] >= 128);
        assert(buf.drop_first() =~= less + seq![last] + rest);
        assert(more.push(last).drop_first() =~= less.push(last));
        if read < 9 {
            lemma_groups(less, last, rest, read + 1);
        }
    }
}

/// A string is as many bytes as its length says, plain, or in Huffman's code where the bit above the
/// length says so; one cut short is none.
pub proof fn law_a_string_is_read(raw: Seq<u8>, rest: Seq<u8>, cut: int)
    requires
        raw.len() < 0x8000_0000_0000_0000,
        0 <= cut < raw.len(),
    ensures
        ({
            let plain = int_bytes(7, 0, raw.len() as u64);
            let coded = int_bytes(7, 0x80, raw.len() as u64);
            &&& read_string(plain + raw + rest, 7) == Ok::<(Seq<u8>, int), QpackError>(
                (raw, (plain.len() + raw.len()) as int),
            )
            &&& read_string(plain + raw.take(cut), 7) == Err::<(Seq<u8>, int), QpackError>(
                QpackError::Truncated,
            )
            &&& match meaning(bits_of(raw)) {
                Ok(value) => read_string(coded + raw + rest, 7) == Ok::<(Seq<u8>, int), QpackError>(
                    (value, (coded.len() + raw.len()) as int),
                ),
                Err(problem) => read_string(coded + raw + rest, 7) == Err::<
                    (Seq<u8>, int),
                    QpackError,
                >(QpackError::Huffman(problem)),
            }
        }),
{
    lemma_string(raw, rest);
    let plain = int_bytes(7, 0, raw.len() as u64);
    law_int_round_trip(7, 0, raw.len() as u64, raw.take(cut));
}

proof fn lemma_string(raw: Seq<u8>, rest: Seq<u8>)
    requires
        raw.len() < 0x8000_0000_0000_0000,
    ensures
        ({
            let plain = int_bytes(7, 0, raw.len() as u64);
            let coded = int_bytes(7, 0x80, raw.len() as u64);
            &&& read_string(plain + raw + rest, 7) == Ok::<(Seq<u8>, int), QpackError>(
                (raw, (plain.len() + raw.len()) as int),
            )
            &&& match meaning(bits_of(raw)) {
                Ok(value) => read_string(coded + raw + rest, 7) == Ok::<(Seq<u8>, int), QpackError>(
                    (value, (coded.len() + raw.len()) as int),
                ),
                Err(problem) => read_string(coded + raw + rest, 7) == Err::<
                    (Seq<u8>, int),
                    QpackError,
                >(QpackError::Huffman(problem)),
            }
        }),
{
    let plain = int_bytes(7, 0, raw.len() as u64);
    let coded = int_bytes(7, 0x80, raw.len() as u64);
    assert(ones(7) == 127);
    law_int_round_trip(7, 0, raw.len() as u64, raw + rest);
    law_int_round_trip(7, 0x80, raw.len() as u64, raw + rest);
    assert(plain + raw + rest =~= plain + (raw + rest));
    assert(coded + raw + rest =~= coded + (raw + rest));
    assert((plain + raw + rest).subrange(plain.len() as int, (plain.len() + raw.len()) as int)
        =~= raw);
    assert((coded + raw + rest).subrange(coded.len() as int, (coded.len() + raw.len()) as int)
        =~= raw);
    assert((plain + raw + rest)[0] < 128);
    assert((coded + raw + rest)[0] >= 128);
}

/// A field line that begins with the bits 11 names an entry of the static table and is that entry;
/// past its 99 entries there is none.
pub proof fn law_a_reference_is_the_entry_it_names(index: u64, rest: Seq<u8>)
    requires
        index < 0x8000_0000_0000_0000,
    ensures
        ({
            let bytes = int_bytes(6, 0xc0, index);
            &&& index < 99 ==> read_line(bytes + rest) == Ok::<(Line, int), QpackError>(
                (static_line(index as int), bytes.len() as int),
            )
            &&& index >= 99 ==> read_line(bytes + rest) == Err::<(Line, int), QpackError>(
                QpackError::UnknownIndex(index),
            )
        }),
        index < 63 ==> int_bytes(6, 0xc0, index) == seq![(0xc0 + index) as u8],
{
    assert(ones(6) == 63);
    law_int_round_trip(6, 0xc0, index, rest);
}

/// A field line that begins with 01 and, two bits on, 1 has its name from the static table and its
/// value as a string behind it, plain or coded, whether it may be stored or not.
pub proof fn law_a_name_may_be_a_reference(index: u64, never: bool, raw: Seq<u8>, rest: Seq<u8>)
    requires
        index < 99,
        raw.len() < 0x8000_0000_0000_0000,
    ensures
        ({
            let head = int_bytes(
                4,
                if never {
                    0x70u8
                } else {
                    0x50u8
                },
                index,
            );
            let plain = int_bytes(7, 0, raw.len() as u64) + raw;
            let coded = int_bytes(7, 0x80, raw.len() as u64) + raw;
            let name = static_line(index as int).0;
            &&& read_line(head + plain + rest) == Ok::<(Line, int), QpackError>(
                ((name, raw), (head.len() + plain.len()) as int),
            )
            &&& meaning(bits_of(raw)) matches Ok(value) ==> read_line(head + coded + rest) == Ok::<
                (Line, int),
                QpackError,
            >(((name, value), (head.len() + coded.len()) as int))
        }),
{
    let flags = if never {
        0x70u8
    } else {
        0x50u8
    };
    lemma_string(raw, rest);
    lemma_referred(flags, index, int_bytes(7, 0, raw.len() as u64) + raw, rest);
    lemma_referred(flags, index, int_bytes(7, 0x80, raw.len() as u64) + raw, rest);
}

proof fn lemma_referred(flags: u8, index: u64, value: Seq<u8>, rest: Seq<u8>)
    requires
        flags == 0x50 || flags == 0x70,
        index < 99,
    ensures
        ({
            let head = int_bytes(4, flags, index);
            match read_string(value + rest, 7) {
                Ok((meant, used)) => read_line(head + value + rest) == Ok::<(Line, int), QpackError>(
                    ((static_line(index as int).0, meant), head.len() + used),
                ),
                Err(problem) => read_line(head + value + rest) == Err::<(Line, int), QpackError>(
                    problem,
                ),
            }
        }),
{
    let head = int_bytes(4, flags, index);
    let buf = head + value + rest;
    assert(ones(4) == 15);
    law_int_round_trip(4, flags, index, value + rest);
    assert(buf =~= head + (value + rest));
    assert(buf.skip(head.len() as int) =~= value + rest);
    assert(64 <= buf[0] < 128 && buf[0] as int / 16 % 2 == 1);
}

/// A field line that begins with 001 has its name as a string, plain or coded, and its value as
/// another behind it, whether it may be stored or not.
pub proof fn law_a_name_may_be_written_out(
    never: bool,
    name: Seq<u8>,
    raw: Seq<u8>,
    rest: Seq<u8>,
)
    requires
        name.len() < 0x8000_0000_0000_0000,
        raw.len() < 0x8000_0000_0000_0000,
    ensures
        ({
            let flags = if never {
                0x30u8
            } else {
                0x20u8
            };
            let head = int_bytes(3, flags, name.len() as u64) + name;
            let coded = int_bytes(3, (flags + 8) as u8, name.len() as u64) + name;
            let value = int_bytes(7, 0, raw.len() as u64) + raw;
            &&& read_line(head + value + rest) == Ok::<(Line, int), QpackError>(
                ((name, raw), (head.len() + value.len()) as int),
            )
            &&& meaning(bits_of(name)) matches Ok(meant) ==> read_line(coded + value + rest) == Ok::<
                (Line, int),
                QpackError,
            >(((meant, raw), (coded.len() + value.len()) as int))
        }),
{
    let flags = if never {
        0x30u8
    } else {
        0x20u8
    };
    let value = int_bytes(7, 0, raw.len() as u64) + raw;
    lemma_string(raw, rest);
    lemma_written_out(flags, name, value, rest);
    lemma_written_out((flags + 8) as u8, name, value, rest);
}

proof fn lemma_written_out(flags: u8, name: Seq<u8>, value: Seq<u8>, rest: Seq<u8>)
    requires
        flags == 0x20 || flags == 0x28 || flags == 0x30 || flags == 0x38,
        name.len() < 0x8000_0000_0000_0000,
    ensures
        ({
            let head = int_bytes(3, flags, name.len() as u64);
            let buf = head + name + value + rest;
            let end = (head.len() + name.len()) as int;
            &&& 32 <= buf[0] < 64
            &&& buf.len() > 0
            &&& flags == 0x20 || flags == 0x30 ==> read_string(buf, 3) == Ok::<
                (Seq<u8>, int),
                QpackError,
            >((name, end))
            &&& flags == 0x28 || flags == 0x38 ==> (meaning(bits_of(name)) matches Ok(meant)
                ==> read_string(buf, 3) == Ok::<(Seq<u8>, int), QpackError>((meant, end)))
            &&& buf.skip(end) == value + rest
        }),
{
    let head = int_bytes(3, flags, name.len() as u64);
    let buf = head + name + value + rest;
    let end = (head.len() + name.len()) as int;
    assert(ones(3) == 7);
    law_int_round_trip(3, flags, name.len() as u64, name + (value + rest));
    assert(buf =~= head + (name + (value + rest)));
    assert(buf.subrange(head.len() as int, end) =~= name);
    assert(buf.skip(end) =~= value + rest);
}

/// A field section that needs nothing stored is the field lines behind its two numbers, whatever the
/// second says; one that needs anything stored is refused.
pub proof fn law_a_section_needs_nothing_stored(base: u8, lines: Seq<u8>, needed: u8)
    requires
        base % 128 != 127,
        1 <= needed < 255,
    ensures
        read_section(seq![0u8, base] + lines) == read_lines(lines),
        read_section(seq![needed, base] + lines) == Err::<Seq<Line>, QpackError>(
            QpackError::Dynamic,
        ),
{
    assert(ones(8) == 255 && ones(7) == 127);
    let section = seq![0u8, base] + lines;
    assert(section[0] == 0);
    assert(section.skip(1)[0] == base);
    assert(section.skip(1).skip(1) =~= lines);
    assert((seq![needed, base] + lines)[0] == needed);
}

/// Field lines are read one behind the other: the first, then the rest; and one that cannot be read
/// makes the section unreadable.
pub proof fn law_lines_are_read_one_behind_the_other(buf: Seq<u8>, line: Line, used: int)
    requires
        buf.len() > 0,
    ensures
        read_lines(Seq::empty()) == Ok::<Seq<Line>, QpackError>(Seq::empty()),
        read_line(buf) == Ok::<(Line, int), QpackError>((line, used)) && 1 <= used <= buf.len()
            ==> match read_lines(buf.skip(used)) {
            Ok(rest) => read_lines(buf) == Ok::<Seq<Line>, QpackError>(seq![line] + rest),
            Err(problem) => read_lines(buf) == Err::<Seq<Line>, QpackError>(problem),
        },
        read_line(buf) matches Err(problem) ==> read_lines(buf) == Err::<Seq<Line>, QpackError>(
            problem,
        ),
{
}

} // verus!
