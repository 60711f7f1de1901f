//! Addresses as they are written: four decimal numbers with dots, or groups of hexadecimal digits
//! with colons, a run of zero groups left out once, and the last two groups as four decimal numbers
//! where the writer likes.

use vstd::prelude::*;
use crate::address::{IpAddr, SocketAddr};
use crate::text::{
    are_digits, chars_of, cut_at, decimal_value, parse_number, split, split_once, text_of, unsigned,
};

verus! {

/// What a digit counts for, in a base of up to sixteen.
pub open spec fn digit_value(c: char) -> int {
    if '0' <= c <= '9' {
        c as int - 48
    } else if 'a' <= c <= 'f' {
        c as int - 87
    } else if 'A' <= c <= 'F' {
        c as int - 55
    } else {
        16
    }
}

/// Whether every character is a digit in a base.
pub open spec fn all_digits(piece: Seq<char>, base: int) -> bool {
    forall|i: int| 0 <= i < piece.len() ==> digit_value(#[trigger] piece[i]) < base
}

/// The number that digits spell in a base.
pub open spec fn spelled(piece: Seq<char>, base: int) -> int
    decreases piece.len(),
{
    if piece.len() == 0 {
        0
    } else {
        spelled(piece.drop_last(), base) * base + digit_value(piece.last())
    }
}

/// One of the four decimal numbers: at most three digits, no zero in front, at most 255.
pub open spec fn octet(piece: Seq<char>) -> Option<int> {
    if 1 <= piece.len() <= 3 && all_digits(piece, 10) && (piece.len() > 1 ==> piece[0] != '0')
        && spelled(piece, 10) <= 255 {
        Some(spelled(piece, 10))
    } else {
        None
    }
}

/// One group: at most four hexadecimal digits.
pub open spec fn group(piece: Seq<char>) -> Option<int> {
    if 1 <= piece.len() <= 4 && all_digits(piece, 16) {
        Some(spelled(piece, 16))
    } else {
        None
    }
}

/// The IPv4 address that a text is.
pub open spec fn v4_written(text: Seq<char>) -> Option<int> {
    let pieces = split(text, '.');
    if pieces.len() == 4 && octet(pieces[0]) is Some && octet(pieces[1]) is Some && octet(pieces[2])
        is Some && octet(pieces[3]) is Some {
        Some(
            octet(pieces[0])->0 * 16777216 + octet(pieces[1])->0 * 65536 + octet(pieces[2])->0 * 256
                + octet(pieces[3])->0,
        )
    } else {
        None
    }
}

/// The groups that pieces are. The last piece may be an IPv4 address, and is then two groups, where
/// `mixed` allows it.
pub open spec fn groups(pieces: Seq<Seq<char>>, mixed: bool) -> Option<Seq<int>>
    decreases pieces.len(),
{
    if pieces.len() == 0 {
        Some(Seq::empty())
    } else {
        match plain_groups(pieces.drop_last()) {
            None => None,
            Some(before) => match group(pieces.last()) {
                Some(value) => Some(before.push(value)),
                None => match v4_written(pieces.last()) {
                    Some(value) if mixed => Some(before.push(value / 65536).push(value % 65536)),
                    _ => None,
                },
            },
        }
    }
}

/// The groups that pieces are, each one group.
pub open spec fn plain_groups(pieces: Seq<Seq<char>>) -> Option<Seq<int>>
    decreases pieces.len(),
{
    if pieces.len() == 0 {
        Some(Seq::empty())
    } else {
        match (plain_groups(pieces.drop_last()), group(pieces.last())) {
            (Some(before), Some(value)) => Some(before.push(value)),
            _ => None,
        }
    }
}

/// The groups a text is, none where it is empty.
pub open spec fn groups_in(text: Seq<char>, mixed: bool) -> Option<Seq<int>> {
    if text.len() == 0 {
        Some(Seq::empty())
    } else {
        groups(split(text, ':'), mixed)
    }
}

/// Where the first double colon is, from a place on.
pub open spec fn gap(text: Seq<char>, from: int) -> Option<int>
    decreases text.len() - from,
{
    if !(0 <= from < text.len() - 1) {
        None
    } else if text[from] == ':' && text[from + 1] == ':' {
        Some(from)
    } else {
        gap(text, from + 1)
    }
}

/// The number that groups spell.
pub open spec fn joined_groups(groups: Seq<int>) -> int
    decreases groups.len(),
{
    if groups.len() == 0 {
        0
    } else {
        joined_groups(groups.drop_last()) * 65536 + groups.last()
    }
}

/// So many zero groups.
pub open spec fn zeros(count: int) -> Seq<int> {
    Seq::new(
        if count > 0 {
            count as nat
        } else {
            0
        },
        |i: int| 0,
    )
}

/// The IPv6 address that a text is: eight groups, or fewer with a double colon for at least one that
/// is zero.
pub open spec fn v6_written(text: Seq<char>) -> Option<int> {
    match gap(text, 0) {
        None => match groups_in(text, true) {
            Some(all) if all.len() == 8 => Some(joined_groups(all)),
            _ => None,
        },
        Some(at) => match (groups_in(text.take(at), false), groups_in(text.skip(at + 2), true)) {
            (Some(head), Some(tail)) if head.len() + tail.len() <= 7 => Some(
                joined_groups(head + zeros(8 - head.len() - tail.len()) + tail),
            ),
            _ => None,
        },
    }
}

/// The address that a text is.
pub open spec fn address_written(text: Seq<char>) -> Option<IpAddr> {
    match v4_written(text) {
        Some(value) => Some(IpAddr::V4(value as u32)),
        None => match v6_written(text) {
            Some(value) => Some(IpAddr::V6(value as u128)),
            None => None,
        },
    }
}

/// Pieces as plain values.
pub open spec fn pieces_of(pieces: Seq<Vec<char>>) -> Seq<Seq<char>> {
    pieces.map_values(|piece: Vec<char>| piece@)
}

/// The parts of a text between the occurrences of a separator.
pub fn split_chars(text: &[char], separator: char) -> (pieces: Vec<Vec<char>>)
    ensures
        pieces_of(pieces@) == split(text@, separator),
        pieces@.len() > 0,
{
    let mut done: Vec<Vec<char>> = Vec::new();
    let mut last: Vec<char> = Vec::new();
    let mut i: usize = 0;
    proof {
        assert(text@.take(0) =~= Seq::empty());
        assert(pieces_of(done@).push(last@) =~= seq![Seq::<char>::empty()]);
    }
    while i < text.len()
        invariant
            i <= text.len(),
            split(text@.take(i as int), separator) == pieces_of(done@).push(last@),
        decreases text.len() - i,
    {
        let ghost before = pieces_of(done@).push(last@);
        assert(text@.take(i + 1).drop_last() =~= text@.take(i as int));
        assert(before.drop_last() =~= pieces_of(done@));
        if text[i] == separator {
            let ghost had = done@;
            done.push(last);
            last = Vec::new();
            assert(pieces_of(done@) =~= before);
            assert(last@ =~= Seq::empty());
        } else {
            last.push(text[i]);
        }
        i += 1;
    }
    assert(text@.take(i as int) =~= text@);
    let ghost whole = pieces_of(done@).push(last@);
    done.push(last);
    assert(pieces_of(done@) =~= whole);
    done
}

/// What a digit counts for, sixteen where it is none.
fn value_of(c: char) -> (value: u32)
    ensures
        value == digit_value(c),
        value <= 16,
{
    if '0' <= c && c <= '9' {
        c as u32 - 48
    } else if 'a' <= c && c <= 'f' {
        c as u32 - 87
    } else if 'A' <= c && c <= 'F' {
        c as u32 - 55
    } else {
        16
    }
}

/// A number of so many digits is below the base to that power.
proof fn lemma_spelled_bound(piece: Seq<char>, base: int)
    requires
        base == 10 || base == 16,
        all_digits(piece, base),
        piece.len() <= 4,
    ensures
        0 <= spelled(piece, base) < 65536,
        piece.len() <= 3 ==> spelled(piece, base) < 4096,
        piece.len() <= 2 ==> spelled(piece, base) < 256,
        piece.len() <= 1 ==> spelled(piece, base) < 16,
        piece.len() == 0 ==> spelled(piece, base) == 0,
    decreases piece.len(),
{
    if piece.len() > 0 {
        assert(all_digits(piece.drop_last(), base)) by {
            assert(forall|i: int|
                0 <= i < piece.len() - 1 ==> piece.drop_last()[i] == #[trigger] piece[i]);
        }
        lemma_spelled_bound(piece.drop_last(), base);
        assert(digit_value(piece[piece.len() - 1]) < base);
    }
}

/// Read at most four digits.
fn read_number(piece: &Vec<char>, base: u32) -> (value: Option<u32>)
    requires
        base == 10 || base == 16,
        piece@.len() <= 4,
    ensures
        match value {
            Some(value) => all_digits(piece@, base as int) && value == spelled(piece@, base as int),
            None => !all_digits(piece@, base as int),
        },
{
    let mut value: u32 = 0;
    let mut i: usize = 0;
    assert(piece@.take(0) =~= Seq::empty());
    while i < piece.len()
        invariant
            i <= piece.len() <= 4,
            base == 10 || base == 16,
            all_digits(piece@.take(i as int), base as int),
            value == spelled(piece@.take(i as int), base as int),
        decreases piece.len() - i,
    {
        let digit = value_of(piece[i]);
        if digit >= base {
            return None;
        }
        proof {
            let next = piece@.take(i + 1);
            assert(next.drop_last() =~= piece@.take(i as int));
            assert(all_digits(next, base as int)) by {
                assert(forall|k: int| 0 <= k < i ==> piece@.take(i as int)[k] == #[trigger] next[k]);
            }
            lemma_spelled_bound(piece@.take(i as int), base as int);
        }
        value = value * base + digit;
        i += 1;
    }
    assert(piece@.take(i as int) =~= piece@);
    Some(value)
}

/// Read one of the four decimal numbers.
fn read_octet(piece: &Vec<char>) -> (value: Option<u32>)
    ensures
        match value {
            Some(value) => octet(piece@) == Some(value as int) && value <= 255,
            None => octet(piece@) is None,
        },
{
    if piece.len() == 0 || piece.len() > 3 || (piece.len() > 1 && piece[0] == '0') {
        return None;
    }
    match read_number(piece, 10) {
        Some(value) if value <= 255 => Some(value),
        _ => None,
    }
}

/// Read one group.
fn read_group(piece: &Vec<char>) -> (value: Option<u32>)
    ensures
        match value {
            Some(value) => group(piece@) == Some(value as int) && value < 65536,
            None => group(piece@) is None,
        },
{
    if piece.len() == 0 || piece.len() > 4 {
        return None;
    }
    let value = read_number(piece, 16);
    proof {
        if value is Some {
            lemma_spelled_bound(piece@, 16);
        }
    }
    value
}

/// Read an IPv4 address.
fn read_v4(text: &[char]) -> (value: Option<u32>)
    ensures
        match value {
            Some(value) => v4_written(text@) == Some(value as int),
            None => v4_written(text@) is None,
        },
{
    let pieces = split_chars(text, '.');
    let ghost plain = pieces_of(pieces@);
    if pieces.len() != 4 {
        return None;
    }
    assert(plain[0] == pieces@[0]@ && plain[1] == pieces@[1]@ && plain[2] == pieces@[2]@ && plain[3]
        == pieces@[3]@);
    match (
        read_octet(&pieces[0]),
        read_octet(&pieces[1]),
        read_octet(&pieces[2]),
        read_octet(&pieces[3]),
    ) {
        (Some(a), Some(b), Some(c), Some(d)) => Some(a * 16777216 + b * 65536 + c * 256 + d),
        _ => None,
    }
}

/// Groups as plain values.
spec fn numbers(groups: Seq<u32>) -> Seq<int> {
    groups.map_values(|value: u32| value as int)
}

/// Each number fits a group.
spec fn all_groups(groups: Seq<u32>) -> bool {
    forall|i: int| 0 <= i < groups.len() ==> (#[trigger] groups[i]) < 65536
}

/// Read the groups that a text is.
fn read_groups(text: &[char], mixed: bool) -> (read: Option<Vec<u32>>)
    ensures
        match read {
            Some(read) => groups_in(text@, mixed) == Some(numbers(read@)) && all_groups(read@),
            None => groups_in(text@, mixed) is None,
        },
{
    let mut out: Vec<u32> = Vec::new();
    assert(numbers(out@) =~= Seq::empty());
    if text.len() == 0 {
        return Some(out);
    }
    let pieces = split_chars(text, ':');
    let ghost plain = pieces_of(pieces@);
    let last: usize = pieces.len() - 1;
    let mut i: usize = 0;
    assert(plain.take(0) =~= Seq::empty());
    assert(plain.drop_last() =~= plain.take(last as int));
    while i < last
        invariant
            i <= last,
            last == pieces.len() - 1,
            plain == pieces_of(pieces@),
            plain_groups(plain.take(i as int)) == Some(numbers(out@)),
            all_groups(out@),
            plain.drop_last() == plain.take(last as int),
            text@.len() > 0,
            split(text@, ':') == plain,
        decreases last - i,
    {
        assert(plain.take(i + 1).drop_last() =~= plain.take(i as int));
        assert(plain.take(i + 1).last() == pieces@[i as int]@);
        match read_group(&pieces[i]) {
            None => {
                proof {
                    lemma_plain_groups_fail(plain, i + 1, last as int);
                }
                return None;
            },
            Some(value) => {
                let ghost had = out@;
                out.push(value);
                assert(numbers(out@) =~= numbers(had).push(value as int));
            },
        }
        i += 1;
    }
    assert(plain.last() == pieces@[last as int]@);
    let ghost had = out@;
    match read_group(&pieces[last]) {
        Some(value) => {
            out.push(value);
            assert(numbers(out@) =~= numbers(had).push(value as int));
            Some(out)
        },
        None => {
            if !mixed {
                return None;
            }
            match read_v4(pieces[last].as_slice()) {
                None => None,
                Some(value) => {
                    out.push(value / 65536);
                    out.push(value % 65536);
                    assert(numbers(out@) =~= numbers(had).push(value as int / 65536).push(
                        value as int % 65536,
                    ));
                    Some(out)
                },
            }
        },
    }
}

/// Pieces that do not start as groups are none.
proof fn lemma_plain_groups_fail(pieces: Seq<Seq<char>>, count: int, last: int)
    requires
        0 <= count <= last <= pieces.len(),
        plain_groups(pieces.take(count)) is None,
    ensures
        plain_groups(pieces.take(last)) is None,
    decreases last - count,
{
    if count < last {
        assert(pieces.take(count + 1).drop_last() =~= pieces.take(count));
        lemma_plain_groups_fail(pieces, count + 1, last);
    }
}

/// Where the first double colon is.
fn find_gap(text: &[char]) -> (at: Option<usize>)
    ensures
        match at {
            Some(at) => gap(text@, 0) == Some(at as int) && at + 1 < text@.len(),
            None => gap(text@, 0) is None,
        },
{
    let mut i: usize = 0;
    while i < text.len() && i + 1 < text.len()
        invariant
            i <= text.len(),
            gap(text@, 0) == gap(text@, i as int),
        decreases text.len() - i,
    {
        if text[i] == ':' && text[i + 1] == ':' {
            return Some(i);
        }
        i += 1;
    }
    None
}

/// 65536 multiplied by itself.
spec fn pow_group(n: nat) -> int
    decreases n,
{
    if n == 0 {
        1
    } else {
        pow_group((n - 1) as nat) * 65536
    }
}

proof fn lemma_joined_bound(groups: Seq<u32>)
    requires
        all_groups(groups),
    ensures
        0 <= joined_groups(numbers(groups)) < pow_group(groups.len()),
    decreases groups.len(),
{
    if groups.len() > 0 {
        let before = groups.drop_last();
        assert(all_groups(before)) by {
            assert(forall|i: int| 0 <= i < before.len() ==> before[i] == #[trigger] groups[i]);
        }
        assert(numbers(groups).drop_last() =~= numbers(before));
        assert(groups[groups.len() - 1] < 65536);
        lemma_joined_bound(before);
    }
}

/// The number that eight groups spell.
fn join(groups: &Vec<u32>) -> (value: u128)
    requires
        groups@.len() == 8,
        all_groups(groups@),
    ensures
        value == joined_groups(numbers(groups@)),
{
    let mut value: u128 = 0;
    let mut i: usize = 0;
    let ghost all = groups@;
    assert(numbers(all.take(0)) =~= Seq::empty());
    while i < groups.len()
        invariant
            all == groups@,
            groups.len() == 8,
            all_groups(all),
            i <= 8,
            value == joined_groups(numbers(all.take(i as int))),
        decreases groups.len() - i,
    {
        proof {
            let next = all.take(i + 1);
            assert(all_groups(next)) by {
                assert(forall|k: int| 0 <= k < next.len() ==> next[k] == #[trigger] all[k]);
            }
            lemma_joined_bound(next);
            assert(numbers(next).drop_last() =~= numbers(all.take(i as int)));
            assert(numbers(next).last() == all[i as int]);
            reveal_with_fuel(pow_group, 9);
        }
        value = value * 65536 + groups[i] as u128;
        i += 1;
    }
    assert(all.take(i as int) =~= all);
    value
}

/// Read an IPv6 address.
fn read_v6(text: &[char]) -> (value: Option<u128>)
    ensures
        match value {
            Some(value) => v6_written(text@) == Some(value as int),
            None => v6_written(text@) is None,
        },
{
    let total: usize = text.len();
    match find_gap(text) {
        None => match read_groups(text, true) {
            Some(all) if all.len() == 8 => Some(join(&all)),
            _ => None,
        },
        Some(at) => {
            let before = vstd::slice::slice_subrange(text, 0, at);
            let behind = vstd::slice::slice_subrange(text, at + 2, total);
            assert(before@ =~= text@.take(at as int));
            assert(behind@ =~= text@.skip(at + 2));
            let head = match read_groups(before, false) {
                Some(head) => head,
                None => return None,
            };
            let tail = match read_groups(behind, true) {
                Some(tail) => tail,
                None => return None,
            };
            if head.len() > 7 || tail.len() > 7 - head.len() {
                return None;
            }
            let mut all = head;
            let ghost front = head@;
            let left: usize = 8 - tail.len();
            while all.len() < left
                invariant
                    front.len() <= all.len() <= left <= 8,
                    all_groups(all@),
                    numbers(all@) == numbers(front) + zeros(all.len() - front.len()),
                decreases left - all.len(),
            {
                let ghost had = all@;
                all.push(0);
                proof {
                    let count = had.len() - front.len();
                    assert(numbers(all@) =~= numbers(had).push(0));
                    assert(zeros(count + 1) =~= zeros(count).push(0));
                    assert(numbers(all@) =~= numbers(front) + zeros(count + 1));
                }
            }
            let ghost padded = all@;
            let mut i: usize = 0;
            while i < tail.len()
                invariant
                    i <= tail.len(),
                    all_groups(tail@),
                    all_groups(all@),
                    all@ == padded + tail@.take(i as int),
                decreases tail.len() - i,
            {
                all.push(tail[i]);
                assert(all@ =~= padded + tail@.take(i + 1));
                i += 1;
            }
            assert(tail@.take(i as int) =~= tail@);
            assert(numbers(all@) =~= numbers(front) + zeros(8 - front.len() - tail.len()) + numbers(
                tail@,
            ));
            Some(join(&all))
        },
    }
}

/// Read an address as it is written.
pub fn parse(text: &str) -> (address: Option<IpAddr>)
    ensures
        address == address_written(text@),
{
    let chars = chars_of(text);
    match read_v4(chars.as_slice()) {
        Some(value) => Some(IpAddr::V4(value)),
        None => match read_v6(chars.as_slice()) {
            Some(value) => Some(IpAddr::V6(value)),
            None => None,
        },
    }
}

/// The port that a text is: decimal digits alone, at most 65535.
pub open spec fn port_written(text: Seq<char>) -> Option<int> {
    if text.len() > 0 && are_digits(text) && decimal_value(text) <= 65535 {
        Some(decimal_value(text))
    } else {
        None
    }
}

/// The IPv6 address that stands in brackets: with a zone behind it, which is a number, or without.
pub open spec fn zoned_written(text: Seq<char>) -> Option<int> {
    match split_once(text, '%') {
        None => v6_written(text),
        Some((address, zone)) => if zone.len() > 0 && are_digits(zone) && decimal_value(zone)
            <= u32::MAX {
            v6_written(address)
        } else {
            None
        },
    }
}

/// The address and port that a text is: `address:port`, or `[address]:port`.
pub open spec fn socket_written(text: Seq<char>) -> Option<SocketAddr> {
    if text.len() > 0 && text[0] == '[' {
        match split_once(text.skip(1), ']') {
            None => None,
            Some((address, behind)) => if behind.len() == 0 || behind[0] != ':' {
                None
            } else {
                match (zoned_written(address), port_written(behind.skip(1))) {
                    (Some(address), Some(port)) => Some(
                        SocketAddr { ip: IpAddr::V6(address as u128), port: port as u16 },
                    ),
                    _ => None,
                }
            },
        }
    } else {
        match split_once(text, ':') {
            None => None,
            Some((address, port)) => match (v4_written(address), port_written(port)) {
                (Some(address), Some(port)) => Some(
                    SocketAddr { ip: IpAddr::V4(address as u32), port: port as u16 },
                ),
                _ => None,
            },
        }
    }
}

/// Read a number written in decimal digits alone.
fn parse_digits(text: &str, bound: u64) -> (value: Option<u64>)
    ensures
        match value {
            Some(value) => text@.len() > 0 && are_digits(text@) && value == decimal_value(text@)
                && value <= bound,
            None => !(text@.len() > 0 && are_digits(text@) && decimal_value(text@) <= bound),
        },
{
    let chars = chars_of(text);
    if chars.len() > 0 && chars[0] == '+' {
        assert(!are_digits(text@));
        return None;
    }
    assert(unsigned(text@) == text@);
    parse_number(text, bound)
}

/// Read an address and a port as they are written.
pub fn parse_socket(text: &str) -> (socket: Option<SocketAddr>)
    ensures
        socket == socket_written(text@),
{
    let chars = chars_of(text);
    if chars.len() > 0 && chars[0] == '[' {
        let rest = vstd::slice::slice_subrange(chars.as_slice(), 1, chars.len());
        assert(rest@ =~= text@.skip(1));
        let rest = text_of(rest);
        let (address, behind) = match cut_at(rest.as_str(), ']') {
            None => return None,
            Some(parts) => parts,
        };
        let behind = chars_of(behind.as_str());
        if behind.len() == 0 || behind[0] != ':' {
            return None;
        }
        let port = vstd::slice::slice_subrange(behind.as_slice(), 1, behind.len());
        assert(port@ =~= behind@.skip(1));
        let port = text_of(port);
        let ip = match cut_at(address.as_str(), '%') {
            None => read_v6(chars_of(address.as_str()).as_slice()),
            Some((address, zone)) => match parse_digits(zone.as_str(), u32::MAX as u64) {
                None => None,
                Some(_) => read_v6(chars_of(address.as_str()).as_slice()),
            },
        };
        match (ip, parse_digits(port.as_str(), 65535)) {
            (Some(ip), Some(port)) => Some(SocketAddr { ip: IpAddr::V6(ip), port: port as u16 }),
            _ => None,
        }
    } else {
        match cut_at(text, ':') {
            None => None,
            Some((address, port)) => match (
                read_v4(chars_of(address.as_str()).as_slice()),
                parse_digits(port.as_str(), 65535),
            ) {
                (Some(ip), Some(port)) => Some(
                    SocketAddr { ip: IpAddr::V4(ip), port: port as u16 },
                ),
                _ => None,
            },
        }
    }
}

} // verus!
