//! What is shown of an address is read back, and what is read is written that way.

use vstd::prelude::*;
use crate::address::shown::{
    group_unit, groups_of, groups_shown, hex_digit, hex_digits, is_mapped, longest_run, shown,
    socket_shown, v4_shown, v6_shown, zero_run,
};
use crate::address::written::{
    address_written, all_digits, digit_value, gap, group, groups_in, joined_groups, octet,
    plain_groups, socket_written, spelled, v4_written, v6_written, zeros,
};
use crate::address::{IpAddr, SocketAddr};
use crate::text::laws::{
    free_of, law_a_text_is_its_pieces, law_a_text_is_split_where_it_was_joined,
    law_the_first_separator_splits, lemma_digits, lemma_split_strung, strung,
};
use crate::text::{are_digits, decimal_value, digits, split, split_once};

verus! {

// ── four decimal numbers ────────────────────────────────────────────────────────────────────────

proof fn lemma_decimal(piece: Seq<char>)
    ensures
        all_digits(piece, 10) <==> are_digits(piece),
        are_digits(piece) ==> spelled(piece, 10) == decimal_value(piece),
    decreases piece.len(),
{
    assert(all_digits(piece, 10) ==> are_digits(piece)) by {
        if all_digits(piece, 10) {
            assert forall|i: int| 0 <= i < piece.len() implies '0' <= #[trigger] piece[i]
                && piece[i] <= '9' by {
                assert(digit_value(piece[i]) < 10);
            }
        }
    }
    if piece.len() > 0 {
        let before = piece.drop_last();
        lemma_decimal(before);
        if are_digits(piece) {
            assert(are_digits(before)) by {
                assert(forall|i: int| 0 <= i < before.len() ==> before[i] == #[trigger] piece[i]);
            }
            assert('0' <= piece[piece.len() - 1] && piece[piece.len() - 1] <= '9');
        }
    }
}

/// Digits without a zero in front are those of the number they spell.
proof fn lemma_canonical(piece: Seq<char>)
    requires
        piece.len() > 0,
        are_digits(piece),
        piece.len() > 1 ==> piece[0] != '0',
    ensures
        decimal_value(piece) >= 0,
        piece[0] != '0' ==> decimal_value(piece) > 0,
        digits(decimal_value(piece) as nat) == piece,
    decreases piece.len(),
{
    let last = piece.last();
    assert('0' <= piece[piece.len() - 1] && piece[piece.len() - 1] <= '9');
    let before = piece.drop_last();
    if piece.len() == 1 {
        assert(before =~= Seq::empty());
        reveal_with_fuel(decimal_value, 2);
        assert(decimal_value(piece) == last as int - 48);
        assert(digits(decimal_value(piece) as nat) =~= piece);
    } else {
        assert(are_digits(before)) by {
            assert(forall|i: int| 0 <= i < before.len() ==> before[i] == #[trigger] piece[i]);
        }
        assert(before[0] == piece[0]);
        lemma_canonical(before);
        let n = decimal_value(piece);
        assert(n / 10 == decimal_value(before) && n % 10 == last as int - 48);
        assert(digits(n as nat) =~= piece);
    }
}

proof fn lemma_octet(piece: Seq<char>, n: nat)
    ensures
        octet(piece) matches Some(value) ==> 0 <= value <= 255 && piece == digits(value as nat),
        n <= 255 ==> octet(digits(n)) == Some(n as int),
{
    lemma_decimal(piece);
    if octet(piece) is Some {
        lemma_canonical(piece);
    }
    lemma_digits(n);
    lemma_decimal(digits(n));
}

proof fn lemma_digits_free(n: nat, c: char)
    requires
        !('0' <= c <= '9'),
    ensures
        free_of(digits(n), c),
{
    lemma_digits(n);
}

spec fn quad_of(a: nat, b: nat, c: nat, d: nat) -> Seq<Seq<char>> {
    seq![digits(a), digits(b), digits(c), digits(d)]
}

proof fn lemma_quad(a: nat, b: nat, c: nat, d: nat)
    ensures
        strung(quad_of(a, b, c, d), '.') == digits(a) + seq!['.'] + digits(b) + seq!['.'] + digits(c)
            + seq!['.'] + digits(d),
        split(strung(quad_of(a, b, c, d), '.'), '.') == quad_of(a, b, c, d),
{
    let all = quad_of(a, b, c, d);
    lemma_digits_free(a, '.');
    lemma_digits_free(b, '.');
    lemma_digits_free(c, '.');
    lemma_digits_free(d, '.');
    lemma_split_strung(all, '.');
    reveal_with_fuel(strung, 4);
    assert(all.drop_last() =~= seq![digits(a), digits(b), digits(c)]);
    assert(seq![digits(a), digits(b), digits(c)].drop_last() =~= seq![digits(a), digits(b)]);
    assert(seq![digits(a), digits(b)].drop_last() =~= seq![digits(a)]);
}

/// Four decimal numbers of 0 to 255 with dots between are the address whose bytes they are.
pub proof fn law_four_numbers_are_an_address(a: u8, b: u8, c: u8, d: u8)
    ensures
        address_written(
            digits(a as nat) + seq!['.'] + digits(b as nat) + seq!['.'] + digits(c as nat) + seq!['.']
                + digits(d as nat),
        ) == Some(IpAddr::V4((((a * 256 + b) * 256 + c) * 256 + d) as u32)),
{
    lemma_quad(a as nat, b as nat, c as nat, d as nat);
    lemma_octet(Seq::empty(), a as nat);
    lemma_octet(Seq::empty(), b as nat);
    lemma_octet(Seq::empty(), c as nat);
    lemma_octet(Seq::empty(), d as nat);
}

/// An IPv4 address is written in one way: what is read as one is what it is shown as, no zero in front
/// of a number, nothing around it.
pub proof fn law_an_ipv4_address_is_written_one_way(text: Seq<char>)
    ensures
        v4_written(text) matches Some(value) ==> 0 <= value <= 0xffff_ffff && text == v4_shown(
            value as u32,
        ),
{
    if v4_written(text) is Some {
        let pieces = split(text, '.');
        law_a_text_is_its_pieces(text, pieces, '.');
        lemma_octet(pieces[0], 0);
        lemma_octet(pieces[1], 0);
        lemma_octet(pieces[2], 0);
        lemma_octet(pieces[3], 0);
        let a = octet(pieces[0])->0;
        let b = octet(pieces[1])->0;
        let c = octet(pieces[2])->0;
        let d = octet(pieces[3])->0;
        assert(pieces =~= quad_of(a as nat, b as nat, c as nat, d as nat));
        lemma_one_way(a, b, c, d);
    }
}

proof fn lemma_one_way(a: int, b: int, c: int, d: int)
    requires
        0 <= a <= 255,
        0 <= b <= 255,
        0 <= c <= 255,
        0 <= d <= 255,
    ensures
        ({
            let value = a * 16777216 + b * 65536 + c * 256 + d;
            &&& 0 <= value <= 0xffff_ffff
            &&& strung(quad_of(a as nat, b as nat, c as nat, d as nat), '.') == v4_shown(
                value as u32,
            )
        }),
{
    let value = (a * 16777216 + b * 65536 + c * 256 + d) as u32;
    assert(value / 16777216 == a);
    assert(value / 65536 == a * 256 + b);
    assert(value / 256 == a * 65536 + b * 256 + c);
    assert(value / 65536 % 256 == b);
    assert(value / 256 % 256 == c);
    assert(value % 256 == d);
    lemma_quad(a as nat, b as nat, c as nat, d as nat);
    reveal_strlit(".");
    assert("."@ =~= seq!['.']);
}

proof fn lemma_quad_chars(a: nat, b: nat, c: nat, d: nat)
    ensures
        ({
            let text = digits(a) + seq!['.'] + digits(b) + seq!['.'] + digits(c) + seq!['.']
                + digits(d);
            &&& forall|i: int|
                0 <= i < text.len() ==> '0' <= #[trigger] text[i] <= '9' || text[i] == '.'
            &&& text.len() > 0
            &&& '0' <= text[0] <= '9'
            &&& text[digits(a).len() as int] == '.'
            &&& digits(a).len() < text.len()
        }),
{
    lemma_digits(a);
    lemma_digits(b);
    lemma_digits(c);
    lemma_digits(d);
    let one = digits(a) + seq!['.'];
    assert(forall|i: int| 0 <= i < one.len() ==> '0' <= #[trigger] one[i] <= '9' || one[i] == '.');
    let two = one + digits(b) + seq!['.'];
    assert(forall|i: int| 0 <= i < two.len() ==> '0' <= #[trigger] two[i] <= '9' || two[i] == '.');
    let three = two + digits(c) + seq!['.'];
    assert(forall|i: int|
        0 <= i < three.len() ==> '0' <= #[trigger] three[i] <= '9' || three[i] == '.');
}

pub proof fn lemma_v4_shown(address: u32)
    ensures
        v4_written(v4_shown(address)) == Some(address as int),
        forall|i: int|
            0 <= i < v4_shown(address).len() ==> '0' <= #[trigger] v4_shown(address)[i] <= '9'
                || v4_shown(address)[i] == '.',
        v4_shown(address).len() > 0,
        '0' <= v4_shown(address)[0] <= '9',
        !free_of(v4_shown(address), '.'),
{
    let a = (address / 16777216) as nat;
    let b = (address / 65536 % 256) as nat;
    let c = (address / 256 % 256) as nat;
    let d = (address % 256) as nat;
    reveal_strlit(".");
    assert("."@ =~= seq!['.']);
    let text = v4_shown(address);
    assert(text == digits(a) + seq!['.'] + digits(b) + seq!['.'] + digits(c) + seq!['.'] + digits(d));
    lemma_quad_chars(a, b, c, d);
    assert(v4_written(text) == Some(address as int)) by {
        lemma_quad(a, b, c, d);
        lemma_octet(Seq::empty(), a);
        lemma_octet(Seq::empty(), b);
        lemma_octet(Seq::empty(), c);
        lemma_octet(Seq::empty(), d);
        assert(a <= 255);
        assert(a * 16777216 + b * 65536 + c * 256 + d == address);
    }
}

// ── groups of hexadecimal digits ────────────────────────────────────────────────────────────────

proof fn lemma_hex_digit(n: nat)
    requires
        n < 16,
    ensures
        digit_value(hex_digit(n)) == n,
        '0' <= hex_digit(n) <= '9' || 'a' <= hex_digit(n) <= 'f',
{
}

pub proof fn lemma_hex_digits(n: nat)
    ensures
        hex_digits(n).len() > 0,
        all_digits(hex_digits(n), 16),
        spelled(hex_digits(n), 16) == n,
        n < 16 ==> hex_digits(n).len() == 1,
        n < 256 ==> hex_digits(n).len() <= 2,
        n < 4096 ==> hex_digits(n).len() <= 3,
        n < 65536 ==> hex_digits(n).len() <= 4,
        forall|i: int|
            0 <= i < hex_digits(n).len() ==> '0' <= #[trigger] hex_digits(n)[i] <= '9' || 'a'
                <= hex_digits(n)[i] <= 'f',
    decreases n,
{
    reveal_with_fuel(spelled, 2);
    if n < 16 {
        lemma_hex_digit(n);
        assert(hex_digits(n).drop_last() =~= Seq::empty());
    } else {
        lemma_hex_digits(n / 16);
        lemma_hex_digit(n % 16);
        let before = hex_digits(n / 16);
        let all = hex_digits(n);
        assert(all.drop_last() =~= before);
        assert forall|i: int| 0 <= i < all.len() implies digit_value(#[trigger] all[i]) < 16 by {
            if i < before.len() {
                assert(all[i] == before[i]);
                assert(digit_value(before[i]) < 16);
            }
        }
        assert forall|i: int| 0 <= i < all.len() implies '0' <= #[trigger] all[i] <= '9' || 'a'
            <= all[i] <= 'f' by {
            if i < before.len() {
                assert(all[i] == before[i]);
            }
        }
    }
}

/// A number in hexadecimal is what its digits spell, and takes at most four where it fits a group.
pub proof fn law_a_group_is_read_back(n: u16)
    ensures
        group(hex_digits(n as nat)) == Some(n as int),
{
    lemma_hex_digits(n as nat);
}

spec fn hexes(groups: Seq<u16>) -> Seq<Seq<char>> {
    groups.map_values(|group: u16| hex_digits(group as nat))
}

spec fn values(groups: Seq<u16>) -> Seq<int> {
    groups.map_values(|group: u16| group as int)
}

spec fn no_double(text: Seq<char>) -> bool {
    forall|i: int|
        0 <= i < text.len() - 1 ==> !(#[trigger] text[i] == ':' && text[i + 1] == ':')
}

spec fn written_char(c: char) -> bool {
    ('0' <= c <= '9') || ('a' <= c <= 'f') || c == ':' || c == '.'
}

spec fn all_written(text: Seq<char>) -> bool {
    forall|i: int| 0 <= i < text.len() ==> written_char(#[trigger] text[i])
}

proof fn lemma_groups_shown(gs: Seq<u16>)
    ensures
        gs.len() > 0 ==> groups_shown(gs) == strung(hexes(gs), ':'),
        gs.len() == 0 ==> groups_shown(gs).len() == 0,
        gs.len() > 0 ==> groups_shown(gs).len() > 0 && groups_shown(gs)[0] != ':' && groups_shown(
            gs,
        ).last() != ':',
        no_double(groups_shown(gs)),
        all_written(groups_shown(gs)),
        gs.len() > 1 ==> !free_of(groups_shown(gs), ':'),
    decreases gs.len(),
{
    reveal_strlit(":");
    assert(":"@ =~= seq![':']);
    if gs.len() == 1 {
        lemma_hex_digits(gs[0] as nat);
        assert(hexes(gs)[0] == hex_digits(gs[0] as nat));
    } else if gs.len() > 1 {
        let before = gs.drop_last();
        lemma_groups_shown(before);
        lemma_hex_digits(gs.last() as nat);
        assert(hexes(gs).drop_last() =~= hexes(before));
        let text = groups_shown(gs);
        let front = groups_shown(before);
        let last = hex_digits(gs.last() as nat);
        assert(text =~= front + seq![':'] + last);
        assert forall|i: int| 0 <= i < text.len() - 1 implies !(#[trigger] text[i] == ':' && text[i
            + 1] == ':') by {
            if i + 1 < front.len() {
                assert(text[i] == front[i] && text[i + 1] == front[i + 1]);
            } else if i + 1 == front.len() {
                assert(text[i] == front.last());
            } else {
                assert(text[i + 1] == last[i + 1 - front.len() - 1]);
            }
        }
        assert forall|i: int| 0 <= i < text.len() implies written_char(#[trigger] text[i]) by {
            if i < front.len() {
                assert(text[i] == front[i]);
            } else if i > front.len() {
                assert(text[i] == last[i - front.len() - 1]);
            }
        }
        assert(text.last() == last[last.len() - 1]);
        assert(text[0] == front[0]);
        assert(text[front.len() as int] == ':');
    }
}

proof fn lemma_plain_groups(gs: Seq<u16>)
    ensures
        plain_groups(hexes(gs)) == Some(values(gs)),
    decreases gs.len(),
{
    if gs.len() > 0 {
        let before = gs.drop_last();
        lemma_plain_groups(before);
        law_a_group_is_read_back(gs.last());
        assert(hexes(gs).drop_last() =~= hexes(before));
        assert(hexes(gs).last() == hex_digits(gs.last() as nat));
        assert(values(gs) =~= values(before).push(gs.last() as int));
    } else {
        assert(values(gs) =~= Seq::empty());
    }
}

proof fn lemma_groups_in(gs: Seq<u16>, mixed: bool)
    ensures
        groups_in(groups_shown(gs), mixed) == Some(values(gs)),
{
    lemma_groups_shown(gs);
    if gs.len() > 0 {
        let pieces = hexes(gs);
        assert forall|i: int| 0 <= i < pieces.len() implies free_of(#[trigger] pieces[i], ':') by {
            lemma_hex_digits(gs[i] as nat);
        }
        lemma_split_strung(pieces, ':');
        lemma_plain_groups(gs.drop_last());
        law_a_group_is_read_back(gs.last());
        assert(pieces.drop_last() =~= hexes(gs.drop_last()));
        assert(pieces.last() == hex_digits(gs.last() as nat));
        assert(values(gs) =~= values(gs.drop_last()).push(gs.last() as int));
    } else {
        assert(values(gs) =~= Seq::empty());
    }
}

proof fn lemma_no_gap(text: Seq<char>, from: int)
    requires
        no_double(text),
        0 <= from,
    ensures
        gap(text, from) is None,
    decreases text.len() - from,
{
    if from < text.len() - 1 {
        assert(!(text[from] == ':' && text[from + 1] == ':'));
        lemma_no_gap(text, from + 1);
    }
}

proof fn lemma_gap_at(front: Seq<char>, back: Seq<char>, from: int)
    requires
        no_double(front),
        front.len() > 0 ==> front.last() != ':',
        0 <= from <= front.len(),
    ensures
        gap(front + seq![':', ':'] + back, from) == Some(front.len() as int),
    decreases front.len() - from,
{
    let text = front + seq![':', ':'] + back;
    let at = front.len() as int;
    assert(text[at] == ':' && text[at + 1] == ':');
    if from < at {
        assert(text[from] == front[from]);
        if from + 1 < at {
            assert(text[from + 1] == front[from + 1]);
        } else {
            assert(front[from] == front.last());
        }
        lemma_gap_at(front, back, from + 1);
    }
}

proof fn lemma_zero_run(gs: Seq<u16>, at: int)
    requires
        0 <= at <= gs.len(),
    ensures
        0 <= zero_run(gs, at) <= gs.len() - at,
        forall|i: int| at <= i < at + zero_run(gs, at) ==> #[trigger] gs[i] == 0,
    decreases gs.len() - at,
{
    if at < gs.len() && gs[at] == 0 {
        lemma_zero_run(gs, at + 1);
    }
}

proof fn lemma_longest_run(gs: Seq<u16>, from: int)
    requires
        0 <= from <= gs.len(),
    ensures
        ({
            let (start, len) = longest_run(gs, from);
            &&& from <= start <= start + len <= gs.len()
            &&& forall|i: int| start <= i < start + len ==> #[trigger] gs[i] == 0
            &&& forall|at: int| from <= at < gs.len() ==> #[trigger] zero_run(gs, at) <= len
            &&& forall|at: int| from <= at < start ==> #[trigger] zero_run(gs, at) < len
        }),
    decreases gs.len() - from,
{
    if from < gs.len() {
        lemma_longest_run(gs, from + 1);
        lemma_zero_run(gs, from);
    }
}

/// What is left out of an IPv6 address is its longest run of zero groups, the first of those that are
/// as long, and all of it: every run is no longer, and every earlier one is shorter.
pub proof fn law_the_longest_run_of_zeros_is_left_out(gs: Seq<u16>, at: int, len: int)
    requires
        0 <= at <= at + len <= gs.len(),
        forall|i: int| at <= i < at + len ==> #[trigger] gs[i] == 0,
    ensures
        ({
            let (start, longest) = longest_run(gs, 0);
            &&& len <= longest
            &&& at < start ==> len < longest
            &&& 0 <= start <= start + longest <= gs.len()
            &&& forall|i: int| start <= i < start + longest ==> #[trigger] gs[i] == 0
        }),
{
    lemma_longest_run(gs, 0);
    lemma_run_reaches(gs, at, len);
}

proof fn lemma_run_reaches(gs: Seq<u16>, at: int, len: int)
    requires
        0 <= at <= at + len <= gs.len(),
        forall|i: int| at <= i < at + len ==> #[trigger] gs[i] == 0,
    ensures
        zero_run(gs, at) >= len,
    decreases len,
{
    lemma_zero_run(gs, at);
    if len > 0 {
        assert(gs[at] == 0);
        lemma_run_reaches(gs, at + 1, len - 1);
    }
}

proof fn lemma_unit(n: nat)
    ensures
        group_unit(n) > 0,
    decreases n,
{
    if n > 0 {
        lemma_unit((n - 1) as nat);
    }
}

proof fn lemma_joined(address: u128, count: nat)
    requires
        count <= 8,
    ensures
        joined_groups(values(groups_of(address).take(count as int))) == address as nat / group_unit(
            (8 - count) as nat,
        ),
    decreases count,
{
    let some = groups_of(address).take(count as int);
    lemma_unit((8 - count) as nat);
    if count == 0 {
        assert(values(some) =~= Seq::empty());
        assert(group_unit(8) == 0x1_0000_0000_0000_0000_0000_0000_0000_0000) by {
            reveal_with_fuel(group_unit, 9);
        }
        vstd::arithmetic::div_mod::lemma_basic_div(address as int, group_unit(8) as int);
    } else {
        let less = (count - 1) as nat;
        lemma_joined(address, less);
        let before = groups_of(address).take(less as int);
        assert(values(some).drop_last() =~= values(before));
        let unit = group_unit((8 - count) as nat);
        assert(group_unit((8 - less) as nat) == unit * 65536);
        vstd::arithmetic::div_mod::lemma_div_denominator(address as int, unit as int, 65536);
        assert((7 - less) as nat == (8 - count) as nat);
        assert(some[less as int] == groups_of(address)[less as int]);
        assert(groups_of(address)[less as int] as nat == (address as nat / unit) % 65536);
        assert(values(some).last() == (address as nat / unit) % 65536);
    }
}

proof fn lemma_groups_join(address: u128)
    ensures
        joined_groups(values(groups_of(address))) == address,
        groups_of(address).len() == 8,
{
    lemma_joined(address, 8);
    assert(groups_of(address).take(8) =~= groups_of(address));
    let one = group_unit(0);
    assert(address as nat / one == address as nat) by (nonlinear_arith)
        requires
            one == 1,
    ;
}

proof fn lemma_shortened(gs: Seq<u16>, start: int, len: int)
    requires
        gs.len() == 8,
        0 <= start <= start + len <= 8,
        len > 1,
        forall|i: int| start <= i < start + len ==> #[trigger] gs[i] == 0,
    ensures
        ({
            let text = groups_shown(gs.take(start)) + seq![':', ':'] + groups_shown(
                gs.skip(start + len),
            );
            &&& v6_written(text) == Some(joined_groups(values(gs)))
            &&& all_written(text)
            &&& !free_of(text, ':')
        }),
{
    let head = gs.take(start);
    let tail = gs.skip(start + len);
    let front = groups_shown(head);
    let back = groups_shown(tail);
    let text = front + seq![':', ':'] + back;
    lemma_groups_shown(head);
    lemma_groups_shown(tail);
    assert(v6_written(text) == Some(joined_groups(values(gs)))) by {
        lemma_groups_in(head, false);
        lemma_groups_in(tail, true);
        lemma_gap_at(front, back, 0);
        assert(text.take(front.len() as int) =~= front);
        assert(text.skip(front.len() as int + 2) =~= back);
        assert(values(head).len() == start && values(tail).len() == 8 - start - len);
        let all = values(head) + zeros(len) + values(tail);
        assert(values(gs) =~= all) by {
            assert forall|i: int| 0 <= i < 8 implies values(gs)[i] == all[i] by {
                if i < start {
                    assert(head[i] == gs[i]);
                } else if i < start + len {
                    assert(gs[i] == 0);
                } else {
                    assert(tail[i - start - len] == gs[i]);
                }
            }
        }
    }
    assert forall|i: int| 0 <= i < text.len() implies written_char(#[trigger] text[i]) by {
        if i < front.len() {
            assert(text[i] == front[i]);
        } else if i >= front.len() + 2 {
            assert(text[i] == back[i - front.len() - 2]);
        }
    }
    assert(text[front.len() as int] == ':');
}

proof fn lemma_v6_shown(address: u128)
    ensures
        v6_written(v6_shown(address)) == Some(address as int),
        all_written(v6_shown(address)),
        !free_of(v6_shown(address), ':'),
{
    let text = v6_shown(address);
    reveal_strlit("::");
    assert("::"@ =~= seq![':', ':']);
    if is_mapped(address) {
        lemma_mapped(address);
    } else {
        let gs = groups_of(address);
        let (start, len) = longest_run(gs, 0);
        lemma_longest_run(gs, 0);
        lemma_groups_join(address);
        if len > 1 {
            lemma_shortened(gs, start, len);
            assert(text =~= groups_shown(gs.take(start)) + seq![':', ':'] + groups_shown(
                gs.skip(start + len),
            ));
        } else {
            lemma_groups_shown(gs);
            lemma_groups_in(gs, true);
            lemma_no_gap(text, 0);
            assert(values(gs).len() == 8);
        }
    }
}

proof fn lemma_ffff()
    ensures
        group(seq!['f', 'f', 'f', 'f']) == Some(0xffffint),
        plain_groups(seq![seq!['f', 'f', 'f', 'f']]) == Some(seq![0xffffint]),
{
    let ffff = seq!['f', 'f', 'f', 'f'];
    reveal_with_fuel(spelled, 5);
    assert(ffff.drop_last() =~= seq!['f', 'f', 'f']);
    assert(seq!['f', 'f', 'f'].drop_last() =~= seq!['f', 'f']);
    assert(seq!['f', 'f'].drop_last() =~= seq!['f']);
    assert(seq!['f'].drop_last() =~= Seq::<char>::empty());
    assert(all_digits(ffff, 16));
    reveal_with_fuel(plain_groups, 2);
    assert(seq![ffff].drop_last() =~= Seq::<Seq<char>>::empty());
    assert(Seq::<int>::empty().push(0xffff) =~= seq![0xffffint]);
}

/// Five zero groups, one of all ones, and the two groups of an IPv4 address.
proof fn lemma_mapped_value(value: int)
    requires
        0 <= value <= 0xffff_ffff,
    ensures
        joined_groups(
            Seq::<int>::empty() + zeros(5) + seq![0xffffint].push(value / 65536).push(value % 65536),
        ) == 0xffff * 0x1_0000_0000 + value,
{
    let all = Seq::<int>::empty() + zeros(5) + seq![0xffffint].push(value / 65536).push(
        value % 65536,
    );
    let seven = all.drop_last();
    let six = seven.drop_last();
    assert(six.drop_last() =~= zeros(5));
    lemma_zeros_join(5);
    assert(joined_groups(six) == 0xffff);
    assert(joined_groups(seven) == 0xffff * 65536 + value / 65536);
}

proof fn lemma_mapped(address: u128)
    requires
        is_mapped(address),
    ensures
        v6_written(v6_shown(address)) == Some(address as int),
        all_written(v6_shown(address)),
        !free_of(v6_shown(address), ':'),
{
    let text = v6_shown(address);
    let low = (address % 0x1_0000_0000) as u32;
    let four = v4_shown(low);
    lemma_v4_shown(low);
    reveal_strlit("::ffff:");
    let ffff = seq!['f', 'f', 'f', 'f'];
    let back = ffff + seq![':'] + four;
    assert(text =~= Seq::<char>::empty() + seq![':', ':'] + back);
    assert forall|i: int| 0 <= i < text.len() implies written_char(#[trigger] text[i]) by {
        if i >= 7 {
            assert(text[i] == four[i - 7]);
        }
    }
    assert(text[0] == ':');
    assert(v6_written(text) == Some(address as int)) by {
        lemma_gap_at(Seq::empty(), back, 0);
        assert(text.take(0) =~= Seq::empty());
        assert(text.skip(2) =~= back);
        let value = low as int;
        let tail = seq![0xffffint].push(value / 65536).push(value % 65536);
        lemma_mapped_groups(four, low);
        assert(groups_in(text.take(0), false) == Some(Seq::<int>::empty()));
        assert(groups_in(back, true) == Some(tail));
        lemma_mapped_value(value);
    }
}

proof fn lemma_mapped_groups(four: Seq<char>, low: u32)
    requires
        four == v4_shown(low),
    ensures
        groups_in(seq!['f', 'f', 'f', 'f'] + seq![':'] + four, true) == Some(
            seq![0xffffint].push(low as int / 65536).push(low as int % 65536),
        ),
{
    let ffff = seq!['f', 'f', 'f', 'f'];
    let back = ffff + seq![':'] + four;
    let pieces = seq![ffff, four];
    lemma_v4_shown(low);
    lemma_ffff();
    assert(free_of(ffff, ':') && free_of(four, ':'));
    reveal_with_fuel(strung, 2);
    assert(pieces.drop_last() =~= seq![ffff]);
    assert(strung(pieces, ':') =~= back);
    lemma_split_strung(pieces, ':');
    assert(group(four) is None) by {
        let i = choose|i: int| 0 <= i < four.len() && four[i] == '.';
        assert(digit_value(four[i]) == 16);
    }
    assert(pieces.last() == four);
}

proof fn lemma_zeros_join(count: nat)
    ensures
        joined_groups(zeros(count as int)) == 0,
    decreases count,
{
    if count > 0 {
        lemma_zeros_join((count - 1) as nat);
        assert(zeros(count as int).drop_last() =~= zeros(count - 1));
    }
}

/// An address that is shown is read back, of either family.
pub proof fn law_a_shown_address_is_read_back(address: IpAddr)
    ensures
        address_written(shown(address)) == Some(address),
{
    match address {
        IpAddr::V4(address) => {
            lemma_v4_shown(address);
        },
        IpAddr::V6(address) => {
            lemma_v6_shown(address);
            lemma_colon_is_no_v4(v6_shown(address));
        },
    }
}

proof fn lemma_colon_is_no_v4(text: Seq<char>)
    requires
        !free_of(text, ':'),
    ensures
        v4_written(text) is None,
{
    law_an_ipv4_address_is_written_one_way(text);
    if v4_written(text) is Some {
        lemma_v4_shown(v4_written(text)->0 as u32);
        let i = choose|i: int| 0 <= i < text.len() && text[i] == ':';
        assert(text[i] == v4_shown(v4_written(text)->0 as u32)[i]);
    }
}

/// Eight groups with colons between are an address, and a double colon stands for as many zero groups
/// as are wanting, of which there is at least one; any other number of groups is no address.
pub proof fn law_a_double_colon_stands_for_what_is_wanting(head: Seq<u16>, tail: Seq<u16>)
    ensures
        ({
            let text = groups_shown(head) + seq![':', ':'] + groups_shown(tail);
            &&& head.len() + tail.len() <= 7 ==> v6_written(text) == Some(
                joined_groups(
                    head.map_values(|group: u16| group as int) + Seq::new(
                        (8 - head.len() - tail.len()) as nat,
                        |i: int| 0int,
                    ) + tail.map_values(|group: u16| group as int),
                ),
            )
            &&& head.len() + tail.len() >= 8 ==> v6_written(text) is None
        }),
        head.len() == 8 ==> v6_written(groups_shown(head)) == Some(
            joined_groups(head.map_values(|group: u16| group as int)),
        ),
        head.len() != 8 ==> v6_written(groups_shown(head)) is None,
{
    let front = groups_shown(head);
    let back = groups_shown(tail);
    let text = front + seq![':', ':'] + back;
    lemma_groups_shown(head);
    lemma_groups_shown(tail);
    lemma_groups_in(head, false);
    lemma_groups_in(head, true);
    lemma_groups_in(tail, true);
    lemma_gap_at(front, back, 0);
    assert(text.take(front.len() as int) =~= front);
    assert(text.skip(front.len() as int + 2) =~= back);
    lemma_no_gap(front, 0);
    if head.len() + tail.len() <= 7 {
        assert(zeros(8 - head.len() - tail.len()) =~= Seq::new(
            (8 - head.len() - tail.len()) as nat,
            |i: int| 0int,
        ));
    }
}

/// Groups spell a number as digits do, in the base of 65536.
pub proof fn law_groups_spell_a_number(groups: Seq<int>, group: int)
    ensures
        joined_groups(Seq::empty()) == 0,
        joined_groups(groups.push(group)) == joined_groups(groups) * 65536 + group,
{
    assert(groups.push(group).drop_last() =~= groups);
}

/// An address and a port that are shown are read back, of either family.
pub proof fn law_a_shown_socket_is_read_back(socket: SocketAddr)
    ensures
        socket_written(socket_shown(socket)) == Some(socket),
{
    let text = socket_shown(socket);
    let port = digits(socket.port as nat);
    lemma_digits(socket.port as nat);
    match socket.ip {
        IpAddr::V4(address) => {
            let front = v4_shown(address);
            lemma_v4_shown(address);
            reveal_strlit(":");
            assert(":"@ =~= seq![':']);
            assert(text =~= front + seq![':'] + port);
            assert(free_of(front, ':'));
            law_a_text_is_split_where_it_was_joined(front, port, ':');
            assert(text[0] == front[0]);
        },
        IpAddr::V6(address) => {
            let front = v6_shown(address);
            lemma_v6_shown(address);
            reveal_strlit("[");
            reveal_strlit("]:");
            assert("["@ =~= seq!['[']);
            assert("]:"@ =~= seq![']', ':']);
            let behind = seq![':'] + port;
            assert(text.skip(1) =~= front + seq![']'] + behind);
            assert(free_of(front, ']')) by {
                assert forall|i: int| 0 <= i < front.len() implies #[trigger] front[i] != ']' by {
                    assert(written_char(front[i]));
                }
            }
            assert(free_of(front, '%')) by {
                assert forall|i: int| 0 <= i < front.len() implies #[trigger] front[i] != '%' by {
                    assert(written_char(front[i]));
                }
            }
            law_a_text_is_split_where_it_was_joined(front, behind, ']');
            law_the_first_separator_splits(front, '%');
            if let Some((a, b)) = split_once(front, '%') {
                assert(front[a.len() as int] == '%');
            }
            assert(behind.skip(1) =~= port);
            assert(text[0] == '[');
        },
    }
}

/// What an address is shown as holds no slash.
pub proof fn lemma_shown_free(address: IpAddr)
    ensures
        free_of(shown(address), '/'),
{
    match address {
        IpAddr::V4(address) => {
            lemma_v4_shown(address);
        },
        IpAddr::V6(address) => {
            lemma_v6_shown(address);
            assert forall|i: int| 0 <= i < v6_shown(address).len() implies #[trigger] v6_shown(
                address,
            )[i] != '/' by {
                assert(written_char(v6_shown(address)[i]));
            }
        },
    }
}

/// A port is a number of at most 65535, behind an IPv4 address and a colon, or behind an IPv6 address
/// in brackets and a colon; in the brackets a percent sign and a number of at most 32 bits may follow
/// the address, and say nothing.
pub proof fn law_a_port_is_at_most_65535(v4: u32, v6: u128, port: nat, zone: nat)
    ensures
        ({
            let four = v4_shown(v4) + seq![':'] + digits(port);
            let six = seq!['['] + v6_shown(v6) + seq![']', ':'] + digits(port);
            let zoned = seq!['['] + v6_shown(v6) + seq!['%'] + digits(zone) + seq![']', ':'] + digits(
                port,
            );
            &&& port <= 65535 ==> socket_written(four) == Some(
                SocketAddr { ip: IpAddr::V4(v4), port: port as u16 },
            )
            &&& port <= 65535 ==> socket_written(six) == Some(
                SocketAddr { ip: IpAddr::V6(v6), port: port as u16 },
            )
            &&& port <= 65535 && zone <= 0xffff_ffff ==> socket_written(zoned) == Some(
                SocketAddr { ip: IpAddr::V6(v6), port: port as u16 },
            )
            &&& port > 65535 ==> socket_written(four) is None && socket_written(six) is None
                && socket_written(zoned) is None
            &&& zone > 0xffff_ffff ==> socket_written(zoned) is None
        }),
{
    lemma_digits(port);
    lemma_digits(zone);
    lemma_v4_shown(v4);
    let front = v4_shown(v4);
    let four = front + seq![':'] + digits(port);
    assert(free_of(front, ':'));
    law_a_text_is_split_where_it_was_joined(front, digits(port), ':');
    assert(four[0] == front[0]);
    lemma_bracketed(v6_shown(v6), digits(port));
    lemma_v6_shown(v6);
    let text = v6_shown(v6);
    assert(free_of(text, ']')) by {
        assert forall|i: int| 0 <= i < text.len() implies #[trigger] text[i] != ']' by {
            assert(written_char(text[i]));
        }
    }
    assert(free_of(text, '%')) by {
        assert forall|i: int| 0 <= i < text.len() implies #[trigger] text[i] != '%' by {
            assert(written_char(text[i]));
        }
    }
    law_the_first_separator_splits(text, '%');
    if let Some((a, b)) = split_once(text, '%') {
        assert(text[a.len() as int] == '%');
    }
    let inside = text + seq!['%'] + digits(zone);
    assert(free_of(inside, ']')) by {
        assert forall|i: int| 0 <= i < inside.len() implies #[trigger] inside[i] != ']' by {
            if i < text.len() {
                assert(inside[i] == text[i]);
            } else if i > text.len() {
                assert(inside[i] == digits(zone)[i - text.len() - 1]);
            }
        }
    }
    law_a_text_is_split_where_it_was_joined(text, digits(zone), '%');
    lemma_bracketed(inside, digits(port));
    assert(seq!['['] + text + seq!['%'] + digits(zone) + seq![']', ':'] + digits(port) =~= seq!['[']
        + inside + seq![']', ':'] + digits(port));
}

proof fn lemma_bracketed(inside: Seq<char>, port: Seq<char>)
    ensures
        free_of(inside, ']') ==> ({
            let text = seq!['['] + inside + seq![']', ':'] + port;
            socket_written(text) == match (
                crate::address::written::zoned_written(inside),
                crate::address::written::port_written(port),
            ) {
                (Some(address), Some(port)) => Some(
                    SocketAddr { ip: IpAddr::V6(address as u128), port: port as u16 },
                ),
                _ => None,
            }
        }),
{
    if free_of(inside, ']') {
        let text = seq!['['] + inside + seq![']', ':'] + port;
        let behind = seq![':'] + port;
        assert(text.skip(1) =~= inside + seq![']'] + behind);
        law_a_text_is_split_where_it_was_joined(inside, behind, ']');
        assert(behind.skip(1) =~= port);
        assert(text[0] == '[');
    }
}

} // verus!
