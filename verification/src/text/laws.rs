//! What holds of text whatever it says.

use vstd::prelude::*;
use crate::text::{
    are_digits, decimal_value, digits, first_of, is_space, leading_spaces, listed, lower,
    number_written, precedes, split, split_once, trailing_spaces, trimmed, unsigned, utf16,
    utf16_units,
};

verus! {

/// Whether a character does not occur in a text.
pub open spec fn free_of(text: Seq<char>, c: char) -> bool {
    forall|i: int| 0 <= i < text.len() ==> #[trigger] text[i] != c
}

/// Texts one behind the other, with a separator between.
pub open spec fn strung(pieces: Seq<Seq<char>>, separator: char) -> Seq<char>
    decreases pieces.len(),
{
    if pieces.len() == 0 {
        Seq::empty()
    } else if pieces.len() == 1 {
        pieces[0]
    } else {
        strung(pieces.drop_last(), separator) + seq![separator] + pieces.last()
    }
}

/// A number shown in decimal digits is read back, with a plus sign in front or not, and refused
/// exactly where it is over the bound. It is shown in digits alone, with no zero in front of others.
pub proof fn law_a_shown_number_is_read_back(n: nat, bound: int)
    ensures
        digits(n).len() > 0,
        are_digits(digits(n)),
        digits(n).len() > 1 ==> digits(n)[0] != '0',
        decimal_value(digits(n)) == n,
        number_written(digits(n), bound) == if n <= bound {
            Some(n as int)
        } else {
            None
        },
        number_written(seq!['+'] + digits(n), bound) == number_written(digits(n), bound),
{
    lemma_digits(n);
    assert(unsigned(seq!['+'] + digits(n)) =~= digits(n));
    assert(digits(n)[0] != '+');
    assert(unsigned(digits(n)) == digits(n));
}

pub proof fn lemma_digits(n: nat)
    ensures
        digits(n).len() > 0,
        are_digits(digits(n)),
        n > 0 ==> digits(n)[0] != '0',
        digits(n).len() > 1 ==> n > 9,
        decimal_value(digits(n)) == n,
        n < 10 ==> digits(n).len() == 1,
        10 <= n < 100 ==> digits(n).len() == 2,
        100 <= n < 1000 ==> digits(n).len() == 3,
    decreases n,
{
    reveal_with_fuel(decimal_value, 2);
    if n >= 10 {
        lemma_digits(n / 10);
        assert(digits(n).drop_last() =~= digits(n / 10));
        assert(digits(n).last() as int == 48 + n % 10);
        assert(digits(n)[0] == digits(n / 10)[0]);
    } else {
        assert(digits(n).drop_last() =~= Seq::empty());
        assert(digits(n).last() as int == 48 + n);
    }
}

/// Each digit behind others counts ten times what is in front of it and itself, and a text with
/// anything but digits, or with none, is no number.
pub proof fn law_digits_count_by_tens(text: Seq<char>, c: char, bound: int)
    ensures
        decimal_value(Seq::empty()) == 0,
        decimal_value(text.push(c)) == 10 * decimal_value(text) + (c as int - 48),
        number_written(Seq::empty(), bound) is None,
        number_written(seq!['+'], bound) is None,
        text.len() > 0 && text[0] != '+' && !(forall|i: int|
            0 <= i < text.len() ==> 48 <= (#[trigger] text[i]) as int <= 57) ==> number_written(
            text,
            bound,
        ) is None,
{
    assert(text.push(c).drop_last() =~= text);
}

/// A text is its pieces with the separator between, and no piece holds the separator; pieces that do
/// not hold it are the pieces of what they make.
pub proof fn law_a_text_is_its_pieces(text: Seq<char>, pieces: Seq<Seq<char>>, separator: char)
    ensures
        split(text, separator).len() > 0,
        strung(split(text, separator), separator) == text,
        forall|i: int|
            0 <= i < split(text, separator).len() ==> free_of(
                #[trigger] split(text, separator)[i],
                separator,
            ),
        pieces.len() > 0 && (forall|i: int|
            0 <= i < pieces.len() ==> free_of(#[trigger] pieces[i], separator)) ==> split(
            strung(pieces, separator),
            separator,
        ) == pieces,
{
    lemma_split(text, separator);
    if pieces.len() > 0 && (forall|i: int|
        0 <= i < pieces.len() ==> free_of(#[trigger] pieces[i], separator)) {
        lemma_split_strung(pieces, separator);
    }
}

proof fn lemma_split(text: Seq<char>, separator: char)
    ensures
        split(text, separator).len() > 0,
        strung(split(text, separator), separator) == text,
        forall|i: int|
            0 <= i < split(text, separator).len() ==> free_of(
                #[trigger] split(text, separator)[i],
                separator,
            ),
    decreases text.len(),
{
    let all = split(text, separator);
    if text.len() > 0 {
        let before = split(text.drop_last(), separator);
        lemma_split(text.drop_last(), separator);
        assert(text =~= text.drop_last().push(text.last()));
        if text.last() == separator {
            assert(all.drop_last() =~= before);
            assert(strung(all, separator) =~= text);
            assert forall|i: int| 0 <= i < all.len() implies free_of(
                #[trigger] all[i],
                separator,
            ) by {
                if i < before.len() {
                    assert(all[i] == before[i]);
                }
            }
        } else {
            let last = before.last().push(text.last());
            assert(all.drop_last() =~= before.drop_last());
            assert(all.last() == last);
            assert(strung(all, separator) =~= strung(before, separator).push(text.last()));
            assert forall|i: int| 0 <= i < all.len() implies free_of(
                #[trigger] all[i],
                separator,
            ) by {
                if i < before.len() - 1 {
                    assert(all[i] == before[i]);
                } else {
                    assert(free_of(before[before.len() - 1], separator));
                }
            }
        }
    }
}

pub proof fn lemma_split_strung(pieces: Seq<Seq<char>>, separator: char)
    requires
        pieces.len() > 0,
        forall|i: int| 0 <= i < pieces.len() ==> free_of(#[trigger] pieces[i], separator),
    ensures
        split(strung(pieces, separator), separator) == pieces,
    decreases pieces.len(),
{
    let last = pieces.last();
    assert(free_of(pieces[pieces.len() - 1], separator));
    if pieces.len() == 1 {
        lemma_split_behind(Seq::empty(), last, separator);
        assert(Seq::empty() + last =~= last);
        assert(split(Seq::empty(), separator) =~= seq![Seq::<char>::empty()]);
        assert(Seq::<char>::empty() + last =~= last);
        assert(split(last, separator) =~= pieces);
    } else {
        let before = pieces.drop_last();
        assert forall|i: int| 0 <= i < before.len() implies free_of(
            #[trigger] before[i],
            separator,
        ) by {
            assert(before[i] == pieces[i]);
        }
        lemma_split_strung(before, separator);
        let start = strung(before, separator).push(separator);
        assert(start.drop_last() =~= strung(before, separator));
        assert(split(start, separator) =~= before.push(Seq::empty()));
        lemma_split_behind(start, last, separator);
        assert(strung(pieces, separator) =~= start + last);
        assert(Seq::<char>::empty() + last =~= last);
        assert(split(start + last, separator) =~= pieces);
    }
}

/// Characters that are no separator stay with the last piece.
proof fn lemma_split_behind(start: Seq<char>, rest: Seq<char>, separator: char)
    requires
        free_of(rest, separator),
    ensures
        split(start, separator).len() > 0,
        split(start + rest, separator) == split(start, separator).drop_last().push(
            split(start, separator).last() + rest,
        ),
    decreases rest.len(),
{
    lemma_split(start, separator);
    let pieces = split(start, separator);
    if rest.len() == 0 {
        assert(start + rest =~= start);
        assert(pieces.last() + rest =~= pieces.last());
        assert(pieces =~= pieces.drop_last().push(pieces.last() + rest));
    } else {
        let less = rest.drop_last();
        assert forall|i: int| 0 <= i < less.len() implies #[trigger] less[i] != separator by {
            assert(less[i] == rest[i]);
        }
        lemma_split_behind(start, less, separator);
        assert((start + rest).drop_last() =~= start + less);
        assert(rest[rest.len() - 1] != separator);
        let before = split(start + less, separator);
        assert(before.drop_last() =~= pieces.drop_last());
        assert(before.last().push(rest.last()) =~= pieces.last() + rest);
        assert(split(start + rest, separator) =~= pieces.drop_last().push(pieces.last() + rest));
    }
}

/// Splitting once is splitting at the first separator: what is in front of it holds none, and the
/// two with the separator between are the text. A text is not split exactly where it holds none.
pub proof fn law_the_first_separator_splits(text: Seq<char>, separator: char)
    ensures
        match split_once(text, separator) {
            Some((before, behind)) => free_of(before, separator) && text == before + seq![separator]
                + behind,
            None => free_of(text, separator),
        },
{
    lemma_first_of(text, separator, 0);
    if let Some(at) = first_of(text, separator, 0) {
        assert(text =~= text.take(at) + seq![separator] + text.skip(at + 1));
    }
}

/// What is split at the first separator is any text that holds none, the separator, and any text.
pub proof fn law_a_text_is_split_where_it_was_joined(
    before: Seq<char>,
    behind: Seq<char>,
    separator: char,
)
    requires
        free_of(before, separator),
    ensures
        split_once(before + seq![separator] + behind, separator) == Some((before, behind)),
{
    let text = before + seq![separator] + behind;
    law_the_first_separator_splits(text, separator);
    lemma_first_of(text, separator, 0);
    assert(text[before.len() as int] == separator);
    match first_of(text, separator, 0) {
        Some(at) => {
            if at < before.len() {
                assert(text[at] == before[at]);
            }
            assert(at == before.len());
            assert(text.take(at) =~= before);
            assert(text.skip(at + 1) =~= behind);
        },
        None => {},
    }
}

proof fn lemma_first_of(text: Seq<char>, separator: char, from: int)
    requires
        0 <= from <= text.len(),
    ensures
        match first_of(text, separator, from) {
            Some(at) => from <= at < text.len() && text[at] == separator && forall|i: int|
                from <= i < at ==> #[trigger] text[i] != separator,
            None => forall|i: int| from <= i < text.len() ==> #[trigger] text[i] != separator,
        },
    decreases text.len() - from,
{
    if from < text.len() && text[from] != separator {
        lemma_first_of(text, separator, from + 1);
    }
}

/// The characters that are white space.
pub open spec fn white(c: char) -> bool {
    let n = c as int;
    n == 9 || n == 10 || n == 11 || n == 12 || n == 13 || n == 32 || n == 133 || n == 160 || n
        == 5760 || 8192 <= n <= 8202 || n == 8232 || n == 8233 || n == 8239 || n == 8287 || n
        == 12288
}

/// What is trimmed off is white space and nothing else, and what is left neither begins nor ends with
/// any; trimming what is trimmed changes nothing.
pub proof fn law_trimming_takes_white_space_off_the_ends(text: Seq<char>)
    ensures
        exists|front: Seq<char>, back: Seq<char>|
            #![trigger front + trimmed(text) + back]
            text == front + trimmed(text) + back && (forall|i: int|
                0 <= i < front.len() ==> white(#[trigger] front[i])) && (forall|i: int|
                0 <= i < back.len() ==> white(#[trigger] back[i])),
        trimmed(text).len() > 0 ==> !white(trimmed(text)[0]) && !white(trimmed(text).last()),
        text.len() > 0 && !white(text[0]) && !white(text.last()) ==> trimmed(text) == text,
{
    lemma_leading(text);
    let lead = leading_spaces(text) as int;
    let rest = text.skip(lead);
    lemma_trailing(rest);
    let tail = trailing_spaces(rest) as int;
    let kept = trimmed(text);
    let front = text.take(lead);
    let back = rest.skip(rest.len() - tail);
    assert(text =~= front + kept + back);
    if kept.len() > 0 {
        assert(kept[0] == rest[0]);
        assert(kept.last() == rest[rest.len() - tail - 1]);
    }
    if text.len() > 0 && !white(text[0]) && !white(text.last()) {
        assert(text.skip(0) =~= text);
        assert(text.take(text.len() as int) =~= text);
    }
}

proof fn lemma_white(c: char)
    ensures
        is_space(c) == white(c),
{
    assert((c as u32) as int == c as int);
}

proof fn lemma_leading(text: Seq<char>)
    ensures
        leading_spaces(text) <= text.len(),
        forall|i: int| 0 <= i < leading_spaces(text) ==> white(#[trigger] text[i]),
        leading_spaces(text) < text.len() ==> !white(text[leading_spaces(text) as int]),
    decreases text.len(),
{
    if text.len() > 0 {
        lemma_white(text[0]);
    }
    if text.len() > 0 && is_space(text[0]) {
        let rest = text.drop_first();
        lemma_leading(rest);
        assert forall|i: int| 0 <= i < leading_spaces(text) implies white(#[trigger] text[i]) by {
            if i > 0 {
                assert(text[i] == rest[i - 1]);
            }
        }
    }
}

proof fn lemma_trailing(text: Seq<char>)
    ensures
        trailing_spaces(text) <= text.len(),
        forall|i: int|
            text.len() - trailing_spaces(text) <= i < text.len() ==> white(#[trigger] text[i]),
        trailing_spaces(text) < text.len() ==> !white(
            text[text.len() - trailing_spaces(text) - 1],
        ),
    decreases text.len(),
{
    if text.len() > 0 {
        lemma_white(text.last());
    }
    if text.len() > 0 && is_space(text.last()) {
        let rest = text.drop_last();
        lemma_trailing(rest);
        assert forall|i: int|
            text.len() - trailing_spaces(text) <= i < text.len() implies white(
            #[trigger] text[i],
        ) by {
            if i < text.len() - 1 {
                assert(text[i] == rest[i]);
            }
        }
    }
}

/// Lower case changes the twenty-six capital letters, each to the small one, and nothing else.
pub proof fn law_lower_case_changes_capitals_alone(text: Seq<char>, i: int)
    requires
        0 <= i < text.len(),
    ensures
        lower(text).len() == text.len(),
        65 <= text[i] as int <= 90 ==> lower(text)[i] as int == text[i] as int + 32,
        !(65 <= text[i] as int <= 90) ==> lower(text)[i] == text[i],
        lower(lower(text)) == lower(text),
{
    assert(lower(lower(text)) =~= lower(text));
}

/// A character is one unit, its number, or two that its number can be read back from; a text is the
/// units of its characters one behind the other.
pub proof fn law_utf16_can_be_read_back(a: Seq<char>, b: Seq<char>, c: char)
    ensures
        utf16(a + b) == utf16(a) + utf16(b),
        utf16(Seq::empty()) == Seq::<u16>::empty(),
        utf16(seq![c]) == utf16_units(c),
        (c as int) < 0x10000 ==> utf16_units(c) == seq![c as u16],
        c as int >= 0x10000 ==> ({
            let units = utf16_units(c);
            &&& units.len() == 2
            &&& 0xd800 <= units[0] < 0xdc00
            &&& 0xdc00 <= units[1] < 0xe000
            &&& (units[0] - 0xd800) * 0x400 + (units[1] - 0xdc00) + 0x10000 == c as int
        }),
    decreases b.len(),
{
    reveal_with_fuel(utf16, 2);
    assert(seq![c].drop_last() =~= Seq::empty());
    assert(utf16(seq![c]) =~= utf16_units(c));
    if b.len() == 0 {
        assert(a + b =~= a);
        assert(utf16(a) + utf16(b) =~= utf16(a));
    } else {
        law_utf16_can_be_read_back(a, b.drop_last(), c);
        assert((a + b).drop_last() =~= a + b.drop_last());
        assert(utf16(a + b) =~= utf16(a) + utf16(b));
    }
}

/// A list is its texts with a comma and a space between.
pub proof fn law_a_list_has_commas_between(list: Seq<Seq<char>>, text: Seq<char>)
    ensures
        listed(Seq::empty()) == Seq::<char>::empty(),
        listed(seq![text]) == text,
        list.len() > 0 ==> listed(list.push(text)) == listed(list) + seq![',', ' '] + text,
{
    reveal_strlit(", ");
    assert(", "@ =~= seq![',', ' ']);
    assert(list.push(text).drop_last() =~= list);
}

/// One text precedes another where they first differ, or where it is a beginning of it.
pub proof fn law_texts_are_ordered_where_they_differ(
    same: Seq<char>,
    a: char,
    b: char,
    rest: Seq<char>,
    other: Seq<char>,
)
    ensures
        precedes(same + seq![a] + rest, same + seq![b] + other) || a == b || precedes(
            same + seq![b] + other,
            same + seq![a] + rest,
        ),
        a < b ==> precedes(same + seq![a] + rest, same + seq![b] + other) && !precedes(
            same + seq![b] + other,
            same + seq![a] + rest,
        ),
        precedes(same, same + seq![a] + rest),
        !precedes(same, same),
    decreases same.len(),
{
    if same.len() == 0 {
        let left = same + seq![a] + rest;
        let right = same + seq![b] + other;
        assert(left[0] == a && right[0] == b);
    } else {
        let less = same.drop_first();
        law_texts_are_ordered_where_they_differ(less, a, b, rest, other);
        assert((same + seq![a] + rest).drop_first() =~= less + seq![a] + rest);
        assert((same + seq![b] + other).drop_first() =~= less + seq![b] + other);
    }
}

} // verus!
