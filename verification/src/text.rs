//! Text, as the command line, the control pipe and the policy write it.

use vstd::prelude::*;
use vstd::string::StringExecFns;
use vstd::string::StringSliceAdditionalSpecFns;

pub mod laws;

verus! {

/// `String::push`: one character is appended.
pub assume_specification[ String::push ](grown: &mut String, c: char)
    ensures
        final(grown)@ == old(grown)@.push(c),
;

/// The decimal digits of a number.
pub open spec fn digits(n: nat) -> Seq<char>
    decreases n,
{
    if n < 10 {
        seq![digit(n)]
    } else {
        digits(n / 10).push(digit(n % 10))
    }
}

/// One decimal digit.
pub open spec fn digit(n: nat) -> char {
    (48 + n) as char
}

/// A character of text in lower case, ASCII letters only.
pub open spec fn lower_char(c: char) -> char {
    if 'A' <= c <= 'Z' {
        ((c as u32) + 32) as char
    } else {
        c
    }
}

/// Text in lower case, ASCII letters only.
pub open spec fn lower(text: Seq<char>) -> Seq<char> {
    text.map_values(|c: char| lower_char(c))
}

/// Whether a character is white space in the sense of Unicode's White_Space property.
pub open spec fn is_space(c: char) -> bool {
    let n = c as u32;
    ||| 0x09 <= n <= 0x0d
    ||| n == 0x20
    ||| n == 0x85
    ||| n == 0xa0
    ||| n == 0x1680
    ||| 0x2000 <= n <= 0x200a
    ||| n == 0x2028
    ||| n == 0x2029
    ||| n == 0x202f
    ||| n == 0x205f
    ||| n == 0x3000
}

/// How many characters of white space a text begins with.
pub open spec fn leading_spaces(text: Seq<char>) -> nat
    decreases text.len(),
{
    if text.len() > 0 && is_space(text[0]) {
        1 + leading_spaces(text.drop_first())
    } else {
        0
    }
}

/// How many characters of white space a text ends with.
pub open spec fn trailing_spaces(text: Seq<char>) -> nat
    decreases text.len(),
{
    if text.len() > 0 && is_space(text.last()) {
        1 + trailing_spaces(text.drop_last())
    } else {
        0
    }
}

/// Text without the white space around it.
pub open spec fn trimmed(text: Seq<char>) -> Seq<char> {
    let from_start = text.skip(leading_spaces(text) as int);
    from_start.take(from_start.len() - trailing_spaces(from_start))
}

/// The parts of a text between the occurrences of a separator: one more than there are of it.
pub open spec fn split(text: Seq<char>, separator: char) -> Seq<Seq<char>>
    decreases text.len(),
{
    if text.len() == 0 {
        seq![Seq::empty()]
    } else {
        let before = split(text.drop_last(), separator);
        if text.last() == separator {
            before.push(Seq::empty())
        } else {
            before.drop_last().push(before.last().push(text.last()))
        }
    }
}

/// Texts as characters.
pub open spec fn texts(list: Seq<String>) -> Seq<Seq<char>> {
    list.map_values(|text: String| text@)
}

/// Text is known by the bytes it is written in.
pub proof fn lemma_text_by_bytes(a: &str, b: &str)
    ensures
        a.spec_bytes() == b.spec_bytes() <==> a@ == b@,
{
    vstd::utf8::encode_utf8_decode_utf8(a@);
    vstd::utf8::encode_utf8_decode_utf8(b@);
}

/// Whether two texts are the same.
pub fn same(a: &str, b: &str) -> (same: bool)
    ensures
        same == (a@ == b@),
{
    let left = a.as_bytes();
    let right = b.as_bytes();
    proof {
        lemma_text_by_bytes(a, b);
    }
    if left.len() != right.len() {
        return false;
    }
    let mut i: usize = 0;
    while i < left.len()
        invariant
            i <= left.len(),
            left.len() == right.len(),
            left@ == a.spec_bytes(),
            right@ == b.spec_bytes(),
            a.spec_bytes() == b.spec_bytes() <==> a@ == b@,
            forall|j: int| 0 <= j < i ==> left@[j] == right@[j],
        decreases left.len() - i,
    {
        if left[i] != right[i] {
            return false;
        }
        i += 1;
    }
    assert(left@ =~= right@);
    true
}

/// The characters of a text.
pub fn chars_of(text: &str) -> (chars: Vec<char>)
    ensures
        chars@ == text@,
{
    let mut chars: Vec<char> = Vec::new();
    for c in iter: text.chars()
        invariant
            chars@ == text@.take(iter.index() as int),
            iter.seq() == text@,
    {
        chars.push(c);
        assert(text@.take(iter.index() + 1) =~= text@.take(iter.index() as int).push(c));
    }
    assert(text@.take(text@.len() as int) =~= text@);
    chars
}

/// The text that characters spell.
pub fn text_of(chars: &[char]) -> (text: String)
    ensures
        text@ == chars@,
{
    let mut text = String::new();
    let mut i: usize = 0;
    assert(chars@.take(0) =~= Seq::<char>::empty());
    while i < chars.len()
        invariant
            i <= chars.len(),
            text@ == chars@.take(i as int),
        decreases chars.len() - i,
    {
        text.push(chars[i]);
        assert(chars@.take(i + 1) =~= chars@.take(i as int).push(chars@[i as int]));
        i += 1;
    }
    assert(chars@.take(i as int) =~= chars@);
    text
}

/// A number in decimal.
pub fn decimal(n: u128) -> (text: String)
    ensures
        text@ == digits(n as nat),
    decreases n,
{
    if n < 10 {
        let mut text = String::new();
        text.push((48 + n as u8) as char);
        assert(text@ =~= digits(n as nat));
        text
    } else {
        let mut text = decimal(n / 10);
        text.push((48 + (n % 10) as u8) as char);
        text
    }
}

/// A character in lower case, ASCII letters only.
pub fn lower_of(c: char) -> (lowered: char)
    ensures
        lowered == lower_char(c),
{
    if 'A' <= c && c <= 'Z' {
        ((c as u8) + 32) as char
    } else {
        c
    }
}

/// Text in lower case, ASCII letters only.
pub fn lowered(text: &str) -> (out: String)
    ensures
        out@ == lower(text@),
{
    let chars = chars_of(text);
    let mut out = String::new();
    let mut i: usize = 0;
    assert(lower(text@).take(0) =~= Seq::<char>::empty());
    while i < chars.len()
        invariant
            chars@ == text@,
            i <= chars.len(),
            out@ == lower(text@).take(i as int),
        decreases chars.len() - i,
    {
        out.push(lower_of(chars[i]));
        assert(lower(text@).take(i + 1) =~= lower(text@).take(i as int).push(lower(text@)[i as int]));
        i += 1;
    }
    assert(lower(text@).take(i as int) =~= lower(text@));
    out
}

/// Whether a character is white space.
pub fn space(c: char) -> (is: bool)
    ensures
        is == is_space(c),
{
    let n = c as u32;
    (0x09 <= n && n <= 0x0d) || n == 0x20 || n == 0x85 || n == 0xa0 || n == 0x1680 || (0x2000 <= n
        && n <= 0x200a) || n == 0x2028 || n == 0x2029 || n == 0x202f || n == 0x205f || n == 0x3000
}

/// Text without the white space around it.
pub fn trim(text: &str) -> (out: String)
    ensures
        out@ == trimmed(text@),
{
    let chars = chars_of(text);
    let mut start: usize = 0;
    assert(text@.skip(0) =~= text@);
    while start < chars.len() && space(chars[start])
        invariant
            chars@ == text@,
            start <= chars.len(),
            leading_spaces(text@) == start + leading_spaces(text@.skip(start as int)),
        decreases chars.len() - start,
    {
        assert(text@.skip(start as int).drop_first() =~= text@.skip(start + 1));
        start += 1;
    }
    let ghost from_start = text@.skip(start as int);
    assert(leading_spaces(text@) == start);
    let mut end: usize = chars.len();
    assert(from_start.take(from_start.len() as int) =~= from_start);
    while end > start && space(chars[end - 1])
        invariant
            chars@ == text@,
            start <= end <= chars.len(),
            from_start == text@.skip(start as int),
            trailing_spaces(from_start) == (chars.len() - end) + trailing_spaces(
                from_start.take(end - start),
            ),
        decreases end,
    {
        assert(from_start.take(end - start).drop_last() =~= from_start.take(end - start - 1));
        end -= 1;
    }
    let slice = vstd::slice::slice_subrange(chars.as_slice(), start, end);
    assert(slice@ =~= trimmed(text@));
    text_of(slice)
}

/// `left` and `right` one after the other.
pub fn joined(left: &str, right: &str) -> (out: String)
    ensures
        out@ == left@ + right@,
{
    let mut out = String::from_str(left);
    out.append(right);
    out
}

/// A text between two others.
pub fn between(before: &str, middle: &str, after: &str) -> (out: String)
    ensures
        out@ == before@ + middle@ + after@,
{
    let mut out = String::from_str(before);
    out.append(middle);
    out.append(after);
    out
}

/// Whether a text stands before another in the order of its characters.
pub open spec fn precedes(a: Seq<char>, b: Seq<char>) -> bool
    decreases a.len(),
{
    if b.len() == 0 {
        false
    } else if a.len() == 0 {
        true
    } else if a[0] != b[0] {
        a[0] < b[0]
    } else {
        precedes(a.drop_first(), b.drop_first())
    }
}

/// The order of texts is total and strict.
pub proof fn lemma_precedes(a: Seq<char>, b: Seq<char>)
    ensures
        !(precedes(a, b) && precedes(b, a)),
        precedes(a, b) || precedes(b, a) || a == b,
        !precedes(a, a),
    decreases a.len(),
{
    if a.len() > 0 {
        lemma_precedes(a.drop_first(), a.drop_first());
        if b.len() > 0 && a[0] == b[0] {
            lemma_precedes(a.drop_first(), b.drop_first());
            if a.drop_first() == b.drop_first() {
                assert(a =~= seq![a[0]] + a.drop_first());
                assert(b =~= seq![b[0]] + b.drop_first());
            }
        }
    } else if b.len() == 0 {
        assert(a =~= b);
    }
}

/// The order of texts is transitive.
pub proof fn lemma_precedes_transitive(a: Seq<char>, b: Seq<char>, c: Seq<char>)
    requires
        precedes(a, b),
        precedes(b, c),
    ensures
        precedes(a, c),
    decreases a.len(),
{
    if a.len() > 0 && a[0] == b[0] && b[0] == c[0] {
        lemma_precedes_transitive(a.drop_first(), b.drop_first(), c.drop_first());
    }
}

/// Whether a text stands before another in the order of its characters.
pub fn comes_before(a: &str, b: &str) -> (before: bool)
    ensures
        before == precedes(a@, b@),
{
    let left = chars_of(a);
    let right = chars_of(b);
    let mut i: usize = 0;
    assert(a@.skip(0) =~= a@);
    assert(b@.skip(0) =~= b@);
    while i < left.len() && i < right.len() && left[i] == right[i]
        invariant
            left@ == a@,
            right@ == b@,
            i <= left.len(),
            i <= right.len(),
            precedes(a@, b@) == precedes(a@.skip(i as int), b@.skip(i as int)),
        decreases left.len() - i,
    {
        assert(a@.skip(i as int).drop_first() =~= a@.skip(i + 1));
        assert(b@.skip(i as int).drop_first() =~= b@.skip(i + 1));
        i += 1;
    }
    if i >= right.len() {
        false
    } else if i >= left.len() {
        true
    } else {
        left[i] < right[i]
    }
}

/// A character in UTF-16: one unit, or two for one beyond the first plane.
pub open spec fn utf16_units(c: char) -> Seq<u16> {
    let n = c as int;
    if n < 0x10000 {
        seq![n as u16]
    } else {
        seq![(0xd800 + (n - 0x10000) / 0x400) as u16, (0xdc00 + (n - 0x10000) % 0x400) as u16]
    }
}

/// Text in UTF-16.
pub open spec fn utf16(text: Seq<char>) -> Seq<u16>
    decreases text.len(),
{
    if text.len() == 0 {
        Seq::empty()
    } else {
        utf16(text.drop_last()) + utf16_units(text.last())
    }
}

/// The number of a character.
fn code_point(c: char) -> (n: u32)
    ensures
        n == c as int,
        n <= 0x10ffff,
{
    c as u32
}

/// A NUL-terminated UTF-16 string, which is what the operating system's entry points want.
pub fn wide(text: &str) -> (units: Vec<u16>)
    ensures
        units@ == utf16(text@).push(0),
{
    let chars = chars_of(text);
    let mut units: Vec<u16> = Vec::new();
    let mut i: usize = 0;
    assert(text@.take(0) =~= Seq::empty());
    while i < chars.len()
        invariant
            chars@ == text@,
            i <= chars.len(),
            units@ == utf16(text@.take(i as int)),
        decreases chars.len() - i,
    {
        let ghost before = units@;
        let n = code_point(chars[i]);
        if n < 0x10000 {
            units.push(n as u16);
        } else {
            units.push((0xd800 + (n - 0x10000) / 0x400) as u16);
            units.push((0xdc00 + (n - 0x10000) % 0x400) as u16);
        }
        assert(text@.take(i + 1).drop_last() =~= text@.take(i as int));
        assert(units@ =~= before + utf16_units(text@[i as int]));
        i += 1;
    }
    assert(text@.take(i as int) =~= text@);
    units.push(0);
    units
}

/// A number as it is written, without a plus sign in front.
pub open spec fn unsigned(text: Seq<char>) -> Seq<char> {
    if text.len() > 1 && text[0] == '+' {
        text.skip(1)
    } else {
        text
    }
}

/// Whether every character is a decimal digit.
pub open spec fn are_digits(text: Seq<char>) -> bool {
    forall|i: int| 0 <= i < text.len() ==> '0' <= #[trigger] text[i] && text[i] <= '9'
}

/// The number that decimal digits spell, with a plus sign in front or not; none where they are no
/// digits, or the number is over a bound.
pub open spec fn number_written(text: Seq<char>, bound: int) -> Option<int> {
    let digits = unsigned(text);
    if digits.len() > 0 && are_digits(digits) && decimal_value(digits) <= bound {
        Some(decimal_value(digits))
    } else {
        None
    }
}

/// The number that decimal digits spell.
pub open spec fn decimal_value(digits: Seq<char>) -> int
    decreases digits.len(),
{
    if digits.len() == 0 {
        0
    } else {
        decimal_value(digits.drop_last()) * 10 + (digits.last() as int - 48)
    }
}

/// More digits spell no less.
pub proof fn lemma_decimal_grows(digits: Seq<char>, count: int)
    requires
        0 <= count <= digits.len(),
        are_digits(digits),
    ensures
        0 <= decimal_value(digits.take(count)) <= decimal_value(digits),
    decreases digits.len(),
{
    if count < digits.len() {
        let before = digits.drop_last();
        assert(before.take(count) =~= digits.take(count));
        assert('0' <= digits[digits.len() - 1]);
        assert(are_digits(before)) by {
            assert(forall|i: int| 0 <= i < before.len() ==> before[i] == #[trigger] digits[i]);
        }
        lemma_decimal_grows(before, count);
    } else {
        assert(digits.take(count) =~= digits);
        if digits.len() > 0 {
            let before = digits.drop_last();
            assert('0' <= digits[digits.len() - 1]);
            assert(are_digits(before)) by {
                assert(forall|i: int| 0 <= i < before.len() ==> before[i] == #[trigger] digits[i]);
            }
            lemma_decimal_grows(before, before.len() as int);
            assert(before.take(before.len() as int) =~= before);
        }
    }
}

/// Read a number written in decimal.
pub fn parse_number(text: &str, bound: u64) -> (value: Option<u64>)
    ensures
        match value {
            Some(value) => number_written(text@, bound as int) == Some(value as int) && value
                <= bound,
            None => number_written(text@, bound as int) is None,
        },
{
    let chars = chars_of(text);
    let start: usize = if chars.len() > 1 && chars[0] == '+' {
        1
    } else {
        0
    };
    let ghost digits = unsigned(text@);
    if chars.len() == 0 {
        return None;
    }
    let mut value: u64 = 0;
    let mut i: usize = start;
    let mut over = false;
    assert(digits.take(0) =~= Seq::empty());
    while i < chars.len()
        invariant
            chars@ == text@,
            start <= i <= chars.len(),
            start == 1 <==> text@.len() > 1 && text@[0] == '+',
            start <= 1,
            digits == unsigned(text@),
            digits.len() == text@.len() - start,
            forall|k: int| 0 <= k < digits.len() ==> #[trigger] digits[k] == text@[k + start],
            are_digits(digits.take(i - start)),
            over ==> decimal_value(digits.take(i - start)) > bound,
            !over ==> value == decimal_value(digits.take(i - start)) && value <= bound,
        decreases chars.len() - i,
    {
        let c = chars[i];
        assert(digits[i - start] == c);
        if c < '0' || c > '9' {
            assert(!are_digits(digits));
            return None;
        }
        let digit: u64 = (c as u32 - 48) as u64;
        proof {
            let next = digits.take(i - start + 1);
            assert(next.drop_last() =~= digits.take(i - start));
            assert(next.last() == c);
            let so_far = digits.take(i - start);
            assert(are_digits(next)) by {
                assert(forall|k: int| 0 <= k < so_far.len() ==> so_far[k] == #[trigger] next[k]);
            }
            lemma_decimal_grows(so_far, so_far.len() as int);
            assert(so_far.take(so_far.len() as int) =~= so_far);
        }
        if !over {
            if value > bound / 10 || digit > bound - value * 10 {
                over = true;
            } else {
                value = value * 10 + digit;
            }
        }
        i += 1;
    }
    assert(digits.take(i - start) =~= digits);
    if over {
        None
    } else {
        Some(value)
    }
}

/// Where a separator first stands, from a place on.
pub open spec fn first_of(text: Seq<char>, separator: char, from: int) -> Option<int>
    decreases text.len() - from,
{
    if !(0 <= from < text.len()) {
        None
    } else if text[from] == separator {
        Some(from)
    } else {
        first_of(text, separator, from + 1)
    }
}

/// The text before the first separator and the text behind it; none where it does not occur.
pub open spec fn split_once(text: Seq<char>, separator: char) -> Option<(Seq<char>, Seq<char>)> {
    match first_of(text, separator, 0) {
        Some(at) => Some((text.take(at), text.skip(at + 1))),
        None => None,
    }
}

/// Split a text at the first separator.
pub fn cut_at(text: &str, separator: char) -> (parts: Option<(String, String)>)
    ensures
        match parts {
            Some((before, behind)) => split_once(text@, separator) == Some((before@, behind@)),
            None => split_once(text@, separator) is None,
        },
{
    let chars = chars_of(text);
    let mut at: usize = 0;
    while at < chars.len()
        invariant
            chars@ == text@,
            at <= chars.len(),
            first_of(text@, separator, 0) == first_of(text@, separator, at as int),
        decreases chars.len() - at,
    {
        if chars[at] == separator {
            let before = vstd::slice::slice_subrange(chars.as_slice(), 0, at);
            let behind = vstd::slice::slice_subrange(chars.as_slice(), at + 1, chars.len());
            assert(before@ =~= text@.take(at as int));
            assert(behind@ =~= text@.skip(at + 1));
            return Some((text_of(before), text_of(behind)));
        }
        at += 1;
    }
    None
}

/// Texts one behind the other, with commas between.
pub open spec fn listed(list: Seq<Seq<char>>) -> Seq<char>
    decreases list.len(),
{
    if list.len() == 0 {
        Seq::empty()
    } else if list.len() == 1 {
        list[0]
    } else {
        listed(list.drop_last()) + ", "@ + list.last()
    }
}

/// Texts one behind the other, with commas between.
pub fn list(items: &Vec<String>) -> (text: String)
    ensures
        text@ == listed(texts(items@)),
{
    let ghost all = texts(items@);
    let mut text = String::new();
    let mut at: usize = 0;
    assert(all.take(0) =~= Seq::empty());
    while at < items.len()
        invariant
            at <= items@.len(),
            all == texts(items@),
            text@ == listed(all.take(at as int)),
        decreases items@.len() - at,
    {
        proof {
            assert(all.take(at + 1).drop_last() =~= all.take(at as int));
            assert(all.take(at + 1).last() == items@[at as int]@);
        }
        if at > 0 {
            text.append(", ");
        }
        text.append(items[at].as_str());
        assert(text@ =~= listed(all.take(at + 1)));
        at += 1;
    }
    assert(all.take(at as int) =~= all);
    text
}

} // verus!
