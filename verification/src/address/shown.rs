//! Addresses as they are shown: four decimal numbers with dots, or groups of hexadecimal digits with
//! colons, the longest run of zero groups left out.

use vstd::prelude::*;
use vstd::string::StringExecFns;
use crate::address::{IpAddr, SocketAddr};
use crate::text::{decimal, digits};

verus! {

/// One hexadecimal digit.
pub open spec fn hex_digit(n: nat) -> char {
    if n < 10 {
        (48 + n) as char
    } else {
        (87 + n) as char
    }
}

/// The hexadecimal digits of a number, no more than it needs.
pub open spec fn hex_digits(n: nat) -> Seq<char>
    decreases n,
{
    if n < 16 {
        seq![hex_digit(n)]
    } else {
        hex_digits(n / 16).push(hex_digit(n % 16))
    }
}

/// An IPv4 address as it is shown.
pub open spec fn v4_shown(address: u32) -> Seq<char> {
    digits((address / 16777216) as nat) + "."@ + digits((address / 65536 % 256) as nat) + "."@
        + digits((address / 256 % 256) as nat) + "."@ + digits((address % 256) as nat)
}

/// 65536 multiplied by itself.
pub open spec fn group_unit(n: nat) -> nat
    decreases n,
{
    if n == 0 {
        1
    } else {
        group_unit((n - 1) as nat) * 65536
    }
}

/// The eight groups of an IPv6 address.
pub open spec fn groups_of(address: u128) -> Seq<u16> {
    Seq::new(8, |i: int| ((address as nat / group_unit((7 - i) as nat)) % 65536) as u16)
}

/// How many groups from a place on are zero.
pub open spec fn zero_run(groups: Seq<u16>, at: int) -> int
    decreases groups.len() - at,
{
    if 0 <= at < groups.len() && groups[at] == 0 {
        1 + zero_run(groups, at + 1)
    } else {
        0
    }
}

/// Where the longest run of zero groups from a place on starts, and how long it is; the first of
/// those that are as long.
pub open spec fn longest_run(groups: Seq<u16>, from: int) -> (int, int)
    decreases groups.len() - from,
{
    if !(0 <= from < groups.len()) {
        (groups.len() as int, 0)
    } else {
        let rest = longest_run(groups, from + 1);
        if zero_run(groups, from) >= rest.1 {
            (from, zero_run(groups, from))
        } else {
            rest
        }
    }
}

/// Groups with a colon between them.
pub open spec fn groups_shown(groups: Seq<u16>) -> Seq<char>
    decreases groups.len(),
{
    if groups.len() == 0 {
        Seq::empty()
    } else if groups.len() == 1 {
        hex_digits(groups[0] as nat)
    } else {
        groups_shown(groups.drop_last()) + ":"@ + hex_digits(groups.last() as nat)
    }
}

/// Whether an IPv6 address stands for an IPv4 one: five zero groups, one of all ones, and the
/// address.
pub open spec fn is_mapped(address: u128) -> bool {
    address / 0x1_0000_0000 == 0xffff
}

/// An IPv6 address as it is shown.
pub open spec fn v6_shown(address: u128) -> Seq<char> {
    if is_mapped(address) {
        "::ffff:"@ + v4_shown((address % 0x1_0000_0000) as u32)
    } else {
        let groups = groups_of(address);
        let (start, len) = longest_run(groups, 0);
        if len > 1 {
            groups_shown(groups.take(start)) + "::"@ + groups_shown(groups.skip(start + len))
        } else {
            groups_shown(groups)
        }
    }
}

/// An address as it is shown.
pub open spec fn shown(address: IpAddr) -> Seq<char> {
    match address {
        IpAddr::V4(address) => v4_shown(address),
        IpAddr::V6(address) => v6_shown(address),
    }
}

/// An address and a port as they are shown.
pub open spec fn socket_shown(socket: SocketAddr) -> Seq<char> {
    match socket.ip {
        IpAddr::V4(address) => v4_shown(address) + ":"@ + digits(socket.port as nat),
        IpAddr::V6(address) => "["@ + v6_shown(address) + "]:"@ + digits(socket.port as nat),
    }
}

/// Show a number in hexadecimal.
pub fn hexadecimal(n: u128) -> (text: String)
    ensures
        text@ == hex_digits(n as nat),
    decreases n,
{
    let low: u8 = (n % 16) as u8;
    let last = if low < 10 {
        (48 + low) as char
    } else {
        (87 + low) as char
    };
    let mut text = if n < 16 {
        String::new()
    } else {
        hexadecimal(n / 16)
    };
    text.push(last);
    assert(text@ =~= hex_digits(n as nat));
    text
}

/// Show an IPv4 address.
fn show_v4(address: u32) -> (text: String)
    ensures
        text@ == v4_shown(address),
{
    let mut text = decimal((address / 16777216) as u128);
    text.append(".");
    text.append(decimal((address / 65536 % 256) as u128).as_str());
    text.append(".");
    text.append(decimal((address / 256 % 256) as u128).as_str());
    text.append(".");
    text.append(decimal((address % 256) as u128).as_str());
    text
}

/// The eight groups of an IPv6 address.
fn take_apart(address: u128) -> (groups: Vec<u16>)
    ensures
        groups@ == groups_of(address),
{
    let mut groups: Vec<u16> = Vec::new();
    let mut i: usize = 0;
    while i < 8
        invariant
            i <= 8,
            groups@ == groups_of(address).take(i as int),
        decreases 8 - i,
    {
        let mut rest: u128 = address;
        let mut k: usize = 7;
        proof {
            lemma_by_one(address as nat);
        }
        while k > i
            invariant
                i <= k <= 7,
                rest as nat == address as nat / group_unit((7 - k) as nat),
            decreases k - i,
        {
            proof {
                let done = (7 - k) as nat;
                lemma_group_unit(done);
                vstd::arithmetic::div_mod::lemma_div_denominator(
                    address as int,
                    group_unit(done) as int,
                    65536,
                );
            }
            rest = rest / 65536;
            k -= 1;
        }
        groups.push((rest % 65536) as u16);
        assert(groups@ =~= groups_of(address).take(i + 1));
        i += 1;
    }
    assert(groups@ =~= groups_of(address));
    groups
}

proof fn lemma_by_one(n: nat)
    ensures
        n / group_unit(0) == n,
{
    let one = group_unit(0);
    assert(n / one == n) by (nonlinear_arith)
        requires
            one == 1,
    ;
}

proof fn lemma_group_unit(n: nat)
    ensures
        group_unit(n) > 0,
    decreases n,
{
    if n > 0 {
        lemma_group_unit((n - 1) as nat);
    }
}

/// Show groups with a colon between them.
fn show_groups(groups: &Vec<u16>, from: usize, to: usize) -> (text: String)
    requires
        from <= to <= groups@.len(),
    ensures
        text@ == groups_shown(groups@.subrange(from as int, to as int)),
{
    let mut text = String::new();
    let mut i: usize = from;
    let ghost all = groups@.subrange(from as int, to as int);
    assert(all.take(0) =~= Seq::empty());
    while i < to
        invariant
            from <= i <= to <= groups@.len(),
            all == groups@.subrange(from as int, to as int),
            text@ == groups_shown(all.take(i - from)),
        decreases to - i,
    {
        let ghost next = all.take(i - from + 1);
        assert(next.drop_last() =~= all.take(i - from));
        assert(next.last() == groups@[i as int]);
        if i > from {
            text.append(":");
        } else {
            assert(text@ =~= Seq::empty());
        }
        text.append(hexadecimal(groups[i] as u128).as_str());
        assert(text@ =~= groups_shown(next));
        i += 1;
    }
    assert(all.take(i - from) =~= all);
    text
}

/// Show an IPv6 address.
fn show_v6(address: u128) -> (text: String)
    ensures
        text@ == v6_shown(address),
{
    if address / 0x1_0000_0000 == 0xffff {
        let mut text = String::from_str("::ffff:");
        text.append(show_v4((address % 0x1_0000_0000) as u32).as_str());
        return text;
    }
    let groups = take_apart(address);
    let ghost all = groups@;
    let mut start: usize = 8;
    let mut len: usize = 0;
    let mut run: usize = 0;
    let mut i: usize = 8;
    while i > 0
        invariant
            all == groups@,
            all.len() == 8,
            i <= 8,
            run == zero_run(all, i as int),
            run <= 8 - i,
            longest_run(all, i as int) == (start as int, len as int),
            start + len <= 8,
        decreases i,
    {
        i -= 1;
        if groups[i] == 0 {
            run += 1;
        } else {
            run = 0;
        }
        if run >= len {
            start = i;
            len = run;
        }
    }
    if len > 1 {
        let mut text = show_groups(&groups, 0, start);
        text.append("::");
        text.append(show_groups(&groups, start + len, 8).as_str());
        assert(all.subrange(0, start as int) =~= all.take(start as int));
        assert(all.subrange(start + len, 8) =~= all.skip(start + len));
        text
    } else {
        assert(all.subrange(0, 8) =~= all);
        show_groups(&groups, 0, 8)
    }
}

/// Show an address.
pub fn show(address: IpAddr) -> (text: String)
    ensures
        text@ == shown(address),
{
    match address {
        IpAddr::V4(address) => show_v4(address),
        IpAddr::V6(address) => show_v6(address),
    }
}

/// Show an address and a port.
pub fn show_socket(socket: SocketAddr) -> (text: String)
    ensures
        text@ == socket_shown(socket),
{
    let port = decimal(socket.port as u128);
    match socket.ip {
        IpAddr::V4(address) => {
            let mut text = show_v4(address);
            text.append(":");
            text.append(port.as_str());
            text
        },
        IpAddr::V6(address) => {
            let mut text = String::from_str("[");
            text.append(show_v6(address).as_str());
            text.append("]:");
            text.append(port.as_str());
            text
        },
    }
}

} // verus!
