//! The line side of a destination: the local address that reaches it without passing through the
//! adapter this core owns.
//!
//! What this is for is a resolver the policy says is asked directly while its address is routed into
//! the tunnel for everything else. A socket bound to the line's address keeps both true.
//!
//! The interface is chosen the way the stack chooses one, with this core's adapter left out: the
//! longest prefix covering the destination, then the lowest metric among interfaces that are
//! connected.

use vstd::arithmetic::power2::pow2;
use vstd::bits::{lemma_u128_shr_is_div, lemma_u32_shr_is_div};
use vstd::prelude::*;
use crate::address::IpAddr;

verus! {

/// One route that could carry a packet to the destination.
#[derive(Debug, Clone, Copy, PartialEq, Eq, Structural)]
pub struct Candidate {
    pub luid: u64,
    pub prefix: u8,
    /// The route's metric plus its interface's, which is the number the stack compares.
    pub metric: u32,
}

/// One row of the routing table.
#[derive(Debug, Clone, Copy, PartialEq, Eq, Structural)]
pub struct RouteRow {
    pub luid: u64,
    /// What it leads to, where that is of a family this reads.
    pub prefix: Option<IpAddr>,
    pub length: u8,
    pub metric: u32,
}

/// Whether one route is taken over another: a longer prefix, and then a lower metric.
pub open spec fn preferred(a: Candidate, b: Candidate) -> bool {
    a.prefix > b.prefix || (a.prefix == b.prefix && a.metric < b.metric)
}

/// Which candidate the stack would pick: the last of those that none is preferred over.
pub open spec fn picked(candidates: Seq<Candidate>) -> int
    decreases candidates.len(),
{
    if candidates.len() <= 1 {
        0
    } else {
        let before = picked(candidates.drop_last());
        if preferred(candidates[before], candidates.last()) {
            before
        } else {
            candidates.len() - 1
        }
    }
}

/// The interface the stack would pick among these: longest prefix, then lowest metric.
pub fn pick(candidates: &[Candidate]) -> (luid: Option<u64>)
    ensures
        luid == if candidates@.len() == 0 {
            None
        } else {
            Some(candidates@[picked(candidates@)].luid)
        },
{
    if candidates.len() == 0 {
        return None;
    }
    let mut best: usize = 0;
    let mut i: usize = 1;
    while i < candidates.len()
        invariant
            1 <= i <= candidates.len(),
            best < i,
            best == picked(candidates@.take(i as int)),
        decreases candidates.len() - i,
    {
        let ghost next = candidates@.take(i + 1);
        assert(next.drop_last() =~= candidates@.take(i as int));
        let (a, b) = (candidates[best], candidates[i]);
        assert(next[best as int] == a && next.last() == b);
        if !(a.prefix > b.prefix || (a.prefix == b.prefix && a.metric < b.metric)) {
            best = i;
        }
        i += 1;
    }
    assert(candidates@.take(i as int) =~= candidates@);
    Some(candidates[best].luid)
}

/// No candidate is preferred over the one picked.
pub proof fn law_the_longest_prefix_wins_and_then_the_lowest_metric(candidates: Seq<Candidate>)
    requires
        candidates.len() > 0,
    ensures
        0 <= picked(candidates) < candidates.len(),
        forall|i: int|
            0 <= i < candidates.len() ==> !preferred(
                #[trigger] candidates[i],
                candidates[picked(candidates)],
            ),
    decreases candidates.len(),
{
    if candidates.len() > 1 {
        let before = candidates.drop_last();
        law_the_longest_prefix_wins_and_then_the_lowest_metric(before);
        assert forall|i: int| 0 <= i < candidates.len() implies !preferred(
            #[trigger] candidates[i],
            candidates[picked(candidates)],
        ) by {
            if i < before.len() {
                assert(before[i] == candidates[i]);
            }
        }
    }
}

/// The leading bits of an address of so many bits, as a number.
pub open spec fn leading(address: nat, length: nat, bits: nat) -> nat {
    address / pow2((bits - length) as nat)
}

/// The lesser of two numbers.
pub open spec fn at_most(length: u8, bits: nat) -> nat {
    if length as nat > bits {
        bits
    } else {
        length as nat
    }
}

/// Whether a prefix covers an address: the same family, and the same leading bits.
pub open spec fn covers_spec(prefix: IpAddr, length: u8, destination: IpAddr) -> bool {
    match (prefix, destination) {
        (IpAddr::V4(prefix), IpAddr::V4(destination)) => at_most(length, 32) == 0 || leading(
            prefix as nat,
            at_most(length, 32),
            32,
        ) == leading(destination as nat, at_most(length, 32), 32),
        (IpAddr::V6(prefix), IpAddr::V6(destination)) => at_most(length, 128) == 0 || leading(
            prefix as nat,
            at_most(length, 128),
            128,
        ) == leading(destination as nat, at_most(length, 128), 128),
        _ => false,
    }
}

/// Whether a prefix covers an address of the same family.
pub fn covers(prefix: IpAddr, length: u8, destination: IpAddr) -> (covered: bool)
    ensures
        covered == covers_spec(prefix, length, destination),
{
    match (prefix, destination) {
        (IpAddr::V4(prefix), IpAddr::V4(destination)) => {
            if length == 0 {
                return true;
            }
            let shift: u32 = if length >= 32 {
                0
            } else {
                32 - length as u32
            };
            proof {
                lemma_u32_shr_is_div(prefix, shift);
                lemma_u32_shr_is_div(destination, shift);
            }
            prefix >> shift == destination >> shift
        },
        (IpAddr::V6(prefix), IpAddr::V6(destination)) => {
            if length == 0 {
                return true;
            }
            let shift: u128 = if length >= 128 {
                0
            } else {
                128 - length as u128
            };
            proof {
                lemma_u128_shr_is_div(prefix, shift);
                lemma_u128_shr_is_div(destination, shift);
            }
            prefix >> shift == destination >> shift
        },
        _ => false,
    }
}

/// A default route covers everything of its family, a host route its host, and no prefix anything of
/// the other family.
pub proof fn law_a_prefix_covers_what_it_says(address: IpAddr, other: IpAddr, length: u8)
    ensures
        (address is V4) == (other is V4) ==> covers_spec(address, 0, other),
        covers_spec(address, length, address),
        (address is V4) && (other is V4) ==> (covers_spec(address, 32, other) <==> address == other),
        (address is V6) && (other is V6) ==> (covers_spec(address, 128, other) <==> address
            == other),
        (address is V4) != (other is V4) ==> !covers_spec(address, length, other),
{
    vstd::arithmetic::power2::lemma2_to64();
    match (address, other) {
        (IpAddr::V4(a), IpAddr::V4(b)) => {
            lemma_whole(a as nat, 32);
            lemma_whole(b as nat, 32);
        },
        (IpAddr::V6(a), IpAddr::V6(b)) => {
            lemma_whole(a as nat, 128);
            lemma_whole(b as nat, 128);
        },
        _ => {},
    }
}

/// All the leading bits of an address are the address.
proof fn lemma_whole(address: nat, bits: nat)
    ensures
        leading(address, bits, bits) == address,
{
    vstd::arithmetic::power2::lemma2_to64();
    let one = pow2(0);
    assert(address / one == address) by (nonlinear_arith)
        requires
            one == 1,
    ;
}

/// Whether a row of the table leads to a destination by another interface than `ours`.
pub open spec fn leads_to(row: RouteRow, ours: u64, destination: IpAddr) -> bool {
    row.luid != ours && match row.prefix {
        Some(prefix) => covers_spec(prefix, row.length, destination),
        None => false,
    }
}

/// Whether a row of the table leads to a destination by another interface than `ours`.
pub fn leads(row: RouteRow, ours: u64, destination: IpAddr) -> (leads: bool)
    ensures
        leads == leads_to(row, ours, destination),
{
    if row.luid == ours {
        return false;
    }
    match row.prefix {
        Some(prefix) => covers(prefix, row.length, destination),
        None => false,
    }
}

/// What a row that leads to the destination is as a candidate, given its interface's metric. None
/// where the interface is not connected: a route on an interface with no link is a row in a table,
/// not a way out.
pub fn candidate(row: RouteRow, interface: Option<u32>) -> (candidate: Option<Candidate>)
    ensures
        candidate == as_candidate(row, interface),
{
    match interface {
        None => None,
        Some(interface) => {
            let metric: u32 = if row.metric > u32::MAX - interface {
                u32::MAX
            } else {
                row.metric + interface
            };
            Some(Candidate { luid: row.luid, prefix: row.length, metric })
        },
    }
}

/// The metric of an interface, as it was read: none where it is not connected, or was not read.
pub open spec fn metric_read(metrics: Seq<(u64, Option<u32>)>, luid: u64) -> Option<u32>
    decreases metrics.len(),
{
    if metrics.len() == 0 {
        None
    } else if metrics[0].0 == luid {
        metrics[0].1
    } else {
        metric_read(metrics.drop_first(), luid)
    }
}

/// The metric of an interface, as it was read.
fn metric_of(metrics: &[(u64, Option<u32>)], luid: u64) -> (metric: Option<u32>)
    ensures
        metric == metric_read(metrics@, luid),
{
    let mut i: usize = 0;
    assert(metrics@.skip(0) =~= metrics@);
    while i < metrics.len()
        invariant
            i <= metrics.len(),
            metric_read(metrics@, luid) == metric_read(metrics@.skip(i as int), luid),
        decreases metrics.len() - i,
    {
        assert(metrics@.skip(i as int).drop_first() =~= metrics@.skip(i + 1));
        if metrics[i].0 == luid {
            return metrics[i].1;
        }
        i += 1;
    }
    None
}

/// The interfaces, each once, that rows leading to a destination stand on, in the order of the rows.
pub open spec fn interfaces(rows: Seq<RouteRow>, ours: u64, destination: IpAddr) -> Seq<u64>
    decreases rows.len(),
{
    if rows.len() == 0 {
        Seq::empty()
    } else {
        let before = interfaces(rows.drop_last(), ours, destination);
        let last = rows.last();
        if leads_to(last, ours, destination) && !before.contains(last.luid) {
            before.push(last.luid)
        } else {
            before
        }
    }
}

/// Which interfaces' metrics are needed. The table has a row per route and this core alone installs
/// hundreds, so an interface's metric is read once per lookup rather than once per row.
pub fn interfaces_to_read(rows: &[RouteRow], ours: u64, destination: IpAddr) -> (luids: Vec<u64>)
    ensures
        luids@ == interfaces(rows@, ours, destination),
{
    let mut luids: Vec<u64> = Vec::new();
    let mut i: usize = 0;
    assert(rows@.take(0) =~= Seq::empty());
    while i < rows.len()
        invariant
            i <= rows.len(),
            luids@ == interfaces(rows@.take(i as int), ours, destination),
        decreases rows.len() - i,
    {
        assert(rows@.take(i + 1).drop_last() =~= rows@.take(i as int));
        let row = rows[i];
        if leads(row, ours, destination) && !listed(&luids, row.luid) {
            luids.push(row.luid);
        }
        i += 1;
    }
    assert(rows@.take(i as int) =~= rows@);
    luids
}

fn listed(luids: &Vec<u64>, luid: u64) -> (held: bool)
    ensures
        held == luids@.contains(luid),
{
    let mut i: usize = 0;
    while i < luids.len()
        invariant
            i <= luids.len(),
            forall|k: int| 0 <= k < i ==> luids@[k] != luid,
        decreases luids.len() - i,
    {
        if luids[i] == luid {
            assert(luids@[i as int] == luid);
            return true;
        }
        i += 1;
    }
    false
}

/// A row that leads to the destination as a candidate, given its interface's metric.
pub open spec fn as_candidate(row: RouteRow, interface: Option<u32>) -> Option<Candidate> {
    match interface {
        None => None,
        Some(interface) => Some(
            Candidate {
                luid: row.luid,
                prefix: row.length,
                metric: if row.metric + interface > u32::MAX {
                    u32::MAX
                } else {
                    (row.metric + interface) as u32
                },
            },
        ),
    }
}

/// Every row that leads to a destination, on a connected interface other than `ours`, as a
/// candidate.
pub open spec fn candidates(
    rows: Seq<RouteRow>,
    metrics: Seq<(u64, Option<u32>)>,
    ours: u64,
    destination: IpAddr,
) -> Seq<Candidate>
    decreases rows.len(),
{
    if rows.len() == 0 {
        Seq::empty()
    } else {
        let before = candidates(rows.drop_last(), metrics, ours, destination);
        let last = rows.last();
        if !leads_to(last, ours, destination) {
            before
        } else {
            match as_candidate(last, metric_read(metrics, last.luid)) {
                Some(candidate) => before.push(candidate),
                None => before,
            }
        }
    }
}

/// Every route in the table that covers `destination`, on a connected interface other than `ours`.
pub fn routes_to(
    rows: &[RouteRow],
    metrics: &[(u64, Option<u32>)],
    ours: u64,
    destination: IpAddr,
) -> (found: Vec<Candidate>)
    ensures
        found@ == candidates(rows@, metrics@, ours, destination),
{
    let mut found: Vec<Candidate> = Vec::new();
    let mut i: usize = 0;
    assert(rows@.take(0) =~= Seq::empty());
    while i < rows.len()
        invariant
            i <= rows.len(),
            found@ == candidates(rows@.take(i as int), metrics@, ours, destination),
        decreases rows.len() - i,
    {
        assert(rows@.take(i + 1).drop_last() =~= rows@.take(i as int));
        let row = rows[i];
        if leads(row, ours, destination) {
            if let Some(candidate) = candidate(row, metric_of(metrics, row.luid)) {
                found.push(candidate);
            }
        }
        i += 1;
    }
    assert(rows@.take(i as int) =~= rows@);
    found
}

/// The interface to reach a destination by without the adapter `ours`, or `None` when no other has a
/// route to it.
///
/// A link-local destination is left alone: it needs its zone to be dialled at all, and the stack's
/// own choice for it is already the line's.
pub fn interface_for(
    rows: &[RouteRow],
    metrics: &[(u64, Option<u32>)],
    ours: u64,
    destination: IpAddr,
) -> (luid: Option<u64>)
    ensures
        luid == {
            let found = candidates(rows@, metrics@, ours, destination);
            if link_local(destination) || found.len() == 0 {
                None
            } else {
                Some(found[picked(found)].luid)
            }
        },
{
    if is_link_local(destination) {
        return None;
    }
    let found = routes_to(rows, metrics, ours, destination);
    pick(found.as_slice())
}

/// The local address that reaches a destination, given what the stack gives as one on the interface
/// it is reached by: none in particular is none.
pub fn source_for(given: Option<IpAddr>) -> (source: Option<IpAddr>)
    ensures
        source == if given == Some(IpAddr::V4(0)) || given == Some(IpAddr::V6(0)) {
            None
        } else {
            given
        },
{
    match given {
        Some(address) => if is_unspecified(address) {
            None
        } else {
            Some(address)
        },
        None => None,
    }
}

/// The adapter this core owns is never the way to a destination.
pub proof fn law_the_way_out_is_never_our_own_adapter(
    rows: Seq<RouteRow>,
    metrics: Seq<(u64, Option<u32>)>,
    ours: u64,
    destination: IpAddr,
)
    ensures
        forall|i: int|
            0 <= i < candidates(rows, metrics, ours, destination).len() ==> (
            #[trigger] candidates(rows, metrics, ours, destination)[i]).luid != ours,
    decreases rows.len(),
{
    if rows.len() > 0 {
        law_the_way_out_is_never_our_own_adapter(rows.drop_last(), metrics, ours, destination);
        let before = candidates(rows.drop_last(), metrics, ours, destination);
        let now = candidates(rows, metrics, ours, destination);
        assert forall|i: int| 0 <= i < now.len() implies (#[trigger] now[i]).luid != ours by {
            if i < before.len() {
                assert(now[i] == before[i]);
            }
        }
    }
}

/// Whether an address is link-local: 169.254.0.0/16, or fe80::/10.
pub open spec fn link_local(address: IpAddr) -> bool {
    match address {
        IpAddr::V4(address) => address / 65536 == 0xa9fe,
        IpAddr::V6(address) => address / 0x40_0000_0000_0000_0000_0000_0000_0000 == 0x3fa,
    }
}

/// Whether an address is link-local. Such a destination is left alone: it needs its zone to be
/// dialled at all, and the stack's own choice for it is already the line's.
pub fn is_link_local(address: IpAddr) -> (local: bool)
    ensures
        local == link_local(address),
{
    match address {
        IpAddr::V4(address) => address / 65536 == 0xa9fe,
        IpAddr::V6(address) => address / 0x40_0000_0000_0000_0000_0000_0000_0000 == 0x3fa,
    }
}

/// Whether an address is none in particular.
pub fn is_unspecified(address: IpAddr) -> (unspecified: bool)
    ensures
        unspecified == (address == IpAddr::V4(0) || address == IpAddr::V6(0)),
{
    match address {
        IpAddr::V4(address) => address == 0,
        IpAddr::V6(address) => address == 0,
    }
}

/// Whether two addresses of so many bits lie in one block: one that begins at a multiple of its own
/// size, which is two to the power of the bits that the prefix leaves open.
pub open spec fn in_one_block(a: nat, b: nat, open: nat) -> bool {
    exists|first: nat|
        #![trigger first % pow2(open)]
        first % pow2(open) == 0 && first <= a < first + pow2(open) && first <= b < first + pow2(open)
}

proof fn lemma_block(a: nat, b: nat, open: nat)
    ensures
        in_one_block(a, b, open) <==> a / pow2(open) == b / pow2(open),
{
    vstd::arithmetic::power2::lemma_pow2_pos(open);
    let size = pow2(open) as int;
    if a / pow2(open) == b / pow2(open) {
        let first = (a as int / size) * size;
        vstd::arithmetic::div_mod::lemma_fundamental_div_mod(a as int, size);
        vstd::arithmetic::div_mod::lemma_fundamental_div_mod(b as int, size);
        vstd::arithmetic::div_mod::lemma_mod_multiples_basic(a as int / size, size);
        assert(size * (a as int / size) == first) by (nonlinear_arith)
            requires
                first == (a as int / size) * size,
        ;
        assert(first >= 0) by (nonlinear_arith)
            requires
                first == (a as int / size) * size,
                a >= 0,
                size > 0,
        ;
        assert((first as nat) % pow2(open) == 0);
    }
    if in_one_block(a, b, open) {
        let first = choose|first: nat|
            #![trigger first % pow2(open)]
            first % pow2(open) == 0 && first <= a < first + pow2(open) && first <= b < first
                + pow2(open);
        let n = first as int / size;
        vstd::arithmetic::div_mod::lemma_fundamental_div_mod(first as int, size);
        assert(first == n * size) by (nonlinear_arith)
            requires
                first as int == size * n + 0,
        ;
        vstd::arithmetic::div_mod::lemma_fundamental_div_mod_converse(
            a as int,
            size,
            n,
            a as int - first as int,
        );
        vstd::arithmetic::div_mod::lemma_fundamental_div_mod_converse(
            b as int,
            size,
            n,
            b as int - first as int,
        );
    }
}

/// A prefix covers the block of addresses it lies in, all of it and nothing else: two to the power of
/// the bits it leaves open, from a multiple of that on. A length beyond the family's is the whole
/// address.
pub proof fn law_a_prefix_covers_one_block(a: u32, b: u32, c: u128, d: u128, length: u8)
    ensures
        length <= 32 ==> (covers_spec(IpAddr::V4(a), length, IpAddr::V4(b)) <==> length == 0
            || in_one_block(a as nat, b as nat, (32 - length) as nat)),
        length > 32 ==> (covers_spec(IpAddr::V4(a), length, IpAddr::V4(b)) <==> a == b),
        length <= 128 ==> (covers_spec(IpAddr::V6(c), length, IpAddr::V6(d)) <==> length == 0
            || in_one_block(c as nat, d as nat, (128 - length) as nat)),
        length > 128 ==> (covers_spec(IpAddr::V6(c), length, IpAddr::V6(d)) <==> c == d),
{
    if length <= 32 {
        lemma_block(a as nat, b as nat, (32 - length) as nat);
    } else {
        lemma_whole(a as nat, 32);
        lemma_whole(b as nat, 32);
    }
    if length <= 128 {
        lemma_block(c as nat, d as nat, (128 - length) as nat);
    } else {
        lemma_whole(c as nat, 128);
        lemma_whole(d as nat, 128);
    }
}

/// The one picked has as long a prefix as any, among those the lowest metric, and among those it is
/// the last.
pub proof fn law_the_last_of_the_best_is_picked(candidates: Seq<Candidate>, i: int)
    requires
        0 <= i < candidates.len(),
    ensures
        0 <= picked(candidates) < candidates.len(),
        ({
            let best = candidates[picked(candidates)];
            &&& candidates[i].prefix <= best.prefix
            &&& candidates[i].prefix == best.prefix ==> candidates[i].metric >= best.metric
            &&& i > picked(candidates) ==> candidates[i].prefix < best.prefix
                || candidates[i].metric > best.metric
        }),
    decreases candidates.len(),
{
    if candidates.len() > 1 {
        let before = candidates.drop_last();
        law_the_longest_prefix_wins_and_then_the_lowest_metric(before);
        law_the_last_of_the_best_is_picked(before, picked(before));
        if i < before.len() {
            law_the_last_of_the_best_is_picked(before, i);
            assert(before[i] == candidates[i]);
        }
        assert(before[picked(before)] == candidates[picked(before)]);
    }
}

/// One row more is one way more exactly where it is on another adapter than ours, leads to the
/// destination, and its interface is connected; the way is as long as the row's prefix and costs what
/// the row and its interface cost together, as far as that can be counted.
pub proof fn law_a_row_is_a_way_where_it_leads_there(
    rows: Seq<RouteRow>,
    row: RouteRow,
    metrics: Seq<(u64, Option<u32>)>,
    ours: u64,
    destination: IpAddr,
)
    ensures
        ({
            let before = candidates(rows, metrics, ours, destination);
            let after = candidates(rows.push(row), metrics, ours, destination);
            let interface = metric_read(metrics, row.luid);
            let leads = row.luid != ours && row.prefix is Some && covers_spec(
                row.prefix->0,
                row.length,
                destination,
            ) && interface is Some;
            &&& !leads ==> after == before
            &&& leads ==> after.len() == before.len() + 1 && after.drop_last() == before && {
                let way = after.last();
                &&& way.luid == row.luid && way.prefix == row.length
                &&& row.metric + interface->0 <= 0xffff_ffff ==> way.metric == row.metric
                    + interface->0
                &&& row.metric + interface->0 > 0xffff_ffff ==> way.metric == 0xffff_ffff
            }
        }),
        candidates(Seq::empty(), metrics, ours, destination) == Seq::<Candidate>::empty(),
{
    assert(rows.push(row).drop_last() =~= rows);
    let before = candidates(rows, metrics, ours, destination);
    if let Some(way) = as_candidate(row, metric_read(metrics, row.luid)) {
        assert(before.push(way).drop_last() =~= before);
    }
}

/// An interface's metric is the first that was read of it, and none where none was.
pub proof fn law_the_first_metric_read_counts(
    metrics: Seq<(u64, Option<u32>)>,
    luid: u64,
    other: u64,
    metric: Option<u32>,
)
    ensures
        metric_read(Seq::empty(), luid) is None,
        metric_read(seq![(luid, metric)] + metrics, luid) == metric,
        other != luid ==> metric_read(seq![(other, metric)] + metrics, luid) == metric_read(
            metrics,
            luid,
        ),
{
    assert((seq![(luid, metric)] + metrics).drop_first() =~= metrics);
    assert((seq![(other, metric)] + metrics).drop_first() =~= metrics);
}

/// The interfaces to read are those that some row leading to the destination stands on, each once.
pub proof fn law_each_interface_is_read_once(
    rows: Seq<RouteRow>,
    ours: u64,
    destination: IpAddr,
    luid: u64,
)
    ensures
        interfaces(rows, ours, destination).no_duplicates(),
        interfaces(rows, ours, destination).contains(luid) <==> exists|i: int|
            0 <= i < rows.len() && leads_to(#[trigger] rows[i], ours, destination) && rows[i].luid
                == luid,
        interfaces(rows, ours, destination).contains(luid) ==> luid != ours,
    decreases rows.len(),
{
    if rows.len() > 0 {
        let less = rows.drop_last();
        let before = interfaces(less, ours, destination);
        law_each_interface_is_read_once(less, ours, destination, luid);
        let last = rows.last();
        law_each_interface_is_read_once(less, ours, destination, last.luid);
        let all = interfaces(rows, ours, destination);
        if exists|i: int|
            0 <= i < rows.len() && leads_to(#[trigger] rows[i], ours, destination) && rows[i].luid
                == luid {
            let i = choose|i: int|
                0 <= i < rows.len() && leads_to(#[trigger] rows[i], ours, destination)
                    && rows[i].luid == luid;
            if i < less.len() {
                assert(less[i] == rows[i]);
                let k = choose|k: int| 0 <= k < before.len() && before[k] == luid;
                assert(all[k] == luid);
            } else if !before.contains(luid) {
                assert(all.last() == luid);
                assert(all[all.len() - 1] == luid);
            } else {
                assert(all == before);
            }
        }
        if all.contains(luid) {
            let k = choose|k: int| 0 <= k < all.len() && all[k] == luid;
            if k < before.len() {
                assert(before[k] == luid);
                let i = choose|i: int|
                    0 <= i < less.len() && leads_to(#[trigger] less[i], ours, destination)
                        && less[i].luid == luid;
                assert(rows[i] == less[i]);
            } else {
                assert(rows[rows.len() - 1] == last);
            }
        }
    }
}

/// Link-local is 169.254.0.0 to 169.254.255.255, and fe80:: to febf:ffff:ffff:ffff:ffff:ffff:ffff:ffff.
pub proof fn law_the_addresses_that_are_link_local(v4: u32, v6: u128)
    ensures
        link_local(IpAddr::V4(v4)) <==> 0xa9fe_0000 <= v4 <= 0xa9fe_ffff,
        link_local(IpAddr::V6(v6)) <==> 0xfe80_0000_0000_0000_0000_0000_0000_0000 <= v6
            <= 0xfebf_ffff_ffff_ffff_ffff_ffff_ffff_ffff,
{
}

} // verus!
