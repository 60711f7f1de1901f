//! What is held is what the calls so far say should be: until when an address is believed, and for
//! which names, read off the answers and the traffic alone.

use vstd::prelude::*;
use crate::address::IpAddr;
use crate::dns::lease::{
    after, current, held_addresses, holds, lemma_current_tidy, lemma_inserted, lemma_place,
    lemma_place_by_address, lifetime, place, recorded, renewed, taken_in, tidy, touched, LeaseState,
    MAX_LEASES, MIN_LEASE,
};
use crate::dns::message::Answer;

verus! {

/// One call on the table, at a moment of the table's clock.
pub ghost enum Call {
    Record { name: Seq<char>, records: Seq<Answer>, now: u64 },
    Touch { address: IpAddr, now: u64 },
    Expire { now: u64 },
}

/// When a call was made.
pub open spec fn moment(call: Call) -> u64 {
    match call {
        Call::Record { now, .. } => now,
        Call::Touch { now, .. } => now,
        Call::Expire { now } => now,
    }
}

/// The leases after a call.
pub open spec fn after_call(leases: Seq<LeaseState>, call: Call) -> Seq<LeaseState> {
    match call {
        Call::Record { name, records, now } => recorded(leases, name, records, now),
        Call::Touch { address, now } => touched(leases, address, now),
        Call::Expire { now } => current(leases, now),
    }
}

/// The leases after a run of calls on a new table.
pub open spec fn after_calls(calls: Seq<Call>) -> Seq<LeaseState>
    decreases calls.len(),
{
    if calls.len() == 0 {
        Seq::empty()
    } else {
        after_call(after_calls(calls.drop_last()), calls.last())
    }
}

/// Whether time never went back between calls.
pub open spec fn in_time(calls: Seq<Call>) -> bool {
    forall|i: int, j: int|
        0 <= i < j < calls.len() ==> moment(#[trigger] calls[i]) <= moment(#[trigger] calls[j])
}

/// Whether the table always had room for what it was asked to record.
pub open spec fn never_full(calls: Seq<Call>) -> bool
    decreases calls.len(),
{
    calls.len() > 0 ==> {
        &&& never_full(calls.drop_last())
        &&& calls.last() matches Call::Record { records, .. } ==> after_calls(
            calls.drop_last(),
        ).len() + records.len() <= MAX_LEASES
    }
}

/// The later of two moments.
pub open spec fn later(a: u64, b: u64) -> u64 {
    if a > b {
        a
    } else {
        b
    }
}

/// The latest an answer at a moment asks for an address to be believed until, if it names it, and
/// otherwise what was so before.
pub open spec fn latest_of_records(
    before: u64,
    records: Seq<Answer>,
    now: u64,
    address: IpAddr,
) -> u64
    decreases records.len(),
{
    if records.len() == 0 {
        before
    } else {
        let so_far = latest_of_records(before, records.drop_last(), now, address);
        if records.last().address == address {
            later(so_far, after(now, lifetime(records.last().ttl)))
        } else {
            so_far
        }
    }
}

/// Whether an answer names an address.
pub open spec fn answers_with(records: Seq<Answer>, address: IpAddr) -> bool {
    exists|i: int| 0 <= i < records.len() && (#[trigger] records[i]).address == address
}

/// The latest an address was ever to be believed until: by a record of it, its lifetime after the
/// answer; by traffic to it while it was held, the floor after that.
pub open spec fn latest(calls: Seq<Call>, address: IpAddr) -> u64
    decreases calls.len(), 1int,
{
    if calls.len() == 0 {
        0
    } else {
        let before = latest(calls.drop_last(), address);
        match calls.last() {
            Call::Record { records, now, .. } => latest_of_records(before, records, now, address),
            Call::Touch { address: used, now } => if used == address && is_held(
                calls.drop_last(),
                address,
            ) {
                later(before, after(now, MIN_LEASE))
            } else {
                before
            },
            Call::Expire { now } => before,
        }
    }
}

/// Whether an address is held after a run of calls: once an answer named it, until what is due is
/// let go of at a moment no earlier than it was to be believed until. Traffic holds nothing.
pub open spec fn is_held(calls: Seq<Call>, address: IpAddr) -> bool
    decreases calls.len(), 0int,
{
    if calls.len() == 0 {
        false
    } else {
        let before = is_held(calls.drop_last(), address);
        match calls.last() {
            Call::Record { records, .. } => before || answers_with(records, address),
            Call::Touch { .. } => before,
            Call::Expire { now } => before && latest(calls.drop_last(), address) > now,
        }
    }
}

/// The names an address is held for: those of the answers that named it since it was last not held.
pub open spec fn held_for(calls: Seq<Call>, address: IpAddr) -> Set<Seq<char>>
    decreases calls.len(),
{
    if calls.len() == 0 || !is_held(calls, address) {
        Set::empty()
    } else {
        let before = held_for(calls.drop_last(), address);
        match calls.last() {
            Call::Record { name, records, .. } => if answers_with(records, address) {
                before.insert(name)
            } else {
                before
            },
            _ => before,
        }
    }
}

/// Whether leases say of an address that it is held until then for those names, or that it is not.
pub open spec fn told(
    leases: Seq<LeaseState>,
    address: IpAddr,
    held: bool,
    until: u64,
    names: Set<Seq<char>>,
) -> bool {
    match place(leases, address) {
        Some(at) => held && leases[at].expires == until && leases[at].names.to_set() == names,
        None => !held,
    }
}

/// The table holds what its history says: an address is held exactly where the calls so far say so,
/// until the latest moment any of them asked for, and for the names of the answers that named it.
pub proof fn law_leases_follow_their_history(calls: Seq<Call>, address: IpAddr)
    requires
        in_time(calls),
        never_full(calls),
    ensures
        tidy(after_calls(calls)),
        told(
            after_calls(calls),
            address,
            is_held(calls, address),
            latest(calls, address),
            held_for(calls, address),
        ),
{
    lemma_history(calls, address);
}

/// Letting go of what is due keeps exactly the addresses that are held and still to be believed,
/// each for the names it was held for, and says so exactly where any was let go of.
pub proof fn law_expiry_keeps_what_is_still_believed(calls: Seq<Call>, now: u64)
    requires
        in_time(calls),
        never_full(calls),
    ensures
        ({
            let before = after_calls(calls);
            let left = current(before, now);
            &&& forall|address: IpAddr| #[trigger]
                holds(left, address) <==> is_held(calls, address) && latest(calls, address) > now
            &&& forall|i: int|
                0 <= i < left.len() ==> (#[trigger] left[i]).names.to_set() == held_for(
                    calls,
                    left[i].address,
                )
            &&& left.len() != before.len() <==> exists|address: IpAddr| #[trigger]
                is_held(calls, address) && latest(calls, address) <= now
        }),
{
    let before = after_calls(calls);
    let left = current(before, now);
    lemma_history(calls, IpAddr::V4(0));
    lemma_current_tidy(before, now);
    assert forall|address: IpAddr| #[trigger] holds(left, address) <==> is_held(calls, address)
        && latest(calls, address) > now by {
        lemma_history(calls, address);
        lemma_place(before, address);
        if holds(left, address) {
            let k = choose|k: int| 0 <= k < left.len() && (#[trigger] left[k]).address == address;
            assert(before.contains(left[k]));
        }
        if is_held(calls, address) && latest(calls, address) > now {
            let at = place(before, address)->0;
            assert(left.contains(before[at]));
            let k = choose|k: int| 0 <= k < left.len() && left[k] == before[at];
            assert(left[k].address == address);
        }
    }
    assert forall|i: int| 0 <= i < left.len() implies (#[trigger] left[i]).names.to_set()
        == held_for(calls, left[i].address) by {
        let address = left[i].address;
        lemma_history(calls, address);
        lemma_place(before, address);
        assert(before.contains(left[i]));
        let k = choose|k: int| 0 <= k < before.len() && before[k] == left[i];
        assert(k == place(before, address)->0);
    }
    lemma_let_go(before, now);
    if left.len() != before.len() {
        let i = choose|i: int| 0 <= i < before.len() && (#[trigger] before[i]).expires <= now;
        let address = before[i].address;
        lemma_history(calls, address);
        lemma_place(before, address);
        assert(i == place(before, address)->0);
        assert(is_held(calls, address) && latest(calls, address) <= now);
    }
    if exists|address: IpAddr| #[trigger]
        is_held(calls, address) && latest(calls, address) <= now {
        let address = choose|address: IpAddr| #[trigger]
            is_held(calls, address) && latest(calls, address) <= now;
        lemma_history(calls, address);
        lemma_place(before, address);
        assert(before[place(before, address)->0].expires <= now);
    }
}

/// Fewer are left exactly where one was due.
proof fn lemma_let_go(leases: Seq<LeaseState>, now: u64)
    ensures
        current(leases, now).len() <= leases.len(),
        current(leases, now).len() != leases.len() <==> exists|i: int|
            0 <= i < leases.len() && (#[trigger] leases[i]).expires <= now,
    decreases leases.len(),
{
    reveal(Seq::filter);
    if leases.len() > 0 {
        let before = leases.drop_last();
        lemma_let_go(before, now);
        assert(forall|i: int| 0 <= i < before.len() ==> before[i] == #[trigger] leases[i]);
        if exists|i: int| 0 <= i < leases.len() && (#[trigger] leases[i]).expires <= now {
            let i = choose|i: int| 0 <= i < leases.len() && (#[trigger] leases[i]).expires <= now;
            if i < before.len() {
                assert(before[i].expires <= now);
            }
        }
        if current(before, now).len() != before.len() {
            let i = choose|i: int| 0 <= i < before.len() && (#[trigger] before[i]).expires <= now;
            assert(leases[i].expires <= now);
        }
        if leases.last().expires <= now {
            assert(leases[leases.len() - 1].expires <= now);
        }
    }
}

/// The last moment a run of calls reached.
spec fn reached(calls: Seq<Call>) -> u64 {
    if calls.len() == 0 {
        0
    } else {
        moment(calls.last())
    }
}

/// What holds of an address after every run of calls: the table says of it what its history says,
/// and where it is not held, no moment still to come is one it was to be believed at.
proof fn lemma_history(calls: Seq<Call>, address: IpAddr)
    requires
        in_time(calls),
        never_full(calls),
    ensures
        tidy(after_calls(calls)),
        told(
            after_calls(calls),
            address,
            is_held(calls, address),
            latest(calls, address),
            held_for(calls, address),
        ),
        !is_held(calls, address) ==> latest(calls, address) <= reached(calls),
    decreases calls.len(),
{
    if calls.len() > 0 {
        let before = calls.drop_last();
        assert(in_time(before)) by {
            assert forall|i: int, j: int| 0 <= i < j < before.len() implies moment(
                #[trigger] before[i],
            ) <= moment(#[trigger] before[j]) by {
                assert(before[i] == calls[i] && before[j] == calls[j]);
            }
        }
        lemma_history(before, address);
        if before.len() > 0 {
            assert(calls[calls.len() - 2] == before.last());
            assert(moment(calls[calls.len() - 2]) <= moment(calls[calls.len() - 1]));
        }
        let leases = after_calls(before);
        let held = is_held(before, address);
        let until = latest(before, address);
        let names = held_for(before, address);
        match calls.last() {
            Call::Record { name, records, now } => {
                lemma_recorded(leases, name, records, now, address, held, until, names);
            },
            Call::Touch { address: used, now } => {
                lemma_touched(leases, used, now, address, held, until, names);
            },
            Call::Expire { now } => {
                lemma_expired(leases, now, address, held, until, names);
            },
        }
    }
}

/// Where an address is, where it is held once.
proof fn lemma_place_is(leases: Seq<LeaseState>, at: int)
    requires
        tidy(leases),
        0 <= at < leases.len(),
    ensures
        place(leases, leases[at].address) == Some(at),
{
    lemma_place(leases, leases[at].address);
    let found = place(leases, leases[at].address)->0;
    if found < at {
        assert(leases[found].address != leases[at].address);
    } else if at < found {
        assert(leases[at].address != leases[found].address);
    }
}

proof fn lemma_taken_in(
    leases: Seq<LeaseState>,
    name: Seq<char>,
    record: Answer,
    now: u64,
    address: IpAddr,
    held: bool,
    until: u64,
    names: Set<Seq<char>>,
)
    requires
        tidy(leases),
        leases.len() < MAX_LEASES,
        told(leases, address, held, until, names),
        !held ==> until <= now && names == Set::<Seq<char>>::empty(),
    ensures
        ({
            let then = taken_in(leases, name, record, now);
            &&& tidy(then)
            &&& then.len() <= leases.len() + 1
            &&& if record.address == address {
                told(
                    then,
                    address,
                    true,
                    later(until, after(now, lifetime(record.ttl))),
                    names.insert(name),
                )
            } else {
                told(then, address, held, until, names)
            }
        }),
{
    let then = taken_in(leases, name, record, now);
    let expires = after(now, lifetime(record.ttl));
    lemma_place(leases, record.address);
    lemma_place(leases, address);
    match place(leases, record.address) {
        Some(at) => {
            let more = renewed(leases[at], name, expires);
            lemma_inserted(leases[at].names, name);
            assert(forall|i: int|
                0 <= i < then.len() ==> (#[trigger] then[i]).address == leases[i].address);
            assert(tidy(then)) by {
                assert forall|i: int, j: int| 0 <= i < j < then.len() implies (
                #[trigger] then[i]).address != (#[trigger] then[j]).address by {
                    assert(leases[i].address != leases[j].address);
                }
            }
            assert(held_addresses(then) =~= held_addresses(leases));
            lemma_place_by_address(then, leases, address);
            if record.address == address {
                assert(more.names.to_set() =~= names.insert(name));
            }
        },
        None => {
            assert(then.drop_last() =~= leases);
            assert forall|i: int| 0 <= i < then.len() implies then[i] == if i < leases.len() {
                leases[i]
            } else {
                LeaseState { address: record.address, expires, names: seq![name] }
            } by {}
            assert(seq![name].to_set() =~= Set::<Seq<char>>::empty().insert(name)) by {
                assert(seq![name][0] == name);
            }
        },
    }
}

proof fn lemma_recorded(
    leases: Seq<LeaseState>,
    name: Seq<char>,
    records: Seq<Answer>,
    now: u64,
    address: IpAddr,
    held: bool,
    until: u64,
    names: Set<Seq<char>>,
)
    requires
        tidy(leases),
        leases.len() + records.len() <= MAX_LEASES,
        told(leases, address, held, until, names),
        !held ==> until <= now && names == Set::<Seq<char>>::empty(),
    ensures
        ({
            let then = recorded(leases, name, records, now);
            let named = answers_with(records, address);
            &&& tidy(then)
            &&& then.len() <= leases.len() + records.len()
            &&& told(
                then,
                address,
                held || named,
                latest_of_records(until, records, now, address),
                if named {
                    names.insert(name)
                } else {
                    names
                },
            )
            &&& !(held || named) ==> latest_of_records(until, records, now, address) == until
        }),
    decreases records.len(),
{
    if records.len() > 0 {
        let first = records.drop_last();
        lemma_recorded(leases, name, first, now, address, held, until, names);
        let so_far = recorded(leases, name, first, now);
        let named = answers_with(first, address);
        let so_named = if named {
            names.insert(name)
        } else {
            names
        };
        lemma_taken_in(
            so_far,
            name,
            records.last(),
            now,
            address,
            held || named,
            latest_of_records(until, first, now, address),
            so_named,
        );
        assert(so_named.insert(name) =~= names.insert(name));
        assert(forall|i: int| 0 <= i < first.len() ==> first[i] == #[trigger] records[i]);
        if records.last().address == address {
            assert(records[records.len() - 1].address == address);
        } else if answers_with(records, address) {
            let i = choose|i: int|
                0 <= i < records.len() && (#[trigger] records[i]).address == address;
            assert(first[i].address == address);
        }
        if named {
            let i = choose|i: int| 0 <= i < first.len() && (#[trigger] first[i]).address == address;
            assert(records[i].address == address);
        }
    }
}

proof fn lemma_touched(
    leases: Seq<LeaseState>,
    used: IpAddr,
    now: u64,
    address: IpAddr,
    held: bool,
    until: u64,
    names: Set<Seq<char>>,
)
    requires
        tidy(leases),
        told(leases, address, held, until, names),
    ensures
        ({
            let then = touched(leases, used, now);
            &&& tidy(then)
            &&& told(
                then,
                address,
                held,
                if used == address && held {
                    later(until, after(now, MIN_LEASE))
                } else {
                    until
                },
                names,
            )
        }),
{
    let then = touched(leases, used, now);
    lemma_place(leases, used);
    lemma_place(leases, address);
    assert(forall|i: int|
        0 <= i < then.len() ==> (#[trigger] then[i]).address == leases[i].address
            && then[i].names == leases[i].names);
    assert(tidy(then)) by {
        assert forall|i: int, j: int| 0 <= i < j < then.len() implies (
        #[trigger] then[i]).address != (#[trigger] then[j]).address by {
            assert(leases[i].address != leases[j].address);
        }
    }
    assert(held_addresses(then) =~= held_addresses(leases));
    lemma_place_by_address(then, leases, address);
}

proof fn lemma_expired(
    leases: Seq<LeaseState>,
    now: u64,
    address: IpAddr,
    held: bool,
    until: u64,
    names: Set<Seq<char>>,
)
    requires
        tidy(leases),
        told(leases, address, held, until, names),
    ensures
        ({
            let then = current(leases, now);
            &&& tidy(then)
            &&& told(then, address, held && until > now, until, names)
        }),
{
    let then = current(leases, now);
    lemma_current_tidy(leases, now);
    lemma_place(leases, address);
    lemma_place(then, address);
    if let Some(k) = place(then, address) {
        assert(leases.contains(then[k]));
        let at = choose|at: int| 0 <= at < leases.len() && leases[at] == then[k];
        lemma_place_is(leases, at);
    } else if held && until > now {
        let at = place(leases, address)->0;
        assert(then.contains(leases[at]));
    }
}

} // verus!
