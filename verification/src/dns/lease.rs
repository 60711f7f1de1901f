//! How long an address stays routed because a name resolved to it.
//!
//! Not a cache of answers: what is kept is which addresses were handed out and how long they may be
//! believed, since those are what the routing table is made of.
//!
//! Taking a route from a connection that is using it does not slow that connection down, it kills
//! it: the next packet leaves by another interface with another source address. Two rules follow.
//!
//!   * A lease lasts at least [`MIN_LEASE`], however short the record's time to live.
//!   * A lease is renewed by use, not only by another answer.
//!
//! So an address carrying traffic is never unrouted, and an address nobody has used since its record
//! expired does not stay pinned for the rest of the session.
//!
//! Every moment is in milliseconds on the caller's clock.

use vstd::prelude::*;

pub mod history;

use crate::address::IpAddr;
use crate::dns::message::{answers_of, Answer, Record};
use crate::dns::policy::names_of;
use crate::text::{comes_before, lemma_precedes, lemma_precedes_transitive, precedes, same};

verus! {

/// The shortest a lease may be, in milliseconds.
///
/// A content network hands out records that live thirty seconds. That is how long its answer is
/// worth trusting, not how long a download takes.
pub const MIN_LEASE: u64 = 600_000;

/// The longest a lease may be, whatever a record claims, in milliseconds.
///
/// A day-long time to live is a statement about a name, not a licence to pin an address for a day.
pub const MAX_LEASE: u64 = 3_600_000;

/// How many addresses may be held at once.
///
/// Without a bound, a stream of answers naming fresh addresses grows the routing table of the
/// machine without limit, and nothing in the protocol stops one.
pub const MAX_LEASES: usize = 8192;

/// One address, and why it is held.
#[derive(Debug)]
struct Lease {
    address: IpAddr,
    /// Milliseconds from the table's own start.
    expires_ms: u64,
    /// The names that produced this address, in order. More than one is ordinary: two names on one
    /// content network share addresses constantly.
    names: Vec<String>,
}

/// A lease as plain values.
#[verifier::ext_equal]
pub ghost struct LeaseState {
    pub address: IpAddr,
    pub expires: u64,
    pub names: Seq<Seq<char>>,
}

impl View for Lease {
    type V = LeaseState;

    closed spec fn view(&self) -> LeaseState {
        LeaseState {
            address: self.address,
            expires: self.expires_ms,
            names: names_of(self.names@),
        }
    }
}

/// The addresses the tunnel carries on account of DNS, and their expiry.
#[derive(Debug)]
pub struct Leases {
    /// Everything is measured from here.
    base: u64,
    held: Vec<Lease>,
}

/// A record's time to live, brought inside the bounds a route can live with, in milliseconds.
pub open spec fn lifetime(ttl: u32) -> u64 {
    if ttl * 1000 < MIN_LEASE {
        MIN_LEASE
    } else if ttl * 1000 > MAX_LEASE {
        MAX_LEASE
    } else {
        (ttl * 1000) as u64
    }
}

/// A moment so many milliseconds after another, or the last there is.
pub open spec fn after(moment: u64, span: u64) -> u64 {
    if moment + span > u64::MAX {
        u64::MAX
    } else {
        (moment + span) as u64
    }
}

/// A moment as the table measures it: milliseconds since its start, none before it.
pub open spec fn since(base: u64, now: u64) -> u64 {
    if now < base {
        0
    } else {
        (now - base) as u64
    }
}

/// Names with one more, each once and in order.
pub open spec fn inserted(names: Seq<Seq<char>>, name: Seq<char>) -> Seq<Seq<char>>
    decreases names.len(),
{
    if names.len() == 0 {
        seq![name]
    } else if names[0] == name {
        names
    } else if precedes(name, names[0]) {
        seq![name] + names
    } else {
        seq![names[0]] + inserted(names.drop_first(), name)
    }
}

/// Names in order, each once.
pub open spec fn in_order(names: Seq<Seq<char>>) -> bool {
    forall|i: int, j: int| 0 <= i < j < names.len() ==> precedes(#[trigger] names[i], #[trigger] names[j])
}

/// Where an address is held.
pub open spec fn place(leases: Seq<LeaseState>, address: IpAddr) -> Option<int>
    decreases leases.len(),
{
    if leases.len() == 0 {
        None
    } else if leases.last().address == address {
        Some(leases.len() - 1)
    } else {
        place(leases.drop_last(), address)
    }
}

/// Which lease expires soonest: the first of those that do.
pub open spec fn soonest(leases: Seq<LeaseState>) -> int
    decreases leases.len(),
{
    if leases.len() <= 1 {
        0
    } else {
        let before = soonest(leases.drop_last());
        if leases.last().expires < leases[before].expires {
            leases.len() - 1
        } else {
            before
        }
    }
}

/// Leases with one fewer, if there is no room for another.
pub open spec fn with_room(leases: Seq<LeaseState>) -> Seq<LeaseState> {
    if leases.len() >= MAX_LEASES {
        leases.remove(soonest(leases))
    } else {
        leases
    }
}

/// A lease renewed by an answer: never shortened, and held for this name too.
pub open spec fn renewed(lease: LeaseState, name: Seq<char>, expires: u64) -> LeaseState {
    LeaseState {
        address: lease.address,
        expires: if expires > lease.expires {
            expires
        } else {
            lease.expires
        },
        names: inserted(lease.names, name),
    }
}

/// Leases after one record of an answer.
pub open spec fn taken_in(
    leases: Seq<LeaseState>,
    name: Seq<char>,
    record: Answer,
    now: u64,
) -> Seq<LeaseState> {
    let expires = after(now, lifetime(record.ttl));
    match place(leases, record.address) {
        Some(at) => leases.update(at, renewed(leases[at], name, expires)),
        None => with_room(leases).push(
            LeaseState { address: record.address, expires, names: seq![name] },
        ),
    }
}

/// Leases after an answer.
pub open spec fn recorded(
    leases: Seq<LeaseState>,
    name: Seq<char>,
    records: Seq<Answer>,
    now: u64,
) -> Seq<LeaseState>
    decreases records.len(),
{
    if records.len() == 0 {
        leases
    } else {
        taken_in(recorded(leases, name, records.drop_last(), now), name, records.last(), now)
    }
}

/// Whether an answer held an address that was not held.
pub open spec fn brings_news(
    leases: Seq<LeaseState>,
    name: Seq<char>,
    records: Seq<Answer>,
    now: u64,
) -> bool
    decreases records.len(),
{
    records.len() > 0 && (brings_news(leases, name, records.drop_last(), now) || place(
        recorded(leases, name, records.drop_last(), now),
        records.last().address,
    ) is None)
}

/// Leases after traffic to an address.
pub open spec fn touched(leases: Seq<LeaseState>, address: IpAddr, now: u64) -> Seq<LeaseState> {
    match place(leases, address) {
        None => leases,
        Some(at) => {
            let floor = after(now, MIN_LEASE);
            leases.update(
                at,
                LeaseState {
                    address: leases[at].address,
                    expires: if floor > leases[at].expires {
                        floor
                    } else {
                        leases[at].expires
                    },
                    names: leases[at].names,
                },
            )
        },
    }
}

/// Leases whose time has not passed.
pub open spec fn current(leases: Seq<LeaseState>, now: u64) -> Seq<LeaseState> {
    leases.filter(|lease: LeaseState| lease.expires > now)
}

/// A table as it is kept: each address once, names in order, within the bound.
pub open spec fn tidy(leases: Seq<LeaseState>) -> bool {
    &&& leases.len() <= MAX_LEASES
    &&& forall|i: int, j: int|
        0 <= i < j < leases.len() ==> (#[trigger] leases[i]).address != (
        #[trigger] leases[j]).address
    &&& forall|i: int| 0 <= i < leases.len() ==> in_order((#[trigger] leases[i]).names)
}

proof fn lemma_place(leases: Seq<LeaseState>, address: IpAddr)
    ensures
        match place(leases, address) {
            Some(at) => 0 <= at < leases.len() && leases[at].address == address,
            None => forall|i: int|
                0 <= i < leases.len() ==> (#[trigger] leases[i]).address != address,
        },
    decreases leases.len(),
{
    if leases.len() > 0 {
        lemma_place(leases.drop_last(), address);
        assert(forall|i: int|
            0 <= i < leases.len() - 1 ==> leases.drop_last()[i] == #[trigger] leases[i]);
    }
}

proof fn lemma_soonest(leases: Seq<LeaseState>)
    requires
        leases.len() > 0,
    ensures
        0 <= soonest(leases) < leases.len(),
        forall|i: int|
            0 <= i < leases.len() ==> leases[soonest(leases)].expires <= (
            #[trigger] leases[i]).expires,
    decreases leases.len(),
{
    if leases.len() > 1 {
        lemma_soonest(leases.drop_last());
        assert(forall|i: int|
            0 <= i < leases.len() - 1 ==> leases.drop_last()[i] == #[trigger] leases[i]);
    }
}

/// Inserting keeps names in order and loses none.
proof fn lemma_inserted(names: Seq<Seq<char>>, name: Seq<char>)
    requires
        in_order(names),
    ensures
        in_order(inserted(names, name)),
        forall|n: Seq<char>|
            #![trigger inserted(names, name).contains(n)]
            inserted(names, name).contains(n) <==> names.contains(n) || n == name,
    decreases names.len(),
{
    let out = inserted(names, name);
    if names.len() == 0 {
        assert(out[0] == name);
    } else if names[0] == name {
    } else if precedes(name, names[0]) {
        assert forall|i: int, j: int| 0 <= i < j < out.len() implies precedes(
            #[trigger] out[i],
            #[trigger] out[j],
        ) by {
            if i == 0 && j > 1 {
                lemma_precedes_transitive(name, names[0], names[j - 1]);
            }
        }
        assert(out[0] == name);
        assert forall|n: Seq<char>| #![trigger out.contains(n)] names.contains(n) implies
            out.contains(n) by {
            let k = choose|k: int| 0 <= k < names.len() && names[k] == n;
            assert(out[k + 1] == n);
        }
    } else {
        let rest = names.drop_first();
        assert(in_order(rest)) by {
            assert forall|i: int, j: int| 0 <= i < j < rest.len() implies precedes(
                #[trigger] rest[i],
                #[trigger] rest[j],
            ) by {
                assert(precedes(names[i + 1], names[j + 1]));
            }
        }
        lemma_inserted(rest, name);
        let tail = inserted(rest, name);
        assert forall|j: int| 0 <= j < tail.len() implies precedes(
            names[0],
            #[trigger] tail[j],
        ) by {
            assert(tail.contains(tail[j]));
            lemma_precedes(name, names[0]);
            if rest.contains(tail[j]) {
                let k = choose|k: int| 0 <= k < rest.len() && rest[k] == tail[j];
                assert(names[k + 1] == tail[j]);
            }
        }
        assert forall|i: int, j: int| 0 <= i < j < out.len() implies precedes(
            #[trigger] out[i],
            #[trigger] out[j],
        ) by {
            assert(out[j] == tail[j - 1]);
            if i > 0 {
                assert(out[i] == tail[i - 1]);
            }
        }
        assert forall|n: Seq<char>| #![trigger out.contains(n)] out.contains(n) <==> names.contains(
            n,
        ) || n == name by {
            if out.contains(n) {
                let k = choose|k: int| 0 <= k < out.len() && out[k] == n;
                if k == 0 {
                    assert(names[0] == n);
                } else {
                    assert(tail[k - 1] == n);
                    assert(tail.contains(n));
                    if rest.contains(n) {
                        let m = choose|m: int| 0 <= m < rest.len() && rest[m] == n;
                        assert(names[m + 1] == n);
                    }
                }
            }
            if names.contains(n) || n == name {
                if n == names[0] && n != name {
                    assert(out[0] == n);
                } else {
                    if n != name {
                        let m = choose|m: int| 0 <= m < names.len() && names[m] == n;
                        assert(rest[m - 1] == n);
                        assert(rest.contains(n));
                    }
                    assert(tail.contains(n));
                    let k = choose|k: int| 0 <= k < tail.len() && tail[k] == n;
                    assert(out[k + 1] == n);
                }
            }
        }
    }
}

/// Inserting at the first name that does not stand before it is inserting in order.
proof fn lemma_inserted_at(names: Seq<Seq<char>>, name: Seq<char>, at: int)
    requires
        0 <= at <= names.len(),
        forall|i: int|
            0 <= i < at ==> (#[trigger] names[i]) != name && !precedes(name, names[i]),
        at < names.len() ==> names[at] == name || precedes(name, names[at]),
    ensures
        inserted(names, name) == if at < names.len() && names[at] == name {
            names
        } else {
            names.take(at) + seq![name] + names.skip(at)
        },
    decreases at,
{
    if at == 0 {
        assert(names.take(0) + seq![name] + names.skip(0) =~= seq![name] + names);
        if names.len() == 0 {
            assert(names.take(0) + seq![name] + names.skip(0) =~= seq![name]);
        }
    } else {
        let rest = names.drop_first();
        assert(names[0] != name);
        assert forall|i: int| 0 <= i < at - 1 implies (#[trigger] rest[i]) != name && !precedes(
            name,
            rest[i],
        ) by {
            assert(rest[i] == names[i + 1]);
        }
        lemma_inserted_at(rest, name, at - 1);
        if at < names.len() && names[at] == name {
            assert(seq![names[0]] + rest =~= names);
        } else {
            assert(seq![names[0]] + (rest.take(at - 1) + seq![name] + rest.skip(at - 1))
                =~= names.take(at) + seq![name] + names.skip(at));
        }
    }
}

/// Put a name among others, each once and in order.
fn insert_name(names: &mut Vec<String>, name: &str)
    ensures
        names_of(final(names)@) == inserted(names_of(old(names)@), name@),
{
    let ghost before = names_of(names@);
    let mut at: usize = 0;
    while at < names.len() && !same(names[at].as_str(), name) && !comes_before(
        name,
        names[at].as_str(),
    )
        invariant
            before == names_of(names@),
            at <= names.len(),
            forall|i: int|
                0 <= i < at ==> (#[trigger] before[i]) != name@ && !precedes(name@, before[i]),
        decreases names.len() - at,
    {
        assert(before[at as int] == names@[at as int]@);
        at += 1;
    }
    proof {
        if at < names.len() {
            assert(before[at as int] == names@[at as int]@);
        }
        lemma_inserted_at(before, name@, at as int);
    }
    if at < names.len() && same(names[at].as_str(), name) {
        return;
    }
    let ghost old_names = names@;
    let owned = name.to_owned();
    names.insert(at, owned);
    assert(names_of(names@) =~= before.take(at as int) + seq![name@] + before.skip(at as int));
}

/// Leases as plain values.
spec fn states(held: Seq<Lease>) -> Seq<LeaseState> {
    held.map_values(|lease: Lease| lease@)
}

impl View for Leases {
    type V = Seq<LeaseState>;

    closed spec fn view(&self) -> Seq<LeaseState> {
        states(self.held@)
    }
}

impl Leases {
    /// Where the table's clock starts.
    pub closed spec fn start(&self) -> u64 {
        self.base
    }

    /// Each address is held once, for names in order, and the table is within its bound.
    pub closed spec fn wf(&self) -> bool {
        tidy(self@)
    }

    /// An empty table, with the clock it measures every lease against started here.
    pub fn new(base: u64) -> (leases: Self)
        ensures
            leases.wf(),
            leases.start() == base,
            leases@ == Seq::<LeaseState>::empty(),
    {
        let leases = Leases { base, held: Vec::new() };
        assert(leases@ =~= Seq::empty());
        leases
    }

    /// When the table started.
    pub fn base(&self) -> (base: u64)
        ensures
            base == self.start(),
    {
        self.base
    }

    /// A moment as the table measures it.
    fn millis(&self, now: u64) -> (millis: u64)
        ensures
            millis == since(self.start(), now),
    {
        if now < self.base {
            0
        } else {
            now - self.base
        }
    }

    /// Where an address is held.
    fn find(&self, address: IpAddr) -> (found: Option<usize>)
        ensures
            match found {
                Some(at) => at < self@.len() && place(self@, address) == Some(at as int),
                None => place(self@, address) is None,
            },
    {
        let mut left: usize = self.held.len();
        assert(self@.take(left as int) =~= self@);
        while left > 0
            invariant
                left <= self.held.len(),
                place(self@, address) == place(self@.take(left as int), address),
            decreases left,
        {
            assert(self@.take(left as int).drop_last() =~= self@.take(left - 1));
            assert(self@.take(left as int).last() == self.held@[left - 1]@);
            if self.held[left - 1].address == address {
                return Some(left - 1);
            }
            left -= 1;
        }
        None
    }

    /// Make room by dropping the lease that expires soonest.
    ///
    /// Dropping the soonest rather than the oldest is the difference between losing the address
    /// least likely to still be wanted and losing one that traffic has been renewing all along.
    fn evict_one(&mut self)
        requires
            old(self)@.len() > 0,
        ensures
            final(self)@ == old(self)@.remove(soonest(old(self)@)),
            final(self).start() == old(self).start(),
    {
        let ghost before = self@;
        let mut victim: usize = 0;
        let mut i: usize = 1;
        while i < self.held.len()
            invariant
                before == self@,
                1 <= i <= self.held.len(),
                victim < i,
                victim == soonest(before.take(i as int)),
            decreases self.held.len() - i,
        {
            assert(before.take(i + 1).drop_last() =~= before.take(i as int));
            assert(before.take(i + 1)[victim as int] == self.held@[victim as int]@);
            assert(before.take(i + 1).last() == self.held@[i as int]@);
            if self.held[i].expires_ms < self.held[victim].expires_ms {
                victim = i;
            }
            i += 1;
        }
        assert(before.take(i as int) =~= before);
        self.held.remove(victim);
        assert(self@ =~= before.remove(victim as int));
    }

    /// Take in one record of an answer, and say whether its address is new.
    fn take_in(&mut self, name: &str, record: &Record, now_ms: u64) -> (fresh: bool)
        requires
            old(self).wf(),
        ensures
            final(self).wf(),
            final(self).start() == old(self).start(),
            final(self)@ == taken_in(old(self)@, name@, record@, now_ms),
            fresh == (place(old(self)@, record.address) is None),
    {
        let ghost before = self@;
        let span: u64 = record.ttl as u64 * 1000;
        let span: u64 = if span < MIN_LEASE {
            MIN_LEASE
        } else if span > MAX_LEASE {
            MAX_LEASE
        } else {
            span
        };
        let expires_ms: u64 = if now_ms > u64::MAX - span {
            u64::MAX
        } else {
            now_ms + span
        };
        proof {
            lemma_place(before, record.address);
        }
        match self.find(record.address) {
            Some(at) => {
                assert(before[at as int] == self.held@[at as int]@);
                proof {
                    lemma_inserted(before[at as int].names, name@);
                }
                // Never shortened. Two names can hold one address with different times to live, and
                // the address is needed until the last of them stops needing it.
                if expires_ms > self.held[at].expires_ms {
                    self.held[at].expires_ms = expires_ms;
                }
                insert_name(&mut self.held[at].names, name);
                assert(self@ =~= before.update(
                    at as int,
                    renewed(before[at as int], name@, expires_ms),
                ));
                false
            },
            None => {
                if self.held.len() >= MAX_LEASES {
                    proof {
                        lemma_soonest(before);
                    }
                    self.evict_one();
                }
                let ghost room = self@;
                let mut names: Vec<String> = Vec::new();
                names.push(name.to_owned());
                assert(names_of(names@) =~= seq![name@]);
                self.held.push(Lease { address: record.address, expires_ms, names });
                assert(self@ =~= room.push(
                    LeaseState { address: record.address, expires: expires_ms, names: seq![name@] },
                ));
                true
            },
        }
    }

    /// Take in what an answer said.
    ///
    /// Returns `true` only when the set of held addresses changed, since that is the only reason to
    /// touch the routing table. An answer repeating addresses already held renews them and changes
    /// nothing, which is the common case by a wide margin.
    pub fn record(&mut self, name: &str, records: &[Record], now: u64) -> (changed: bool)
        requires
            old(self).wf(),
        ensures
            final(self).wf(),
            final(self).start() == old(self).start(),
            final(self)@ == recorded(
                old(self)@,
                name@,
                answers_of(records@),
                since(old(self).start(), now),
            ),
            changed == brings_news(
                old(self)@,
                name@,
                answers_of(records@),
                since(old(self).start(), now),
            ),
    {
        let ghost before = self@;
        let ghost answers = answers_of(records@);
        let now_ms = self.millis(now);
        let mut changed = false;
        let mut i: usize = 0;
        assert(answers.take(0) =~= Seq::empty());
        while i < records.len()
            invariant
                self.wf(),
                self.start() == old(self).start(),
                i <= records.len(),
                answers == answers_of(records@),
                self@ == recorded(before, name@, answers.take(i as int), now_ms),
                changed == brings_news(before, name@, answers.take(i as int), now_ms),
            decreases records.len() - i,
        {
            assert(answers.take(i + 1).drop_last() =~= answers.take(i as int));
            assert(answers.take(i + 1).last() == records@[i as int]@);
            if self.take_in(name, &records[i], now_ms) {
                changed = true;
            }
            i += 1;
        }
        assert(answers.take(i as int) =~= answers);
        changed
    }

    /// Renew the lease on an address that is carrying traffic.
    ///
    /// An address nothing has sent to in [`MIN_LEASE`] is one whose expiry is allowed to arrive.
    pub fn touch(&mut self, address: IpAddr, now: u64)
        requires
            old(self).wf(),
        ensures
            final(self).wf(),
            final(self).start() == old(self).start(),
            final(self)@ == touched(old(self)@, address, since(old(self).start(), now)),
    {
        let ghost before = self@;
        let now_ms = self.millis(now);
        if let Some(at) = self.find(address) {
            assert(before[at as int] == self.held@[at as int]@);
            let floor: u64 = if now_ms > u64::MAX - MIN_LEASE {
                u64::MAX
            } else {
                now_ms + MIN_LEASE
            };
            if floor > self.held[at].expires_ms {
                self.held[at].expires_ms = floor;
            }
        }
        assert(self@ =~= touched(before, address, now_ms));
    }

    /// Let go of everything whose time has passed. Returns `true` when anything was let go.
    pub fn expire(&mut self, now: u64) -> (any: bool)
        requires
            old(self).wf(),
        ensures
            final(self).wf(),
            final(self).start() == old(self).start(),
            final(self)@ == current(old(self)@, since(old(self).start(), now)),
            any == (final(self)@.len() != old(self)@.len()),
    {
        let ghost before = self@;
        let now_ms = self.millis(now);
        let count: usize = self.held.len();
        let ghost keep = |lease: LeaseState| lease.expires > now_ms;
        let mut left: usize = 0;
        assert(before.take(0).filter(keep) =~= Seq::empty()) by {
            reveal(Seq::filter);
        }
        assert(before.skip(0) =~= before);
        assert(before.take(0).filter(keep) + before.skip(0) =~= before);
        let mut seen: usize = 0;
        while seen < count
            invariant
                before == old(self)@,
                self.start() == old(self).start(),
                count == before.len(),
                keep == (|lease: LeaseState| lease.expires > now_ms),
                left <= seen <= count,
                self@ == before.take(seen as int).filter(keep) + before.skip(seen as int),
                before.take(seen as int).filter(keep).len() == left,
            decreases count - seen,
        {
            let ghost kept = before.take(seen as int).filter(keep);
            let ghost lease = before[seen as int];
            assert(self@.len() == left + (count - seen));
            assert(self.held@.len() == self@.len());
            assert(self@[left as int] == lease);
            assert(self.held@[left as int]@ == self@[left as int]);
            proof {
                lemma_filter_push(before.take(seen as int), keep, lease);
                assert(before.take(seen + 1) =~= before.take(seen as int).push(lease));
            }
            if self.held[left].expires_ms > now_ms {
                left += 1;
                assert(self@ =~= kept.push(lease) + before.skip(seen + 1));
            } else {
                let ghost was = self@;
                self.held.remove(left);
                assert(self@ =~= was.remove(left as int));
                assert(self@ =~= kept + before.skip(seen + 1));
            }
            seen += 1;
        }
        proof {
            assert(before.take(seen as int) =~= before);
            assert(before.skip(seen as int) =~= Seq::empty());
            assert(self@ =~= current(before, now_ms));
            lemma_current_tidy(before, now_ms);
        }
        self.held.len() != count
    }

    /// Every address held right now.
    pub fn addresses(&self) -> (addresses: Vec<IpAddr>)
        ensures
            addresses@ == held_addresses(self@),
    {
        let mut addresses: Vec<IpAddr> = Vec::new();
        let mut i: usize = 0;
        while i < self.held.len()
            invariant
                i <= self.held.len(),
                addresses@.len() == i,
                forall|k: int| 0 <= k < i ==> #[trigger] addresses@[k] == self@[k].address,
            decreases self.held.len() - i,
        {
            addresses.push(self.held[i].address);
            i += 1;
        }
        assert(addresses@ =~= held_addresses(self@));
        addresses
    }

    /// Why an address is held, for a log line that has to say more than "it is".
    pub fn names_for(&self, address: IpAddr) -> (names: Vec<String>)
        ensures
            names_of(names@) == match place(self@, address) {
                Some(at) => self@[at].names,
                None => Seq::empty(),
            },
    {
        let mut names: Vec<String> = Vec::new();
        if let Some(at) = self.find(address) {
            let ghost whole = self@[at as int].names;
            assert(whole == names_of(self.held@[at as int].names@));
            let mut i: usize = 0;
            while i < self.held[at].names.len()
                invariant
                    at < self.held@.len(),
                    whole == names_of(self.held@[at as int].names@),
                    i <= self.held@[at as int].names@.len(),
                    names_of(names@) == whole.take(i as int),
                decreases self.held@[at as int].names@.len() - i,
            {
                let name = self.held[at].names[i].clone();
                let ghost had = names@;
                names.push(name);
                assert(names_of(names@) =~= names_of(had).push(name@));
                assert(whole.take(i + 1) =~= whole.take(i as int).push(whole[i as int]));
                i += 1;
            }
            assert(whole.take(i as int) =~= whole);
        }
        names
    }

    /// How many addresses are held. This is the number of host routes the leases contribute.
    pub fn len(&self) -> (len: usize)
        ensures
            len == self@.len(),
    {
        self.held.len()
    }

    /// Whether any address is held at all.
    pub fn is_empty(&self) -> (empty: bool)
        ensures
            empty == (self@.len() == 0),
    {
        self.held.len() == 0
    }
}

impl Default for Leases {
    fn default() -> (leases: Self)
        ensures
            leases.wf(),
            leases.start() == 0,
            leases@ == Seq::<LeaseState>::empty(),
    {
        Leases::new(0)
    }
}

proof fn lemma_filter_push(leases: Seq<LeaseState>, keep: spec_fn(LeaseState) -> bool, lease: LeaseState)
    ensures
        leases.push(lease).filter(keep) == if keep(lease) {
            leases.filter(keep).push(lease)
        } else {
            leases.filter(keep)
        },
{
    reveal(Seq::filter);
    assert(leases.push(lease).drop_last() =~= leases);
}

/// What is kept was there, and stands as it did.
proof fn lemma_current_tidy(leases: Seq<LeaseState>, now: u64)
    requires
        tidy(leases),
    ensures
        tidy(current(leases, now)),
        forall|i: int|
            0 <= i < current(leases, now).len() ==> leases.contains(
                #[trigger] current(leases, now)[i],
            ) && current(leases, now)[i].expires > now,
        forall|i: int|
            0 <= i < leases.len() && (#[trigger] leases[i]).expires > now ==> current(
                leases,
                now,
            ).contains(leases[i]),
    decreases leases.len(),
{
    reveal(Seq::filter);
    if leases.len() > 0 {
        let before = leases.drop_last();
        let lease = leases.last();
        assert(tidy(before)) by {
            assert(forall|i: int| 0 <= i < before.len() ==> before[i] == #[trigger] leases[i]);
        }
        lemma_current_tidy(before, now);
        let keep = |lease: LeaseState| lease.expires > now;
        assert(before.push(lease) =~= leases);
        lemma_filter_push(before, keep, lease);
        let kept = current(before, now);
        let all = current(leases, now);
        assert forall|i: int| 0 <= i < kept.len() implies leases.contains(#[trigger] kept[i])
            && kept[i].address != lease.address by {
            let k = choose|k: int| 0 <= k < before.len() && before[k] == kept[i];
            assert(leases[k] == kept[i]);
        }
        if lease.expires > now {
            assert(all == kept.push(lease));
            assert(leases[leases.len() - 1] == lease);
            assert forall|i: int| 0 <= i < all.len() implies in_order(
                (#[trigger] all[i]).names,
            ) by {
                if i < kept.len() {
                    assert(all[i] == kept[i]);
                }
            }
        }
        assert forall|i: int| 0 <= i < leases.len() && (#[trigger] leases[i]).expires
            > now implies all.contains(leases[i]) by {
            if i < before.len() {
                assert(before[i] == leases[i]);
                let k = choose|k: int| 0 <= k < kept.len() && kept[k] == leases[i];
                assert(all[k] == leases[i]);
            } else {
                assert(all[all.len() - 1] == leases[i]);
            }
        }
    }
}

/// The addresses of leases, in the order they are kept.
pub open spec fn held_addresses(leases: Seq<LeaseState>) -> Seq<IpAddr> {
    leases.map_values(|lease: LeaseState| lease.address)
}

/// A later answer only ever pushes an expiry further out, and adds its name to those the address is
/// held for.
pub proof fn law_a_lease_is_never_shortened(
    leases: Seq<LeaseState>,
    name: Seq<char>,
    record: Answer,
    now: u64,
)
    requires
        tidy(leases),
        place(leases, record.address) is Some,
    ensures
        ({
            let at = place(leases, record.address)->0;
            let lease = taken_in(leases, name, record, now)[at];
            &&& lease.address == record.address
            &&& lease.expires >= leases[at].expires
            &&& lease.expires >= after(now, MIN_LEASE)
            &&& lease.names.contains(name)
            &&& forall|n: Seq<char>| leases[at].names.contains(n) ==> lease.names.contains(n)
        }),
{
    lemma_place(leases, record.address);
    lemma_inserted(leases[place(leases, record.address)->0].names, name);
}

/// A new lease lasts what its record says, within the floor and the ceiling.
pub proof fn law_a_lease_lasts_between_the_floor_and_the_ceiling(ttl: u32)
    ensures
        MIN_LEASE <= lifetime(ttl) <= MAX_LEASE,
        MIN_LEASE <= ttl * 1000 <= MAX_LEASE ==> lifetime(ttl) == ttl * 1000,
{
}

/// An address that traffic keeps using is never unrouted: it outlives whatever its record said by
/// the floor since its last use.
pub proof fn law_an_address_in_use_outlives_its_record(
    leases: Seq<LeaseState>,
    address: IpAddr,
    used: u64,
    now: u64,
)
    requires
        tidy(leases),
        place(leases, address) is Some,
        now < after(used, MIN_LEASE),
    ensures
        place(current(touched(leases, address, used), now), address) is Some,
{
    lemma_place(leases, address);
    let renewed = touched(leases, address, used);
    let at = place(leases, address)->0;
    assert(tidy(renewed)) by {
        assert(forall|i: int|
            0 <= i < renewed.len() ==> (#[trigger] renewed[i]).address == leases[i].address
                && renewed[i].names == leases[i].names);
    }
    lemma_current_tidy(renewed, now);
    assert(current(renewed, now).contains(renewed[at]));
    lemma_place(current(renewed, now), address);
}

/// Traffic to an address moves the expiry of the lease on it out to the floor from then on, where it
/// is not further out already, and does nothing to any other.
pub proof fn law_traffic_moves_one_expiry_out(leases: Seq<LeaseState>, address: IpAddr, now: u64, at: int)
    requires
        tidy(leases),
        0 <= at < leases.len(),
    ensures
        ({
            let after = touched(leases, address, now);
            let floor = if now + 600_000 > u64::MAX {
                u64::MAX as int
            } else {
                now + 600_000
            };
            &&& after.len() == leases.len()
            &&& leases[at].address != address ==> after[at] == leases[at]
            &&& leases[at].address == address ==> after[at] == (LeaseState {
                expires: if floor > leases[at].expires {
                    floor as u64
                } else {
                    leases[at].expires
                },
                ..leases[at]
            })
        }),
{
    lemma_place(leases, address);
    if let Some(found) = place(leases, address) {
        assert(leases[found].address == address);
    }
}

/// Touching an address holds nothing that was not held.
pub proof fn law_touching_holds_nothing_new(leases: Seq<LeaseState>, address: IpAddr, now: u64)
    ensures
        held_addresses(touched(leases, address, now)) == held_addresses(leases),
        place(leases, address) is None ==> touched(leases, address, now) == leases,
{
    lemma_place(leases, address);
    assert(held_addresses(touched(leases, address, now)) =~= held_addresses(leases));
}

/// An answer whose addresses are all held changes nothing about which are.
pub proof fn law_repeating_an_answer_changes_no_route(
    leases: Seq<LeaseState>,
    name: Seq<char>,
    records: Seq<Answer>,
    now: u64,
)
    requires
        forall|i: int|
            0 <= i < records.len() ==> place(leases, (#[trigger] records[i]).address) is Some,
    ensures
        !brings_news(leases, name, records, now),
        held_addresses(recorded(leases, name, records, now)) == held_addresses(leases),
    decreases records.len(),
{
    if records.len() > 0 {
        let before = records.drop_last();
        assert(forall|i: int| 0 <= i < before.len() ==> before[i] == #[trigger] records[i]);
        law_repeating_an_answer_changes_no_route(leases, name, before, now);
        let so_far = recorded(leases, name, before, now);
        let address = records.last().address;
        lemma_place_by_address(so_far, leases, address);
        lemma_place(so_far, address);
        assert(held_addresses(taken_in(so_far, name, records.last(), now)) =~= held_addresses(
            so_far,
        ));
    }
}

/// Every address in an answer is held once the answer has been recorded, where there is room for all
/// of it.
pub proof fn law_what_an_answer_names_is_held(
    leases: Seq<LeaseState>,
    name: Seq<char>,
    records: Seq<Answer>,
    now: u64,
    at: int,
)
    requires
        leases.len() + records.len() <= MAX_LEASES,
        0 <= at < records.len(),
    ensures
        held_addresses(recorded(leases, name, records, now)).contains(records[at].address),
{
    lemma_all_held(leases, name, records, now);
    let held = recorded(leases, name, records, now);
    let k = choose|k: int| 0 <= k < held.len() && held[k].address == records[at].address;
    assert(held_addresses(held)[k] == records[at].address);
}

/// With room for an answer, nothing leaves to make some: it is all held afterwards, and so is
/// whatever was.
proof fn lemma_all_held(
    leases: Seq<LeaseState>,
    name: Seq<char>,
    records: Seq<Answer>,
    now: u64,
)
    requires
        leases.len() + records.len() <= MAX_LEASES,
    ensures
        recorded(leases, name, records, now).len() <= leases.len() + records.len(),
        forall|at: int|
            0 <= at < records.len() ==> holds(
                recorded(leases, name, records, now),
                (#[trigger] records[at]).address,
            ),
    decreases records.len(),
{
    if records.len() > 0 {
        let before = records.drop_last();
        lemma_all_held(leases, name, before, now);
        let so_far = recorded(leases, name, before, now);
        let held = recorded(leases, name, records, now);
        let last = records.last();
        lemma_place(so_far, last.address);
        assert forall|address: IpAddr| holds(so_far, address) implies #[trigger] holds(
            held,
            address,
        ) by {
            let k = choose|k: int| 0 <= k < so_far.len() && so_far[k].address == address;
            assert(held[k].address == address);
        }
        assert(holds(held, last.address)) by {
            match place(so_far, last.address) {
                Some(k) => {
                    assert(held[k].address == last.address);
                },
                None => {
                    assert(held[held.len() - 1].address == last.address);
                },
            }
        }
        assert forall|at: int| 0 <= at < records.len() implies holds(
            held,
            (#[trigger] records[at]).address,
        ) by {
            if at < before.len() {
                assert(before[at] == records[at]);
            }
        }
    }
}

/// Whether an address is among those held.
pub open spec fn holds(leases: Seq<LeaseState>, address: IpAddr) -> bool {
    exists|k: int| 0 <= k < leases.len() && (#[trigger] leases[k]).address == address
}

/// An answer that brings no news leaves the held addresses as they were, and every address in it is
/// one of them.
pub proof fn law_no_news_changes_no_address(
    leases: Seq<LeaseState>,
    name: Seq<char>,
    records: Seq<Answer>,
    now: u64,
)
    requires
        !brings_news(leases, name, records, now),
    ensures
        held_addresses(recorded(leases, name, records, now)) == held_addresses(leases),
        forall|at: int|
            0 <= at < records.len() ==> held_addresses(leases).contains(
                (#[trigger] records[at]).address,
            ),
    decreases records.len(),
{
    if records.len() > 0 {
        let before = records.drop_last();
        law_no_news_changes_no_address(leases, name, before, now);
        let so_far = recorded(leases, name, before, now);
        let last = records.last();
        lemma_place(so_far, last.address);
        let k = place(so_far, last.address)->0;
        assert(held_addresses(recorded(leases, name, records, now)) =~= held_addresses(so_far));
        assert(held_addresses(so_far)[k] == last.address);
        assert forall|at: int| 0 <= at < records.len() implies held_addresses(leases).contains(
            (#[trigger] records[at]).address,
        ) by {
            if at < before.len() {
                assert(before[at] == records[at]);
            }
        }
    }
}

/// An address whose lease has fallen due is held no more once those have been let go of.
pub proof fn law_what_fell_due_is_not_held(leases: Seq<LeaseState>, now: u64, at: int)
    requires
        tidy(leases),
        0 <= at < leases.len(),
        leases[at].expires <= now,
    ensures
        !held_addresses(current(leases, now)).contains(leases[at].address),
{
    let left = current(leases, now);
    lemma_current_tidy(leases, now);
    if held_addresses(left).contains(leases[at].address) {
        let k = choose|k: int|
            0 <= k < left.len() && held_addresses(left)[k] == leases[at].address;
        assert(leases.contains(left[k]));
        let i = choose|i: int| 0 <= i < leases.len() && leases[i] == left[k];
        assert(i == at);
    }
}

/// Where an address is held depends on the addresses alone.
proof fn lemma_place_by_address(a: Seq<LeaseState>, b: Seq<LeaseState>, address: IpAddr)
    requires
        held_addresses(a) == held_addresses(b),
    ensures
        place(a, address) == place(b, address),
    decreases a.len(),
{
    assert(held_addresses(a).len() == a.len());
    assert(held_addresses(b).len() == b.len());
    if a.len() > 0 {
        assert(held_addresses(a).last() == a.last().address);
        assert(held_addresses(b).last() == b.last().address);
        assert(held_addresses(a.drop_last()) =~= held_addresses(a).drop_last());
        assert(held_addresses(b.drop_last()) =~= held_addresses(b).drop_last());
        lemma_place_by_address(a.drop_last(), b.drop_last(), address);
    }
}

/// A full table makes room by letting go of what expires soonest, and of nothing else.
pub proof fn law_the_lease_that_expires_soonest_makes_room(leases: Seq<LeaseState>)
    requires
        leases.len() == MAX_LEASES,
    ensures
        with_room(leases).len() == MAX_LEASES - 1,
        0 <= soonest(leases) < leases.len(),
        with_room(leases) == leases.remove(soonest(leases)),
        forall|i: int|
            0 <= i < leases.len() ==> leases[soonest(leases)].expires <= (
            #[trigger] leases[i]).expires,
{
    lemma_soonest(leases);
}

/// What is let go is exactly what has expired.
pub proof fn law_only_the_expired_are_let_go(leases: Seq<LeaseState>, now: u64, lease: LeaseState)
    requires
        tidy(leases),
    ensures
        current(leases, now).contains(lease) <==> leases.contains(lease) && lease.expires > now,
{
    lemma_current_tidy(leases, now);
}

/// The moment a record of an answer lasts to: as long as it says, but at least ten minutes and at
/// most an hour, and no further than the clock goes.
pub open spec fn lasts_to(now: u64, ttl: u32) -> int {
    let span = if ttl < 600 {
        600_000
    } else if ttl > 3_600 {
        3_600_000
    } else {
        ttl * 1_000
    };
    if now + span > 0xffff_ffff_ffff_ffff {
        0xffff_ffff_ffff_ffff
    } else {
        now + span
    }
}

/// One record of an answer changes one lease. On an address that is held it moves the expiry out to
/// as long as the record lasts, where it is not further out already, adds the name, and leaves the
/// others where and as they were; on one that is not it adds a lease of its own, for that name alone.
pub proof fn law_one_record_changes_one_lease(
    leases: Seq<LeaseState>,
    name: Seq<char>,
    record: Answer,
    now: u64,
    other: Seq<char>,
    i: int,
)
    requires
        tidy(leases),
    ensures
        ({
            let after = taken_in(leases, name, record, now);
            let until = lasts_to(now, record.ttl);
            &&& 0 <= i < leases.len() && leases[i].address == record.address ==> {
                &&& after.len() == leases.len()
                &&& after[i].address == record.address
                &&& after[i].expires == if until > leases[i].expires {
                    until
                } else {
                    leases[i].expires as int
                }
                &&& after[i].names.contains(other) <==> other == name || leases[i].names.contains(
                    other,
                )
                &&& forall|j: int|
                    0 <= j < leases.len() && j != i ==> #[trigger] after[j] == leases[j]
            }
            &&& !holds(leases, record.address) ==> {
                &&& after.len() > 0
                &&& after.last().address == record.address
                &&& after.last().expires == until
                &&& after.last().names == seq![name]
                &&& leases.len() < 8_192 ==> after.drop_last() == leases
                &&& leases.len() == 8_192 ==> after.len() == 8_192
            }
        }),
{
    lemma_place(leases, record.address);
    if leases.len() > 0 {
        lemma_soonest(leases);
    }
    match place(leases, record.address) {
        Some(at) => {
            lemma_inserted(leases[at].names, name);
        },
        None => {
            let after = taken_in(leases, name, record, now);
            assert(after.drop_last() =~= with_room(leases));
        },
    }
}

/// An address that was not held is news, wherever in the answer it stands.
pub proof fn law_an_address_not_held_is_news(
    leases: Seq<LeaseState>,
    name: Seq<char>,
    records: Seq<Answer>,
    now: u64,
    at: int,
)
    requires
        0 <= at < records.len(),
        !holds(leases, records[at].address),
    ensures
        brings_news(leases, name, records, now),
    decreases records.len(),
{
    let before = records.drop_last();
    if at < before.len() {
        assert(before[at] == records[at]);
        law_an_address_not_held_is_news(leases, name, before, now, at);
    } else if !brings_news(leases, name, before, now) {
        law_no_news_changes_no_address(leases, name, before, now);
        let so_far = recorded(leases, name, before, now);
        lemma_place_by_address(so_far, leases, records[at].address);
        lemma_place(leases, records[at].address);
    }
}

/// The table's clock counts from its start, and from nothing before it.
pub proof fn law_the_clock_counts_from_the_start(base: u64, now: u64)
    ensures
        now >= base ==> since(base, now) + base == now,
        now < base ==> since(base, now) == 0,
{
}

/// Of the leases that expire soonest the first makes room: every one in front of it lasts longer.
pub proof fn law_the_first_of_the_soonest_makes_room(leases: Seq<LeaseState>, i: int)
    requires
        0 <= i < leases.len(),
    ensures
        0 <= soonest(leases) < leases.len(),
        leases[i].expires >= leases[soonest(leases)].expires,
        i < soonest(leases) ==> leases[i].expires > leases[soonest(leases)].expires,
        leases.len() < 8_192 ==> with_room(leases) == leases,
    decreases leases.len(),
{
    if leases.len() > 1 {
        let before = leases.drop_last();
        law_the_first_of_the_soonest_makes_room(before, 0);
        assert(before[soonest(before)] == leases[soonest(before)]);
        if i < before.len() {
            law_the_first_of_the_soonest_makes_room(before, i);
            assert(before[i] == leases[i]);
        }
    }
}

} // verus!
