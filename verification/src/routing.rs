//! Where an answer becomes a route.
//!
//! The resolver learns addresses, and the routing table is made to agree with them before the answer
//! is handed back: whoever asked connects to an address that is already in the tunnel. Leases fall
//! due the same way, and take their routes with them.

use vstd::prelude::*;
use crate::address::IpAddr;
use crate::dns::lease::{
    brings_news, current, held_addresses, law_no_news_changes_no_address,
    law_what_an_answer_names_is_held, law_what_fell_due_is_not_held, recorded, since, tidy,
    LeaseState, MAX_LEASES,
};
use crate::dns::message::{answers_of, Answer, Query};
use crate::dns::server::{
    addresses_in, asks_for_routes, counted, failure, reply_view, Resolver, Settled, Stats,
};
use crate::dns::upstream::UpstreamError;
use crate::state::{agrees, host, installs, is_leased, routed, Core, CoreState};
use crate::tun::asked::Asked;
use crate::tun::prefixes::Prefix;
use crate::tun::{Change, RouteTable};

verus! {

/// Whether everything about a resolver but its leases and its counts is as it was.
pub open spec fn undisturbed(before: &Resolver, after: &Resolver) -> bool {
    &&& after.policy() == before.policy()
    &&& after.ready() == before.ready()
    &&& after.start() == before.start()
    &&& after.wanted() == before.wanted()
    &&& after.at() == before.at()
    &&& after.asking() == before.asking()
}

/// Take in how asking an upstream went, and make the routing table agree with what was learned.
///
/// What the routing table took is what is counted, not what the answer held: an answer repeats
/// addresses that are already routed, and a v6 address is left out where the tunnel does not carry
/// v6.
pub fn settle<T: RouteTable>(
    resolver: &mut Resolver,
    core: &mut Core,
    table: &mut Asked<T>,
    query: &[u8],
    asked: &Query,
    route: bool,
    outcome: Result<Vec<u8>, UpstreamError>,
    now: u64,
) -> (settled: Settled)
    requires
        old(resolver).wf(),
        old(core).wf(),
    ensures
        final(resolver).wf(),
        final(core).wf(),
        undisturbed(old(resolver), final(resolver)),
        final(core)@ == (CoreState { rows: final(core)@.rows, ..old(core)@ }),
        !settled.routes_changed ==> final(core)@.rows == old(core)@.rows && final(table).answers()
            == old(table).answers(),
        match outcome {
            Err(_) => {
                &&& reply_view(settled.reply) == failure(query@)
                &&& !settled.routes_changed
                &&& settled.found@.len() == 0
                &&& final(resolver).held() == old(resolver).held()
                &&& final(resolver).counts() == (Stats {
                    failed: counted(old(resolver).counts().failed, 1),
                    ..old(resolver).counts()
                })
            },
            Ok(reply) => {
                let found = addresses_in(reply@);
                let moment = since(old(resolver).start(), now);
                let counts = Stats {
                    answered: counted(old(resolver).counts().answered, 1),
                    ..old(resolver).counts()
                };
                &&& settled.reply == Some(reply)
                &&& answers_of(settled.found@) == found
                &&& if asks_for_routes(asked@, route) {
                    &&& final(resolver).held() == recorded(
                        old(resolver).held(),
                        asked.name@,
                        found,
                        moment,
                    )
                    &&& settled.routes_changed == brings_news(
                        old(resolver).held(),
                        asked.name@,
                        found,
                        moment,
                    )
                } else {
                    final(resolver).held() == old(resolver).held() && !settled.routes_changed
                }
                &&& if settled.routes_changed {
                    exists|added: usize| #[trigger]
                        agrees(
                            old(table).answers(),
                            final(table).answers(),
                            old(core)@.rows,
                            final(core)@.rows,
                            routed(
                                old(core)@.asked,
                                held_addresses(final(resolver).held()),
                                old(core)@.carries_v6(),
                            ),
                            added,
                        ) && final(resolver).counts() == (Stats {
                            routed: counted(counts.routed, added as int),
                            ..counts
                        })
                } else {
                    final(resolver).counts() == counts
                }
            },
        },
{
    let settled = resolver.settle(query, asked, route, outcome, now);
    if settled.routes_changed {
        let leased = resolver.leases().addresses();
        let added = core.routes_changed(leased.as_slice(), table);
        assert(agrees(
            old(table).answers(),
            table.answers(),
            old(core)@.rows,
            core@.rows,
            routed(
                old(core)@.asked,
                held_addresses(resolver.held()),
                old(core)@.carries_v6(),
            ),
            added,
        ));
        resolver.routed(added);
    }
    settled
}

/// Let go of the leases that have fallen due, and of their routes; and say whether any had.
pub fn sweep<T: RouteTable>(
    resolver: &mut Resolver,
    core: &mut Core,
    table: &mut Asked<T>,
    now: u64,
) -> (any: bool)
    requires
        old(resolver).wf(),
        old(core).wf(),
    ensures
        final(resolver).wf(),
        final(core).wf(),
        undisturbed(old(resolver), final(resolver)),
        final(resolver).counts() == old(resolver).counts(),
        final(resolver).held() == current(
            old(resolver).held(),
            since(old(resolver).start(), now),
        ),
        any == (final(resolver).held().len() != old(resolver).held().len()),
        final(core)@ == (CoreState { rows: final(core)@.rows, ..old(core)@ }),
        if any {
            exists|added: usize| #[trigger]
                agrees(
                    old(table).answers(),
                    final(table).answers(),
                    old(core)@.rows,
                    final(core)@.rows,
                    routed(
                        old(core)@.asked,
                        held_addresses(final(resolver).held()),
                        old(core)@.carries_v6(),
                    ),
                    added,
                )
        } else {
            final(core)@.rows == old(core)@.rows && final(table).answers() == old(table).answers()
        },
{
    let any = resolver.expire(now);
    if any {
        let leased = resolver.leases().addresses();
        let added = core.routes_changed(leased.as_slice(), table);
        assert(agrees(
            old(table).answers(),
            table.answers(),
            old(core)@.rows,
            core@.rows,
            routed(
                old(core)@.asked,
                held_addresses(resolver.held()),
                old(core)@.carries_v6(),
            ),
            added,
        ));
    }
    any
}

/// A target enters the tunnel the moment its name resolves: once the routing table has taken the
/// change that an answer calls for, every address in the answer is routed to, as long as the tunnel
/// carries its family and there was room to hold the answer.
pub proof fn law_a_name_that_resolves_enters_the_tunnel(
    leases: Seq<LeaseState>,
    name: Seq<char>,
    records: Seq<Answer>,
    now: u64,
    at: int,
    asked: Set<Prefix>,
    carries_v6: bool,
    before: Set<Prefix>,
    after: Set<Prefix>,
    change: Change,
)
    requires
        leases.len() + records.len() <= MAX_LEASES,
        0 <= at < records.len(),
        carries_v6 || records[at].address is V4,
        installs(
            before,
            after,
            routed(asked, held_addresses(recorded(leases, name, records, now)), carries_v6),
            Ok(change),
        ),
    ensures
        after.contains(host(records[at].address)),
{
    law_what_an_answer_names_is_held(leases, name, records, now, at);
    lemma_held_is_leased(recorded(leases, name, records, now), records[at].address);
}

/// An answer that brings no news needs no route: where the table agrees with what was held before
/// it, it agrees with what is held after it, and every address in the answer is routed to already
/// where the tunnel carries its family.
pub proof fn law_no_news_is_routed_already(
    leases: Seq<LeaseState>,
    name: Seq<char>,
    records: Seq<Answer>,
    now: u64,
    asked: Set<Prefix>,
    carries_v6: bool,
)
    requires
        !brings_news(leases, name, records, now),
    ensures
        routed(asked, held_addresses(recorded(leases, name, records, now)), carries_v6) == routed(
            asked,
            held_addresses(leases),
            carries_v6,
        ),
        forall|at: int|
            0 <= at < records.len() && (carries_v6 || records[at].address is V4) ==> routed(
                asked,
                held_addresses(leases),
                carries_v6,
            ).contains(host((#[trigger] records[at]).address)),
{
    law_no_news_changes_no_address(leases, name, records, now);
    assert forall|at: int|
        0 <= at < records.len() && (carries_v6 || records[at].address is V4) implies routed(
        asked,
        held_addresses(leases),
        carries_v6,
    ).contains(host((#[trigger] records[at]).address)) by {
        lemma_held_is_leased(leases, records[at].address);
    }
}

/// An address whose lease has fallen due leaves the tunnel, unless it was asked for: once the
/// routing table has taken the change that the sweep calls for, nothing routes to it.
pub proof fn law_what_falls_due_leaves_the_tunnel(
    leases: Seq<LeaseState>,
    now: u64,
    at: int,
    asked: Set<Prefix>,
    carries_v6: bool,
    before: Set<Prefix>,
    after: Set<Prefix>,
    change: Change,
)
    requires
        tidy(leases),
        0 <= at < leases.len(),
        leases[at].expires <= now,
        !asked.contains(host(leases[at].address)),
        installs(
            before,
            after,
            routed(asked, held_addresses(current(leases, now)), carries_v6),
            Ok(change),
        ),
    ensures
        !after.contains(host(leases[at].address)),
{
    let address = leases[at].address;
    let left = held_addresses(current(leases, now));
    law_what_fell_due_is_not_held(leases, now, at);
    if is_leased(left, host(address)) {
        let k = choose|k: int| 0 <= k < left.len() && host(address) == host(#[trigger] left[k]);
        assert(left[k] == address);
    }
}

/// An address that is held is one to route to.
proof fn lemma_held_is_leased(leases: Seq<LeaseState>, address: IpAddr)
    requires
        held_addresses(leases).contains(address),
    ensures
        is_leased(held_addresses(leases), host(address)),
{
    let held = held_addresses(leases);
    let k = choose|k: int| 0 <= k < held.len() && held[k] == address;
    assert(host(address) == host(held[k]));
}

} // verus!
