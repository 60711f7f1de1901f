//! What holds of the upstreams however they are declared.

use vstd::prelude::*;
use crate::dns::policy::{Kind, Resolver};
use crate::dns::upstream::{
    all_prepared, declared_url, dialling_from, id_of, parsed_url, prepared, under_ids, Prepared,
    Unprepared,
};
use crate::address::{IpAddr, SocketAddr};

verus! {

/// The id of a message is its first two bytes, whatever is behind them, and what is shorter than the
/// twelve bytes of a header has none.
pub proof fn law_the_id_is_the_first_two_bytes(message: Seq<u8>)
    ensures
        message.len() >= 12 ==> id_of(message) == Some(message[0] * 256 + message[1]),
        message.len() < 12 ==> id_of(message) is None,
{
}

/// A plain resolver is asked where it is declared, whatever its url. Any other is asked over its url,
/// at the address it is declared with and the port the url names, or 443 where it names none; with no
/// url that can be read, or with no host in it, it cannot be asked at all.
pub proof fn law_a_resolver_becomes_what_it_is_declared(resolver: Resolver, host: Seq<char>, port: u16)
    ensures
        ({
            let url = declared_url(resolver);
            let at = |port: u16|
                Prepared::Doh {
                    id: resolver.id@,
                    url,
                    host,
                    dialled: SocketAddr { ip: resolver.address, port },
                    from: None,
                };
            if resolver.kind == Kind::Plain {
                forall|parsed: Option<(Option<Seq<char>>, Option<u16>)>| #[trigger]
                    prepared(resolver, parsed) == Ok::<_, Unprepared>(
                        Prepared::Plain { address: resolver.address },
                    )
            } else {
                &&& prepared(resolver, None) == Err::<Prepared, _>(Unprepared::BadUrl(url))
                &&& prepared(resolver, Some((None, Some(port)))) == Err::<Prepared, _>(
                    Unprepared::NoHost(url),
                )
                &&& prepared(resolver, Some((None, None))) == Err::<Prepared, _>(
                    Unprepared::NoHost(url),
                )
                &&& prepared(resolver, Some((Some(host), Some(port)))) == Ok::<_, Unprepared>(
                    at(port),
                )
                &&& prepared(resolver, Some((Some(host), None))) == Ok::<_, Unprepared>(at(443))
            }
        }),
{
}

/// Resolvers are prepared all or none: where each of them can be, each becomes what it becomes alone,
/// in order; where one cannot, nothing is prepared, and what is said is about the first that cannot.
pub proof fn law_resolvers_are_prepared_all_or_none(resolvers: Seq<Resolver>, at: int)
    requires
        0 <= at < resolvers.len(),
    ensures
        match all_prepared(resolvers) {
            Ok(ready) => ready.len() == resolvers.len() && prepared(
                resolvers[at],
                parsed_url(declared_url(resolvers[at])),
            ) == Ok::<_, Unprepared>(ready[at]),
            Err(why) => (prepared(resolvers[at], parsed_url(declared_url(resolvers[at]))) is Err && (
            forall|i: int|
                0 <= i < at ==> prepared(
                    #[trigger] resolvers[i],
                    parsed_url(declared_url(resolvers[i])),
                ) is Ok)) ==> prepared(resolvers[at], parsed_url(declared_url(resolvers[at])))
                == Err::<Prepared, _>(why),
        },
        prepared(resolvers[at], parsed_url(declared_url(resolvers[at]))) is Err ==> all_prepared(
            resolvers,
        ) is Err,
    decreases resolvers.len(),
{
    let before = resolvers.drop_last();
    if at < before.len() {
        law_resolvers_are_prepared_all_or_none(before, at);
        assert(before[at] == resolvers[at]);
        assert((forall|i: int|
            0 <= i < at ==> prepared(
                #[trigger] resolvers[i],
                parsed_url(declared_url(resolvers[i])),
            ) is Ok) ==> (forall|i: int|
            0 <= i < at ==> prepared(
                #[trigger] before[i],
                parsed_url(declared_url(before[i])),
            ) is Ok)) by {
            assert forall|i: int| 0 <= i < at implies #[trigger] before[i] == resolvers[i] by {}
        }
        if all_prepared(before) is Err {
            lemma_one_fails(before);
        }
    } else {
        lemma_ready_len(before);
        if all_prepared(before) is Err {
            lemma_one_fails(before);
            let i = choose|i: int|
                0 <= i < before.len() && prepared(
                    #[trigger] before[i],
                    parsed_url(declared_url(before[i])),
                ) is Err;
            assert(before[i] == resolvers[i]);
        }
    }
}

proof fn lemma_ready_len(resolvers: Seq<Resolver>)
    ensures
        all_prepared(resolvers) matches Ok(ready) ==> ready.len() == resolvers.len(),
    decreases resolvers.len(),
{
    if resolvers.len() > 0 {
        lemma_ready_len(resolvers.drop_last());
    }
}

proof fn lemma_one_fails(resolvers: Seq<Resolver>)
    requires
        all_prepared(resolvers) is Err,
    ensures
        exists|i: int|
            0 <= i < resolvers.len() && prepared(
                #[trigger] resolvers[i],
                parsed_url(declared_url(resolvers[i])),
            ) is Err,
    decreases resolvers.len(),
{
    if resolvers.len() > 0 {
        let before = resolvers.drop_last();
        if all_prepared(before) is Err {
            lemma_one_fails(before);
            let i = choose|i: int|
                0 <= i < before.len() && prepared(
                    #[trigger] before[i],
                    parsed_url(declared_url(before[i])),
                ) is Err;
            assert(resolvers[i] == before[i]);
        } else {
            assert(resolvers[resolvers.len() - 1] == resolvers.last());
        }
    }
}

/// An upstream is found under the id it is declared with, the last of those with one id, and under no
/// other.
pub proof fn law_the_last_under_an_id_is_asked(
    resolvers: Seq<Resolver>,
    ready: Seq<Prepared>,
    id: Seq<char>,
    at: int,
)
    requires
        ready.len() == resolvers.len(),
    ensures
        0 <= at < resolvers.len() && resolvers[at].id@ == id && (forall|i: int|
            at < i < resolvers.len() ==> (#[trigger] resolvers[i]).id@ != id) ==> under_ids(
            resolvers,
            ready,
        ).contains_key(id) && under_ids(resolvers, ready)[id] == ready[at],
        (forall|i: int| 0 <= i < resolvers.len() ==> (#[trigger] resolvers[i]).id@ != id)
            ==> !under_ids(resolvers, ready).contains_key(id),
    decreases resolvers.len(),
{
    if resolvers.len() > 0 {
        let before = resolvers.drop_last();
        law_the_last_under_an_id_is_asked(before, ready.drop_last(), id, at);
        assert(forall|i: int| 0 <= i < before.len() ==> #[trigger] before[i] == resolvers[i]);
        assert(resolvers[resolvers.len() - 1] == resolvers.last());
    }
}

/// Dialling from another address changes nothing else, and nothing at all of a plain resolver.
pub proof fn law_dialling_from_elsewhere_changes_nothing_else(
    upstream: Prepared,
    from: Option<IpAddr>,
    again: Option<IpAddr>,
)
    ensures
        upstream is Plain ==> dialling_from(upstream, from) == upstream,
        upstream is Doh ==> ({
            let moved = dialling_from(upstream, from);
            &&& moved is Doh && moved->id == upstream->id && moved->url == upstream->url
            &&& moved->host == upstream->host && moved->dialled == upstream->dialled
            &&& moved->from == from
        }),
        dialling_from(dialling_from(upstream, from), again) == dialling_from(upstream, again),
{
}

} // verus!
