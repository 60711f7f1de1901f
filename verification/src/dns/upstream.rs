//! Asking an upstream resolver, and checking the reply belongs to the query.
//!
//! A query is forwarded byte for byte and the reply returned byte for byte. Nothing here builds or
//! rewrites a message; only enough of the reply header is read to match it to its query.
//!
//! Two transports, distinguished by what a filtered line can do to them rather than by how they are
//! dialled. Plain DNS is readable and forgeable in flight, so the application keeps a resolver on it
//! only for names it is content to expose. DoH is neither.
//!
//! Which side of the tunnel a query leaves by is the caller's to say. A resolver reached through the
//! tunnel is asked with an unbound socket. A resolver asked directly is asked from the address the
//! caller hands over, which keeps it off the tunnel even when its address is routed in for
//! everything else on the machine.

use vstd::hash_map::StringHashMap;
use vstd::prelude::*;
use vstd::string::StringExecFns;
use crate::address::shown::{show, show_socket, shown, socket_shown};
use crate::address::{IpAddr, SocketAddr};
use crate::dns::message::HEADER_LEN;
use crate::dns::policy::{Kind, Resolver};
use crate::status::{show_status, status_shown};
use crate::text::{between, decimal, digits, joined};
use crate::wire::{be16, be16_bytes, be16_spec, high_byte, low_byte};

pub mod laws;

verus! {

/// How long one attempt at an upstream may take, in milliseconds.
///
/// Bounded well under what a client waits before retrying: a resolver that has not answered in four
/// seconds will not be the one that answers.
pub const QUERY_TIMEOUT: u64 = 4000;

/// The port every declared resolver is asked on.
pub const DNS_PORT: u16 = 53;

/// The port a DoH resolver is dialled on where its url names none.
pub const HTTPS_PORT: u16 = 443;

/// The most a message may be.
pub const MAX_MESSAGE: usize = 65_535;

/// Why an upstream could not answer, or could not be built to be asked. What a client or the
/// operating system said is kept as its words.
#[derive(Debug, PartialEq, Eq)]
pub enum UpstreamError {
    /// This is not a url.
    BadUrl(String),
    /// The url names no host, so there is nothing to check a certificate against.
    NoHost(String),
    /// No client could be prepared for a resolver.
    Client { id: String, source: String },
    Io(String),
    /// The resolver did not answer in time.
    Timeout,
    /// The resolver answered with this HTTP status.
    Http(u16),
    Request(String),
    /// The answer is this many bytes, which is too short to be a DNS message.
    TooShort(usize),
    /// The answer carries another question's id.
    Mismatched,
}

/// What is said about an upstream that could not answer, or could not be built to be asked.
pub open spec fn upstream_text(error: UpstreamError) -> Seq<char> {
    match error {
        UpstreamError::BadUrl(url) => "`"@ + url@ + "` is not a url"@,
        UpstreamError::NoHost(url) => "the url `"@ + url@
            + "` names no host, so there is nothing to check a certificate against"@,
        UpstreamError::Client { id, source } => "preparing the client for `"@ + id@ + "`: "@
            + source@,
        UpstreamError::Io(why) => "io: "@ + why@,
        UpstreamError::Timeout => "the resolver did not answer within 4 s"@,
        UpstreamError::Http(status) => "the resolver answered with http "@ + status_shown(status),
        UpstreamError::Request(why) => "asking the resolver: "@ + why@,
        UpstreamError::TooShort(length) => "the answer is "@ + digits(length as nat)
            + " bytes, which is too short to be a dns message"@,
        UpstreamError::Mismatched => "the answer carries another question's id"@,
    }
}

impl UpstreamError {
    /// What is said about it.
    pub fn text(&self) -> (text: String)
        ensures
            text@ == upstream_text(*self),
    {
        match self {
            UpstreamError::BadUrl(url) => between("`", url.as_str(), "` is not a url"),
            UpstreamError::NoHost(url) => between(
                "the url `",
                url.as_str(),
                "` names no host, so there is nothing to check a certificate against",
            ),
            UpstreamError::Client { id, source } => {
                let start = between("preparing the client for `", id.as_str(), "`: ");
                joined(start.as_str(), source.as_str())
            },
            UpstreamError::Io(why) => joined("io: ", why.as_str()),
            UpstreamError::Timeout => String::from_str("the resolver did not answer within 4 s"),
            UpstreamError::Http(status) => {
                let status = show_status(*status);
                joined("the resolver answered with http ", status.as_str())
            },
            UpstreamError::Request(why) => joined("asking the resolver: ", why.as_str()),
            UpstreamError::TooShort(length) => {
                let length = decimal(*length as u128);
                between(
                    "the answer is ",
                    length.as_str(),
                    " bytes, which is too short to be a dns message",
                )
            },
            UpstreamError::Mismatched => String::from_str(
                "the answer carries another question's id",
            ),
        }
    }
}

/// One upstream, prepared once and asked many times.
#[derive(Debug)]
pub enum Upstream {
    Plain { address: IpAddr },
    Doh(Doh),
}

/// A DoH resolver: where it is dialled, the name its certificate is checked against, and the client.
#[derive(Debug)]
pub struct Doh {
    pub id: String,
    pub url: String,
    /// The name the certificate is checked against, pinned to the declared address.
    pub host: String,
    pub dialled: SocketAddr,
    /// The client, and the local address it dials from.
    pub bound: Bound,
}

/// A DoH client and the address its connections are made from.
///
/// A client is kept rather than built per query because it carries a connection pool and a TLS
/// session. It is replaced when the address it has to dial from changes, since a pooled connection
/// from the old address is a connection from nowhere.
#[derive(Debug)]
pub struct Bound {
    pub from: Option<IpAddr>,
    pub client: reqwest::Client,
}

/// `reqwest::Client`: a handle on a connection pool, carried to whoever asks with it.
#[verifier::external_type_specification]
#[verifier::external_body]
pub struct ExClient(reqwest::Client);

/// What a client was built with: the host it reaches, where that is dialled, the address it is
/// dialled from, whether it speaks HTTPS alone, and how many milliseconds a request may take.
pub uninterp spec fn built_with(client: reqwest::Client) -> (
    Seq<char>,
    Seq<char>,
    Option<Seq<char>>,
    bool,
    u64,
);

/// `reqwest::ClientBuilder::build`: a client that reaches `host` at `dialled`, from `from` where that
/// is given, over HTTPS alone where that is asked for, and within so many milliseconds. Whether there
/// is one depends on the machine, so only what it was built with is claimed; what a client does is
/// seen when it is used.
#[verifier::external_body]
fn build_client(
    host: &str,
    dialled: &str,
    from: Option<&str>,
    https_only: bool,
    timeout: u64,
) -> (client: Result<reqwest::Client, String>)
    ensures
        client matches Ok(client) ==> built_with(client) == (
            host@,
            dialled@,
            match from {
                Some(from) => Some(from@),
                None => None,
            },
            https_only,
            timeout,
        ),
{
    let Ok(dialled) = dialled.parse() else { return Err(dialled.to_owned()) };
    let mut builder = reqwest::Client::builder().resolve(host, dialled).https_only(https_only);
    if let Some(from) = from {
        let mut local = dialled;
        let Ok(ip) = from.parse() else { return Err(from.to_owned()) };
        local.set_ip(ip);
        builder = builder.local_address(local.ip());
    }
    let timeout = std::time::Duration::from_millis(timeout);
    builder.timeout(timeout).build().map_err(|problem| problem.to_string())
}

/// Whether a client is one for a host pinned to an address, over HTTPS alone, dialled from another
/// address where one is given.
pub open spec fn reaches(
    client: reqwest::Client,
    host: Seq<char>,
    dialled: SocketAddr,
    from: Option<IpAddr>,
) -> bool {
    built_with(client) == (
        host,
        socket_shown(dialled),
        match from {
            Some(from) => Some(shown(from)),
            None => None,
        },
        true,
        QUERY_TIMEOUT,
    )
}

/// A DoH client for one resolver. The host is pinned to the declared address, so asking this
/// resolver never needs a name resolved first, which it could not be, since this is the thing that
/// resolves names.
fn doh_client(host: &str, dialled: SocketAddr, from: Option<IpAddr>) -> (client: Result<
    reqwest::Client,
    String,
>)
    ensures
        client matches Ok(client) ==> reaches(client, host@, dialled, from),
{
    let dialled = show_socket(dialled);
    match from {
        Some(from) => {
            let from = show(from);
            build_client(host, dialled.as_str(), Some(from.as_str()), true, QUERY_TIMEOUT)
        },
        None => build_client(host, dialled.as_str(), None, true, QUERY_TIMEOUT),
    }
}

/// An upstream as plain values.
pub ghost enum Prepared {
    Plain { address: IpAddr },
    Doh {
        id: Seq<char>,
        url: Seq<char>,
        host: Seq<char>,
        dialled: SocketAddr,
        from: Option<IpAddr>,
    },
}

impl Upstream {
    /// Whether a DoH resolver's client is one for it.
    pub open spec fn wf(&self) -> bool {
        match *self {
            Upstream::Plain { .. } => true,
            Upstream::Doh(doh) => doh.wf(),
        }
    }
}

impl View for Upstream {
    type V = Prepared;

    open spec fn view(&self) -> Prepared {
        match *self {
            Upstream::Plain { address } => Prepared::Plain { address },
            Upstream::Doh(doh) => Prepared::Doh {
                id: doh.id@,
                url: doh.url@,
                host: doh.host@,
                dialled: doh.dialled,
                from: doh.bound.from,
            },
        }
    }
}

/// What reading a text as a url gives: nothing where it is none, and else the host and the port it
/// names. The port is not named where it is the scheme's own.
pub uninterp spec fn parsed_url(text: Seq<char>) -> Option<(Option<Seq<char>>, Option<u16>)>;

/// `reqwest::Url::parse`, with the host and the port read out of the result. What a url is takes
/// pages to say; that the same text always reads the same is what is claimed.
#[verifier::external_body]
fn parse_url(text: &str) -> (parsed: Option<(Option<String>, Option<u16>)>)
    ensures
        url_view(parsed) == parsed_url(text@),
{
    match reqwest::Url::parse(text) {
        Ok(url) => Some((url.host_str().map(str::to_owned), url.port())),
        Err(_) => None,
    }
}

/// A read url as plain values.
pub open spec fn url_view(parsed: Option<(Option<String>, Option<u16>)>) -> Option<
    (Option<Seq<char>>, Option<u16>),
> {
    match parsed {
        None => None,
        Some((None, port)) => Some((None, port)),
        Some((Some(host), port)) => Some((Some(host@), port)),
    }
}

/// The url a resolver is declared with, or no text.
pub open spec fn declared_url(resolver: Resolver) -> Seq<char> {
    match resolver.url {
        Some(url) => url@,
        None => Seq::empty(),
    }
}

/// Why a resolver cannot be prepared, or what it becomes, given what its url reads as.
pub open spec fn prepared(
    resolver: Resolver,
    parsed: Option<(Option<Seq<char>>, Option<u16>)>,
) -> Result<Prepared, Unprepared> {
    match resolver.kind {
        Kind::Plain => Ok(Prepared::Plain { address: resolver.address }),
        Kind::Doh => match parsed {
            None => Err(Unprepared::BadUrl(declared_url(resolver))),
            Some((None, _)) => Err(Unprepared::NoHost(declared_url(resolver))),
            Some((Some(host), port)) => Ok(
                Prepared::Doh {
                    id: resolver.id@,
                    url: declared_url(resolver),
                    host,
                    dialled: SocketAddr {
                        ip: resolver.address,
                        port: match port {
                            Some(port) => port,
                            None => HTTPS_PORT,
                        },
                    },
                    from: None,
                },
            ),
        },
    }
}

/// Why a resolver cannot be prepared, the url as characters.
pub ghost enum Unprepared {
    BadUrl(Seq<char>),
    NoHost(Seq<char>),
}

/// Whether an error is this one.
pub open spec fn says(error: UpstreamError, why: Unprepared) -> bool {
    match why {
        Unprepared::BadUrl(url) => error matches UpstreamError::BadUrl(text) && text@ == url,
        Unprepared::NoHost(url) => error matches UpstreamError::NoHost(text) && text@ == url,
    }
}

/// A resolver as far as it can be prepared without a client: a plain one whole, and a DoH one but
/// for the client it is asked with.
#[derive(Debug)]
pub enum Plan {
    Plain { address: IpAddr },
    Doh { id: String, url: String, host: String, dialled: SocketAddr },
}

impl View for Plan {
    type V = Prepared;

    open spec fn view(&self) -> Prepared {
        match *self {
            Plan::Plain { address } => Prepared::Plain { address },
            Plan::Doh { id, url, host, dialled } => Prepared::Doh {
                id: id@,
                url: url@,
                host: host@,
                dialled,
                from: None,
            },
        }
    }
}

/// Prepare one resolver but for its client, given what its url reads as.
pub fn plan(resolver: &Resolver, parsed: Option<(Option<String>, Option<u16>)>) -> (planned: Result<
    Plan,
    UpstreamError,
>)
    ensures
        match planned {
            Ok(plan) => prepared(*resolver, url_view(parsed)) == Ok::<_, Unprepared>(plan@) && (
            plan matches Plan::Doh { id, .. } ==> resolver.kind == Kind::Doh && id@
                == resolver.id@),
            Err(error) => prepared(*resolver, url_view(parsed)) matches Err(why) && says(
                error,
                why,
            ),
        },
{
    match resolver.kind {
        Kind::Plain => Ok(Plan::Plain { address: resolver.address }),
        Kind::Doh => {
            let url = match &resolver.url {
                Some(url) => url.clone(),
                None => String::new(),
            };
            assert(url@ =~= declared_url(*resolver));
            match parsed {
                None => Err(UpstreamError::BadUrl(url)),
                Some((None, _)) => Err(UpstreamError::NoHost(url)),
                Some((Some(host), port)) => {
                    let port = match port {
                        Some(port) => port,
                        None => HTTPS_PORT,
                    };
                    Ok(
                        Plan::Doh {
                            id: resolver.id.clone(),
                            url,
                            host,
                            dialled: SocketAddr { ip: resolver.address, port },
                        },
                    )
                },
            }
        },
    }
}

/// A DoH resolver with its client, or why there is none. Prepared unbound.
pub fn with_client(
    id: String,
    url: String,
    host: String,
    dialled: SocketAddr,
    client: Result<reqwest::Client, String>,
) -> (upstream: Result<Upstream, UpstreamError>)
    ensures
        match (client, upstream) {
            (Ok(client), Ok(Upstream::Doh(doh))) => doh.bound.client == client && upstream->Ok_0@ == (
            Prepared::Doh { id: id@, url: url@, host: host@, dialled, from: None }),
            (Err(why), Err(error)) => error == (UpstreamError::Client { id, source: why }),
            _ => false,
        },
{
    match client {
        Ok(client) => Ok(
            Upstream::Doh(Doh { id, url, host, dialled, bound: Bound { from: None, client } }),
        ),
        Err(source) => Err(UpstreamError::Client { id, source }),
    }
}

/// Prepare one resolver, given what its url reads as. A DoH one gets its client now, unbound, so
/// that a resolver that cannot have one is refused with the policy rather than on the first name it
/// is asked about.
fn prepare(resolver: &Resolver, parsed: Option<(Option<String>, Option<u16>)>) -> (upstream: Result<
    Upstream,
    UpstreamError,
>)
    ensures
        match upstream {
            Ok(upstream) => upstream.wf() && prepared(*resolver, url_view(parsed)) == Ok::<
                _,
                Unprepared,
            >(upstream@),
            Err(error) => match prepared(*resolver, url_view(parsed)) {
                Err(why) => says(error, why),
                Ok(_) => resolver.kind == Kind::Doh && has_no_client(error, resolver.id@),
            },
        },
{
    match plan(resolver, parsed)? {
        Plan::Plain { address } => Ok(Upstream::Plain { address }),
        Plan::Doh { id, url, host, dialled } => {
            let client = doh_client(host.as_str(), dialled, None);
            with_client(id, url, host, dialled, client)
        },
    }
}

/// Whether an error is that a resolver could have no client.
pub open spec fn has_no_client(error: UpstreamError, id: Seq<char>) -> bool {
    error matches UpstreamError::Client { id: named, .. } && named@ == id
}

impl Doh {
    /// The client is one for this host, dialled here, from the address it is bound to.
    pub open spec fn wf(&self) -> bool {
        reaches(self.bound.client, self.host@, self.dialled, self.bound.from)
    }

    /// Whether asking from an address needs a client built afresh: the current one dials from
    /// another.
    pub fn needs_client(&self, from: Option<IpAddr>) -> (needed: bool)
        ensures
            needed == (self.bound.from != from),
    {
        match (self.bound.from, from) {
            (None, None) => false,
            (Some(IpAddr::V4(a)), Some(IpAddr::V4(b))) => a != b,
            (Some(IpAddr::V6(a)), Some(IpAddr::V6(b))) => a != b,
            _ => true,
        }
    }

    /// Have a client that dials from an address: the current one where it does, and else one built
    /// afresh. The one that was there stays where none can be built.
    pub fn client_from(&mut self, from: Option<IpAddr>) -> (done: Result<(), UpstreamError>)
        ensures
            final(self).id == old(self).id,
            final(self).url == old(self).url,
            final(self).host == old(self).host,
            final(self).dialled == old(self).dialled,
            old(self).bound.from == from ==> done is Ok && final(self).bound == old(self).bound,
            old(self).wf() ==> final(self).wf(),
            match done {
                Ok(_) => final(self).bound.from == from && (old(self).bound.from == from
                    || final(self).wf()),
                Err(error) => final(self).bound == old(self).bound && has_no_client(
                    error,
                    old(self).id@,
                ),
            },
    {
        if self.needs_client(from) {
            let client = doh_client(self.host.as_str(), self.dialled, from);
            self.bind(from, client)
        } else {
            Ok(())
        }
    }

    /// Dial from an address with this client from here on, or say why there is none. The one that was
    /// there stays where there is none.
    pub fn bind(
        &mut self,
        from: Option<IpAddr>,
        client: Result<reqwest::Client, String>,
    ) -> (done: Result<(), UpstreamError>)
        ensures
            final(self).id == old(self).id,
            final(self).url == old(self).url,
            final(self).host == old(self).host,
            final(self).dialled == old(self).dialled,
            match client {
                Ok(client) => done is Ok && final(self).bound == (Bound { from, client }),
                Err(why) => final(self).bound == old(self).bound && match done {
                    Err(UpstreamError::Client { id, source }) => id@ == old(self).id@ && source
                        == why,
                    _ => false,
                },
            },
    {
        match client {
            Ok(client) => {
                self.bound = Bound { from, client };
                Ok(())
            },
            Err(source) => Err(UpstreamError::Client { id: self.id.clone(), source }),
        }
    }

    /// The client to ask with.
    pub fn client(&self) -> (client: &reqwest::Client)
        ensures
            *client == self.bound.client,
    {
        &self.bound.client
    }
}

/// The local address a socket to `target` is bound to: `from` when given, and otherwise the unbound
/// address of the target's family.
pub fn local(target: SocketAddr, from: Option<IpAddr>) -> (address: IpAddr)
    ensures
        address == match from {
            Some(from) => from,
            None => match target.ip {
                IpAddr::V4(_) => IpAddr::V4(0),
                IpAddr::V6(_) => IpAddr::V6(0),
            },
        },
{
    match from {
        Some(from) => from,
        None => match target.ip {
            IpAddr::V4(_) => IpAddr::V4(0),
            IpAddr::V6(_) => IpAddr::V6(0),
        },
    }
}

/// Every declared resolver, ready to be asked.
pub struct Upstreams {
    ready: Vec<Upstream>,
    by_id: StringHashMap<usize>,
}

/// What the resolvers become, in order, or why the first that cannot be prepared cannot.
pub open spec fn all_prepared(resolvers: Seq<Resolver>) -> Result<Seq<Prepared>, Unprepared>
    decreases resolvers.len(),
{
    if resolvers.len() == 0 {
        Ok(Seq::empty())
    } else {
        match all_prepared(resolvers.drop_last()) {
            Err(why) => Err(why),
            Ok(before) => match prepared(
                resolvers.last(),
                parsed_url(declared_url(resolvers.last())),
            ) {
                Err(why) => Err(why),
                Ok(upstream) => Ok(before.push(upstream)),
            },
        }
    }
}

/// The upstreams by the ids they are declared under, a later one in place of an earlier.
pub open spec fn under_ids(resolvers: Seq<Resolver>, ready: Seq<Prepared>) -> Map<
    Seq<char>,
    Prepared,
>
    decreases resolvers.len(),
{
    if resolvers.len() == 0 || ready.len() == 0 {
        Map::empty()
    } else {
        under_ids(resolvers.drop_last(), ready.drop_last()).insert(
            resolvers.last().id@,
            ready.last(),
        )
    }
}

/// Whether a resolver is a DoH one that can be prepared but for its client, as can all before it.
pub open spec fn wants_client(resolvers: Seq<Resolver>, at: int) -> bool {
    resolvers[at].kind == Kind::Doh && all_prepared(resolvers.take(at + 1)) is Ok
}

/// Whether an error is that one of the DoH resolvers could have no client.
pub open spec fn client_refused(resolvers: Seq<Resolver>, error: UpstreamError) -> bool {
    exists|at: int|
        0 <= at < resolvers.len() && #[trigger] wants_client(resolvers, at) && has_no_client(
            error,
            resolvers[at].id@,
        )
}

/// An upstream whose client dials from an address.
pub open spec fn dialling_from(upstream: Prepared, from: Option<IpAddr>) -> Prepared {
    match upstream {
        Prepared::Plain { .. } => upstream,
        Prepared::Doh { id, url, host, dialled, .. } => Prepared::Doh {
            id,
            url,
            host,
            dialled,
            from,
        },
    }
}

impl View for Upstreams {
    type V = Map<Seq<char>, Prepared>;

    closed spec fn view(&self) -> Map<Seq<char>, Prepared> {
        Map::new(
            |id: Seq<char>| self.by_id@.contains_key(id),
            |id: Seq<char>| self.ready@[self.by_id@[id] as int]@,
        )
    }
}

impl Upstreams {
    /// Every id leads to an upstream of its own, and each upstream has the client it needs.
    pub closed spec fn wf(&self) -> bool {
        &&& forall|i: int| 0 <= i < self.ready@.len() ==> (#[trigger] self.ready@[i]).wf()
        &&& forall|id: Seq<char>| #[trigger]
            self.by_id@.contains_key(id) ==> self.by_id@[id] < self.ready@.len()
        &&& forall|a: Seq<char>, b: Seq<char>|
            #![trigger self.by_id@.contains_key(a), self.by_id@.contains_key(b)]
            self.by_id@.contains_key(a) && self.by_id@.contains_key(b) && self.by_id@[a]
                == self.by_id@[b] ==> a == b
    }

    /// Prepare each resolver. Fails as a whole: a policy half of whose resolvers work would answer
    /// some names and quietly fail others, which is worse than not being installed.
    pub fn build(resolvers: &Vec<Resolver>) -> (built: Result<Self, UpstreamError>)
        ensures
            match built {
                Ok(upstreams) => upstreams.wf() && match all_prepared(resolvers@) {
                    Ok(ready) => upstreams@ == under_ids(resolvers@, ready),
                    Err(_) => false,
                },
                Err(error) => {
                    ||| all_prepared(resolvers@) matches Err(why) && says(error, why)
                    ||| client_refused(resolvers@, error)
                },
            },
    {
        let mut upstreams = Upstreams { ready: Vec::new(), by_id: StringHashMap::new() };
        let ghost mut ready: Seq<Prepared> = Seq::empty();
        let mut i: usize = 0;
        proof {
            assert(resolvers@.take(0) =~= Seq::empty());
            assert(upstreams@ =~= Map::empty());
        }
        while i < resolvers.len()
            invariant
                i <= resolvers.len(),
                upstreams.wf(),
                all_prepared(resolvers@.take(i as int)) == Ok::<_, Unprepared>(ready),
                ready.len() == i,
                upstreams@ == under_ids(resolvers@.take(i as int), ready),
            decreases resolvers.len() - i,
        {
            let resolver = &resolvers[i];
            let ghost so_far = resolvers@.take(i + 1);
            assert(so_far.drop_last() =~= resolvers@.take(i as int));
            assert(so_far.last() == *resolver);
            let parsed = match &resolver.url {
                Some(url) => parse_url(url.as_str()),
                None => {
                    proof {
                        reveal_strlit("");
                        assert(""@ =~= declared_url(*resolver));
                    }
                    parse_url("")
                },
            };
            assert(url_view(parsed) == parsed_url(declared_url(*resolver)));
            let upstream = match prepare(resolver, parsed) {
                Ok(upstream) => upstream,
                Err(error) => {
                    proof {
                        if all_prepared(so_far) is Err {
                            lemma_first_failure(resolvers@, i + 1);
                        } else {
                            assert(wants_client(resolvers@, i as int));
                        }
                    }
                    return Err(error);
                },
            };
            let ghost before = upstreams;
            let ghost made = upstream@;
            upstreams.by_id.insert(resolver.id.clone(), upstreams.ready.len());
            upstreams.ready.push(upstream);
            proof {
                assert(ready.push(made).drop_last() =~= ready);
                ready = ready.push(made);
                assert(upstreams@ =~= before@.insert(resolver.id@, made));
            }
            i += 1;
        }
        assert(resolvers@.take(i as int) =~= resolvers@);
        Ok(upstreams)
    }

    /// The client for a resolver named by a rule, or nothing when the policy named none.
    pub fn get(&self, id: &str) -> (found: Option<&Upstream>)
        requires
            self.wf(),
        ensures
            match found {
                Some(upstream) => self@.contains_key(id@) && self@[id@] == upstream@
                    && upstream.wf(),
                None => !self@.contains_key(id@),
            },
    {
        match self.by_id.get(id) {
            Some(at) => Some(&self.ready[*at]),
            None => None,
        }
    }

    /// Have the upstream under an id dial from an address, where it is one that keeps a client.
    pub fn dial_from(&mut self, id: &str, from: Option<IpAddr>) -> (done: Result<(), UpstreamError>)
        requires
            old(self).wf(),
        ensures
            final(self).wf(),
            match done {
                Ok(_) => final(self)@ == if old(self)@.contains_key(id@) {
                    old(self)@.insert(id@, dialling_from(old(self)@[id@], from))
                } else {
                    old(self)@
                },
                Err(error) => {
                    &&& final(self)@ == old(self)@
                    &&& old(self)@.contains_key(id@)
                    &&& match old(self)@[id@] {
                        Prepared::Plain { .. } => false,
                        Prepared::Doh { id, from: before, .. } => before != from && has_no_client(
                            error,
                            id,
                        ),
                    }
                },
            },
    {
        let ghost before = *self;
        let at: usize = match self.by_id.get(id) {
            Some(at) => *at,
            None => return Ok(()),
        };
        assert(before.by_id@.contains_key(id@));
        let done = match &mut self.ready[at] {
            Upstream::Plain { .. } => Ok(()),
            Upstream::Doh(doh) => doh.client_from(from),
        };
        proof {
            assert forall|other: Seq<char>| #[trigger] before.by_id@.contains_key(other) && other
                != id@ implies self.ready@[before.by_id@[other] as int]@
                == before.ready@[before.by_id@[other] as int]@ by {
                assert(before.by_id@[other] != before.by_id@[id@]);
            }
            if done is Ok {
                assert(self@ =~= before@.insert(id@, dialling_from(before@[id@], from)));
            } else {
                assert(self@ =~= before@);
            }
        }
        done
    }
}

impl Default for Upstreams {
    fn default() -> (upstreams: Self)
        ensures
            upstreams.wf(),
            upstreams@ == Map::<Seq<char>, Prepared>::empty(),
    {
        let upstreams = Upstreams { ready: Vec::new(), by_id: StringHashMap::new() };
        assert(upstreams@ =~= Map::empty());
        upstreams
    }
}

/// What fails among the first resolvers fails among all of them.
proof fn lemma_first_failure(resolvers: Seq<Resolver>, count: int)
    requires
        0 <= count <= resolvers.len(),
        all_prepared(resolvers.take(count)) is Err,
    ensures
        all_prepared(resolvers) == all_prepared(resolvers.take(count)),
    decreases resolvers.len() - count,
{
    if count < resolvers.len() {
        assert(resolvers.take(count + 1).drop_last() =~= resolvers.take(count));
        lemma_first_failure(resolvers, count + 1);
    } else {
        assert(resolvers.take(count) =~= resolvers);
    }
}

/// The id that ties an answer to its question, or why there is none.
pub open spec fn id_of(message: Seq<u8>) -> Option<int> {
    if message.len() < HEADER_LEN {
        None
    } else {
        Some(be16_spec(message[0], message[1]))
    }
}

pub fn transaction_id(message: &[u8]) -> (id: Result<u16, UpstreamError>)
    ensures
        match id {
            Ok(id) => id_of(message@) == Some(id as int),
            Err(error) => id_of(message@) is None && error == UpstreamError::TooShort(message.len()),
        },
{
    if message.len() < HEADER_LEN {
        return Err(UpstreamError::TooShort(message.len()));
    }
    Ok(be16(message[0], message[1]))
}

/// Whether a reply says it did not fit: the second bit of its fourth byte.
pub fn is_truncated(message: &[u8]) -> (truncated: Result<bool, UpstreamError>)
    ensures
        match truncated {
            Ok(truncated) => message@.len() >= HEADER_LEN && truncated == ((message@[3] / 2) % 2
                == 1),
            Err(error) => message@.len() < HEADER_LEN && error == UpstreamError::TooShort(
                message.len(),
            ),
        },
{
    if message.len() < HEADER_LEN {
        return Err(UpstreamError::TooShort(message.len()));
    }
    Ok((message[3] / 2) % 2 == 1)
}

/// What is to be done with a reply.
#[derive(Debug, PartialEq, Eq)]
pub enum Received {
    /// Hand it back as it is.
    Reply,
    /// Ask again over TCP: it did not fit.
    AskOverTcp,
}

/// What a reply over UDP is good for.
///
/// The fallback is not optional politeness: a truncated answer carries a header and no addresses, so
/// a forwarder that passed it on would be handing the machine an empty answer for a name that has
/// plenty of them.
pub fn after_udp(reply: &[u8]) -> (next: Result<Received, UpstreamError>)
    ensures
        match next {
            Ok(next) => reply@.len() >= HEADER_LEN && (next == Received::AskOverTcp <==> (reply@[3]
                / 2) % 2 == 1),
            Err(error) => reply@.len() < HEADER_LEN && error == UpstreamError::TooShort(
                reply.len(),
            ),
        },
{
    if is_truncated(reply)? {
        Ok(Received::AskOverTcp)
    } else {
        Ok(Received::Reply)
    }
}

/// What an HTTP status says about the answer behind it.
pub fn after_http(status: u16) -> (answered: Result<(), UpstreamError>)
    ensures
        match answered {
            Ok(_) => 200 <= status < 300,
            Err(error) => !(200 <= status < 300) && error == UpstreamError::Http(status),
        },
{
    if 200 <= status && status < 300 {
        Ok(())
    } else {
        Err(UpstreamError::Http(status))
    }
}

/// Whether a reply answers the query that was sent. The id is the only thing tying an answer to a
/// question: accepting one that does not match is handing the machine somebody else's answer.
pub fn belongs(query: &[u8], reply: &[u8]) -> (accepted: Result<(), UpstreamError>)
    ensures
        match accepted {
            Ok(_) => id_of(query@) is Some && id_of(query@) == id_of(reply@),
            Err(error) => match (id_of(query@), id_of(reply@)) {
                (None, _) => error == UpstreamError::TooShort(query.len()),
                (Some(_), None) => error == UpstreamError::TooShort(reply.len()),
                (Some(wanted), Some(got)) => wanted != got && error == UpstreamError::Mismatched,
            },
        },
{
    let wanted = transaction_id(query)?;
    if transaction_id(reply)? != wanted {
        return Err(UpstreamError::Mismatched);
    }
    Ok(())
}

/// A message as it goes over TCP, behind its length; none where the length does not fit.
pub fn framed(message: &[u8]) -> (frame: Option<Vec<u8>>)
    ensures
        match frame {
            Some(frame) => message@.len() <= MAX_MESSAGE && frame@ == be16_bytes(
                message@.len() as int,
            ) + message@,
            None => message@.len() > MAX_MESSAGE,
        },
{
    if message.len() > MAX_MESSAGE {
        return None;
    }
    let length: u16 = message.len() as u16;
    let mut frame: Vec<u8> = Vec::new();
    frame.push(high_byte(length));
    frame.push(low_byte(length));
    frame.extend_from_slice(message);
    assert(frame@ =~= be16_bytes(message@.len() as int) + message@);
    Some(frame)
}

/// How long the message behind a TCP length is.
pub fn framed_length(header: [u8; 2]) -> (length: usize)
    ensures
        length == be16_spec(header@[0], header@[1]),
        length <= MAX_MESSAGE,
{
    be16(header[0], header[1]) as usize
}

/// A framed message says how long it is.
pub proof fn law_a_frame_says_its_length(message: Seq<u8>)
    requires
        message.len() <= MAX_MESSAGE,
    ensures
        ({
            let frame = be16_bytes(message.len() as int) + message;
            be16_spec(frame[0], frame[1]) == message.len() && frame.skip(2) == message
        }),
{
    let frame = be16_bytes(message.len() as int) + message;
    assert(frame.skip(2) =~= message);
}

} // verus!
