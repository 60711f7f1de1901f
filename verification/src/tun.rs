//! The side of the tunnel the operating system sees: an adapter, and the prefixes routed into it.
//!
//! The adapter carries the address the far end assigned and nothing else. Only traffic meant for the
//! tunnel is routed to it, by host routes, so a packet arriving already carries the right source
//! address and needs no rewriting on the way out.

use vstd::prelude::*;
use vstd::string::{StringExecFns, StringSliceAdditionalSpecFns};
use crate::address::shown::{show, shown};
use crate::address::written::{address_written, parse};
use crate::address::IpAddr;
use crate::text::{
    between, cut_at, decimal, digits, joined, lemma_decimal_grows, number_written, parse_number,
    split_once,
};

pub mod asked;
pub mod outside;
pub mod prefixes;

use asked::{applies, asks_for, first_refusal, in_order, moved, rows_after, Answer, Asked};
use prefixes::{ascending, key, Prefix, Prefixes};

verus! {

/// The ring the driver and this process share, per direction: what a saturated link needs to absorb
/// a scheduling hiccup without the driver dropping packets.
pub const RING_CAPACITY: u32 = 0x40_0000;

/// How long an adapter name still held by an instance on its way out is waited for, in milliseconds.
///
/// The adapter is tied to the process that created it: when that process ends the device is removed,
/// but the removal is asynchronous and the name stays taken until it finishes.
pub const NAME_RELEASE_BUDGET: u64 = 8000;

/// How often the name is asked for again while it is being waited for, in milliseconds.
pub const NAME_RELEASE_POLL: u64 = 250;

/// What the operating system answers when an adapter's name is taken.
pub const ERROR_ALREADY_EXISTS: i32 = 183;

/// What it answers when a route is already there, and when one is already gone.
pub const ERROR_OBJECT_ALREADY_EXISTS: u32 = 5010;

pub const ERROR_NOT_FOUND: u32 = 1168;

/// Why the driver's library could not be used: missing, or not the library this expects.
#[derive(Debug, PartialEq, Eq)]
pub enum LoadError {
    /// It could not be loaded from a path, and what was said about it.
    Library(String, String),
    /// It is missing an entry point.
    Symbol(&'static str),
}

/// Why the adapter, its addresses or its routes could not be made to say what was asked. What the
/// operating system said is kept as its words.
#[derive(Debug, PartialEq, Eq)]
pub enum TunError {
    Load(LoadError),
    /// The adapter could not be created; this needs to run elevated.
    Create(String),
    /// The adapter name was still held by an instance on its way out after so many milliseconds.
    NameHeld(u64),
    Session(String),
    Address(IpAddr, u32),
    Route(IpAddr, u8, u32),
    RouteRemoval(IpAddr, u8, u32),
    Mtu(u32),
    Send(usize, String),
}

/// What is said about a library that could not be used.
pub open spec fn load_text(error: LoadError) -> Seq<char> {
    match error {
        LoadError::Library(path, why) => "wintun.dll could not be loaded from "@ + path@ + ": "@
            + why@,
        LoadError::Symbol(name) => "wintun.dll is missing the entry point `"@ + name@
            + "` — it is not the library this expects"@,
    }
}

impl LoadError {
    /// What is said about it.
    pub fn text(&self) -> (text: String)
        ensures
            text@ == load_text(*self),
    {
        match self {
            LoadError::Library(path, why) => {
                let start = between("wintun.dll could not be loaded from ", path.as_str(), ": ");
                joined(start.as_str(), why.as_str())
            },
            LoadError::Symbol(name) => between(
                "wintun.dll is missing the entry point `",
                name,
                "` — it is not the library this expects",
            ),
        }
    }
}

/// The thousandths behind a whole number of seconds: no more digits than they need, behind a point,
/// or nothing.
pub open spec fn thousandths(n: nat) -> Seq<char> {
    if n == 0 {
        Seq::empty()
    } else if n % 100 == 0 {
        "."@ + digits(n / 100)
    } else if n % 10 == 0 {
        "."@ + digits(n / 100) + digits((n / 10) % 10)
    } else {
        "."@ + digits(n / 100) + digits((n / 10) % 10) + digits(n % 10)
    }
}

/// A time in milliseconds as it is shown: in seconds where it is one, and else in milliseconds. No
/// time at all is none of the smallest unit there is.
pub open spec fn duration_shown(ms: u64) -> Seq<char> {
    if ms == 0 {
        "0ns"@
    } else if ms < 1000 {
        digits(ms as nat) + "ms"@
    } else {
        digits((ms / 1000) as nat) + thousandths((ms % 1000) as nat) + "s"@
    }
}

/// Show a time in milliseconds.
pub fn show_duration(ms: u64) -> (text: String)
    ensures
        text@ == duration_shown(ms),
{
    if ms == 0 {
        return String::from_str("0ns");
    }
    if ms < 1000 {
        let whole = decimal(ms as u128);
        return joined(whole.as_str(), "ms");
    }
    let mut text = decimal((ms / 1000) as u128);
    let rest = ms % 1000;
    if rest != 0 {
        let first = decimal((rest / 100) as u128);
        let part = between(text.as_str(), ".", first.as_str());
        let ghost whole = digits((ms / 1000) as nat);
        assert(part@ =~= whole + ("."@ + digits((rest / 100) as nat)));
        text = part;
        if rest % 100 != 0 {
            let second = decimal(((rest / 10) % 10) as u128);
            let part = joined(text.as_str(), second.as_str());
            assert(part@ =~= whole + ("."@ + digits((rest / 100) as nat) + digits(
                ((rest / 10) % 10) as nat,
            )));
            text = part;
            if rest % 10 != 0 {
                let third = decimal((rest % 10) as u128);
                let part = joined(text.as_str(), third.as_str());
                assert(part@ =~= whole + ("."@ + digits((rest / 100) as nat) + digits(
                    ((rest / 10) % 10) as nat,
                ) + digits((rest % 10) as nat)));
                text = part;
            }
        }
    }
    assert(text@ =~= digits((ms / 1000) as nat) + thousandths(rest as nat));
    joined(text.as_str(), "s")
}

/// What is said about an adapter, an address or a route that was refused.
pub open spec fn tun_text(error: TunError) -> Seq<char> {
    match error {
        TunError::Load(error) => "loading wintun: "@ + load_text(error),
        TunError::Create(why) => {
            "the adapter could not be created — this needs to run elevated: "@ + why@
        },
        TunError::NameHeld(ms) => {
            "the adapter name was still held by an instance on its way out after "@
                + duration_shown(ms)
        },
        TunError::Session(why) => "the adapter session could not be started: "@ + why@,
        TunError::Address(address, status) => "assigning "@ + shown(address)
            + " to the adapter failed with error "@ + digits(status as nat),
        TunError::Route(address, prefix, status) => "routing "@ + shown(address) + "/"@ + digits(
            prefix as nat,
        ) + " into the tunnel failed with error "@ + digits(status as nat),
        TunError::RouteRemoval(address, prefix, status) => "removing the route for "@ + shown(
            address,
        ) + "/"@ + digits(prefix as nat) + " failed with error "@ + digits(status as nat),
        TunError::Mtu(status) => "setting the adapter MTU failed with error "@ + digits(
            status as nat,
        ),
        TunError::Send(length, why) => "a packet of "@ + digits(length as nat)
            + " bytes could not be written to the adapter: "@ + why@,
    }
}

impl TunError {
    /// What is said about it.
    pub fn text(&self) -> (text: String)
        ensures
            text@ == tun_text(*self),
    {
        match self {
            TunError::Load(error) => {
                let why = error.text();
                joined("loading wintun: ", why.as_str())
            },
            TunError::Create(why) => joined(
                "the adapter could not be created — this needs to run elevated: ",
                why.as_str(),
            ),
            TunError::NameHeld(ms) => {
                let time = show_duration(*ms);
                joined(
                    "the adapter name was still held by an instance on its way out after ",
                    time.as_str(),
                )
            },
            TunError::Session(why) => joined(
                "the adapter session could not be started: ",
                why.as_str(),
            ),
            TunError::Address(address, status) => {
                let address = show(*address);
                let status = decimal(*status as u128);
                let start = between(
                    "assigning ",
                    address.as_str(),
                    " to the adapter failed with error ",
                );
                joined(start.as_str(), status.as_str())
            },
            TunError::Route(address, prefix, status) => {
                let address = show(*address);
                let prefix = decimal(*prefix as u128);
                let status = decimal(*status as u128);
                let start = between("routing ", address.as_str(), "/");
                let middle = between(
                    start.as_str(),
                    prefix.as_str(),
                    " into the tunnel failed with error ",
                );
                joined(middle.as_str(), status.as_str())
            },
            TunError::RouteRemoval(address, prefix, status) => {
                let address = show(*address);
                let prefix = decimal(*prefix as u128);
                let status = decimal(*status as u128);
                let start = between("removing the route for ", address.as_str(), "/");
                let middle = between(start.as_str(), prefix.as_str(), " failed with error ");
                joined(middle.as_str(), status.as_str())
            },
            TunError::Mtu(status) => {
                let status = decimal(*status as u128);
                joined("setting the adapter MTU failed with error ", status.as_str())
            },
            TunError::Send(length, why) => {
                let length = decimal(*length as u128);
                let start = between(
                    "a packet of ",
                    length.as_str(),
                    " bytes could not be written to the adapter: ",
                );
                joined(start.as_str(), why.as_str())
            },
        }
    }
}

/// What an attempt to create the adapter is followed by.
#[derive(Debug, Clone, Copy, PartialEq, Eq, Structural)]
pub enum NameStep {
    /// It failed for good.
    Failed,
    /// The name is still held, and the time for waiting is over.
    Held,
    /// Wait for a poll and ask again. `first` the first time, when it is worth a word.
    Wait { first: bool },
}

/// Waiting for an adapter's name to be released.
///
/// Only a name that is taken is waited on, and only for as long as a device removal takes. Every
/// other refusal is final at once: an access denial does not improve by being asked again.
#[derive(Debug, Clone, Copy, PartialEq, Eq, Structural)]
pub struct NameWait {
    pub deadline: u64,
    pub poll: u64,
    pub waiting: bool,
}

impl NameWait {
    /// Start waiting, for at most so long, asking again every so often. Moments are milliseconds on
    /// the caller's clock.
    pub fn new(now: u64, budget: u64, poll: u64) -> (wait: Self)
        requires
            now + budget <= u64::MAX,
        ensures
            wait == (NameWait { deadline: (now + budget) as u64, poll, waiting: false }),
    {
        NameWait { deadline: now + budget, poll, waiting: false }
    }

    /// An attempt was refused with an error of the operating system, if it gave one.
    pub fn refused(&mut self, os_error: Option<i32>, now: u64) -> (step: NameStep)
        ensures
            final(self).deadline == old(self).deadline,
            final(self).poll == old(self).poll,
            step == if os_error != Some(ERROR_ALREADY_EXISTS) {
                NameStep::Failed
            } else if now + old(self).poll >= old(self).deadline {
                NameStep::Held
            } else {
                NameStep::Wait { first: !old(self).waiting }
            },
            final(self).waiting == (old(self).waiting || step is Wait),
    {
        let taken = match os_error {
            Some(code) => code == ERROR_ALREADY_EXISTS,
            None => false,
        };
        if !taken {
            return NameStep::Failed;
        }
        if now >= self.deadline || self.poll >= self.deadline - now {
            return NameStep::Held;
        }
        let first = !self.waiting;
        self.waiting = true;
        NameStep::Wait { first }
    }
}

/// The MD5 of bytes.
pub uninterp spec fn md5_of(bytes: Seq<u8>) -> Seq<u8>;

/// `md5::Md5::digest`: sixteen bytes that depend on the bytes given and on nothing else.
#[verifier::external_body]
fn md5_digest(bytes: &[u8]) -> (digest: [u8; 16])
    ensures
        digest@ == md5_of(bytes@),
{
    <md5::Md5 as md5::Digest>::digest(bytes).into()
}

/// What an adapter's identity is the MD5 of.
pub open spec fn identity_of(name: &str) -> Seq<u8> {
    "wintun".spec_bytes() + name.spec_bytes()
}

/// The adapter's identity, derived from its name so that it is the same every run.
///
/// A fresh random identity per adapter would make another unidentified network of every run and
/// leave the previous device behind. The application sweeps leftover tunnel adapters by recomputing
/// exactly this.
pub fn adapter_guid(name: &str) -> (guid: [u8; 16])
    ensures
        guid@ == md5_of(identity_of(name)),
{
    let mut bytes: Vec<u8> = Vec::new();
    bytes.extend_from_slice("wintun".as_bytes());
    bytes.extend_from_slice(name.as_bytes());
    assert(bytes@ =~= identity_of(name));
    md5_digest(bytes.as_slice())
}

/// The version of the driver, as `major.minor`, out of the number it is packed in.
pub fn driver_version(packed: u32) -> (version: String)
    ensures
        version@ == digits((packed / 65536) as nat) + "."@ + digits((packed % 65536) as nat),
{
    let major = decimal((packed / 65536) as u128);
    let minor = decimal((packed % 65536) as u128);
    between(major.as_str(), ".", minor.as_str())
}

/// How many bits an address has.
pub open spec fn whole(address: IpAddr) -> u8 {
    match address {
        IpAddr::V4(_) => 32,
        IpAddr::V6(_) => 128,
    }
}

/// What is wrong with a prefix as it is written.
pub ghost enum NoPrefix {
    NoAddress,
    NoLength,
    TooLong,
}

/// The prefix that a text is: an address, or an address and a length.
pub open spec fn prefix_written(text: Seq<char>) -> Result<Prefix, NoPrefix> {
    let (address, length) = match split_once(text, '/') {
        Some((address, length)) => (address, Some(length)),
        None => (text, None),
    };
    match address_written(address) {
        None => Err(NoPrefix::NoAddress),
        Some(address) => match length {
            None => Ok((address, whole(address))),
            Some(length) => match number_written(length, 255) {
                None => Err(NoPrefix::NoLength),
                Some(length) => if length > whole(address) {
                    Err(NoPrefix::TooLong)
                } else {
                    Ok((address, length as u8))
                },
            },
        },
    }
}

/// What is said about a text that is no prefix.
pub open spec fn prefix_complaint(text: Seq<char>, problem: NoPrefix) -> Seq<char> {
    match problem {
        NoPrefix::NoAddress => "`"@ + text + "` is not an address"@,
        NoPrefix::NoLength => "`"@ + text + "` has no prefix length after the slash"@,
        NoPrefix::TooLong => "`"@ + text + "` is longer than its address family allows"@,
    }
}

/// Read one prefix as it is written: `address`, or `address/length`.
///
/// A bare address is one host, which is what a target usually is.
pub fn parse_prefix(written: &str) -> (prefix: Result<Prefix, String>)
    ensures
        match prefix {
            Ok(prefix) => prefix_written(written@) == Ok::<_, NoPrefix>(prefix),
            Err(complaint) => match prefix_written(written@) {
                Ok(_) => false,
                Err(problem) => complaint@ == prefix_complaint(written@, problem),
            },
        },
{
    match cut_at(written, '/') {
        None => match parse(written) {
            None => Err(between("`", written, "` is not an address")),
            Some(address) => Ok(
                (
                    address,
                    match address {
                        IpAddr::V4(_) => 32,
                        IpAddr::V6(_) => 128,
                    },
                ),
            ),
        },
        Some((address, length)) => match parse(address.as_str()) {
            None => Err(between("`", written, "` is not an address")),
            Some(address) => {
                let most: u64 = match address {
                    IpAddr::V4(_) => 32,
                    IpAddr::V6(_) => 128,
                };
                match parse_number(length.as_str(), 255) {
                    None => Err(
                        between("`", written, "` has no prefix length after the slash"),
                    ),
                    Some(length) => if length > most {
                        Err(between("`", written, "` is longer than its address family allows"))
                    } else {
                        Ok((address, length as u8))
                    },
                }
            },
        },
    }
}

/// What changed when a new set of prefixes was applied.
#[derive(Debug, PartialEq, Eq)]
pub struct Change {
    pub added: Vec<Prefix>,
    pub removed: Vec<Prefix>,
}

impl Change {
    /// Whether anything moved at all. A set applied twice is not an event.
    pub fn is_empty(&self) -> (empty: bool)
        ensures
            empty == (self.added@.len() == 0 && self.removed@.len() == 0),
    {
        self.added.len() == 0 && self.removed.len() == 0
    }
}

impl Default for Change {
    fn default() -> (change: Self)
        ensures
            change.added@ == Seq::<Prefix>::empty(),
            change.removed@ == Seq::<Prefix>::empty(),
    {
        Change { added: Vec::new(), removed: Vec::new() }
    }
}

/// The two operations [`Routes::apply`] needs of a routing table. A table may refuse any row, and
/// nothing is taken for granted about which.
pub trait RouteTable {
    /// Route one prefix into the tunnel. A row that is already there is the state being asked for.
    fn add(&mut self, destination: IpAddr, prefix: u8) -> Result<(), TunError>;

    /// Take one prefix back out. A row already gone is the state being asked for.
    fn remove(&mut self, destination: IpAddr, prefix: u8) -> Result<(), TunError>;
}

/// What the operating system's answer to adding a route means.
///
/// A row that is already there is the state being asked for. It happens after a process that did not
/// get to clean up, and reporting it as a failure would make one leftover row enough to stop the
/// whole set from being installed.
pub fn route_added(destination: IpAddr, prefix: u8, status: u32) -> (added: Result<(), TunError>)
    ensures
        match added {
            Ok(_) => status == 0 || status == ERROR_OBJECT_ALREADY_EXISTS,
            Err(error) => status != 0 && status != ERROR_OBJECT_ALREADY_EXISTS && error
                == TunError::Route(destination, prefix, status),
        },
{
    if status != 0 && status != ERROR_OBJECT_ALREADY_EXISTS {
        Err(TunError::Route(destination, prefix, status))
    } else {
        Ok(())
    }
}

/// What the operating system's answer to removing a route means. A row that is already gone is
/// likewise the state being asked for.
pub fn route_removed(destination: IpAddr, prefix: u8, status: u32) -> (removed: Result<
    (),
    TunError,
>)
    ensures
        match removed {
            Ok(_) => status == 0 || status == ERROR_NOT_FOUND,
            Err(error) => status != 0 && status != ERROR_NOT_FOUND && error
                == TunError::RouteRemoval(destination, prefix, status),
        },
{
    if status != 0 && status != ERROR_NOT_FOUND {
        Err(TunError::RouteRemoval(destination, prefix, status))
    } else {
        Ok(())
    }
}

/// The prefixes currently routed into the tunnel.
///
/// All routing means here. What goes through the tunnel is decided by the operating system's routing
/// table, not by anything in this process, so a set of prefixes and the ability to change it in
/// place is everything a routing engine would have added.
#[derive(Debug)]
pub struct Routes {
    installed: Prefixes,
}

/// What has moved so far, and the first refusal.
#[derive(Debug)]
pub struct Applied {
    pub change: Change,
    pub refused: Option<TunError>,
}

impl Routes {
    /// The prefixes that are routed.
    pub closed spec fn rows(&self) -> Set<Prefix> {
        self.installed@
    }

    /// The set is kept in order.
    pub closed spec fn wf(&self) -> bool {
        self.installed.wf()
    }

    pub fn new() -> (routes: Self)
        ensures
            routes.wf(),
            routes.rows() == Set::<Prefix>::empty(),
    {
        Routes { installed: Prefixes::new() }
    }

    /// The table answered about taking a prefix out: the set names exactly the rows that moved, and
    /// the first refusal is kept.
    pub fn after_removal(
        &mut self,
        prefix: Prefix,
        outcome: Result<(), TunError>,
        applied: &mut Applied,
    )
        requires
            old(self).wf(),
        ensures
            final(self).wf(),
            final(applied).change.added == old(applied).change.added,
            match outcome {
                Ok(_) => {
                    &&& final(self).rows() == old(self).rows().remove(prefix)
                    &&& final(applied).change.removed@ == old(applied).change.removed@.push(prefix)
                    &&& final(applied).refused == old(applied).refused
                },
                Err(problem) => {
                    &&& final(self).rows() == old(self).rows()
                    &&& final(applied).change.removed == old(applied).change.removed
                    &&& final(applied).refused == if old(applied).refused is None {
                        Some(problem)
                    } else {
                        old(applied).refused
                    }
                },
            },
    {
        match outcome {
            Ok(()) => {
                self.installed.remove(prefix);
                applied.change.removed.push(prefix);
            },
            Err(problem) => {
                if applied.refused.is_none() {
                    applied.refused = Some(problem);
                }
            },
        }
    }

    /// The table answered about putting a prefix in.
    pub fn after_addition(
        &mut self,
        prefix: Prefix,
        outcome: Result<(), TunError>,
        applied: &mut Applied,
    )
        requires
            old(self).wf(),
        ensures
            final(self).wf(),
            final(applied).change.removed == old(applied).change.removed,
            match outcome {
                Ok(_) => {
                    &&& final(self).rows() == old(self).rows().insert(prefix)
                    &&& final(applied).change.added@ == old(applied).change.added@.push(prefix)
                    &&& final(applied).refused == old(applied).refused
                },
                Err(problem) => {
                    &&& final(self).rows() == old(self).rows()
                    &&& final(applied).change.added == old(applied).change.added
                    &&& final(applied).refused == if old(applied).refused is None {
                        Some(problem)
                    } else {
                        old(applied).refused
                    }
                },
            },
    {
        match outcome {
            Ok(()) => {
                self.installed.insert(prefix);
                applied.change.added.push(prefix);
            },
            Err(problem) => {
                if applied.refused.is_none() {
                    applied.refused = Some(problem);
                }
            },
        }
    }

    /// The prefixes that are routed and not wanted, in order.
    pub fn going(&self, wanted: &Prefixes) -> (going: Vec<Prefix>)
        requires
            self.wf(),
            wanted.wf(),
        ensures
            ascending(going@),
            going@.to_set() == self.rows().difference(wanted@),
    {
        self.installed.difference(wanted)
    }

    /// The prefixes that are wanted and not routed, in order.
    pub fn coming(&self, wanted: &Prefixes) -> (coming: Vec<Prefix>)
        requires
            self.wf(),
            wanted.wf(),
        ensures
            ascending(coming@),
            coming@.to_set() == wanted@.difference(self.rows()),
    {
        wanted.difference(&self.installed)
    }

    /// Take prefixes out, every one of them attempted.
    fn take_out<T: RouteTable>(
        &mut self,
        table: &mut Asked<T>,
        going: &Vec<Prefix>,
        applied: &mut Applied,
    ) -> (run: Ghost<Seq<Answer>>)
        requires
            old(self).wf(),
            ascending(going@),
            forall|k: int| 0 <= k < going@.len() ==> old(self).rows().contains(#[trigger] going@[k]),
            old(applied).refused is None,
            old(applied).change.removed@.len() == 0,
        ensures
            final(table).answers() == old(table).answers() + run@,
            asks_for(run@, going@, Seq::empty()),
            final(self).rows() == rows_after(old(self).rows(), run@),
            final(applied).refused == first_refusal(run@),
            final(applied).change.removed@ == moved(run@, false),
            moved(run@, true) == Seq::<Prefix>::empty(),
            final(self).wf(),
            final(applied).change.added == old(applied).change.added,
            final(self).rows().subset_of(old(self).rows()),
            old(self).rows().difference(going@.to_set()).subset_of(final(self).rows()),
            match final(applied).refused {
                None => final(applied).change.removed@ == going@ && final(self).rows() == old(self).rows().difference(going@.to_set()),
                Some(_) => exists|k: int|
                    0 <= k < going@.len() && final(self).rows().contains(#[trigger] going@[k]),
            },
    {
        let ghost before = self.rows();
        let ghost asked = table.answers();
        let ghost mut run: Seq<Answer> = Seq::empty();
        let ghost mut stuck: int = 0;
        let mut i: usize = 0;
        proof {
            assert(going@.take(0) =~= Seq::empty());
            assert(self.rows() =~= before.difference(going@.take(0).to_set()));
            assert(applied.change.removed@ =~= going@.take(0));
            assert(asked + run =~= asked);
        }
        while i < going.len()
            invariant
                self.wf(),
                asked == old(table).answers(),
                table.answers() == asked + run,
                run.len() == i,
                forall|k: int|
                    0 <= k < i ==> !(#[trigger] run[k]).add && run[k].prefix == going@[k],
                self.rows() == rows_after(before, run),
                applied.refused == first_refusal(run),
                applied.change.removed@ == moved(run, false),
                moved(run, true) == Seq::<Prefix>::empty(),
                ascending(going@),
                i <= going.len(),
                before == old(self).rows(),
                forall|k: int| 0 <= k < going@.len() ==> before.contains(#[trigger] going@[k]),
                applied.change.added == old(applied).change.added,
                self.rows().subset_of(before),
                before.difference(going@.take(i as int).to_set()).subset_of(self.rows()),
                match applied.refused {
                    None => applied.change.removed@ == going@.take(i as int) && self.rows()
                        == before.difference(going@.take(i as int).to_set()),
                    Some(_) => 0 <= stuck < i && self.rows().contains(going@[stuck]),
                },
            decreases going.len() - i,
        {
            let prefix = going[i];
            let ghost rows = self.rows();
            let ghost had = applied.refused;
            proof {
                assert(going@.take(i + 1) =~= going@.take(i as int).push(prefix));
                going@.take(i as int).lemma_push_to_set_commute(prefix);
                if had is Some {
                    assert(key(going@[stuck]) < key(going@[i as int]));
                }
            }
            let outcome = table.remove(prefix);
            self.after_removal(prefix, outcome, applied);
            proof {
                let answer = Answer { add: false, prefix, outcome };
                assert((asked + run).push(answer) =~= asked + run.push(answer));
                assert(run.push(answer).drop_last() =~= run);
                run = run.push(answer);
                if outcome is Ok {
                    assert(self.rows() =~= rows.remove(prefix));
                    if had is None {
                        assert(self.rows() =~= before.difference(going@.take(i + 1).to_set()));
                    }
                } else if had is None {
                    stuck = i as int;
                    assert(!going@.take(i as int).to_set().contains(prefix)) by {
                        if going@.take(i as int).contains(prefix) {
                            let k = choose|k: int|
                                0 <= k < i && going@.take(i as int)[k] == prefix;
                            assert(key(going@[k]) < key(going@[i as int]));
                        }
                    }
                    assert(before.contains(prefix));
                }
            }
            i += 1;
        }
        assert(going@.take(i as int) =~= going@);
        Ghost(run)
    }

    /// Put prefixes in, every one of them attempted.
    fn put_in<T: RouteTable>(
        &mut self,
        table: &mut Asked<T>,
        coming: &Vec<Prefix>,
        applied: &mut Applied,
        Ghost(start): Ghost<(Set<Prefix>, Seq<Answer>)>,
    ) -> (run: Ghost<Seq<Answer>>)
        requires
            old(self).rows() == rows_after(start.0, start.1),
            old(applied).refused == first_refusal(start.1),
            old(applied).change.removed@ == moved(start.1, false),
            old(applied).change.added@ == moved(start.1, true),
            old(self).wf(),
            ascending(coming@),
            forall|k: int|
                0 <= k < coming@.len() ==> !old(self).rows().contains(#[trigger] coming@[k]),
            old(applied).change.added@.len() == 0,
        ensures
            final(table).answers() == old(table).answers() + run@,
            run@.len() == coming@.len(),
            forall|k: int|
                0 <= k < run@.len() ==> (#[trigger] run@[k]).add && run@[k].prefix == coming@[k],
            final(self).rows() == rows_after(start.0, start.1 + run@),
            final(applied).refused == first_refusal(start.1 + run@),
            final(applied).change.removed@ == moved(start.1 + run@, false),
            final(applied).change.added@ == moved(start.1 + run@, true),
            final(self).wf(),
            final(applied).change.removed == old(applied).change.removed,
            old(self).rows().subset_of(final(self).rows()),
            final(self).rows().subset_of(old(self).rows().union(coming@.to_set())),
            old(applied).refused is Some ==> final(applied).refused == old(applied).refused,
            final(applied).refused is None ==> final(applied).change.added@ == coming@ && final(self).rows() == old(self).rows().union(coming@.to_set()),
            final(applied).refused is Some && old(applied).refused is None ==> exists|k: int|
                0 <= k < coming@.len() && !final(self).rows().contains(#[trigger] coming@[k]),
    {
        let ghost before = self.rows();
        let ghost first = applied.refused;
        let ghost asked = table.answers();
        let ghost mut run: Seq<Answer> = Seq::empty();
        let ghost mut stuck: int = 0;
        let mut i: usize = 0;
        proof {
            assert(asked + run =~= asked);
            assert(start.1 + run =~= start.1);
            assert(coming@.take(0) =~= Seq::empty());
            assert(self.rows() =~= before.union(coming@.take(0).to_set()));
            assert(applied.change.added@ =~= coming@.take(0));
        }
        while i < coming.len()
            invariant
                self.wf(),
                asked == old(table).answers(),
                table.answers() == asked + run,
                run.len() == i,
                forall|k: int|
                    0 <= k < i ==> (#[trigger] run[k]).add && run[k].prefix == coming@[k],
                self.rows() == rows_after(start.0, start.1 + run),
                applied.refused == first_refusal(start.1 + run),
                applied.change.removed@ == moved(start.1 + run, false),
                applied.change.added@ == moved(start.1 + run, true),
                ascending(coming@),
                i <= coming.len(),
                before == old(self).rows(),
                forall|k: int| 0 <= k < coming@.len() ==> !before.contains(#[trigger] coming@[k]),
                first == old(applied).refused,
                applied.change.removed == old(applied).change.removed,
                before.subset_of(self.rows()),
                self.rows().subset_of(before.union(coming@.take(i as int).to_set())),
                first is Some ==> applied.refused == first,
                applied.refused is None ==> applied.change.added@ == coming@.take(i as int)
                    && self.rows() == before.union(coming@.take(i as int).to_set()),
                applied.refused is Some && first is None ==> 0 <= stuck < i
                    && !self.rows().contains(coming@[stuck]),
            decreases coming.len() - i,
        {
            let prefix = coming[i];
            let ghost rows = self.rows();
            let ghost had = applied.refused;
            proof {
                assert(coming@.take(i + 1) =~= coming@.take(i as int).push(prefix));
                coming@.take(i as int).lemma_push_to_set_commute(prefix);
                if had is Some && first is None {
                    assert(key(coming@[stuck]) < key(coming@[i as int]));
                }
            }
            let outcome = table.add(prefix);
            self.after_addition(prefix, outcome, applied);
            proof {
                let answer = Answer { add: true, prefix, outcome };
                assert((asked + run).push(answer) =~= asked + run.push(answer));
                assert((start.1 + run.push(answer)).drop_last() =~= start.1 + run);
                assert((start.1 + run.push(answer)).last() == answer);
                run = run.push(answer);
                if outcome is Ok {
                    assert(self.rows() =~= rows.insert(prefix));
                    if had is None {
                        assert(self.rows() =~= before.union(coming@.take(i + 1).to_set()));
                    }
                } else if had is None {
                    stuck = i as int;
                    assert(!coming@.take(i as int).to_set().contains(prefix)) by {
                        if coming@.take(i as int).contains(prefix) {
                            let k = choose|k: int|
                                0 <= k < i && coming@.take(i as int)[k] == prefix;
                            assert(key(coming@[k]) < key(coming@[i as int]));
                        }
                    }
                    assert(!before.contains(prefix));
                }
            }
            i += 1;
        }
        assert(coming@.take(i as int) =~= coming@);
        Ghost(run)
    }

    /// Make the installed set match `wanted`, and say what moved.
    ///
    /// Removals go first: a prefix being replaced by a longer or shorter one covering the same
    /// addresses should not have two rows in the table at once, however briefly.
    ///
    /// One row the table refuses does not stop the rest: every prefix is attempted, the set is
    /// updated to name exactly the rows that moved, and the first refusal is returned after all of
    /// them. The next call then sees the difference genuinely left.
    pub fn apply<T: RouteTable>(&mut self, table: &mut Asked<T>, wanted: &Prefixes) -> (change:
        Result<Change, TunError>)
        requires
            old(self).wf(),
            wanted.wf(),
        ensures
            final(self).wf(),
            applies(
                old(table).answers(),
                final(table).answers(),
                old(self).rows(),
                final(self).rows(),
                wanted@,
                change,
            ),
            match change {
                Ok(change) => {
                    &&& final(self).rows() == wanted@
                    &&& ascending(change.removed@)
                    &&& change.removed@.to_set() == old(self).rows().difference(wanted@)
                    &&& ascending(change.added@)
                    &&& change.added@.to_set() == wanted@.difference(old(self).rows())
                },
                // Something was refused. What both sets hold is still there, and nothing is there
                // that neither holds.
                Err(_) => {
                    &&& final(self).rows() != wanted@
                    &&& old(self).rows().intersect(wanted@).subset_of(final(self).rows())
                    &&& final(self).rows().subset_of(old(self).rows().union(wanted@))
                },
            },
    {
        let ghost before = self.rows();
        let mut applied = Applied { change: Change::default(), refused: None };
        let going = self.going(wanted);
        assert forall|k: int| 0 <= k < going@.len() implies before.contains(
            #[trigger] going@[k],
        ) && !wanted@.contains(going@[k]) by {
            assert(going@.to_set().contains(going@[k]));
        }
        let ghost asked = table.answers();
        let run = self.take_out(table, &going, &mut applied);
        let ghost between = self.rows();
        let ghost held_on = applied.refused is Some;
        let coming = self.coming(wanted);
        assert forall|k: int| 0 <= k < coming@.len() implies !between.contains(
            #[trigger] coming@[k],
        ) && wanted@.contains(coming@[k]) by {
            assert(coming@.to_set().contains(coming@[k]));
        }
        let more = self.put_in(table, &coming, &mut applied, Ghost((before, run@)));
        proof {
            let all = run@ + more@;
            assert(table.answers() =~= asked + all);
            assert((asked + all).skip(asked.len() as int) =~= all);
            assert((asked + all).take(asked.len() as int) =~= asked);
            assert(coming@.to_set() =~= wanted@.difference(before));
            assert(asks_for(all, going@, coming@));
            assert(in_order(going@, before.difference(wanted@)));
            assert(in_order(coming@, wanted@.difference(before)));
            if applied.refused is None {
                assert(self.rows() =~= wanted@);
                assert(coming@.to_set() =~= wanted@.difference(before));
            } else if held_on {
                let k = choose|k: int|
                    0 <= k < going@.len() && between.contains(#[trigger] going@[k]);
                assert(self.rows().contains(going@[k]));
                assert(!wanted@.contains(going@[k]));
            } else {
                let k = choose|k: int|
                    0 <= k < coming@.len() && !self.rows().contains(#[trigger] coming@[k]);
                assert(wanted@.contains(coming@[k]));
            }
        }
        match applied.refused {
            Some(problem) => Err(problem),
            None => Ok(applied.change),
        }
    }

    /// What is routed into the tunnel right now.
    pub fn installed(&self) -> (installed: &Prefixes)
        requires
            self.wf(),
        ensures
            installed.wf(),
            installed@ == self.rows(),
    {
        &self.installed
    }
}

/// Which address family a call applies to. The operating system takes a family on rows that would
/// otherwise be ambiguous, and the two constants are easy to pass the wrong way round as bare
/// numbers.
#[derive(Debug, Clone, Copy, PartialEq, Eq, Structural)]
pub enum Family {
    V4,
    V6,
}

impl Family {
    /// The number the operating system calls the family by.
    pub fn af(self) -> (af: u16)
        ensures
            af == match self {
                Family::V4 => 2u16,
                Family::V6 => 23u16,
            },
    {
        match self {
            Family::V4 => 2,
            Family::V6 => 23,
        }
    }
}

impl Default for Routes {
    fn default() -> (routes: Self)
        ensures
            routes.wf(),
            routes.rows() == Set::<Prefix>::empty(),
    {
        Routes::new()
    }
}

/// A set applied twice is not an event: once it is installed, nothing moves and nothing is asked of
/// the table.
pub proof fn law_a_set_applied_twice_is_not_an_event(
    before: Seq<Answer>,
    after: Seq<Answer>,
    rows: Set<Prefix>,
    now: Set<Prefix>,
    change: Result<Change, TunError>,
)
    requires
        applies(before, after, rows, now, rows, change),
    ensures
        after == before,
        now == rows,
        change matches Ok(change) && change.added@.len() == 0 && change.removed@.len() == 0,
{
    let answers = after.skip(before.len() as int);
    let (going, coming) = choose|going: Seq<Prefix>, coming: Seq<Prefix>| #[trigger]
        asks_for(answers, going, coming) && in_order(going, rows.difference(rows)) && in_order(
            coming,
            rows.difference(rows),
        );
    if going.len() > 0 {
        assert(going.contains(going[0]));
        assert(going.to_set().contains(going[0]));
    }
    if coming.len() > 0 {
        assert(coming.contains(coming[0]));
        assert(coming.to_set().contains(coming[0]));
    }
    assert(after =~= before);
}

/// What a table refuses stays to be tried again: after a run with a refusal in it, the prefix that
/// was refused is still routed, where it was to go, or still is not, where it was to come.
pub proof fn law_what_is_refused_is_left_to_be_tried_again(
    before: Seq<Answer>,
    after: Seq<Answer>,
    rows: Set<Prefix>,
    now: Set<Prefix>,
    wanted: Set<Prefix>,
    change: Result<Change, TunError>,
    at: int,
)
    requires
        applies(before, after, rows, now, wanted, change),
        before.len() <= at < after.len(),
        after[at].outcome is Err,
    ensures
        after[at].add ==> !now.contains(after[at].prefix) && wanted.contains(after[at].prefix),
        !after[at].add ==> now.contains(after[at].prefix) && !wanted.contains(after[at].prefix),
{
    let answers = after.skip(before.len() as int);
    let (going, coming) = choose|going: Seq<Prefix>, coming: Seq<Prefix>| #[trigger]
        asks_for(answers, going, coming) && in_order(going, rows.difference(wanted)) && in_order(
            coming,
            wanted.difference(rows),
        );
    let k = at - before.len();
    assert(answers[k] == after[at]);
    let prefix = answers[k].prefix;
    if k < going.len() {
        assert(going.contains(going[k]));
        assert(going.to_set().contains(prefix));
        assert(rows.contains(prefix));
    } else {
        assert(coming.contains(coming[k - going.len()]));
        assert(coming.to_set().contains(prefix));
        assert(!rows.contains(prefix));
    }
    lemma_asked_once(answers, going, coming, rows, wanted, k);
    lemma_unmoved(rows, answers, prefix);
}

/// No prefix is asked about twice.
proof fn lemma_asked_once(
    answers: Seq<Answer>,
    going: Seq<Prefix>,
    coming: Seq<Prefix>,
    rows: Set<Prefix>,
    wanted: Set<Prefix>,
    k: int,
)
    requires
        asks_for(answers, going, coming),
        in_order(going, rows.difference(wanted)),
        in_order(coming, wanted.difference(rows)),
        0 <= k < answers.len(),
        answers[k].outcome is Err,
    ensures
        forall|i: int|
            0 <= i < answers.len() && (#[trigger] answers[i]).outcome is Ok ==> answers[i].prefix
                != answers[k].prefix,
{
    assert forall|i: int|
        0 <= i < answers.len() && (#[trigger] answers[i]).outcome is Ok implies answers[i].prefix
        != answers[k].prefix by {
        let n = going.len();
        if i < n && k < n {
            if i < k {
                assert(key(going[i]) < key(going[k]));
            } else {
                assert(key(going[k]) < key(going[i]));
            }
        } else if i >= n && k >= n {
            if i < k {
                assert(key(coming[i - n]) < key(coming[k - n]));
            } else {
                assert(key(coming[k - n]) < key(coming[i - n]));
            }
        } else if i < n {
            assert(going.contains(going[i]) && coming.contains(coming[k - n]));
            assert(going.to_set().contains(going[i]));
            assert(coming.to_set().contains(coming[k - n]));
        } else {
            assert(going.contains(going[k]) && coming.contains(coming[i - n]));
            assert(going.to_set().contains(going[k]));
            assert(coming.to_set().contains(coming[i - n]));
        }
    }
}

/// A prefix that no answer moved is where it was.
proof fn lemma_unmoved(rows: Set<Prefix>, answers: Seq<Answer>, prefix: Prefix)
    requires
        forall|i: int|
            0 <= i < answers.len() && (#[trigger] answers[i]).outcome is Ok ==> answers[i].prefix
                != prefix,
    ensures
        rows_after(rows, answers).contains(prefix) == rows.contains(prefix),
    decreases answers.len(),
{
    if answers.len() > 0 {
        let before = answers.drop_last();
        assert forall|i: int|
            0 <= i < before.len() && (#[trigger] before[i]).outcome is Ok implies before[i].prefix
            != prefix by {
            assert(before[i] == answers[i]);
        }
        lemma_unmoved(rows, before, prefix);
        assert(answers[answers.len() - 1] == answers.last());
    }
}

/// A prefix that is read is one its family allows, and a bare address is one host.
pub proof fn law_a_prefix_is_one_its_family_allows(text: Seq<char>)
    ensures
        prefix_written(text) matches Ok((address, length)) ==> length <= whole(address),
        split_once(text, '/') is None && address_written(text) is Some ==> prefix_written(text)
            == Ok::<_, NoPrefix>((address_written(text)->0, whole(address_written(text)->0))),
{
    if let Some((_, length)) = split_once(text, '/') {
        if number_written(length, 255) is Some {
            lemma_decimal_grows(crate::text::unsigned(length), 0);
        }
    }
}

/// A part of a second is shown in no more digits than it needs: behind a point, one to three, the last
/// of them not zero, which counted in thousandths are the part; and no part is not shown.
pub proof fn law_a_part_of_a_second_is_shown_in_thousandths(n: nat)
    requires
        n < 1000,
    ensures
        n == 0 ==> thousandths(n) == Seq::<char>::empty(),
        n > 0 ==> ({
            let shown = thousandths(n);
            &&& 2 <= shown.len() <= 4
            &&& shown[0] == '.'
            &&& shown.last() != '0'
            &&& forall|i: int| 1 <= i < shown.len() ==> 48 <= (#[trigger] shown[i]) as int <= 57
            &&& n == (shown[1] as int - 48) * 100 + (if shown.len() > 2 {
                (shown[2] as int - 48) * 10
            } else {
                0
            }) + (if shown.len() > 3 {
                shown[3] as int - 48
            } else {
                0
            })
        }),
{
    reveal_strlit(".");
    crate::text::laws::lemma_digits(n / 100);
    crate::text::laws::lemma_digits((n / 10) % 10);
    crate::text::laws::lemma_digits(n % 10);
    lemma_one_digit(n / 100);
    lemma_one_digit((n / 10) % 10);
    lemma_one_digit(n % 10);
}

proof fn lemma_one_digit(n: nat)
    requires
        n < 10,
    ensures
        digits(n) == seq![(48 + n) as char],
        (48 + n) as char as int == 48 + n,
{
}

/// A time is shown in milliseconds below a second, and in seconds from there on.
pub proof fn law_a_time_is_shown_in_seconds_from_one_on(ms: u64)
    ensures
        ms == 0 ==> duration_shown(ms) == "0ns"@,
        0 < ms < 1000 ==> duration_shown(ms) == digits(ms as nat) + "ms"@,
        ms >= 1000 ==> duration_shown(ms) == digits((ms / 1000) as nat) + thousandths(
            (ms % 1000) as nat,
        ) + "s"@,
{
}

/// A prefix is an address, a slash and a length of at most 32 or 128 bits, whichever its family has;
/// an address alone is the prefix of that one address. A length over that is refused as too long, and
/// what is no address, or no length of at most 255, as such.
pub proof fn law_a_shown_prefix_is_read_back(address: IpAddr, length: nat, text: Seq<char>)
    ensures
        ({
            let bits = match address {
                IpAddr::V4(_) => 32int,
                IpAddr::V6(_) => 128int,
            };
            let written = shown(address) + seq!['/'] + digits(length);
            &&& length <= bits ==> prefix_written(written) == Ok::<_, NoPrefix>(
                (address, length as u8),
            )
            &&& bits < length <= 255 ==> prefix_written(written) == Err::<Prefix, _>(
                NoPrefix::TooLong,
            )
            &&& length > 255 ==> prefix_written(written) == Err::<Prefix, _>(NoPrefix::NoLength)
            &&& prefix_written(shown(address)) == Ok::<_, NoPrefix>((address, bits as u8))
            &&& number_written(text, 255) is None ==> prefix_written(
                shown(address) + seq!['/'] + text,
            ) == Err::<Prefix, _>(NoPrefix::NoLength)
        }),
        address_written(text) is None && crate::text::laws::free_of(text, '/') ==> prefix_written(
            text,
        ) == Err::<Prefix, _>(NoPrefix::NoAddress) && prefix_written(
            text + seq!['/'] + digits(length),
        ) == Err::<Prefix, _>(NoPrefix::NoAddress),
{
    crate::address::laws::law_a_shown_address_is_read_back(address);
    crate::address::laws::lemma_shown_free(address);
    crate::text::laws::law_a_shown_number_is_read_back(length, 255);
    crate::text::laws::law_a_text_is_split_where_it_was_joined(
        shown(address),
        digits(length),
        '/',
    );
    crate::text::laws::law_a_text_is_split_where_it_was_joined(shown(address), text, '/');
    crate::text::laws::law_the_first_separator_splits(shown(address), '/');
    if let Some((a, b)) = split_once(shown(address), '/') {
        assert(shown(address)[a.len() as int] == '/');
    }
    if crate::text::laws::free_of(text, '/') {
        crate::text::laws::law_a_text_is_split_where_it_was_joined(text, digits(length), '/');
        crate::text::laws::law_the_first_separator_splits(text, '/');
        if let Some((a, b)) = split_once(text, '/') {
            assert(text[a.len() as int] == '/');
        }
    }
}

} // verus!
