//! The registered device over time, rather than as written to disk.
//!
//! [`Identity`] is the file. This is what happens to it: loaded once, reused while the endpoint
//! accepts it, replaced when it stops. Without the last part, an invalidated device leaves the core
//! presenting rejected credentials indefinitely.
//!
//! Replacement is deliberately narrow. Registering creates a real device on the far side, so a hunch
//! leaves abandoned ones behind and a flapping link would leave one per flap. It happens on one
//! unambiguous signal, the endpoint refusing the request, and no more often than [`MIN_INTERVAL`].

use vstd::prelude::*;
use crate::text::joined;
use crate::warp::api::{api_text, ApiError};
use crate::warp::identity::{identity_text, Identity, IdentityError};

verus! {

/// The least time between one registration and the next, in milliseconds.
///
/// A refusal that comes back inside this window is not a second invalidated device: it is the same
/// one, or something that is not about the device at all.
pub const MIN_INTERVAL: u64 = 600_000;

/// Why this machine has no usable device to open a tunnel with.
#[derive(Debug, PartialEq, Eq)]
pub enum EnrolmentError {
    Identity(IdentityError),
    Register(ApiError),
}

/// What is said about a machine without a usable device.
pub open spec fn enrolment_text(error: EnrolmentError) -> Seq<char> {
    match error {
        EnrolmentError::Identity(error) => identity_text(error),
        EnrolmentError::Register(error) => "registering a device: "@ + api_text(error),
    }
}

impl EnrolmentError {
    /// What is said about it.
    pub fn text(&self) -> (text: String)
        ensures
            text@ == enrolment_text(*self),
    {
        match self {
            EnrolmentError::Identity(error) => error.text(),
            EnrolmentError::Register(error) => {
                let why = error.text();
                joined("registering a device: ", why.as_str())
            },
        }
    }
}

/// Why a fresh registration was not attempted.
#[derive(Debug, Clone, Copy, PartialEq, Eq, Structural)]
pub enum Refused {
    /// One happened recently enough that this refusal is probably about the same thing.
    TooSoon,
}

/// The device this core presents, and the file it is kept in.
#[derive(Debug)]
pub struct Enrolment {
    path: String,
    current: Identity,
    last: Option<u64>,
}

/// Whether a registration would come too soon after the last one.
pub open spec fn too_soon(last: Option<u64>, now: u64) -> bool {
    match last {
        Some(last) => now < last || now - last < MIN_INTERVAL,
        None => false,
    }
}

impl Enrolment {
    /// The device.
    pub closed spec fn device(&self) -> Identity {
        self.current
    }

    /// Where it is kept.
    pub closed spec fn kept_at(&self) -> Seq<char> {
        self.path@
    }

    /// When one was last registered by this core, where it was in this run.
    pub closed spec fn registered_at(&self) -> Option<u64> {
        self.last
    }

    /// The device that was loaded from a file; or, where there was none, the one that was registered
    /// and saved to it, with the moment at which it was registered.
    pub fn new(path: String, identity: Identity, registered: Option<u64>) -> (enrolment: Self)
        ensures
            enrolment.device() == identity,
            enrolment.kept_at() == path@,
            enrolment.registered_at() == registered,
    {
        Enrolment { path, current: identity, last: registered }
    }

    /// The device to present right now.
    pub fn current(&self) -> (identity: &Identity)
        ensures
            *identity == self.device(),
    {
        &self.current
    }

    /// Whether a new device may be registered because the endpoint refused the one held. Decided
    /// before anything is registered.
    pub fn refresh(&self, now: u64) -> (may: Result<(), Refused>)
        ensures
            match may {
                Ok(_) => !too_soon(self.registered_at(), now),
                Err(refused) => too_soon(self.registered_at(), now) && refused == Refused::TooSoon,
            },
    {
        match self.last {
            Some(last) => if now < last || now - last < MIN_INTERVAL {
                Err(Refused::TooSoon)
            } else {
                Ok(())
            },
            None => Ok(()),
        }
    }

    /// A new device was registered. The interval runs from here whether or not it can be written
    /// down: it exists on the far side either way.
    pub fn registered(&mut self, now: u64)
        ensures
            final(self).device() == old(self).device(),
            final(self).kept_at() == old(self).kept_at(),
            final(self).registered_at() == Some(now),
    {
        self.last = Some(now);
    }

    /// The new device was written down: present it from here on.
    ///
    /// It is saved before it is adopted: a registration that succeeded and then failed to be written
    /// would leave a device existing on the far side that nothing on this machine could ever present
    /// again.
    pub fn adopt(&mut self, identity: Identity)
        ensures
            final(self).device() == identity,
            final(self).kept_at() == old(self).kept_at(),
            final(self).registered_at() == old(self).registered_at(),
    {
        self.current = identity;
    }

    /// Where the device is kept, for a message that has to name it.
    pub fn path(&self) -> (path: &str)
        ensures
            path@ == self.kept_at(),
    {
        self.path.as_str()
    }
}

/// Whether a status is the endpoint saying the request was wrong.
pub open spec fn about_the_device(status: u16) -> bool {
    400 <= status < 500
}

/// Whether a refusal to open the tunnel is the endpoint declining this device.
///
/// A client error is the endpoint saying the request was wrong, and the only part of the request
/// that varies is who is making it: the shape is fixed and has worked. A server error is the endpoint
/// having a bad day, which registering a new device does not improve.
pub fn refusal_is_about_the_device(status: u16) -> (about: bool)
    ensures
        about == about_the_device(status),
{
    400 <= status && status < 500
}

/// Whether devices registered at these moments, one after another, are registered only where
/// [`Enrolment::refresh`] lets them be.
pub open spec fn allowed(last: Option<u64>, moments: Seq<u64>) -> bool
    decreases moments.len(),
{
    moments.len() == 0 || {
        &&& !too_soon(last, moments.first())
        &&& allowed(Some(moments.first()), moments.skip(1))
    }
}

/// What came last lies at least the interval before everything that may follow it.
proof fn lemma_apart(last: u64, moments: Seq<u64>, at: int)
    requires
        allowed(Some(last), moments),
        0 <= at < moments.len(),
    ensures
        last + MIN_INTERVAL <= moments[at],
    decreases moments.len(),
{
    if at > 0 {
        lemma_apart(moments.first(), moments.skip(1), at - 1);
        assert(moments.skip(1)[at - 1] == moments[at]);
    }
}

/// A burst of refusals does not create a burst of devices: of any two registrations the later comes
/// at least [`MIN_INTERVAL`] after the earlier, the one that was made for want of a file among them.
pub proof fn law_a_burst_of_refusals_registers_one_device(
    last: Option<u64>,
    moments: Seq<u64>,
    later: int,
)
    requires
        allowed(last, moments),
        0 <= later < moments.len(),
    ensures
        last matches Some(last) ==> last + MIN_INTERVAL <= moments[later],
        forall|earlier: int|
            0 <= earlier < later ==> #[trigger] moments[earlier] + MIN_INTERVAL <= moments[later],
    decreases moments.len(),
{
    if last is Some {
        lemma_apart(last->0, moments, later);
    }
    if later > 0 {
        let rest = moments.skip(1);
        law_a_burst_of_refusals_registers_one_device(Some(moments.first()), rest, later - 1);
        assert(rest[later - 1] == moments[later]);
        assert forall|earlier: int| 0 <= earlier < later implies #[trigger] moments[earlier]
            + MIN_INTERVAL <= moments[later] by {
            if earlier > 0 {
                assert(rest[earlier - 1] == moments[earlier]);
            }
        }
    }
}

/// A device is registered no sooner than an interval of ten minutes after the last, and the first at
/// once; only a status of 400 to 499 is about the device.
pub proof fn law_a_device_is_registered_at_most_every_interval(last: u64, now: u64, status: u16)
    ensures
        !too_soon(None, now),
        too_soon(Some(last), now) <==> now < last + 600_000,
        about_the_device(status) <==> status / 100 == 4,
{
}

} // verus!
