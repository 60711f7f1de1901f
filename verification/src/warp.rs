//! Everything that is specific to consumer WARP: registering a device and knowing where its tunnel
//! is.

pub mod api;
pub mod enrolment;
pub mod identity;
pub mod keys;
