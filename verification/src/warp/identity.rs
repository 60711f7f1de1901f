//! The registered device, as it is kept between runs.
//!
//! Registering creates a real device on the far side, so it happens once and the result is reused.

use vstd::prelude::*;
use vstd::string::StrSliceExecFns;
use crate::text::joined;
use crate::warp::api::ENDPOINT_H3_V4;

verus! {

/// Why the device on disk could not be read or written. What was said about it is kept as its words.
#[derive(Debug, PartialEq, Eq)]
pub enum IdentityError {
    Io(String),
    Parse(String),
}

/// What is said about a device that could not be read or written.
pub open spec fn identity_text(error: IdentityError) -> Seq<char> {
    match error {
        IdentityError::Io(why) => "io: "@ + why@,
        IdentityError::Parse(why) => "parse: "@ + why@,
    }
}

impl IdentityError {
    /// What is said about it.
    pub fn text(&self) -> (text: String)
        ensures
            text@ == identity_text(*self),
    {
        match self {
            IdentityError::Io(why) => joined("io: ", why.as_str()),
            IdentityError::Parse(why) => joined("parse: ", why.as_str()),
        }
    }
}

/// A registered device: who this machine is to the endpoint, and where the tunnel goes.
///
/// The one thing this core persists. It is read at start and reused; registration happens once.
#[derive(Debug)]
pub struct Identity {
    /// The device's id on the far side; the path component of every later call.
    pub device_id: String,
    /// Bearer token for those calls. A credential.
    pub access_token: String,
    /// Empty for a free account; carried so an account that has a plan keeps it across a re-read.
    pub license: String,
    /// The private key, SEC1 DER in base64. Signs the client certificate.
    pub private_key_sec1: String,
    /// The endpoint's public key, PEM. The TLS handshake is verified against this rather than
    /// against a certificate authority: the endpoint presents its own key, not a chain.
    pub endpoint_public_key_pem: String,
    /// The addresses the tunnel carries: the inside of the tunnel, not the machine's.
    pub assigned_v4: String,
    pub assigned_v6: String,
    /// Where the HTTP/2 data path dials. A literal address, so bringing the tunnel up needs no DNS.
    pub endpoint_h2_v4: String,
    /// Where HTTP/3 goes, as registration returned it. Empty in an identity written before it was
    /// kept.
    pub endpoint_v4: String,
    pub endpoint_v6: String,
}

impl Identity {
    /// The HTTP/3 endpoint to dial: the one registration returned, or the known anycast address when
    /// this identity was written before that was kept.
    pub fn endpoint_h3_v4(&self) -> (endpoint: &str)
        ensures
            endpoint@ == if self.endpoint_v4@.len() == 0 {
                ENDPOINT_H3_V4@
            } else {
                self.endpoint_v4@
            },
    {
        if is_empty(self.endpoint_v4.as_str()) {
            ENDPOINT_H3_V4
        } else {
            self.endpoint_v4.as_str()
        }
    }

    /// The same identity again.
    pub fn copied(&self) -> (copy: Self)
        ensures
            same_identity(copy, *self),
    {
        Identity {
            device_id: self.device_id.clone(),
            access_token: self.access_token.clone(),
            license: self.license.clone(),
            private_key_sec1: self.private_key_sec1.clone(),
            endpoint_public_key_pem: self.endpoint_public_key_pem.clone(),
            assigned_v4: self.assigned_v4.clone(),
            assigned_v6: self.assigned_v6.clone(),
            endpoint_h2_v4: self.endpoint_h2_v4.clone(),
            endpoint_v4: self.endpoint_v4.clone(),
            endpoint_v6: self.endpoint_v6.clone(),
        }
    }
}

/// Whether two identities say the same.
pub open spec fn same_identity(a: Identity, b: Identity) -> bool {
    &&& a.device_id@ == b.device_id@
    &&& a.access_token@ == b.access_token@
    &&& a.license@ == b.license@
    &&& a.private_key_sec1@ == b.private_key_sec1@
    &&& a.endpoint_public_key_pem@ == b.endpoint_public_key_pem@
    &&& a.assigned_v4@ == b.assigned_v4@
    &&& a.assigned_v6@ == b.assigned_v6@
    &&& a.endpoint_h2_v4@ == b.endpoint_h2_v4@
    &&& a.endpoint_v4@ == b.endpoint_v4@
    &&& a.endpoint_v6@ == b.endpoint_v6@
}

/// Whether a text is empty.
fn is_empty(text: &str) -> (empty: bool)
    ensures
        empty == (text@.len() == 0),
{
    text.unicode_len() == 0
}

} // verus!
