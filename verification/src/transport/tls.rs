//! The TLS session the tunnel runs inside: over TCP for HTTP/2, inside QUIC for HTTP/3.
//!
//! Two things are unusual, both from how a device proves who is calling:
//!
//! * **The client presents a certificate**, self-signed with the P-256 key registration enrolled.
//!   That enrolment is the whole authentication: the endpoint recognises the key, not a name or a
//!   chain.
//! * **The server is not checked against a certificate authority.** Registration told us the public
//!   key the endpoint should present, and comparing that key is a stronger statement than a chain to
//!   a public root, and the only check available for a certificate no authority signed.

use p256::pkcs8::{DecodePublicKey, EncodePrivateKey, EncodePublicKey};
use vstd::prelude::*;
use vstd::string::StringExecFns;
use x509_cert::der::{Decode, Encode};
use crate::encoding::{base64_of, from_b64, law_base64_tells_bytes_apart};
use crate::text::joined;
use crate::warp::identity::Identity;
use crate::warp::keys::{belong_together, is_pair, public_half, spki};

verus! {

/// Why the session that carries the tunnel could not be built from this identity. What was said
/// about it is kept as its words.
#[derive(Debug, PartialEq, Eq)]
pub enum TlsSetupError {
    /// The identity's private key is not a usable P-256 key.
    PrivateKey(String),
    /// The identity's endpoint public key is not readable.
    EndpointKey(String),
    /// Building the client certificate failed.
    Certificate(String),
    /// The TLS stack refused what it was given.
    Rustls(String),
}

/// What is said about an identity that cannot be used for TLS.
pub open spec fn tls_text(error: TlsSetupError) -> Seq<char> {
    match error {
        TlsSetupError::PrivateKey(why) => {
            "the identity's private key is not a usable P-256 key: "@ + why@
        },
        TlsSetupError::EndpointKey(why) => {
            "the identity's endpoint public key is not readable: "@ + why@
        },
        TlsSetupError::Certificate(why) => "building the client certificate: "@ + why@,
        TlsSetupError::Rustls(why) => "rustls: "@ + why@,
    }
}

impl TlsSetupError {
    /// What is said about it.
    pub fn text(&self) -> (text: String)
        ensures
            text@ == tls_text(*self),
    {
        match self {
            TlsSetupError::PrivateKey(why) => joined(
                "the identity's private key is not a usable P-256 key: ",
                why.as_str(),
            ),
            TlsSetupError::EndpointKey(why) => joined(
                "the identity's endpoint public key is not readable: ",
                why.as_str(),
            ),
            TlsSetupError::Certificate(why) => joined(
                "building the client certificate: ",
                why.as_str(),
            ),
            TlsSetupError::Rustls(why) => joined("rustls: ", why.as_str()),
        }
    }
}

/// A P-256 private key in SEC1 DER as PKCS#8 DER; none where it is no such key.
pub uninterp spec fn pkcs8_of(sec1: Seq<u8>) -> Option<Seq<u8>>;

/// `p256::SecretKey::from_sec1_der` and `to_pkcs8_der`: the same key re-encoded, which works exactly
/// on what holds a P-256 key. What is said about a refusal is left open.
#[verifier::external_body]
fn to_pkcs8(sec1: &[u8]) -> (pkcs8: Result<Vec<u8>, String>)
    ensures
        pkcs8 matches Ok(pkcs8) ==> pkcs8_of(sec1@) == Some(pkcs8@) && public_half(sec1@) is Some,
        pkcs8 is Err ==> pkcs8_of(sec1@) is None && public_half(sec1@) is None,
{
    let secret = p256::SecretKey::from_sec1_der(sec1).map_err(|problem| problem.to_string())?;
    let pkcs8 = secret.to_pkcs8_der().map_err(|problem| problem.to_string())?;
    Ok(pkcs8.as_bytes().to_vec())
}

/// The public key that a certificate in DER carries, in SPKI DER; none where it is no certificate.
pub uninterp spec fn presented_key(certificate: Seq<u8>) -> Option<Seq<u8>>;

/// `x509_cert::Certificate::from_der`, and the public key in it encoded again. The first error is
/// about the certificate and the second about its key; what is said about either is left open.
#[verifier::external_body]
fn read_key(certificate: &[u8]) -> (key: Result<Result<Vec<u8>, String>, String>)
    ensures
        key matches Ok(Ok(key)) ==> presented_key(certificate@) == Some(key@),
        !(key matches Ok(Ok(_))) ==> presented_key(certificate@) is None,
{
    let certificate = x509_cert::Certificate::from_der(certificate);
    let certificate = certificate.map_err(|problem| problem.to_string())?;
    let key = certificate.tbs_certificate.subject_public_key_info.to_der();
    Ok(key.map_err(|problem| problem.to_string()))
}

/// `rcgen::CertificateParams::self_signed` with the defaults, for a P-256 key in PKCS#8: a
/// certificate that carries the key's public half. The signature in it is chance, so the rest of the
/// certificate is left open, as is whether signing succeeds.
#[verifier::external_body]
fn self_signed(pkcs8: &[u8]) -> (certificate: Result<Vec<u8>, String>)
    ensures
        forall|sec1: Seq<u8>|
            certificate matches Ok(certificate) ==> #[trigger] pkcs8_of(sec1) == Some(pkcs8@) ==> (
            public_half(sec1) matches Some(point) && presented_key(certificate@) == Some(
                spki(point),
            )),
{
    let key_pair = rcgen::KeyPair::try_from(pkcs8).map_err(|problem| problem.to_string())?;
    let signed = rcgen::CertificateParams::default().self_signed(&key_pair);
    let certificate = signed.map_err(|problem| problem.to_string())?;
    Ok(certificate.der().to_vec())
}

/// A P-256 public key in PEM as SPKI DER; none where it is no such key.
pub uninterp spec fn spki_of_pem(pem: Seq<char>) -> Option<Seq<u8>>;

/// `p256::PublicKey::from_public_key_pem` and `to_public_key_der`: the same key in DER. What is said
/// about a refusal is left open.
#[verifier::external_body]
fn read_pem(pem: &str) -> (key: Result<Vec<u8>, String>)
    ensures
        key matches Ok(key) ==> spki_of_pem(pem@) == Some(key@),
        key is Err ==> spki_of_pem(pem@) is None,
{
    let key = p256::PublicKey::from_public_key_pem(pem).map_err(|problem| problem.to_string())?;
    let der = key.to_public_key_der().map_err(|problem| problem.to_string())?;
    Ok(der.as_bytes().to_vec())
}

/// What a client presents: its certificate in DER, and the key behind it in PKCS#8 DER.
#[derive(Debug)]
pub struct ClientAuth {
    pub certificate: Vec<u8>,
    pub key: Vec<u8>,
}

/// What a certificate that was made, or not, comes to.
pub fn presenting(certificate: Result<Vec<u8>, String>, key: Vec<u8>) -> (auth: Result<
    ClientAuth,
    TlsSetupError,
>)
    ensures
        auth == match certificate {
            Ok(certificate) => Ok::<ClientAuth, TlsSetupError>(ClientAuth { certificate, key }),
            Err(problem) => Err(TlsSetupError::Certificate(problem)),
        },
{
    match certificate {
        Ok(certificate) => Ok(ClientAuth { certificate, key }),
        Err(problem) => Err(TlsSetupError::Certificate(problem)),
    }
}

/// Whether a text is a P-256 private key in SEC1 DER, in base64.
pub open spec fn is_private_key(text: Seq<char>) -> bool {
    exists|sec1: Seq<u8>| #[trigger] base64_of(sec1) == text && public_half(sec1) is Some
}

/// Whether a certificate and a key are of the private key in a text.
pub open spec fn is_auth_of(text: Seq<char>, certificate: Seq<u8>, key: Seq<u8>) -> bool {
    forall|sec1: Seq<u8>| #[trigger]
        base64_of(sec1) == text ==> pkcs8_of(sec1) == Some(key) && (public_half(
            sec1,
        ) matches Some(point) && presented_key(certificate) == Some(spki(point)))
}

/// A short-lived self-signed certificate carrying the enrolled key.
///
/// Nothing reads its subject, its validity or its extensions: the endpoint looks at the public key.
/// It is generated per connection rather than stored, because there is nothing in it worth keeping:
/// the key it certifies is already in the identity.
pub fn client_certificate(identity: &Identity) -> (auth: Result<ClientAuth, TlsSetupError>)
    ensures
        match auth {
            Ok(auth) => is_private_key(identity.private_key_sec1@) && is_auth_of(
                identity.private_key_sec1@,
                auth.certificate@,
                auth.key@,
            ),
            Err(TlsSetupError::PrivateKey(_)) => !is_private_key(identity.private_key_sec1@),
            Err(TlsSetupError::Certificate(_)) => is_private_key(identity.private_key_sec1@),
            Err(_) => false,
        },
{
    let sec1 = match from_b64(identity.private_key_sec1.as_str()) {
        Ok(sec1) => sec1,
        Err(problem) => {
            return Err(TlsSetupError::PrivateKey(problem));
        },
    };
    proof {
        assert forall|other: Seq<u8>| #[trigger]
            base64_of(other) == identity.private_key_sec1@ implies other == sec1@ by {
            law_base64_tells_bytes_apart(other, sec1@);
        }
    }
    let key = match to_pkcs8(sec1.as_slice()) {
        Ok(key) => key,
        Err(problem) => {
            return Err(TlsSetupError::PrivateKey(problem));
        },
    };
    presenting(self_signed(key.as_slice()), key)
}

/// The endpoint's public key as SPKI DER, decoded from the PEM registration handed back.
pub fn expected_endpoint_spki(identity: &Identity) -> (key: Result<Vec<u8>, TlsSetupError>)
    ensures
        match key {
            Ok(key) => spki_of_pem(identity.endpoint_public_key_pem@) == Some(key@),
            Err(TlsSetupError::EndpointKey(_)) => spki_of_pem(
                identity.endpoint_public_key_pem@,
            ) is None,
            Err(_) => false,
        },
{
    match read_pem(identity.endpoint_public_key_pem.as_str()) {
        Ok(key) => Ok(key),
        Err(problem) => Err(TlsSetupError::EndpointKey(problem)),
    }
}

/// What one connection is built from. The identity and the pin are the same over both carriers.
#[derive(Debug)]
pub struct Session {
    pub auth: ClientAuth,
    pub verifier: PinnedKeyVerifier,
}

/// What a session for an identity is built from: the certificate to present, and the one key to
/// accept.
pub fn session(identity: &Identity) -> (session: Result<Session, TlsSetupError>)
    ensures
        match session {
            Ok(session) => {
                &&& is_private_key(identity.private_key_sec1@)
                &&& is_auth_of(
                    identity.private_key_sec1@,
                    session.auth.certificate@,
                    session.auth.key@,
                )
                &&& spki_of_pem(identity.endpoint_public_key_pem@) == Some(
                    session.verifier.expected@,
                )
            },
            Err(TlsSetupError::PrivateKey(_)) => !is_private_key(identity.private_key_sec1@),
            Err(TlsSetupError::Certificate(_)) => is_private_key(identity.private_key_sec1@),
            Err(TlsSetupError::EndpointKey(_)) => is_private_key(identity.private_key_sec1@)
                && spki_of_pem(identity.endpoint_public_key_pem@) is None,
            Err(_) => false,
        },
{
    let auth = match client_certificate(identity) {
        Ok(auth) => auth,
        Err(problem) => {
            return Err(problem);
        },
    };
    match expected_endpoint_spki(identity) {
        Ok(expected) => Ok(Session { auth, verifier: PinnedKeyVerifier { expected } }),
        Err(problem) => Err(problem),
    }
}

/// Accepts exactly one server: the one whose certificate carries the key registration enrolled.
#[derive(Debug)]
pub struct PinnedKeyVerifier {
    /// That key, in SPKI DER.
    pub expected: Vec<u8>,
}

/// What is said of a server whose certificate carries another key.
///
/// Deliberately not that the certificate is invalid: nothing is wrong with it, it simply belongs to
/// a different endpoint than the one this identity was enrolled with.
pub const DIFFERENT_KEY: &'static str =
    "the endpoint presented a different public key than registration enrolled";

impl PinnedKeyVerifier {
    /// What a key that was read out of a certificate, or not, comes to.
    pub fn judge(&self, presented: Result<Result<Vec<u8>, String>, String>) -> (accepted: Result<
        (),
        String,
    >)
        ensures
            match accepted {
                Ok(_) => presented matches Ok(Ok(key)) && key@ == self.expected@,
                Err(said) => match presented {
                    Ok(Ok(key)) => key@ != self.expected@ && said@ == DIFFERENT_KEY@,
                    Ok(Err(problem)) => said@ == "endpoint public key: "@ + problem@,
                    Err(problem) => said@ == "endpoint certificate: "@ + problem@,
                },
            },
    {
        match presented {
            Err(problem) => Err(joined("endpoint certificate: ", problem.as_str())),
            Ok(Err(problem)) => Err(joined("endpoint public key: ", problem.as_str())),
            Ok(Ok(key)) => if same_bytes(key.as_slice(), self.expected.as_slice()) {
                Ok(())
            } else {
                Err(String::from_str(DIFFERENT_KEY))
            },
        }
    }

    /// Whether a server that presents this certificate, in DER, is the one. Where it is not, what is
    /// said about it.
    pub fn verify(&self, certificate: &[u8]) -> (accepted: Result<(), String>)
        ensures
            accepted is Ok <==> presented_key(certificate@) == Some(self.expected@),
            presented_key(certificate@) matches Some(key) ==> key != self.expected@ ==> (
            accepted matches Err(said) && said@ == DIFFERENT_KEY@),
    {
        self.judge(read_key(certificate))
    }
}

/// Whether two runs of bytes are the same.
fn same_bytes(a: &[u8], b: &[u8]) -> (same: bool)
    ensures
        same == (a@ == b@),
{
    if a.len() != b.len() {
        return false;
    }
    let mut at: usize = 0;
    while at < a.len()
        invariant
            a@.len() == b@.len(),
            at <= a@.len(),
            forall|i: int| 0 <= i < at ==> a@[i] == b@[i],
        decreases a@.len() - at,
    {
        if a[at] != b[at] {
            return false;
        }
        at += 1;
    }
    assert(a@ =~= b@);
    true
}

/// The endpoint recognises the key: a certificate made from a pair that was generated carries the
/// very key that was enrolled.
pub proof fn law_a_certificate_carries_the_enrolled_key(
    private_sec1: Seq<char>,
    public_spki: Seq<char>,
    certificate: Seq<u8>,
    key: Seq<u8>,
)
    requires
        belong_together(private_sec1, public_spki),
        is_auth_of(private_sec1, certificate, key),
    ensures
        presented_key(certificate) matches Some(enrolled) && base64_of(enrolled) == public_spki,
{
    let (sec1, point) = choose|sec1: Seq<u8>, point: Seq<u8>| #[trigger]
        is_pair(private_sec1, public_spki, sec1, point);
    assert(base64_of(sec1) == private_sec1);
}

/// A key generated here is one a session accepts: it is never what a certificate fails for.
pub proof fn law_a_generated_key_is_usable(private_sec1: Seq<char>, public_spki: Seq<char>)
    requires
        belong_together(private_sec1, public_spki),
    ensures
        is_private_key(private_sec1),
{
    let (sec1, point) = choose|sec1: Seq<u8>, point: Seq<u8>| #[trigger]
        is_pair(private_sec1, public_spki, sec1, point);
    assert(base64_of(sec1) == private_sec1 && public_half(sec1) is Some);
}

} // verus!
