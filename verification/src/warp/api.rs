//! The consumer-WARP registration API.
//!
//! Registering turns a fresh install into something that can open a tunnel: it returns a device
//! identity, the addresses the tunnel will carry, and the endpoint public key the TLS handshake is
//! verified against.
//!
//! Two calls, and the order is forced. Registering accepts only a curve25519 key, so a device is
//! always born as a WireGuard one. Enrolling then swaps in a P-256 key and switches the tunnel type,
//! and only its response carries the endpoint public key. The first key is never used again.

use rand::RngCore;
use vstd::prelude::*;
use vstd::string::StringExecFns;
use crate::address::shown::{show, shown};
use crate::address::written::{parse_socket, socket_written};
use crate::encoding::{hex_of, hexadecimal};
use crate::text::{between, decimal, digits, joined};
use crate::warp::identity::Identity;
use crate::warp::keys::{key_text, KeyError, MasqueKeyPair};

verus! {

/// The API this speaks. Pinned: the path carries the version, and a different one is a different
/// contract, not a newer one.
pub const API_URL: &'static str = "https://api.cloudflareclient.com";

pub const API_VERSION: &'static str = "v0a4471";

/// The HTTP/2 endpoint the data path dials over TCP.
///
/// A constant, not a name: the connection goes to a literal address, so the tunnel needs no DNS of
/// its own to come up.
pub const ENDPOINT_H2_V4: &'static str = "162.159.198.2";

/// The HTTP/3 endpoint, over UDP: what registration returns as the peer's endpoint.
///
/// Used when the identity on disk predates this core keeping that address. It is one anycast
/// address for every consumer device rather than something allotted to this one.
pub const ENDPOINT_H3_V4: &'static str = "162.159.198.1";

/// The name the handshake presents.
pub const CONNECT_SNI: &'static str = "consumer-masque.cloudflareclient.com";

/// What the client says it is. The API answers differently to clients it does not recognise, so
/// these are part of the protocol rather than decoration.
pub const USER_AGENT: &'static str = "WARP for Android";

pub const CLIENT_VERSION: &'static str = "a-6.35-4471";

/// Why a call to the registration interface did not produce an answer.
#[derive(Debug, PartialEq, Eq)]
pub enum ApiError {
    /// The call failed, and what was said about it.
    Http(String),
    /// A call was answered with this status.
    Status { call: &'static str, status: u16 },
    /// The enrolled profile carries no peer to connect to.
    NoPeer,
    Key(KeyError),
}

/// What is said about a call that produced no answer.
pub open spec fn api_text(error: ApiError) -> Seq<char> {
    match error {
        ApiError::Http(why) => "http: "@ + why@,
        ApiError::Status { call, status } => call@ + " returned "@ + digits(status as nat),
        ApiError::NoPeer => "the enrolled profile carries no peer to connect to"@,
        ApiError::Key(error) => "key: "@ + key_text(error),
    }
}

impl ApiError {
    /// What is said about it.
    pub fn text(&self) -> (text: String)
        ensures
            text@ == api_text(*self),
    {
        match self {
            ApiError::Http(why) => joined("http: ", why.as_str()),
            ApiError::Status { call, status } => {
                let status = decimal(*status as u128);
                between(call, " returned ", status.as_str())
            },
            ApiError::NoPeer => String::from_str(
                "the enrolled profile carries no peer to connect to",
            ),
            ApiError::Key(error) => {
                let why = error.text();
                joined("key: ", why.as_str())
            },
        }
    }
}

/// What registering sends.
#[derive(Debug, PartialEq, Eq)]
pub struct RegisterRequest {
    pub key: String,
    pub install_id: &'static str,
    pub fcm_token: &'static str,
    pub tos: String,
    pub model: &'static str,
    pub serial_number: String,
    pub os_version: &'static str,
    pub key_type: &'static str,
    pub tunnel_type: &'static str,
    pub locale: &'static str,
}

/// What enrolling sends.
#[derive(Debug, PartialEq, Eq)]
pub struct EnrollRequest {
    pub key: String,
    pub key_type: &'static str,
    pub tunnel_type: &'static str,
    pub name: &'static str,
}

/// A peer of a profile.
#[derive(Debug)]
pub struct Peer {
    /// PEM once the enrolled key is P-256: what the endpoint's certificate is checked against.
    pub public_key: String,
    /// Where HTTP/3 goes, written with a placeholder port.
    pub endpoint_v4: String,
    pub endpoint_v6: String,
}

/// What either call answers, as much of it as decides anything here.
#[derive(Debug)]
pub struct Profile {
    pub id: String,
    pub token: String,
    pub license: String,
    pub peers: Vec<Peer>,
    /// The addresses the tunnel carries.
    pub v4: String,
    pub v6: String,
}

/// Where a device is registered.
pub fn register_url() -> (url: String)
    ensures
        url@ == API_URL@ + "/"@ + API_VERSION@ + "/reg"@,
{
    let base = between(API_URL, "/", API_VERSION);
    joined(base.as_str(), "/reg")
}

/// Where a device is enrolled.
pub fn enroll_url(id: &str) -> (url: String)
    ensures
        url@ == API_URL@ + "/"@ + API_VERSION@ + "/reg"@ + "/"@ + id@,
{
    let base = register_url();
    between(base.as_str(), "/", id)
}

/// Be born as a WireGuard device, because that is the only shape registering accepts.
pub fn registration(key: String, tos: String, serial_number: String) -> (request: RegisterRequest)
    ensures
        request.key == key,
        request.tos == tos,
        request.serial_number == serial_number,
        request.install_id@ == ""@,
        request.fcm_token@ == ""@,
        request.model@ == "PC"@,
        request.os_version@ == ""@,
        request.key_type@ == "curve25519"@,
        request.tunnel_type@ == "wireguard"@,
        request.locale@ == "en-US"@,
{
    RegisterRequest {
        key,
        install_id: "",
        fcm_token: "",
        tos,
        model: "PC",
        serial_number,
        os_version: "",
        key_type: "curve25519",
        tunnel_type: "wireguard",
        locale: "en-US",
    }
}

/// Swap in the key the tunnel will actually use.
pub fn enrolling(keys: &MasqueKeyPair) -> (request: EnrollRequest)
    ensures
        request.key@ == keys.public_spki_base64@,
        request.key_type@ == "secp256r1"@,
        request.tunnel_type@ == "masque"@,
        request.name@ == "PC"@,
{
    EnrollRequest {
        key: keys.public_spki_base64.clone(),
        key_type: "secp256r1",
        tunnel_type: "masque",
        name: "PC",
    }
}

/// What a status says of a call: an answer, or an error that names which call failed.
pub fn answered(call: &'static str, status: u16) -> (answer: Result<(), ApiError>)
    ensures
        match answer {
            Ok(_) => 200 <= status < 300,
            Err(error) => !(200 <= status < 300) && error == (ApiError::Status { call, status }),
        },
{
    if 200 <= status && status < 300 {
        Ok(())
    } else {
        Err(ApiError::Status { call, status })
    }
}

/// The address out of an endpoint written as `address:port`, with the port dropped; none where it
/// does not parse.
pub open spec fn address_of_endpoint(written: Seq<char>) -> Seq<char> {
    match socket_written(written) {
        Some(socket) => shown(socket.ip),
        None => Seq::empty(),
    }
}

/// The address out of an endpoint the API writes as `address:port`, with the port dropped.
///
/// Parsed rather than trimmed: the v6 form is bracketed, and a trim written for a placeholder port
/// would take the wrong bytes the day the API writes a real one. Anything that does not parse is left
/// empty, and the identity then falls back to the known address.
pub fn endpoint_address(written: &str) -> (address: String)
    ensures
        address@ == address_of_endpoint(written@),
{
    match parse_socket(written) {
        Some(socket) => show(socket.ip),
        None => {
            let none = String::new();
            assert(none@ =~= Seq::empty());
            none
        },
    }
}

/// The identity that a registration and an enrolment make.
///
/// It is a real credential for a real device on the far side. It is cached and reused; registering
/// on every start would create a new device each time.
pub fn identity_of(registered: Profile, enrolled: Profile, keys: MasqueKeyPair) -> (identity: Result<
    Identity,
    ApiError,
>)
    ensures
        match identity {
            Ok(identity) => {
                &&& enrolled.peers@.len() > 0
                &&& identity.device_id == enrolled.id
                &&& identity.access_token == registered.token
                &&& identity.license == enrolled.license
                &&& identity.private_key_sec1 == keys.private_sec1_base64
                &&& identity.endpoint_public_key_pem@ == enrolled.peers@[0].public_key@
                &&& identity.assigned_v4 == enrolled.v4
                &&& identity.assigned_v6 == enrolled.v6
                &&& identity.endpoint_h2_v4@ == ENDPOINT_H2_V4@
                &&& identity.endpoint_v4@ == address_of_endpoint(enrolled.peers@[0].endpoint_v4@)
                &&& identity.endpoint_v6@ == address_of_endpoint(enrolled.peers@[0].endpoint_v6@)
            },
            Err(error) => enrolled.peers@.len() == 0 && error == ApiError::NoPeer,
        },
{
    if enrolled.peers.len() == 0 {
        return Err(ApiError::NoPeer);
    }
    let endpoint_public_key_pem = enrolled.peers[0].public_key.clone();
    let endpoint_v4 = endpoint_address(enrolled.peers[0].endpoint_v4.as_str());
    let endpoint_v6 = endpoint_address(enrolled.peers[0].endpoint_v6.as_str());
    Ok(
        Identity {
            device_id: enrolled.id,
            access_token: registered.token,
            license: enrolled.license,
            private_key_sec1: keys.private_sec1_base64,
            endpoint_public_key_pem,
            assigned_v4: enrolled.v4,
            assigned_v6: enrolled.v6,
            endpoint_h2_v4: String::from_str(ENDPOINT_H2_V4),
            endpoint_v4,
            endpoint_v6,
        },
    )
}

/// How the API's terms-of-service field is written: milliseconds and a numeric offset, as in
/// `2026-08-31T00:12:34.567+02:00`.
pub const STAMP_FORMAT: &'static str = "%Y-%m-%dT%H:%M:%S%.3f%:z";

/// The first millisecond that chrono has a date for: the year -262143 begins with it.
pub const FIRST_STAMP: i64 = -8_334_601_228_800_000;

/// The last millisecond that chrono has a date for: the year 262142 ends with it.
pub const LAST_STAMP: i64 = 8_210_266_876_799_999;

/// A moment, in milliseconds since 1970, as it is written so many seconds east of Greenwich.
pub uninterp spec fn stamp(millis: i64, offset: i32, format: Seq<char>) -> Seq<char>;

/// `chrono::DateTime::format` of a moment at an offset, both in the range chrono takes: there it
/// always has a text, and the text is one of the moment, the offset and the format alone. An offset
/// may carry the first and the last day a day further; chrono has dates for those too.
#[verifier::external_body]
fn format_stamp(millis: i64, offset: i32, format: &str) -> (text: Option<String>)
    requires
        FIRST_STAMP <= millis <= LAST_STAMP,
        -86_400 < offset < 86_400,
        format@ == STAMP_FORMAT@,
    ensures
        text matches Some(text) && text@ == stamp(millis, offset, format@),
{
    let zone = chrono::FixedOffset::east_opt(offset)?;
    let moment = chrono::DateTime::from_timestamp_millis(millis)?;
    Some(moment.with_timezone(&zone).format(format).to_string())
}

/// A moment as the API's terms-of-service field is written.
pub fn cloudflare_string(millis: i64, offset: i32) -> (text: String)
    requires
        FIRST_STAMP <= millis <= LAST_STAMP,
        -86_400 < offset < 86_400,
    ensures
        text@ == stamp(millis, offset, STAMP_FORMAT@),
{
    match format_stamp(millis, offset, STAMP_FORMAT) {
        Some(text) => text,
        None => String::new(),
    }
}

/// `rand::RngCore::fill_bytes` of the thread's generator: eight bytes. Which, is chance, so nothing
/// is claimed of them.
#[verifier::external_body]
fn random_bytes() -> (bytes: [u8; 8]) {
    let mut bytes = [0u8; 8];
    rand::thread_rng().fill_bytes(&mut bytes);
    bytes
}

/// Eight random bytes as hex: the shape the API expects of a serial.
pub fn random_serial() -> (serial: String)
    ensures
        exists|bytes: Seq<u8>| bytes.len() == 8 && #[trigger] hex_of(bytes) == serial@,
{
    let bytes = random_bytes();
    let serial = hexadecimal(bytes.as_slice());
    assert(bytes@.len() == 8 && hex_of(bytes@) == serial@);
    serial
}

/// The address of an endpoint is the one in front of its port, of either family and whatever the port,
/// and nothing where the endpoint cannot be read.
pub proof fn law_an_endpoint_is_known_by_its_address(
    socket: crate::address::SocketAddr,
    written: Seq<char>,
)
    ensures
        address_of_endpoint(crate::address::shown::socket_shown(socket)) == shown(socket.ip),
        socket_written(written) is None ==> address_of_endpoint(written) == Seq::<char>::empty(),
{
    crate::address::laws::law_a_shown_socket_is_read_back(socket);
}

} // verus!
