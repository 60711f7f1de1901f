//! The two key pairs registration needs, and the encodings the API expects them in.
//!
//! They are different curves for different reasons. The curve25519 pair exists only because
//! registering accepts nothing else; its public half is sent once and neither half is ever used
//! again. The P-256 pair is the one that matters: its public half is enrolled, and its private half
//! signs the client certificate the tunnel's TLS handshake presents.

use p256::elliptic_curve::sec1::ToEncodedPoint;
use p256::pkcs8::EncodePublicKey;
use vstd::prelude::*;
use crate::encoding::{b64, base64_of};
use crate::text::joined;

verus! {

/// Why a key pair could not be generated or read back.
#[derive(Debug, PartialEq, Eq)]
pub enum KeyError {
    /// A P-256 key could not be encoded.
    Encode(String),
}

/// What is said about a key that could not be had.
pub open spec fn key_text(error: KeyError) -> Seq<char> {
    match error {
        KeyError::Encode(why) => "encoding the P-256 key: "@ + why@,
    }
}

impl KeyError {
    /// What is said about it.
    pub fn text(&self) -> (text: String)
        ensures
            text@ == key_text(*self),
    {
        match self {
            KeyError::Encode(why) => joined("encoding the P-256 key: ", why.as_str()),
        }
    }
}

/// The key pair the tunnel uses, in the encodings the rest of the flow needs.
#[derive(Debug)]
pub struct MasqueKeyPair {
    /// SEC1 DER, base64: how the identity file carries the private half.
    pub private_sec1_base64: String,
    /// SPKI DER, base64: what is enrolled.
    pub public_spki_base64: String,
}

/// The uncompressed SEC1 point of the public half of a P-256 private key in SEC1 DER; none where it
/// is no such key.
pub uninterp spec fn public_half(sec1: Seq<u8>) -> Option<Seq<u8>>;

/// What stands before the point in the SPKI DER of a P-256 public key: the two identifiers, and the
/// length of what follows.
pub open spec fn spki_header() -> Seq<u8> {
    seq![
        0x30, 0x59, 0x30, 0x13, 0x06, 0x07, 0x2a, 0x86, 0x48, 0xce, 0x3d, 0x02, 0x01, 0x06, 0x08,
        0x2a, 0x86, 0x48, 0xce, 0x3d, 0x03, 0x01, 0x07, 0x03, 0x42, 0x00,
    ]
}

/// A P-256 public key in SPKI DER.
pub open spec fn spki(point: Seq<u8>) -> Seq<u8> {
    spki_header() + point
}

/// `p256::SecretKey::random`, with the key's SEC1 DER and its public half's SPKI DER read out of it:
/// the second is the public half of the first, and both are short. Which key it is, is chance.
#[verifier::external_body]
fn random_p256() -> (pair: Result<(Vec<u8>, Vec<u8>), String>)
    ensures
        pair matches Ok((private, public)) ==> private@.len() <= 1000 && public@.len() <= 1000 && (
        public_half(private@) matches Some(point) && public@ == spki(point)),
{
    let secret = p256::SecretKey::random(&mut rand::thread_rng());
    let private = secret.to_sec1_der().map_err(|problem| problem.to_string())?;
    let public = secret.public_key().to_public_key_der().map_err(|problem| problem.to_string())?;
    Ok((private.to_vec(), public.as_bytes().to_vec()))
}

/// Whether the halves of a pair, as they are written, belong together.
pub open spec fn belong_together(private_sec1: Seq<char>, public_spki: Seq<char>) -> bool {
    exists|sec1: Seq<u8>, point: Seq<u8>| #[trigger]
        is_pair(private_sec1, public_spki, sec1, point)
}

/// Whether a pair as it is written is of this private key and this point.
pub open spec fn is_pair(
    private_sec1: Seq<char>,
    public_spki: Seq<char>,
    sec1: Seq<u8>,
    point: Seq<u8>,
) -> bool {
    base64_of(sec1) == private_sec1 && public_half(sec1) == Some(point) && base64_of(spki(point))
        == public_spki
}

impl MasqueKeyPair {
    /// The pair that a key's SEC1 DER and its public half's SPKI DER are written as, or why they
    /// could not be had.
    pub fn written(key: Result<(Vec<u8>, Vec<u8>), String>) -> (pair: Result<Self, KeyError>)
        requires
            key matches Ok((private, public)) ==> private@.len() <= usize::MAX / 4 && public@.len()
                <= usize::MAX / 4,
        ensures
            match (key, pair) {
                (Ok((private, public)), Ok(pair)) => pair.private_sec1_base64@ == base64_of(
                    private@,
                ) && pair.public_spki_base64@ == base64_of(public@),
                (Err(problem), Err(error)) => error == KeyError::Encode(problem),
                _ => false,
            },
    {
        match key {
            Ok((private, public)) => Ok(
                MasqueKeyPair {
                    private_sec1_base64: b64(private.as_slice()),
                    public_spki_base64: b64(public.as_slice()),
                },
            ),
            Err(problem) => Err(KeyError::Encode(problem)),
        }
    }

    /// A fresh key pair for a device that is about to be registered. Which it is, is chance; that
    /// the halves belong together is not. Whether the key can be encoded is left to the encoder.
    pub fn generate() -> (pair: Result<Self, KeyError>)
        ensures
            match pair {
                Ok(pair) => belong_together(
                    pair.private_sec1_base64@,
                    pair.public_spki_base64@,
                ),
                Err(_) => true,
            },
    {
        let key = random_p256();
        let ghost made = key;
        let pair = Self::written(key);
        assert(pair matches Ok(pair) ==> is_pair(
            pair.private_sec1_base64@,
            pair.public_spki_base64@,
            made->Ok_0.0@,
            public_half(made->Ok_0.0@)->0,
        ));
        pair
    }
}

/// `x25519_dalek::StaticSecret::random_from_rng`, with its public half read out of it. Which key it
/// is, is chance, so nothing is claimed of the thirty-two bytes.
#[verifier::external_body]
fn random_x25519_public() -> (public: [u8; 32]) {
    let secret = x25519_dalek::StaticSecret::random_from_rng(rand::thread_rng());
    x25519_dalek::PublicKey::from(&secret).to_bytes()
}

/// A fresh curve25519 public key, base64: everything registering wants from that side.
///
/// The private half is deliberately dropped on the floor: keeping a key nobody will use would only
/// invite the question of what it is for.
pub fn generate_wireguard_public() -> (key: String)
    ensures
        exists|public: Seq<u8>| public.len() == 32 && #[trigger] base64_of(public) == key@,
{
    let public = random_x25519_public();
    let key = b64(public.as_slice());
    assert(public@.len() == 32 && base64_of(public@) == key@);
    key
}

/// `p256::SecretKey::from_sec1_der` and the key's public point, uncompressed: the same bytes for the
/// same key.
#[verifier::external_body]
fn encoded_point(sec1: &[u8]) -> (point: Result<Vec<u8>, String>)
    ensures
        point matches Ok(point) ==> public_half(sec1@) == Some(point@),
        point is Err ==> public_half(sec1@) is None,
{
    match p256::SecretKey::from_sec1_der(sec1) {
        Ok(secret) => Ok(secret.public_key().to_encoded_point(false).as_bytes().to_vec()),
        Err(problem) => Err(problem.to_string()),
    }
}

/// The uncompressed SEC1 point of a P-256 public key, for logging and for comparing two keys without
/// decoding both. The private half is given in SEC1 DER.
pub fn public_point(sec1: &[u8]) -> (point: Result<Vec<u8>, KeyError>)
    ensures
        match point {
            Ok(point) => public_half(sec1@) == Some(point@),
            Err(_) => public_half(sec1@) is None,
        },
{
    match encoded_point(sec1) {
        Ok(point) => Ok(point),
        Err(problem) => Err(KeyError::Encode(problem)),
    }
}

} // verus!
