//! HTTP statuses, as they are shown.

use vstd::prelude::*;
use crate::text::{between, decimal, digits};

verus! {

/// The phrase that goes with a status, where there is one.
pub uninterp spec fn phrase(status: u16) -> Option<Seq<char>>;

/// A phrase as plain values.
pub open spec fn phrase_view(phrase: Option<&'static str>) -> Option<Seq<char>> {
    match phrase {
        Some(phrase) => Some(phrase@),
        None => None,
    }
}

/// `http::StatusCode::canonical_reason`, out of a table with a phrase for each registered status.
/// The table is not written out here; that a status always has the same phrase is what is claimed.
#[verifier::external_body]
fn canonical_reason(status: u16) -> (reason: Option<&'static str>)
    ensures
        phrase_view(reason) == phrase(status),
{
    http::StatusCode::from_u16(status).ok()?.canonical_reason()
}

/// A status as it is shown, given the phrase that goes with it.
pub open spec fn with_phrase(status: u16, phrase: Option<Seq<char>>) -> Seq<char> {
    digits(status as nat) + " "@ + match phrase {
        Some(phrase) => phrase,
        None => "<unknown status code>"@,
    }
}

/// A status as it is shown: the number, and the phrase that goes with it.
pub open spec fn status_shown(status: u16) -> Seq<char> {
    with_phrase(status, phrase(status))
}

/// Show a status with the phrase that goes with it.
pub fn show_with(status: u16, phrase: Option<&'static str>) -> (text: String)
    ensures
        text@ == with_phrase(status, phrase_view(phrase)),
{
    let number = decimal(status as u128);
    match phrase {
        Some(phrase) => between(number.as_str(), " ", phrase),
        None => between(number.as_str(), " ", "<unknown status code>"),
    }
}

/// Show a status.
pub fn show_status(status: u16) -> (text: String)
    ensures
        text@ == status_shown(status),
{
    show_with(status, canonical_reason(status))
}

} // verus!
