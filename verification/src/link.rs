//! What a change of an interface means.
//!
//! The tunnel rides on whatever interface the machine is using, and that interface can go away
//! without the tunnel being told: a lid closes, a Wi-Fi association drops, a cable moves the default
//! route. The connection is left hanging, neither closed nor carrying, and only the keepalive finds
//! it, up to five seconds later. A notification that the line moved costs one keepalive asked now
//! rather than at the end of its interval.
//!
//! **Not a reconnect.** An unrelated adapter appearing, a virtual switch or a phone, is no reason to
//! spend a handshake on a working tunnel. Asking early is free when the answer is yes.

use vstd::prelude::*;
use crate::address::shown::{hex_digits, hexadecimal};
use crate::text::{between, joined};

verus! {

/// What the operating system says happened to an interface: its parameters changed.
pub const PARAMETER_NOTIFICATION: i32 = 0;

/// An interface appeared.
pub const ADD_INSTANCE: i32 = 1;

/// An interface went away.
pub const DELETE_INSTANCE: i32 = 2;

/// Nothing happened: this describes the machine as it already is.
pub const INITIAL_NOTIFICATION: i32 = 3;

/// Whether a notification says something about the line rather than about this core.
///
/// The adapter this core owns is an interface like any other, and this core changes it constantly:
/// every route it installs is a change to it. Reacting to those would have the tunnel ask the
/// endpoint whether it is still there once per route, hundreds of times on bring-up.
pub fn worth_reacting(kind: i32, of: Option<u64>, ours: u64) -> (worth: bool)
    ensures
        worth == (kind != INITIAL_NOTIFICATION && of != Some(ours)),
{
    // The initial notification describes the machine as it already is, and carries no row.
    if kind == INITIAL_NOTIFICATION {
        return false;
    }
    match of {
        Some(luid) => luid != ours,
        // A change that names no interface cannot be attributed, and the cost of being wrong here
        // is one keepalive asked early.
        None => true,
    }
}

/// What happened, in words.
pub open spec fn happened(kind: i32) -> Seq<char> {
    if kind == ADD_INSTANCE {
        "appeared"@
    } else if kind == DELETE_INSTANCE {
        "went away"@
    } else {
        "changed"@
    }
}

/// A line change in words: the interface by the name the operating system shows for it, and what
/// happened to it.
///
/// An interface that has already gone has no name left to look up, and is named by its identifier.
pub fn describe(interface: u64, kind: i32, alias: Option<&str>) -> (line: String)
    ensures
        line@ == if interface == 0 {
            "an interface "@ + happened(kind)
        } else {
            match alias {
                Some(name) => "interface "@ + name@ + " "@ + happened(kind),
                None => "interface 0x"@ + hex_digits(interface as nat) + " "@ + happened(kind),
            }
        },
{
    let what = if kind == ADD_INSTANCE {
        "appeared"
    } else if kind == DELETE_INSTANCE {
        "went away"
    } else {
        "changed"
    };
    if interface == 0 {
        return joined("an interface ", what);
    }
    let named = match alias {
        Some(name) => joined("interface ", name),
        None => {
            let number = hexadecimal(interface as u128);
            joined("interface 0x", number.as_str())
        },
    };
    between(named.as_str(), " ", what)
}

} // verus!
