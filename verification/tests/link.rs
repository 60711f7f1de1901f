use masqr::link::{
    describe, worth_reacting, ADD_INSTANCE, DELETE_INSTANCE, INITIAL_NOTIFICATION,
    PARAMETER_NOTIFICATION,
};

const OURS: u64 = 0x1234_5678_9abc_def0;

/// The filter this module exists for. Without it every route this core installs comes back as
/// a change to react to, and a bring-up that installs five hundred of them would ask the
/// endpoint whether it is still there five hundred times.
#[test]
fn changes_to_our_own_adapter_are_not_changes_to_the_line() {
    assert!(!worth_reacting(PARAMETER_NOTIFICATION, Some(OURS), OURS));
    assert!(!worth_reacting(ADD_INSTANCE, Some(OURS), OURS));
    assert!(!worth_reacting(DELETE_INSTANCE, Some(OURS), OURS));
}

/// And every other interface is the line, whichever way it moved.
#[test]
fn a_change_to_any_other_interface_is_worth_asking_about() {
    assert!(worth_reacting(ADD_INSTANCE, Some(9), OURS));
    assert!(worth_reacting(DELETE_INSTANCE, Some(9), OURS));
    assert!(worth_reacting(PARAMETER_NOTIFICATION, Some(9), OURS));
}

/// The first notification describes what is already true, which is not news.
#[test]
fn the_notification_that_describes_the_present_is_not_a_change() {
    assert!(!worth_reacting(INITIAL_NOTIFICATION, None, OURS));
    assert!(!worth_reacting(INITIAL_NOTIFICATION, Some(9), OURS));
}

/// Unattributable, so treated as the line: the cost of being wrong is one early keepalive, and
/// the cost of the other mistake is the failure this module exists to find.
#[test]
fn a_change_naming_no_interface_is_treated_as_the_line() {
    assert!(worth_reacting(PARAMETER_NOTIFICATION, None, OURS));
}

/// The journal line says what happened in words, and an interface with no name left — one that
/// has already gone — is still identifiable by its LUID rather than dropped from the sentence.
#[test]
fn a_line_change_is_said_in_words() {
    assert_eq!(describe(0, ADD_INSTANCE, None), "an interface appeared");
    assert_eq!(describe(0, DELETE_INSTANCE, None), "an interface went away");
    assert_eq!(
        describe(0, PARAMETER_NOTIFICATION, None),
        "an interface changed"
    );
    assert_eq!(
        describe(OURS, DELETE_INSTANCE, None),
        "interface 0x123456789abcdef0 went away"
    );
}

#[test]
fn an_interface_with_a_name_is_said_by_it() {
    assert_eq!(
        describe(7, ADD_INSTANCE, Some("Ethernet 2")),
        "interface Ethernet 2 appeared"
    );
    assert_eq!(
        describe(0, ADD_INSTANCE, Some("Ethernet 2")),
        "an interface appeared"
    );
}
