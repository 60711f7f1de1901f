use masqr::log::{enabled, entry, level, set_level, Journal, Level};

/// The levels have to compare in the order they are declared, because that ordering is what
/// `enabled` means. Reordering the enum without noticing would silently change what is printed.
#[test]
fn a_level_enables_itself_and_everything_more_severe() {
    let mut journal = Journal::new();
    set_level(&mut journal, Level::Notice);
    assert!(enabled(&journal, Level::Error));
    assert!(enabled(&journal, Level::Warn));
    assert!(enabled(&journal, Level::Notice));
    assert!(!enabled(&journal, Level::Info));
    assert!(!enabled(&journal, Level::Debug));

    set_level(&mut journal, Level::Debug);
    assert!(enabled(&journal, Level::Debug));
    assert!(enabled(&journal, Level::Error));

    set_level(&mut journal, Level::Error);
    assert!(enabled(&journal, Level::Error));
    assert!(!enabled(&journal, Level::Warn));
}

#[test]
fn a_level_is_read_the_way_a_person_writes_it() {
    assert_eq!(Level::parse("debug"), Some(Level::Debug));
    assert_eq!(Level::parse(" WARN "), Some(Level::Warn));
    assert_eq!(Level::parse("warning"), Some(Level::Warn));
    assert_eq!(Level::parse("Notice"), Some(Level::Notice));
}

/// A level nobody recognises is refused. Guessing would mean a request to see more producing
/// exactly what it produced before, with nothing said about why.
#[test]
fn a_level_nobody_recognises_is_refused_rather_than_guessed() {
    assert_eq!(Level::parse("loud"), None);
    assert_eq!(Level::parse(""), None);
}

/// The words are what the application classifies by, so they are part of the interface rather
/// than an implementation detail of this module.
#[test]
fn the_words_are_the_ones_the_reader_looks_for() {
    assert_eq!(Level::Error.word(), "ERROR");
    assert_eq!(Level::Warn.word(), "WARN");
    assert_eq!(Level::Notice.word(), "NOTICE");
    assert_eq!(Level::Info.word(), "INFO");
    assert_eq!(Level::Debug.word(), "DEBUG");
}

/// The level word and the scope are filled up, so that what is said stands in one column.
#[test]
fn a_line_starts_with_its_level_and_where_it_comes_from() {
    assert_eq!(entry(Level::Info, "dns", "a line"), "INFO   dns      a line");
    assert_eq!(
        entry(Level::Notice, "somewhere else", ""),
        format!("{:<6} {:<8} ", "NOTICE", "somewhere else")
    );
}
