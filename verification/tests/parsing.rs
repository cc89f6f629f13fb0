use bppt::parsing_errors::{ErrorKind, ParseError};
use bppt::structure::{Atom, Notes};

#[test]
fn length_zero_fails_with_a_length_error() {
    let error = Atom::parse("$0", "aAbcCdDefFgG").unwrap_err();
    assert_eq!(
        error,
        ParseError::new(ErrorKind::lacking("length", "a number from 1 to 255"), (1, 1))
    );
    match error.kind() {
        ErrorKind::SomethingMissing { what, .. } => assert_eq!(what, "length"),
        other => panic!("unexpected kind {:?}", other),
    }
    assert!(Notes::parse("$0", "aAbcCdDefFgG").is_err());
}

#[test]
fn default_score_parses() {
    let notes = Notes::parse("cccd'ed`cedd''c", "aAbcCdDefFgG").unwrap();
    assert_eq!(notes.set(), 12);
    assert_eq!(
        notes.score(),
        &vec![
            Atom::N(3, 1),
            Atom::N(3, 1),
            Atom::N(3, 1),
            Atom::N(5, 1),
            Atom::LDecr,
            Atom::N(7, 1),
            Atom::N(5, 1),
            Atom::LIncr,
            Atom::N(3, 1),
            Atom::N(7, 1),
            Atom::N(5, 1),
            Atom::N(5, 1),
            Atom::LDecr,
            Atom::LDecr,
            Atom::N(3, 1),
        ]
    );
}

#[test]
fn every_sign_of_the_language_parses() {
    assert_eq!(
        Atom::parse("@3 $8 !90 a . > < ` ' ^ _ (a) [a]", "a").unwrap(),
        vec![
            Atom::O(3),
            Atom::L(8),
            Atom::V(90),
            Atom::N(0, 1),
            Atom::Rest(1),
            Atom::OIncr,
            Atom::ODecr,
            Atom::LIncr,
            Atom::LDecr,
            Atom::VIncr,
            Atom::VDecr,
            Atom::Loop(2, vec![Atom::N(0, 1)]),
            Atom::Tuplet(vec![Atom::N(0, 1)]),
        ]
    );
}

#[test]
fn unknown_character_is_located_by_line_and_column() {
    assert_eq!(
        Atom::parse("ab\nc x", "abc").unwrap_err(),
        ParseError::new(ErrorKind::Incomprehensible('x'), (2, 3))
    );
    assert_eq!(
        Atom::parse("ab\r\n\r\n  ?", "abc").unwrap_err(),
        ParseError::new(ErrorKind::Incomprehensible('?'), (3, 3))
    );
}

#[test]
fn tabs_take_four_columns() {
    assert_eq!(
        Atom::parse("\ta\t\tx", "abc").unwrap_err(),
        ParseError::new(ErrorKind::Incomprehensible('x'), (1, 14))
    );
    assert_eq!(
        Atom::parse("a\n\t x", "abc").unwrap_err(),
        ParseError::new(ErrorKind::Incomprehensible('x'), (2, 6))
    );
}

#[test]
fn characters_of_several_bytes_take_one_column() {
    assert_eq!(
        Atom::parse("βΔ€𝄞x", "βΔ€𝄞").unwrap_err(),
        ParseError::new(ErrorKind::Incomprehensible('x'), (1, 5))
    );
    assert_eq!(
        Atom::parse("β\nΔ€ 𝄞 +", "βΔ€𝄞").unwrap_err(),
        ParseError::new(ErrorKind::Incomprehensible('+'), (2, 6))
    );
    assert_eq!(
        Atom::parse("βΔ€𝄞", "βΔ€𝄞").unwrap(),
        vec![Atom::N(0, 1), Atom::N(1, 1), Atom::N(2, 1), Atom::N(3, 1)]
    );
}

#[test]
fn a_byte_order_mark_at_the_start_takes_no_column() {
    assert_eq!(
        Atom::parse("\u{FEFF}ab", "ab").unwrap_err(),
        ParseError::new(ErrorKind::Incomprehensible('\u{FEFF}'), (1, 1))
    );
    assert_eq!(
        Atom::parse("\u{FEFF}ab?", "\u{FEFF}ab").unwrap_err(),
        ParseError::new(ErrorKind::Incomprehensible('?'), (1, 3))
    );
    assert_eq!(
        Atom::parse("a\u{FEFF}b?", "\u{FEFF}ab").unwrap_err(),
        ParseError::new(ErrorKind::Incomprehensible('?'), (1, 4))
    );
    assert_eq!(
        Atom::parse("\u{FEFF}\n\u{FEFF}b?", "\u{FEFF}ab").unwrap_err(),
        ParseError::new(ErrorKind::Incomprehensible('?'), (2, 3))
    );
}

#[test]
fn an_error_at_the_end_of_the_text_is_located_there() {
    assert_eq!(
        Atom::parse("ab\n (a", "ab").unwrap_err(),
        ParseError::new(ErrorKind::MismatchedOpening('('), (2, 2))
    );
    assert_eq!(
        Atom::parse("a\n[\n]", "ab").unwrap_err(),
        ParseError::new(ErrorKind::lacking("tuplet", "at least one atom"), (2, 1))
    );
}

#[test]
fn a_set_of_more_than_255_notes_is_refused() {
    let set: String = (0..256u32).map(|i| char::from_u32(0x4E00 + i).unwrap()).collect();
    assert_eq!(
        Atom::parse("", &set).unwrap_err(),
        ParseError::new(ErrorKind::lacking("note set", "no more than 255 notes"), (0, 0))
    );
    let set: String = (0..255u32).map(|i| char::from_u32(0x4E00 + i).unwrap()).collect();
    let last = char::from_u32(0x4E00 + 254).unwrap().to_string();
    assert_eq!(Atom::parse(&last, &set).unwrap(), vec![Atom::N(254, 1)]);
    assert_eq!(Notes::parse(&last, &set).unwrap().set(), 255);
}

#[test]
fn errors_read_as_sentences() {
    assert_eq!(
        ParseError::new(ErrorKind::Incomprehensible('x'), (2, 13)).describe(),
        "Unknown character \"x\" at (2, 13)"
    );
    assert_eq!(
        ErrorKind::lacking("length", "a number from 1 to 255").describe(),
        "lengths need a number from 1 to 255"
    );
    assert_eq!(
        ErrorKind::MismatchedOpening('(').describe(),
        "\"(\" closure is never closed"
    );
    assert_eq!(
        ErrorKind::MismatchedClosing(']').describe(),
        "This closing \"]\" needs an opening friend"
    );
    assert_eq!(ParseError::default().describe(), "Dummy error at (0, 0)");
    assert_eq!(ParseError::default().kind(), &ErrorKind::default());
    assert_eq!(ParseError::default().at(), (0, 0));
    let error = ParseError::new(ErrorKind::lacking("loop", "a count"), (1045, 7));
    assert_eq!(error.clone(), error);
    assert_eq!(error.describe(), "loops need a count at (1045, 7)");
}

#[test]
fn notes_keep_only_valid_scores() {
    assert!(Notes::new(3, vec![Atom::N(2, 1)]).is_some());
    assert!(Notes::new(3, vec![Atom::N(3, 1)]).is_none());
    assert!(Notes::new(3, vec![Atom::N(0, 0)]).is_none());
    assert!(Notes::new(3, vec![Atom::Rest(0)]).is_none());
    assert!(Notes::new(3, vec![Atom::O(0)]).is_none());
    assert!(Notes::new(3, vec![Atom::L(0)]).is_none());
    assert!(Notes::new(3, vec![Atom::V(0)]).is_some());
    assert!(Notes::new(3, vec![Atom::Loop(0, vec![Atom::N(0, 1)])]).is_none());
    assert!(Notes::new(3, vec![Atom::Loop(1, vec![Atom::N(9, 1)])]).is_none());
    assert!(Notes::new(3, vec![Atom::Loop(1, vec![])]).is_some());
    assert!(Notes::new(3, vec![Atom::Tuplet(vec![])]).is_none());
    assert!(Notes::new(3, vec![Atom::Tuplet(vec![Atom::Loop(4, vec![])])]).is_none());
    assert!(Notes::new(3, vec![Atom::Tuplet(vec![Atom::More])]).is_some());
    assert!(Notes::new(0, vec![]).is_some());
    let notes = Notes::new(3, vec![Atom::Loop(2, vec![Atom::N(1, 1)])]).unwrap();
    assert_eq!(notes.clone(), notes);
    assert_eq!(notes.set(), 3);
    assert_eq!(notes.score(), &vec![Atom::Loop(2, vec![Atom::N(1, 1)])]);
}
