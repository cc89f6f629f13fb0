use bppt::grammar::{
    LENGTH, LENGTHDECR, LENGTHINCR, LOOP_IN, LOOP_OUT, OCTAVE, OCTAVEDECR, OCTAVEINCR, REST,
    TUP_IN, TUP_OUT, VOLUME, VOLUMEDECR, VOLUMEINCR,
};
use bppt::parsing::{
    atom, close, junk, lengthdecr, lengthincr, octavedecr, octaveincr, parse_atoms, volumedecr,
    volumeincr, Failure, NoteAlphabet,
};
use bppt::parsing_errors::ErrorKind;
use bppt::structure::Atom;

fn chars(text: &str) -> Vec<char> {
    text.chars().collect()
}

fn alphabet(set: &str) -> NoteAlphabet {
    NoteAlphabet::new(set).unwrap()
}

fn assert_parses(this: &str, into: Atom, notes: String) {
    assert_eq!(into, Atom::parse(this, &notes).unwrap().remove(0));
}

#[test]
fn octave() {
    assert_parses("@2", Atom::O(2), String::default());
}

#[test]
fn length() {
    assert_parses("$4", Atom::L(4), String::default());
}

#[test]
fn volume() {
    assert_parses("!16", Atom::V(16), String::default());
}

#[test]
fn note() {
    assert_parses("e", Atom::N(4, 1), "abcde".to_string());
}

#[test]
fn tests_octave() {
    let input = chars(&format!("{OCTAVE}2"));
    assert_eq!(Some(Ok((Atom::O(2), input.len()))), bppt::parsing::octave(&input));
}

#[test]
fn tests_length() {
    let input = chars(&format!("{LENGTH}4"));
    assert_eq!(Some(Ok((Atom::L(4), input.len()))), bppt::parsing::length(&input));
}

#[test]
fn tests_volume() {
    let input = chars(&format!("{VOLUME}100"));
    assert_eq!(Some(Ok((Atom::V(100), input.len()))), bppt::parsing::volume(&input));
}

#[test]
fn tests_note() {
    assert_eq!(
        Some(Ok((Atom::N(2, 1), 1))),
        bppt::parsing::note(&chars("c"), &alphabet("abcde"))
    );
}

#[test]
fn rest() {
    let input = chars(&format!("{REST}"));
    assert_eq!(Some(Ok((Atom::Rest(1), input.len()))), bppt::parsing::rest(&input));
}

#[test]
fn octave_incr() {
    let input = chars(&format!("{OCTAVEINCR}"));
    assert_eq!(Some(Ok((Atom::OIncr, input.len()))), octaveincr(&input));
}

#[test]
fn octave_decr() {
    let input = chars(&format!("{OCTAVEDECR}"));
    assert_eq!(Some(Ok((Atom::ODecr, input.len()))), octavedecr(&input));
}

#[test]
fn length_incr() {
    let input = chars(&format!("{LENGTHINCR}"));
    assert_eq!(Some(Ok((Atom::LIncr, input.len()))), lengthincr(&input));
}

#[test]
fn length_decr() {
    let input = chars(&format!("{LENGTHDECR}"));
    assert_eq!(Some(Ok((Atom::LDecr, input.len()))), lengthdecr(&input));
}

#[test]
fn volume_incr() {
    let input = chars(&format!("{VOLUMEINCR}"));
    assert_eq!(Some(Ok((Atom::VIncr, input.len()))), volumeincr(&input));
}

#[test]
fn volume_decr() {
    let input = chars(&format!("{VOLUMEDECR}"));
    assert_eq!(Some(Ok((Atom::VDecr, input.len()))), volumedecr(&input));
}

#[test]
fn loop_() {
    let input = chars(&format!("{LOOP_IN}ccc{LOOP_OUT}"));
    assert_eq!(
        Some(Ok((Atom::Loop(2, vec![Atom::N(2, 1); 3]), input.len()))),
        bppt::parsing::loop_(&input, &alphabet("abcde"))
    );
    let input = chars(&format!("{LOOP_IN}45ccc{LOOP_OUT}"));
    assert_eq!(
        Some(Ok((Atom::Loop(45, vec![Atom::N(2, 1); 3]), input.len()))),
        bppt::parsing::loop_(&input, &alphabet("abcde"))
    );
}

#[test]
fn tuplet() {
    let input = chars(&format!("{TUP_IN}ccc{TUP_OUT}"));
    assert_eq!(
        Some(Ok((Atom::Tuplet(vec![Atom::N(2, 1); 3]), input.len()))),
        bppt::parsing::tuplet(&input, &alphabet("abcde"))
    );
}

#[test]
fn tokens_of_another_kind_are_not_read() {
    let input = chars("$4");
    assert_eq!(None, bppt::parsing::octave(&input));
    assert_eq!(None, bppt::parsing::volume(&input));
    assert_eq!(None, bppt::parsing::rest(&input));
    assert_eq!(None, bppt::parsing::note(&input, &alphabet("abc")));
    assert_eq!(None, bppt::parsing::loop_(&input, &alphabet("abc")));
    assert_eq!(None, bppt::parsing::tuplet(&input, &alphabet("abc")));
    assert_eq!(None, bppt::parsing::octave(&[]));
}

#[test]
fn junk_counts_leading_blanks() {
    assert_eq!(junk(&chars(" \t\r\n a ")), 5);
    assert_eq!(junk(&chars("a ")), 0);
    assert_eq!(junk(&chars("   ")), 3);
    assert_eq!(junk(&[]), 0);
}

#[test]
fn close_counts_nested_brackets() {
    assert_eq!(close(&chars("(a(b)c)d)"), '(', ')'), Some(6));
    assert_eq!(close(&chars("(a(b)c"), '(', ')'), None);
    assert_eq!(close(&chars("([)]"), '(', ')'), Some(2));
    assert_eq!(close(&chars("[[]]"), '[', ']'), Some(3));
}

#[test]
fn atom_reads_the_first_token_only() {
    let set = alphabet("abc");
    assert_eq!(atom(&chars("b@4"), &set), Ok((Atom::N(1, 1), 1)));
    assert_eq!(atom(&chars("@12b"), &set), Ok((Atom::O(12), 3)));
    assert_eq!(
        atom(&chars("(3a[bc])a"), &set),
        Ok((
            Atom::Loop(
                3,
                vec![Atom::N(0, 1), Atom::Tuplet(vec![Atom::N(1, 1), Atom::N(2, 1)])]
            ),
            8
        ))
    );
    assert_eq!(
        atom(&chars(""), &set),
        Err(Failure { kind: ErrorKind::lacking("score", "an atom"), at: 0 })
    );
    assert_eq!(
        atom(&chars(" a"), &set),
        Err(Failure { kind: ErrorKind::Incomprehensible(' '), at: 0 })
    );
}

#[test]
fn alphabet_wins_over_signs() {
    let set = alphabet(".@");
    assert_eq!(
        parse_atoms(&chars(".@"), &set),
        Ok(vec![Atom::N(0, 1), Atom::N(1, 1)])
    );
}

#[test]
fn first_occurrence_of_a_repeated_note_wins() {
    let set = alphabet("abab");
    assert_eq!(set.len(), 4);
    assert_eq!(set.index_of('b'), Some(1));
    assert_eq!(set.index_of('z'), None);
    assert_eq!(parse_atoms(&chars("ba"), &set), Ok(vec![Atom::N(1, 1), Atom::N(0, 1)]));
}

#[test]
fn blanks_are_insignificant() {
    let set = alphabet("abc");
    assert_eq!(
        parse_atoms(&chars(" a\tb\r\n( 2 ) [ c ]  "), &set),
        Err(Failure { kind: ErrorKind::Incomprehensible('2'), at: 8 })
    );
    assert_eq!(
        parse_atoms(&chars(" a\tb\r\n(2 a ) [ c ]  "), &set),
        Ok(vec![
            Atom::N(0, 1),
            Atom::N(1, 1),
            Atom::Loop(2, vec![Atom::N(0, 1)]),
            Atom::Tuplet(vec![Atom::N(2, 1)]),
        ])
    );
    assert_eq!(parse_atoms(&chars(""), &set), Ok(vec![]));
    assert_eq!(parse_atoms(&chars("  \n "), &set), Ok(vec![]));
}

#[test]
fn numbers_out_of_range_fail() {
    let set = alphabet("abc");
    let range = |what: &str, needs: &str, at: usize| {
        Err(Failure { kind: ErrorKind::lacking(what, needs), at })
    };
    assert_eq!(parse_atoms(&chars("a@0"), &set), range("octave", "a number from 1 to 255", 1));
    assert_eq!(parse_atoms(&chars("@256"), &set), range("octave", "a number from 1 to 255", 0));
    assert_eq!(parse_atoms(&chars("@"), &set), range("octave", "a number from 1 to 255", 0));
    assert_eq!(parse_atoms(&chars("@255"), &set), Ok(vec![Atom::O(255)]));
    assert_eq!(parse_atoms(&chars("@007"), &set), Ok(vec![Atom::O(7)]));
    assert_eq!(parse_atoms(&chars("$0"), &set), range("length", "a number from 1 to 255", 0));
    assert_eq!(parse_atoms(&chars("$999"), &set), range("length", "a number from 1 to 255", 0));
    assert_eq!(parse_atoms(&chars("$a"), &set), range("length", "a number from 1 to 255", 0));
    assert_eq!(parse_atoms(&chars("!0"), &set), Ok(vec![Atom::V(0)]));
    assert_eq!(parse_atoms(&chars("!255"), &set), Ok(vec![Atom::V(255)]));
    assert_eq!(parse_atoms(&chars("!256"), &set), range("volume", "a number from 0 to 255", 0));
    assert_eq!(
        parse_atoms(&chars("!99999999999999999999999999"), &set),
        range("volume", "a number from 0 to 255", 0)
    );
    assert_eq!(
        parse_atoms(&chars("a(0a)"), &set),
        range("loop", "a repeat count from 1 to 65535", 2)
    );
    assert_eq!(
        parse_atoms(&chars("(65536a)"), &set),
        range("loop", "a repeat count from 1 to 65535", 1)
    );
    assert_eq!(
        parse_atoms(&chars("(65535a)"), &set),
        Ok(vec![Atom::Loop(65535, vec![Atom::N(0, 1)])])
    );
}

#[test]
fn brackets_must_match() {
    let set = alphabet("abc");
    assert_eq!(
        parse_atoms(&chars("ab(ca"), &set),
        Err(Failure { kind: ErrorKind::MismatchedOpening('('), at: 2 })
    );
    assert_eq!(
        parse_atoms(&chars("a[b(c)"), &set),
        Err(Failure { kind: ErrorKind::MismatchedOpening('['), at: 1 })
    );
    assert_eq!(
        parse_atoms(&chars("ab)c"), &set),
        Err(Failure { kind: ErrorKind::MismatchedClosing(')'), at: 2 })
    );
    assert_eq!(
        parse_atoms(&chars("]"), &set),
        Err(Failure { kind: ErrorKind::MismatchedClosing(']'), at: 0 })
    );
    assert_eq!(
        parse_atoms(&chars("(a[b)c]"), &set),
        Err(Failure { kind: ErrorKind::MismatchedOpening('['), at: 2 })
    );
}

#[test]
fn a_tuplet_must_sound() {
    let set = alphabet("abc");
    let empty = |at: usize| {
        Err(Failure { kind: ErrorKind::lacking("tuplet", "at least one atom"), at })
    };
    assert_eq!(parse_atoms(&chars("a[]"), &set), empty(1));
    assert_eq!(parse_atoms(&chars("[ ]"), &set), empty(0));
    assert_eq!(parse_atoms(&chars("[()]"), &set), empty(0));
    assert_eq!(parse_atoms(&chars("([(3)])"), &set), empty(1));
    assert_eq!(parse_atoms(&chars("()"), &set), Ok(vec![Atom::Loop(2, vec![])]));
    assert_eq!(parse_atoms(&chars("[>]"), &set), Ok(vec![Atom::Tuplet(vec![Atom::OIncr])]));
}

#[test]
fn failures_inside_brackets_are_located_in_the_whole_text() {
    let set = alphabet("abc");
    assert_eq!(
        parse_atoms(&chars("a (12 b[c x])"), &set),
        Err(Failure { kind: ErrorKind::Incomprehensible('x'), at: 10 })
    );
}

#[test]
fn blanks_between_tokens_change_nothing() {
    let set = alphabet("abc");
    let plain = parse_atoms(&chars("a(3b[c.]@12)$4!7"), &set);
    assert_eq!(
        plain,
        Ok(vec![
            Atom::N(0, 1),
            Atom::Loop(
                3,
                vec![
                    Atom::N(1, 1),
                    Atom::Tuplet(vec![Atom::N(2, 1), Atom::Rest(1)]),
                    Atom::O(12),
                ]
            ),
            Atom::L(4),
            Atom::V(7),
        ])
    );
    for spaced in [
        " a(3b[c.]@12)$4!7",
        "a (3b[c.]@12)$4!7",
        "a(3 b[c.]@12)$4!7",
        "a(3b [c.]@12)$4!7",
        "a(3b[ c.]@12)$4!7",
        "a(3b[c .]@12)$4!7",
        "a(3b[c. ]@12)$4!7",
        "a(3b[c.] @12)$4!7",
        "a(3b[c.]@12 )$4!7",
        "a(3b[c.]@12) $4!7",
        "a(3b[c.]@12)$4 !7",
        "a(3b[c.]@12)$4!7 ",
        "\ta \r\n( 3b\n[\tc  . ]\n@12 )\r\n$4 \t!7\n",
    ] {
        assert_eq!(parse_atoms(&chars(&spaced.replace("( 3", "(3 ")), &set), plain, "{spaced:?}");
    }
    // the repeat count belongs to the bracket of its loop, and a number to its sign
    assert!(parse_atoms(&chars("a( 3b)"), &set).is_err());
    assert!(parse_atoms(&chars("$ 4"), &set).is_err());
    // a failure after the blanks moves with them
    assert_eq!(
        parse_atoms(&chars("ab?"), &set),
        Err(Failure { kind: ErrorKind::Incomprehensible('?'), at: 2 })
    );
    assert_eq!(
        parse_atoms(&chars("a   b?"), &set),
        Err(Failure { kind: ErrorKind::Incomprehensible('?'), at: 5 })
    );
}
