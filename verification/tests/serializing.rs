use bppt::parsing::NoteAlphabet;
use bppt::serialize::serialize_all;
use bppt::structure::{Atom, Notes};

#[test]
fn atoms_are_written_as_their_tokens() {
    let set = NoteAlphabet::new("abc").unwrap();
    let text = |atom: Atom| atom.serialize(&set);
    assert_eq!(text(Atom::O(4)), Some("@4".to_string()));
    assert_eq!(text(Atom::L(255)), Some("$255".to_string()));
    assert_eq!(text(Atom::V(0)), Some("!0".to_string()));
    assert_eq!(text(Atom::N(2, 1)), Some("c".to_string()));
    assert_eq!(text(Atom::N(3, 1)), None);
    assert_eq!(text(Atom::Rest(1)), Some(".".to_string()));
    assert_eq!(text(Atom::OIncr), Some(">".to_string()));
    assert_eq!(text(Atom::ODecr), Some("<".to_string()));
    assert_eq!(text(Atom::LIncr), Some("`".to_string()));
    assert_eq!(text(Atom::LDecr), Some("'".to_string()));
    assert_eq!(text(Atom::VIncr), Some("^".to_string()));
    assert_eq!(text(Atom::VDecr), Some("_".to_string()));
    assert_eq!(text(Atom::More), None);
    assert_eq!(
        text(Atom::Loop(12, vec![Atom::N(0, 1), Atom::Tuplet(vec![Atom::N(1, 1), Atom::Rest(1)])])),
        Some("(12a[b.])".to_string())
    );
    assert_eq!(text(Atom::Loop(2, vec![])), Some("()".to_string()));
    assert_eq!(text(Atom::Loop(3, vec![])), Some("(3)".to_string()));
    assert_eq!(text(Atom::Tuplet(vec![Atom::More])), None);
    assert_eq!(set.symbol(1), Some('b'));
    assert_eq!(set.symbol(3), None);
    assert_eq!(set.symbols(), &vec!['a', 'b', 'c']);
}

#[test]
fn a_written_score_reads_back_as_itself() {
    let set = "aAbcCdDefFgG";
    let alphabet = NoteAlphabet::new(set).unwrap();
    let score = vec![
        Atom::O(4),
        Atom::L(16),
        Atom::V(100),
        Atom::N(0, 1),
        Atom::V(7),
        Atom::N(11, 1),
        Atom::Rest(1),
        Atom::Loop(
            2,
            vec![
                Atom::N(3, 1),
                Atom::Tuplet(vec![Atom::N(4, 1), Atom::Loop(65535, vec![]), Atom::Rest(1)]),
                Atom::O(255),
            ],
        ),
        Atom::OIncr,
        Atom::LDecr,
        Atom::VIncr,
        Atom::ODecr,
        Atom::LIncr,
        Atom::VDecr,
        Atom::Loop(300, vec![]),
    ];
    let text = serialize_all(&score, &alphabet).unwrap();
    assert_eq!(text, "@4$16!100a!7G.(c[C(65535).]@255)>'^<`_(300)");
    assert_eq!(Atom::parse(&text, set).unwrap(), score);
    let notes = Notes::new(12, score).unwrap();
    assert_eq!(notes.serialize(&alphabet), Some(text.clone()));
    assert_eq!(Notes::parse(&text, set).unwrap(), notes);
}

#[test]
fn a_read_score_writes_back_as_its_text_without_blanks() {
    let set = "abc";
    let alphabet = NoteAlphabet::new(set).unwrap();
    let notes = Notes::parse(" a (b [ c . ] ) $ 4".replace("$ 4", "$4").as_str(), set).unwrap();
    assert_eq!(notes.serialize(&alphabet), Some("a(b[c.])$4".to_string()));
}

#[test]
fn a_loop_without_a_count_is_written_without_one() {
    let notes = NoteAlphabet::new("abcde").unwrap();
    assert_eq!(
        Atom::Loop(2, vec![Atom::N(2, 1), Atom::Rest(1)]).serialize(&notes),
        Some("(c.)".to_string())
    );
    assert_eq!(
        Atom::Tuplet(vec![Atom::O(4), Atom::L(8), Atom::V(0)]).serialize(&notes),
        Some("[@4$8!0]".to_string())
    );
    assert_eq!(
        Atom::parse("(c.)", "abcde").unwrap(),
        vec![Atom::Loop(2, vec![Atom::N(2, 1), Atom::Rest(1)])]
    );
    assert_eq!(
        Atom::Loop(20, vec![Atom::Loop(2, vec![Atom::Loop(1, vec![])])]).serialize(&notes),
        Some("(20((1)))".to_string())
    );
}
