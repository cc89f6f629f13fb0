use bppt::iter::flatten_score;
use bppt::structure::{check_atom, check_score, clone_all, expands_to_nothing, Atom, Notes};

fn notes(set: &str, score: &str) -> Notes {
    Notes::parse(score, set).unwrap()
}

#[test]
fn primitive_atoms_pass_through_unchanged() {
    let score = notes("abc", "@3 $8 !90 a . > < ` ' ^ _");
    let flat = score.flat_iter().collect();
    assert_eq!(&flat, score.score());
}

#[test]
fn a_loop_repeats_its_body() {
    let flat = notes("abc", "(3ab)c").flat_iter().collect();
    assert_eq!(
        flat,
        vec![
            Atom::N(0, 1),
            Atom::N(1, 1),
            Atom::N(0, 1),
            Atom::N(1, 1),
            Atom::N(0, 1),
            Atom::N(1, 1),
            Atom::N(2, 1),
        ]
    );
}

#[test]
fn a_loop_without_a_count_repeats_twice() {
    let flat = notes("abc", "(a>)").flat_iter().collect();
    assert_eq!(flat, vec![Atom::N(0, 1), Atom::OIncr, Atom::N(0, 1), Atom::OIncr]);
}

#[test]
fn loop_expansion_has_body_times_repeat_atoms() {
    let flat = notes("abc", "(7a(5b.)c)").flat_iter().collect();
    assert_eq!(flat.len(), 7 * (1 + 5 * 2 + 1));
    let flat = notes("abc", "(65535a)").flat_iter().collect();
    assert_eq!(flat.len(), 65535);
    let flat = notes("abc", "(300(300a))").flat_iter().collect();
    assert_eq!(flat.len(), 90000);
    assert!(flat.iter().all(|a| *a == Atom::N(0, 1)));
}

#[test]
fn a_triplet_divides_by_three() {
    let flat = notes("abc", "[abc]").flat_iter().collect();
    assert_eq!(flat, vec![Atom::N(0, 3), Atom::N(1, 3), Atom::N(2, 3)]);
}

#[test]
fn a_tuplet_counts_every_atom_of_its_body() {
    let flat = notes("abc", "[a>.]").flat_iter().collect();
    assert_eq!(flat, vec![Atom::N(0, 3), Atom::OIncr, Atom::Rest(3)]);
}

#[test]
fn nested_tuplets_multiply() {
    let flat = notes("abc", "[[ab]c]").flat_iter().collect();
    assert_eq!(flat, vec![Atom::N(0, 6), Atom::N(1, 6), Atom::N(2, 3)]);
}

#[test]
fn a_tuplet_of_a_loop_counts_the_expanded_loop() {
    let flat = notes("abc", "[(12a)]").flat_iter().collect();
    assert_eq!(flat, vec![Atom::N(0, 12); 12]);
    let flat = notes("abc", "([ab])").flat_iter().collect();
    assert_eq!(
        flat,
        vec![Atom::N(0, 2), Atom::N(1, 2), Atom::N(0, 2), Atom::N(1, 2)]
    );
}

#[test]
fn tuplet_divisors_stop_at_the_largest_number() {
    let score = vec![Atom::Tuplet(vec![
        Atom::N(0, usize::MAX / 2),
        Atom::Rest(usize::MAX),
        Atom::N(1, 1),
    ])];
    assert_eq!(
        flatten_score(&score),
        vec![Atom::N(0, usize::MAX), Atom::Rest(usize::MAX), Atom::N(1, 3)]
    );
}

#[test]
fn flattening_leaves_no_container() {
    let flat = notes("abc", "a(2b[c(3a)][.[ab]])[(c)]").flat_iter().collect();
    assert_eq!(flat.len(), 1 + 2 * (1 + 4 + 3) + 2);
    assert!(flat
        .iter()
        .all(|a| !matches!(a, Atom::Loop(_, _) | Atom::Tuplet(_))));
}

#[test]
fn next_yields_the_atoms_one_by_one() {
    let score = notes("abc", "(2a)[bc]");
    let mut it = score.flat_iter();
    assert_eq!(it.next(), Some(Atom::N(0, 1)));
    assert_eq!(it.next(), Some(Atom::N(0, 1)));
    assert_eq!(it.next(), Some(Atom::N(1, 2)));
    assert_eq!(it.next(), Some(Atom::N(2, 2)));
    assert_eq!(it.next(), None);
    assert_eq!(it.next(), None);
}

#[test]
fn a_score_can_be_flattened_again_and_again() {
    let score = notes("abc", "(2a[bc])");
    let first = score.flat_iter().collect();
    let second = score.flat_iter().collect();
    assert_eq!(first, second);
    assert_eq!(first.len(), 6);
}

#[test]
fn empty_scores_and_empty_loops_yield_nothing() {
    assert_eq!(notes("abc", "").flat_iter().collect(), vec![]);
    assert_eq!(notes("abc", "()(3())").flat_iter().collect(), vec![]);
    assert_eq!(flatten_score(&vec![Atom::Tuplet(vec![])]), vec![]);
    assert_eq!(flatten_score(&vec![Atom::Loop(0, vec![Atom::N(0, 1)])]), vec![]);
}

#[test]
fn expands_to_nothing_tells_silent_scores() {
    assert!(expands_to_nothing(&vec![]));
    assert!(expands_to_nothing(&vec![Atom::Loop(3, vec![]), Atom::Tuplet(vec![])]));
    assert!(expands_to_nothing(&vec![Atom::Loop(0, vec![Atom::N(0, 1)])]));
    assert!(!expands_to_nothing(&vec![Atom::Loop(1, vec![Atom::OIncr])]));
    assert!(!expands_to_nothing(&vec![Atom::More]));
}

#[test]
fn checks_agree_with_the_constructor() {
    assert!(check_atom(&Atom::N(2, 1), 3));
    assert!(!check_atom(&Atom::N(3, 1), 3));
    assert!(!check_atom(&Atom::Tuplet(vec![]), 3));
    assert!(check_score(&vec![Atom::Loop(2, vec![Atom::Rest(4)])], 0));
    assert!(!check_score(&vec![Atom::Loop(2, vec![Atom::Rest(0)])], 0));
}

#[test]
fn clones_are_equal_to_their_source() {
    let score = vec![
        Atom::Loop(3, vec![Atom::Tuplet(vec![Atom::N(1, 1), Atom::More]), Atom::V(3)]),
        Atom::LDecr,
    ];
    assert_eq!(clone_all(&score), score);
    assert_eq!(score[0].clone(), score[0]);
}
