use crate::flatten::{
    all_primitive, flatten, flatten_atom, flatten_prefix, is_primitive,
    lemma_flatten_has_no_container, lemma_repeat_len, repeat, scale_tup, squeeze_all,
};
use crate::iter::{stack_of, FlattenedNoteIterator};
use vstd::prelude::*;

verus! {

/// Mathematical model of an [`Atom`]: the same tree, with sequences in place
/// of vectors.
pub enum AtomView {
    O(u8),
    L(u8),
    V(u8),
    N(u8, usize),
    Rest(usize),
    OIncr,
    ODecr,
    LIncr,
    LDecr,
    VIncr,
    VDecr,
    More,
    Loop(u16, Seq<AtomView>),
    Tuplet(Seq<AtomView>),
}

/// Mask atoms are the bricks of a score: a sound (or a silence), a command
/// that changes a parameter, or a wrapper that applies a rule to the atoms it
/// contains.
#[derive(PartialEq, Debug)]
pub enum Atom {
    /// Set octave
    O(u8),
    /// Set length
    L(u8),
    /// Set volume
    V(u8),
    /// Play a note from the set, given by its index, with the tuplet divisor
    /// that applies to it (1 outside any tuplet)
    N(u8, usize),
    /// Play a rest, with its tuplet divisor
    Rest(usize),
    /// Increase the octave
    OIncr,
    /// Decrease the octave
    ODecr,
    /// Increase the length
    LIncr,
    /// Decrease the length
    LDecr,
    /// Increase the volume
    VIncr,
    /// Decrease the volume
    VDecr,
    /// Extend the previous note
    More,
    /// Loop the contained atom sequence n times
    Loop(u16, Vec<Atom>),
    /// Tuplet: the contained atoms share the length of a single note
    Tuplet(Vec<Atom>),
}

impl View for Atom {
    type V = AtomView;

    open spec fn view(&self) -> AtomView
        decreases self,
    {
        match self {
            Atom::O(n) => AtomView::O(*n),
            Atom::L(n) => AtomView::L(*n),
            Atom::V(n) => AtomView::V(*n),
            Atom::N(n, tup) => AtomView::N(*n, *tup),
            Atom::Rest(tup) => AtomView::Rest(*tup),
            Atom::OIncr => AtomView::OIncr,
            Atom::ODecr => AtomView::ODecr,
            Atom::LIncr => AtomView::LIncr,
            Atom::LDecr => AtomView::LDecr,
            Atom::VIncr => AtomView::VIncr,
            Atom::VDecr => AtomView::VDecr,
            Atom::More => AtomView::More,
            Atom::Loop(repeat, body) => AtomView::Loop(*repeat, view_all(body@)),
            Atom::Tuplet(body) => AtomView::Tuplet(view_all(body@)),
        }
    }
}

/// The models of a sequence of atoms, in order.
pub open spec fn view_all(atoms: Seq<Atom>) -> Seq<AtomView>
    decreases atoms,
{
    Seq::new(
        atoms.len(),
        |i: int|
            if 0 <= i < atoms.len() {
                atoms[i].view()
            } else {
                AtomView::More
            },
    )
}

impl Clone for Atom {
    fn clone(&self) -> (res: Atom)
        ensures
            res@ == self@,
        decreases self,
    {
        match self {
            Atom::O(n) => Atom::O(*n),
            Atom::L(n) => Atom::L(*n),
            Atom::V(n) => Atom::V(*n),
            Atom::N(n, tup) => Atom::N(*n, *tup),
            Atom::Rest(tup) => Atom::Rest(*tup),
            Atom::OIncr => Atom::OIncr,
            Atom::ODecr => Atom::ODecr,
            Atom::LIncr => Atom::LIncr,
            Atom::LDecr => Atom::LDecr,
            Atom::VIncr => Atom::VIncr,
            Atom::VDecr => Atom::VDecr,
            Atom::More => Atom::More,
            Atom::Loop(repeat, body) => Atom::Loop(*repeat, clone_all(body)),
            Atom::Tuplet(body) => Atom::Tuplet(clone_all(body)),
        }
    }
}

/// Copies a sequence of atoms, nested bodies included.
pub fn clone_all(atoms: &Vec<Atom>) -> (res: Vec<Atom>)
    ensures
        view_all(res@) == view_all(atoms@),
    decreases atoms,
{
    let mut res: Vec<Atom> = Vec::new();
    let mut i: usize = 0;
    while i < atoms.len()
        invariant
            i <= atoms.len(),
            res@.len() == i,
            forall|j: int| 0 <= j < i ==> (#[trigger] res@[j])@ == atoms@[j]@,
        decreases atoms.len() - i,
    {
        res.push(atoms[i].clone());
        i += 1;
    }
    assert(view_all(res@) =~= view_all(atoms@));
    res
}

/// What holds of every atom of a stored score: octaves, lengths, tuplet
/// divisors and repeat counts are above zero, a note is one of the `set`
/// notes of the alphabet, and no tuplet expands to nothing.
pub open spec fn valid_atom(a: AtomView, set: u8) -> bool
    decreases a,
{
    match a {
        AtomView::O(n) => n > 0,
        AtomView::L(n) => n > 0,
        AtomView::N(n, tup) => n < set && tup > 0,
        AtomView::Rest(tup) => tup > 0,
        AtomView::Loop(r, body) => r > 0 && forall|i: int|
            0 <= i < body.len() ==> valid_atom(#[trigger] body[i], set),
        AtomView::Tuplet(body) => flatten(body).len() > 0 && forall|i: int|
            0 <= i < body.len() ==> valid_atom(#[trigger] body[i], set),
        _ => true,
    }
}

/// Every atom of the score is valid for an alphabet of `set` notes.
pub open spec fn valid_score(score: Seq<AtomView>, set: u8) -> bool {
    forall|i: int| 0 <= i < score.len() ==> valid_atom(#[trigger] score[i], set)
}

proof fn lemma_flatten_prefix_empty(s: Seq<AtomView>, n: nat)
    requires
        n <= s.len(),
    ensures
        flatten_prefix(s, n).len() == 0 <==> forall|i: int|
            0 <= i < n ==> (#[trigger] flatten_atom(s[i])).len() == 0,
    decreases n,
{
    if n > 0 {
        lemma_flatten_prefix_empty(s, (n - 1) as nat);
        let before = flatten_prefix(s, (n - 1) as nat);
        let here = flatten_atom(s[n - 1]);
        assert(flatten_prefix(s, n) == before + here);
        if flatten_prefix(s, n).len() == 0 {
            assert(before.len() == 0 && here.len() == 0);
            assert forall|i: int| 0 <= i < n implies (#[trigger] flatten_atom(s[i])).len()
                == 0 by {
                if i == n - 1 {
                }
            }
        }
        if forall|i: int| 0 <= i < n ==> (#[trigger] flatten_atom(s[i])).len() == 0 {
            assert(flatten_atom(s[n - 1]).len() == 0);
            assert forall|i: int| 0 <= i < n - 1 implies (#[trigger] flatten_atom(s[i])).len()
                == 0 by {}
            assert(before.len() == 0);
        }
    }
}

/// Tells whether a score expands to no atom at all.
pub fn expands_to_nothing(atoms: &Vec<Atom>) -> (nothing: bool)
    ensures
        nothing == (flatten(view_all(atoms@)).len() == 0),
    decreases atoms,
{
    let ghost views = view_all(atoms@);
    let mut i: usize = 0;
    while i < atoms.len()
        invariant
            i <= atoms.len(),
            views == view_all(atoms@),
            forall|j: int| 0 <= j < i ==> (#[trigger] flatten_atom(views[j])).len() == 0,
        decreases atoms.len() - i,
    {
        let nothing = match &atoms[i] {
            Atom::Loop(r, body) => {
                let inner = expands_to_nothing(body);
                proof {
                    lemma_repeat_len(flatten(view_all(body@)), *r as nat);
                    assert(views[i as int] == AtomView::Loop(*r, view_all(body@)));
                    let n = flatten(view_all(body@)).len();
                    assert((*r as nat) * n == 0 <==> (*r == 0 || n == 0)) by (nonlinear_arith);
                    assert(flatten_atom(views[i as int]).len() == (*r as nat) * n);
                }
                *r == 0 || inner
            },
            Atom::Tuplet(body) => {
                let inner = expands_to_nothing(body);
                proof {
                    assert(views[i as int] == AtomView::Tuplet(view_all(body@)));
                    assert(flatten_atom(views[i as int]).len() == flatten(view_all(body@)).len());
                }
                inner
            },
            _ => {
                proof {
                    assert(flatten_atom(views[i as int]) == seq![views[i as int]]);
                }
                false
            },
        };
        assert(nothing == (flatten_atom(views[i as int]).len() == 0));
        if !nothing {
            proof {
                lemma_flatten_prefix_empty(views, views.len());
            }
            return false;
        }
        i += 1;
    }
    proof {
        lemma_flatten_prefix_empty(views, views.len());
    }
    true
}

/// Tells whether an atom is valid for an alphabet of `set` notes.
pub fn check_atom(atom: &Atom, set: u8) -> (ok: bool)
    ensures
        ok == valid_atom(atom@, set),
    decreases atom,
{
    match atom {
        Atom::O(n) => *n > 0,
        Atom::L(n) => *n > 0,
        Atom::N(n, tup) => *n < set && *tup > 0,
        Atom::Rest(tup) => *tup > 0,
        Atom::Loop(r, body) => {
            let inner = check_score(body, set);
            proof {
                lemma_valid_loop(*r, view_all(body@), set);
            }
            *r > 0 && inner
        },
        Atom::Tuplet(body) => {
            let nothing = expands_to_nothing(body);
            let inner = check_score(body, set);
            proof {
                lemma_valid_tuplet(view_all(body@), set);
            }
            !nothing && inner
        },
        _ => true,
    }
}

/// A loop is valid when it repeats at least once and its body is valid.
pub proof fn lemma_valid_loop(r: u16, body: Seq<AtomView>, set: u8)
    ensures
        valid_atom(AtomView::Loop(r, body), set) <==> r > 0 && valid_score(body, set),
{
    let a = AtomView::Loop(r, body);
    assert(a->Loop_0 == r);
    assert(a->Loop_1 == body);
}

/// A tuplet is valid when it expands to at least one atom and its body is
/// valid.
pub proof fn lemma_valid_tuplet(body: Seq<AtomView>, set: u8)
    ensures
        valid_atom(AtomView::Tuplet(body), set) <==> flatten(body).len() > 0 && valid_score(
            body,
            set,
        ),
{
    let a = AtomView::Tuplet(body);
    assert(a->Tuplet_0 == body);
}

/// Tells whether every atom of a score is valid for an alphabet of `set`
/// notes.
pub fn check_score(atoms: &Vec<Atom>, set: u8) -> (ok: bool)
    ensures
        ok == valid_score(view_all(atoms@), set),
    decreases atoms,
{
    let mut i: usize = 0;
    while i < atoms.len()
        invariant
            i <= atoms.len(),
            forall|j: int| 0 <= j < i ==> valid_atom(#[trigger] view_all(atoms@)[j], set),
        decreases atoms.len() - i,
    {
        if !check_atom(&atoms[i], set) {
            assert(!valid_atom(view_all(atoms@)[i as int], set));
            return false;
        }
        i += 1;
    }
    true
}

proof fn lemma_repeat_valid(s: Seq<AtomView>, n: nat, set: u8)
    requires
        valid_score(s, set),
    ensures
        valid_score(repeat(s, n), set),
    decreases n,
{
    if n > 0 {
        lemma_repeat_valid(s, (n - 1) as nat, set);
    }
}

proof fn lemma_flatten_atom_valid(a: AtomView, set: u8)
    requires
        valid_atom(a, set),
    ensures
        valid_score(flatten_atom(a), set),
    decreases a, 0nat,
{
    match a {
        AtomView::Loop(r, body) => {
            lemma_valid_loop(r, body, set);
            lemma_flatten_prefix_valid(body, body.len(), set);
            lemma_repeat_valid(flatten(body), r as nat, set);
        },
        AtomView::Tuplet(body) => {
            lemma_valid_tuplet(body, set);
            lemma_flatten_prefix_valid(body, body.len(), set);
            let flat = flatten(body);
            let k = flat.len();
            assert forall|i: int| 0 <= i < k implies valid_atom(
                #[trigger] squeeze_all(flat, k)[i],
                set,
            ) by {
                lemma_flatten_has_no_container(body);
                assert(valid_atom(flat[i], set));
                assert(is_primitive(flat[i]));
                lemma_scale_tup_positive(flat[i], k);
            }
        },
        _ => {},
    }
}

proof fn lemma_scale_tup_positive(a: AtomView, k: nat)
    requires
        k > 0,
    ensures
        a matches AtomView::N(_, tup) ==> tup > 0 ==> scale_tup(tup, k) > 0,
        a matches AtomView::Rest(tup) ==> tup > 0 ==> scale_tup(tup, k) > 0,
{
    match a {
        AtomView::N(_, tup) => {
            if tup > 0 {
                assert(tup * k > 0) by (nonlinear_arith)
                    requires
                        tup > 0,
                        k > 0,
                ;
            }
        },
        AtomView::Rest(tup) => {
            if tup > 0 {
                assert(tup * k > 0) by (nonlinear_arith)
                    requires
                        tup > 0,
                        k > 0,
                ;
            }
        },
        _ => {},
    }
}

proof fn lemma_flatten_prefix_valid(s: Seq<AtomView>, n: nat, set: u8)
    requires
        valid_score(s, set),
    ensures
        valid_score(flatten_prefix(s, n), set),
    decreases s, n,
{
    if n == 0 || n > s.len() {
    } else {
        lemma_flatten_prefix_valid(s, (n - 1) as nat, set);
        lemma_flatten_atom_valid(s[n - 1], set);
    }
}

/// Flattening a valid score gives a valid score: every length, octave and
/// tuplet divisor that comes out is above zero, and every note is in the
/// set.
pub proof fn lemma_flatten_valid(score: Seq<AtomView>, set: u8)
    requires
        valid_score(score, set),
    ensures
        valid_score(flatten(score), set),
        all_primitive(flatten(score)),
{
    lemma_flatten_prefix_valid(score, score.len(), set);
    lemma_flatten_has_no_container(score);
}

/// Mathematical model of [`Notes`].
pub struct NotesView {
    /// Number of notes in the set.
    pub set: u8,
    /// The score, containers included.
    pub score: Seq<AtomView>,
}

/// Notes container. Stores the mask atoms of a score and the length of the
/// note set that the score was written for. A stored score is always valid
/// for its set.
#[derive(PartialEq, Debug)]
pub struct Notes {
    pub(crate) set: u8,
    pub(crate) score: Vec<Atom>,
}

impl View for Notes {
    type V = NotesView;

    closed spec fn view(&self) -> NotesView {
        NotesView { set: self.set, score: view_all(self.score@) }
    }
}

impl Notes {
    #[verifier::type_invariant]
    spec fn inv(self) -> bool {
        valid_score(view_all(self.score@), self.set)
    }

    /// Stores a score written for an alphabet of `set` notes, unless some
    /// atom of it is not valid for that alphabet.
    pub fn new(set: u8, score: Vec<Atom>) -> (notes: Option<Notes>)
        ensures
            notes is Some <==> valid_score(view_all(score@), set),
            notes matches Some(n) ==> n@ == (NotesView { set, score: view_all(score@) }),
    {
        if check_score(&score, set) {
            Some(Notes { set, score })
        } else {
            None
        }
    }

    /// Stores a score that is known to be valid for an alphabet of `set`
    /// notes.
    pub(crate) fn assemble(set: u8, score: Vec<Atom>) -> (notes: Notes)
        requires
            valid_score(view_all(score@), set),
        ensures
            notes@ == (NotesView { set, score: view_all(score@) }),
    {
        Notes { set, score }
    }

    /// Length of the note set that the score was written for.
    pub fn set(&self) -> (set: u8)
        ensures
            set == self@.set,
    {
        self.set
    }

    /// The atoms of the score, containers included. They are valid for the
    /// set of the score.
    pub fn score(&self) -> (score: &Vec<Atom>)
        ensures
            view_all(score@) == self@.score,
            valid_score(self@.score, self@.set),
    {
        proof {
            use_type_invariant(self);
        }
        &self.score
    }

    /// Iterates through the primitive atoms of the score only (no loop, no
    /// tuplet): containers are flattened and their rules applied to the
    /// atoms they contain.
    pub fn flat_iter(&self) -> (it: FlattenedNoteIterator)
        ensures
            it@ == flatten(self@.score),
            valid_score(self@.score, self@.set),
    {
        proof {
            use_type_invariant(self);
        }
        stack_of(&self.score)
    }
}

/// Number of notes in the default set, `aAbcCdDefFgG`.
pub const DEFAULT_SET: u8 = 12;

/// The default score, `cccd'ed`cedd''c`, as it reads with the default set.
pub open spec fn default_score() -> Seq<AtomView> {
    seq![
        AtomView::N(3, 1),
        AtomView::N(3, 1),
        AtomView::N(3, 1),
        AtomView::N(5, 1),
        AtomView::LDecr,
        AtomView::N(7, 1),
        AtomView::N(5, 1),
        AtomView::LIncr,
        AtomView::N(3, 1),
        AtomView::N(7, 1),
        AtomView::N(5, 1),
        AtomView::N(5, 1),
        AtomView::LDecr,
        AtomView::LDecr,
        AtomView::N(3, 1),
    ]
}

impl Default for Notes {
    /// A short tune in the set of the twelve notes of the western scale.
    fn default() -> (notes: Notes)
        ensures
            notes@ == (NotesView { set: DEFAULT_SET, score: default_score() }),
    {
        let mut score: Vec<Atom> = Vec::new();
        score.push(Atom::N(3, 1));
        score.push(Atom::N(3, 1));
        score.push(Atom::N(3, 1));
        score.push(Atom::N(5, 1));
        score.push(Atom::LDecr);
        score.push(Atom::N(7, 1));
        score.push(Atom::N(5, 1));
        score.push(Atom::LIncr);
        score.push(Atom::N(3, 1));
        score.push(Atom::N(7, 1));
        score.push(Atom::N(5, 1));
        score.push(Atom::N(5, 1));
        score.push(Atom::LDecr);
        score.push(Atom::LDecr);
        score.push(Atom::N(3, 1));
        assert(view_all(score@) =~= default_score());
        Notes::assemble(DEFAULT_SET, score)
    }
}

impl Clone for Notes {
    fn clone(&self) -> (res: Notes)
        ensures
            res@ == self@,
    {
        proof {
            use_type_invariant(self);
        }
        Notes { set: self.set, score: clone_all(&self.score) }
    }
}

} // verus!
