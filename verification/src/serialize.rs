use crate::grammar::{
    DEFAULT_REPEAT, LENGTH, LENGTHDECR, LENGTHINCR, LOOP_IN, LOOP_OUT, OCTAVE, OCTAVEDECR,
    OCTAVEINCR, REST, TUP_IN, TUP_OUT, VOLUME, VOLUMEDECR, VOLUMEINCR,
};
use crate::parsing::NoteAlphabet;
use crate::parsing_errors::{decimal, push_decimal};
use crate::structure::{view_all, Atom, AtomView, Notes};
use vstd::prelude::*;
use vstd::string::StringExecFns;

verus! {

/// An atom that can be written down with an alphabet: it holds no tie,
/// for which the language has no sign, and each of its notes is a note of
/// the alphabet.
pub open spec fn writable(a: AtomView, alphabet: Seq<char>) -> bool
    decreases a,
{
    match a {
        AtomView::N(n, _) => n < alphabet.len(),
        AtomView::More => false,
        AtomView::Loop(_, body) => forall|i: int|
            0 <= i < body.len() ==> writable(#[trigger] body[i], alphabet),
        AtomView::Tuplet(body) => forall|i: int|
            0 <= i < body.len() ==> writable(#[trigger] body[i], alphabet),
        _ => true,
    }
}

/// Every atom of the score can be written down with the alphabet.
pub open spec fn all_writable(score: Seq<AtomView>, alphabet: Seq<char>) -> bool {
    forall|i: int| 0 <= i < score.len() ==> writable(#[trigger] score[i], alphabet)
}

/// How a loop tells its repeat count: not at all where it repeats as often
/// as a loop without a count does, in base ten otherwise.
pub open spec fn render_count(r: u16) -> Seq<char> {
    if r == DEFAULT_REPEAT {
        Seq::empty()
    } else {
        decimal(r as nat)
    }
}

/// The token that stands for an atom: the character of a note, the sign
/// of a command with its number, and a container with its body between
/// its brackets, after its repeat count if it is a loop that needs one. An
/// atom that cannot be written has no text.
pub open spec fn render_atom(a: AtomView, alphabet: Seq<char>) -> Seq<char>
    decreases a, 0nat,
{
    match a {
        AtomView::O(n) => seq![OCTAVE] + decimal(n as nat),
        AtomView::L(n) => seq![LENGTH] + decimal(n as nat),
        AtomView::V(n) => seq![VOLUME] + decimal(n as nat),
        AtomView::N(n, _) => if n < alphabet.len() {
            seq![alphabet[n as int]]
        } else {
            Seq::empty()
        },
        AtomView::Rest(_) => seq![REST],
        AtomView::OIncr => seq![OCTAVEINCR],
        AtomView::ODecr => seq![OCTAVEDECR],
        AtomView::LIncr => seq![LENGTHINCR],
        AtomView::LDecr => seq![LENGTHDECR],
        AtomView::VIncr => seq![VOLUMEINCR],
        AtomView::VDecr => seq![VOLUMEDECR],
        AtomView::More => Seq::empty(),
        AtomView::Loop(r, body) => (seq![LOOP_IN] + render_count(r)) + render_from(
            body,
            0,
            alphabet,
        ).push(LOOP_OUT),
        AtomView::Tuplet(body) => seq![TUP_IN] + render_from(body, 0, alphabet).push(TUP_OUT),
    }
}

/// The tokens of the atoms of a score from place `i` on, one after the
/// other.
pub open spec fn render_from(score: Seq<AtomView>, i: nat, alphabet: Seq<char>) -> Seq<char>
    decreases score, score.len() - i,
{
    if i >= score.len() {
        Seq::empty()
    } else {
        render_atom(score[i as int], alphabet) + render_from(score, i + 1, alphabet)
    }
}

/// The text of a score.
pub open spec fn render_score(score: Seq<AtomView>, alphabet: Seq<char>) -> Seq<char> {
    render_from(score, 0, alphabet)
}

impl NoteAlphabet {
    /// The character that stands for a note.
    pub fn symbol(&self, note: u8) -> (c: Option<char>)
        ensures
            match c {
                Some(c) => note < self@.len() && c == self@[note as int],
                None => note >= self@.len(),
            },
    {
        let symbols = self.symbols();
        if (note as usize) < symbols.len() {
            Some(symbols[note as usize])
        } else {
            None
        }
    }
}

/// Writes the atoms of a score one after the other, unless one of them
/// cannot be written.
pub fn serialize_all(atoms: &Vec<Atom>, notes: &NoteAlphabet) -> (text: Option<String>)
    ensures
        text is Some <==> all_writable(view_all(atoms@), notes@),
        text matches Some(t) ==> t@ == render_score(view_all(atoms@), notes@),
    decreases atoms,
{
    let ghost score = view_all(atoms@);
    let mut text = String::new();
    let mut i: usize = 0;
    proof {
        assert(text@ + render_from(score, 0, notes@) =~= render_score(score, notes@));
    }
    while i < atoms.len()
        invariant
            i <= atoms.len(),
            score == view_all(atoms@),
            forall|j: int| 0 <= j < i ==> writable(#[trigger] score[j], notes@),
            text@ + render_from(score, i as nat, notes@) == render_score(score, notes@),
        decreases atoms.len() - i,
    {
        match atoms[i].serialize(notes) {
            Some(part) => {
                let ghost before = text@;
                text.append(part.as_str());
                proof {
                    assert((before + part@) + render_from(score, (i + 1) as nat, notes@) =~= before
                        + (part@ + render_from(score, (i + 1) as nat, notes@)));
                }
            },
            None => {
                assert(!writable(score[i as int], notes@));
                return None;
            },
        }
        i += 1;
    }
    proof {
        assert(text@ + Seq::<char>::empty() =~= text@);
    }
    Some(text)
}

impl Atom {
    /// Writes the atom as it stands in a score, with the characters of
    /// `notes` for its notes, unless the atom cannot be written.
    pub fn serialize(&self, notes: &NoteAlphabet) -> (text: Option<String>)
        ensures
            text is Some <==> writable(self@, notes@),
            text matches Some(t) ==> t@ == render_atom(self@, notes@),
        decreases self,
    {
        match self {
            Atom::O(n) => {
                let mut text = String::new();
                text.push(OCTAVE);
                push_decimal(&mut text, *n as usize);
                assert(text@ =~= render_atom(self@, notes@));
                Some(text)
            },
            Atom::L(n) => {
                let mut text = String::new();
                text.push(LENGTH);
                push_decimal(&mut text, *n as usize);
                assert(text@ =~= render_atom(self@, notes@));
                Some(text)
            },
            Atom::V(n) => {
                let mut text = String::new();
                text.push(VOLUME);
                push_decimal(&mut text, *n as usize);
                assert(text@ =~= render_atom(self@, notes@));
                Some(text)
            },
            Atom::N(n, _) => match notes.symbol(*n) {
                Some(c) => Some(sign(c)),
                None => None,
            },
            Atom::Rest(_) => Some(sign(REST)),
            Atom::OIncr => Some(sign(OCTAVEINCR)),
            Atom::ODecr => Some(sign(OCTAVEDECR)),
            Atom::LIncr => Some(sign(LENGTHINCR)),
            Atom::LDecr => Some(sign(LENGTHDECR)),
            Atom::VIncr => Some(sign(VOLUMEINCR)),
            Atom::VDecr => Some(sign(VOLUMEDECR)),
            Atom::More => None,
            Atom::Loop(r, body) => {
                assert(self@ == AtomView::Loop(*r, view_all(body@)));
                assert(self@->Loop_1 == view_all(body@));
                match serialize_all(body, notes) {
                    Some(inner) => {
                        let mut text = String::new();
                        text.push(LOOP_IN);
                        if *r != DEFAULT_REPEAT {
                            push_decimal(&mut text, *r as usize);
                        }
                        text.append(inner.as_str());
                        text.push(LOOP_OUT);
                        assert(text@ =~= render_atom(self@, notes@));
                        Some(text)
                    },
                    None => None,
                }
            },
            Atom::Tuplet(body) => {
                assert(self@ == AtomView::Tuplet(view_all(body@)));
                assert(self@->Tuplet_0 == view_all(body@));
                match serialize_all(body, notes) {
                    Some(inner) => {
                        let mut text = String::new();
                        text.push(TUP_IN);
                        text.append(inner.as_str());
                        text.push(TUP_OUT);
                        assert(text@ =~= render_atom(self@, notes@));
                        Some(text)
                    },
                    None => None,
                }
            },
        }
    }
}

/// A text of one character.
fn sign(c: char) -> (text: String)
    ensures
        text@ == seq![c],
{
    let mut text = String::new();
    text.push(c);
    assert(text@ =~= seq![c]);
    text
}

impl Notes {
    /// Writes the score down with the characters of `notes`, unless an
    /// atom of it cannot be written.
    pub fn serialize(&self, notes: &NoteAlphabet) -> (text: Option<String>)
        ensures
            text is Some <==> all_writable(self@.score, notes@),
            text matches Some(t) ==> t@ == render_score(self@.score, notes@),
    {
        serialize_all(self.score(), notes)
    }
}

} // verus!
