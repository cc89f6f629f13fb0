
use crate::grammar::{
    closing, command, digit_value, digits, find, find_from, is_digit, is_space, length_token,
    lemma_closing_bound, lemma_digits_bound, lemma_spaces_bound, lemma_token_len_bound,
    loop_token, note_token, number, octave_token, parse_atom, parse_text, shifted, sign_token,
    spaces, token_len, tuplet_token, volume_token, FailureView, TokenView, DEFAULT_REPEAT, LENGTH,
    LENGTHDECR, LENGTHINCR, LOOP_IN, LOOP_OUT, OCTAVE, OCTAVEDECR, OCTAVEINCR, REST, TUP_IN,
    TUP_OUT, VOLUME, VOLUMEDECR, VOLUMEINCR,
};
use crate::grammar::{lemma_parse_text_valid, parse_score};
use crate::parsing_errors::{ErrorKind, ParseError};
use crate::position::locate;
use crate::structure::{
    expands_to_nothing, valid_score, view_all, Atom, AtomView, Notes, NotesView,
};
use vstd::prelude::*;
use vstd::slice::slice_subrange;

verus! {

/// A syntax error and the index of the character at which it is.
#[derive(PartialEq, Debug)]
pub struct Failure {
    pub kind: ErrorKind,
    pub at: usize,
}

impl View for Failure {
    type V = FailureView;

    open spec fn view(&self) -> FailureView {
        FailureView { kind: self.kind@, at: self.at as nat }
    }
}

/// The set of notes that a score is written with: at most 255 characters,
/// each of which stands for the note at its place in the set.
#[derive(PartialEq, Debug)]
pub struct NoteAlphabet {
    symbols: Vec<char>,
}

impl View for NoteAlphabet {
    type V = Seq<char>;

    closed spec fn view(&self) -> Seq<char> {
        self.symbols@
    }
}

/// The characters of a text, in order.
pub fn chars_of(text: &str) -> (chars: Vec<char>)
    ensures
        chars@ == text@,
{
    let mut chars: Vec<char> = Vec::new();
    for c in it: text.chars()
        invariant
            chars@ == it.seq().take(it.index() as int),
            it.seq() == text@,
    {
        chars.push(c);
        assert(it.seq().take(it.index() + 1) =~= it.seq().take(it.index() as int).push(c));
    }
    assert(text@.take(text@.len() as int) =~= text@);
    chars
}

impl NoteAlphabet {
    #[verifier::type_invariant]
    spec fn inv(self) -> bool {
        self.symbols@.len() <= u8::MAX
    }

    /// The alphabet made of the characters of `set`, unless there are more
    /// than 255 of them.
    pub fn new(set: &str) -> (alphabet: Option<NoteAlphabet>)
        ensures
            alphabet is Some <==> set@.len() <= u8::MAX,
            alphabet matches Some(a) ==> a@ == set@,
    {
        let symbols = chars_of(set);
        if symbols.len() <= u8::MAX as usize {
            Some(NoteAlphabet { symbols })
        } else {
            None
        }
    }

    /// The characters of the set, in order.
    pub fn symbols(&self) -> (symbols: &Vec<char>)
        ensures
            symbols@ == self@,
            self@.len() <= u8::MAX,
    {
        proof {
            use_type_invariant(self);
        }
        &self.symbols
    }

    /// The number of notes in the set.
    pub fn len(&self) -> (len: u8)
        ensures
            len == self@.len(),
    {
        proof {
            use_type_invariant(self);
        }
        self.symbols.len() as u8
    }

    /// The index of the note that a character stands for: the first place
    /// where it stands in the set.
    pub fn index_of(&self, c: char) -> (index: Option<u8>)
        ensures
            match index {
                Some(i) => find(self@, c) == Some(i as int),
                None => find(self@, c) is None,
            },
            self@.len() <= u8::MAX,
    {
        proof {
            use_type_invariant(self);
        }
        let mut i: usize = 0;
        while i < self.symbols.len()
            invariant
                i <= self.symbols@.len() <= u8::MAX,
                find(self.symbols@, c) == find_from(self.symbols@, c, i as int),
            decreases self.symbols.len() - i,
        {
            if self.symbols[i] == c {
                return Some(i as u8);
            }
            i += 1;
        }
        None
    }
}

/// What a text starts with, as one kind of token sees it: `None` where
/// the text does not start with a token of that kind, else the atom that
/// the token stands for with the number of characters that the token
/// takes, or the failure in it.
pub type Token = Option<Result<(Atom, usize), Failure>>;

/// The token that was read is the token that the grammar sees, `len`
/// characters long.
pub open spec fn reads(token: Token, seen: TokenView, len: nat) -> bool {
    match seen {
        None => token is None,
        Some(Ok(atom)) => token matches Some(Ok((a, n))) && a@ == atom && n == len,
        Some(Err(failure)) => token matches Some(Err(e)) && e@ == failure,
    }
}

/// Tells a blank from any other character.
pub fn blank(c: char) -> (b: bool)
    ensures
        b == is_space(c),
{
    c == ' ' || c == '\t' || c == '\r' || c == '\n'
}

/// The value of a character that is a digit.
pub fn digit_of(c: char) -> (d: Option<u32>)
    ensures
        match d {
            Some(v) => is_digit(c) && v == digit_value(c),
            None => !is_digit(c),
        },
{
    let v = c as u32;
    if 48 <= v && v <= 57 {
        Some(v - 48)
    } else {
        None
    }
}

/// The number of blanks that a text starts with.
pub fn junk(text: &[char]) -> (n: usize)
    ensures
        n == spaces(text@),
{
    let mut i: usize = 0;
    proof {
        assert(text@.skip(0) =~= text@);
    }
    while i < text.len() && blank(text[i])
        invariant
            i <= text@.len(),
            spaces(text@) == i + spaces(text@.skip(i as int)),
        decreases text@.len() - i,
    {
        proof {
            assert(text@.skip(i as int).skip(1) =~= text@.skip(i + 1));
        }
        i += 1;
    }
    i
}

proof fn lemma_number_step(s: Seq<char>, i: int)
    requires
        0 <= i < s.len(),
    ensures
        number(s.take(i + 1)) == number(s.take(i)) * 10 + digit_value(s[i]),
{
    assert(s.take(i + 1).drop_last() =~= s.take(i));
}

/// Reads the digits that a text starts with: their number, and the value
/// they have in base ten unless it is above `most`.
pub fn read_number(text: &[char], most: u32) -> (r: (usize, Option<u32>))
    requires
        most <= 0xFFFF,
    ensures
        r.0 == digits(text@),
        match r.1 {
            Some(v) => v == number(text@.take(r.0 as int)) && v <= most,
            None => number(text@.take(r.0 as int)) > most,
        },
{
    let mut i: usize = 0;
    let mut value: u32 = 0;
    let mut beyond = false;
    proof {
        assert(text@.skip(0) =~= text@);
    }
    while i < text.len()
        invariant
            i <= text@.len(),
            most <= 0xFFFF,
            digits(text@) == i + digits(text@.skip(i as int)),
            beyond ==> number(text@.take(i as int)) > most,
            !beyond ==> value == number(text@.take(i as int)) && value <= most,
        decreases text@.len() - i,
    {
        match digit_of(text[i]) {
            None => {
                return (
                    i,
                    if beyond {
                        None
                    } else {
                        Some(value)
                    },
                );
            },
            Some(d) => {
                proof {
                    lemma_number_step(text@, i as int);
                    assert(text@.skip(i as int).skip(1) =~= text@.skip(i + 1));
                }
                if !beyond {
                    value = value * 10 + d;
                    if value > most {
                        beyond = true;
                    }
                }
                i += 1;
            },
        }
    }
    (
        i,
        if beyond {
            None
        } else {
            Some(value)
        },
    )
}

/// Reads a command made of a sign and a number from `least` to `most`.
/// Where the text starts with the sign, the result is the number and the
/// length of the command, or a failure that tells what `what` needs.
pub fn numbered(text: &[char], sign: char, what: &str, needs: &str, least: u32, most: u32) -> (r:
    Option<Result<(u32, usize), Failure>>)
    requires
        most <= 0xFFFF,
    ensures
        match command(text@, sign, what@, needs@, least as nat, most as nat) {
            None => r is None,
            Some(Ok(value)) => r == Some::<Result<(u32, usize), Failure>>(
                Ok((value as u32, (1 + digits(text@.skip(1))) as usize)),
            ),
            Some(Err(failure)) => r matches Some(Err(e)) && e@ == failure,
        },
        r matches Some(Ok((value, n))) ==> least <= value <= most && n == 1 + digits(text@.skip(1))
            && n <= text@.len(),
{
    if text.len() == 0 || text[0] != sign {
        return None;
    }
    let tail = slice_subrange(text, 1, text.len());
    let (d, value) = read_number(tail, most);
    proof {
        assert(tail@ =~= text@.skip(1));
        lemma_digits_bound(text@.skip(1));
        assert(tail@.take(d as int) =~= text@.subrange(1, 1 + d as int));
    }
    match value {
        Some(v) => {
            if d == 0 || v < least {
                Some(Err(Failure { kind: ErrorKind::lacking(what, needs), at: 0 }))
            } else {
                Some(Ok((v, 1 + d)))
            }
        },
        None => Some(Err(Failure { kind: ErrorKind::lacking(what, needs), at: 0 })),
    }
}

/// An octave: `@` and a number from 1 to 255.
pub fn octave(text: &[char]) -> (token: Token)
    ensures
        reads(token, octave_token(text@), 1 + digits(text@.skip(1))),
{
    match numbered(text, OCTAVE, "octave", "a number from 1 to 255", 1, 255) {
        None => None,
        Some(Ok((value, n))) => Some(Ok((Atom::O(value as u8), n))),
        Some(Err(e)) => Some(Err(e)),
    }
}

/// A length: `$` and a number from 1 to 255.
pub fn length(text: &[char]) -> (token: Token)
    ensures
        reads(token, length_token(text@), 1 + digits(text@.skip(1))),
{
    match numbered(text, LENGTH, "length", "a number from 1 to 255", 1, 255) {
        None => None,
        Some(Ok((value, n))) => Some(Ok((Atom::L(value as u8), n))),
        Some(Err(e)) => Some(Err(e)),
    }
}

/// A volume: `!` and a number from 0 to 255.
pub fn volume(text: &[char]) -> (token: Token)
    ensures
        reads(token, volume_token(text@), 1 + digits(text@.skip(1))),
{
    match numbered(text, VOLUME, "volume", "a number from 0 to 255", 0, 255) {
        None => None,
        Some(Ok((value, n))) => Some(Ok((Atom::V(value as u8), n))),
        Some(Err(e)) => Some(Err(e)),
    }
}

/// A note: a character of the alphabet, which stands for the note at the
/// first place where it is in the alphabet.
pub fn note(text: &[char], alphabet: &NoteAlphabet) -> (token: Token)
    ensures
        reads(token, note_token(text@, alphabet@), 1),
{
    if text.len() == 0 {
        return None;
    }
    match alphabet.index_of(text[0]) {
        Some(i) => Some(Ok((Atom::N(i, 1), 1))),
        None => None,
    }
}

/// A rest: `.`
pub fn rest(text: &[char]) -> (token: Token)
    ensures
        reads(token, sign_token(text@, REST, AtomView::Rest(1)), 1),
{
    if text.len() > 0 && text[0] == REST {
        Some(Ok((Atom::Rest(1), 1)))
    } else {
        None
    }
}

/// The octave goes up: `>`
pub fn octaveincr(text: &[char]) -> (token: Token)
    ensures
        reads(token, sign_token(text@, OCTAVEINCR, AtomView::OIncr), 1),
{
    if text.len() > 0 && text[0] == OCTAVEINCR {
        Some(Ok((Atom::OIncr, 1)))
    } else {
        None
    }
}

/// The octave goes down: `<`
pub fn octavedecr(text: &[char]) -> (token: Token)
    ensures
        reads(token, sign_token(text@, OCTAVEDECR, AtomView::ODecr), 1),
{
    if text.len() > 0 && text[0] == OCTAVEDECR {
        Some(Ok((Atom::ODecr, 1)))
    } else {
        None
    }
}

/// The length doubles: a backtick.
pub fn lengthincr(text: &[char]) -> (token: Token)
    ensures
        reads(token, sign_token(text@, LENGTHINCR, AtomView::LIncr), 1),
{
    if text.len() > 0 && text[0] == LENGTHINCR {
        Some(Ok((Atom::LIncr, 1)))
    } else {
        None
    }
}

/// The length halves: an apostrophe.
pub fn lengthdecr(text: &[char]) -> (token: Token)
    ensures
        reads(token, sign_token(text@, LENGTHDECR, AtomView::LDecr), 1),
{
    if text.len() > 0 && text[0] == LENGTHDECR {
        Some(Ok((Atom::LDecr, 1)))
    } else {
        None
    }
}

/// The volume goes up: `^`
pub fn volumeincr(text: &[char]) -> (token: Token)
    ensures
        reads(token, sign_token(text@, VOLUMEINCR, AtomView::VIncr), 1),
{
    if text.len() > 0 && text[0] == VOLUMEINCR {
        Some(Ok((Atom::VIncr, 1)))
    } else {
        None
    }
}

/// The volume goes down: `_`
pub fn volumedecr(text: &[char]) -> (token: Token)
    ensures
        reads(token, sign_token(text@, VOLUMEDECR, AtomView::VDecr), 1),
{
    if text.len() > 0 && text[0] == VOLUMEDECR {
        Some(Ok((Atom::VDecr, 1)))
    } else {
        None
    }
}

/// Finds the bracket that closes the bracket at the start of a text, by
/// counting the brackets of that kind that open and close after it.
pub fn close(text: &[char], in_tag: char, out_tag: char) -> (at: Option<usize>)
    ensures
        match at {
            Some(m) => closing(text@, in_tag, out_tag, 0, 1) == Some(m as int) && 1 <= m
                < text@.len(),
            None => closing(text@, in_tag, out_tag, 0, 1) is None,
        },
{
    let mut lvl: usize = 0;
    let mut i: usize = 1;
    while i < text.len()
        invariant
            1 <= i,
            lvl < i,
            closing(text@, in_tag, out_tag, 0, 1) == closing(
                text@,
                in_tag,
                out_tag,
                lvl as nat,
                i as int,
            ),
        decreases text@.len() - i,
    {
        let ch = text[i];
        if ch == in_tag {
            lvl += 1;
        } else if ch == out_tag {
            if lvl == 0 {
                return Some(i);
            }
            lvl -= 1;
        }
        i += 1;
    }
    None
}

/// A loop: `(`, a repeat count or none, the atoms of the body, and the `)`
/// that closes the loop.
pub fn loop_(text: &[char], alphabet: &NoteAlphabet) -> (token: Token)
    ensures
        reads(
            token,
            loop_token(text@, alphabet@),
            match closing(text@, LOOP_IN, LOOP_OUT, 0, 1) {
                Some(m) => (m + 1) as nat,
                None => 1,
            },
        ),
    decreases text@.len(), 0nat,
{
    if text.len() == 0 || text[0] != LOOP_IN {
        return None;
    }
    let m = match close(text, LOOP_IN, LOOP_OUT) {
        None => {
            return Some(Err(Failure { kind: ErrorKind::MismatchedOpening(LOOP_IN), at: 0 }));
        },
        Some(m) => m,
    };
    let inside = slice_subrange(text, 1, m);
    let (d, count) = read_number(inside, 0xFFFF);
    proof {
        lemma_digits_bound(inside@);
        assert(inside@.take(d as int) =~= text@.subrange(1, 1 + d as int));
    }
    let repeat: u16 = if d == 0 {
        DEFAULT_REPEAT
    } else {
        match count {
            Some(v) => {
                if v == 0 {
                    return Some(
                        Err(
                            Failure {
                                kind: ErrorKind::lacking("loop", "a repeat count from 1 to 65535"),
                                at: 1,
                            },
                        ),
                    );
                }
                v as u16
            },
            None => {
                return Some(
                    Err(
                        Failure {
                            kind: ErrorKind::lacking("loop", "a repeat count from 1 to 65535"),
                            at: 1,
                        },
                    ),
                );
            },
        }
    };
    let body = slice_subrange(text, 1 + d, m);
    match parse_atoms(body, alphabet) {
        Err(e) => Some(Err(Failure { kind: e.kind, at: e.at + (1 + d) })),
        Ok(atoms) => Some(Ok((Atom::Loop(repeat, atoms), m + 1))),
    }
}

/// A tuplet: `[`, the atoms of the body, and the `]` that closes the
/// tuplet. A body that expands to nothing makes no tuplet.
pub fn tuplet(text: &[char], alphabet: &NoteAlphabet) -> (token: Token)
    ensures
        reads(
            token,
            tuplet_token(text@, alphabet@),
            match closing(text@, TUP_IN, TUP_OUT, 0, 1) {
                Some(m) => (m + 1) as nat,
                None => 1,
            },
        ),
    decreases text@.len(), 0nat,
{
    if text.len() == 0 || text[0] != TUP_IN {
        return None;
    }
    let m = match close(text, TUP_IN, TUP_OUT) {
        None => {
            return Some(Err(Failure { kind: ErrorKind::MismatchedOpening(TUP_IN), at: 0 }));
        },
        Some(m) => m,
    };
    let body = slice_subrange(text, 1, m);
    match parse_atoms(body, alphabet) {
        Err(e) => Some(Err(Failure { kind: e.kind, at: e.at + 1 })),
        Ok(atoms) => {
            if expands_to_nothing(&atoms) {
                Some(
                    Err(Failure { kind: ErrorKind::lacking("tuplet", "at least one atom"), at: 0 }),
                )
            } else {
                Some(Ok((Atom::Tuplet(atoms), m + 1)))
            }
        },
    }
}

/// The parsed atom is the atom that the grammar sees at the start of the
/// text, with the length of its token.
pub open spec fn parsed_atom(
    r: Result<(Atom, usize), Failure>,
    text: Seq<char>,
    alphabet: Seq<char>,
) -> bool {
    match parse_atom(text, alphabet) {
        Ok(atom) => r matches Ok((a, n)) && a@ == atom && n == token_len(text, alphabet),
        Err(failure) => r matches Err(e) && e@ == failure,
    }
}

/// Reads the atom that a text starts with.
pub fn atom(text: &[char], alphabet: &NoteAlphabet) -> (r: Result<(Atom, usize), Failure>)
    ensures
        parsed_atom(r, text@, alphabet@),
        r matches Ok((_, n)) ==> 1 <= n <= text@.len(),
        r matches Err(e) ==> e.at <= text@.len(),
    decreases text@.len(), 1nat,
{
    if text.len() == 0 {
        return Err(Failure { kind: ErrorKind::lacking("score", "an atom"), at: 0 });
    }
    proof {
        lemma_token_len_bound(text@, alphabet@);
        lemma_failure_bound(text@, alphabet@);
    }
    if let Some(r) = note(text, alphabet) {
        return r;
    }
    if let Some(r) = octave(text) {
        return r;
    }
    if let Some(r) = length(text) {
        return r;
    }
    if let Some(r) = volume(text) {
        return r;
    }
    if let Some(r) = rest(text) {
        return r;
    }
    if let Some(r) = octaveincr(text) {
        return r;
    }
    if let Some(r) = octavedecr(text) {
        return r;
    }
    if let Some(r) = lengthincr(text) {
        return r;
    }
    if let Some(r) = lengthdecr(text) {
        return r;
    }
    if let Some(r) = volumeincr(text) {
        return r;
    }
    if let Some(r) = volumedecr(text) {
        return r;
    }
    if let Some(r) = loop_(text, alphabet) {
        return r;
    }
    if let Some(r) = tuplet(text, alphabet) {
        return r;
    }
    let c = text[0];
    if c == LOOP_OUT || c == TUP_OUT {
        Err(Failure { kind: ErrorKind::MismatchedClosing(c), at: 0 })
    } else {
        Err(Failure { kind: ErrorKind::Incomprehensible(c), at: 0 })
    }
}

/// A failure lies in the text it was found in, or right at its end.
pub proof fn lemma_failure_bound(s: Seq<char>, alphabet: Seq<char>)
    ensures
        parse_atom(s, alphabet) matches Err(failure) ==> failure.at <= s.len(),
        loop_token(s, alphabet) matches Some(Err(failure)) ==> failure.at <= s.len(),
        tuplet_token(s, alphabet) matches Some(Err(failure)) ==> failure.at <= s.len(),
    decreases s.len(), 0nat,
{
    if s.len() > 0 {
        if s[0] == LOOP_IN {
            lemma_closing_bound(s, LOOP_IN, LOOP_OUT, 0, 1);
            if let Some(m) = closing(s, LOOP_IN, LOOP_OUT, 0, 1) {
                lemma_digits_bound(s.subrange(1, m));
                let d = digits(s.subrange(1, m));
                lemma_text_failure_bound(s.subrange(1 + d as int, m), alphabet);
            }
        }
        if s[0] == TUP_IN {
            lemma_closing_bound(s, TUP_IN, TUP_OUT, 0, 1);
            if let Some(m) = closing(s, TUP_IN, TUP_OUT, 0, 1) {
                lemma_text_failure_bound(s.subrange(1, m), alphabet);
            }
        }
    }
}

/// A failure lies in the text it was found in, or right at its end.
pub proof fn lemma_text_failure_bound(s: Seq<char>, alphabet: Seq<char>)
    ensures
        parse_text(s, alphabet) matches Err(failure) ==> failure.at <= s.len(),
    decreases s.len(), 1nat,
{
    lemma_spaces_bound(s);
    let k = spaces(s);
    if k < s.len() {
        let t = s.skip(k as int);
        lemma_token_len_bound(t, alphabet);
        let n = token_len(t, alphabet);
        lemma_failure_bound(t, alphabet);
        lemma_text_failure_bound(t.skip(n as int), alphabet);
    }
}

/// The parsed atoms are the atoms that the grammar sees in the text.
pub open spec fn parsed_text(
    r: Result<Vec<Atom>, Failure>,
    text: Seq<char>,
    alphabet: Seq<char>,
) -> bool {
    match parse_text(text, alphabet) {
        Ok(atoms) => r matches Ok(v) && view_all(v@) == atoms,
        Err(failure) => r matches Err(e) && e@ == failure,
    }
}

/// Reads all the atoms of a text, in order, and stops at the first
/// failure.
pub fn parse_atoms(text: &[char], alphabet: &NoteAlphabet) -> (r: Result<Vec<Atom>, Failure>)
    ensures
        parsed_text(r, text@, alphabet@),
        r matches Err(e) ==> e.at <= text@.len(),
    decreases text@.len(), 2nat,
{
    let mut atoms: Vec<Atom> = Vec::new();
    let mut i: usize = 0;
    proof {
        assert(text@.skip(0) =~= text@);
    }
    loop
        invariant
            i <= text@.len(),
            match parse_text(text@.skip(i as int), alphabet@) {
                Ok(rest) => parse_text(text@, alphabet@) == Ok::<Seq<AtomView>, FailureView>(
                    view_all(atoms@) + rest,
                ),
                Err(failure) => parse_text(text@, alphabet@) == Err::<Seq<AtomView>, FailureView>(
                    shifted(failure, i as nat),
                ),
            },
        decreases text@.len() - i,
    {
        let here = slice_subrange(text, i, text.len());
        let ghost s = text@.skip(i as int);
        proof {
            assert(here@ =~= s);
            lemma_spaces_bound(s);
        }
        let k = junk(here);
        if k >= here.len() {
            proof {
                assert(view_all(atoms@) + Seq::<AtomView>::empty() =~= view_all(atoms@));
            }
            return Ok(atoms);
        }
        let token = slice_subrange(here, k, here.len());
        let ghost t = s.skip(k as int);
        proof {
            assert(token@ =~= t);
            lemma_token_len_bound(t, alphabet@);
        }
        match atom(token, alphabet) {
            Err(e) => {
                return Err(Failure { kind: e.kind, at: e.at + (i + k) });
            },
            Ok((a, n)) => {
                let ghost before = view_all(atoms@);
                atoms.push(a);
                proof {
                    assert(view_all(atoms@) =~= before.push(a@));
                    assert(t.skip(n as int) =~= text@.skip(i + k + n));
                    match parse_text(t.skip(n as int), alphabet@) {
                        Ok(rest) => {
                            assert(before + (seq![a@] + rest) =~= before.push(a@) + rest);
                        },
                        Err(failure) => {},
                    }
                }
                i = i + k + n;
            },
        }
    }
}

/// The result is what parsing the score gives.
pub open spec fn parsed_score(
    r: Result<Vec<Atom>, ParseError>,
    mask: Seq<char>,
    set: Seq<char>,
) -> bool {
    match parse_score(mask, set) {
        Ok(atoms) => r matches Ok(v) && view_all(v@) == atoms,
        Err(error) => r matches Err(e) && e@ == error,
    }
}

impl Atom {
    /// Parses a score that is written with the notes of `noteset`. The
    /// result holds the atoms in the order of the text, loops and tuplets
    /// with their bodies as they are written. An error tells what is wrong
    /// and where.
    pub fn parse(input: &str, noteset: &str) -> (r: Result<Vec<Atom>, ParseError>)
        ensures
            parsed_score(r, input@, noteset@),
            r matches Ok(atoms) ==> valid_score(view_all(atoms@), noteset@.len() as u8),
    {
        let alphabet = match NoteAlphabet::new(noteset) {
            Some(alphabet) => alphabet,
            None => {
                return Err(
                    ParseError::new(
                        ErrorKind::lacking("note set", "no more than 255 notes"),
                        (0, 0),
                    ),
                );
            },
        };
        let chars = chars_of(input);
        proof {
            lemma_parse_text_valid(input@, noteset@);
        }
        match parse_atoms(chars.as_slice(), &alphabet) {
            Ok(atoms) => Ok(atoms),
            Err(e) => {
                let at = locate(input, &chars, e.at);
                Err(ParseError::new(e.kind, at))
            },
        }
    }
}

impl Notes {
    /// Parses a score that is written with the notes of `set` and stores
    /// it with the length of the set.
    pub fn parse(score: &str, set: &str) -> (r: Result<Notes, ParseError>)
        ensures
            match parse_score(score@, set@) {
                Ok(atoms) => r matches Ok(notes) && notes@ == (NotesView {
                    set: set@.len() as u8,
                    score: atoms,
                }),
                Err(error) => r matches Err(e) && e@ == error,
            },
    {
        match Atom::parse(score, set) {
            Ok(atoms) => {
                let len = set.unicode_len();
                Ok(Notes::assemble(len as u8, atoms))
            },
            Err(e) => Err(e),
        }
    }
}

} // verus!
