use crate::flatten::flatten;
use crate::parsing_errors::{missing, ErrorKindView, ParseErrorView};
use crate::position::place;
use crate::structure::{lemma_valid_loop, lemma_valid_tuplet, valid_atom, valid_score, AtomView};
use vstd::prelude::*;

verus! {

/// Sets the octave; a number from 1 to 255 follows.
pub const OCTAVE: char = '@';

/// Sets the length; a number from 1 to 255 follows.
pub const LENGTH: char = '$';

/// Sets the volume; a number from 0 to 255 follows.
pub const VOLUME: char = '!';

/// A rest.
pub const REST: char = '.';

/// Raises the octave.
pub const OCTAVEINCR: char = '>';

/// Lowers the octave.
pub const OCTAVEDECR: char = '<';

/// Doubles the length.
pub const LENGTHINCR: char = '`';

/// Halves the length.
pub const LENGTHDECR: char = '\'';

/// Raises the volume.
pub const VOLUMEINCR: char = '^';

/// Lowers the volume.
pub const VOLUMEDECR: char = '_';

/// Opens a loop; a repeat count from 1 to 65535 may follow.
pub const LOOP_IN: char = '(';

/// Closes a loop.
pub const LOOP_OUT: char = ')';

/// Opens a tuplet.
pub const TUP_IN: char = '[';

/// Closes a tuplet.
pub const TUP_OUT: char = ']';

/// How often a loop without a repeat count repeats.
pub const DEFAULT_REPEAT: u16 = 2;

/// A syntax error and the index of the character at which it is.
pub struct FailureView {
    pub kind: ErrorKindView,
    pub at: nat,
}

/// The same failure, seen from a text that starts `shift` characters
/// earlier.
pub open spec fn shifted(failure: FailureView, shift: nat) -> FailureView {
    FailureView { kind: failure.kind, at: failure.at + shift }
}

/// Blank characters, which may stand between any two tokens.
pub open spec fn is_space(c: char) -> bool {
    c == ' ' || c == '\t' || c == '\r' || c == '\n'
}

/// The ten decimal digits.
pub open spec fn is_digit(c: char) -> bool {
    '0' <= c <= '9'
}

/// The value of a decimal digit.
pub open spec fn digit_value(c: char) -> nat {
    (c as u32 - '0' as u32) as nat
}

/// The number of blank characters that a text starts with.
pub open spec fn spaces(s: Seq<char>) -> nat
    decreases s.len(),
{
    if s.len() > 0 && is_space(s[0]) {
        1 + spaces(s.skip(1))
    } else {
        0
    }
}

/// The number of digits that a text starts with.
pub open spec fn digits(s: Seq<char>) -> nat
    decreases s.len(),
{
    if s.len() > 0 && is_digit(s[0]) {
        1 + digits(s.skip(1))
    } else {
        0
    }
}

/// The value of a text of digits, read in base ten.
pub open spec fn number(s: Seq<char>) -> nat
    decreases s.len(),
{
    if s.len() == 0 {
        0
    } else {
        number(s.drop_last()) * 10 + digit_value(s.last())
    }
}

/// The index of the first place at or after `from` where `c` stands in
/// the alphabet.
pub open spec fn find_from(alphabet: Seq<char>, c: char, from: int) -> Option<int>
    decreases alphabet.len() - from,
{
    if from < 0 || from >= alphabet.len() {
        None
    } else if alphabet[from] == c {
        Some(from)
    } else {
        find_from(alphabet, c, from + 1)
    }
}

/// The index of the note that a character stands for: the first place
/// where it stands in the alphabet.
pub open spec fn find(alphabet: Seq<char>, c: char) -> Option<int> {
    find_from(alphabet, c, 0)
}

/// The index of the bracket that closes the bracket opened before `from`,
/// found by counting: `depth` brackets of the same kind are open inside it
/// so far.
pub open spec fn closing(s: Seq<char>, open: char, close: char, depth: nat, from: int) -> Option<
    int,
>
    decreases s.len() - from,
{
    if from < 0 || from >= s.len() {
        None
    } else if s[from] == open {
        closing(s, open, close, depth + 1, from + 1)
    } else if s[from] == close {
        if depth == 0 {
            Some(from)
        } else {
            closing(s, open, close, (depth - 1) as nat, from + 1)
        }
    } else {
        closing(s, open, close, depth, from + 1)
    }
}

/// A command made of a sign and a number: `None` where the text does not
/// start with the sign, the number where it lies from `least` to `most`,
/// and a failure at the sign where the number is missing or out of range.
pub open spec fn command(
    s: Seq<char>,
    sign: char,
    what: Seq<char>,
    needs: Seq<char>,
    least: nat,
    most: nat,
) -> Option<Result<nat, FailureView>> {
    if s.len() == 0 || s[0] != sign {
        None
    } else {
        let d = digits(s.skip(1));
        let value = number(s.subrange(1, 1 + d as int));
        if d == 0 || value < least || value > most {
            Some(Err(FailureView { kind: missing(what, needs), at: 0 }))
        } else {
            Some(Ok(value))
        }
    }
}

/// The number of characters of the token that a text starts with. The text
/// is not empty and does not start with a blank.
pub open spec fn token_len(s: Seq<char>, alphabet: Seq<char>) -> nat {
    let c = s[0];
    if find(alphabet, c) is Some {
        1
    } else if c == OCTAVE || c == LENGTH || c == VOLUME {
        1 + digits(s.skip(1))
    } else if c == LOOP_IN {
        match closing(s, LOOP_IN, LOOP_OUT, 0, 1) {
            Some(m) => (m + 1) as nat,
            None => 1,
        }
    } else if c == TUP_IN {
        match closing(s, TUP_IN, TUP_OUT, 0, 1) {
            Some(m) => (m + 1) as nat,
            None => 1,
        }
    } else {
        1
    }
}

/// Blanks take no more than the text.
pub proof fn lemma_spaces_bound(s: Seq<char>)
    ensures
        spaces(s) <= s.len(),
        spaces(s) < s.len() ==> !is_space(s[spaces(s) as int]),
        forall|i: int| 0 <= i < spaces(s) ==> is_space(#[trigger] s[i]),
    decreases s.len(),
{
    if s.len() > 0 && is_space(s[0]) {
        lemma_spaces_bound(s.skip(1));
        assert forall|i: int| 0 <= i < spaces(s) implies is_space(#[trigger] s[i]) by {
            if i > 0 {
                assert(s[i] == s.skip(1)[i - 1]);
            }
        }
        if spaces(s) < s.len() {
            assert(s[spaces(s) as int] == s.skip(1)[spaces(s) - 1]);
        }
    }
}

/// Digits take no more than the text.
pub proof fn lemma_digits_bound(s: Seq<char>)
    ensures
        digits(s) <= s.len(),
        digits(s) < s.len() ==> !is_digit(s[digits(s) as int]),
        forall|i: int| 0 <= i < digits(s) ==> is_digit(#[trigger] s[i]),
    decreases s.len(),
{
    if s.len() > 0 && is_digit(s[0]) {
        lemma_digits_bound(s.skip(1));
        assert forall|i: int| 0 <= i < digits(s) implies is_digit(#[trigger] s[i]) by {
            if i > 0 {
                assert(s[i] == s.skip(1)[i - 1]);
            }
        }
        if digits(s) < s.len() {
            assert(s[digits(s) as int] == s.skip(1)[digits(s) - 1]);
        }
    }
}

/// A closing bracket lies in the text, at or after the place where the
/// search for it starts.
pub proof fn lemma_closing_bound(s: Seq<char>, open: char, close: char, depth: nat, from: int)
    ensures
        closing(s, open, close, depth, from) matches Some(m) ==> 0 <= from <= m < s.len() && s[m]
            == close,
    decreases s.len() - from,
{
    if from < 0 || from >= s.len() {
    } else if s[from] == open {
        lemma_closing_bound(s, open, close, depth + 1, from + 1);
    } else if s[from] == close {
        if depth > 0 {
            lemma_closing_bound(s, open, close, (depth - 1) as nat, from + 1);
        }
    } else {
        lemma_closing_bound(s, open, close, depth, from + 1);
    }
}

/// A token takes at least one character and no more than the text.
pub proof fn lemma_token_len_bound(s: Seq<char>, alphabet: Seq<char>)
    requires
        s.len() > 0,
    ensures
        1 <= token_len(s, alphabet) <= s.len(),
{
    lemma_digits_bound(s.skip(1));
    lemma_closing_bound(s, LOOP_IN, LOOP_OUT, 0, 1);
    lemma_closing_bound(s, TUP_IN, TUP_OUT, 0, 1);
}

/// What a text starts with, as one kind of token sees it: `None` where
/// the text does not start with a token of that kind, else the atom that
/// the token stands for, or the failure in it.
pub type TokenView = Option<Result<AtomView, FailureView>>;

/// A note: a character of the alphabet.
pub open spec fn note_token(s: Seq<char>, alphabet: Seq<char>) -> TokenView {
    if s.len() == 0 {
        None
    } else {
        match find(alphabet, s[0]) {
            Some(i) => Some(Ok(AtomView::N(i as u8, 1))),
            None => None,
        }
    }
}

/// An octave: its sign and a number from 1 to 255.
pub open spec fn octave_token(s: Seq<char>) -> TokenView {
    match command(s, OCTAVE, "octave"@, "a number from 1 to 255"@, 1, u8::MAX as nat) {
        Some(Ok(n)) => Some(Ok(AtomView::O(n as u8))),
        Some(Err(failure)) => Some(Err(failure)),
        None => None,
    }
}

/// A length: its sign and a number from 1 to 255.
pub open spec fn length_token(s: Seq<char>) -> TokenView {
    match command(s, LENGTH, "length"@, "a number from 1 to 255"@, 1, u8::MAX as nat) {
        Some(Ok(n)) => Some(Ok(AtomView::L(n as u8))),
        Some(Err(failure)) => Some(Err(failure)),
        None => None,
    }
}

/// A volume: its sign and a number from 0 to 255.
pub open spec fn volume_token(s: Seq<char>) -> TokenView {
    match command(s, VOLUME, "volume"@, "a number from 0 to 255"@, 0, u8::MAX as nat) {
        Some(Ok(n)) => Some(Ok(AtomView::V(n as u8))),
        Some(Err(failure)) => Some(Err(failure)),
        None => None,
    }
}

/// A token of one character: its sign.
pub open spec fn sign_token(s: Seq<char>, sign: char, atom: AtomView) -> TokenView {
    if s.len() > 0 && s[0] == sign {
        Some(Ok(atom))
    } else {
        None
    }
}

/// A loop: a bracket, a repeat count from 1 to 65535 or none at all, which
/// stands for 2, then the body up to the bracket that closes the first
/// one.
pub open spec fn loop_token(s: Seq<char>, alphabet: Seq<char>) -> TokenView
    decreases s.len(), 0nat,
{
    if s.len() == 0 || s[0] != LOOP_IN {
        None
    } else {
        match closing(s, LOOP_IN, LOOP_OUT, 0, 1) {
            None => Some(
                Err(FailureView { kind: ErrorKindView::MismatchedOpening(LOOP_IN), at: 0 }),
            ),
            Some(m) => {
                let d = digits(s.subrange(1, m));
                let count = number(s.subrange(1, 1 + d as int));
                if d > 0 && (count < 1 || count > u16::MAX) {
                    Some(
                        Err(
                            FailureView {
                                kind: missing("loop"@, "a repeat count from 1 to 65535"@),
                                at: 1,
                            },
                        ),
                    )
                } else {
                    proof {
                        lemma_closing_bound(s, LOOP_IN, LOOP_OUT, 0, 1);
                        lemma_digits_bound(s.subrange(1, m));
                    }
                    match parse_text(s.subrange(1 + d as int, m), alphabet) {
                        Err(failure) => Some(Err(shifted(failure, 1 + d))),
                        Ok(body) => Some(
                            Ok(
                                AtomView::Loop(
                                    if d == 0 {
                                        DEFAULT_REPEAT
                                    } else {
                                        count as u16
                                    },
                                    body,
                                ),
                            ),
                        ),
                    }
                }
            },
        }
    }
}

/// A tuplet: a bracket and the body up to the bracket that closes it. The
/// body has to expand to one atom at least.
pub open spec fn tuplet_token(s: Seq<char>, alphabet: Seq<char>) -> TokenView
    decreases s.len(), 0nat,
{
    if s.len() == 0 || s[0] != TUP_IN {
        None
    } else {
        match closing(s, TUP_IN, TUP_OUT, 0, 1) {
            None => Some(
                Err(FailureView { kind: ErrorKindView::MismatchedOpening(TUP_IN), at: 0 }),
            ),
            Some(m) => {
                proof {
                    lemma_closing_bound(s, TUP_IN, TUP_OUT, 0, 1);
                }
                match parse_text(s.subrange(1, m), alphabet) {
                    Err(failure) => Some(Err(shifted(failure, 1))),
                    Ok(body) => if flatten(body).len() == 0 {
                        Some(
                            Err(
                                FailureView {
                                    kind: missing("tuplet"@, "at least one atom"@),
                                    at: 0,
                                },
                            ),
                        )
                    } else {
                        Some(Ok(AtomView::Tuplet(body)))
                    },
                }
            },
        }
    }
}

/// The atom that a text starts with. A character of the alphabet is a
/// note, whatever else it may mean; then come the commands, the rest, the
/// loop and the tuplet. A bracket that closes nothing, any other
/// character, and the end of the text are failures.
pub open spec fn parse_atom(s: Seq<char>, alphabet: Seq<char>) -> Result<AtomView, FailureView>
    decreases s.len(), 1nat,
{
    if s.len() == 0 {
        Err(FailureView { kind: missing("score"@, "an atom"@), at: 0 })
    } else if let Some(r) = note_token(s, alphabet) {
        r
    } else if let Some(r) = octave_token(s) {
        r
    } else if let Some(r) = length_token(s) {
        r
    } else if let Some(r) = volume_token(s) {
        r
    } else if let Some(r) = sign_token(s, REST, AtomView::Rest(1)) {
        r
    } else if let Some(r) = sign_token(s, OCTAVEINCR, AtomView::OIncr) {
        r
    } else if let Some(r) = sign_token(s, OCTAVEDECR, AtomView::ODecr) {
        r
    } else if let Some(r) = sign_token(s, LENGTHINCR, AtomView::LIncr) {
        r
    } else if let Some(r) = sign_token(s, LENGTHDECR, AtomView::LDecr) {
        r
    } else if let Some(r) = sign_token(s, VOLUMEINCR, AtomView::VIncr) {
        r
    } else if let Some(r) = sign_token(s, VOLUMEDECR, AtomView::VDecr) {
        r
    } else if let Some(r) = loop_token(s, alphabet) {
        r
    } else if let Some(r) = tuplet_token(s, alphabet) {
        r
    } else if s[0] == LOOP_OUT || s[0] == TUP_OUT {
        Err(FailureView { kind: ErrorKindView::MismatchedClosing(s[0]), at: 0 })
    } else {
        Err(FailureView { kind: ErrorKindView::Incomprehensible(s[0]), at: 0 })
    }
}

/// The atoms that a text is made of, in the order of the text, or the
/// first failure in it. Blanks before a token and at the end of the text
/// mean nothing.
pub open spec fn parse_text(s: Seq<char>, alphabet: Seq<char>) -> Result<Seq<AtomView>, FailureView>
    decreases s.len(), 2nat,
{
    let k = spaces(s);
    if k >= s.len() {
        Ok(Seq::empty())
    } else {
        let t = s.skip(k as int);
        let n = token_len(t, alphabet);
        proof {
            lemma_spaces_bound(s);
            lemma_token_len_bound(t, alphabet);
        }
        match parse_atom(t, alphabet) {
            Err(failure) => Err(shifted(failure, k)),
            Ok(atom) => match parse_text(t.skip(n as int), alphabet) {
                Err(failure) => Err(shifted(failure, k + n)),
                Ok(rest) => Ok(seq![atom] + rest),
            },
        }
    }
}

/// Where a character is found in the alphabet, it stands there, and not
/// before.
pub proof fn lemma_find_from(alphabet: Seq<char>, c: char, from: int)
    requires
        0 <= from,
    ensures
        match find_from(alphabet, c, from) {
            Some(i) => from <= i < alphabet.len() && alphabet[i] == c && forall|j: int|
                from <= j < i ==> alphabet[j] != c,
            None => forall|j: int| from <= j < alphabet.len() ==> alphabet[j] != c,
        },
    decreases alphabet.len() - from,
{
    if from < alphabet.len() && alphabet[from] != c {
        lemma_find_from(alphabet, c, from + 1);
    }
}

/// What an atom is parsed to is valid for the alphabet it was parsed with.
pub proof fn lemma_parse_atom_valid(s: Seq<char>, alphabet: Seq<char>)
    requires
        alphabet.len() <= u8::MAX,
    ensures
        parse_atom(s, alphabet) matches Ok(atom) ==> valid_atom(atom, alphabet.len() as u8),
    decreases s.len(), 0nat,
{
    if s.len() > 0 {
        lemma_find_from(alphabet, s[0], 0);
        if s[0] == LOOP_IN {
            lemma_closing_bound(s, LOOP_IN, LOOP_OUT, 0, 1);
            if let Some(m) = closing(s, LOOP_IN, LOOP_OUT, 0, 1) {
                lemma_digits_bound(s.subrange(1, m));
                let d = digits(s.subrange(1, m));
                lemma_parse_text_valid(s.subrange(1 + d as int, m), alphabet);
                if let Some(Ok(AtomView::Loop(r, body))) = loop_token(s, alphabet) {
                    lemma_valid_loop(r, body, alphabet.len() as u8);
                }
            }
        }
        if s[0] == TUP_IN {
            lemma_closing_bound(s, TUP_IN, TUP_OUT, 0, 1);
            if let Some(m) = closing(s, TUP_IN, TUP_OUT, 0, 1) {
                lemma_parse_text_valid(s.subrange(1, m), alphabet);
                if let Some(Ok(AtomView::Tuplet(body))) = tuplet_token(s, alphabet) {
                    lemma_valid_tuplet(body, alphabet.len() as u8);
                }
            }
        }
    }
}

/// What a text is parsed to is valid for the alphabet it was parsed with.
pub proof fn lemma_parse_text_valid(s: Seq<char>, alphabet: Seq<char>)
    requires
        alphabet.len() <= u8::MAX,
    ensures
        parse_text(s, alphabet) matches Ok(atoms) ==> valid_score(atoms, alphabet.len() as u8),
    decreases s.len(), 1nat,
{
    lemma_spaces_bound(s);
    let k = spaces(s);
    if k < s.len() {
        let t = s.skip(k as int);
        lemma_token_len_bound(t, alphabet);
        let n = token_len(t, alphabet);
        lemma_parse_atom_valid(t, alphabet);
        lemma_parse_text_valid(t.skip(n as int), alphabet);
    }
}

/// What parsing a score gives: its atoms, or the first failure in it with
/// the place of the character at which it is. A set of more than 255 notes
/// fails before anything is read, at line 0 and column 0, which are no
/// place in the score.
pub open spec fn parse_score(mask: Seq<char>, set: Seq<char>) -> Result<
    Seq<AtomView>,
    ParseErrorView,
> {
    if set.len() > u8::MAX {
        Err(
            ParseErrorView {
                kind: missing("note set"@, "no more than 255 notes"@),
                at: (0, 0),
            },
        )
    } else {
        match parse_text(mask, set) {
            Ok(atoms) => Ok(atoms),
            Err(failure) => Err(
                ParseErrorView { kind: failure.kind, at: place(mask, failure.at as int) },
            ),
        }
    }
}

} // verus!
