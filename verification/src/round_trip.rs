use crate::flatten::flatten;
use crate::grammar::{
    closing, command, digit_value, digits, find, is_digit, is_space, lemma_find_from, length_token,
    loop_token, note_token, number, octave_token, parse_atom, parse_score, parse_text, spaces,
    token_len, tuplet_token, FailureView, DEFAULT_REPEAT, LENGTH, LENGTHDECR, LENGTHINCR, LOOP_IN,
    LOOP_OUT, OCTAVE, OCTAVEDECR, OCTAVEINCR, REST, TUP_IN, TUP_OUT, VOLUME, VOLUMEDECR,
    VOLUMEINCR,
};
use crate::parsing_errors::{decimal, digit_char, ParseErrorView};
use crate::serialize::{render_atom, render_count, render_from, render_score};
use crate::structure::AtomView;
use vstd::prelude::*;

verus! {

/// The characters that the language keeps for itself.
pub open spec fn is_sign(c: char) -> bool {
    c == OCTAVE || c == LENGTH || c == VOLUME || c == REST || c == OCTAVEINCR || c == OCTAVEDECR
        || c == LENGTHINCR || c == LENGTHDECR || c == VOLUMEINCR || c == VOLUMEDECR || c == LOOP_IN
        || c == LOOP_OUT || c == TUP_IN || c == TUP_OUT
}

/// An alphabet whose characters mean nothing else: no blank, no digit, no
/// sign of the language, and no character twice.
pub open spec fn plain(alphabet: Seq<char>) -> bool {
    &&& forall|i: int|
        0 <= i < alphabet.len() ==> !is_space(#[trigger] alphabet[i]) && !is_digit(alphabet[i])
            && !is_sign(alphabet[i])
    &&& forall|i: int, j: int|
        0 <= i < j < alphabet.len() ==> #[trigger] alphabet[i] != #[trigger] alphabet[j]
}

/// An atom as it comes out of a text: a note of the set, numbers above
/// zero where they have to be, notes and rests of tuplet divisor 1, no
/// tie, and no tuplet that expands to nothing.
pub open spec fn legible(a: AtomView, set: nat) -> bool
    decreases a,
{
    match a {
        AtomView::O(n) => n > 0,
        AtomView::L(n) => n > 0,
        AtomView::N(n, tup) => n < set && tup == 1,
        AtomView::Rest(tup) => tup == 1,
        AtomView::More => false,
        AtomView::Loop(r, body) => r > 0 && forall|i: int|
            0 <= i < body.len() ==> legible(#[trigger] body[i], set),
        AtomView::Tuplet(body) => flatten(body).len() > 0 && forall|i: int|
            0 <= i < body.len() ==> legible(#[trigger] body[i], set),
        _ => true,
    }
}

/// Every atom of the score is legible.
pub open spec fn all_legible(score: Seq<AtomView>, set: nat) -> bool {
    forall|i: int| 0 <= i < score.len() ==> legible(#[trigger] score[i], set)
}

/// The text `x` stands in `t` at index `i`.
pub open spec fn has_at(t: Seq<char>, i: int, x: Seq<char>) -> bool {
    0 <= i && i + x.len() <= t.len() && t.subrange(i, i + x.len()) == x
}

/// One of the two pairs of brackets of the language.
pub open spec fn brackets(open: char, close: char) -> bool {
    (open == LOOP_IN && close == LOOP_OUT) || (open == TUP_IN && close == TUP_OUT)
}

proof fn lemma_has_at_split(t: Seq<char>, i: int, x: Seq<char>, y: Seq<char>)
    requires
        has_at(t, i, x + y),
    ensures
        has_at(t, i, x),
        has_at(t, i + x.len(), y),
{
    let whole = t.subrange(i, i + (x + y).len());
    assert(t.subrange(i, i + x.len()) =~= whole.subrange(0, x.len() as int));
    assert((x + y).subrange(0, x.len() as int) =~= x);
    assert(t.subrange(i + x.len(), i + x.len() + y.len()) =~= whole.subrange(
        x.len() as int,
        (x + y).len() as int,
    ));
    assert((x + y).subrange(x.len() as int, (x + y).len() as int) =~= y);
}

proof fn lemma_has_at_index(t: Seq<char>, i: int, x: Seq<char>, j: int)
    requires
        has_at(t, i, x),
        0 <= j < x.len(),
    ensures
        t[i + j] == x[j],
{
    assert(t.subrange(i, i + x.len())[j] == t[i + j]);
}

/// The text of a number is made of digits and reads as that number.
pub proof fn lemma_decimal(n: nat)
    ensures
        decimal(n).len() > 0,
        forall|i: int| 0 <= i < decimal(n).len() ==> is_digit(#[trigger] decimal(n)[i]),
        number(decimal(n)) == n,
    decreases n,
{
    if n < 10 {
        let s = decimal(n);
        assert(s.drop_last() =~= Seq::<char>::empty());
        assert(number(s.drop_last()) == 0);
        assert(s.last() == digit_char(n));
        assert(digit_value(digit_char(n)) == n);
    } else {
        lemma_decimal(n / 10);
        let s = decimal(n);
        assert(s.drop_last() =~= decimal(n / 10));
        assert(s.last() == digit_char(n % 10));
        assert(digit_value(digit_char(n % 10)) == n % 10);
        assert forall|i: int| 0 <= i < s.len() implies is_digit(#[trigger] s[i]) by {
            if i < s.len() - 1 {
                assert(s[i] == decimal(n / 10)[i]);
            }
        }
    }
}

/// The repeat count of a loop is written in digits, and reads as that
/// count where it is written at all.
proof fn lemma_count(r: u16)
    ensures
        forall|i: int| 0 <= i < render_count(r).len() ==> is_digit(#[trigger] render_count(r)[i]),
        r == DEFAULT_REPEAT ==> render_count(r).len() == 0,
        r != DEFAULT_REPEAT ==> render_count(r).len() > 0 && number(render_count(r)) == r,
{
    lemma_decimal(r as nat);
}

/// Digits that are followed by no digit are counted to their end.
proof fn lemma_digits_of_prefix(x: Seq<char>, rest: Seq<char>)
    requires
        forall|i: int| 0 <= i < x.len() ==> is_digit(#[trigger] x[i]),
        rest.len() == 0 || !is_digit(rest[0]),
    ensures
        digits(x + rest) == x.len(),
    decreases x.len(),
{
    if x.len() == 0 {
        assert(x + rest =~= rest);
    } else {
        assert((x + rest)[0] == x[0]);
        assert((x + rest).skip(1) =~= x.skip(1) + rest);
        assert forall|i: int| 0 <= i < x.skip(1).len() implies is_digit(
            #[trigger] x.skip(1)[i],
        ) by {
            assert(x.skip(1)[i] == x[i + 1]);
        }
        lemma_digits_of_prefix(x.skip(1), rest);
    }
}

/// Characters that are no bracket of the kind that is being counted
/// change nothing in the count.
pub proof fn lemma_closing_skips_plain(
    t: Seq<char>,
    i: int,
    n: nat,
    open: char,
    close: char,
    depth: nat,
)
    requires
        0 <= i,
        i + n <= t.len(),
        forall|j: int| i <= j < i + n ==> #[trigger] t[j] != open && t[j] != close,
    ensures
        closing(t, open, close, depth, i) == closing(t, open, close, depth, i + n),
    decreases n,
{
    if n > 0 {
        assert(t[i] != open && t[i] != close);
        lemma_closing_skips_plain(t, i + 1, (n - 1) as nat, open, close, depth);
    }
}

/// The first character of the text of a legible atom is no blank and no
/// digit.
proof fn lemma_render_first(a: AtomView, alphabet: Seq<char>)
    requires
        plain(alphabet),
        legible(a, alphabet.len()),
    ensures
        render_atom(a, alphabet).len() > 0,
        !is_space(render_atom(a, alphabet)[0]),
        !is_digit(render_atom(a, alphabet)[0]),
{
    match a {
        AtomView::N(n, _) => {
            assert(!is_space(alphabet[n as int]));
        },
        _ => {},
    }
}

/// A text that can follow a number: it does not go on with a digit.
pub open spec fn ends_number(rest: Seq<char>) -> bool {
    rest.len() == 0 || !is_digit(rest[0])
}

proof fn lemma_render_from_first(score: Seq<AtomView>, k: nat, alphabet: Seq<char>)
    requires
        plain(alphabet),
        all_legible(score, alphabet.len()),
    ensures
        ends_number(render_from(score, k, alphabet)),
        render_from(score, k, alphabet).len() > 0 ==> !is_space(render_from(score, k, alphabet)[0]),
        k < score.len() ==> render_from(score, k, alphabet).len() > 0,
{
    if k < score.len() {
        lemma_render_first(score[k as int], alphabet);
    }
}

/// Counting brackets over the text of an atom ends where it began: every
/// bracket that the text opens, it closes.
proof fn lemma_closing_skips_atom(
    t: Seq<char>,
    i: int,
    a: AtomView,
    alphabet: Seq<char>,
    open: char,
    close: char,
    depth: nat,
)
    requires
        brackets(open, close),
        plain(alphabet),
        legible(a, alphabet.len()),
        has_at(t, i, render_atom(a, alphabet)),
    ensures
        closing(t, open, close, depth, i) == closing(
            t,
            open,
            close,
            depth,
            i + render_atom(a, alphabet).len(),
        ),
    decreases a, 0nat,
{
    let x = render_atom(a, alphabet);
    match a {
        AtomView::Loop(r, body) => {
            let dec = render_count(r);
            let inner = render_from(body, 0, alphabet);
            let head = seq![LOOP_IN] + dec;
            lemma_count(r);
            assert(x == head + inner.push(LOOP_OUT));
            lemma_has_at_split(t, i, head, inner.push(LOOP_OUT));
            lemma_has_at_split(t, i, seq![LOOP_IN], dec);
            assert(inner.push(LOOP_OUT) =~= inner + seq![LOOP_OUT]);
            lemma_has_at_split(t, i + head.len(), inner, seq![LOOP_OUT]);
            lemma_has_at_index(t, i, seq![LOOP_IN], 0);
            let m = i + head.len() + inner.len();
            lemma_has_at_index(t, m, seq![LOOP_OUT], 0);
            assert(t[i] == LOOP_IN);
            assert(t[m] == LOOP_OUT);
            assert forall|j: int| i + 1 <= j < i + 1 + dec.len() implies #[trigger] t[j] != open
                && t[j] != close by {
                lemma_has_at_index(t, i + 1, dec, j - i - 1);
                assert(is_digit(dec[j - i - 1]));
            }
            let inside = if open == LOOP_IN {
                depth + 1
            } else {
                depth
            };
            lemma_closing_skips_plain(t, i + 1, dec.len(), open, close, inside);
            lemma_closing_skips_from(t, i + head.len(), body, 0, alphabet, open, close, inside);
        },
        AtomView::Tuplet(body) => {
            let inner = render_from(body, 0, alphabet);
            assert(x == seq![TUP_IN] + inner.push(TUP_OUT));
            lemma_has_at_split(t, i, seq![TUP_IN], inner.push(TUP_OUT));
            assert(inner.push(TUP_OUT) =~= inner + seq![TUP_OUT]);
            lemma_has_at_split(t, i + 1, inner, seq![TUP_OUT]);
            lemma_has_at_index(t, i, seq![TUP_IN], 0);
            let m = i + 1 + inner.len();
            lemma_has_at_index(t, m, seq![TUP_OUT], 0);
            assert(t[i] == TUP_IN);
            assert(t[m] == TUP_OUT);
            let inside = if open == TUP_IN {
                depth + 1
            } else {
                depth
            };
            lemma_closing_skips_from(t, i + 1, body, 0, alphabet, open, close, inside);
        },
        AtomView::O(n) => {
            lemma_decimal(n as nat);
            lemma_token_plain(t, i, OCTAVE, decimal(n as nat), open, close);
            lemma_closing_skips_plain(t, i, x.len(), open, close, depth);
        },
        AtomView::L(n) => {
            lemma_decimal(n as nat);
            lemma_token_plain(t, i, LENGTH, decimal(n as nat), open, close);
            lemma_closing_skips_plain(t, i, x.len(), open, close, depth);
        },
        AtomView::V(n) => {
            lemma_decimal(n as nat);
            lemma_token_plain(t, i, VOLUME, decimal(n as nat), open, close);
            lemma_closing_skips_plain(t, i, x.len(), open, close, depth);
        },
        AtomView::N(n, _) => {
            lemma_has_at_index(t, i, x, 0);
            assert(!is_sign(alphabet[n as int]));
            lemma_closing_skips_plain(t, i, 1, open, close, depth);
        },
        _ => {
            lemma_has_at_index(t, i, x, 0);
            lemma_closing_skips_plain(t, i, 1, open, close, depth);
        },
    }
}

/// A sign that is no bracket, followed by digits, holds no bracket.
proof fn lemma_token_plain(
    t: Seq<char>,
    i: int,
    sign: char,
    dec: Seq<char>,
    open: char,
    close: char,
)
    requires
        brackets(open, close),
        sign == OCTAVE || sign == LENGTH || sign == VOLUME,
        forall|j: int| 0 <= j < dec.len() ==> is_digit(#[trigger] dec[j]),
        has_at(t, i, seq![sign] + dec),
    ensures
        forall|j: int| i <= j < i + 1 + dec.len() ==> #[trigger] t[j] != open && t[j] != close,
{
    let x = seq![sign] + dec;
    assert forall|j: int| i <= j < i + 1 + dec.len() implies #[trigger] t[j] != open && t[j]
        != close by {
        lemma_has_at_index(t, i, x, j - i);
        if j > i {
            assert(x[j - i] == dec[j - i - 1]);
            assert(is_digit(dec[j - i - 1]));
        }
    }
}

/// Counting brackets over the text of a score ends where it began.
proof fn lemma_closing_skips_from(
    t: Seq<char>,
    i: int,
    score: Seq<AtomView>,
    k: nat,
    alphabet: Seq<char>,
    open: char,
    close: char,
    depth: nat,
)
    requires
        brackets(open, close),
        plain(alphabet),
        all_legible(score, alphabet.len()),
        has_at(t, i, render_from(score, k, alphabet)),
    ensures
        closing(t, open, close, depth, i) == closing(
            t,
            open,
            close,
            depth,
            i + render_from(score, k, alphabet).len(),
        ),
    decreases score, score.len() - k,
{
    if k < score.len() {
        let first = render_atom(score[k as int], alphabet);
        let rest = render_from(score, k + 1, alphabet);
        lemma_has_at_split(t, i, first, rest);
        lemma_closing_skips_atom(t, i, score[k as int], alphabet, open, close, depth);
        lemma_closing_skips_from(t, i + first.len(), score, k + 1, alphabet, open, close, depth);
    }
}

/// A character that is not in a plain alphabet stands for no note, and a
/// character of the alphabet stands for the note at its place.
proof fn lemma_find_plain(alphabet: Seq<char>, c: char)
    requires
        plain(alphabet),
    ensures
        (is_sign(c) || is_digit(c) || is_space(c)) ==> find(alphabet, c) is None,
        forall|i: int| 0 <= i < alphabet.len() && alphabet[i] == c ==> find(alphabet, c) == Some(i),
{
    lemma_find_from(alphabet, c, 0);
    assert forall|i: int| 0 <= i < alphabet.len() && alphabet[i] == c implies find(alphabet, c)
        == Some(i) by {
        let j = find(alphabet, c)->0;
        if j < i {
            assert(alphabet[j] != alphabet[i]);
        }
    }
}

/// What a command made of a sign and a number reads as, when it is
/// followed by no digit.
proof fn lemma_command_rendered(
    sign: char,
    n: nat,
    rest: Seq<char>,
    what: Seq<char>,
    needs: Seq<char>,
    least: nat,
    most: nat,
)
    requires
        ends_number(rest),
        least <= n <= most,
    ensures
        command((seq![sign] + decimal(n)) + rest, sign, what, needs, least, most) == Some(
            Ok::<nat, FailureView>(n),
        ),
        digits(((seq![sign] + decimal(n)) + rest).skip(1)) == decimal(n).len(),
{
    let dec = decimal(n);
    let t = (seq![sign] + dec) + rest;
    lemma_decimal(n);
    assert(t.skip(1) =~= dec + rest);
    lemma_digits_of_prefix(dec, rest);
    assert(t.subrange(1, 1 + dec.len() as int) =~= dec);
    assert(t[0] == sign);
}

/// The text of a legible atom, whatever follows it, reads as that atom,
/// and its token ends where the text of the atom ends.
proof fn lemma_atom_round_trip(a: AtomView, rest: Seq<char>, alphabet: Seq<char>)
    requires
        alphabet.len() <= u8::MAX,
        plain(alphabet),
        legible(a, alphabet.len()),
        ends_number(rest),
    ensures
        parse_atom(render_atom(a, alphabet) + rest, alphabet) == Ok::<AtomView, FailureView>(a),
        token_len(render_atom(a, alphabet) + rest, alphabet) == render_atom(a, alphabet).len(),
    decreases a, 0nat,
{
    let x = render_atom(a, alphabet);
    let t = x + rest;
    lemma_render_first(a, alphabet);
    assert(t[0] == x[0]);
    lemma_find_plain(alphabet, t[0]);
    match a {
        AtomView::O(n) => {
            lemma_command_rendered(
                OCTAVE,
                n as nat,
                rest,
                "octave"@,
                "a number from 1 to 255"@,
                1,
                u8::MAX as nat,
            );
        },
        AtomView::L(n) => {
            lemma_command_rendered(
                LENGTH,
                n as nat,
                rest,
                "length"@,
                "a number from 1 to 255"@,
                1,
                u8::MAX as nat,
            );
            assert(octave_token(t) is None);
        },
        AtomView::V(n) => {
            lemma_command_rendered(
                VOLUME,
                n as nat,
                rest,
                "volume"@,
                "a number from 0 to 255"@,
                0,
                u8::MAX as nat,
            );
            assert(octave_token(t) is None);
            assert(length_token(t) is None);
        },
        AtomView::N(n, tup) => {
            assert(find(alphabet, t[0]) == Some(n as int));
        },
        AtomView::Loop(r, body) => {
            let dec = render_count(r);
            let inner = render_from(body, 0, alphabet);
            let head = seq![LOOP_IN] + dec;
            lemma_count(r);
            assert(x == head + inner.push(LOOP_OUT));
            let m = head.len() + inner.len();
            assert(has_at(t, 0, x)) by {
                assert(t.subrange(0, x.len() as int) =~= x);
            }
            lemma_has_at_split(t, 0, head, inner.push(LOOP_OUT));
            lemma_has_at_split(t, 0, seq![LOOP_IN], dec);
            assert(inner.push(LOOP_OUT) =~= inner + seq![LOOP_OUT]);
            lemma_has_at_split(t, head.len() as int, inner, seq![LOOP_OUT]);
            lemma_has_at_index(t, m as int, seq![LOOP_OUT], 0);
            assert(t[m as int] == LOOP_OUT);
            assert forall|j: int| 1 <= j < 1 + dec.len() implies #[trigger] t[j] != LOOP_IN && t[j]
                != LOOP_OUT by {
                lemma_has_at_index(t, 1, dec, j - 1);
                assert(is_digit(dec[j - 1]));
            }
            lemma_closing_skips_plain(t, 1, dec.len(), LOOP_IN, LOOP_OUT, 0);
            lemma_closing_skips_from(
                t,
                head.len() as int,
                body,
                0,
                alphabet,
                LOOP_IN,
                LOOP_OUT,
                0,
            );
            assert(closing(t, LOOP_IN, LOOP_OUT, 0, 1) == Some(m as int));
            lemma_render_from_first(body, 0, alphabet);
            assert(t.subrange(1, m as int) =~= dec + inner);
            lemma_digits_of_prefix(dec, inner);
            assert(t.subrange(1, 1 + dec.len() as int) =~= dec);
            assert(t.subrange(1 + dec.len() as int, m as int) =~= inner);
            lemma_score_round_trip(body, 0, alphabet);
            assert(body.skip(0) =~= body);
            assert(note_token(t, alphabet) is None);
            assert(loop_token(t, alphabet) == Some(Ok::<AtomView, FailureView>(a)));
        },
        AtomView::Tuplet(body) => {
            let inner = render_from(body, 0, alphabet);
            assert(x == seq![TUP_IN] + inner.push(TUP_OUT));
            let m = 1 + inner.len();
            assert(has_at(t, 0, x)) by {
                assert(t.subrange(0, x.len() as int) =~= x);
            }
            lemma_has_at_split(t, 0, seq![TUP_IN], inner.push(TUP_OUT));
            assert(inner.push(TUP_OUT) =~= inner + seq![TUP_OUT]);
            lemma_has_at_split(t, 1, inner, seq![TUP_OUT]);
            lemma_has_at_index(t, m as int, seq![TUP_OUT], 0);
            assert(t[m as int] == TUP_OUT);
            lemma_closing_skips_from(t, 1, body, 0, alphabet, TUP_IN, TUP_OUT, 0);
            assert(closing(t, TUP_IN, TUP_OUT, 0, 1) == Some(m as int));
            assert(t.subrange(1, m as int) =~= inner);
            lemma_score_round_trip(body, 0, alphabet);
            assert(body.skip(0) =~= body);
            assert(note_token(t, alphabet) is None);
            assert(loop_token(t, alphabet) is None);
            assert(tuplet_token(t, alphabet) == Some(Ok::<AtomView, FailureView>(a)));
        },
        _ => {},
    }
}

/// The text of a legible score from place `k` on reads as the atoms of
/// the score from that place on.
proof fn lemma_score_round_trip(score: Seq<AtomView>, k: nat, alphabet: Seq<char>)
    requires
        alphabet.len() <= u8::MAX,
        plain(alphabet),
        all_legible(score, alphabet.len()),
        k <= score.len(),
    ensures
        parse_text(render_from(score, k, alphabet), alphabet) == Ok::<Seq<AtomView>, FailureView>(
            score.skip(k as int),
        ),
    decreases score, score.len() - k,
{
    let t = render_from(score, k, alphabet);
    if k >= score.len() {
        assert(score.skip(k as int) =~= Seq::<AtomView>::empty());
    } else {
        let a = score[k as int];
        let x = render_atom(a, alphabet);
        let rest = render_from(score, k + 1, alphabet);
        lemma_render_first(a, alphabet);
        lemma_render_from_first(score, k + 1, alphabet);
        lemma_atom_round_trip(a, rest, alphabet);
        lemma_score_round_trip(score, k + 1, alphabet);
        assert(t == x + rest);
        assert(t[0] == x[0]);
        assert(spaces(t) == 0);
        assert(t.skip(0) =~= t);
        assert(t.skip(x.len() as int) =~= rest);
        assert(seq![a] + score.skip(k + 1 as int) =~= score.skip(k as int));
    }
}

/// Parser round trip: a score that is written down and read again is the
/// same score. This holds of every score whose atoms are as a text can
/// give them (the notes of the alphabet, numbers above zero where they
/// have to be, notes and rests of tuplet divisor 1, no tie and no tuplet
/// that expands to nothing), written with an alphabet of at most 255
/// characters that mean nothing else in the language.
pub proof fn lemma_round_trip(score: Seq<AtomView>, alphabet: Seq<char>)
    requires
        alphabet.len() <= u8::MAX,
        plain(alphabet),
        all_legible(score, alphabet.len()),
    ensures
        parse_text(render_score(score, alphabet), alphabet) == Ok::<Seq<AtomView>, FailureView>(
            score,
        ),
        parse_score(render_score(score, alphabet), alphabet) == Ok::<
            Seq<AtomView>,
            ParseErrorView,
        >(score),
{
    lemma_score_round_trip(score, 0, alphabet);
    assert(score.skip(0) =~= score);
}

} // verus!
