use crate::flatten::flatten;
use crate::grammar::{
    closing, command, digits, find, is_digit, is_space, lemma_closing_bound, lemma_digits_bound,
    lemma_spaces_bound, lemma_token_len_bound, length_token, loop_token, note_token, number,
    octave_token, parse_atom, parse_text, shifted, sign_token, spaces, token_len, tuplet_token,
    volume_token, FailureView, LENGTH, LOOP_IN, LOOP_OUT, OCTAVE, TUP_IN, TUP_OUT, VOLUME,
};
use crate::parsing::{lemma_failure_bound, lemma_text_failure_bound};
use crate::round_trip::lemma_closing_skips_plain;
use crate::structure::AtomView;
use vstd::prelude::*;

verus! {

/// A text of blanks.
pub open spec fn all_blank(ws: Seq<char>) -> bool {
    forall|i: int| 0 <= i < ws.len() ==> is_space(#[trigger] ws[i])
}

/// The text `s` with `ws` put in at index `p`.
pub open spec fn inserted(s: Seq<char>, p: int, ws: Seq<char>) -> Seq<char> {
    s.take(p) + ws + s.skip(p)
}

/// What a result becomes when `w` characters are put into its text at
/// index `p`: what was read stays, and a failure at or after `p` lies `w`
/// characters further on.
pub open spec fn moved<T>(r: Result<T, FailureView>, p: int, w: nat) -> Result<T, FailureView> {
    match r {
        Ok(v) => Ok(v),
        Err(failure) => Err(
            if failure.at >= p {
                shifted(failure, w)
            } else {
                failure
            },
        ),
    }
}

/// A place between two tokens of a text, before its first token or after
/// its last one: among the blanks that a token follows, or such a place
/// in what follows the token, or in the body of the token if it is a loop
/// or a tuplet.
pub open spec fn gap(s: Seq<char>, alphabet: Seq<char>, p: int) -> bool
    decreases s.len(), 2nat,
{
    let k = spaces(s);
    if p <= k {
        0 <= p
    } else if k >= s.len() {
        false
    } else {
        let t = s.skip(k as int);
        let n = token_len(t, alphabet);
        proof {
            lemma_spaces_bound(s);
            lemma_token_len_bound(t, alphabet);
        }
        if p - k >= n {
            gap(t.skip(n as int), alphabet, p - k - n)
        } else {
            gap_in_token(t, alphabet, p - k)
        }
    }
}

/// A place between two tokens inside the body of the loop or the tuplet
/// that a text starts with. The repeat count of a loop belongs to its
/// bracket: the body starts after it.
pub open spec fn gap_in_token(t: Seq<char>, alphabet: Seq<char>, q: int) -> bool
    decreases t.len(), 1nat,
{
    if t.len() == 0 || find(alphabet, t[0]) is Some {
        false
    } else if t[0] == LOOP_IN {
        match closing(t, LOOP_IN, LOOP_OUT, 0, 1) {
            None => false,
            Some(m) => {
                let d = digits(t.subrange(1, m));
                proof {
                    lemma_closing_bound(t, LOOP_IN, LOOP_OUT, 0, 1);
                    lemma_digits_bound(t.subrange(1, m));
                }
                1 + d <= q <= m && gap(t.subrange(1 + d as int, m), alphabet, q - 1 - d)
            },
        }
    } else if t[0] == TUP_IN {
        match closing(t, TUP_IN, TUP_OUT, 0, 1) {
            None => false,
            Some(m) => {
                proof {
                    lemma_closing_bound(t, TUP_IN, TUP_OUT, 0, 1);
                }
                1 <= q <= m && gap(t.subrange(1, m), alphabet, q - 1)
            },
        }
    } else {
        false
    }
}

/// A text starts with exactly `k` blanks where its first `k` characters
/// are blanks and the next one, if there is one, is not.
proof fn lemma_spaces_is(x: Seq<char>, k: nat)
    requires
        k <= x.len(),
        forall|i: int| 0 <= i < k ==> is_space(#[trigger] x[i]),
        k < x.len() ==> !is_space(x[k as int]),
    ensures
        spaces(x) == k,
    decreases k,
{
    if k > 0 {
        assert(is_space(x[0]));
        let y = x.skip(1);
        assert forall|i: int| 0 <= i < k - 1 implies is_space(#[trigger] y[i]) by {
            assert(y[i] == x[i + 1]);
        }
        if k - 1 < y.len() {
            assert(y[k - 1] == x[k as int]);
        }
        lemma_spaces_is(y, (k - 1) as nat);
    }
}

/// A text starts with exactly `d` digits where its first `d` characters
/// are digits and the next one, if there is one, is not.
proof fn lemma_digits_is(x: Seq<char>, d: nat)
    requires
        d <= x.len(),
        forall|i: int| 0 <= i < d ==> is_digit(#[trigger] x[i]),
        d < x.len() ==> !is_digit(x[d as int]),
    ensures
        digits(x) == d,
    decreases d,
{
    if d > 0 {
        assert(is_digit(x[0]));
        let y = x.skip(1);
        assert forall|i: int| 0 <= i < d - 1 implies is_digit(#[trigger] y[i]) by {
            assert(y[i] == x[i + 1]);
        }
        if d - 1 < y.len() {
            assert(y[d - 1] == x[d as int]);
        }
        lemma_digits_is(y, (d - 1) as nat);
    }
}

/// Where two texts end alike, their brackets close alike.
proof fn lemma_closing_shift(
    a: Seq<char>,
    b: Seq<char>,
    i: int,
    j: int,
    open: char,
    close: char,
    depth: nat,
)
    requires
        0 <= i <= a.len(),
        0 <= j <= b.len(),
        a.skip(i) == b.skip(j),
    ensures
        closing(a, open, close, depth, i) == match closing(b, open, close, depth, j) {
            Some(m) => Some(m + i - j),
            None => None,
        },
    decreases a.len() - i,
{
    assert(a.skip(i).len() == a.len() - i);
    assert(b.skip(j).len() == b.len() - j);
    if i < a.len() {
        assert(a[i] == a.skip(i)[0]);
        assert(b[j] == b.skip(j)[0]);
        assert(a.skip(i + 1) =~= a.skip(i).skip(1));
        assert(b.skip(j + 1) =~= b.skip(j).skip(1));
        if a[i] == open {
            lemma_closing_shift(a, b, i + 1, j + 1, open, close, depth + 1);
        } else if a[i] == close {
            if depth > 0 {
                lemma_closing_shift(a, b, i + 1, j + 1, open, close, (depth - 1) as nat);
            }
        } else {
            lemma_closing_shift(a, b, i + 1, j + 1, open, close, depth);
        }
    }
}

/// Blanks that are put into a text move the bracket that closes another
/// if they stand before it, and change nothing else about it.
proof fn lemma_closing_insert(
    s: Seq<char>,
    ws: Seq<char>,
    p: int,
    open: char,
    close: char,
    depth: nat,
    from: int,
)
    requires
        0 <= from <= p <= s.len(),
        forall|i: int| 0 <= i < ws.len() ==> #[trigger] ws[i] != open && ws[i] != close,
    ensures
        closing(inserted(s, p, ws), open, close, depth, from) == match closing(
            s,
            open,
            close,
            depth,
            from,
        ) {
            Some(m) => Some(
                if m < p {
                    m
                } else {
                    m + ws.len()
                },
            ),
            None => None,
        },
    decreases p - from,
{
    let s2 = inserted(s, p, ws);
    let w = ws.len() as int;
    if from == p {
        assert forall|j: int| p <= j < p + w implies #[trigger] s2[j] != open && s2[j] != close by {
            assert(s2[j] == ws[j - p]);
        }
        lemma_closing_skips_plain(s2, p, ws.len(), open, close, depth);
        assert(s2.skip(p + w) =~= s.skip(p));
        lemma_closing_shift(s2, s, p + w, p, open, close, depth);
        lemma_closing_bound(s, open, close, depth, p);
    } else {
        assert(s2[from] == s[from]);
        if s[from] == open {
            lemma_closing_insert(s, ws, p, open, close, depth + 1, from + 1);
        } else if s[from] == close {
            if depth > 0 {
                lemma_closing_insert(s, ws, p, open, close, (depth - 1) as nat, from + 1);
            }
        } else {
            lemma_closing_insert(s, ws, p, open, close, depth, from + 1);
        }
    }
}

/// A failure in a token lies inside the token.
proof fn lemma_atom_failure_inside(t: Seq<char>, alphabet: Seq<char>)
    requires
        t.len() > 0,
    ensures
        parse_atom(t, alphabet) matches Err(failure) ==> failure.at < token_len(t, alphabet),
{
    lemma_token_len_bound(t, alphabet);
    if find(alphabet, t[0]) is None {
        if t[0] == LOOP_IN {
            lemma_closing_bound(t, LOOP_IN, LOOP_OUT, 0, 1);
            if let Some(m) = closing(t, LOOP_IN, LOOP_OUT, 0, 1) {
                lemma_digits_bound(t.subrange(1, m));
                let d = digits(t.subrange(1, m));
                lemma_text_failure_bound(t.subrange(1 + d as int, m), alphabet);
            }
        } else if t[0] == TUP_IN {
            lemma_closing_bound(t, TUP_IN, TUP_OUT, 0, 1);
            if let Some(m) = closing(t, TUP_IN, TUP_OUT, 0, 1) {
                lemma_text_failure_bound(t.subrange(1, m), alphabet);
            }
        }
    }
}

/// Blanks that follow a number leave it as it is.
proof fn lemma_digits_insert(x: Seq<char>, r: int, ws: Seq<char>)
    requires
        all_blank(ws),
        digits(x) <= r <= x.len(),
    ensures
        digits(inserted(x, r, ws)) == digits(x),
{
    let d = digits(x);
    let x2 = inserted(x, r, ws);
    lemma_digits_bound(x);
    assert forall|i: int| 0 <= i < d implies is_digit(#[trigger] x2[i]) by {
        assert(x2[i] == x[i]);
    }
    if d < x2.len() {
        if d < r {
            assert(x2[d as int] == x[d as int]);
        } else if ws.len() > 0 {
            assert(x2[d as int] == ws[0]);
            assert(is_space(ws[0]));
        } else {
            assert(x2[d as int] == x[d as int]);
        }
    }
    lemma_digits_is(x2, d);
}

/// Blanks that are put in after a token leave the token as it is.
proof fn lemma_token_unmoved(t: Seq<char>, q: int, ws: Seq<char>, alphabet: Seq<char>)
    requires
        t.len() > 0,
        all_blank(ws),
        token_len(t, alphabet) <= q <= t.len(),
    ensures
        parse_atom(inserted(t, q, ws), alphabet) == parse_atom(t, alphabet),
        token_len(inserted(t, q, ws), alphabet) == token_len(t, alphabet),
{
    let t2 = inserted(t, q, ws);
    let n = token_len(t, alphabet);
    lemma_token_len_bound(t, alphabet);
    assert(t2[0] == t[0]);
    let c = t[0];
    if find(alphabet, c) is Some {
    } else if c == OCTAVE || c == LENGTH || c == VOLUME {
        let d = digits(t.skip(1));
        assert(t2.skip(1) =~= inserted(t.skip(1), q - 1, ws));
        lemma_digits_insert(t.skip(1), q - 1, ws);
        lemma_digits_bound(t.skip(1));
        assert(t2.subrange(1, 1 + d as int) =~= t.subrange(1, 1 + d as int));
    } else if c == LOOP_IN {
        lemma_closing_insert(t, ws, q, LOOP_IN, LOOP_OUT, 0, 1);
        lemma_closing_bound(t, LOOP_IN, LOOP_OUT, 0, 1);
        if let Some(m) = closing(t, LOOP_IN, LOOP_OUT, 0, 1) {
            assert(t2.subrange(1, m) =~= t.subrange(1, m));
            let d = digits(t.subrange(1, m));
            lemma_digits_bound(t.subrange(1, m));
            assert(t2.subrange(1, 1 + d as int) =~= t.subrange(1, 1 + d as int));
            assert(t2.subrange(1 + d as int, m) =~= t.subrange(1 + d as int, m));
        }
    } else if c == TUP_IN {
        lemma_closing_insert(t, ws, q, TUP_IN, TUP_OUT, 0, 1);
        lemma_closing_bound(t, TUP_IN, TUP_OUT, 0, 1);
        if let Some(m) = closing(t, TUP_IN, TUP_OUT, 0, 1) {
            assert(t2.subrange(1, m) =~= t.subrange(1, m));
        }
    } else {
    }
}

/// Blanks that are put in between two tokens of the body of a loop or a
/// tuplet make the token longer and change nothing else about it.
proof fn lemma_token_moved(t: Seq<char>, q: int, ws: Seq<char>, alphabet: Seq<char>)
    requires
        all_blank(ws),
        gap_in_token(t, alphabet, q),
    ensures
        parse_atom(inserted(t, q, ws), alphabet) == moved(parse_atom(t, alphabet), q, ws.len()),
        token_len(inserted(t, q, ws), alphabet) == token_len(t, alphabet) + ws.len(),
    decreases t.len(), 1nat,
{
    let t2 = inserted(t, q, ws);
    let w = ws.len();
    if t[0] == LOOP_IN {
        lemma_closing_bound(t, LOOP_IN, LOOP_OUT, 0, 1);
        let m = closing(t, LOOP_IN, LOOP_OUT, 0, 1)->0;
        let head = t.subrange(1, m);
        let d = digits(head);
        lemma_digits_bound(head);
        assert(1 + d <= q <= m < t.len());
        assert(t2[0] == t[0]);
        lemma_closing_insert(t, ws, q, LOOP_IN, LOOP_OUT, 0, 1);
        assert(closing(t2, LOOP_IN, LOOP_OUT, 0, 1) == Some(m + w));
        assert(t2.subrange(1, m + w) =~= inserted(head, q - 1, ws));
        lemma_digits_insert(head, q - 1, ws);
        assert(t2.subrange(1, 1 + d as int) =~= t.subrange(1, 1 + d as int));
        let body = t.subrange(1 + d as int, m);
        assert(t2.subrange(1 + d as int, m + w) =~= inserted(body, q - 1 - d, ws));
        lemma_blanks(body, q - 1 - d, ws, alphabet);
    } else {
        lemma_closing_bound(t, TUP_IN, TUP_OUT, 0, 1);
        let m = closing(t, TUP_IN, TUP_OUT, 0, 1)->0;
        assert(1 <= q <= m < t.len());
        assert(t2[0] == t[0]);
        lemma_closing_insert(t, ws, q, TUP_IN, TUP_OUT, 0, 1);
        assert(closing(t2, TUP_IN, TUP_OUT, 0, 1) == Some(m + w));
        let body = t.subrange(1, m);
        assert(t2.subrange(1, m + w) =~= inserted(body, q - 1, ws));
        lemma_blanks(body, q - 1, ws, alphabet);
    }
}

/// Whitespace is insignificant: blanks that are put in between two tokens
/// of a text, before its first token or after its last one, at any depth
/// of its loops and tuplets, change nothing in what the text reads as. A
/// failure that lies at or after the blanks lies as many characters
/// further on as there are blanks.
pub proof fn lemma_blanks(s: Seq<char>, p: int, ws: Seq<char>, alphabet: Seq<char>)
    requires
        all_blank(ws),
        gap(s, alphabet, p),
    ensures
        parse_text(inserted(s, p, ws), alphabet) == moved(parse_text(s, alphabet), p, ws.len()),
    decreases s.len(), 2nat,
{
    let s2 = inserted(s, p, ws);
    let w = ws.len();
    let k = spaces(s);
    lemma_spaces_bound(s);
    lemma_gap_bound(s, alphabet, p);
    if p <= k {
        assert forall|i: int| 0 <= i < k + w implies is_space(#[trigger] s2[i]) by {
            if i < p {
                assert(s2[i] == s[i]);
            } else if i < p + w {
                assert(s2[i] == ws[i - p]);
            } else {
                assert(s2[i] == s[i - w]);
            }
        }
        if k < s.len() {
            assert(s2[(k + w) as int] == s[k as int]);
        }
        lemma_spaces_is(s2, k + w);
        if k < s.len() {
            assert(s2.skip((k + w) as int) =~= s.skip(k as int));
        }
    } else {
        let t = s.skip(k as int);
        let n = token_len(t, alphabet);
        let q = p - k;
        lemma_token_len_bound(t, alphabet);
        assert forall|i: int| 0 <= i < k implies is_space(#[trigger] s2[i]) by {
            assert(s2[i] == s[i]);
        }
        assert(s2[k as int] == s[k as int]);
        lemma_spaces_is(s2, k);
        let t2 = s2.skip(k as int);
        assert(t2 =~= inserted(t, q, ws));
        if q >= n {
            lemma_gap_bound(t.skip(n as int), alphabet, q - n);
            lemma_token_unmoved(t, q, ws, alphabet);
            lemma_atom_failure_inside(t, alphabet);
            assert(t2.skip(n as int) =~= inserted(t.skip(n as int), q - n, ws));
            lemma_blanks(t.skip(n as int), q - n, ws, alphabet);
        } else {
            lemma_token_moved(t, q, ws, alphabet);
            assert(t2.skip((n + w) as int) =~= t.skip(n as int));
        }
    }
}

/// A place between tokens lies in the text or at its end.
proof fn lemma_gap_bound(s: Seq<char>, alphabet: Seq<char>, p: int)
    requires
        gap(s, alphabet, p),
    ensures
        0 <= p <= s.len(),
    decreases s.len(),
{
    let k = spaces(s);
    lemma_spaces_bound(s);
    if p > k && k < s.len() {
        let t = s.skip(k as int);
        let n = token_len(t, alphabet);
        lemma_token_len_bound(t, alphabet);
        if p - k >= n {
            lemma_gap_bound(t.skip(n as int), alphabet, p - k - n);
        } else {
            lemma_closing_bound(t, LOOP_IN, LOOP_OUT, 0, 1);
            lemma_closing_bound(t, TUP_IN, TUP_OUT, 0, 1);
        }
    }
}

} // verus!
