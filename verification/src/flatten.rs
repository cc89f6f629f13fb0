use crate::structure::AtomView;
use vstd::prelude::*;

verus! {

/// An atom that is neither a loop nor a tuplet.
pub open spec fn is_primitive(a: AtomView) -> bool {
    !(a is Loop) && !(a is Tuplet)
}

/// Every atom of the sequence is primitive.
pub open spec fn all_primitive(s: Seq<AtomView>) -> bool {
    forall|i: int| 0 <= i < s.len() ==> is_primitive(#[trigger] s[i])
}

/// `s` written `n` times in a row.
pub open spec fn repeat(s: Seq<AtomView>, n: nat) -> Seq<AtomView>
    decreases n,
{
    if n == 0 {
        Seq::empty()
    } else {
        repeat(s, (n - 1) as nat) + s
    }
}

/// A tuplet divisor multiplied by the size of the tuplet around it; the
/// product stops at the largest divisor the machine can hold.
pub open spec fn scale_tup(tup: usize, k: nat) -> usize {
    if tup * k > usize::MAX {
        usize::MAX
    } else {
        (tup * k) as usize
    }
}

/// The atom as it sounds inside a tuplet of `k` atoms: notes and rests get
/// `k` times their divisor, commands are left alone.
pub open spec fn squeeze(a: AtomView, k: nat) -> AtomView {
    match a {
        AtomView::N(n, tup) => AtomView::N(n, scale_tup(tup, k)),
        AtomView::Rest(tup) => AtomView::Rest(scale_tup(tup, k)),
        _ => a,
    }
}

/// [`squeeze`] applied to each atom of a sequence.
pub open spec fn squeeze_all(s: Seq<AtomView>, k: nat) -> Seq<AtomView> {
    Seq::new(s.len(), |i: int| squeeze(s[i], k))
}

/// What one atom expands to: itself if it is primitive, its flattened body
/// `repeat` times for a loop, and for a tuplet its flattened body with every
/// note and rest squeezed by the number of atoms in that flattened body.
pub open spec fn flatten_atom(a: AtomView) -> Seq<AtomView>
    decreases a, 0nat,
{
    match a {
        AtomView::Loop(r, body) => repeat(flatten_prefix(body, body.len()), r as nat),
        AtomView::Tuplet(body) => {
            let flat = flatten_prefix(body, body.len());
            squeeze_all(flat, flat.len())
        },
        _ => seq![a],
    }
}

/// The expansion of the first `n` atoms of `s`, in order.
pub open spec fn flatten_prefix(s: Seq<AtomView>, n: nat) -> Seq<AtomView>
    decreases s, n,
{
    if n == 0 || n > s.len() {
        Seq::empty()
    } else {
        flatten_prefix(s, (n - 1) as nat) + flatten_atom(s[n - 1])
    }
}

/// The expansion of a whole score: the concatenation of what each atom
/// expands to.
pub open spec fn flatten(s: Seq<AtomView>) -> Seq<AtomView> {
    flatten_prefix(s, s.len())
}

/// `repeat` has `n` times the length of what it repeats.
pub proof fn lemma_repeat_len(s: Seq<AtomView>, n: nat)
    ensures
        repeat(s, n).len() == n * s.len(),
    decreases n,
{
    if n > 0 {
        lemma_repeat_len(s, (n - 1) as nat);
        assert(n * s.len() == (n - 1) * s.len() + s.len()) by (nonlinear_arith);
    } else {
        assert(0 * s.len() == 0);
    }
}

/// The expansion of a prefix only looks at that prefix.
pub proof fn lemma_flatten_prefix_of_concat(a: Seq<AtomView>, b: Seq<AtomView>, n: nat)
    requires
        n <= a.len(),
    ensures
        flatten_prefix(a + b, n) == flatten_prefix(a, n),
    decreases n,
{
    if n > 0 {
        lemma_flatten_prefix_of_concat(a, b, (n - 1) as nat);
        assert((a + b)[n - 1] == a[n - 1]);
    }
}

proof fn lemma_flatten_concat_prefix(a: Seq<AtomView>, b: Seq<AtomView>, m: nat)
    requires
        m <= b.len(),
    ensures
        flatten_prefix(a + b, a.len() + m) == flatten(a) + flatten_prefix(b, m),
    decreases m,
{
    if m == 0 {
        lemma_flatten_prefix_of_concat(a, b, a.len());
        assert(flatten(a) + flatten_prefix(b, 0) =~= flatten(a));
    } else {
        lemma_flatten_concat_prefix(a, b, (m - 1) as nat);
        assert((a + b)[a.len() + m - 1] == b[m - 1]);
        assert((flatten(a) + flatten_prefix(b, (m - 1) as nat)) + flatten_atom(b[m - 1]) =~= flatten(
            a,
        ) + (flatten_prefix(b, (m - 1) as nat) + flatten_atom(b[m - 1])));
    }
}

/// Expanding two scores written one after the other gives the two
/// expansions one after the other.
pub proof fn lemma_flatten_concat(a: Seq<AtomView>, b: Seq<AtomView>)
    ensures
        flatten(a + b) == flatten(a) + flatten(b),
{
    lemma_flatten_concat_prefix(a, b, b.len());
}

/// A score of one atom expands to what that atom expands to.
pub proof fn lemma_flatten_single(a: AtomView)
    ensures
        flatten(seq![a]) == flatten_atom(a),
{
    let s = seq![a];
    assert(flatten_prefix(s, 0) =~= Seq::<AtomView>::empty());
    assert(flatten_prefix(s, 1) == flatten_prefix(s, 0) + flatten_atom(s[0]));
    assert(Seq::<AtomView>::empty() + flatten_atom(a) =~= flatten_atom(a));
}

proof fn lemma_repeat_primitive(s: Seq<AtomView>, n: nat)
    requires
        all_primitive(s),
    ensures
        all_primitive(repeat(s, n)),
    decreases n,
{
    if n > 0 {
        lemma_repeat_primitive(s, (n - 1) as nat);
    }
}

proof fn lemma_flatten_atom_primitive(a: AtomView)
    ensures
        all_primitive(flatten_atom(a)),
    decreases a, 0nat,
{
    match a {
        AtomView::Loop(r, body) => {
            lemma_flatten_prefix_primitive(body, body.len());
            lemma_repeat_primitive(flatten(body), r as nat);
        },
        AtomView::Tuplet(body) => {
            lemma_flatten_prefix_primitive(body, body.len());
        },
        _ => {},
    }
}

proof fn lemma_flatten_prefix_primitive(s: Seq<AtomView>, n: nat)
    ensures
        all_primitive(flatten_prefix(s, n)),
    decreases s, n,
{
    if n == 0 || n > s.len() {
    } else {
        lemma_flatten_prefix_primitive(s, (n - 1) as nat);
        lemma_flatten_atom_primitive(s[n - 1]);
    }
}

/// Flattening leaves no container: whatever the score, its expansion holds
/// neither a loop nor a tuplet.
pub proof fn lemma_flatten_has_no_container(score: Seq<AtomView>)
    ensures
        all_primitive(flatten(score)),
        forall|i: int|
            0 <= i < flatten(score).len() ==> !(#[trigger] flatten(score)[i] is Loop) && !(flatten(
                score,
            )[i] is Tuplet),
{
    lemma_flatten_prefix_primitive(score, score.len());
}

proof fn lemma_flatten_prefix_of_primitives(s: Seq<AtomView>, n: nat)
    requires
        all_primitive(s),
        n <= s.len(),
    ensures
        flatten_prefix(s, n) == s.take(n as int),
    decreases n,
{
    if n == 0 {
        assert(s.take(0) =~= Seq::<AtomView>::empty());
    } else {
        lemma_flatten_prefix_of_primitives(s, (n - 1) as nat);
        assert(is_primitive(s[n - 1]));
        assert(flatten_atom(s[n - 1]) == seq![s[n - 1]]);
        assert(s.take(n - 1) + seq![s[n - 1]] =~= s.take(n as int));
    }
}

/// A score without containers expands to itself.
pub proof fn lemma_flatten_of_primitives(s: Seq<AtomView>)
    requires
        all_primitive(s),
    ensures
        flatten(s) == s,
{
    lemma_flatten_prefix_of_primitives(s, s.len());
    assert(s.take(s.len() as int) =~= s);
}

/// Loop expansion cardinality: a loop expands to its expanded body written
/// `repeat` times, which is `repeat` times as many primitive atoms as the
/// body expands to.
pub proof fn lemma_loop_cardinality(repeat_count: u16, body: Seq<AtomView>)
    ensures
        flatten_atom(AtomView::Loop(repeat_count, body)) == repeat(
            flatten(body),
            repeat_count as nat,
        ),
        flatten_atom(AtomView::Loop(repeat_count, body)).len() == flatten(body).len()
            * repeat_count,
        all_primitive(flatten_atom(AtomView::Loop(repeat_count, body))),
{
    lemma_repeat_len(flatten(body), repeat_count as nat);
    lemma_flatten_atom_primitive(AtomView::Loop(repeat_count, body));
    assert(flatten(body).len() * repeat_count == repeat_count * flatten(body).len())
        by (nonlinear_arith);
}

/// A note or a rest: an atom that takes up time.
pub open spec fn is_sounding(a: AtomView) -> bool {
    a is N || a is Rest
}

/// The tuplet divisor of a note or a rest.
pub open spec fn divisor(a: AtomView) -> nat {
    match a {
        AtomView::N(_, tup) => tup as nat,
        AtomView::Rest(tup) => tup as nat,
        _ => 0,
    }
}

/// The time that the notes and rests of `s` take at note length `length`,
/// counted in `unit`-ths of a whole note: an atom of divisor `d` lasts one
/// whole note divided by `length * d`.
pub open spec fn shares(s: Seq<AtomView>, length: nat, unit: nat) -> nat
    decreases s.len(),
{
    if s.len() == 0 {
        0
    } else {
        let a = s.last();
        let here = if is_sounding(a) && length * divisor(a) > 0 {
            unit / (length * divisor(a))
        } else {
            0
        };
        shares(s.drop_last(), length, unit) + here
    }
}

proof fn lemma_shares_uniform(s: Seq<AtomView>, length: nat, k: nat)
    requires
        length > 0,
        k > 0,
        forall|i: int| 0 <= i < s.len() ==> is_sounding(#[trigger] s[i]) && divisor(s[i]) == k,
    ensures
        shares(s, length, length * k) == s.len(),
    decreases s.len(),
{
    if s.len() > 0 {
        lemma_shares_uniform(s.drop_last(), length, k);
        assert(is_sounding(s.last()) && divisor(s.last()) == k);
        assert(length * k > 0) by (nonlinear_arith)
            requires
                length > 0,
                k > 0,
        ;
        assert((length * k) / (length * k) == 1) by (nonlinear_arith)
            requires
                length * k > 0,
        ;
    }
}

/// Tuplet duration conservation: where a tuplet's body expands to `k`
/// notes and rests of one common divisor `d`, the tuplet yields the same
/// `k` notes and rests with the divisor `d * k`, as long as that product
/// is a number of the machine. At any note length each of them lasts an
/// exact `k`-th of the slot, and together they last as long as the one
/// atom of divisor `d` that would stand in the tuplet's place.
pub proof fn lemma_tuplet_conserves_duration(body: Seq<AtomView>, length: nat, d: nat)
    requires
        length > 0,
        d > 0,
        flatten(body).len() > 0,
        d * flatten(body).len() <= usize::MAX,
        forall|i: int|
            0 <= i < flatten(body).len() ==> is_sounding(#[trigger] flatten(body)[i]) && divisor(
                flatten(body)[i],
            ) == d,
    ensures
        ({
            let flat = flatten(body);
            let k = flat.len();
            let out = flatten_atom(AtomView::Tuplet(body));
            let unit = length * (d * k);
            &&& out.len() == k
            &&& forall|i: int|
                0 <= i < k ==> (#[trigger] out[i]) == squeeze(flat[i], k) && is_sounding(out[i])
                    && divisor(out[i]) == d * k && unit % (length * divisor(out[i])) == 0
            &&& shares(out, length, unit) == k
            &&& shares(seq![AtomView::Rest(d as usize)], length, unit) == k
        }),
{
    let flat = flatten(body);
    let k = flat.len();
    let out = flatten_atom(AtomView::Tuplet(body));
    let dk = d * k;
    let unit = length * dk;
    assert(out == squeeze_all(flat, k));
    assert(dk > 0 && d <= dk) by (nonlinear_arith)
        requires
            dk == d * k,
            d > 0,
            k > 0,
    ;
    assert(unit > 0) by (nonlinear_arith)
        requires
            unit == length * dk,
            length > 0,
            dk > 0,
    ;
    assert forall|i: int| 0 <= i < k implies (#[trigger] out[i]) == squeeze(flat[i], k)
        && is_sounding(out[i]) && divisor(out[i]) == dk && unit % (length * divisor(out[i]))
        == 0 by {
        assert(is_sounding(flat[i]) && divisor(flat[i]) == d);
        assert(out[i] == squeeze(flat[i], k));
        assert(scale_tup(d as usize, k) == dk);
        assert(unit % unit == 0) by (nonlinear_arith)
            requires
                unit > 0,
        ;
    }
    lemma_shares_uniform(out, length, dk);
    let one = seq![AtomView::Rest(d as usize)];
    assert(one.drop_last().len() == 0);
    assert(shares(one.drop_last(), length, unit) == 0);
    assert(divisor(one.last()) == d);
    assert(length * d > 0 && unit == (length * d) * k) by (nonlinear_arith)
        requires
            unit == length * (d * k),
            length > 0,
            d > 0,
    ;
    assert(unit / (length * d) == k) by (nonlinear_arith)
        requires
            unit == (length * d) * k,
            length * d > 0,
    ;
}

} // verus!
