use crate::flatten::{
    all_primitive, flatten, flatten_atom, flatten_prefix, is_primitive, lemma_flatten_concat,
    lemma_flatten_has_no_container, lemma_flatten_of_primitives, lemma_flatten_single,
    lemma_repeat_len, repeat, squeeze, squeeze_all,
};
use crate::structure::{view_all, Atom, AtomView};
use vstd::prelude::*;

verus! {

/// What a work stack still has to yield: the expansion of its top atom,
/// then that of the atom below, down to the bottom.
pub open spec fn unwind(stack: Seq<AtomView>) -> Seq<AtomView>
    decreases stack.len(),
{
    if stack.len() == 0 {
        Seq::empty()
    } else {
        flatten_atom(stack.last()) + unwind(stack.drop_last())
    }
}

/// How deep containers nest inside an atom.
pub open spec fn depth(a: AtomView) -> nat
    decreases a, 0nat,
{
    match a {
        AtomView::Loop(_, body) => 1 + depth_prefix(body, body.len()),
        AtomView::Tuplet(body) => 1 + depth_prefix(body, body.len()),
        _ => 0,
    }
}

/// The deepest nesting among the first `n` atoms of `s`.
pub open spec fn depth_prefix(s: Seq<AtomView>, n: nat) -> nat
    decreases s, n,
{
    if n == 0 || n > s.len() {
        0
    } else {
        let before = depth_prefix(s, (n - 1) as nat);
        let here = depth(s[n - 1]);
        if before >= here {
            before
        } else {
            here
        }
    }
}

/// The deepest nesting among the atoms of `s`.
pub open spec fn depth_all(s: Seq<AtomView>) -> nat {
    depth_prefix(s, s.len())
}

/// An upper bound on the stack pops that expanding an atom takes.
pub open spec fn weight(a: AtomView) -> nat
    decreases a, 0nat,
{
    match a {
        AtomView::Loop(r, body) => 1 + (r as nat) * weight_prefix(body, body.len()),
        AtomView::Tuplet(body) => 1 + weight_prefix(body, body.len()),
        _ => 1,
    }
}

/// The sum of the weights of the first `n` atoms of `s`.
pub open spec fn weight_prefix(s: Seq<AtomView>, n: nat) -> nat
    decreases s, n,
{
    if n == 0 || n > s.len() {
        0
    } else {
        weight_prefix(s, (n - 1) as nat) + weight(s[n - 1])
    }
}

/// The sum of the weights of the atoms of `s`.
pub open spec fn weight_all(s: Seq<AtomView>) -> nat {
    weight_prefix(s, s.len())
}

proof fn lemma_depth_prefix_local(a: Seq<AtomView>, b: Seq<AtomView>, n: nat)
    requires
        n <= a.len(),
        n <= b.len(),
        forall|i: int| 0 <= i < n ==> a[i] == b[i],
    ensures
        depth_prefix(a, n) == depth_prefix(b, n),
    decreases n,
{
    if n > 0 {
        lemma_depth_prefix_local(a, b, (n - 1) as nat);
    }
}

proof fn lemma_weight_prefix_local(a: Seq<AtomView>, b: Seq<AtomView>, n: nat)
    requires
        n <= a.len(),
        n <= b.len(),
        forall|i: int| 0 <= i < n ==> a[i] == b[i],
    ensures
        weight_prefix(a, n) == weight_prefix(b, n),
    decreases n,
{
    if n > 0 {
        lemma_weight_prefix_local(a, b, (n - 1) as nat);
    }
}

proof fn lemma_push(s: Seq<AtomView>, x: AtomView)
    ensures
        unwind(s.push(x)) == flatten_atom(x) + unwind(s),
        weight_all(s.push(x)) == weight_all(s) + weight(x),
        depth_all(s.push(x)) == if depth_all(s) >= depth(x) {
            depth_all(s)
        } else {
            depth(x)
        },
{
    let t = s.push(x);
    assert(t.drop_last() =~= s);
    assert(t.last() == x);
    lemma_weight_prefix_local(t, s, s.len());
    lemma_depth_prefix_local(t, s, s.len());
}

proof fn lemma_pop(s: Seq<AtomView>)
    requires
        s.len() > 0,
    ensures
        unwind(s) == flatten_atom(s.last()) + unwind(s.drop_last()),
        weight_all(s) == weight_all(s.drop_last()) + weight(s.last()),
        depth_all(s.drop_last()) <= depth_all(s),
        depth(s.last()) <= depth_all(s),
{
    assert(s.drop_last().push(s.last()) =~= s);
    lemma_push(s.drop_last(), s.last());
}

proof fn lemma_depth_bounds(s: Seq<AtomView>, n: nat, i: int)
    requires
        0 <= i < n <= s.len(),
    ensures
        depth(s[i]) <= depth_prefix(s, n),
    decreases n,
{
    if i < n - 1 {
        lemma_depth_bounds(s, (n - 1) as nat, i);
    }
}

proof fn lemma_weight_step(s: Seq<AtomView>, n: nat)
    requires
        0 < n <= s.len(),
    ensures
        weight_prefix(s, n) == weight_prefix(s, (n - 1) as nat) + weight(s[n - 1]),
        weight_prefix(s, (n - 1) as nat) <= weight_prefix(s, s.len()),
    decreases s.len() - n,
{
    if n < s.len() {
        lemma_weight_step(s, n + 1);
    }
}

proof fn lemma_flat_len_atom(a: AtomView)
    ensures
        flatten_atom(a).len() <= weight(a),
    decreases a, 0nat,
{
    match a {
        AtomView::Loop(r, body) => {
            lemma_flat_len_prefix(body, body.len());
            lemma_repeat_len(flatten(body), r as nat);
            assert(r * flatten(body).len() <= r * weight_all(body)) by (nonlinear_arith)
                requires
                    flatten(body).len() <= weight_all(body),
            ;
        },
        AtomView::Tuplet(body) => {
            lemma_flat_len_prefix(body, body.len());
        },
        _ => {},
    }
}

proof fn lemma_flat_len_prefix(s: Seq<AtomView>, n: nat)
    ensures
        flatten_prefix(s, n).len() <= weight_prefix(s, n),
    decreases s, n,
{
    if n == 0 || n > s.len() {
    } else {
        lemma_flat_len_prefix(s, (n - 1) as nat);
        lemma_flat_len_atom(s[n - 1]);
    }
}

/// The top of a stack filled from the end of a score is the start of that
/// score: what the stack yields is the expansion of the score.
proof fn lemma_unwind_suffix(score: Seq<AtomView>, stack: Seq<AtomView>, i: int)
    requires
        0 < i <= score.len(),
        unwind(stack) == flatten(score.skip(i)),
    ensures
        unwind(stack.push(score[i - 1])) == flatten(score.skip(i - 1)),
{
    lemma_push(stack, score[i - 1]);
    lemma_flatten_single(score[i - 1]);
    lemma_flatten_concat(seq![score[i - 1]], score.skip(i));
    assert(seq![score[i - 1]] + score.skip(i) =~= score.skip(i - 1));
}

/// Walks a score and yields its primitive atoms only: loops come out
/// repeated and tuplets squeezed, in the order of the score.
pub struct FlattenedNoteIterator(Vec<Atom>);

impl View for FlattenedNoteIterator {
    type V = Seq<AtomView>;

    /// The atoms that are still to come, in the order in which `next` hands
    /// them out.
    closed spec fn view(&self) -> Seq<AtomView> {
        unwind(view_all(self.0@))
    }
}

impl FlattenedNoteIterator {
    /// The deepest nesting of containers that is still on the work stack.
    pub closed spec fn nesting(&self) -> nat {
        depth_all(view_all(self.0@))
    }

    /// Hands out the next primitive atom of the score, or `None` once the
    /// score is exhausted.
    pub fn next(&mut self) -> (item: Option<Atom>)
        ensures
            match item {
                Some(atom) => old(self)@.len() > 0 && atom@ == old(self)@[0] && final(self)@
                    == old(self)@.skip(1) && is_primitive(atom@),
                None => old(self)@.len() == 0 && final(self)@.len() == 0,
            },
            final(self).nesting() <= old(self).nesting(),
        decreases old(self).nesting(), 0nat,
    {
        loop
            invariant
                unwind(view_all(self.0@)) == old(self)@,
                depth_all(view_all(self.0@)) <= old(self).nesting(),
            decreases weight_all(view_all(self.0@)),
        {
            let ghost before = view_all(self.0@);
            let top = self.0.pop();
            proof {
                if before.len() > 0 {
                    lemma_pop(before);
                    assert(view_all(self.0@) =~= before.drop_last());
                }
            }
            match top {
                None => {
                    return None;
                },
                Some(Atom::Loop(times, body)) => {
                    let ghost rest = view_all(self.0@);
                    let ghost inner = view_all(body@);
                    proof {
                        assert(before.last() == AtomView::Loop(times, inner));
                        lemma_depth_all_of_body(before.last());
                    }
                    let mut count: u16 = 0;
                    while count < times
                        invariant
                            count <= times,
                            inner == view_all(body@),
                            unwind(view_all(self.0@)) == repeat(flatten(inner), count as nat)
                                + unwind(rest),
                            weight_all(view_all(self.0@)) == weight_all(rest) + count * weight_all(
                                inner,
                            ),
                            depth_all(view_all(self.0@)) <= old(self).nesting(),
                            depth_all(inner) < old(self).nesting(),
                        decreases times - count,
                    {
                        let ghost base = view_all(self.0@);
                        let mut j: usize = body.len();
                        while j > 0
                            invariant
                                j <= body.len(),
                                inner == view_all(body@),
                                unwind(view_all(self.0@)) == flatten(inner.skip(j as int))
                                    + unwind(base),
                                weight_all(view_all(self.0@)) + weight_prefix(inner, j as nat)
                                    == weight_all(base) + weight_all(inner),
                                depth_all(view_all(self.0@)) <= old(self).nesting(),
                                depth_all(inner) < old(self).nesting(),
                            decreases j,
                        {
                            let ghost stack = view_all(self.0@);
                            j -= 1;
                            self.0.push(body[j].clone());
                            proof {
                                assert(view_all(self.0@) =~= stack.push(inner[j as int]));
                                lemma_push(stack, inner[j as int]);
                                lemma_flatten_single(inner[j as int]);
                                lemma_flatten_concat(seq![inner[j as int]], inner.skip(j + 1));
                                assert(seq![inner[j as int]] + inner.skip(j + 1) =~= inner.skip(
                                    j as int,
                                ));
                                assert((flatten_atom(inner[j as int]) + flatten(inner.skip(j + 1)))
                                    + unwind(base) =~= flatten_atom(inner[j as int]) + (flatten(
                                    inner.skip(j + 1),
                                ) + unwind(base)));
                                lemma_weight_step(inner, (j + 1) as nat);
                                lemma_depth_bounds(inner, inner.len(), j as int);
                            }
                        }
                        proof {
                            assert(inner.skip(0) =~= inner);
                            lemma_repeat_front(flatten(inner), count as nat);
                            assert(flatten(inner) + (repeat(flatten(inner), count as nat) + unwind(
                                rest,
                            )) =~= (flatten(inner) + repeat(flatten(inner), count as nat))
                                + unwind(rest));
                            assert((count + 1) * weight_all(inner) == count * weight_all(inner)
                                + weight_all(inner)) by (nonlinear_arith);
                        }
                        count += 1;
                    }
                    proof {
                        assert(Seq::<AtomView>::empty() + unwind(rest) =~= unwind(rest));
                    }
                },
                Some(Atom::Tuplet(body)) => {
                    let ghost rest = view_all(self.0@);
                    let ghost inner = view_all(body@);
                    proof {
                        assert(before.last() == AtomView::Tuplet(inner));
                        lemma_depth_all_of_body(before.last());
                    }
                    let flat = flatten_score(&body);
                    let k = flat.len();
                    let ghost squeezed = squeeze_all(view_all(flat@), k as nat);
                    proof {
                        lemma_flatten_has_no_container(inner);
                        lemma_flat_len_prefix(inner, inner.len());
                        assert(all_primitive(squeezed));
                        lemma_flatten_of_primitives(squeezed);
                    }
                    let mut j: usize = k;
                    while j > 0
                        invariant
                            j <= k,
                            k == flat@.len(),
                            all_primitive(view_all(flat@)),
                            squeezed == squeeze_all(view_all(flat@), k as nat),
                            all_primitive(squeezed),
                            unwind(view_all(self.0@)) == squeezed.skip(j as int) + unwind(rest),
                            weight_all(view_all(self.0@)) + j == weight_all(rest) + k,
                            depth_all(view_all(self.0@)) <= old(self).nesting(),
                        decreases j,
                    {
                        let ghost stack = view_all(self.0@);
                        j -= 1;
                        let atom = squeeze_atom(&flat[j], k);
                        self.0.push(atom);
                        proof {
                            assert(view_all(self.0@) =~= stack.push(squeezed[j as int]));
                            lemma_push(stack, squeezed[j as int]);
                            assert(is_primitive(squeezed[j as int]));
                            assert(seq![squeezed[j as int]] + squeezed.skip(j + 1)
                                =~= squeezed.skip(j as int));
                            assert((seq![squeezed[j as int]] + squeezed.skip(j + 1)) + unwind(rest)
                                =~= seq![squeezed[j as int]] + (squeezed.skip(j + 1) + unwind(
                                rest,
                            )));
                        }
                    }
                    proof {
                        assert(squeezed.skip(0) =~= squeezed);
                    }
                },
                Some(other) => {
                    proof {
                        assert(is_primitive(other@));
                        assert((seq![other@] + unwind(view_all(self.0@))).skip(1) =~= unwind(
                            view_all(self.0@),
                        ));
                    }
                    return Some(other);
                },
            }
        }
    }

    /// Runs the iterator to its end and gathers what it yields.
    pub fn collect(self) -> (atoms: Vec<Atom>)
        ensures
            view_all(atoms@) == self@,
            all_primitive(view_all(atoms@)),
        decreases self.nesting(), 1nat,
    {
        let mut it = self;
        let mut atoms: Vec<Atom> = Vec::new();
        loop
            invariant
                view_all(atoms@) + it@ == self@,
                all_primitive(view_all(atoms@)),
                it.nesting() <= self.nesting(),
            decreases it@.len(),
        {
            let ghost done = view_all(atoms@);
            let ghost todo = it@;
            match it.next() {
                None => {
                    proof {
                        assert(done + todo =~= done);
                    }
                    return atoms;
                },
                Some(atom) => {
                    atoms.push(atom);
                    proof {
                        assert(view_all(atoms@) =~= done.push(todo[0]));
                        assert(done.push(todo[0]) + todo.skip(1) =~= done + todo);
                    }
                },
            }
        }
    }
}

proof fn lemma_depth_all_of_body(a: AtomView)
    ensures
        a matches AtomView::Loop(_, body) ==> depth_all(body) < depth(a),
        a matches AtomView::Tuplet(body) ==> depth_all(body) < depth(a),
{
}

proof fn lemma_repeat_front(s: Seq<AtomView>, n: nat)
    ensures
        s + repeat(s, n) == repeat(s, n + 1),
    decreases n,
{
    if n == 0 {
        assert(repeat(s, 1) == repeat(s, 0) + s);
        assert(s + repeat(s, 0) =~= repeat(s, 0) + s);
    } else {
        lemma_repeat_front(s, (n - 1) as nat);
        assert(s + (repeat(s, (n - 1) as nat) + s) =~= (s + repeat(s, (n - 1) as nat)) + s);
    }
}

/// The atom as it sounds inside a tuplet of `k` atoms.
fn squeeze_atom(atom: &Atom, k: usize) -> (res: Atom)
    ensures
        res@ == squeeze(atom@, k as nat),
{
    match atom {
        Atom::N(n, tup) => Atom::N(
            *n,
            match tup.checked_mul(k) {
                Some(v) => v,
                None => usize::MAX,
            },
        ),
        Atom::Rest(tup) => Atom::Rest(
            match tup.checked_mul(k) {
                Some(v) => v,
                None => usize::MAX,
            },
        ),
        other => other.clone(),
    }
}

/// Puts a score on a fresh work stack, its first atom on top.
pub(crate) fn stack_of(score: &Vec<Atom>) -> (it: FlattenedNoteIterator)
    ensures
        it@ == flatten(view_all(score@)),
        it.nesting() == depth_all(view_all(score@)),
{
    let ghost views = view_all(score@);
    let mut stack: Vec<Atom> = Vec::new();
    let mut i: usize = score.len();
    proof {
        assert(views.skip(views.len() as int) =~= Seq::<AtomView>::empty());
    }
    while i > 0
        invariant
            i <= score.len(),
            views == view_all(score@),
            unwind(view_all(stack@)) == flatten(views.skip(i as int)),
            view_all(stack@).len() == score.len() - i,
            forall|j: int|
                0 <= j < stack@.len() ==> (#[trigger] view_all(stack@)[j]) == views[score.len() - 1
                    - j],
        decreases i,
    {
        let ghost before = view_all(stack@);
        proof {
            lemma_unwind_suffix(views, before, i as int);
        }
        i -= 1;
        stack.push(score[i].clone());
        proof {
            assert(view_all(stack@) =~= before.push(views[i as int]));
        }
    }
    proof {
        assert(views.skip(0) =~= views);
        lemma_depth_of_reverse(views, view_all(stack@));
    }
    FlattenedNoteIterator(stack)
}

proof fn lemma_depth_of_reverse(a: Seq<AtomView>, b: Seq<AtomView>)
    requires
        a.len() == b.len(),
        forall|j: int| 0 <= j < b.len() ==> b[j] == a[a.len() - 1 - j],
    ensures
        depth_all(a) == depth_all(b),
{
    lemma_depth_le(a, b);
    lemma_depth_le(b, a);
}

proof fn lemma_depth_le(a: Seq<AtomView>, b: Seq<AtomView>)
    requires
        a.len() == b.len(),
        forall|j: int| 0 <= j < b.len() ==> b[j] == a[a.len() - 1 - j],
    ensures
        depth_all(a) <= depth_all(b),
{
    lemma_depth_reached(a, a.len());
    if a.len() > 0 {
        let i = choose|i: int| 0 <= i < a.len() && depth(a[i]) == depth_all(a);
        lemma_depth_bounds(b, b.len(), a.len() - 1 - i);
    }
}

proof fn lemma_depth_reached(s: Seq<AtomView>, n: nat)
    requires
        n <= s.len(),
    ensures
        n == 0 ==> depth_prefix(s, n) == 0,
        n > 0 ==> exists|i: int| 0 <= i < n && depth(s[i]) == depth_prefix(s, n),
    decreases n,
{
    if n > 0 {
        lemma_depth_reached(s, (n - 1) as nat);
        if depth_prefix(s, (n - 1) as nat) >= depth(s[n - 1]) && n > 1 {
            let i = choose|i: int| 0 <= i < n - 1 && depth(s[i]) == depth_prefix(s, (n - 1) as nat);
            assert(0 <= i < n && depth(s[i]) == depth_prefix(s, n));
        } else {
            assert(depth(s[n - 1]) == depth_prefix(s, n));
        }
    }
}

/// Expands a score in one go.
pub fn flatten_score(score: &Vec<Atom>) -> (atoms: Vec<Atom>)
    ensures
        view_all(atoms@) == flatten(view_all(score@)),
        all_primitive(view_all(atoms@)),
    decreases depth_all(view_all(score@)), 2nat,
{
    proof {
        lemma_flatten_has_no_container(view_all(score@));
    }
    stack_of(score).collect()
}

} // verus!
