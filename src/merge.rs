//! A conflict-shaped sequence of terms: add and remove terms interleaved,
//! starting and ending with an add term.

use vstd::prelude::*;
use vstd::std_specs::cmp::PartialEqSpec;

verus! {

/// The terms of a conflict, in the layout `add0, remove0, add1, remove1, ..., addN`.
#[derive(Debug)]
pub struct Merge<T> {
    values: Vec<T>,
}

/// Whether a flat sequence of terms has the shape of a conflict: an odd length.
pub open spec fn is_conflict_shape<T>(terms: Seq<T>) -> bool {
    terms.len() % 2 == 1
}

/// The number of sides (add terms) of a conflict-shaped sequence.
pub open spec fn sides_of<T>(terms: Seq<T>) -> nat {
    (terms.len() / 2 + 1) as nat
}

/// The first remove position `p`, `p + 2`, ... of `idx` whose term equals the
/// add term at position `a`; positions index into `terms` through `idx`.
pub open spec fn first_matching_remove<T: PartialEq>(
    terms: Seq<T>,
    idx: Seq<int>,
    a: int,
    p: int,
) -> Option<int>
    decreases idx.len() - p,
{
    if p + 1 >= idx.len() {
        None
    } else if terms[idx[a]].eq_spec(&terms[idx[p]]) {
        Some(p)
    } else {
        first_matching_remove(terms, idx, a, p + 2)
    }
}

/// Cancels the add term at `a` against the remove term at `p`: the add term
/// is first moved next to the remove (`p + 1`), then both are dropped.
pub open spec fn cancel_pair(idx: Seq<int>, a: int, p: int) -> Seq<int> {
    let s = idx.update(a, idx[p + 1]).update(p + 1, idx[a]);
    s.subrange(0, p) + s.subrange(p + 2, s.len() as int)
}

/// Simplification from the add position `a` on: while the add term at `a`
/// equals some remove term, the first such pair cancels; otherwise the next
/// add term is examined.
pub open spec fn simplify_from<T: PartialEq>(terms: Seq<T>, idx: Seq<int>, a: int) -> Seq<int>
    decreases 2 * idx.len() - a,
{
    if a < 0 || a >= idx.len() {
        idx
    } else {
        match first_matching_remove(terms, idx, a, 1) {
            Some(p) => if 1 <= p && p + 1 < idx.len() {
                simplify_from(terms, cancel_pair(idx, a, p), a)
            } else {
                idx
            },
            None => simplify_from(terms, idx, a + 2),
        }
    }
}

/// The positions of `terms` that survive simplification, in their final order.
pub open spec fn simplified_positions<T: PartialEq>(terms: Seq<T>) -> Seq<int> {
    simplify_from(terms, Seq::new(terms.len(), |i: int| i), 0)
}

/// Every entry of `idx` is a position of a sequence of length `n`.
pub open spec fn positions_within(idx: Seq<int>, n: int) -> bool {
    forall|k: int| 0 <= k < idx.len() ==> 0 <= #[trigger] idx[k] < n
}

proof fn lemma_cancel_pair(idx: Seq<int>, a: int, p: int, n: int)
    requires
        positions_within(idx, n),
        0 <= a < idx.len(),
        1 <= p,
        p + 1 < idx.len(),
    ensures
        cancel_pair(idx, a, p).len() == idx.len() - 2,
        positions_within(cancel_pair(idx, a, p), n),
{
    let s = idx.update(a, idx[p + 1]).update(p + 1, idx[a]);
    assert(positions_within(s, n));
    let r = cancel_pair(idx, a, p);
    assert forall|k: int| 0 <= k < r.len() implies 0 <= #[trigger] r[k] < n by {
        if k < p {
            assert(r[k] == s[k]);
        } else {
            assert(r[k] == s[k + 2]);
        }
    }
}

proof fn lemma_first_matching_remove<T: PartialEq>(terms: Seq<T>, idx: Seq<int>, a: int, p: int)
    requires
        1 <= p,
    ensures
        first_matching_remove(terms, idx, a, p) matches Some(q) ==> p <= q && q + 1 < idx.len()
            && (q - p) % 2 == 0,
    decreases idx.len() - p,
{
    if p + 1 < idx.len() && !terms[idx[a]].eq_spec(&terms[idx[p]]) {
        lemma_first_matching_remove(terms, idx, a, p + 2);
    }
}

/// Simplification keeps the conflict shape and only ever keeps positions it
/// was given.
proof fn lemma_simplify_from<T: PartialEq>(terms: Seq<T>, idx: Seq<int>, a: int)
    requires
        positions_within(idx, terms.len() as int),
        is_conflict_shape(idx),
        0 <= a,
    ensures
        positions_within(simplify_from(terms, idx, a), terms.len() as int),
        is_conflict_shape(simplify_from(terms, idx, a)),
    decreases 2 * idx.len() - a,
{
    if a < idx.len() {
        lemma_first_matching_remove(terms, idx, a, 1);
        match first_matching_remove(terms, idx, a, 1) {
            Some(p) => {
                lemma_cancel_pair(idx, a, p, terms.len() as int);
                lemma_simplify_from(terms, cancel_pair(idx, a, p), a);
            },
            None => {
                lemma_simplify_from(terms, idx, a + 2);
            },
        }
    }
}

/// No add term at an even position before `a` of `idx` equals any remove
/// term of `idx`.
pub open spec fn no_cancellation_before<T: PartialEq>(terms: Seq<T>, idx: Seq<int>, a: int) -> bool {
    forall|b: int, q: int|
        #![trigger idx[b], idx[q]]
        0 <= b < a && b < idx.len() && b % 2 == 0 && 0 <= q < idx.len() && q % 2 == 1
            ==> !terms[idx[b]].eq_spec(&terms[idx[q]])
}

/// Nothing is left to cancel: no add term equals a remove term.
pub open spec fn fully_simplified<T: PartialEq>(terms: Seq<T>, idx: Seq<int>) -> bool {
    no_cancellation_before(terms, idx, idx.len() as int)
}

proof fn lemma_no_match<T: PartialEq>(terms: Seq<T>, idx: Seq<int>, a: int, p: int)
    requires
        1 <= p,
        p % 2 == 1,
        is_conflict_shape(idx),
        first_matching_remove(terms, idx, a, p) is None,
    ensures
        forall|q: int| p <= q < idx.len() && q % 2 == 1 ==> !terms[idx[a]].eq_spec(&terms[idx[q]]),
    decreases idx.len() - p,
{
    if p + 1 < idx.len() {
        lemma_no_match(terms, idx, a, p + 2);
    }
}

proof fn lemma_simplify_from_complete<T: PartialEq>(terms: Seq<T>, idx: Seq<int>, a: int)
    requires
        is_conflict_shape(idx),
        0 <= a,
        a % 2 == 0,
        no_cancellation_before(terms, idx, a),
    ensures
        fully_simplified(terms, simplify_from(terms, idx, a)),
    decreases 2 * idx.len() - a,
{
    if a >= idx.len() {
        assert(simplify_from(terms, idx, a) == idx);
    } else {
        lemma_first_matching_remove(terms, idx, a, 1);
        match first_matching_remove(terms, idx, a, 1) {
            Some(p) => {
                let s = idx.update(a, idx[p + 1]).update(p + 1, idx[a]);
                let r = cancel_pair(idx, a, p);
                assert(r.len() == idx.len() - 2);
                assert forall|b: int, q: int|
                    #![trigger r[b], r[q]]
                    0 <= b < a && b < r.len() && b % 2 == 0 && 0 <= q < r.len() && q % 2 == 1
                    implies !terms[r[b]].eq_spec(&terms[r[q]]) by {
                    let qi = if q < p { q } else { q + 2 };
                    assert(r[q] == idx[qi]);
                    if b < p {
                        assert(r[b] == idx[b]);
                    } else if b + 2 == a {
                        assert(r[b] == idx[p + 1]);
                        assert(!terms[idx[p + 1]].eq_spec(&terms[idx[qi]]));
                    } else {
                        assert(r[b] == idx[b + 2]);
                        assert(!terms[idx[b + 2]].eq_spec(&terms[idx[qi]]));
                    }
                }
                lemma_simplify_from_complete(terms, r, a);
            },
            None => {
                lemma_no_match(terms, idx, a, 1);
                assert forall|b: int, q: int|
                    #![trigger idx[b], idx[q]]
                    0 <= b < a + 2 && b < idx.len() && b % 2 == 0 && 0 <= q < idx.len() && q % 2 == 1
                    implies !terms[idx[b]].eq_spec(&terms[idx[q]]) by {
                    if b == a {
                        assert(!terms[idx[a]].eq_spec(&terms[idx[q]]));
                    }
                }
                lemma_simplify_from_complete(terms, idx, a + 2);
            },
        }
    }
}

/// Simplification keeps positions of the terms, in conflict shape, and
/// leaves no add term equal to a remove term.
pub proof fn lemma_simplification_complete<T: PartialEq>(terms: Seq<T>)
    requires
        is_conflict_shape(terms),
    ensures
        positions_within(simplified_positions(terms), terms.len() as int),
        is_conflict_shape(simplified_positions(terms)),
        fully_simplified(terms, simplified_positions(terms)),
{
    let idx = Seq::new(terms.len(), |i: int| i);
    lemma_simplify_from(terms, idx, 0);
    lemma_simplify_from_complete(terms, idx, 0);
}

impl<T> View for Merge<T> {
    type V = Seq<T>;

    closed spec fn view(&self) -> Seq<T> {
        self.values@
    }
}

impl<T> Merge<T> {
    #[verifier::type_invariant]
    spec fn shaped(self) -> bool {
        is_conflict_shape(self.values@)
    }

    /// A merge from its flat terms.
    pub fn from_vec(values: Vec<T>) -> (r: Self)
        requires
            is_conflict_shape(values@),
        ensures
            r@ == values@,
    {
        Merge { values }
    }

    /// A resolved merge: a single add term.
    pub fn resolved(value: T) -> (r: Self)
        ensures
            r@ == seq![value],
    {
        let mut values: Vec<T> = Vec::new();
        values.push(value);
        Merge { values }
    }

    /// Whether the merge has one side and nothing to remove.
    pub fn is_resolved(&self) -> (r: bool)
        ensures
            r == (self@.len() == 1),
    {
        self.values.len() == 1
    }

    /// The positions of the terms that survive simplification by term
    /// equality, in their final order.
    pub fn simplified_positions(&self) -> (r: Vec<usize>)
        where
            T: PartialEq,
        requires
            T::obeys_eq_spec(),
        ensures
            r@.map_values(|i: usize| i as int) == simplified_positions(self@),
            positions_within(simplified_positions(self@), self@.len() as int),
            is_conflict_shape(simplified_positions(self@)),
            fully_simplified(self@, simplified_positions(self@)),
    {
        proof { use_type_invariant(self); }
        let ghost terms = self@;
        let n = self.values.len();
        let mut idx: Vec<usize> = Vec::new();
        let mut i: usize = 0;
        while i < n
            invariant
                i <= n == terms.len(),
                idx.len() == i,
                forall|k: int| 0 <= k < i ==> idx@[k] == k,
            decreases n - i,
        {
            idx.push(i);
            i = i + 1;
        }
        assert(idx@.map_values(|j: usize| j as int) =~= Seq::new(n as nat, |j: int| j));
        proof {
            lemma_simplification_complete(terms);
        }
        let mut a: usize = 0;
        while a < idx.len()
            invariant
                terms == self@,
                T::obeys_eq_spec(),
                n == terms.len(),
                is_conflict_shape(idx@),
                positions_within(idx@.map_values(|j: usize| j as int), n as int),
                simplify_from(terms, idx@.map_values(|j: usize| j as int), a as int)
                    == simplified_positions(terms),
            ensures
                idx@.map_values(|j: usize| j as int) == simplified_positions(terms),
            decreases 2 * idx.len() - a,
        {
            let ghost cur = idx@.map_values(|j: usize| j as int);
            let mut p: usize = 1;
            let mut found = false;
            while p < idx.len() - 1
                invariant_except_break
                    !found,
                invariant
                    terms == self@,
                    T::obeys_eq_spec(),
                    cur == idx@.map_values(|j: usize| j as int),
                    positions_within(cur, n as int),
                    n == terms.len(),
                    a < idx.len(),
                    1 <= p,
                    p % 2 == 1,
                    p <= idx.len(),
                    first_matching_remove(terms, cur, a as int, 1)
                        == first_matching_remove(terms, cur, a as int, p as int),
                ensures
                    found ==> p + 1 < idx.len() && first_matching_remove(terms, cur, a as int, 1)
                        == Some(p as int),
                    !found ==> first_matching_remove(terms, cur, a as int, 1) is None,
                decreases idx.len() - p,
            {
                assert(cur[a as int] == idx@[a as int] as int);
                assert(cur[p as int] == idx@[p as int] as int);
                if self.values[idx[a]].eq(&self.values[idx[p]]) {
                    found = true;
                    break;
                }
                p = p + 2;
            }
            if found {
                proof { lemma_cancel_pair(cur, a as int, p as int, n as int); }
                let add = idx[a];
                let partner = idx[p + 1];
                idx.set(a, partner);
                idx.set(p + 1, add);
                idx.remove(p);
                idx.remove(p);
                assert(idx@.map_values(|j: usize| j as int) =~= cancel_pair(cur, a as int, p as int));
            } else if idx.len() - a <= 2 {
                assert(simplify_from(terms, cur, a as int + 2) == cur);
                break;
            } else {
                a = a + 2;
            }
        }
        idx
    }

    /// The add term (side) at `index`, if the merge has that many sides.
    pub fn get_add(&self, index: usize) -> (r: Option<&T>)
        ensures
            r is Some <==> index < sides_of(self@),
            r is Some ==> 2 * index < self@.len(),
            r matches Some(v) ==> *v == self@[2 * index],
    {
        proof { use_type_invariant(self); }
        if index < self.values.len() / 2 + 1 {
            Some(&self.values[2 * index])
        } else {
            None
        }
    }

    /// The remove term (base) at `index`, if the merge has that many.
    pub fn get_remove(&self, index: usize) -> (r: Option<&T>)
        ensures
            r is Some <==> index < self@.len() / 2,
            r matches Some(v) ==> *v == self@[2 * index + 1],
    {
        proof { use_type_invariant(self); }
        if index < self.values.len() / 2 {
            Some(&self.values[2 * index + 1])
        } else {
            None
        }
    }

    /// All terms in their flat layout.
    pub fn as_slice(&self) -> (r: &[T])
        ensures
            r@ == self@,
            is_conflict_shape(self@),
    {
        proof { use_type_invariant(self); }
        self.values.as_slice()
    }

    /// A merge of clones of the terms at `positions`, in that order.
    pub fn terms_at(&self, positions: &Vec<usize>) -> (r: Merge<T>)
        where
            T: Clone,
        requires
            is_conflict_shape(positions@),
            positions_within(positions@.map_values(|j: usize| j as int), self@.len() as int),
        ensures
            r@.len() == positions@.len(),
            forall|k: int|
                0 <= k < positions@.len() ==> cloned(self@[positions@[k] as int], #[trigger] r@[k]),
    {
        let mut values: Vec<T> = Vec::new();
        let mut k: usize = 0;
        while k < positions.len()
            invariant
                k <= positions@.len(),
                values@.len() == k,
                positions_within(positions@.map_values(|j: usize| j as int), self@.len() as int),
                forall|m: int|
                    0 <= m < k ==> cloned(self@[positions@[m] as int], #[trigger] values@[m]),
            decreases positions.len() - k,
        {
            assert(positions@.map_values(|j: usize| j as int)[k as int] == positions@[k as int]);
            let term = self.values[positions[k]].clone();
            values.push(term);
            k = k + 1;
        }
        Merge { values }
    }

    /// The merge with every add term that equals a remove term cancelled
    /// against it, as far as cancellation goes.
    pub fn simplify(&self) -> (r: Merge<T>)
        where
            T: PartialEq + Clone,
        requires
            T::obeys_eq_spec(),
        ensures
            r@.len() == simplified_positions(self@).len(),
            forall|k: int|
                0 <= k < r@.len() ==> cloned(self@[simplified_positions(self@)[k]], #[trigger] r@[k]),
            fully_simplified(self@, simplified_positions(self@)),
    {
        let positions = self.simplified_positions();
        proof {
            let ints = positions@.map_values(|j: usize| j as int);
            assert forall|k: int| 0 <= k < positions@.len() implies ints[k] == positions@[k] as int by {}
        }
        self.terms_at(&positions)
    }

    /// The number of sides.
    pub fn num_sides(&self) -> (r: usize)
        ensures
            r == sides_of(self@),
            is_conflict_shape(self@),
    {
        proof { use_type_invariant(self); }
        self.values.len() / 2 + 1
    }
}

impl<T: Clone> Clone for Merge<T> {
    /// A merge of clones of the terms, in the same layout.
    fn clone(&self) -> (r: Self)
        ensures
            r@.len() == self@.len(),
            forall|k: int| 0 <= k < self@.len() ==> cloned(self@[k], #[trigger] r@[k]),
    {
        proof { use_type_invariant(self); }
        let mut values: Vec<T> = Vec::new();
        let mut k: usize = 0;
        while k < self.values.len()
            invariant
                k <= self@.len(),
                values@.len() == k,
                forall|m: int| 0 <= m < k ==> cloned(self@[m], #[trigger] values@[m]),
            decreases self.values.len() - k,
        {
            values.push(self.values[k].clone());
            k = k + 1;
        }
        Merge { values }
    }
}

} // verus!
