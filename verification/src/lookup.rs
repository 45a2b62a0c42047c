//! Sequences, as far as the graph needs more than the standard library of
//! specifications gives: the first occurrence of a value, which every lookup
//! by id, key or destination comes down to; selection by a mask; and the
//! steps of the loops that compute filters and folds.

use vstd::prelude::*;

verus! {

/// `i` is the first position of `x` in `s`.
pub open spec fn is_first<A>(s: Seq<A>, x: A, i: int) -> bool {
    &&& 0 <= i < s.len()
    &&& s[i] == x
    &&& forall|j: int| 0 <= j < i ==> s[j] != x
}

/// The first position of `x` in `s`; meaningful only where `s` contains `x`.
pub open spec fn first<A>(s: Seq<A>, x: A) -> int {
    choose|i: int| is_first(s, x, i)
}

/// The first position is unique.
pub proof fn lemma_first_is<A>(s: Seq<A>, x: A, i: int)
    requires
        is_first(s, x, i),
    ensures
        first(s, x) == i,
{
    let k = first(s, x);
    if k < i {
        assert(s[k] != x);
    } else if i < k {
        assert(s[i] != x);
    }
}

/// A sequence that contains `x` has a first position of it.
pub proof fn lemma_first_exists<A>(s: Seq<A>, x: A)
    requires
        s.contains(x),
    ensures
        is_first(s, x, first(s, x)),
    decreases s.len(),
{
    let w = choose|i: int| 0 <= i < s.len() && s[i] == x;
    if forall|j: int| 0 <= j < w ==> s[j] != x {
        assert(is_first(s, x, w));
    } else {
        let j = choose|j: int| 0 <= j < w && s[j] == x;
        let t = s.take(w);
        assert(t[j] == x);
        lemma_first_exists(t, x);
        let k = first(t, x);
        assert forall|j: int| 0 <= j < k implies s[j] != x by {
            assert(t[j] == s[j]);
        }
        assert(is_first(s, x, k));
    }
}

/// `s` without the element at `i`: the last element moves into its place.
pub open spec fn swap_removed<A>(s: Seq<A>, i: int) -> Seq<A> {
    s.update(i, s.last()).drop_last()
}

/// The elements of `s` whose position `mask` marks, in order. A position that
/// `mask` does not reach counts as unmarked.
pub open spec fn masked<A>(s: Seq<A>, mask: Seq<bool>) -> Seq<A>
    decreases s.len(),
{
    if s.len() == 0 {
        s
    } else {
        let rest = masked(s.drop_last(), mask);
        if s.len() <= mask.len() && mask[s.len() - 1] {
            rest.push(s.last())
        } else {
            rest
        }
    }
}

/// One more element masked: the step of a loop that selects by a mask.
pub proof fn lemma_masked_step<A>(s: Seq<A>, mask: Seq<bool>, i: int)
    requires
        0 <= i < s.len(),
    ensures
        masked(s.take(i + 1), mask) == if i < mask.len() && mask[i] {
            masked(s.take(i), mask).push(s[i])
        } else {
            masked(s.take(i), mask)
        },
{
    assert(s.take(i + 1).drop_last() =~= s.take(i));
}

/// What a mask lets through is an element at a marked position.
pub proof fn lemma_masked_from<A>(s: Seq<A>, mask: Seq<bool>, i: int) -> (k: int)
    requires
        0 <= i < masked(s, mask).len(),
    ensures
        0 <= k < s.len(),
        k < mask.len(),
        mask[k],
        s[k] == masked(s, mask)[i],
    decreases s.len(),
{
    if s.len() <= mask.len() && mask[s.len() - 1] && i == masked(s, mask).len() - 1 {
        s.len() - 1
    } else {
        lemma_masked_from(s.drop_last(), mask, i)
    }
}

/// An element at a marked position passes the mask.
pub proof fn lemma_masked_has<A>(s: Seq<A>, mask: Seq<bool>, k: int)
    requires
        0 <= k < s.len(),
        k < mask.len(),
        mask[k],
    ensures
        masked(s, mask).contains(s[k]),
    decreases s.len(),
{
    if k == s.len() - 1 {
        let m = masked(s, mask);
        assert(m[m.len() - 1] == s[k]);
    } else {
        lemma_masked_has(s.drop_last(), mask, k);
        let rest = masked(s.drop_last(), mask);
        let j = choose|j: int| 0 <= j < rest.len() && rest[j] == s[k];
        assert(masked(s, mask)[j] == s[k]);
    }
}

/// What a selection maps an element to is among what it yields.
pub proof fn lemma_filter_map_has<A, B>(s: Seq<A>, f: spec_fn(A) -> Option<B>, i: int)
    requires
        0 <= i < s.len(),
        f(s[i]) is Some,
    ensures
        s.filter_map(f).contains(f(s[i])->0),
    decreases s.len(),
{
    let y = f(s[i])->0;
    let rest = s.drop_last();
    let all = s.filter_map(f);
    if i == s.len() - 1 {
        assert(all[all.len() - 1] == y);
    } else {
        lemma_filter_map_has(rest, f, i);
        let had = rest.filter_map(f);
        let w = choose|w: int| 0 <= w < had.len() && had[w] == y;
        assert(all[w] == y);
    }
}

/// One more element folded: the step of a loop that computes a fold.
pub proof fn lemma_fold_step<A, B>(s: Seq<A>, b: B, f: spec_fn(B, A) -> B, i: int)
    requires
        0 <= i < s.len(),
    ensures
        s.take(i + 1).fold_left(b, f) == f(s.take(i).fold_left(b, f), s[i]),
{
    assert(s.take(i + 1).drop_last() =~= s.take(i));
}

/// One more element filtered: the step of a loop that computes a filter.
pub proof fn lemma_filter_step<A>(s: Seq<A>, p: spec_fn(A) -> bool, i: int)
    requires
        0 <= i < s.len(),
    ensures
        s.take(i + 1).filter(p) == if p(s[i]) {
            s.take(i).filter(p).push(s[i])
        } else {
            s.take(i).filter(p)
        },
{
    assert(s.take(i + 1) =~= s.take(i).push(s[i]));
    s.take(i).lemma_filter_push(s[i], p);
}

/// Searches a list of integers for the first occurrence of `x`.
pub fn position(v: &[usize], x: usize) -> (r: Option<usize>)
    ensures
        r is Some <==> v@.contains(x),
        r is Some ==> r->0 == first(v@, x) && is_first(v@, x, r->0 as int),
{
    let mut i: usize = 0;
    while i < v.len()
        invariant
            i <= v.len(),
            forall|j: int| 0 <= j < i ==> v@[j] != x,
        decreases v.len() - i,
    {
        if v[i] == x {
            proof {
                lemma_first_is(v@, x, i as int);
            }
            return Some(i);
        }
        i += 1;
    }
    None
}

} // verus!
