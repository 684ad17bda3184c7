//! Facts about sequences: where an element first occurs, and what a prefix
//! contains.

use vstd::prelude::*;

verus! {

/// The index of the first occurrence of `x` in `s`, or -1.
pub open spec fn position<A>(s: Seq<A>, x: A) -> int
    decreases s.len(),
{
    if s.len() == 0 {
        -1
    } else if s[0] == x {
        0
    } else {
        let p = position(s.drop_first(), x);
        if p < 0 {
            -1
        } else {
            p + 1
        }
    }
}

pub proof fn lemma_position<A>(s: Seq<A>, x: A)
    ensures
        -1 <= position(s, x) < s.len(),
        position(s, x) >= 0 ==> s[position(s, x)] == x && forall|j: int|
            0 <= j < position(s, x) ==> s[j] != x,
        position(s, x) < 0 ==> forall|j: int| 0 <= j < s.len() ==> s[j] != x,
    decreases s.len(),
{
    if s.len() > 0 && s[0] != x {
        lemma_position(s.drop_first(), x);
        assert forall|j: int| 0 < j < s.len() implies s[j] == s.drop_first()[j - 1] by {}
    }
}

/// `position` is the index of a match with no match before it.
pub proof fn lemma_position_at<A>(s: Seq<A>, x: A, i: int)
    requires
        0 <= i < s.len(),
        s[i] == x,
        forall|j: int| 0 <= j < i ==> s[j] != x,
    ensures
        position(s, x) == i,
{
    lemma_position(s, x);
}

/// What the first `i + 1` elements of a sequence contain.
pub proof fn lemma_take_next_contains<A>(s: Seq<A>, i: int)
    requires
        0 <= i < s.len(),
    ensures
        forall|x: A| #[trigger] s.take(i + 1).contains(x) <==> (s.take(i).contains(x) || x == s[i]),
{
    assert forall|x: A| #[trigger] s.take(i + 1).contains(x) <==> (s.take(i).contains(x) || x == s[i]) by {
        if s.take(i + 1).contains(x) {
            let j = choose|j: int| 0 <= j < i + 1 && #[trigger] s.take(i + 1)[j] == x;
            if j < i {
                assert(s.take(i)[j] == x);
            }
        }
        if s.take(i).contains(x) {
            let j = choose|j: int| 0 <= j < i && #[trigger] s.take(i)[j] == x;
            assert(s.take(i + 1)[j] == x);
        }
        if x == s[i] {
            assert(s.take(i + 1)[i] == x);
        }
    }
}

/// The sum of `f` over the elements of `xs`.
pub open spec fn seq_sum<A>(xs: Seq<A>, f: spec_fn(A) -> int) -> int
    decreases xs.len(),
{
    if xs.len() == 0 {
        0
    } else {
        seq_sum(xs.drop_last(), f) + f(xs.last())
    }
}

pub proof fn lemma_sum_push<A>(xs: Seq<A>, f: spec_fn(A) -> int, y: A)
    ensures
        seq_sum(xs.push(y), f) == seq_sum(xs, f) + f(y),
{
    assert(xs.push(y).drop_last() =~= xs);
}

pub proof fn lemma_sum_update<A>(xs: Seq<A>, f: spec_fn(A) -> int, i: int, y: A)
    requires
        0 <= i < xs.len(),
    ensures
        seq_sum(xs.update(i, y), f) == seq_sum(xs, f) - f(xs[i]) + f(y),
    decreases xs.len(),
{
    if i == xs.len() - 1 {
        assert(xs.update(i, y).drop_last() =~= xs.drop_last());
    } else {
        lemma_sum_update(xs.drop_last(), f, i, y);
        assert(xs.update(i, y).drop_last() =~= xs.drop_last().update(i, y));
    }
}

pub proof fn lemma_sum_remove<A>(xs: Seq<A>, f: spec_fn(A) -> int, i: int)
    requires
        0 <= i < xs.len(),
    ensures
        seq_sum(xs, f) == seq_sum(xs.remove(i), f) + f(xs[i]),
    decreases xs.len(),
{
    if i == xs.len() - 1 {
        assert(xs.remove(i) =~= xs.drop_last());
    } else {
        lemma_sum_remove(xs.drop_last(), f, i);
        assert(xs.remove(i).drop_last() =~= xs.drop_last().remove(i));
        assert(xs.remove(i).last() == xs.last());
    }
}

/// A sum does not depend on the order of the elements.
pub proof fn lemma_sum_permutation<A>(xs: Seq<A>, ys: Seq<A>, f: spec_fn(A) -> int)
    requires
        xs.to_multiset() == ys.to_multiset(),
    ensures
        seq_sum(xs, f) == seq_sum(ys, f),
    decreases xs.len(),
{
    vstd::seq_lib::to_multiset_len(xs);
    vstd::seq_lib::to_multiset_len(ys);
    if xs.len() == 0 {
        assert(ys =~= Seq::<A>::empty());
    } else {
        let x = xs.last();
        let n = xs.len() - 1;
        vstd::seq_lib::to_multiset_remove(xs, n);
        assert(xs.remove(n) =~= xs.drop_last());
        vstd::seq_lib::to_multiset_contains(xs, x);
        vstd::seq_lib::to_multiset_contains(ys, x);
        assert(xs[n] == x);
        assert(xs.contains(x));
        let j = choose|j: int| 0 <= j < ys.len() && ys[j] == x;
        vstd::seq_lib::to_multiset_remove(ys, j);
        lemma_sum_permutation(xs.drop_last(), ys.remove(j), f);
        lemma_sum_remove(ys, f, j);
    }
}

/// A sum whose terms are at most those of another is at most that sum.
pub proof fn lemma_sum_le<A>(xs: Seq<A>, f: spec_fn(A) -> int, g: spec_fn(A) -> int)
    requires
        forall|i: int| 0 <= i < xs.len() ==> f(#[trigger] xs[i]) <= g(xs[i]),
    ensures
        seq_sum(xs, f) <= seq_sum(xs, g),
    decreases xs.len(),
{
    if xs.len() > 0 {
        assert forall|i: int| 0 <= i < xs.drop_last().len() implies f(#[trigger] xs.drop_last()[i]) <= g(
            xs.drop_last()[i],
        ) by {
            assert(xs.drop_last()[i] == xs[i]);
        }
        lemma_sum_le(xs.drop_last(), f, g);
        assert(f(xs[xs.len() - 1]) <= g(xs[xs.len() - 1]));
    }
}

/// A sum of non-negative terms is at least each term, and at least the sum
/// of any prefix.
pub proof fn lemma_sum_bounds<A>(xs: Seq<A>, f: spec_fn(A) -> int)
    requires
        forall|i: int| 0 <= i < xs.len() ==> f(#[trigger] xs[i]) >= 0,
    ensures
        seq_sum(xs, f) >= 0,
        forall|i: int| 0 <= i < xs.len() ==> f(#[trigger] xs[i]) <= seq_sum(xs, f),
        forall|n: int| 0 <= n <= xs.len() ==> #[trigger] seq_sum(xs.take(n), f) <= seq_sum(xs, f),
    decreases xs.len(),
{
    if xs.len() > 0 {
        let pre = xs.drop_last();
        assert forall|i: int| 0 <= i < pre.len() implies f(#[trigger] pre[i]) >= 0 by {
            assert(pre[i] == xs[i]);
        }
        lemma_sum_bounds(pre, f);
        assert(f(xs[xs.len() - 1]) >= 0);
        assert forall|i: int| 0 <= i < xs.len() implies f(#[trigger] xs[i]) <= seq_sum(xs, f) by {
            if i < xs.len() - 1 {
                assert(pre[i] == xs[i]);
            }
        }
        assert forall|n: int| 0 <= n <= xs.len() implies #[trigger] seq_sum(xs.take(n), f) <= seq_sum(xs, f) by {
            if n == xs.len() {
                assert(xs.take(n) =~= xs);
            } else {
                assert(xs.take(n) =~= pre.take(n));
            }
        }
    } else {
        assert forall|n: int| 0 <= n <= xs.len() implies #[trigger] seq_sum(xs.take(n), f) <= seq_sum(xs, f) by {
            assert(xs.take(n) =~= xs);
        }
    }
}

/// A sum whose terms are all zero is zero.
pub proof fn lemma_sum_zero<A>(xs: Seq<A>, f: spec_fn(A) -> int)
    requires
        forall|i: int| 0 <= i < xs.len() ==> f(#[trigger] xs[i]) == 0,
    ensures
        seq_sum(xs, f) == 0,
    decreases xs.len(),
{
    if xs.len() > 0 {
        assert forall|i: int| 0 <= i < xs.drop_last().len() implies f(#[trigger] xs.drop_last()[i]) == 0 by {
            assert(xs.drop_last()[i] == xs[i]);
        }
        lemma_sum_zero(xs.drop_last(), f);
        assert(f(xs[xs.len() - 1]) == 0);
    }
}

} // verus!
