//! Sums of natural-number weights over sequences, used to show that the
//! message rounds of the coreness protocols come to an end.

use vstd::prelude::*;

verus! {

/// The sum of `f` over the elements of `s`.
pub open spec fn sum_of<T>(s: Seq<T>, f: spec_fn(T) -> nat) -> nat
    decreases s.len(),
{
    if s.len() == 0 {
        0
    } else {
        sum_of(s.drop_last(), f) + f(s.last())
    }
}

/// Replacing one element changes the sum by the difference of its weights.
pub proof fn lemma_sum_update<T>(s: Seq<T>, i: int, x: T, f: spec_fn(T) -> nat)
    requires
        0 <= i < s.len(),
    ensures
        sum_of(s.update(i, x), f) + f(s[i]) == sum_of(s, f) + f(x),
    decreases s.len(),
{
    let u = s.update(i, x);
    if i == s.len() - 1 {
        assert(u.drop_last() =~= s.drop_last());
    } else {
        assert(u.drop_last() =~= s.drop_last().update(i, x));
        lemma_sum_update(s.drop_last(), i, x, f);
    }
}

/// A sequence that weighs no more element by element weighs no more in all,
/// and weighs less in all when some element weighs less.
pub proof fn lemma_sum_pointwise<T>(a: Seq<T>, b: Seq<T>, f: spec_fn(T) -> nat)
    requires
        a.len() == b.len(),
        forall|i: int| 0 <= i < a.len() ==> f(#[trigger] a[i]) <= f(b[i]),
    ensures
        sum_of(a, f) <= sum_of(b, f),
        (exists|i: int| 0 <= i < a.len() && f(#[trigger] a[i]) < f(b[i])) ==> sum_of(a, f) < sum_of(b, f),
    decreases a.len(),
{
    if a.len() > 0 {
        let a0 = a.drop_last();
        let b0 = b.drop_last();
        assert forall|i: int| 0 <= i < a0.len() implies f(#[trigger] a0[i]) <= f(b0[i]) by {
            assert(a0[i] == a[i] && b0[i] == b[i]);
        }
        lemma_sum_pointwise(a0, b0, f);
        assert(f(a[a.len() - 1]) <= f(b[a.len() - 1]));
        if exists|i: int| 0 <= i < a.len() && f(#[trigger] a[i]) < f(b[i]) {
            let i = choose|i: int| 0 <= i < a.len() && f(#[trigger] a[i]) < f(b[i]);
            if i < a.len() - 1 {
                assert(a0[i] == a[i] && b0[i] == b[i]);
            }
        }
    }
}

} // verus!
