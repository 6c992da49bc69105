//! Sorting through the standard library.

use vstd::prelude::*;

verus! {

broadcast use vstd::seq_lib::group_to_multiset_ensures;

/// Whether `s` is in ascending order.
pub open spec fn ascending(s: Seq<usize>) -> bool {
    forall|i: int, j: int| 0 <= i <= j < s.len() ==> s[i] <= s[j]
}

/// Whether `s` is in strictly ascending order.
pub open spec fn strictly_ascending(s: Seq<usize>) -> bool {
    forall|i: int, j: int| 0 <= i < j < s.len() ==> s[i] < s[j]
}

/// Calls `slice::sort_unstable` on identifiers: afterwards they are in
/// ascending order, each as many times as before.
#[verifier::external_body]
pub(crate) fn sort_ids(v: &mut Vec<usize>)
    ensures
        final(v)@.to_multiset() == old(v)@.to_multiset(),
        ascending(final(v)@),
{
    v.sort_unstable()
}

/// Sorting a duplicate-free sequence keeps it duplicate-free, with the same
/// elements, and makes it strictly ascending.
pub proof fn lemma_sorted_distinct(before: Seq<usize>, after: Seq<usize>)
    requires
        before.no_duplicates(),
        after.to_multiset() == before.to_multiset(),
        ascending(after),
    ensures
        after.no_duplicates(),
        after.to_set() == before.to_set(),
        strictly_ascending(after),
{
    before.lemma_multiset_has_no_duplicates();
    assert forall|x: usize| after.to_multiset().contains(x) implies after.to_multiset().count(x) == 1 by {
    }
    after.lemma_multiset_has_no_duplicates_conv();
    assert forall|x: usize| after.contains(x) <==> before.contains(x) by {
        vstd::seq_lib::to_multiset_contains(after, x);
        vstd::seq_lib::to_multiset_contains(before, x);
    }
    assert(after.to_set() =~= before.to_set());
    assert forall|i: int, j: int| 0 <= i < j < after.len() implies after[i] < after[j] by {
        assert(after[i] != after[j]);
    }
}

/// The elements of `s` in strictly ascending order.
pub open spec fn sorted_members(s: Set<usize>) -> Seq<usize> {
    choose|q: Seq<usize>| strictly_ascending(q) && q.to_set() == s
}

/// Two strictly ascending sequences with the same elements are equal.
pub proof fn lemma_strictly_ascending_unique(a: Seq<usize>, b: Seq<usize>)
    requires
        strictly_ascending(a),
        strictly_ascending(b),
        a.to_set() == b.to_set(),
    ensures
        a == b,
    decreases a.len(),
{
    broadcast use vstd::seq_lib::group_seq_properties;

    if a.len() == 0 {
        if b.len() > 0 {
            assert(b.to_set().contains(b[0]));
        }
        assert(a =~= b);
    } else {
        assert(a.to_set().contains(a.last()));
        assert(b.len() > 0) by {
            assert(b.to_set().contains(a.last()));
        }
        let x = a.last();
        let y = b.last();
        assert(x == y) by {
            assert(b.to_set().contains(x));
            assert(a.to_set().contains(y));
            let i = choose|i: int| 0 <= i < b.len() && b[i] == x;
            let j = choose|j: int| 0 <= j < a.len() && a[j] == y;
            assert(x <= y && y <= x);
        }
        let a0 = a.drop_last();
        let b0 = b.drop_last();
        assert(a0.to_set() =~= b0.to_set()) by {
            assert forall|z: usize| a0.to_set().contains(z) implies b0.to_set().contains(z) by {
                let i = choose|i: int| 0 <= i < a0.len() && a0[i] == z;
                assert(a.to_set().contains(z));
                let j = choose|j: int| 0 <= j < b.len() && b[j] == z;
                assert(z < x);
                assert(j != b.len() - 1);
                assert(b0[j] == z);
            }
            assert forall|z: usize| b0.to_set().contains(z) implies a0.to_set().contains(z) by {
                let i = choose|i: int| 0 <= i < b0.len() && b0[i] == z;
                assert(b.to_set().contains(z));
                let j = choose|j: int| 0 <= j < a.len() && a[j] == z;
                assert(z < x);
                assert(j != a.len() - 1);
                assert(a0[j] == z);
            }
        }
        lemma_strictly_ascending_unique(a0, b0);
        assert(a =~= b) by {
            assert(a == a0.push(x));
            assert(b == b0.push(y));
        }
    }
}

/// The elements of `s` below `n`, in ascending order.
pub open spec fn members_below(s: Set<usize>, n: nat) -> Seq<usize>
    decreases n,
{
    if n == 0 {
        Seq::empty()
    } else if s.contains((n - 1) as usize) {
        members_below(s, (n - 1) as nat).push((n - 1) as usize)
    } else {
        members_below(s, (n - 1) as nat)
    }
}

proof fn lemma_members_below(s: Set<usize>, n: nat)
    requires
        n <= usize::MAX + 1,
    ensures
        strictly_ascending(members_below(s, n)),
        forall|j: int| 0 <= j < members_below(s, n).len() ==> #[trigger] members_below(s, n)[j] < n,
        forall|x: usize| #[trigger] members_below(s, n).contains(x) <==> (s.contains(x) && x < n),
    decreases n,
{
    broadcast use vstd::seq_lib::group_seq_properties;

    if n > 0 {
        lemma_members_below(s, (n - 1) as nat);
    }
}

/// Every set of identifiers below `n` has a sorted sequence of its elements.
pub proof fn lemma_sorted_members_exist(s: Set<usize>, n: usize)
    requires
        forall|x: usize| #[trigger] s.contains(x) ==> x < n,
    ensures
        strictly_ascending(sorted_members(s)),
        sorted_members(s).to_set() == s,
{
    let q = members_below(s, n as nat);
    lemma_members_below(s, n as nat);
    assert(q.to_set() =~= s);
    assert(strictly_ascending(q) && q.to_set() == s);
}

/// A strictly ascending sequence is the sorted sequence of its elements.
pub proof fn lemma_sorted_members(q: Seq<usize>)
    requires
        strictly_ascending(q),
    ensures
        sorted_members(q.to_set()) == q,
{
    let s = q.to_set();
    assert(strictly_ascending(q) && q.to_set() == s);
    let c = sorted_members(s);
    lemma_strictly_ascending_unique(c, q);
}

} // verus!
