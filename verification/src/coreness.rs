//! The h-index that a node computes from its neighbours' coreness estimates.

use vstd::prelude::*;
use std::collections::HashMap;
use vstd::std_specs::iter::IteratorSpec;

verus! {

broadcast use vstd::std_specs::hash::group_hash_axioms;

/// The keys of a map, each once, in the order the map is walked.
pub fn map_keys<V>(m: &HashMap<usize, V>) -> (r: Vec<usize>)
    ensures
        r@.no_duplicates(),
        r@.to_set() == m@.dom(),
        r@.len() == m@.dom().len(),
{
    let mut r: Vec<usize> = Vec::new();
    let ghost all = vstd::std_specs::hash::spec_keys_iter(m).remaining();
    for k in it: m.keys()
        invariant
            it.seq() == all,
            r@ == all.take(it.index()).unref(),
    {
        r.push(*k);
        assert(r@ =~= all.take(it.index() + 1).unref());
    }
    assert(r@ =~= all.unref());
    r
}


/// A map from neighbour to (coreness estimate, time of the estimate).
pub type Estimates = Map<usize, (usize, usize)>;

/// How many neighbours have an estimate of at least `i`.
pub open spec fn count_at_least(est: Estimates, i: int) -> nat {
    est.dom().filter(|k: usize| est[k].0 >= i).len()
}

/// Whether some neighbour's estimate is still unknown (`usize::MAX`).
pub open spec fn has_unknown_estimate(est: Estimates) -> bool {
    exists|k: usize| est.dom().contains(k) && #[trigger] est[k].0 == usize::MAX
}

/// The largest `i` in `1..=top` such that at least `i` neighbours have an
/// estimate of at least `i`; `usize::MAX` when there is none.
pub open spec fn h_index_upto(est: Estimates, top: nat) -> usize
    decreases top,
{
    if top == 0 {
        usize::MAX
    } else if count_at_least(est, top as int) >= top {
        top as usize
    } else {
        h_index_upto(est, (top - 1) as nat)
    }
}

/// The h-index of the estimates: the largest `i` such that at least `i`
/// neighbours have an estimate of at least `i`, or `usize::MAX` when no
/// positive `i` qualifies.
pub open spec fn h_index(est: Estimates) -> usize {
    h_index_upto(est, est.dom().len())
}

/// The coreness a node computes from its estimates, its current coreness and
/// its degree: while some estimate is unknown it keeps the smaller of its
/// coreness and its degree, otherwise it takes the h-index of the estimates.
pub open spec fn coreness_from(est: Estimates, coreness: usize, deg: usize) -> usize {
    if has_unknown_estimate(est) {
        if coreness <= deg { coreness } else { deg }
    } else {
        h_index(est)
    }
}

/// The bucket an estimate falls in when estimates are capped at `cap`.
pub open spec fn bucket(v: usize, cap: int) -> int {
    if v < cap { v as int } else { cap }
}

/// How many of the keys `ks` have their estimate in bucket `j`.
pub open spec fn count_in_bucket(ks: Seq<usize>, est: Estimates, cap: int, j: int) -> nat
    decreases ks.len(),
{
    if ks.len() == 0 {
        0
    } else {
        count_in_bucket(ks.drop_last(), est, cap, j) + if bucket(est[ks.last()].0, cap) == j {
            1nat
        } else {
            0nat
        }
    }
}

/// How many of the keys `ks` have their estimate in bucket `i` or above.
pub open spec fn count_from_bucket(ks: Seq<usize>, est: Estimates, cap: int, i: int) -> nat
    decreases ks.len(),
{
    if ks.len() == 0 {
        0
    } else {
        count_from_bucket(ks.drop_last(), est, cap, i) + if bucket(est[ks.last()].0, cap) >= i {
            1nat
        } else {
            0nat
        }
    }
}

proof fn lemma_bucket_count_le(ks: Seq<usize>, est: Estimates, cap: int, j: int)
    ensures
        count_in_bucket(ks, est, cap, j) <= ks.len(),
    decreases ks.len(),
{
    if ks.len() > 0 {
        lemma_bucket_count_le(ks.drop_last(), est, cap, j);
    }
}

proof fn lemma_from_bucket_le(ks: Seq<usize>, est: Estimates, cap: int, i: int)
    ensures
        count_from_bucket(ks, est, cap, i) <= ks.len(),
    decreases ks.len(),
{
    if ks.len() > 0 {
        lemma_from_bucket_le(ks.drop_last(), est, cap, i);
    }
}

proof fn lemma_from_bucket_split(ks: Seq<usize>, est: Estimates, cap: int, i: int)
    ensures
        count_from_bucket(ks, est, cap, i) == count_from_bucket(ks, est, cap, i + 1)
            + count_in_bucket(ks, est, cap, i),
    decreases ks.len(),
{
    if ks.len() > 0 {
        lemma_from_bucket_split(ks.drop_last(), est, cap, i);
    }
}

proof fn lemma_from_bucket_above_cap(ks: Seq<usize>, est: Estimates, cap: int, i: int)
    requires
        i > cap,
    ensures
        count_from_bucket(ks, est, cap, i) == 0,
    decreases ks.len(),
{
    if ks.len() > 0 {
        lemma_from_bucket_above_cap(ks.drop_last(), est, cap, i);
    }
}

/// Counting keys of a duplicate-free sequence is counting the set it makes.
proof fn lemma_from_bucket_set(ks: Seq<usize>, est: Estimates, cap: int, i: int)
    requires
        ks.no_duplicates(),
    ensures
        count_from_bucket(ks, est, cap, i) == ks.to_set().filter(
            |k: usize| bucket(est[k].0, cap) >= i,
        ).len(),
    decreases ks.len(),
{
    broadcast use vstd::seq_lib::group_seq_properties;

    let p = |k: usize| bucket(est[k].0, cap) >= i;
    if ks.len() == 0 {
        assert(ks.to_set().filter(p) =~= Set::empty());
    } else {
        let init = ks.drop_last();
        let x = ks.last();
        assert(init.no_duplicates()) by {
            assert forall|a: int, b: int| 0 <= a < init.len() && 0 <= b < init.len() && a != b
                implies init[a] != init[b] by {
                assert(init[a] == ks[a] && init[b] == ks[b]);
            }
        }
        lemma_from_bucket_set(init, est, cap, i);
        assert(!init.contains(x)) by {
            if init.contains(x) {
                let a = choose|a: int| 0 <= a < init.len() && init[a] == x;
                assert(ks[a] == ks[ks.len() - 1]);
            }
        }
        assert(ks =~= init.push(x));
        assert(ks.to_set() =~= init.to_set().insert(x));
        init.lemma_cardinality_of_set();
        if p(x) {
            assert(ks.to_set().filter(p) =~= init.to_set().filter(p).insert(x));
        } else {
            assert(ks.to_set().filter(p) =~= init.to_set().filter(p));
        }
    }
}

/// The h-index of the estimates, or `None` when some estimate is still
/// unknown (`usize::MAX`). Estimates are counted in buckets, those above the
/// number of neighbours sharing the top bucket, and the buckets are summed
/// from the top down until the sum reaches the bucket's index.
pub fn estimate_h_index(estimate: &HashMap<usize, (usize, usize)>) -> (r: Option<usize>)
    requires
        estimate@.dom().len() < usize::MAX,
    ensures
        r == (if has_unknown_estimate(estimate@) { None } else { Some(h_index(estimate@)) }),
{
    let ghost est = estimate@;
    let keys = map_keys(estimate);
    let e = keys.len();
    let mut count: Vec<usize> = Vec::new();
    let mut j: usize = 0;
    while j <= e
        invariant
            j <= e + 1,
            e < usize::MAX,
            count@.len() == j,
            forall|a: int| 0 <= a < j ==> count@[a] == 0,
        decreases e + 1 - j,
    {
        count.push(0);
        j = j + 1;
    }
    let ghost cap = e as int;
    for idx in 0..e
        invariant
            e == keys@.len(),
            e == est.dom().len(),
            e < usize::MAX,
            cap == e,
            estimate@ == est,
            keys@.to_set() == est.dom(),
            count@.len() == e + 1,
            forall|a: int| 0 <= a <= e ==> #[trigger] count@[a] == count_in_bucket(
                keys@.take(idx as int), est, cap, a),
            forall|a: int| 0 <= a < idx ==> est[#[trigger] keys@[a]].0 != usize::MAX,
    {
        let k = keys[idx];
        assert(keys@.to_set().contains(k));
        let v = estimate.get(&k).unwrap().0;
        assert(keys@.take(idx + 1).drop_last() =~= keys@.take(idx as int));
        if v < usize::MAX {
            let b: usize = if v < count.len() { v } else { e };
            assert(b == bucket(v, cap));
            proof {
                lemma_bucket_count_le(keys@.take(idx as int), est, cap, b as int);
            }
            count.set(b, count[b] + 1);
            assert forall|a: int| 0 <= a <= e implies #[trigger] count@[a] == count_in_bucket(
                keys@.take(idx + 1), est, cap, a) by {}
        } else {
            assert(est.dom().contains(k) && est[k].0 == usize::MAX);
            return None;
        }
    }
    assert(keys@.take(e as int) =~= keys@);
    assert(!has_unknown_estimate(est)) by {
        if has_unknown_estimate(est) {
            let k = choose|k: usize| est.dom().contains(k) && #[trigger] est[k].0 == usize::MAX;
            assert(keys@.to_set().contains(k));
            let a = choose|a: int| 0 <= a < keys@.len() && keys@[a] == k;
            assert(est[keys@[a]].0 != usize::MAX);
        }
    }
    let mut total: usize = 0;
    let mut i: usize = e;
    proof {
        lemma_from_bucket_above_cap(keys@, est, cap, cap + 1);
    }
    loop
        invariant
            i <= e,
            cap == e,
            estimate@ == est,
            e == keys@.len(),
            e == est.dom().len(),
            keys@.no_duplicates(),
            keys@.to_set() == est.dom(),
            !has_unknown_estimate(est),
            count@.len() == e + 1,
            forall|a: int| 0 <= a <= e ==> #[trigger] count@[a] == count_in_bucket(
                keys@, est, cap, a),
            total == count_from_bucket(keys@, est, cap, i + 1),
            h_index_upto(est, e as nat) == h_index_upto(est, i as nat),
        decreases i,
    {
        proof {
            lemma_from_bucket_split(keys@, est, cap, i as int);
            lemma_from_bucket_le(keys@, est, cap, i as int);
        }
        total = total + count[i];
        if total >= i {
            if i > 0 {
                proof {
                    lemma_from_bucket_set(keys@, est, cap, i as int);
                    assert(est.dom().filter(|k: usize| bucket(est[k].0, cap) >= i)
                        =~= est.dom().filter(|k: usize| est[k].0 >= i));
                }
                return Some(i);
            }
            return Some(usize::MAX);
        }
        proof {
            lemma_from_bucket_set(keys@, est, cap, i as int);
            assert(est.dom().filter(|k: usize| bucket(est[k].0, cap) >= i)
                =~= est.dom().filter(|k: usize| est[k].0 >= i));
        }
        i = i - 1;
    }
}

} // verus!
