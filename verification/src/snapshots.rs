//! Turning a timestamped edge list into snapshots: edges are ordered by time
//! and cut into windows of a given length.

use vstd::prelude::*;

verus! {

broadcast use vstd::seq_lib::group_to_multiset_ensures;

/// The sort key of an edge `(u, v, t)`: time first, then the endpoints.
pub open spec fn spec_time_key(e: (usize, usize, usize)) -> (usize, usize, usize) {
    (e.2, e.0, e.1)
}

/// Whether `a` comes no later than `b` in lexicographic order.
pub open spec fn lex_le(a: (usize, usize, usize), b: (usize, usize, usize)) -> bool {
    a.0 < b.0 || (a.0 == b.0 && (a.1 < b.1 || (a.1 == b.1 && a.2 <= b.2)))
}

/// Whether the edges are ordered by time, then by endpoints.
pub open spec fn time_ordered(s: Seq<(usize, usize, usize)>) -> bool {
    forall|i: int, j: int| 0 <= i <= j < s.len() ==> lex_le(spec_time_key(s[i]), spec_time_key(s[j]))
}

/// The sort key of an edge `(u, v, t)`: `(t, u, v)`.
pub fn time_key(e: &(usize, usize, usize)) -> (r: (usize, usize, usize))
    ensures
        r == spec_time_key(*e),
{
    (e.2, e.0, e.1)
}

/// Calls `slice::sort_unstable_by_key` with `time_key`: afterwards the edges
/// are in ascending order of their keys (tuples compare lexicographically),
/// each as many times as before.
#[verifier::external_body]
fn sort_by_time_key(v: &mut Vec<(usize, usize, usize)>)
    ensures
        final(v)@.to_multiset() == old(v)@.to_multiset(),
        time_ordered(final(v)@),
{
    v.sort_unstable_by_key(|e| time_key(e))
}

/// Orders the edges `(u, v, t)` by time, then by `u`, then by `v`.
pub fn sort_by_time(triplets: &mut Vec<(usize, usize, usize)>)
    ensures
        final(triplets)@.to_multiset() == old(triplets)@.to_multiset(),
        time_ordered(final(triplets)@),
{
    sort_by_time_key(triplets);
}

/// The snapshots cut so far, the start of the current window, the largest
/// endpoint seen and the number of edges kept.
pub struct SnapshotSplit {
    pub buckets: Seq<Seq<(usize, usize)>>,
    pub window_start: usize,
    pub max_node: usize,
    pub edges: nat,
}

/// The split of the edges `ts`, the first window starting at `first`: self
/// loops are dropped; an edge at or after the window start plus
/// `snap_length` opens a new snapshot whose window starts at its time; every
/// kept edge goes into the last snapshot.
pub open spec fn split_edges(ts: Seq<(usize, usize, usize)>, snap_length: usize, first: usize) -> SnapshotSplit
    decreases ts.len(),
{
    if ts.len() == 0 {
        SnapshotSplit { buckets: seq![Seq::empty()], window_start: first, max_node: 0, edges: 0 }
    } else {
        let prev = split_edges(ts.drop_last(), snap_length, first);
        let (u, v, t) = ts.last();
        if u == v {
            prev
        } else {
            let top = if u >= v { u } else { v };
            let m = if prev.max_node >= top { prev.max_node } else { top };
            if t >= prev.window_start + snap_length {
                SnapshotSplit {
                    buckets: prev.buckets.push(seq![(u, v)]),
                    window_start: t,
                    max_node: m,
                    edges: prev.edges + 1,
                }
            } else {
                SnapshotSplit {
                    buckets: prev.buckets.update(prev.buckets.len() - 1, prev.buckets.last().push((u, v))),
                    window_start: prev.window_start,
                    max_node: m,
                    edges: prev.edges + 1,
                }
            }
        }
    }
}

/// The edges of `ts` without the self loops, in order, as pairs.
pub open spec fn kept_edges(ts: Seq<(usize, usize, usize)>) -> Seq<(usize, usize)>
    decreases ts.len(),
{
    if ts.len() == 0 {
        Seq::empty()
    } else {
        let prev = kept_edges(ts.drop_last());
        let (u, v, t) = ts.last();
        if u == v { prev } else { prev.push((u, v)) }
    }
}

/// Cutting edges into snapshots loses, adds and reorders nothing: the
/// snapshots, one after the other, are the edges without self loops in their
/// order, and `edges` counts them.
pub proof fn lemma_split_keeps_edges(ts: Seq<(usize, usize, usize)>, snap_length: usize, first: usize)
    ensures
        split_edges(ts, snap_length, first).buckets.flatten() == kept_edges(ts),
        split_edges(ts, snap_length, first).edges == kept_edges(ts).len(),
    decreases ts.len(),
{
    let sp = split_edges(ts, snap_length, first);
    if ts.len() == 0 {
        sp.buckets.lemma_flatten_one_element();
    } else {
        let init = ts.drop_last();
        lemma_split_keeps_edges(init, snap_length, first);
        lemma_split_shape(init, snap_length, first);
        let prev = split_edges(init, snap_length, first);
        let (u, v, t) = ts.last();
        prev.buckets.lemma_flatten_and_flatten_alt_are_equivalent();
        sp.buckets.lemma_flatten_and_flatten_alt_are_equivalent();
        if u != v {
            if t >= prev.window_start + snap_length {
                assert(sp.buckets.drop_last() =~= prev.buckets);
            } else {
                let b = prev.buckets;
                assert(sp.buckets.drop_last() =~= b.drop_last());
                assert(b.flatten_alt() == b.drop_last().flatten_alt() + b.last());
                assert(sp.buckets.flatten_alt() =~= b.flatten_alt().push((u, v)));
            }
        }
    }
}

/// The largest node the split reports is the largest endpoint of an edge
/// that is not a self loop: every such edge has both endpoints at most
/// `max_node`, and `max_node` is an endpoint of one of them (zero when there
/// is none).
pub proof fn lemma_split_max_node(ts: Seq<(usize, usize, usize)>, snap_length: usize, first: usize)
    ensures
        forall|j: int| 0 <= j < ts.len() && #[trigger] ts[j].0 != ts[j].1 ==> ts[j].0 <= split_edges(
            ts,
            snap_length,
            first,
        ).max_node && ts[j].1 <= split_edges(ts, snap_length, first).max_node,
        split_edges(ts, snap_length, first).max_node == 0 || exists|j: int|
            0 <= j < ts.len() && #[trigger] ts[j].0 != ts[j].1 && (ts[j].0 == split_edges(ts, snap_length, first).max_node
                || ts[j].1 == split_edges(ts, snap_length, first).max_node),
    decreases ts.len(),
{
    if ts.len() > 0 {
        let init = ts.drop_last();
        lemma_split_max_node(init, snap_length, first);
        let m0 = split_edges(init, snap_length, first).max_node;
        let m = split_edges(ts, snap_length, first).max_node;
        assert forall|j: int| 0 <= j < ts.len() && #[trigger] ts[j].0 != ts[j].1 implies ts[j].0 <= m && ts[j].1 <= m by {
            if j < init.len() {
                assert(init[j] == ts[j]);
            }
        }
        if m != 0 {
            if m == m0 {
                let j = choose|j: int|
                    0 <= j < init.len() && #[trigger] init[j].0 != init[j].1 && (init[j].0 == m0 || init[j].1 == m0);
                assert(ts[j] == init[j]);
            } else {
                let l = ts.len() - 1;
                assert(ts[l] == ts.last());
            }
        }
    }
}

proof fn lemma_split_first_window(ts: Seq<(usize, usize, usize)>, snap_length: usize, first: usize)
    ensures
        split_edges(ts, snap_length, first).buckets.len() == 1 ==> split_edges(ts, snap_length, first).window_start
            == first,
        split_edges(ts, snap_length, first).buckets.len() >= 1,
    decreases ts.len(),
{
    if ts.len() > 0 {
        lemma_split_first_window(ts.drop_last(), snap_length, first);
    }
}

/// Where the snapshots are cut: while every edge that is not a self loop
/// lies less than `snap_length` after the first window's start, there is a
/// single snapshot; as soon as one lies at least `snap_length` after it, a
/// second snapshot is opened.
pub proof fn lemma_split_cuts(ts: Seq<(usize, usize, usize)>, snap_length: usize, first: usize)
    ensures
        (forall|j: int| 0 <= j < ts.len() && #[trigger] ts[j].0 != ts[j].1 ==> ts[j].2 < first + snap_length)
            ==> split_edges(ts, snap_length, first).buckets.len() == 1,
        (exists|j: int| 0 <= j < ts.len() && #[trigger] ts[j].0 != ts[j].1 && ts[j].2 >= first + snap_length)
            ==> split_edges(ts, snap_length, first).buckets.len() >= 2,
    decreases ts.len(),
{
    if ts.len() > 0 {
        let init = ts.drop_last();
        lemma_split_cuts(init, snap_length, first);
        lemma_split_first_window(init, snap_length, first);
        if forall|j: int| 0 <= j < ts.len() && #[trigger] ts[j].0 != ts[j].1 ==> ts[j].2 < first + snap_length {
            assert forall|j: int| 0 <= j < init.len() && #[trigger] init[j].0 != init[j].1 implies init[j].2 < first
                + snap_length by {
                assert(init[j] == ts[j]);
            }
            assert(ts[ts.len() - 1] == ts.last());
        }
        if exists|j: int| 0 <= j < ts.len() && #[trigger] ts[j].0 != ts[j].1 && ts[j].2 >= first + snap_length {
            let j = choose|j: int| 0 <= j < ts.len() && #[trigger] ts[j].0 != ts[j].1 && ts[j].2 >= first + snap_length;
            if j < init.len() {
                assert(init[j] == ts[j]);
                assert(init[j].0 != init[j].1 && init[j].2 >= first + snap_length);
            } else {
                assert(ts[j] == ts.last());
            }
        }
    }
}

proof fn lemma_split_shape(ts: Seq<(usize, usize, usize)>, snap_length: usize, first: usize)
    ensures
        split_edges(ts, snap_length, first).buckets.len() >= 1,
        split_edges(ts, snap_length, first).buckets.len() <= ts.len() + 1,
        split_edges(ts, snap_length, first).edges <= ts.len(),
    decreases ts.len(),
{
    if ts.len() > 0 {
        lemma_split_shape(ts.drop_last(), snap_length, first);
    }
}

/// Cuts the edges `(u, v, t)`, in the given order, into snapshots of
/// `snap_length` time units (see `split_edges`), the first window starting
/// at the time of the first edge. Returns the snapshots, the largest
/// endpoint and the number of edges kept.
pub fn split_into_snapshots(triplets: &Vec<(usize, usize, usize)>, snap_length: usize) -> (r: (
    Vec<Vec<(usize, usize)>>,
    usize,
    usize,
))
    requires
        triplets@.len() > 0,
    ensures
        r.0@.len() == split_edges(triplets@, snap_length, triplets@[0].2).buckets.len(),
        forall|i: int| 0 <= i < r.0@.len() ==> #[trigger] r.0@[i]@ == split_edges(
            triplets@,
            snap_length,
            triplets@[0].2,
        ).buckets[i],
        r.1 == split_edges(triplets@, snap_length, triplets@[0].2).max_node,
        r.2 == split_edges(triplets@, snap_length, triplets@[0].2).edges,
        r.0@.map_values(|b: Vec<(usize, usize)>| b@).flatten() == kept_edges(triplets@),
        r.2 == kept_edges(triplets@).len(),
        forall|j: int| 0 <= j < triplets@.len() && #[trigger] triplets@[j].0 != triplets@[j].1 ==> triplets@[j].0
            <= r.1 && triplets@[j].1 <= r.1,
        r.1 == 0 || exists|j: int|
            0 <= j < triplets@.len() && #[trigger] triplets@[j].0 != triplets@[j].1 && (triplets@[j].0 == r.1
                || triplets@[j].1 == r.1),
{
    let first = triplets[0].2;
    let mut min_timestamp = first;
    let mut max_nodes: usize = 0;
    let mut buckets: Vec<Vec<(usize, usize)>> = Vec::new();
    buckets.push(Vec::new());
    let mut edges: usize = 0;
    for j in 0..triplets.len()
        invariant
            first == triplets@[0].2,
            buckets@.len() >= 1,
            buckets@.len() == split_edges(triplets@.take(j as int), snap_length, first).buckets.len(),
            forall|i: int| 0 <= i < buckets@.len() ==> #[trigger] buckets@[i]@ == split_edges(
                triplets@.take(j as int),
                snap_length,
                first,
            ).buckets[i],
            min_timestamp == split_edges(triplets@.take(j as int), snap_length, first).window_start,
            max_nodes == split_edges(triplets@.take(j as int), snap_length, first).max_node,
            edges == split_edges(triplets@.take(j as int), snap_length, first).edges,
            edges <= j,
    {
        let (u, v, timestamp) = triplets[j];
        proof {
            assert(triplets@.take(j + 1).drop_last() =~= triplets@.take(j as int));
            lemma_split_shape(triplets@.take(j as int), snap_length, first);
        }
        if u != v {
            let top = if u >= v { u } else { v };
            if top > max_nodes {
                max_nodes = top;
            }
            if timestamp >= min_timestamp && timestamp - min_timestamp >= snap_length {
                min_timestamp = timestamp;
                buckets.push(Vec::new());
            }
            let last = buckets.len() - 1;
            buckets[last].push((u, v));
            edges = edges + 1;
        }
        assert forall|i: int| 0 <= i < buckets@.len() implies #[trigger] buckets@[i]@ == split_edges(
            triplets@.take(j + 1),
            snap_length,
            first,
        ).buckets[i] by {}
    }
    assert(triplets@.take(triplets@.len() as int) =~= triplets@);
    proof {
        lemma_split_keeps_edges(triplets@, snap_length, first);
        lemma_split_max_node(triplets@, snap_length, first);
        assert(buckets@.map_values(|b: Vec<(usize, usize)>| b@) =~= split_edges(triplets@, snap_length, first).buckets);
    }
    (buckets, max_nodes, edges)
}

} // verus!
