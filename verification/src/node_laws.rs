//! What a node does with a message, at the end of a snapshot, and which
//! neighbours each activation function keeps, stated over the raw fields of
//! the node.

use vstd::prelude::*;

use crate::activation::{count_true, Half, Intersection, Union};
use crate::completely_new_algorithm::DynamicNodeView;
use crate::coreness::{coreness_from, count_at_least, has_unknown_estimate, h_index, Estimates};
use crate::dynamic_montresor::{
    AliveNodeView, add_edge, core_levels, core_members, count_identified, count_isolated, count_moved, nodes_wf,
};
use crate::alive_rounds::{count_activated, deliver, deliver_to, prepared, Announcement};
use crate::sorting::strictly_ascending;

verus! {

/// Receiving the coreness `core` of `from` stamped `timestamp`: the estimate
/// held for `from` is replaced by `(core, timestamp)` exactly when there is
/// none, when the message is newer, or when it is as recent and lower; the
/// other estimates stay. A replaced estimate makes the node recompute its
/// coreness from the estimates; a changed coreness is marked to announce,
/// and a drop pauses the announcement. A message that replaces nothing
/// changes nothing.
pub proof fn lemma_alive_receive<F: crate::activation::Activation>(
    nv: AliveNodeView<F>,
    from: usize,
    core: usize,
    timestamp: usize,
)
    ensures
        ({
            let r = nv.after_receive(from, core, timestamp);
            let replaced = !nv.estimate.dom().contains(from) || timestamp > nv.estimate[from].1 || (timestamp
                == nv.estimate[from].1 && core < nv.estimate[from].0);
            &&& replaced ==> r.estimate == nv.estimate.insert(from, (core, timestamp))
            &&& replaced ==> r.coreness == coreness_from(r.estimate, nv.coreness, nv.degree() as usize)
            &&& replaced && r.coreness != nv.coreness ==> r.changed && r.activated
            &&& replaced && r.coreness < nv.coreness ==> r.paused
            &&& replaced && r.coreness == nv.coreness ==> r.changed == nv.changed && r.paused == nv.paused
            &&& !replaced ==> r == nv
            &&& r.history == nv.history && r.id == nv.id && r.time == nv.time
        }),
{
    let r = nv.after_receive(from, core, timestamp);
    assert(r.alive_neighbors() =~= nv.alive_neighbors());
}

/// In the broadcasting protocol, receiving the coreness `core` of `from`
/// stamped `timestamp`: the estimate held for `from` is replaced by
/// `(core, timestamp)` exactly when there is none, when the message is
/// newer, or when it is as recent and lower; the other estimates stay. A
/// replaced estimate makes the node recompute its coreness, and a changed
/// coreness is marked to announce. A message that replaces nothing changes
/// nothing.
pub proof fn lemma_dynamic_receive<F: crate::activation::Activation>(
    nv: DynamicNodeView<F>,
    from: usize,
    core: usize,
    timestamp: usize,
)
    ensures
        ({
            let r = nv.after_receive(from, core, timestamp);
            let replaced = !nv.estimate.dom().contains(from) || timestamp > nv.estimate[from].1 || (timestamp
                == nv.estimate[from].1 && core < nv.estimate[from].0);
            &&& replaced ==> r.estimate == nv.estimate.insert(from, (core, timestamp))
            &&& replaced ==> r.coreness == coreness_from(r.estimate, nv.coreness, nv.degree() as usize)
            &&& replaced && r.coreness != nv.coreness ==> r.changed && r.activated
            &&& replaced && r.coreness == nv.coreness ==> r.changed == nv.changed
            &&& !replaced ==> r == nv
            &&& r.history == nv.history && r.id == nv.id && r.time == nv.time
        }),
{
    let r = nv.after_receive(from, core, timestamp);
    assert(r.alive_neighbors() =~= nv.alive_neighbors());
}

/// The reset at the end of a snapshot. A node without an identifier is left
/// as it is. Otherwise the estimates of neighbours that are no longer alive
/// are dropped and the others kept; a pending change is never cleared;
/// a dirty node restarts from its degree and is marked to announce; a node
/// that lost an estimated neighbour recomputes its coreness from the kept
/// estimates (zero meaning unknown) and is marked to announce if that
/// coreness differs; any other node keeps its coreness and change flag. In
/// every case a node whose known coreness changes is marked to announce.
pub proof fn lemma_alive_reset<F: crate::activation::Activation>(nv: AliveNodeView<F>)
    ensures
        ({
            let r = nv.after_reset();
            let kept = nv.estimate.restrict(nv.alive_neighbors());
            let lost = exists|k: usize| #[trigger] nv.estimate.dom().contains(k) && !nv.alive_neighbors().contains(k);
            let c = coreness_from(kept, nv.coreness, nv.degree() as usize);
            &&& nv.id is None ==> r == nv
            &&& nv.id is Some ==> r.estimate == kept
            &&& nv.changed ==> r.changed
            &&& r.coreness != nv.coreness && r.coreness != usize::MAX ==> r.changed
            &&& nv.id is Some && nv.dirty ==> r.coreness == nv.degree() as usize && r.changed && !r.dirty
            &&& nv.id is Some && !nv.dirty && lost ==> r.coreness == (if c == 0 { usize::MAX } else { c })
            &&& nv.id is Some && !nv.dirty && lost && c != 0 && c != nv.coreness ==> r.changed
            &&& nv.id is Some && !nv.dirty && !lost ==> r.coreness == nv.coreness && r.changed == nv.changed
            &&& r.history == nv.history && r.id == nv.id && r.time == nv.time
        }),
{
    if nv.id is Some {
        let r = nv.after_reset();
        let kept = nv.estimate.restrict(nv.alive_neighbors());
        let k2 = AliveNodeView { estimate: kept, count: crate::dynamic_montresor::resized(nv.count, kept.dom().len() + 1), ..nv };
        assert(k2.alive_neighbors() =~= nv.alive_neighbors());
    }
}

/// Under `Intersection` a neighbour is alive exactly when the edge was
/// present in every one of the last `memory_size` snapshots (every snapshot
/// when fewer were seen).
pub proof fn lemma_intersection_alive(nv: AliveNodeView<Intersection>, k: usize)
    requires
        nv.history.dom().contains(k),
    ensures
        nv.alive_neighbors().contains(k) <==> forall|i: int|
            0 <= i < nv.history[k].len() && i >= nv.history[k].len() - nv.memory_size ==> #[trigger] nv.history[k][i],
{
    let h = nv.history[k];
    let w = crate::activation::recent_window(h, nv.memory_size);
    let start: int = if h.len() >= nv.memory_size { h.len() - nv.memory_size } else { 0 };
    assert(w.len() == h.len() - start);
    assert(forall|j: int| 0 <= j < w.len() ==> w[j] == h[j + start]);
    if forall|i: int| 0 <= i < h.len() && i >= h.len() - nv.memory_size ==> #[trigger] h[i] {
        assert forall|j: int| 0 <= j < w.len() implies #[trigger] w[j] by {
            assert(h[j + start]);
        }
    }
    if forall|j: int| 0 <= j < w.len() ==> #[trigger] w[j] {
        assert forall|i: int| 0 <= i < h.len() && i >= h.len() - nv.memory_size implies #[trigger] h[i] by {
            assert(w[i - start]);
        }
    }
}

/// Under `Union` a neighbour is alive exactly when the edge was present in
/// at least one of the last `memory_size` snapshots.
pub proof fn lemma_union_alive(nv: AliveNodeView<Union>, k: usize)
    requires
        nv.history.dom().contains(k),
    ensures
        nv.alive_neighbors().contains(k) <==> exists|i: int|
            0 <= i < nv.history[k].len() && i >= nv.history[k].len() - nv.memory_size && #[trigger] nv.history[k][i],
{
    let h = nv.history[k];
    let w = crate::activation::recent_window(h, nv.memory_size);
    let start: int = if h.len() >= nv.memory_size { h.len() - nv.memory_size } else { 0 };
    assert(w.len() == h.len() - start);
    assert(forall|j: int| 0 <= j < w.len() ==> w[j] == h[j + start]);
    if exists|i: int| 0 <= i < h.len() && i >= h.len() - nv.memory_size && #[trigger] h[i] {
        let i = choose|i: int| 0 <= i < h.len() && i >= h.len() - nv.memory_size && #[trigger] h[i];
        assert(w[i - start]);
    }
    if exists|j: int| 0 <= j < w.len() && #[trigger] w[j] {
        let j = choose|j: int| 0 <= j < w.len() && #[trigger] w[j];
        assert(h[j + start]);
    }
}

/// Under `Half` a neighbour is alive exactly when the edge was present in
/// at least half (rounded down) of the last `memory_size` snapshots, or of
/// all of them when fewer were seen.
pub proof fn lemma_half_alive(nv: AliveNodeView<Half>, k: usize)
    requires
        nv.history.dom().contains(k),
    ensures
        ({
            let h = nv.history[k];
            let n: int = if h.len() >= nv.memory_size { nv.memory_size as int } else { h.len() as int };
            nv.alive_neighbors().contains(k) <==> count_true(h.subrange(h.len() - n, h.len() as int)) >= n / 2
        }),
{
    let h = nv.history[k];
    if h.len() < nv.memory_size {
        assert(h.subrange(0, h.len() as int) =~= h);
    }
}

/// The alive neighbours of a node of the broadcasting protocol are decided
/// as in the alive graph: under `Intersection`, a neighbour is alive exactly
/// when the edge was present in every one of the last `memory_size`
/// snapshots.
pub proof fn lemma_dynamic_intersection_alive(nv: DynamicNodeView<Intersection>, k: usize)
    requires
        nv.history.dom().contains(k),
    ensures
        nv.alive_neighbors().contains(k) <==> forall|i: int|
            0 <= i < nv.history[k].len() && i >= nv.history[k].len() - nv.memory_size ==> #[trigger] nv.history[k][i],
{
    let h = nv.history[k];
    let w = crate::activation::recent_window(h, nv.memory_size);
    let start: int = if h.len() >= nv.memory_size { h.len() - nv.memory_size } else { 0 };
    assert(w.len() == h.len() - start);
    assert(forall|j: int| 0 <= j < w.len() ==> w[j] == h[j + start]);
    if forall|i: int| 0 <= i < h.len() && i >= h.len() - nv.memory_size ==> #[trigger] h[i] {
        assert forall|j: int| 0 <= j < w.len() implies #[trigger] w[j] by {
            assert(h[j + start]);
        }
    }
    if forall|j: int| 0 <= j < w.len() ==> #[trigger] w[j] {
        assert forall|i: int| 0 <= i < h.len() && i >= h.len() - nv.memory_size implies #[trigger] h[i] by {
            assert(w[i - start]);
        }
    }
}

/// The coreness a node computes: while some estimate is unknown it is the
/// smaller of the node's coreness and its degree; otherwise it is the
/// largest `h` such that at least `h` neighbours have an estimate of at
/// least `h` (unknown, `usize::MAX`, when no positive `h` qualifies).
pub proof fn lemma_coreness_from(est: Estimates, coreness: usize, deg: usize)
    requires
        est.dom().finite(),
        est.dom().len() < usize::MAX,
    ensures
        has_unknown_estimate(est) ==> coreness_from(est, coreness, deg) <= coreness && coreness_from(est, coreness, deg)
            <= deg && (coreness_from(est, coreness, deg) == coreness || coreness_from(est, coreness, deg) == deg),
        !has_unknown_estimate(est) && coreness_from(est, coreness, deg) != usize::MAX ==> {
            &&& 1 <= coreness_from(est, coreness, deg)
            &&& count_at_least(est, coreness_from(est, coreness, deg) as int) >= coreness_from(est, coreness, deg)
            &&& forall|i: int| coreness_from(est, coreness, deg) < i ==> #[trigger] count_at_least(est, i) < i
        },
        !has_unknown_estimate(est) && coreness_from(est, coreness, deg) == usize::MAX ==> forall|i: int|
            1 <= i ==> #[trigger] count_at_least(est, i) < i,
{
    crate::laws::lemma_h_index_is_largest(est);
}

/// A node announces exactly when it has an identifier and an unpaused change;
/// the announcement carries its identifier, its current coreness and its
/// clock, and clears the change. A paused change is not announced but
/// unpaused. Nothing else changes.
pub proof fn lemma_alive_send<F: crate::activation::Activation>(nv: AliveNodeView<F>)
    ensures
        nv.message() is Some <==> (nv.id is Some && nv.changed && !nv.paused),
        nv.message() is Some ==> nv.message() == Some((nv.id->0, nv.coreness, nv.time)),
        nv.message() is Some ==> !nv.after_send().changed && nv.after_send().activated && nv.after_send().last_sent
            == nv.time,
        nv.id is Some && nv.paused ==> !nv.after_send().paused && nv.after_send().changed == nv.changed,
        nv.after_send().coreness == nv.coreness && nv.after_send().estimate == nv.estimate
            && nv.after_send().history == nv.history && nv.after_send().id == nv.id,
        nv.id is None ==> nv.after_send() == nv,
{
}

/// A new snapshot adds one absent bit to every history and advances the
/// clock; estimates and coreness stay, and the coreness is remembered as
/// the one the snapshot began with.
pub proof fn lemma_alive_advance<F: crate::activation::Activation>(nv: AliveNodeView<F>)
    ensures
        nv.advanced().time == nv.time + 1 || nv.time == usize::MAX,
        nv.advanced().history.dom() == nv.history.dom(),
        forall|k: usize| #[trigger] nv.history.dom().contains(k) ==> nv.advanced().history[k].len() == nv.history[k].len()
            + 1 && nv.advanced().history[k].last() == false && nv.advanced().history[k].drop_last()
            == nv.history[k],
        nv.advanced().estimate == nv.estimate && nv.advanced().coreness == nv.coreness,
        nv.advanced().old_coreness == nv.coreness,
{
    assert forall|k: usize| #[trigger] nv.history.dom().contains(k) implies nv.advanced().history[k].drop_last()
        == nv.history[k] by {
        assert(nv.history[k].push(false).drop_last() =~= nv.history[k]);
    }
}

/// The edge to `neighbor` in the current snapshot sets the last bit of its
/// history (a neighbour seen for the first time gets a history of absent
/// bits but the last) and leaves every other bit and history as it was. If
/// the neighbour is then alive and had no estimate, it gets an unknown one
/// stamped with the clock and the node becomes dirty; otherwise estimates
/// stay.
pub proof fn lemma_alive_edge<F: crate::activation::Activation>(nv: AliveNodeView<F>, neighbor: usize)
    requires
        nv.wf(),
        nv.time >= 1,
    ensures
        ({
            let r = nv.with_edge_to(neighbor);
            let h = r.history[neighbor];
            &&& r.history.dom() == nv.history.dom().insert(neighbor)
            &&& h.len() == nv.time
            &&& h[nv.time - 1]
            &&& forall|i: int| 0 <= i < nv.time - 1 ==> #[trigger] h[i] == (nv.history.dom().contains(neighbor)
                && nv.history[neighbor][i])
            &&& forall|k: usize| k != neighbor && #[trigger] nv.history.dom().contains(k) ==> r.history[k]
                == nv.history[k]
            &&& (r.alive_neighbors().contains(neighbor) && !nv.estimate.dom().contains(neighbor)) ==> r.estimate
                == nv.estimate.insert(neighbor, (usize::MAX, nv.time)) && r.dirty
            &&& !(r.alive_neighbors().contains(neighbor) && !nv.estimate.dom().contains(neighbor)) ==> r.estimate
                == nv.estimate && r.dirty == nv.dirty
            &&& r.coreness == nv.coreness && r.changed == nv.changed && r.id == nv.id && r.time == nv.time
        }),
{
    let r = nv.with_edge_to(neighbor);
    assert(r.history.dom() =~= nv.history.dom().insert(neighbor));
}

/// In the broadcasting protocol, the edge to `neighbor` in the current
/// snapshot sets the last bit of its history and leaves every other bit and
/// history as it was; a neighbour then alive without an estimate gets an
/// unknown one stamped with the clock and the node becomes dirty.
pub proof fn lemma_dynamic_edge<F: crate::activation::Activation>(nv: DynamicNodeView<F>, neighbor: usize)
    requires
        nv.wf(),
        nv.time >= 1,
    ensures
        ({
            let r = nv.with_edge_to(neighbor);
            let h = r.history[neighbor];
            &&& r.history.dom() == nv.history.dom().insert(neighbor)
            &&& h.len() == nv.time
            &&& h[nv.time - 1]
            &&& forall|i: int| 0 <= i < nv.time - 1 ==> #[trigger] h[i] == (nv.history.dom().contains(neighbor)
                && nv.history[neighbor][i])
            &&& forall|k: usize| k != neighbor && #[trigger] nv.history.dom().contains(k) ==> r.history[k]
                == nv.history[k]
            &&& (r.alive_neighbors().contains(neighbor) && !nv.estimate.dom().contains(neighbor)) ==> r.estimate
                == nv.estimate.insert(neighbor, (usize::MAX, nv.time)) && r.dirty
            &&& !(r.alive_neighbors().contains(neighbor) && !nv.estimate.dom().contains(neighbor)) ==> r.estimate
                == nv.estimate && r.dirty == nv.dirty
            &&& r.coreness == nv.coreness && r.changed == nv.changed && r.id == nv.id && r.time == nv.time
        }),
{
    let r = nv.with_edge_to(neighbor);
    assert(r.history.dom() =~= nv.history.dom().insert(neighbor));
}

/// In the broadcasting protocol a node broadcasts exactly when it has an
/// identifier and a change; the broadcast carries its identifier, its
/// current coreness and its clock, and clears the change.
pub proof fn lemma_dynamic_send<F: crate::activation::Activation>(nv: DynamicNodeView<F>)
    ensures
        nv.message() is Some <==> (nv.id is Some && nv.changed),
        nv.message() is Some ==> (nv.message()->0).from == nv.id->0 && (nv.message()->0).core == Some(nv.coreness)
            && (nv.message()->0).time == nv.time && (nv.message()->0).broadcast,
        nv.message() is Some ==> !nv.after_send().changed && nv.after_send().activated,
        nv.after_send().coreness == nv.coreness && nv.after_send().estimate == nv.estimate,
        nv.message() is None ==> nv.after_send() == nv,
{
}

/// In the broadcasting protocol a new snapshot adds one absent bit to every
/// history and advances the clock; estimates and coreness stay.
pub proof fn lemma_dynamic_advance<F: crate::activation::Activation>(nv: DynamicNodeView<F>)
    ensures
        nv.advanced().time == nv.time + 1 || nv.time == usize::MAX,
        nv.advanced().history.dom() == nv.history.dom(),
        forall|k: usize| #[trigger] nv.history.dom().contains(k) ==> nv.advanced().history[k].len() == nv.history[k].len()
            + 1 && nv.advanced().history[k].last() == false && nv.advanced().history[k].drop_last()
            == nv.history[k],
        nv.advanced().estimate == nv.estimate && nv.advanced().coreness == nv.coreness,
{
    assert forall|k: usize| #[trigger] nv.history.dom().contains(k) implies nv.advanced().history[k].drop_last()
        == nv.history[k] by {
        assert(nv.history[k].push(false).drop_last() =~= nv.history[k]);
    }
}

/// The groups of `k_core_from_coreness`: the group of `c` lists, in
/// ascending order, exactly the identified nodes of coreness `c`, for
/// nodes whose identifier is their index.
pub proof fn lemma_core_members<F>(nodes: Seq<AliveNodeView<F>>, c: usize)
    requires
        nodes.len() <= usize::MAX,
        forall|i: int| 0 <= i < nodes.len() ==> (#[trigger] nodes[i].id is None || nodes[i].id == Some(i as usize)),
    ensures
        strictly_ascending(core_members(nodes, c)),
        forall|j: int| 0 <= j < core_members(nodes, c).len() ==> #[trigger] core_members(nodes, c)[j] < nodes.len(),
        forall|x: usize| #[trigger] core_members(nodes, c).contains(x) <==> (x < nodes.len()
            && nodes[x as int].id is Some && nodes[x as int].coreness == c),
    decreases nodes.len(),
{
    if nodes.len() > 0 {
        let init = nodes.drop_last();
        assert forall|i: int| 0 <= i < init.len() implies (#[trigger] init[i].id is None || init[i].id == Some(i as usize)) by {
            assert(init[i] == nodes[i]);
        }
        lemma_core_members(init, c);
        let last = (nodes.len() - 1) as usize;
        assert(nodes[last as int].id is None || nodes[last as int].id == Some(last));
        let m0 = core_members(init, c);
        assert forall|x: usize| #[trigger] m0.contains(x) <==> (x < init.len() && nodes[x as int].id is Some
            && nodes[x as int].coreness == c) by {
            if x < init.len() {
                assert(init[x as int] == nodes[x as int]);
            }
        }
        if nodes.last().id is Some && nodes.last().coreness == c {
            let m = core_members(nodes, c);
            assert(m == m0.push(last));
            assert forall|x: usize| #[trigger] m.contains(x) <==> (x < nodes.len() && nodes[x as int].id is Some
                && nodes[x as int].coreness == c) by {
                if m.contains(x) && x != last {
                    let j = choose|j: int| 0 <= j < m.len() && m[j] == x;
                    assert(m0.push(last)[j] == x);
                    assert(j < m0.len());
                    assert(m0.push(last)[j] == m0[j]);
                    assert(m0.contains(x));
                }
                if x == last {
                    assert(m0.push(last)[m0.len() as int] == last);
                    assert(m.contains(x));
                } else if x < init.len() && nodes[x as int].id is Some && nodes[x as int].coreness == c {
                    assert(m0.contains(x));
                    let j = choose|j: int| 0 <= j < m0.len() && m0[j] == x;
                    assert(m0.push(last)[j] == m0[j]);
                    assert(m.contains(x));
                }
            }
        }
    }
}

/// The number of groups of `k_core_from_coreness` up to `top`: every group
/// from there to `top` is empty, and the group just below, if any, is not.
pub proof fn lemma_core_levels<F>(nodes: Seq<AliveNodeView<F>>, top: nat)
    ensures
        core_levels(nodes, top) <= top,
        forall|c: nat| core_levels(nodes, top) <= c < top ==> #[trigger] core_members(nodes, c as usize).len() == 0,
        core_levels(nodes, top) == 0 || core_members(nodes, (core_levels(nodes, top) - 1) as usize).len() > 0,
    decreases top,
{
    if top > 0 {
        lemma_core_levels(nodes, (top - 1) as nat);
    }
}

/// What the counters count: the identified nodes; the identified nodes
/// whose coreness differs from the one the snapshot began with; those whose
/// known coreness became unknown; and the nodes marked activated.
pub proof fn lemma_counts<F>(nodes: Seq<AliveNodeView<F>>)
    ensures
        count_identified(nodes) == nodes.filter(|nv: AliveNodeView<F>| nv.id is Some).len(),
        count_moved(nodes) == nodes.filter(|nv: AliveNodeView<F>| nv.id is Some && nv.coreness != nv.old_coreness).len(),
        count_isolated(nodes) == nodes.filter(
            |nv: AliveNodeView<F>| nv.id is Some && nv.coreness == usize::MAX && nv.old_coreness < usize::MAX,
        ).len(),
        count_activated(nodes) == nodes.filter(|nv: AliveNodeView<F>| nv.activated).len(),
    decreases nodes.len(),
{
    reveal(Seq::filter);
    if nodes.len() > 0 {
        lemma_counts(nodes.drop_last());
        let f1 = |nv: AliveNodeView<F>| nv.id is Some;
        let f2 = |nv: AliveNodeView<F>| nv.id is Some && nv.coreness != nv.old_coreness;
        let f3 = |nv: AliveNodeView<F>| nv.id is Some && nv.coreness == usize::MAX && nv.old_coreness < usize::MAX;
        let f4 = |nv: AliveNodeView<F>| nv.activated;
        assert(nodes.filter(f1) == if f1(nodes.last()) { nodes.drop_last().filter(f1).push(nodes.last()) } else { nodes.drop_last().filter(f1) });
        assert(nodes.filter(f2) == if f2(nodes.last()) { nodes.drop_last().filter(f2).push(nodes.last()) } else { nodes.drop_last().filter(f2) });
        assert(nodes.filter(f3) == if f3(nodes.last()) { nodes.drop_last().filter(f3).push(nodes.last()) } else { nodes.drop_last().filter(f3) });
        assert(nodes.filter(f4) == if f4(nodes.last()) { nodes.drop_last().filter(f4).push(nodes.last()) } else { nodes.drop_last().filter(f4) });
    }
}

/// Preparing a node for the rounds: a node with nothing to announce is left
/// as it is; one with a change and an unknown coreness starts from its
/// degree, or gives up the change when it has no alive neighbour; one with
/// a change and a known coreness but no alive neighbour falls back to an
/// unknown coreness and gives up the change; any other node is left as it
/// is.
pub proof fn lemma_prepared<F: crate::activation::Activation>(nv: AliveNodeView<F>)
    ensures
        !(nv.id is Some && nv.changed) ==> prepared(nv) == nv,
        nv.id is Some && nv.changed && nv.coreness == usize::MAX && nv.degree() > 0 ==> prepared(nv) == (
        AliveNodeView { coreness: nv.degree() as usize, ..nv }),
        nv.id is Some && nv.changed && nv.degree() == 0 ==> !prepared(nv).changed && prepared(nv).coreness
            == usize::MAX,
        nv.id is Some && nv.changed && nv.coreness < usize::MAX && nv.degree() > 0 ==> prepared(nv) == nv,
        prepared(nv).estimate == nv.estimate && prepared(nv).history == nv.history && prepared(nv).id == nv.id,
{
}

proof fn lemma_deliver_to_each<F: crate::activation::Activation>(
    nodes: Seq<AliveNodeView<F>>,
    msg: Announcement,
    rs: Seq<usize>,
)
    requires
        rs.no_duplicates(),
        nodes.len() <= usize::MAX,
        forall|j: int| 0 <= j < rs.len() ==> #[trigger] rs[j] < nodes.len(),
    ensures
        deliver_to(nodes, msg, rs).len() == nodes.len(),
        forall|i: int| #![trigger deliver_to(nodes, msg, rs)[i]] 0 <= i < nodes.len() ==> deliver_to(nodes, msg, rs)[i]
            == if rs.contains(i as usize) { nodes[i].after_receive(msg.0, msg.1, msg.2) } else { nodes[i] },
    decreases rs.len(),
{
    if rs.len() > 0 {
        let init = rs.drop_last();
        assert forall|j: int| 0 <= j < init.len() implies #[trigger] init[j] < nodes.len() by {
            assert(init[j] == rs[j]);
        }
        assert(init.no_duplicates()) by {
            assert forall|a: int, b: int| 0 <= a < b < init.len() implies init[a] != init[b] by {
                assert(init[a] == rs[a] && init[b] == rs[b]);
            }
        }
        lemma_deliver_to_each(nodes, msg, init);
        let r = rs.last();
        assert(rs[rs.len() - 1] < nodes.len());
        assert(!init.contains(r)) by {
            if init.contains(r) {
                let j = choose|j: int| 0 <= j < init.len() && init[j] == r;
                assert(rs[j] == rs[rs.len() - 1]);
            }
        }
        let out = deliver_to(nodes, msg, rs);
        assert forall|i: int| #![trigger out[i]] 0 <= i < nodes.len() implies out[i] == if rs.contains(i as usize) {
            nodes[i].after_receive(msg.0, msg.1, msg.2)
        } else {
            nodes[i]
        } by {
            if i == r {
                assert(rs.contains(r)) by {
                    assert(rs[rs.len() - 1] == r);
                }
            } else {
                assert(rs.contains(i as usize) <==> init.contains(i as usize)) by {
                    if rs.contains(i as usize) {
                        let j = choose|j: int| 0 <= j < rs.len() && rs[j] == i as usize;
                        assert(rs[rs.len() - 1] == r);
                        assert(j != rs.len() - 1);
                        assert(j < init.len());
                        assert(init[j] == rs[j]);
                    }
                    if init.contains(i as usize) {
                        let j = choose|j: int| 0 <= j < init.len() && init[j] == i as usize;
                        assert(rs[j] == init[j]);
                    }
                }
            }
        }
    }
}

/// Delivering an announcement: exactly the alive neighbours of its sender
/// receive it, each once, and every other node is left as it is.
pub proof fn lemma_deliver<F: crate::activation::Activation>(nodes: Seq<AliveNodeView<F>>, msg: Announcement)
    requires
        msg.0 < nodes.len(),
        nodes.len() <= usize::MAX,
        forall|k: usize| #[trigger] nodes[msg.0 as int].alive_neighbors().contains(k) ==> k < nodes.len(),
    ensures
        deliver(nodes, msg).len() == nodes.len(),
        forall|i: int| #![trigger deliver(nodes, msg)[i]] 0 <= i < nodes.len() ==> deliver(nodes, msg)[i] == if nodes[
            msg.0 as int].alive_neighbors().contains(i as usize) {
            nodes[i].after_receive(msg.0, msg.1, msg.2)
        } else {
            nodes[i]
        },
{
    let a = nodes[msg.0 as int].alive_neighbors();
    crate::sorting::lemma_sorted_members_exist(a, nodes.len() as usize);
    let rs = crate::sorting::sorted_members(a);
    assert(rs.no_duplicates()) by {
        assert forall|x: int, y: int| 0 <= x < y < rs.len() implies rs[x] != rs[y] by {}
    }
    assert forall|j: int| 0 <= j < rs.len() implies #[trigger] rs[j] < nodes.len() by {
        assert(rs.to_set().contains(rs[j]));
    }
    lemma_deliver_to_each(nodes, msg, rs);
    assert forall|i: int| 0 <= i < nodes.len() implies (#[trigger] rs.contains(i as usize) <==> a.contains(i as usize)) by {
        assert(rs.to_set().contains(i as usize) == rs.contains(i as usize));
    }
}

/// Adding the edge `(u, v)` to the current snapshot: both endpoints get
/// their identifiers, each holds a history of the other whose last bit is
/// set, and every other node is left as it is.
pub proof fn lemma_add_edge<F: crate::activation::Activation>(nodes: Seq<AliveNodeView<F>>, u: usize, v: usize, t: usize)
    requires
        nodes_wf(nodes, t),
        t >= 1,
        u < nodes.len(),
        v < nodes.len(),
        u != v,
    ensures
        add_edge(nodes, u, v).len() == nodes.len(),
        add_edge(nodes, u, v)[u as int].id == Some(u),
        add_edge(nodes, u, v)[v as int].id == Some(v),
        add_edge(nodes, u, v)[u as int].history.dom().contains(v),
        add_edge(nodes, u, v)[v as int].history.dom().contains(u),
        add_edge(nodes, u, v)[u as int].history[v].len() == t && add_edge(nodes, u, v)[u as int].history[v][t - 1],
        add_edge(nodes, u, v)[v as int].history[u].len() == t && add_edge(nodes, u, v)[v as int].history[u][t - 1],
        forall|i: int| 0 <= i < nodes.len() && i != u && i != v ==> #[trigger] add_edge(nodes, u, v)[i] == nodes[i],
{
    assert(nodes[u as int].wf() && nodes[u as int].time == t);
    assert(nodes[v as int].wf() && nodes[v as int].time == t);
    assert(nodes[u as int].id is None || nodes[u as int].id == Some(u));
    assert(nodes[v as int].id is None || nodes[v as int].id == Some(v));
}

} // verus!
