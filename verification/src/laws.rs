//! Properties of the library that span several functions or calls.

use vstd::prelude::*;

use crate::activation::Activation;
use crate::alive_rounds::{
    after_sends, count_activated, deactivated, deliver_all, deliver_to, lemma_after_sends, prepared, quiet, round,
    rounds, sent_messages,
};
use crate::completely_new_algorithm::DynamicNodeView;
use crate::coreness::{coreness_from, count_at_least, h_index, h_index_upto, Estimates};
use crate::dynamic_montresor::{AliveGraphView, AliveNodeView, add_edge, add_edges};

verus! {

proof fn lemma_count_at_least_bounded(est: Estimates, i: int)
    requires
        est.dom().finite(),
    ensures
        count_at_least(est, i) <= est.dom().len(),
{
    let f = est.dom().filter(|k: usize| est[k].0 >= i);
    assert(f.subset_of(est.dom()));
    vstd::set_lib::lemma_len_subset(f, est.dom());
}

proof fn lemma_h_index_upto(est: Estimates, top: nat)
    requires
        est.dom().finite(),
        top <= est.dom().len(),
        est.dom().len() < usize::MAX,
    ensures
        h_index_upto(est, top) == usize::MAX ==> forall|i: int| 1 <= i <= top ==> #[trigger] count_at_least(est, i) < i,
        h_index_upto(est, top) != usize::MAX ==> {
            &&& 1 <= h_index_upto(est, top) <= top
            &&& count_at_least(est, h_index_upto(est, top) as int) >= h_index_upto(est, top)
            &&& forall|i: int| h_index_upto(est, top) < i <= top ==> #[trigger] count_at_least(est, i) < i
        },
    decreases top,
{
    if top > 0 && count_at_least(est, top as int) < top {
        lemma_h_index_upto(est, (top - 1) as nat);
    }
}

/// The h-index of a node's estimates is the largest `h` such that at least
/// `h` neighbours have an estimate of at least `h`: every larger `i` has
/// fewer than `i` such neighbours. When no positive `h` qualifies the result
/// is `usize::MAX`.
pub proof fn lemma_h_index_is_largest(est: Estimates)
    requires
        est.dom().finite(),
        est.dom().len() < usize::MAX,
    ensures
        h_index(est) == usize::MAX ==> forall|i: int| 1 <= i ==> #[trigger] count_at_least(est, i) < i,
        h_index(est) != usize::MAX ==> {
            &&& 1 <= h_index(est) <= est.dom().len()
            &&& count_at_least(est, h_index(est) as int) >= h_index(est)
            &&& forall|i: int| h_index(est) < i ==> #[trigger] count_at_least(est, i) < i
        },
{
    lemma_h_index_upto(est, est.dom().len());
    assert forall|i: int| i > est.dom().len() implies #[trigger] count_at_least(est, i) < i by {
        lemma_count_at_least_bounded(est, i);
    }
}

/// An index as a number of neighbours: unknown (`usize::MAX`) counts as zero.
pub open spec fn index_value(x: usize) -> nat {
    if x == usize::MAX { 0 } else { x as nat }
}

/// Lowering estimates never raises the computed index: when two nodes hold
/// estimates of the same neighbours, all known, and every estimate of `lo`
/// is at most the matching one of `hi`, the index computed from `lo` is at
/// most the one computed from `hi` (an unknown index counting as zero).
pub proof fn lemma_index_monotone(lo: Estimates, hi: Estimates, coreness: usize, deg: usize)
    requires
        lo.dom() == hi.dom(),
        hi.dom().finite(),
        hi.dom().len() < usize::MAX,
        forall|k: usize| #[trigger] hi.dom().contains(k) ==> lo[k].0 <= hi[k].0 && hi[k].0 < usize::MAX,
    ensures
        index_value(coreness_from(lo, coreness, deg)) <= index_value(coreness_from(hi, coreness, deg)),
{
    assert forall|i: int| count_at_least(lo, i) <= #[trigger] count_at_least(hi, i) by {
        let fl = lo.dom().filter(|k: usize| lo[k].0 >= i);
        let fh = hi.dom().filter(|k: usize| hi[k].0 >= i);
        assert(fl.subset_of(fh)) by {
            assert forall|k: usize| #[trigger] fl.contains(k) implies fh.contains(k) by {
                assert(hi.dom().contains(k));
            }
        }
        vstd::set_lib::lemma_len_subset(fl, fh);
    }
    assert(!crate::coreness::has_unknown_estimate(lo)) by {
        if crate::coreness::has_unknown_estimate(lo) {
            let k = choose|k: usize| lo.dom().contains(k) && #[trigger] lo[k].0 == usize::MAX;
            assert(hi.dom().contains(k));
        }
    }
    assert(!crate::coreness::has_unknown_estimate(hi)) by {
        if crate::coreness::has_unknown_estimate(hi) {
            let k = choose|k: usize| hi.dom().contains(k) && #[trigger] hi[k].0 == usize::MAX;
            assert(hi.dom().contains(k));
        }
    }
    lemma_h_index_is_largest(lo);
    lemma_h_index_is_largest(hi);
    let hl = h_index(lo);
    let hh = h_index(hi);
    if hl != usize::MAX {
        assert(count_at_least(hi, hl as int) >= hl);
        if hh == usize::MAX {
            assert(count_at_least(hi, hl as int) < hl);
        } else if hl > hh {
            assert(count_at_least(hi, hl as int) < hl);
        }
    }
}

/// Resetting a node twice is resetting it once: the second reset finds its
/// estimates already limited to alive neighbours and the node no longer
/// dirty. A node without an identifier is left as it is.
pub proof fn lemma_alive_reset_idempotent<F: Activation>(nv: AliveNodeView<F>)
    ensures
        nv.after_reset().after_reset() == nv.after_reset(),
        nv.id is None ==> nv.after_reset() == nv,
{
    if nv.id is Some {
        let r = nv.after_reset();
        let est = nv.estimate.restrict(nv.alive_neighbors());
        assert(r.alive_neighbors() == nv.alive_neighbors());
        assert(r.estimate == est);
        assert(!r.dirty);
        assert(est.restrict(nv.alive_neighbors()) =~= est);
        assert(!(exists|k: usize| #[trigger] r.estimate.dom().contains(k) && !r.alive_neighbors().contains(k)));
        let m = est.dom().len() + 1;
        assert(crate::dynamic_montresor::resized(r.count, m) =~= r.count);
        assert(r.after_reset() =~= r);
    }
}

/// After a `montresor_step` the nodes are quiet, and on quiet nodes the
/// protocol does nothing: preparing them changes nothing, every round leaves
/// them as they are, no announcement is made, no node is activated, and
/// clearing the activation marks changes nothing. So a second
/// `montresor_step` right after one runs a single silent round and leaves
/// the graph unchanged.
pub proof fn lemma_quiet_step<F: Activation>(nodes: Seq<AliveNodeView<F>>)
    requires
        nodes.len() <= usize::MAX,
        quiet(nodes),
    ensures
        nodes.map_values(|nv: AliveNodeView<F>| prepared(nv)) == nodes,
        forall|k: nat| #[trigger] rounds(nodes, k) == nodes,
        sent_messages(nodes).len() == 0,
        count_activated(nodes) == 0,
        deactivated(nodes) == nodes,
{
    assert forall|i: int| 0 <= i < nodes.len() implies !(#[trigger] nodes[i]).needs_to_send() by {}
    assert(nodes.map_values(|nv: AliveNodeView<F>| prepared(nv)) =~= nodes);
    lemma_after_sends(nodes, 0, 0);
    assert(round(nodes) == nodes) by {
        assert(sent_messages(nodes) =~= Seq::<(usize, usize, usize)>::empty());
    }
    assert forall|k: nat| #[trigger] rounds(nodes, k) == nodes by {
        lemma_quiet_rounds(nodes, k);
    }
    lemma_quiet_count(nodes);
    assert(deactivated(nodes) =~= nodes) by {
        assert forall|i: int| 0 <= i < nodes.len() implies #[trigger] deactivated(nodes)[i] == nodes[i] by {
            assert(!nodes[i].activated);
        }
    }
}

proof fn lemma_quiet_rounds<F: Activation>(nodes: Seq<AliveNodeView<F>>, k: nat)
    requires
        round(nodes) == nodes,
    ensures
        rounds(nodes, k) == nodes,
    decreases k,
{
    if k > 0 {
        lemma_quiet_rounds(nodes, (k - 1) as nat);
    }
}

proof fn lemma_quiet_count<F: Activation>(nodes: Seq<AliveNodeView<F>>)
    requires
        forall|i: int| 0 <= i < nodes.len() ==> !(#[trigger] nodes[i]).activated,
    ensures
        count_activated(nodes) == 0,
    decreases nodes.len(),
{
    if nodes.len() > 0 {
        let init = nodes.drop_last();
        assert forall|i: int| 0 <= i < init.len() implies !(#[trigger] init[i]).activated by {
            assert(init[i] == nodes[i]);
        }
        lemma_quiet_count(init);
        assert(!nodes[nodes.len() - 1].activated);
    }
}

/// Delivering the same announcement twice has the same effect as
/// delivering it once.
pub proof fn lemma_alive_receive_idempotent<F: Activation>(nv: AliveNodeView<F>, from: usize, core: usize, timestamp: usize)
    ensures
        nv.after_receive(from, core, timestamp).after_receive(from, core, timestamp)
            == nv.after_receive(from, core, timestamp),
{
}

/// An announcement older than the estimate held for its sender is ignored.
pub proof fn lemma_alive_stale_ignored<F: Activation>(nv: AliveNodeView<F>, from: usize, core: usize, timestamp: usize)
    requires
        nv.estimate.dom().contains(from),
        timestamp < nv.estimate[from].1,
    ensures
        nv.after_receive(from, core, timestamp) == nv,
{
}

/// A node announces a change once: right after it announced, it has nothing
/// more to announce.
pub proof fn lemma_alive_announces_once<F: Activation>(nv: AliveNodeView<F>)
    requires
        nv.message() is Some,
    ensures
        nv.after_send().message() is None,
        !nv.after_send().needs_to_send(),
{
}

/// In the broadcasting protocol, delivering the same coreness twice has the
/// same effect as delivering it once.
pub proof fn lemma_dynamic_receive_idempotent<F: Activation>(nv: DynamicNodeView<F>, from: usize, core: usize, timestamp: usize)
    ensures
        nv.after_receive(from, core, timestamp).after_receive(from, core, timestamp)
            == nv.after_receive(from, core, timestamp),
{
}

/// In the broadcasting protocol, a node broadcasts a change once.
pub proof fn lemma_dynamic_announces_once<F: Activation>(nv: DynamicNodeView<F>)
    requires
        nv.message() is Some,
    ensures
        nv.after_send().message() is None,
        !nv.after_send().needs_to_send(),
{
}

/// Nodes that agree on everything the alive graph is made of: identifiers,
/// histories, clocks, memory and activation function.
pub open spec fn same_graph<F>(a: Seq<AliveNodeView<F>>, b: Seq<AliveNodeView<F>>) -> bool {
    &&& a.len() == b.len()
    &&& forall|i: int| #![trigger a[i]] 0 <= i < a.len() ==> {
        &&& a[i].history == b[i].history
        &&& a[i].id == b[i].id
        &&& a[i].time == b[i].time
        &&& a[i].memory_size == b[i].memory_size
        &&& a[i].activation == b[i].activation
    }
}

pub(crate) proof fn lemma_deliver_to_keeps_graph<F: Activation>(nodes: Seq<AliveNodeView<F>>, msg: (usize, usize, usize), rs: Seq<usize>)
    requires
        forall|j: int| 0 <= j < rs.len() ==> #[trigger] rs[j] < nodes.len(),
    ensures
        same_graph(deliver_to(nodes, msg, rs), nodes),
    decreases rs.len(),
{
    if rs.len() > 0 {
        lemma_deliver_to_keeps_graph(nodes, msg, rs.drop_last());
        let prev = deliver_to(nodes, msg, rs.drop_last());
        let r = rs.last() as int;
        assert(rs[rs.len() - 1] < nodes.len());
        let next = deliver_to(nodes, msg, rs);
        assert(next == prev.update(r, prev[r].after_receive(msg.0, msg.1, msg.2)));
        assert(next.len() == nodes.len());
        assert forall|i: int| 0 <= i < next.len() implies {
            &&& #[trigger] next[i].history == nodes[i].history
            &&& next[i].id == nodes[i].id
            &&& next[i].time == nodes[i].time
            &&& next[i].memory_size == nodes[i].memory_size
            &&& next[i].activation == nodes[i].activation
        } by {
            assert(prev[i].history == nodes[i].history);
        }
    }
}

/// Identifiers are indices and histories name nodes of the sequence.
pub open spec fn well_shaped<F>(nodes: Seq<AliveNodeView<F>>) -> bool {
    &&& nodes.len() <= usize::MAX
    &&& forall|i: int| 0 <= i < nodes.len() ==> (#[trigger] nodes[i].id is None || nodes[i].id == Some(i as usize))
    &&& forall|i: int, k: usize| 0 <= i < nodes.len() && #[trigger] nodes[i].history.dom().contains(k) ==> k < nodes.len()
}

pub(crate) proof fn lemma_same_graph_shape<F>(a: Seq<AliveNodeView<F>>, b: Seq<AliveNodeView<F>>)
    requires
        same_graph(a, b),
        well_shaped(b),
    ensures
        well_shaped(a),
{
    assert forall|i: int| 0 <= i < a.len() implies (#[trigger] a[i].id is None || a[i].id == Some(i as usize)) by {
        assert(a[i].history == b[i].history);
        assert(a[i].id == b[i].id);
        assert(b[i].id is None || b[i].id == Some(i as usize));
    }
    assert forall|i: int, k: usize| 0 <= i < a.len() && #[trigger] a[i].history.dom().contains(k) implies k < a.len() by {
        assert(a[i].history == b[i].history);
    }
}

pub(crate) proof fn lemma_deliver_all_keeps_graph<F: Activation>(nodes: Seq<AliveNodeView<F>>, msgs: Seq<(usize, usize, usize)>)
    requires
        well_shaped(nodes),
        forall|j: int| 0 <= j < msgs.len() ==> #[trigger] msgs[j].0 < nodes.len(),
    ensures
        same_graph(deliver_all(nodes, msgs), nodes),
    decreases msgs.len(),
{
    if msgs.len() > 0 {
        lemma_deliver_all_keeps_graph(nodes, msgs.drop_last());
        let prev = deliver_all(nodes, msgs.drop_last());
        let m = msgs.last();
        assert(m.0 < nodes.len());
        assert(prev[m.0 as int].history == nodes[m.0 as int].history);
        crate::sorting::lemma_sorted_members_exist(prev[m.0 as int].alive_neighbors(), nodes.len() as usize);
        let rs = crate::sorting::sorted_members(prev[m.0 as int].alive_neighbors());
        assert forall|j: int| 0 <= j < rs.len() implies #[trigger] rs[j] < prev.len() by {
            assert(rs.to_set().contains(rs[j]));
        }
        lemma_deliver_to_keeps_graph(prev, m, rs);
    }
}

pub(crate) proof fn lemma_messages_from_nodes<F: Activation>(nodes: Seq<AliveNodeView<F>>, qs: Seq<usize>)
    requires
        well_shaped(nodes),
        forall|j: int| 0 <= j < qs.len() ==> #[trigger] qs[j] < nodes.len(),
    ensures
        forall|j: int| 0 <= j < crate::alive_rounds::messages_of(nodes, qs).len()
            ==> #[trigger] crate::alive_rounds::messages_of(nodes, qs)[j].0 < nodes.len(),
    decreases qs.len(),
{
    if qs.len() > 0 {
        lemma_messages_from_nodes(nodes, qs.drop_last());
        let q = qs.last();
        assert(qs[qs.len() - 1] < nodes.len());
        assert(nodes[q as int].id is None || nodes[q as int].id == Some(q));
        let prev = crate::alive_rounds::messages_of(nodes, qs.drop_last());
        let all = crate::alive_rounds::messages_of(nodes, qs);
        if nodes[q as int].message() is Some {
            assert(all == prev.push(nodes[q as int].message()->0));
            assert((nodes[q as int].message()->0).0 == q);
            assert forall|j: int| 0 <= j < all.len() implies #[trigger] all[j].0 < nodes.len() by {
                if j < prev.len() {
                    assert(all[j] == prev[j]);
                }
            }
        } else {
            assert(all == prev);
        }
    }
}

/// One round of the protocol keeps the alive graph as it is.
proof fn lemma_round_keeps_graph<F: Activation>(nodes: Seq<AliveNodeView<F>>)
    requires
        well_shaped(nodes),
    ensures
        same_graph(round(nodes), nodes),
{
    let a = after_sends(nodes);
    assert(same_graph(a, nodes));
    lemma_same_graph_shape(a, nodes);
    crate::alive_rounds::lemma_pending_queue(nodes);
    lemma_messages_from_nodes(nodes, crate::alive_rounds::pending_queue(nodes));
    lemma_deliver_all_keeps_graph(a, sent_messages(nodes));
}

/// Running rounds of the coreness protocol never changes the alive graph:
/// identifiers, histories, clocks, memories and activation functions stay
/// as they were.
pub proof fn lemma_rounds_keep_graph<F: Activation>(nodes: Seq<AliveNodeView<F>>, k: nat)
    requires
        well_shaped(nodes),
    ensures
        same_graph(rounds(nodes, k), nodes),
    decreases k,
{
    if k > 0 {
        lemma_rounds_keep_graph(nodes, (k - 1) as nat);
        let prev = rounds(nodes, (k - 1) as nat);
        lemma_same_graph_shape(prev, nodes);
        lemma_round_keeps_graph(prev);
    }
}

/// `montresor_step` leaves the alive graph as it is: whatever the number of
/// rounds `k`, the nodes it ends with agree with the nodes it started from
/// on identifiers, histories, clocks, memories and activation functions.
pub proof fn lemma_step_keeps_graph<F: Activation>(g: AliveGraphView<F>, k: nat)
    requires
        g.wf(),
    ensures
        same_graph(crate::alive_rounds::deactivated(rounds(g.prepared_nodes(), k)), g.nodes),
{
    let p = g.prepared_nodes();
    assert(same_graph(p, g.nodes));
    assert(well_shaped(g.nodes));
    lemma_same_graph_shape(p, g.nodes);
    lemma_rounds_keep_graph(p, k);
    let r = rounds(p, k);
    let d = crate::alive_rounds::deactivated(r);
    assert(same_graph(d, r));
}

/// The alive graph is undirected: whenever a node holds a history of
/// another, that node holds the same history of it; and every node uses the
/// graph's memory and activation function.
pub open spec fn symmetric<F>(g: AliveGraphView<F>) -> bool {
    &&& forall|i: int, k: usize| 0 <= i < g.nodes.len() && #[trigger] g.nodes[i].history.dom().contains(k) ==> {
        &&& k < g.nodes.len()
        &&& g.nodes[k as int].history.dom().contains(i as usize)
        &&& g.nodes[k as int].history[i as usize] == g.nodes[i].history[k]
    }
    &&& forall|i: int| #![trigger g.nodes[i]] 0 <= i < g.nodes.len() ==> {
        &&& g.nodes[i].memory_size == g.memory_size
        &&& g.nodes[i].activation == g.activation
    }
}

/// In an undirected alive graph a node is an alive neighbour of another
/// exactly when the other is an alive neighbour of it.
pub proof fn lemma_alive_neighbors_symmetric<F: Activation>(g: AliveGraphView<F>, i: usize, k: usize)
    requires
        symmetric(g),
        i < g.nodes.len(),
        k < g.nodes.len(),
    ensures
        g.nodes[i as int].alive_neighbors().contains(k) <==> g.nodes[k as int].alive_neighbors().contains(i),
{
    assert(g.nodes[i as int].memory_size == g.memory_size);
    assert(g.nodes[k as int].memory_size == g.memory_size);
    if g.nodes[i as int].history.dom().contains(k) {
        assert(g.nodes[k as int].history.dom().contains(i));
    }
    if g.nodes[k as int].history.dom().contains(i) {
        assert(g.nodes[i as int].history.dom().contains(k));
    }
}

/// A graph fresh from `from_n_and_mem_size` is undirected.
pub proof fn lemma_fresh_graph_symmetric<F: Activation>(g: AliveGraphView<F>)
    requires
        forall|i: int| 0 <= i < g.nodes.len() ==> {
            &&& (#[trigger] g.nodes[i]).history == Map::<usize, Seq<bool>>::empty()
            &&& g.nodes[i].memory_size == g.memory_size
            &&& g.nodes[i].activation == g.activation
        },
    ensures
        symmetric(g),
{
    assert forall|i: int, k: usize| 0 <= i < g.nodes.len() && #[trigger] g.nodes[i].history.dom().contains(k)
        implies false by {
        assert(g.nodes[i].history == Map::<usize, Seq<bool>>::empty());
    }
}

/// The nodes share a memory and an activation function, and histories are
/// mirrored between neighbours.
pub open spec fn mirrored<F>(nodes: Seq<AliveNodeView<F>>, memory_size: usize, activation: F) -> bool {
    symmetric(AliveGraphView { nodes, edges: 0, memory_size, activation })
}

proof fn lemma_add_edge_mirrored<F: Activation>(nodes: Seq<AliveNodeView<F>>, u: usize, v: usize, t: usize, m: usize, a: F)
    requires
        mirrored(nodes, m, a),
        crate::dynamic_montresor::nodes_wf(nodes, t),
        nodes.len() < usize::MAX,
        1 <= t,
        u < nodes.len(),
        v < nodes.len(),
        u != v,
    ensures
        mirrored(add_edge(nodes, u, v), m, a),
{
    let g1 = AliveGraphView { nodes: add_edge(nodes, u, v), edges: 0, memory_size: m, activation: a };
    let nn = g1.nodes;
    let g0 = AliveGraphView { nodes, edges: 0, memory_size: m, activation: a };
    assert(nodes[u as int].time == t && nodes[v as int].time == t);
    assert(nodes[u as int].history.dom().contains(v) <==> nodes[v as int].history.dom().contains(u)) by {
        if nodes[u as int].history.dom().contains(v) {
            assert(g0.nodes[u as int].history.dom().contains(v));
        }
        if nodes[v as int].history.dom().contains(u) {
            assert(g0.nodes[v as int].history.dom().contains(u));
        }
    }
    if nodes[u as int].history.dom().contains(v) {
        assert(g0.nodes[u as int].history.dom().contains(v));
        assert(nodes[v as int].history[u] == nodes[u as int].history[v]);
    }
    assert(nn[u as int].history[v] == nn[v as int].history[u]);
    assert forall|i: int, k: usize| 0 <= i < nn.len() && #[trigger] nn[i].history.dom().contains(k) implies {
        &&& k < nn.len()
        &&& nn[k as int].history.dom().contains(i as usize)
        &&& nn[k as int].history[i as usize] == nn[i].history[k]
    } by {
        if (i == u && k == v) || (i == v && k == u) {
        } else {
            assert(nodes[i].history.dom().contains(k));
            assert(g0.nodes[i].history.dom().contains(k));
            assert(nodes[i].history[k] == nn[i].history[k]);
            assert(nodes[k as int].history[i as usize] == nn[k as int].history[i as usize]);
        }
    }
    assert forall|i: int| 0 <= i < nn.len() implies {
        &&& #[trigger] nn[i].memory_size == m
        &&& nn[i].activation == a
    } by {
        assert(g0.nodes[i].memory_size == m);
    }
}

proof fn lemma_add_edges_mirrored<F: Activation>(nodes: Seq<AliveNodeView<F>>, list: Seq<(usize, usize)>, t: usize, m: usize, a: F)
    requires
        mirrored(nodes, m, a),
        crate::dynamic_montresor::nodes_wf(nodes, t),
        nodes.len() < usize::MAX,
        1 <= t,
        forall|j: int| 0 <= j < list.len() ==> #[trigger] list[j].0 < nodes.len() && list[j].1 < nodes.len()
            && list[j].0 != list[j].1,
    ensures
        mirrored(add_edges(nodes, list), m, a),
        crate::dynamic_montresor::nodes_wf(add_edges(nodes, list), t),
        add_edges(nodes, list).len() == nodes.len(),
    decreases list.len(),
{
    if list.len() > 0 {
        let init = list.drop_last();
        assert forall|j: int| 0 <= j < init.len() implies #[trigger] init[j].0 < nodes.len() && init[j].1 < nodes.len()
            && init[j].0 != init[j].1 by {
            assert(init[j] == list[j]);
        }
        lemma_add_edges_mirrored(nodes, init, t, m, a);
        let prev = add_edges(nodes, init);
        let e = list.last();
        assert(list[list.len() - 1] == e);
        lemma_add_edge_mirrored(prev, e.0, e.1, t, m, a);
        crate::dynamic_montresor::lemma_add_edge_wf(prev, e.0, e.1, t);
    }
}

/// A new snapshot advances every node's clock and keeps the nodes well
/// formed.
pub(crate) proof fn lemma_advance_wf<F: Activation>(g: AliveGraphView<F>)
    requires
        g.wf(),
        g.clock() < crate::activation::BITVEC_MAX_BITS,
    ensures
        crate::dynamic_montresor::nodes_wf(
            g.nodes.map_values(|n: AliveNodeView<F>| n.advanced()),
            (g.clock() + 1) as usize,
        ),
{
    let t = g.clock();
    let adv = g.nodes.map_values(|n: AliveNodeView<F>| n.advanced());
    assert forall|i: int| 0 <= i < adv.len() implies #[trigger] adv[i].wf() by {
        assert(g.nodes[i].wf() && g.nodes[i].time == t);
        assert(adv[i].history.dom() =~= g.nodes[i].history.dom());
    }
    assert forall|i: int| 0 <= i < adv.len() implies #[trigger] adv[i].time == t + 1 by {
        assert(g.nodes[i].time == t);
    }
    assert forall|i: int| 0 <= i < adv.len() implies (#[trigger] adv[i].id is None || adv[i].id == Some(i as usize)) by {
        assert(g.nodes[i].id is None || g.nodes[i].id == Some(i as usize));
    }
    assert forall|i: int, k: usize| 0 <= i < adv.len() && #[trigger] adv[i].history.dom().contains(k)
        implies k < adv.len() && k != i by {
        assert(g.nodes[i].history.dom().contains(k));
    }
    assert forall|i: int, k: usize| 0 <= i < adv.len() && #[trigger] adv[i].estimate.dom().contains(k)
        implies k < adv.len() by {
        assert(g.nodes[i].estimate.dom().contains(k));
    }
}

/// Adding a snapshot keeps the alive graph undirected.
pub proof fn lemma_snapshot_keeps_symmetry<F: Activation>(g: AliveGraphView<F>, list: Seq<(usize, usize)>)
    requires
        g.wf(),
        symmetric(g),
        g.accepts_snapshot(list),
    ensures
        symmetric(g.after_snapshot(list)),
{
    let t = g.clock();
    let adv = g.nodes.map_values(|n: AliveNodeView<F>| n.advanced());
    let m = g.memory_size;
    let a = g.activation;
    assert(mirrored(adv, m, a)) by {
        let ga = AliveGraphView { nodes: adv, edges: 0, memory_size: m, activation: a };
        assert forall|i: int, k: usize| 0 <= i < adv.len() && #[trigger] adv[i].history.dom().contains(k) implies {
            &&& k < adv.len()
            &&& adv[k as int].history.dom().contains(i as usize)
            &&& adv[k as int].history[i as usize] == adv[i].history[k]
        } by {
            assert(g.nodes[i].history.dom().contains(k));
        }
        assert forall|i: int| 0 <= i < adv.len() implies {
            &&& #[trigger] adv[i].memory_size == m
            &&& adv[i].activation == a
        } by {
            assert(g.nodes[i].memory_size == m);
        }
    }
    lemma_advance_wf(g);
    lemma_add_edges_mirrored(adv, list, (t + 1) as usize, m, a);
    let added = add_edges(adv, list);
    let fin = g.after_snapshot(list);
    assert(fin.nodes == added.map_values(|n: AliveNodeView<F>| n.after_reset()));
    let ga = AliveGraphView { nodes: added, edges: 0, memory_size: m, activation: a };
    assert forall|i: int, k: usize| 0 <= i < fin.nodes.len() && #[trigger] fin.nodes[i].history.dom().contains(k) implies {
        &&& k < fin.nodes.len()
        &&& fin.nodes[k as int].history.dom().contains(i as usize)
        &&& fin.nodes[k as int].history[i as usize] == fin.nodes[i].history[k]
    } by {
        assert(added[i].history.dom().contains(k));
        assert(ga.nodes[i].history.dom().contains(k));
    }
    assert forall|i: int| 0 <= i < fin.nodes.len() implies {
        &&& #[trigger] fin.nodes[i].memory_size == fin.memory_size
        &&& fin.nodes[i].activation == fin.activation
    } by {
        assert(ga.nodes[i].memory_size == m);
    }
}

/// Running the coreness protocol keeps the alive graph undirected.
pub proof fn lemma_step_keeps_symmetry<F: Activation>(g: AliveGraphView<F>, k: nat)
    requires
        g.wf(),
        symmetric(g),
    ensures
        symmetric(AliveGraphView { nodes: crate::alive_rounds::deactivated(rounds(g.prepared_nodes(), k)), ..g }),
{
    lemma_step_keeps_graph(g, k);
    let d = crate::alive_rounds::deactivated(rounds(g.prepared_nodes(), k));
    let h = AliveGraphView { nodes: d, ..g };
    assert forall|i: int, j: usize| 0 <= i < d.len() && #[trigger] d[i].history.dom().contains(j) implies {
        &&& j < d.len()
        &&& d[j as int].history.dom().contains(i as usize)
        &&& d[j as int].history[i as usize] == d[i].history[j]
    } by {
        assert(d[i].history == g.nodes[i].history);
        assert(g.nodes[i].history.dom().contains(j));
        assert(d[j as int].history == g.nodes[j as int].history);
    }
    assert forall|i: int| 0 <= i < d.len() implies {
        &&& #[trigger] d[i].memory_size == h.memory_size
        &&& d[i].activation == h.activation
    } by {
        assert(d[i].history == g.nodes[i].history);
        assert(g.nodes[i].memory_size == g.memory_size);
    }
}

} // verus!
