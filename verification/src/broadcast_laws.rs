//! Properties of the broadcasting protocol that span several calls: the
//! protocol never changes the alive graph, and the graph stays undirected.

use vstd::prelude::*;

use crate::activation::Activation;
use crate::completely_new_algorithm::{
    DynamicGraphView, DynamicNodeView, add_edge, add_edges, broadcast_round, broadcast_rounds, broadcast_to,
    lemma_add_edge_wf, lemma_queue_of, nodes_wf, process_queue, process_sender, queue_of,
};

verus! {

/// Nodes that agree on everything the alive graph is made of: identifiers,
/// histories, clocks, memory and activation function.
pub open spec fn same_dynamic_graph<F>(a: Seq<DynamicNodeView<F>>, b: Seq<DynamicNodeView<F>>) -> bool {
    &&& a.len() == b.len()
    &&& forall|i: int| #![trigger a[i]] 0 <= i < a.len() ==> {
        &&& a[i].history == b[i].history
        &&& a[i].id == b[i].id
        &&& a[i].time == b[i].time
        &&& a[i].memory_size == b[i].memory_size
        &&& a[i].activation == b[i].activation
    }
}

proof fn lemma_process_queue_keeps_graph<F: Activation>(nodes: Seq<DynamicNodeView<F>>, qs: Seq<usize>)
    requires
        forall|j: int| 0 <= j < qs.len() ==> #[trigger] qs[j] < nodes.len(),
    ensures
        same_dynamic_graph(process_queue(nodes, qs), nodes),
    decreases qs.len(),
{
    if qs.len() > 0 {
        let init = qs.drop_last();
        assert forall|j: int| 0 <= j < init.len() implies #[trigger] init[j] < nodes.len() by {
            assert(init[j] == qs[j]);
        }
        lemma_process_queue_keeps_graph(nodes, init);
        let prev = process_queue(nodes, init);
        let q = qs.last();
        assert(qs[qs.len() - 1] < nodes.len());
        let nv = prev[q as int];
        let sent = prev.update(q as int, nv.after_send());
        assert(same_dynamic_graph(sent, nodes)) by {
            assert forall|i: int| 0 <= i < sent.len() implies {
                &&& #[trigger] sent[i].history == nodes[i].history
                &&& sent[i].id == nodes[i].id
                &&& sent[i].time == nodes[i].time
                &&& sent[i].memory_size == nodes[i].memory_size
                &&& sent[i].activation == nodes[i].activation
            } by {
                assert(prev[i].history == nodes[i].history);
            }
        }
        let next = process_queue(nodes, qs);
        assert(next == process_sender(prev, q));
        match nv.message() {
            Some(m) => {
                let b = broadcast_to(sent, m.from, m.core->0, m.time);
                assert forall|i: int| 0 <= i < b.len() implies {
                    &&& #[trigger] b[i].history == nodes[i].history
                    &&& b[i].id == nodes[i].id
                    &&& b[i].time == nodes[i].time
                    &&& b[i].memory_size == nodes[i].memory_size
                    &&& b[i].activation == nodes[i].activation
                } by {
                    assert(sent[i].history == nodes[i].history);
                }
            },
            None => {},
        }
    }
}

/// Running rounds of the broadcasting protocol never changes the alive
/// graph: identifiers, histories, clocks, memories and activation functions
/// stay as they were.
pub proof fn lemma_broadcast_rounds_keep_graph<F: Activation>(nodes: Seq<DynamicNodeView<F>>, k: nat)
    requires
        nodes.len() <= usize::MAX,
    ensures
        same_dynamic_graph(broadcast_rounds(nodes, k), nodes),
    decreases k,
{
    if k > 0 {
        lemma_broadcast_rounds_keep_graph(nodes, (k - 1) as nat);
        let prev = broadcast_rounds(nodes, (k - 1) as nat);
        lemma_queue_of(prev);
        lemma_process_queue_keeps_graph(prev, queue_of(prev));
        assert(broadcast_rounds(nodes, k) == broadcast_round(prev));
    }
}

/// The broadcasting graph is undirected: whenever a node holds a history of
/// another, that node holds the same history of it; and every node uses the
/// graph's memory and activation function.
pub open spec fn dynamic_symmetric<F>(g: DynamicGraphView<F>) -> bool {
    &&& forall|i: int, k: usize| 0 <= i < g.nodes.len() && #[trigger] g.nodes[i].history.dom().contains(k) ==> {
        &&& k < g.nodes.len()
        &&& g.nodes[k as int].history.dom().contains(i as usize)
        &&& g.nodes[k as int].history[i as usize] == g.nodes[i].history[k]
    }
    &&& forall|i: int| #![trigger g.nodes[i]] 0 <= i < g.nodes.len() ==> {
        &&& g.nodes[i].memory_size == g.memory_size
        &&& g.nodes[i].activation == g.activation
    }
}

/// A broadcasting graph fresh from `from_n_and_mem_size` is undirected.
pub proof fn lemma_dynamic_fresh_graph_symmetric<F: Activation>(g: DynamicGraphView<F>)
    requires
        forall|i: int| 0 <= i < g.nodes.len() ==> {
            &&& (#[trigger] g.nodes[i]).history == Map::<usize, Seq<bool>>::empty()
            &&& g.nodes[i].memory_size == g.memory_size
            &&& g.nodes[i].activation == g.activation
        },
    ensures
        dynamic_symmetric(g),
{
    assert forall|i: int, k: usize| 0 <= i < g.nodes.len() && #[trigger] g.nodes[i].history.dom().contains(k)
        implies false by {
        assert(g.nodes[i].history == Map::<usize, Seq<bool>>::empty());
    }
}

/// Running the broadcasting protocol keeps the graph undirected.
pub proof fn lemma_dynamic_run_keeps_symmetry<F: Activation>(g: DynamicGraphView<F>, k: nat)
    requires
        g.wf(),
        dynamic_symmetric(g),
    ensures
        dynamic_symmetric(DynamicGraphView { nodes: broadcast_rounds(g.nodes, k), ..g }),
{
    lemma_broadcast_rounds_keep_graph(g.nodes, k);
    let d = broadcast_rounds(g.nodes, k);
    let h = DynamicGraphView { nodes: d, ..g };
    assert forall|i: int, j: usize| 0 <= i < d.len() && #[trigger] d[i].history.dom().contains(j) implies {
        &&& j < d.len()
        &&& d[j as int].history.dom().contains(i as usize)
        &&& d[j as int].history[i as usize] == d[i].history[j]
    } by {
        assert(d[i].history == g.nodes[i].history);
        assert(g.nodes[i].history.dom().contains(j));
        assert(d[j as int].history == g.nodes[j as int].history);
    }
    assert forall|i: int| 0 <= i < d.len() implies {
        &&& #[trigger] d[i].memory_size == h.memory_size
        &&& d[i].activation == h.activation
    } by {
        assert(d[i].history == g.nodes[i].history);
        assert(g.nodes[i].memory_size == g.memory_size);
    }
}

/// The nodes share a memory and an activation function, and histories are
/// mirrored between neighbours.
pub open spec fn dynamic_mirrored<F>(nodes: Seq<DynamicNodeView<F>>, memory_size: usize, activation: F) -> bool {
    dynamic_symmetric(DynamicGraphView { nodes, edges: 0, memory_size, activation })
}

proof fn lemma_add_edge_mirrored<F: Activation>(nodes: Seq<DynamicNodeView<F>>, u: usize, v: usize, t: usize, m: usize, a: F)
    requires
        dynamic_mirrored(nodes, m, a),
        nodes_wf(nodes, t),
        nodes.len() < usize::MAX,
        1 <= t,
        u < nodes.len(),
        v < nodes.len(),
        u != v,
    ensures
        dynamic_mirrored(add_edge(nodes, u, v), m, a),
{
    let nn = add_edge(nodes, u, v);
    let g0 = DynamicGraphView { nodes, edges: 0, memory_size: m, activation: a };
    assert(nodes[u as int].time == t && nodes[v as int].time == t);
    assert(nodes[u as int].history.dom().contains(v) <==> nodes[v as int].history.dom().contains(u)) by {
        if nodes[u as int].history.dom().contains(v) {
            assert(g0.nodes[u as int].history.dom().contains(v));
        }
        if nodes[v as int].history.dom().contains(u) {
            assert(g0.nodes[v as int].history.dom().contains(u));
        }
    }
    if nodes[u as int].history.dom().contains(v) {
        assert(g0.nodes[u as int].history.dom().contains(v));
        assert(nodes[v as int].history[u] == nodes[u as int].history[v]);
    }
    assert(nn[u as int].history[v] == nn[v as int].history[u]);
    assert forall|i: int, k: usize| 0 <= i < nn.len() && #[trigger] nn[i].history.dom().contains(k) implies {
        &&& k < nn.len()
        &&& nn[k as int].history.dom().contains(i as usize)
        &&& nn[k as int].history[i as usize] == nn[i].history[k]
    } by {
        if (i == u && k == v) || (i == v && k == u) {
        } else {
            assert(nodes[i].history.dom().contains(k));
            assert(g0.nodes[i].history.dom().contains(k));
            assert(nodes[i].history[k] == nn[i].history[k]);
            assert(nodes[k as int].history[i as usize] == nn[k as int].history[i as usize]);
        }
    }
    assert forall|i: int| 0 <= i < nn.len() implies {
        &&& #[trigger] nn[i].memory_size == m
        &&& nn[i].activation == a
    } by {
        assert(g0.nodes[i].memory_size == m);
    }
}

proof fn lemma_add_edges_mirrored<F: Activation>(nodes: Seq<DynamicNodeView<F>>, list: Seq<(usize, usize)>, t: usize, m: usize, a: F)
    requires
        dynamic_mirrored(nodes, m, a),
        nodes_wf(nodes, t),
        nodes.len() < usize::MAX,
        1 <= t,
        forall|j: int| 0 <= j < list.len() ==> #[trigger] list[j].0 < nodes.len() && list[j].1 < nodes.len()
            && list[j].0 != list[j].1,
    ensures
        dynamic_mirrored(add_edges(nodes, list), m, a),
        nodes_wf(add_edges(nodes, list), t),
        add_edges(nodes, list).len() == nodes.len(),
    decreases list.len(),
{
    if list.len() > 0 {
        let init = list.drop_last();
        assert forall|j: int| 0 <= j < init.len() implies #[trigger] init[j].0 < nodes.len() && init[j].1 < nodes.len()
            && init[j].0 != init[j].1 by {
            assert(init[j] == list[j]);
        }
        lemma_add_edges_mirrored(nodes, init, t, m, a);
        let prev = add_edges(nodes, init);
        let e = list.last();
        assert(list[list.len() - 1] == e);
        lemma_add_edge_mirrored(prev, e.0, e.1, t, m, a);
        lemma_add_edge_wf(prev, e.0, e.1, t);
    }
}

/// Adding a snapshot keeps the broadcasting graph undirected.
pub proof fn lemma_dynamic_snapshot_keeps_symmetry<F: Activation>(g: DynamicGraphView<F>, list: Seq<(usize, usize)>)
    requires
        g.wf(),
        dynamic_symmetric(g),
        g.accepts_snapshot(list),
    ensures
        dynamic_symmetric(g.after_snapshot(list)),
{
    let t = g.clock();
    let adv = g.nodes.map_values(|n: DynamicNodeView<F>| n.advanced());
    let m = g.memory_size;
    let a = g.activation;
    assert(dynamic_mirrored(adv, m, a)) by {
        assert forall|i: int, k: usize| 0 <= i < adv.len() && #[trigger] adv[i].history.dom().contains(k) implies {
            &&& k < adv.len()
            &&& adv[k as int].history.dom().contains(i as usize)
            &&& adv[k as int].history[i as usize] == adv[i].history[k]
        } by {
            assert(g.nodes[i].history.dom().contains(k));
        }
        assert forall|i: int| 0 <= i < adv.len() implies {
            &&& #[trigger] adv[i].memory_size == m
            &&& adv[i].activation == a
        } by {
            assert(g.nodes[i].memory_size == m);
        }
    }
    assert(nodes_wf(adv, (t + 1) as usize)) by {
        assert forall|i: int| 0 <= i < adv.len() implies #[trigger] adv[i].wf() by {
            assert(g.nodes[i].wf() && g.nodes[i].time == t);
            assert(adv[i].history.dom() =~= g.nodes[i].history.dom());
        }
        assert forall|i: int| 0 <= i < adv.len() implies #[trigger] adv[i].time == t + 1 by {
            assert(g.nodes[i].time == t);
        }
        assert forall|i: int| 0 <= i < adv.len() implies (#[trigger] adv[i].id is None || adv[i].id == Some(
            i as usize,
        )) by {
            assert(g.nodes[i].id is None || g.nodes[i].id == Some(i as usize));
        }
        assert forall|i: int, k: usize| 0 <= i < adv.len() && #[trigger] adv[i].history.dom().contains(k)
            implies k < adv.len() && k != i by {
            assert(g.nodes[i].history.dom().contains(k));
        }
        assert forall|i: int, k: usize| 0 <= i < adv.len() && #[trigger] adv[i].estimate.dom().contains(k)
            implies k < adv.len() by {
            assert(g.nodes[i].estimate.dom().contains(k));
        }
    }
    lemma_add_edges_mirrored(adv, list, (t + 1) as usize, m, a);
    let fin = g.after_snapshot(list);
    let ga = DynamicGraphView { nodes: fin.nodes, edges: 0, memory_size: m, activation: a };
    assert forall|i: int| 0 <= i < fin.nodes.len() implies {
        &&& #[trigger] fin.nodes[i].memory_size == fin.memory_size
        &&& fin.nodes[i].activation == fin.activation
    } by {
        assert(ga.nodes[i].memory_size == m);
    }
    assert forall|i: int, k: usize| 0 <= i < fin.nodes.len() && #[trigger] fin.nodes[i].history.dom().contains(k)
        implies {
        &&& k < fin.nodes.len()
        &&& fin.nodes[k as int].history.dom().contains(i as usize)
        &&& fin.nodes[k as int].history[i as usize] == fin.nodes[i].history[k]
    } by {
        assert(ga.nodes[i].history.dom().contains(k));
    }
}

} // verus!
