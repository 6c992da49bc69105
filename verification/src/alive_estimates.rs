//! Why a node only ever holds estimates of its alive neighbours: the reset
//! at the end of a snapshot drops the others, and during the rounds a node
//! hears only from nodes whose alive neighbour it is, which in an
//! undirected graph are its own alive neighbours.

use vstd::prelude::*;

use crate::activation::Activation;
use crate::alive_rounds::{
    after_sends, deactivated, deliver_all, deliver_to, lemma_pending_queue, pending_queue, prepared, round, rounds,
    sent_messages, Announcement,
};
use crate::dynamic_montresor::{
    AliveGraphView, AliveNodeView, add_edge, add_edges, estimates_alive, identified_set, names_identified,
    names_within,
};
use crate::laws::{
    lemma_alive_neighbors_symmetric, lemma_deliver_all_keeps_graph, lemma_deliver_to_keeps_graph,
    lemma_messages_from_nodes, lemma_rounds_keep_graph, lemma_same_graph_shape, lemma_step_keeps_graph,
    same_graph, well_shaped,
};
use crate::sorting::{lemma_sorted_members_exist, sorted_members};

verus! {

/// Alive neighbourhood is mutual and only joins identified nodes of the
/// sequence.
pub open spec fn alive_mirrored<F: Activation>(nodes: Seq<AliveNodeView<F>>) -> bool {
    forall|i: int, k: usize| 0 <= i < nodes.len() && #[trigger] nodes[i].alive_neighbors().contains(k) ==> {
        &&& k < nodes.len()
        &&& nodes[k as int].alive_neighbors().contains(i as usize)
        &&& nodes[k as int].id is Some
    }
}

proof fn lemma_same_alive<F: Activation>(a: AliveNodeView<F>, b: AliveNodeView<F>)
    requires
        a.history == b.history,
        a.memory_size == b.memory_size,
        a.activation == b.activation,
    ensures
        a.alive_neighbors() == b.alive_neighbors(),
{
    assert(a.alive_neighbors() =~= b.alive_neighbors());
}

proof fn lemma_mirrored_transfer<F: Activation>(a: Seq<AliveNodeView<F>>, b: Seq<AliveNodeView<F>>)
    requires
        same_graph(a, b),
        alive_mirrored(b),
    ensures
        alive_mirrored(a),
{
    assert forall|i: int, k: usize| 0 <= i < a.len() && #[trigger] a[i].alive_neighbors().contains(k) implies {
        &&& k < a.len()
        &&& a[k as int].alive_neighbors().contains(i as usize)
        &&& a[k as int].id is Some
    } by {
        lemma_same_alive(a[i], b[i]);
        assert(b[i].alive_neighbors().contains(k));
        lemma_same_alive(a[k as int], b[k as int]);
    }
}

/// An identified node that hears from one of its alive neighbours keeps
/// holding estimates of alive neighbours only.
proof fn lemma_deliver_to_alive<F: Activation>(nodes: Seq<AliveNodeView<F>>, msg: Announcement, rs: Seq<usize>)
    requires
        estimates_alive(nodes),
        forall|j: int| 0 <= j < rs.len() ==> #[trigger] rs[j] < nodes.len() && nodes[rs[j] as int].id is Some
            && nodes[rs[j] as int].alive_neighbors().contains(msg.0),
    ensures
        estimates_alive(deliver_to(nodes, msg, rs)),
    decreases rs.len(),
{
    if rs.len() > 0 {
        let init = rs.drop_last();
        assert forall|j: int| 0 <= j < init.len() implies #[trigger] init[j] < nodes.len() && nodes[init[j] as int].id is Some
            && nodes[init[j] as int].alive_neighbors().contains(msg.0) by {
            assert(init[j] == rs[j]);
        }
        lemma_deliver_to_alive(nodes, msg, init);
        lemma_deliver_to_keeps_graph(nodes, msg, init);
        let prev = deliver_to(nodes, msg, init);
        let r = rs.last() as int;
        assert(rs[rs.len() - 1] < nodes.len());
        lemma_same_alive(prev[r], nodes[r]);
        let nv = prev[r];
        let after = nv.after_receive(msg.0, msg.1, msg.2);
        lemma_same_alive(after, nv);
        assert(after.estimate.dom().subset_of(after.alive_neighbors())) by {
            assert forall|k: usize| #[trigger] after.estimate.dom().contains(k) implies after.alive_neighbors().contains(k) by {
                if k != msg.0 {
                    assert(nv.estimate.dom().contains(k));
                }
            }
        }
        let next = deliver_to(nodes, msg, rs);
        assert(next == prev.update(r, after));
    }
}

/// Delivering announcements of a round keeps every node holding estimates
/// of alive neighbours only.
proof fn lemma_deliver_all_alive<F: Activation>(nodes: Seq<AliveNodeView<F>>, msgs: Seq<Announcement>)
    requires
        estimates_alive(nodes),
        alive_mirrored(nodes),
        well_shaped(nodes),
        forall|j: int| 0 <= j < msgs.len() ==> #[trigger] msgs[j].0 < nodes.len(),
    ensures
        estimates_alive(deliver_all(nodes, msgs)),
    decreases msgs.len(),
{
    if msgs.len() > 0 {
        let init = msgs.drop_last();
        assert forall|j: int| 0 <= j < init.len() implies #[trigger] init[j].0 < nodes.len() by {
            assert(init[j] == msgs[j]);
        }
        lemma_deliver_all_alive(nodes, init);
        lemma_deliver_all_keeps_graph(nodes, init);
        let prev = deliver_all(nodes, init);
        lemma_mirrored_transfer(prev, nodes);
        lemma_same_graph_shape(prev, nodes);
        let m = msgs.last();
        assert(msgs[msgs.len() - 1].0 < nodes.len());
        let s = m.0;
        let a = prev[s as int].alive_neighbors();
        lemma_sorted_members_exist(a, prev.len() as usize);
        let rs = sorted_members(a);
        assert forall|j: int| 0 <= j < rs.len() implies #[trigger] rs[j] < prev.len() && prev[rs[j] as int].id is Some
            && prev[rs[j] as int].alive_neighbors().contains(m.0) by {
            assert(rs.to_set().contains(rs[j]));
            assert(a.contains(rs[j]));
        }
        lemma_deliver_to_alive(prev, m, rs);
    }
}

proof fn lemma_round_alive<F: Activation>(nodes: Seq<AliveNodeView<F>>)
    requires
        estimates_alive(nodes),
        alive_mirrored(nodes),
        well_shaped(nodes),
    ensures
        estimates_alive(round(nodes)),
{
    let a = after_sends(nodes);
    assert forall|i: int| 0 <= i < a.len() implies #[trigger] a[i].alive_neighbors() == nodes[i].alive_neighbors() by {
        lemma_same_alive(a[i], nodes[i]);
    }
    assert(estimates_alive(a)) by {
        assert forall|i: int| 0 <= i < a.len() implies #[trigger] a[i].estimate == nodes[i].estimate by {}
    }
    assert(same_graph(a, nodes));
    lemma_mirrored_transfer(a, nodes);
    lemma_same_graph_shape(a, nodes);
    lemma_pending_queue(nodes);
    lemma_messages_from_nodes(nodes, pending_queue(nodes));
    lemma_deliver_all_alive(a, sent_messages(nodes));
}

proof fn lemma_rounds_alive<F: Activation>(nodes: Seq<AliveNodeView<F>>, k: nat)
    requires
        estimates_alive(nodes),
        alive_mirrored(nodes),
        well_shaped(nodes),
    ensures
        estimates_alive(rounds(nodes, k)),
    decreases k,
{
    if k > 0 {
        lemma_rounds_alive(nodes, (k - 1) as nat);
        let prev = rounds(nodes, (k - 1) as nat);
        lemma_rounds_keep_graph(nodes, (k - 1) as nat);
        lemma_same_graph_shape(prev, nodes);
        lemma_mirrored_transfer(prev, nodes);
        lemma_round_alive(prev);
    }
}

/// In a consistent graph the alive neighbourhood is mutual and joins
/// identified nodes.
proof fn lemma_consistent_mirrored<F: Activation>(g: AliveGraphView<F>)
    requires
        g.consistent(),
    ensures
        alive_mirrored(g.nodes),
{
    assert forall|i: int, k: usize| 0 <= i < g.nodes.len() && #[trigger] g.nodes[i].alive_neighbors().contains(k) implies {
        &&& k < g.nodes.len()
        &&& g.nodes[k as int].alive_neighbors().contains(i as usize)
        &&& g.nodes[k as int].id is Some
    } by {
        assert(g.nodes[i].history.dom().contains(k));
        assert(names_within(g.nodes[i], identified_set(g.nodes), i as usize));
        lemma_alive_neighbors_symmetric(g, i as usize, k);
    }
}

/// `montresor_step` keeps every node holding estimates of alive neighbours
/// only: whatever the number of rounds `k`, the nodes it ends with satisfy
/// `estimates_alive`.
pub proof fn lemma_step_keeps_estimates_alive<F: Activation>(g: AliveGraphView<F>, k: nat)
    requires
        g.consistent(),
    ensures
        estimates_alive(deactivated(rounds(g.prepared_nodes(), k))),
{
    let p = g.prepared_nodes();
    lemma_consistent_mirrored(g);
    assert forall|i: int| 0 <= i < p.len() implies #[trigger] p[i].alive_neighbors() == g.nodes[i].alive_neighbors() by {
        lemma_same_alive(p[i], g.nodes[i]);
    }
    assert(estimates_alive(p)) by {
        assert forall|i: int| 0 <= i < p.len() implies #[trigger] p[i].estimate == g.nodes[i].estimate by {}
    }
    assert(same_graph(p, g.nodes));
    assert(well_shaped(g.nodes));
    lemma_same_graph_shape(p, g.nodes);
    lemma_mirrored_transfer(p, g.nodes);
    lemma_rounds_alive(p, k);
    let r = rounds(p, k);
    let d = deactivated(r);
    assert forall|i: int| 0 <= i < d.len() implies #[trigger] d[i].alive_neighbors() == r[i].alive_neighbors() by {
        lemma_same_alive(d[i], r[i]);
    }
}

proof fn lemma_add_edges_unidentified<F: Activation>(nodes: Seq<AliveNodeView<F>>, list: Seq<(usize, usize)>, i: int)
    requires
        0 <= i < nodes.len(),
        forall|j: int| 0 <= j < list.len() ==> #[trigger] list[j].0 < nodes.len() && list[j].1 < nodes.len(),
        add_edges(nodes, list)[i].id is None,
    ensures
        add_edges(nodes, list)[i] == nodes[i],
        add_edges(nodes, list).len() == nodes.len(),
    decreases list.len(),
{
    if list.len() > 0 {
        let init = list.drop_last();
        assert forall|j: int| 0 <= j < init.len() implies #[trigger] init[j].0 < nodes.len() && init[j].1 < nodes.len() by {
            assert(init[j] == list[j]);
        }
        let e = list.last();
        assert(list[list.len() - 1] == e);
        lemma_add_edges_len(nodes, init);
        let prev = add_edges(nodes, init);
        assert(add_edges(nodes, list) == add_edge(prev, e.0, e.1));
        assert(i != e.0 && i != e.1);
        lemma_add_edges_unidentified(nodes, init, i);
    }
}

proof fn lemma_add_edges_len<F: Activation>(nodes: Seq<AliveNodeView<F>>, list: Seq<(usize, usize)>)
    requires
        forall|j: int| 0 <= j < list.len() ==> #[trigger] list[j].0 < nodes.len() && list[j].1 < nodes.len(),
    ensures
        add_edges(nodes, list).len() == nodes.len(),
    decreases list.len(),
{
    if list.len() > 0 {
        let init = list.drop_last();
        assert forall|j: int| 0 <= j < init.len() implies #[trigger] init[j].0 < nodes.len() && init[j].1 < nodes.len() by {
            assert(init[j] == list[j]);
        }
        lemma_add_edges_len(nodes, init);
        assert(list[list.len() - 1] == list.last());
    }
}

/// `new_snapshot` keeps every node holding estimates of alive neighbours
/// only: the reset drops the estimates of neighbours that are no longer
/// alive, and a node still without an identifier holds none.
pub proof fn lemma_snapshot_keeps_estimates_alive<F: Activation>(g: AliveGraphView<F>, list: Seq<(usize, usize)>)
    requires
        g.consistent(),
        g.accepts_snapshot(list),
    ensures
        estimates_alive(g.after_snapshot(list).nodes),
{
    let adv = g.nodes.map_values(|n: AliveNodeView<F>| n.advanced());
    let added = add_edges(adv, list);
    lemma_add_edges_len(adv, list);
    let fin = g.after_snapshot(list);
    assert(fin.nodes == added.map_values(|n: AliveNodeView<F>| n.after_reset()));
    assert forall|i: int| #![trigger fin.nodes[i]] 0 <= i < fin.nodes.len() implies {
        &&& fin.nodes[i].estimate.dom().subset_of(fin.nodes[i].alive_neighbors())
        &&& fin.nodes[i].id is None ==> fin.nodes[i].estimate.dom() == Set::<usize>::empty()
    } by {
        let nv = added[i];
        lemma_same_alive(nv.after_reset(), nv);
        if nv.id is None {
            lemma_add_edges_unidentified(adv, list, i);
            assert(g.nodes[i].id is None);
            assert(g.nodes[i].estimate.dom() == Set::<usize>::empty());
            assert(nv.estimate == g.nodes[i].estimate);
        } else {
            let est = nv.estimate.restrict(nv.alive_neighbors());
            assert(nv.after_reset().estimate.dom() =~= est.dom());
        }
    }
}

} // verus!
