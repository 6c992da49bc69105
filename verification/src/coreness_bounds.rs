//! Why a known coreness always stays below the number of identified nodes:
//! histories and estimates only ever name other identified nodes, so no
//! degree, and no h-index of estimates, can reach that number.

use vstd::prelude::*;

use crate::activation::Activation;
use crate::alive_rounds::{
    after_sends, deactivated, deliver_all, deliver_to, lemma_pending_queue, messages_of, pending_queue,
    prepared, round, rounds, sent_messages, Announcement,
};
use crate::coreness::{coreness_from, Estimates};
use crate::dynamic_montresor::{
    AliveGraphView, AliveNodeView, add_edge, add_edges, count_identified, identified_set, lemma_add_edge_wf,
    names_identified, names_within, nodes_wf,
};
use crate::laws::{
    lemma_advance_wf, lemma_deliver_all_keeps_graph, lemma_h_index_is_largest, lemma_rounds_keep_graph,
    lemma_same_graph_shape, lemma_step_keeps_graph, same_graph, well_shaped,
};
use crate::sorting::{lemma_sorted_members_exist, sorted_members};

verus! {

/// The identified nodes are finitely many: as many as `count_identified`
/// says, and no more than the nodes.
pub proof fn lemma_identified_set<F>(nodes: Seq<AliveNodeView<F>>)
    requires
        nodes.len() <= usize::MAX,
    ensures
        identified_set(nodes).finite(),
        identified_set(nodes).len() == count_identified(nodes),
        count_identified(nodes) <= nodes.len(),
    decreases nodes.len(),
{
    if nodes.len() == 0 {
        assert(identified_set(nodes) =~= Set::<usize>::empty());
    } else {
        let init = nodes.drop_last();
        lemma_identified_set(init);
        let last = (nodes.len() - 1) as usize;
        let s0 = identified_set(init);
        assert(!s0.contains(last));
        let s1 = if nodes.last().id is Some { s0.insert(last) } else { s0 };
        assert forall|k: usize| #[trigger] identified_set(nodes).contains(k) <==> s1.contains(k) by {
            if k < init.len() {
                assert(init[k as int] == nodes[k as int]);
            }
        }
        assert(identified_set(nodes) =~= s1);
    }
}

/// A set of nodes of `ids` that leaves out `me`, a node of `ids`, is smaller
/// than `ids`.
proof fn lemma_names_count(s: Set<usize>, ids: Set<usize>, me: usize)
    requires
        ids.finite(),
        ids.contains(me),
        forall|k: usize| #[trigger] s.contains(k) ==> ids.contains(k) && k != me,
    ensures
        s.finite(),
        s.len() < ids.len(),
{
    assert(s.subset_of(ids.remove(me)));
    vstd::set_lib::lemma_len_subset(s, ids.remove(me));
}

/// A node that names only other nodes of `ids` has fewer alive neighbours
/// than `ids` has members.
proof fn lemma_degree_below<F: Activation>(nv: AliveNodeView<F>, ids: Set<usize>, me: usize)
    requires
        names_within(nv, ids, me),
        ids.finite(),
        ids.contains(me),
    ensures
        nv.degree() < ids.len(),
{
    let a = nv.alive_neighbors();
    assert forall|k: usize| #[trigger] a.contains(k) implies ids.contains(k) && k != me by {
        assert(nv.history.dom().contains(k));
    }
    lemma_names_count(a, ids, me);
}

/// The coreness computed from fewer than `b` estimates and a degree below
/// `b` is below `b`, or unknown.
proof fn lemma_coreness_from_below(est: Estimates, c: usize, deg: usize, b: nat)
    requires
        est.dom().finite(),
        est.dom().len() < b,
        deg < b,
        b <= usize::MAX,
    ensures
        coreness_from(est, c, deg) < b || coreness_from(est, c, deg) == usize::MAX,
{
    lemma_h_index_is_largest(est);
}

/// The node at index `me` names only other nodes of `ids`; without an
/// identifier its coreness is unknown; with one, it belongs to `ids` and a
/// known coreness is below the size of `ids`.
pub open spec fn node_within<F>(nv: AliveNodeView<F>, ids: Set<usize>, me: usize) -> bool {
    &&& names_within(nv, ids, me)
    &&& nv.id is None ==> nv.coreness == usize::MAX
    &&& nv.id is Some ==> ids.contains(me)
    &&& nv.id is Some && nv.coreness < usize::MAX ==> nv.coreness < ids.len()
}

/// Receiving the coreness of another node of `ids` keeps a node within `ids`.
proof fn lemma_receive_within<F: Activation>(
    nv: AliveNodeView<F>,
    ids: Set<usize>,
    me: usize,
    from: usize,
    core: usize,
    timestamp: usize,
)
    requires
        node_within(nv, ids, me),
        ids.finite(),
        ids.len() <= usize::MAX,
        nv.id is Some,
        ids.contains(from),
        from != me,
    ensures
        node_within(nv.after_receive(from, core, timestamp), ids, me),
        nv.after_receive(from, core, timestamp).id == nv.id,
{
    if nv.accepts(from, core, timestamp) {
        let est = nv.estimate.insert(from, (core, timestamp));
        assert forall|k: usize| #[trigger] est.dom().contains(k) implies ids.contains(k) && k != me by {
            if k != from {
                assert(nv.estimate.dom().contains(k));
            }
        }
        lemma_names_count(est.dom(), ids, me);
        lemma_degree_below(nv, ids, me);
        lemma_coreness_from_below(est, nv.coreness, nv.degree() as usize, ids.len());
    }
}

/// The end-of-snapshot reset keeps a node within `ids`.
proof fn lemma_reset_within<F: Activation>(nv: AliveNodeView<F>, ids: Set<usize>, me: usize)
    requires
        node_within(nv, ids, me),
        ids.finite(),
        ids.len() <= usize::MAX,
    ensures
        node_within(nv.after_reset(), ids, me),
        nv.after_reset().id == nv.id,
{
    if nv.id is Some {
        let est = nv.estimate.restrict(nv.alive_neighbors());
        assert forall|k: usize| #[trigger] est.dom().contains(k) implies ids.contains(k) && k != me by {
            assert(nv.estimate.dom().contains(k));
        }
        lemma_names_count(est.dom(), ids, me);
        lemma_degree_below(nv, ids, me);
        lemma_coreness_from_below(est, nv.coreness, nv.degree() as usize, ids.len());
    }
}

/// Preparing a node for the rounds keeps it within `ids`.
proof fn lemma_prepared_within<F: Activation>(nv: AliveNodeView<F>, ids: Set<usize>, me: usize)
    requires
        node_within(nv, ids, me),
        ids.finite(),
    ensures
        node_within(prepared(nv), ids, me),
        prepared(nv).id == nv.id,
{
    if nv.id is Some {
        lemma_degree_below(nv, ids, me);
    }
}

/// Every node keeps within `ids`, and `ids` are exactly the indices of the
/// identified nodes.
pub open spec fn all_within<F>(nodes: Seq<AliveNodeView<F>>, ids: Set<usize>) -> bool {
    &&& ids.finite()
    &&& ids.len() <= usize::MAX
    &&& forall|i: int| 0 <= i < nodes.len() ==> node_within(#[trigger] nodes[i], ids, i as usize)
    &&& forall|k: usize| #[trigger] ids.contains(k) ==> k < nodes.len() && nodes[k as int].id is Some
}

/// For nodes that fit their indices in a `usize`, naming only identified
/// nodes with bounded corenesses is keeping within the identified set.
pub proof fn lemma_within_identified<F: Activation>(g: AliveGraphView<F>)
    requires
        g.nodes.len() <= usize::MAX,
    ensures
        (names_identified(g.nodes) && g.corenesses_bounded()) <==> all_within(g.nodes, identified_set(g.nodes)),
{
    lemma_identified_set(g.nodes);
    let ids = identified_set(g.nodes);
    if names_identified(g.nodes) && g.corenesses_bounded() {
        assert forall|i: int| 0 <= i < g.nodes.len() implies node_within(#[trigger] g.nodes[i], ids, i as usize) by {
            assert(names_within(g.nodes[i], ids, i as usize));
        }
    }
    if all_within(g.nodes, ids) {
        assert forall|i: int| 0 <= i < g.nodes.len() implies names_within(#[trigger] g.nodes[i], ids, i as usize) by {
            assert(node_within(g.nodes[i], ids, i as usize));
        }
        assert forall|i: int| 0 <= i < g.nodes.len() && #[trigger] g.nodes[i].id is None implies g.nodes[i].coreness
            == usize::MAX by {
            assert(node_within(g.nodes[i], ids, i as usize));
        }
        assert forall|i: int| 0 <= i < g.nodes.len() && #[trigger] g.nodes[i].id is Some && g.nodes[i].coreness
            < usize::MAX implies g.nodes[i].coreness < count_identified(g.nodes) by {
            assert(node_within(g.nodes[i], ids, i as usize));
        }
    }
}

/// Delivering an announcement of a node of `ids` to other nodes of `ids`
/// keeps every node within `ids`.
proof fn lemma_deliver_to_within<F: Activation>(
    nodes: Seq<AliveNodeView<F>>,
    msg: Announcement,
    rs: Seq<usize>,
    ids: Set<usize>,
)
    requires
        all_within(nodes, ids),
        ids.contains(msg.0),
        forall|j: int| 0 <= j < rs.len() ==> #[trigger] ids.contains(rs[j]) && rs[j] != msg.0,
    ensures
        all_within(deliver_to(nodes, msg, rs), ids),
        deliver_to(nodes, msg, rs).len() == nodes.len(),
    decreases rs.len(),
{
    if rs.len() > 0 {
        let init = rs.drop_last();
        assert forall|j: int| 0 <= j < init.len() implies #[trigger] ids.contains(init[j]) && init[j] != msg.0 by {
            assert(init[j] == rs[j]);
        }
        lemma_deliver_to_within(nodes, msg, init, ids);
        let prev = deliver_to(nodes, msg, init);
        let r = rs.last();
        assert(ids.contains(rs[rs.len() - 1]) && rs[rs.len() - 1] != msg.0);
        assert(node_within(prev[r as int], ids, r));
        lemma_receive_within(prev[r as int], ids, r, msg.0, msg.1, msg.2);
        let next = deliver_to(nodes, msg, rs);
        assert(next == prev.update(r as int, prev[r as int].after_receive(msg.0, msg.1, msg.2)));
        assert forall|i: int| 0 <= i < next.len() implies node_within(#[trigger] next[i], ids, i as usize) by {
            if i != r {
                assert(node_within(prev[i], ids, i as usize));
            }
        }
        assert forall|k: usize| #[trigger] ids.contains(k) implies k < next.len() && next[k as int].id is Some by {
            assert(prev[k as int].id is Some);
        }
    }
}

/// The announcements of the nodes at `qs` come from identified nodes.
proof fn lemma_messages_identified<F: Activation>(nodes: Seq<AliveNodeView<F>>, qs: Seq<usize>, ids: Set<usize>)
    requires
        all_within(nodes, ids),
        well_shaped(nodes),
        forall|j: int| 0 <= j < qs.len() ==> #[trigger] qs[j] < nodes.len(),
    ensures
        forall|j: int| 0 <= j < messages_of(nodes, qs).len() ==> #[trigger] ids.contains(messages_of(nodes, qs)[j].0),
    decreases qs.len(),
{
    if qs.len() > 0 {
        let init = qs.drop_last();
        assert forall|j: int| 0 <= j < init.len() implies #[trigger] init[j] < nodes.len() by {
            assert(init[j] == qs[j]);
        }
        lemma_messages_identified(nodes, init, ids);
        let q = qs.last();
        assert(qs[qs.len() - 1] < nodes.len());
        assert(nodes[q as int].id is None || nodes[q as int].id == Some(q));
        assert(node_within(nodes[q as int], ids, q));
        let prev = messages_of(nodes, init);
        let all = messages_of(nodes, qs);
        if nodes[q as int].message() is Some {
            assert(all == prev.push(nodes[q as int].message()->0));
            assert forall|j: int| 0 <= j < all.len() implies #[trigger] ids.contains(all[j].0) by {
                if j < prev.len() {
                    assert(all[j] == prev[j]);
                }
            }
        } else {
            assert(all == prev);
        }
    }
}

/// Delivering announcements of identified nodes keeps every node within the
/// identified set.
proof fn lemma_deliver_all_within<F: Activation>(nodes: Seq<AliveNodeView<F>>, msgs: Seq<Announcement>, ids: Set<usize>)
    requires
        all_within(nodes, ids),
        well_shaped(nodes),
        forall|j: int| 0 <= j < msgs.len() ==> #[trigger] ids.contains(msgs[j].0),
    ensures
        all_within(deliver_all(nodes, msgs), ids),
    decreases msgs.len(),
{
    if msgs.len() > 0 {
        let init = msgs.drop_last();
        assert forall|j: int| 0 <= j < init.len() implies #[trigger] ids.contains(init[j].0) by {
            assert(init[j] == msgs[j]);
        }
        lemma_deliver_all_within(nodes, init, ids);
        assert forall|j: int| 0 <= j < init.len() implies #[trigger] init[j].0 < nodes.len() by {
            assert(ids.contains(init[j].0));
        }
        lemma_deliver_all_keeps_graph(nodes, init);
        let prev = deliver_all(nodes, init);
        lemma_same_graph_shape(prev, nodes);
        let m = msgs.last();
        assert(ids.contains(msgs[msgs.len() - 1].0));
        let s = m.0;
        assert(node_within(prev[s as int], ids, s));
        let a = prev[s as int].alive_neighbors();
        assert forall|x: usize| #[trigger] a.contains(x) implies x < prev.len() by {
            assert(prev[s as int].history.dom().contains(x));
        }
        lemma_sorted_members_exist(a, prev.len() as usize);
        let rs = sorted_members(a);
        assert forall|j: int| 0 <= j < rs.len() implies #[trigger] ids.contains(rs[j]) && rs[j] != m.0 by {
            assert(rs.to_set().contains(rs[j]));
            assert(prev[s as int].history.dom().contains(rs[j]));
        }
        lemma_deliver_to_within(prev, m, rs, ids);
    }
}

/// One round keeps every node within the identified set.
proof fn lemma_round_within<F: Activation>(nodes: Seq<AliveNodeView<F>>, ids: Set<usize>)
    requires
        all_within(nodes, ids),
        well_shaped(nodes),
    ensures
        all_within(round(nodes), ids),
{
    let a = after_sends(nodes);
    assert forall|i: int| 0 <= i < a.len() implies node_within(#[trigger] a[i], ids, i as usize) by {
        assert(node_within(nodes[i], ids, i as usize));
    }
    assert forall|k: usize| #[trigger] ids.contains(k) implies k < a.len() && a[k as int].id is Some by {
        assert(nodes[k as int].id is Some);
    }
    assert(same_graph(a, nodes));
    lemma_same_graph_shape(a, nodes);
    lemma_pending_queue(nodes);
    lemma_messages_identified(nodes, pending_queue(nodes), ids);
    lemma_deliver_all_within(a, sent_messages(nodes), ids);
}

/// Any number of rounds keeps every node within the identified set.
proof fn lemma_rounds_within<F: Activation>(nodes: Seq<AliveNodeView<F>>, k: nat, ids: Set<usize>)
    requires
        all_within(nodes, ids),
        well_shaped(nodes),
    ensures
        all_within(rounds(nodes, k), ids),
    decreases k,
{
    if k > 0 {
        lemma_rounds_within(nodes, (k - 1) as nat, ids);
        let prev = rounds(nodes, (k - 1) as nat);
        lemma_rounds_keep_graph(nodes, (k - 1) as nat);
        lemma_same_graph_shape(prev, nodes);
        lemma_round_within(prev, ids);
    }
}

/// `montresor_step` keeps the graph consistent: whatever the number of
/// rounds `k`, the nodes it ends with name only identified nodes, and every
/// known coreness stays below the number of identified nodes.
pub proof fn lemma_step_keeps_consistency<F: Activation>(g: AliveGraphView<F>, k: nat)
    requires
        g.consistent(),
    ensures
        names_identified(deactivated(rounds(g.prepared_nodes(), k))),
        (AliveGraphView { nodes: deactivated(rounds(g.prepared_nodes(), k)), ..g }).corenesses_bounded(),
{
    let ids = identified_set(g.nodes);
    lemma_within_identified(g);
    let p = g.prepared_nodes();
    assert forall|i: int| 0 <= i < p.len() implies node_within(#[trigger] p[i], ids, i as usize) by {
        assert(node_within(g.nodes[i], ids, i as usize));
        lemma_prepared_within(g.nodes[i], ids, i as usize);
    }
    assert forall|x: usize| #[trigger] ids.contains(x) implies x < p.len() && p[x as int].id is Some by {
        assert(g.nodes[x as int].id is Some);
    }
    assert(same_graph(p, g.nodes));
    assert(well_shaped(g.nodes));
    lemma_same_graph_shape(p, g.nodes);
    lemma_rounds_within(p, k, ids);
    let r = rounds(p, k);
    let d = deactivated(r);
    assert forall|i: int| 0 <= i < d.len() implies node_within(#[trigger] d[i], ids, i as usize) by {
        assert(node_within(r[i], ids, i as usize));
    }
    assert forall|x: usize| #[trigger] ids.contains(x) implies x < d.len() && d[x as int].id is Some by {
        assert(r[x as int].id is Some);
    }
    lemma_step_keeps_graph(g, k);
    assert forall|x: usize| #[trigger] identified_set(d).contains(x) <==> ids.contains(x) by {
        if x < d.len() {
            assert(d[x as int].id == g.nodes[x as int].id);
        }
    }
    assert(identified_set(d) =~= ids);
    lemma_within_identified(AliveGraphView { nodes: d, ..g });
}

/// Adding an edge between two distinct nodes keeps the nodes within the
/// identified set, which grows by the two endpoints.
proof fn lemma_add_edge_within<F: Activation>(nodes: Seq<AliveNodeView<F>>, u: usize, v: usize, t: usize)
    requires
        all_within(nodes, identified_set(nodes)),
        nodes_wf(nodes, t),
        1 <= t,
        nodes.len() < usize::MAX,
        u < nodes.len(),
        v < nodes.len(),
        u != v,
    ensures
        all_within(add_edge(nodes, u, v), identified_set(add_edge(nodes, u, v))),
        nodes_wf(add_edge(nodes, u, v), t),
        add_edge(nodes, u, v).len() == nodes.len(),
{
    let nn = add_edge(nodes, u, v);
    let ids = identified_set(nodes);
    let ids2 = identified_set(nn);
    lemma_add_edge_wf(nodes, u, v, t);
    lemma_identified_set(nodes);
    lemma_identified_set(nn);
    assert(ids.subset_of(ids2)) by {
        assert forall|x: usize| #[trigger] ids.contains(x) implies ids2.contains(x) by {
            assert(nodes[x as int].id is Some);
        }
    }
    vstd::set_lib::lemma_len_subset(ids, ids2);
    assert(ids2.contains(u) && ids2.contains(v));
    assert forall|i: int| 0 <= i < nn.len() implies node_within(#[trigger] nn[i], ids2, i as usize) by {
        assert(node_within(nodes[i], ids, i as usize));
        assert forall|k: usize| #[trigger] nn[i].history.dom().contains(k) implies ids2.contains(k) && k != i by {
            if !(i == u && k == v) && !(i == v && k == u) {
                assert(nodes[i].history.dom().contains(k));
            }
        }
        assert forall|k: usize| #[trigger] nn[i].estimate.dom().contains(k) implies ids2.contains(k) && k != i by {
            if !(i == u && k == v) && !(i == v && k == u) {
                assert(nodes[i].estimate.dom().contains(k));
            }
        }
    }
}

proof fn lemma_add_edges_within<F: Activation>(nodes: Seq<AliveNodeView<F>>, list: Seq<(usize, usize)>, t: usize)
    requires
        all_within(nodes, identified_set(nodes)),
        nodes_wf(nodes, t),
        1 <= t,
        nodes.len() < usize::MAX,
        forall|j: int| 0 <= j < list.len() ==> #[trigger] list[j].0 < nodes.len() && list[j].1 < nodes.len()
            && list[j].0 != list[j].1,
    ensures
        all_within(add_edges(nodes, list), identified_set(add_edges(nodes, list))),
        nodes_wf(add_edges(nodes, list), t),
        add_edges(nodes, list).len() == nodes.len(),
    decreases list.len(),
{
    if list.len() > 0 {
        let init = list.drop_last();
        assert forall|j: int| 0 <= j < init.len() implies #[trigger] init[j].0 < nodes.len() && init[j].1
            < nodes.len() && init[j].0 != init[j].1 by {
            assert(init[j] == list[j]);
        }
        lemma_add_edges_within(nodes, init, t);
        let prev = add_edges(nodes, init);
        let e = list.last();
        assert(list[list.len() - 1] == e);
        lemma_add_edge_within(prev, e.0, e.1, t);
    }
}

/// `new_snapshot` keeps the graph consistent: after a snapshot the nodes
/// name only identified nodes, and every known coreness stays below the
/// number of identified nodes.
pub proof fn lemma_snapshot_keeps_consistency<F: Activation>(g: AliveGraphView<F>, list: Seq<(usize, usize)>)
    requires
        g.consistent(),
        g.accepts_snapshot(list),
    ensures
        names_identified(g.after_snapshot(list).nodes),
        g.after_snapshot(list).corenesses_bounded(),
{
    let t = g.clock();
    let adv = g.nodes.map_values(|n: AliveNodeView<F>| n.advanced());
    lemma_within_identified(g);
    let ids = identified_set(g.nodes);
    assert forall|x: usize| #[trigger] identified_set(adv).contains(x) <==> ids.contains(x) by {
        if x < adv.len() {
            assert(adv[x as int].id == g.nodes[x as int].id);
        }
    }
    assert(identified_set(adv) =~= ids);
    assert forall|i: int| 0 <= i < adv.len() implies node_within(#[trigger] adv[i], ids, i as usize) by {
        assert(node_within(g.nodes[i], ids, i as usize));
        assert(adv[i].history.dom() =~= g.nodes[i].history.dom());
    }
    assert forall|x: usize| #[trigger] ids.contains(x) implies x < adv.len() && adv[x as int].id is Some by {
        assert(g.nodes[x as int].id is Some);
    }
    lemma_advance_wf(g);
    lemma_add_edges_within(adv, list, (t + 1) as usize);
    let added = add_edges(adv, list);
    let ids2 = identified_set(added);
    let fin = g.after_snapshot(list);
    assert(fin.nodes == added.map_values(|n: AliveNodeView<F>| n.after_reset()));
    assert forall|i: int| 0 <= i < fin.nodes.len() implies node_within(#[trigger] fin.nodes[i], ids2, i as usize) by {
        assert(node_within(added[i], ids2, i as usize));
        lemma_reset_within(added[i], ids2, i as usize);
    }
    assert forall|x: usize| #[trigger] identified_set(fin.nodes).contains(x) <==> ids2.contains(x) by {
        if x < added.len() {
            lemma_reset_within(added[x as int], ids2, x);
        }
    }
    assert(identified_set(fin.nodes) =~= ids2);
    assert forall|x: usize| #[trigger] ids2.contains(x) implies x < fin.nodes.len() && fin.nodes[x as int].id is Some by {
        lemma_reset_within(added[x as int], ids2, x);
    }
    lemma_within_identified(fin);
}

} // verus!
