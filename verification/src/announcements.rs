//! What the neighbours of a node last heard from it: once the rounds are
//! over, every identified node's coreness is the one it last announced to
//! its alive neighbours, or, if it announced nothing, the one it had when
//! the rounds began.

use vstd::prelude::*;

use crate::activation::Activation;
use crate::alive_rounds::{
    after_sends, deliver_all, deliver_to, has_pending, lemma_pending_queue, pending_queue, round, rounds,
    sent_messages, Announcement,
};
use crate::dynamic_montresor::AliveNodeView;
use crate::laws::{
    lemma_deliver_all_keeps_graph, lemma_deliver_to_keeps_graph, lemma_messages_from_nodes, lemma_rounds_keep_graph,
    lemma_same_graph_shape, same_graph, well_shaped,
};
use crate::sorting::{lemma_sorted_members_exist, sorted_members};

verus! {

/// The coreness the node at index `v` announced last in the first `k`
/// rounds run from `nodes` (each announcement of a round is delivered to
/// all of the node's alive neighbours); `None` if it announced nothing.
pub open spec fn last_announced<F: Activation>(nodes: Seq<AliveNodeView<F>>, k: nat, v: int) -> Option<usize>
    decreases k,
{
    if k == 0 {
        None
    } else if rounds(nodes, (k - 1) as nat)[v].message() is Some {
        Some((rounds(nodes, (k - 1) as nat)[v].message()->0).1)
    } else {
        last_announced(nodes, (k - 1) as nat, v)
    }
}

/// The coreness `c` of the node at index `v` after `k` rounds from `nodes`
/// is the one it last announced, or it announced nothing and `c` is the
/// coreness it started the rounds with.
pub open spec fn announced_or_kept<F: Activation>(nodes: Seq<AliveNodeView<F>>, k: nat, v: int, c: usize) -> bool {
    ||| last_announced(nodes, k, v) == Some(c)
    ||| (last_announced(nodes, k, v) is None && c == nodes[v].coreness)
}

/// From `a` to `b` the node either kept its coreness and its change flag,
/// or it has a change to announce.
pub open spec fn kept_or_changed<F>(a: AliveNodeView<F>, b: AliveNodeView<F>) -> bool {
    (b.coreness == a.coreness && b.changed == a.changed) || b.changed
}

proof fn lemma_deliver_to_kept<F: Activation>(nodes: Seq<AliveNodeView<F>>, msg: Announcement, rs: Seq<usize>)
    requires
        forall|j: int| 0 <= j < rs.len() ==> #[trigger] rs[j] < nodes.len(),
    ensures
        deliver_to(nodes, msg, rs).len() == nodes.len(),
        forall|i: int| 0 <= i < nodes.len() ==> kept_or_changed(nodes[i], #[trigger] deliver_to(nodes, msg, rs)[i]),
    decreases rs.len(),
{
    if rs.len() > 0 {
        let init = rs.drop_last();
        assert forall|j: int| 0 <= j < init.len() implies #[trigger] init[j] < nodes.len() by {
            assert(init[j] == rs[j]);
        }
        lemma_deliver_to_kept(nodes, msg, init);
        lemma_deliver_to_keeps_graph(nodes, msg, init);
        let prev = deliver_to(nodes, msg, init);
        let r = rs.last() as int;
        assert(rs[rs.len() - 1] < nodes.len());
        let next = deliver_to(nodes, msg, rs);
        assert(next == prev.update(r, prev[r].after_receive(msg.0, msg.1, msg.2)));
        assert forall|i: int| 0 <= i < nodes.len() implies kept_or_changed(nodes[i], #[trigger] next[i]) by {
            assert(kept_or_changed(nodes[i], prev[i]));
        }
    }
}

proof fn lemma_deliver_all_kept<F: Activation>(nodes: Seq<AliveNodeView<F>>, msgs: Seq<Announcement>)
    requires
        well_shaped(nodes),
        forall|j: int| 0 <= j < msgs.len() ==> #[trigger] msgs[j].0 < nodes.len(),
    ensures
        deliver_all(nodes, msgs).len() == nodes.len(),
        forall|i: int| 0 <= i < nodes.len() ==> kept_or_changed(nodes[i], #[trigger] deliver_all(nodes, msgs)[i]),
    decreases msgs.len(),
{
    if msgs.len() > 0 {
        let init = msgs.drop_last();
        assert forall|j: int| 0 <= j < init.len() implies #[trigger] init[j].0 < nodes.len() by {
            assert(init[j] == msgs[j]);
        }
        lemma_deliver_all_kept(nodes, init);
        lemma_deliver_all_keeps_graph(nodes, init);
        let prev = deliver_all(nodes, init);
        lemma_same_graph_shape(prev, nodes);
        let m = msgs.last();
        assert(msgs[msgs.len() - 1].0 < nodes.len());
        assert(prev[m.0 as int].history == nodes[m.0 as int].history);
        lemma_sorted_members_exist(prev[m.0 as int].alive_neighbors(), prev.len() as usize);
        let rs = sorted_members(prev[m.0 as int].alive_neighbors());
        assert forall|j: int| 0 <= j < rs.len() implies #[trigger] rs[j] < prev.len() by {
            assert(rs.to_set().contains(rs[j]));
        }
        lemma_deliver_to_kept(prev, m, rs);
        let next = deliver_all(nodes, msgs);
        assert forall|i: int| 0 <= i < nodes.len() implies kept_or_changed(nodes[i], #[trigger] next[i]) by {
            assert(kept_or_changed(nodes[i], prev[i]));
            assert(kept_or_changed(prev[i], next[i]));
        }
    }
}

/// In one round a node that announces ends with the coreness it announced
/// unless it has a new change; a node that does not announce keeps its
/// coreness and change flag unless it has a change.
proof fn lemma_round_kept<F: Activation>(nodes: Seq<AliveNodeView<F>>)
    requires
        well_shaped(nodes),
    ensures
        round(nodes).len() == nodes.len(),
        forall|i: int| #![trigger round(nodes)[i]] 0 <= i < nodes.len() ==> {
            &&& round(nodes)[i].id == nodes[i].id
            &&& nodes[i].message() is Some ==> (round(nodes)[i].changed || round(nodes)[i].coreness
                == (nodes[i].message()->0).1)
            &&& nodes[i].message() is None ==> kept_or_changed(nodes[i], round(nodes)[i])
        },
{
    let a = after_sends(nodes);
    assert(same_graph(a, nodes));
    lemma_same_graph_shape(a, nodes);
    lemma_pending_queue(nodes);
    lemma_messages_from_nodes(nodes, pending_queue(nodes));
    lemma_deliver_all_kept(a, sent_messages(nodes));
    lemma_deliver_all_keeps_graph(a, sent_messages(nodes));
    let y = round(nodes);
    assert forall|i: int| #![trigger y[i]] 0 <= i < nodes.len() implies {
        &&& y[i].id == nodes[i].id
        &&& nodes[i].message() is Some ==> (y[i].changed || y[i].coreness == (nodes[i].message()->0).1)
        &&& nodes[i].message() is None ==> kept_or_changed(nodes[i], y[i])
    } by {
        assert(kept_or_changed(a[i], y[i]));
        assert(y[i].id == a[i].id);
    }
}

/// Once the rounds are over, every identified node's coreness is the one it
/// last announced to its alive neighbours, or it announced nothing and kept
/// the coreness it started with. More precisely, after any number `k` of
/// rounds, an identified node with no change left to announce satisfies
/// `announced_or_kept`.
pub proof fn lemma_rounds_announce_final_coreness<F: Activation>(nodes: Seq<AliveNodeView<F>>, k: nat)
    requires
        well_shaped(nodes),
    ensures
        forall|v: int| #![trigger rounds(nodes, k)[v]] 0 <= v < nodes.len() && rounds(nodes, k)[v].id is Some
            && !rounds(nodes, k)[v].changed ==> announced_or_kept(nodes, k, v, rounds(nodes, k)[v].coreness),
        !has_pending(rounds(nodes, k)) ==> forall|v: int| #![trigger rounds(nodes, k)[v]] 0 <= v < nodes.len()
            && rounds(nodes, k)[v].id is Some ==> announced_or_kept(nodes, k, v, rounds(nodes, k)[v].coreness),
    decreases k,
{
    lemma_rounds_keep_graph(nodes, k);
    let y = rounds(nodes, k);
    if k > 0 {
        lemma_rounds_announce_final_coreness(nodes, (k - 1) as nat);
        let x = rounds(nodes, (k - 1) as nat);
        lemma_rounds_keep_graph(nodes, (k - 1) as nat);
        lemma_same_graph_shape(x, nodes);
        lemma_round_kept(x);
        assert(y == round(x));
        assert forall|v: int| #![trigger y[v]] 0 <= v < nodes.len() && y[v].id is Some && !y[v].changed implies announced_or_kept(
            nodes,
            k,
            v,
            y[v].coreness,
        ) by {
            assert(x[v].id == y[v].id);
            if x[v].message() is None {
                assert(kept_or_changed(x[v], y[v]));
                assert(last_announced(nodes, k, v) == last_announced(nodes, (k - 1) as nat, v));
            } else {
                assert(last_announced(nodes, k, v) == Some((x[v].message()->0).1));
            }
        }
    }
    if !has_pending(y) {
        assert forall|v: int| #![trigger y[v]] 0 <= v < nodes.len() && y[v].id is Some implies announced_or_kept(
            nodes,
            k,
            v,
            y[v].coreness,
        ) by {
            if y[v].changed {
                assert(y[v].needs_to_send());
            }
        }
    }
}

/// A node that announced anything in the first `k` rounds has a last
/// announcement.
proof fn lemma_sent_some<F: Activation>(nodes: Seq<AliveNodeView<F>>, k: nat, i: nat, v: int)
    requires
        i < k,
        rounds(nodes, i)[v].message() is Some,
    ensures
        last_announced(nodes, k, v) is Some,
    decreases k,
{
    if i < k - 1 && rounds(nodes, (k - 1) as nat)[v].message() is None {
        lemma_sent_some(nodes, (k - 1) as nat, i, v);
    }
}

/// A node with a change to announce at the start of round `j` keeps it
/// until it announces: at round `m` it still has the change, or it made an
/// announcement in some round between `j` and `m`.
proof fn lemma_change_until_sent<F: Activation>(nodes: Seq<AliveNodeView<F>>, j: nat, m: nat, v: int)
    requires
        well_shaped(nodes),
        0 <= v < nodes.len(),
        j <= m,
        rounds(nodes, j)[v].needs_to_send(),
    ensures
        rounds(nodes, m)[v].changed || last_announced(nodes, m, v) is Some,
        rounds(nodes, m)[v].id == rounds(nodes, j)[v].id,
    decreases m - j,
{
    lemma_rounds_keep_graph(nodes, j);
    lemma_rounds_keep_graph(nodes, m);
    if m > j {
        lemma_change_until_sent(nodes, j, (m - 1) as nat, v);
        let x = rounds(nodes, (m - 1) as nat);
        lemma_rounds_keep_graph(nodes, (m - 1) as nat);
        lemma_same_graph_shape(x, nodes);
        lemma_round_kept(x);
        assert(rounds(nodes, m) == round(x));
        if x[v].message() is Some {
            lemma_sent_some(nodes, m, (m - 1) as nat, v);
        } else if last_announced(nodes, (m - 1) as nat, v) is Some {
            assert(last_announced(nodes, m, v) == last_announced(nodes, (m - 1) as nat, v));
        } else {
            assert(kept_or_changed(x[v], round(x)[v]));
        }
    }
}

/// Once no node has a change left after `k` rounds, every node that had a
/// change to announce at the start of some round `j <= k` (in particular
/// one with a change after preparation, which has alive neighbours) has
/// announced, and its last announcement, delivered to all its alive
/// neighbours, carries the coreness it ends with; and no identified node
/// has a change left.
pub proof fn lemma_pending_nodes_announce_final_coreness<F: Activation>(nodes: Seq<AliveNodeView<F>>, k: nat)
    requires
        well_shaped(nodes),
        !has_pending(rounds(nodes, k)),
    ensures
        forall|v: int, j: nat|
            #![trigger rounds(nodes, j)[v], rounds(nodes, k)[v]]
            0 <= v < nodes.len() && j <= k && rounds(nodes, j)[v].needs_to_send() ==> last_announced(nodes, k, v)
                == Some(rounds(nodes, k)[v].coreness),
        forall|v: int| #![trigger rounds(nodes, k)[v]] 0 <= v < nodes.len() && rounds(nodes, k)[v].id is Some
            ==> !rounds(nodes, k)[v].changed,
{
    lemma_rounds_keep_graph(nodes, k);
    lemma_rounds_announce_final_coreness(nodes, k);
    let y = rounds(nodes, k);
    assert forall|v: int| #![trigger y[v]] 0 <= v < nodes.len() && y[v].id is Some implies !y[v].changed by {
        if y[v].changed {
            assert(y[v].needs_to_send());
        }
    }
    assert forall|v: int, j: nat|
        #![trigger rounds(nodes, j)[v], rounds(nodes, k)[v]]
        0 <= v < nodes.len() && j <= k && rounds(nodes, j)[v].needs_to_send() implies last_announced(nodes, k, v)
            == Some(rounds(nodes, k)[v].coreness) by {
        lemma_change_until_sent(nodes, j, k, v);
        assert(y[v].id is Some);
        assert(!y[v].changed);
        assert(announced_or_kept(nodes, k, v, y[v].coreness));
    }
}

} // verus!
