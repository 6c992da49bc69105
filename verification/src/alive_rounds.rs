//! The message rounds of the alive-graph protocol, as the contracts state
//! them, and the weights that show the rounds come to an end.

use vstd::prelude::*;

use crate::activation::Activation;
use crate::dynamic_montresor::AliveNodeView;
use crate::measure::{sum_of, lemma_sum_pointwise};
use crate::sorting::sorted_members;

verus! {

/// An announcement: (sender, coreness, time).
pub type Announcement = (usize, usize, usize);

/// A node as the round loop finds it after preparation: a node with a change
/// to announce and an unknown coreness starts from its degree, or gives up
/// the announcement when it has no alive neighbour; a node with a known
/// coreness and no alive neighbour falls back to an unknown coreness and
/// gives up the announcement.
pub open spec fn prepared<F: Activation>(nv: AliveNodeView<F>) -> AliveNodeView<F> {
    if !nv.needs_to_send() {
        nv
    } else if nv.coreness >= usize::MAX {
        if nv.degree() > 0 {
            AliveNodeView { coreness: nv.degree() as usize, ..nv }
        } else {
            AliveNodeView { changed: false, ..nv }
        }
    } else if nv.degree() == 0 {
        AliveNodeView { coreness: usize::MAX, changed: false, ..nv }
    } else {
        nv
    }
}

/// Whether some node has a change to announce.
pub open spec fn has_pending<F: Activation>(nodes: Seq<AliveNodeView<F>>) -> bool {
    exists|i: int| 0 <= i < nodes.len() && #[trigger] nodes[i].needs_to_send()
}

/// The indices of the nodes with a change to announce, in ascending order.
pub open spec fn pending_queue<F: Activation>(nodes: Seq<AliveNodeView<F>>) -> Seq<usize>
    decreases nodes.len(),
{
    if nodes.len() == 0 {
        Seq::empty()
    } else if nodes.last().needs_to_send() {
        pending_queue(nodes.drop_last()).push((nodes.len() - 1) as usize)
    } else {
        pending_queue(nodes.drop_last())
    }
}

/// The nodes after every node with a change to announce was asked to.
pub open spec fn after_sends<F: Activation>(nodes: Seq<AliveNodeView<F>>) -> Seq<AliveNodeView<F>> {
    nodes.map_values(
        |nv: AliveNodeView<F>| if nv.needs_to_send() { nv.after_send() } else { nv },
    )
}

/// The announcements the nodes at the indices `qs` make, in that order.
pub open spec fn messages_of<F: Activation>(nodes: Seq<AliveNodeView<F>>, qs: Seq<usize>) -> Seq<Announcement>
    decreases qs.len(),
{
    if qs.len() == 0 {
        Seq::empty()
    } else if nodes[qs.last() as int].message() is Some {
        messages_of(nodes, qs.drop_last()).push(nodes[qs.last() as int].message()->0)
    } else {
        messages_of(nodes, qs.drop_last())
    }
}

/// The announcements the nodes with a change make when asked, in the order
/// of the nodes.
pub open spec fn sent_messages<F: Activation>(nodes: Seq<AliveNodeView<F>>) -> Seq<Announcement> {
    messages_of(nodes, pending_queue(nodes))
}

/// The queue of nodes with a change lists, in ascending order, exactly the
/// indices of those nodes.
pub proof fn lemma_pending_queue<F: Activation>(nodes: Seq<AliveNodeView<F>>)
    requires
        nodes.len() <= usize::MAX,
    ensures
        pending_queue(nodes).no_duplicates(),
        forall|j: int| 0 <= j < pending_queue(nodes).len() ==> #[trigger] pending_queue(nodes)[j] < nodes.len(),
        forall|x: usize| #[trigger] pending_queue(nodes).contains(x) <==> (x < nodes.len() && nodes[x as int].needs_to_send()),
        pending_queue(nodes).len() <= nodes.len(),
        pending_queue(nodes).len() == 0 <==> !has_pending(nodes),
    decreases nodes.len(),
{
    broadcast use vstd::seq_lib::group_seq_properties;

    if nodes.len() > 0 {
        let init = nodes.drop_last();
        lemma_pending_queue(init);
        let q0 = pending_queue(init);
        let last = (nodes.len() - 1) as usize;
        assert forall|x: usize| #[trigger] q0.contains(x) <==> (x < init.len() && nodes[x as int].needs_to_send()) by {
            if x < init.len() {
                assert(init[x as int] == nodes[x as int]);
            }
        }
        assert(init.len() == last);
        assert(!q0.contains(last)) by {
            if q0.contains(last) {
                assert(last < init.len());
            }
        }
        if nodes.last().needs_to_send() {
            assert(pending_queue(nodes) == q0.push(last));
        } else {
            assert(pending_queue(nodes) == q0);
        }
        if !has_pending(nodes) {
            assert(!nodes[last as int].needs_to_send());
            assert(!has_pending(init)) by {
                if has_pending(init) {
                    let i = choose|i: int| 0 <= i < init.len() && #[trigger] init[i].needs_to_send();
                    assert(nodes[i].needs_to_send());
                }
            }
        }
        if has_pending(nodes) {
            let i = choose|i: int| 0 <= i < nodes.len() && #[trigger] nodes[i].needs_to_send();
            if i < last {
                assert(q0.contains(i as usize));
            } else {
                assert(pending_queue(nodes).last() == last);
            }
            assert(pending_queue(nodes).contains(i as usize));
        }
    } else {
        assert(!has_pending(nodes));
    }
}

/// The nodes after the receivers `rs`, in order, received `msg`.
pub open spec fn deliver_to<F: Activation>(nodes: Seq<AliveNodeView<F>>, msg: Announcement, rs: Seq<usize>) -> Seq<AliveNodeView<F>>
    decreases rs.len(),
{
    if rs.len() == 0 {
        nodes
    } else {
        let prev = deliver_to(nodes, msg, rs.drop_last());
        let r = rs.last() as int;
        prev.update(r, prev[r].after_receive(msg.0, msg.1, msg.2))
    }
}

/// The nodes after the alive neighbours of the sender of `msg`, in
/// ascending order, received it.
pub open spec fn deliver<F: Activation>(nodes: Seq<AliveNodeView<F>>, msg: Announcement) -> Seq<AliveNodeView<F>> {
    deliver_to(nodes, msg, sorted_members(nodes[msg.0 as int].alive_neighbors()))
}

/// The nodes after the announcements `msgs` were delivered in order.
pub open spec fn deliver_all<F: Activation>(nodes: Seq<AliveNodeView<F>>, msgs: Seq<Announcement>) -> Seq<AliveNodeView<F>>
    decreases msgs.len(),
{
    if msgs.len() == 0 {
        nodes
    } else {
        deliver(deliver_all(nodes, msgs.drop_last()), msgs.last())
    }
}

/// One round: the nodes with a change are asked to announce, then every
/// announcement is delivered to the sender's alive neighbours.
pub open spec fn round<F: Activation>(nodes: Seq<AliveNodeView<F>>) -> Seq<AliveNodeView<F>> {
    deliver_all(after_sends(nodes), sent_messages(nodes))
}

/// The nodes after `k` rounds.
pub open spec fn rounds<F: Activation>(nodes: Seq<AliveNodeView<F>>, k: nat) -> Seq<AliveNodeView<F>>
    decreases k,
{
    if k == 0 {
        nodes
    } else {
        round(rounds(nodes, (k - 1) as nat))
    }
}

/// How many nodes are marked activated.
pub open spec fn count_activated<F>(nodes: Seq<AliveNodeView<F>>) -> nat
    decreases nodes.len(),
{
    if nodes.len() == 0 {
        0
    } else {
        count_activated(nodes.drop_last()) + if nodes.last().activated { 1nat } else { 0nat }
    }
}

/// The nodes with their activation marks cleared.
pub open spec fn deactivated<F>(nodes: Seq<AliveNodeView<F>>) -> Seq<AliveNodeView<F>> {
    nodes.map_values(|nv: AliveNodeView<F>| AliveNodeView { activated: false, ..nv })
}

/// No node has a change to announce and no node is marked activated: the
/// state `montresor_step` leaves the nodes in.
pub open spec fn quiet<F: Activation>(nodes: Seq<AliveNodeView<F>>) -> bool {
    &&& !has_pending(nodes)
    &&& forall|i: int| 0 <= i < nodes.len() ==> !(#[trigger] nodes[i]).activated
}

/// The sum of a sequence of counts.
pub open spec fn total(s: Seq<usize>) -> nat
    decreases s.len(),
{
    if s.len() == 0 {
        0
    } else {
        total(s.drop_last()) + s.last() as nat
    }
}

// Weights.

/// The weight of the estimate held for `s` at time `t`: a missing estimate
/// weighs most, an estimate older than `t` next, a current one its value.
pub open spec fn entry_weight(est: Map<usize, (usize, usize)>, s: usize, t: usize) -> nat {
    if !est.dom().contains(s) {
        usize::MAX as nat + 2
    } else if est[s].1 < t {
        usize::MAX as nat + 1
    } else {
        est[s].0 as nat
    }
}

/// The weight of the estimates held for the first `m` identifiers.
pub open spec fn estimate_weight(est: Map<usize, (usize, usize)>, m: nat, t: usize) -> nat
    decreases m,
{
    if m == 0 {
        0
    } else {
        estimate_weight(est, (m - 1) as nat, t) + entry_weight(est, (m - 1) as usize, t)
    }
}

/// The weight of a node's estimates of the `n` nodes at time `t`.
pub open spec fn node_weight<F>(nv: AliveNodeView<F>, n: nat, t: usize) -> nat {
    estimate_weight(nv.estimate, n, t)
}

/// The weight of all estimates of `n` nodes at time `t`: it never grows
/// during a round, and shrinks whenever an estimate is replaced.
pub open spec fn graph_weight<F>(nodes: Seq<AliveNodeView<F>>, n: nat, t: usize) -> nat {
    sum_of(nodes, |nv: AliveNodeView<F>| node_weight(nv, n, t))
}

/// A node's pending work: one for a change to announce, one more when the
/// announcement is paused.
pub open spec fn pending_weight<F: Activation>(nv: AliveNodeView<F>) -> nat {
    if nv.needs_to_send() {
        if nv.paused { 2 } else { 1 }
    } else {
        0
    }
}

/// The pending work of all nodes.
pub open spec fn graph_pending<F: Activation>(nodes: Seq<AliveNodeView<F>>) -> nat {
    sum_of(nodes, |nv: AliveNodeView<F>| pending_weight(nv))
}

pub(crate) proof fn lemma_estimate_weight_insert(
    est: Map<usize, (usize, usize)>,
    from: usize,
    v: (usize, usize),
    m: nat,
    t: usize,
)
    requires
        entry_weight(est.insert(from, v), from, t) < entry_weight(est, from, t),
    ensures
        estimate_weight(est.insert(from, v), m, t) <= estimate_weight(est, m, t),
        from < m ==> estimate_weight(est.insert(from, v), m, t) < estimate_weight(est, m, t),
    decreases m,
{
    if m > 0 {
        lemma_estimate_weight_insert(est, from, v, (m - 1) as nat, t);
        let s = (m - 1) as usize;
        if s != from {
            assert(entry_weight(est.insert(from, v), s, t) == entry_weight(est, s, t));
        }
    }
}

/// Receiving an announcement stamped with the receiver's clock either leaves
/// the receiver as it was or makes its estimates weigh less.
pub proof fn lemma_receive_weight<F: Activation>(nv: AliveNodeView<F>, from: usize, core: usize, n: nat)
    requires
        from < n,
    ensures
        nv.after_receive(from, core, nv.time) == nv
            || node_weight(nv.after_receive(from, core, nv.time), n, nv.time) < node_weight(nv, n, nv.time),
        nv.after_receive(from, core, nv.time).time == nv.time,
        nv.after_receive(from, core, nv.time).history == nv.history,
        nv.after_receive(from, core, nv.time).id == nv.id,
        nv.after_receive(from, core, nv.time).estimate.dom() == nv.estimate.dom().insert(from)
            || nv.after_receive(from, core, nv.time).estimate.dom() == nv.estimate.dom(),
{
    let t = nv.time;
    if nv.accepts(from, core, t) {
        let est = nv.estimate.insert(from, (core, t));
        assert(entry_weight(est, from, t) < entry_weight(nv.estimate, from, t));
        lemma_estimate_weight_insert(nv.estimate, from, (core, t), n, t);
    }
}

/// Asking the nodes with a change to announce leaves every estimate as it
/// was, and lowers the pending work when some node has a change.
pub proof fn lemma_after_sends<F: Activation>(nodes: Seq<AliveNodeView<F>>, n: nat, t: usize)
    requires
        nodes.len() <= usize::MAX,
    ensures
        graph_weight(after_sends(nodes), n, t) == graph_weight(nodes, n, t),
        graph_pending(after_sends(nodes)) <= graph_pending(nodes),
        has_pending(nodes) ==> graph_pending(after_sends(nodes)) < graph_pending(nodes),
        !has_pending(nodes) ==> after_sends(nodes) == nodes,
        !has_pending(nodes) ==> sent_messages(nodes).len() == 0,
{
    let a = after_sends(nodes);
    let fw = |nv: AliveNodeView<F>| node_weight(nv, n, t);
    let fp = |nv: AliveNodeView<F>| pending_weight(nv);
    assert forall|i: int| 0 <= i < a.len() implies fw(#[trigger] a[i]) <= fw(nodes[i]) && fw(nodes[i]) <= fw(a[i]) by {}
    lemma_sum_pointwise(a, nodes, fw);
    lemma_sum_pointwise(nodes, a, fw);
    assert forall|i: int| 0 <= i < a.len() implies fp(#[trigger] a[i]) <= fp(nodes[i]) by {}
    lemma_sum_pointwise(a, nodes, fp);
    lemma_pending_queue(nodes);
    if has_pending(nodes) {
        let i = choose|i: int| 0 <= i < nodes.len() && #[trigger] nodes[i].needs_to_send();
        assert(fp(a[i]) < fp(nodes[i]));
    } else {
        assert(a =~= nodes);
    }
}

} // verus!
