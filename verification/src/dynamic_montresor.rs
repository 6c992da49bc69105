//! Montresor's coreness protocol on the alive graph, with pausing: a node
//! whose coreness drops waits one round before it announces it.

use vstd::prelude::*;
use std::collections::HashMap;

use crate::activation::{Activation, BitHistory, history_bits, recent_window, BITVEC_MAX_BITS, bitvec_len, bitvec_suffix, bitvec_push, bitvec_set, bitvec_repeat};
use crate::coreness::{coreness_from, estimate_h_index, map_keys};
use crate::alive_rounds::{prepared, pending_queue, has_pending, after_sends, messages_of, sent_messages, deliver_to, deliver, deliver_all, round, rounds, count_activated, deactivated, total, quiet, graph_weight, node_weight, graph_pending, lemma_receive_weight, lemma_after_sends, lemma_pending_queue, Announcement};
use crate::measure::lemma_sum_update;
use crate::sorting::{sort_ids, lemma_sorted_distinct, lemma_sorted_members, sorted_members, strictly_ascending};

verus! {

broadcast use {vstd::std_specs::hash::group_hash_axioms, vstd::seq_lib::group_seq_properties};

/// A node of the alive graph as the contracts see it.
pub struct AliveNodeView<F> {
    /// The node's identifier, `None` while the node has not appeared in any edge.
    pub id: Option<usize>,
    /// For every neighbour ever seen, one bit per snapshot (oldest first).
    pub history: Map<usize, Seq<bool>>,
    /// How many recent snapshots the activation function looks at.
    pub memory_size: usize,
    /// Whether the coreness changed since the node last announced it.
    pub changed: bool,
    /// The node's coreness estimate (`usize::MAX` while unknown).
    pub coreness: usize,
    /// Scratch counters, kept one longer than the number of estimates.
    pub count: Seq<usize>,
    /// For each neighbour, its coreness estimate and the time it was received.
    pub estimate: Map<usize, (usize, usize)>,
    /// The activation function.
    pub activation: F,
    /// The number of snapshots seen.
    pub time: usize,
    /// Whether the node sent or changed something since the last count.
    pub activated: bool,
    /// Whether a new alive neighbour appeared since the last reset.
    pub dirty: bool,
    /// Whether the node waits one round before announcing a lower coreness.
    pub paused: bool,
    /// The time of the last announcement.
    pub last_sent: usize,
    /// The coreness at the start of the current snapshot.
    pub old_coreness: usize,
}

/// The bits of a fresh history at time `time`: all absent but the last.
pub open spec fn fresh_history(time: usize) -> Seq<bool> {
    Seq::new(time as nat, |i: int| i == time - 1)
}

/// A sequence of counters resized to `n`, new counters being zero.
pub open spec fn resized(s: Seq<usize>, n: nat) -> Seq<usize> {
    Seq::new(n, |i: int| if i < s.len() { s[i] } else { 0usize })
}

impl<F: Activation> AliveNodeView<F> {
    /// The neighbours that the activation function keeps, judged on the last
    /// `memory_size` bits of their history.
    pub open spec fn alive_neighbors(self) -> Set<usize> {
        self.history.dom().filter(
            |k: usize| self.activation.active(recent_window(self.history[k], self.memory_size)),
        )
    }

    /// The number of alive neighbours.
    pub open spec fn degree(self) -> nat {
        self.alive_neighbors().len()
    }

    /// Every history holds one bit per snapshot seen.
    pub open spec fn wf(self) -> bool {
        &&& self.history.dom().finite()
        &&& self.estimate.dom().finite()
        &&& self.time <= BITVEC_MAX_BITS
        &&& forall|k: usize| #[trigger] self.history.dom().contains(k) ==> self.history[k].len() == self.time
    }

    /// The coreness as reported to others: unknown while the node has no id.
    pub open spec fn reported_coreness(self) -> usize {
        if self.id is None { usize::MAX } else { self.coreness }
    }

    /// Whether the node has a change to announce.
    pub open spec fn needs_to_send(self) -> bool {
        self.id is Some && self.changed
    }

    /// A new snapshot begins: every history gets an absent bit.
    pub open spec fn advanced(self) -> Self {
        AliveNodeView {
            time: (self.time + 1) as usize,
            history: self.history.map_values(|b: Seq<bool>| b.push(false)),
            old_coreness: self.coreness,
            ..self
        }
    }

    /// The edge to `neighbor` is present in the current snapshot. A neighbour
    /// that thereby becomes alive without having an estimate gets an unknown
    /// one, and the node becomes dirty.
    pub open spec fn with_edge_to(self, neighbor: usize) -> Self {
        let bits = if self.history.dom().contains(neighbor) {
            self.history[neighbor].update(self.time - 1, true)
        } else {
            fresh_history(self.time)
        };
        let inserted = self.activation.active(recent_window(bits, self.memory_size))
            && !self.estimate.dom().contains(neighbor);
        AliveNodeView {
            history: self.history.insert(neighbor, bits),
            estimate: if inserted {
                self.estimate.insert(neighbor, (usize::MAX, self.time))
            } else {
                self.estimate
            },
            dirty: self.dirty || inserted,
            ..self
        }
    }

    /// The coreness the node computes from its estimates.
    pub open spec fn computed_coreness(self) -> usize {
        coreness_from(self.estimate, self.coreness, self.degree() as usize)
    }

    /// End of a snapshot: estimates of neighbours that are no longer alive are
    /// dropped; a dirty node restarts from its degree, a node that lost a
    /// neighbour recomputes its coreness (zero meaning unknown).
    pub open spec fn after_reset(self) -> Self {
        if self.id is None {
            self
        } else {
            let est = self.estimate.restrict(self.alive_neighbors());
            let lost = exists|k: usize| #[trigger] self.estimate.dom().contains(k)
                && !self.alive_neighbors().contains(k);
            let kept = AliveNodeView { estimate: est, count: resized(self.count, est.dom().len() + 1), ..self };
            if self.dirty {
                AliveNodeView { coreness: self.degree() as usize, changed: true, dirty: false, ..kept }
            } else if lost {
                let c = kept.computed_coreness();
                if c == 0 {
                    AliveNodeView { coreness: usize::MAX, ..kept }
                } else {
                    AliveNodeView { coreness: c, changed: self.changed || c != self.coreness, ..kept }
                }
            } else {
                kept
            }
        }
    }

    /// Whether a message from `from` with coreness `core` stamped `timestamp`
    /// replaces the estimate held for `from`: when there is none, when the
    /// message is newer, or when it is as recent and lower.
    pub open spec fn accepts(self, from: usize, core: usize, timestamp: usize) -> bool {
        !self.estimate.dom().contains(from) || timestamp > self.estimate[from].1
            || (timestamp == self.estimate[from].1 && core < self.estimate[from].0)
    }

    /// The node receives the coreness `core` of `from`, stamped `timestamp`.
    pub open spec fn after_receive(self, from: usize, core: usize, timestamp: usize) -> Self {
        if !self.accepts(from, core, timestamp) {
            self
        } else {
            let updated = AliveNodeView { estimate: self.estimate.insert(from, (core, timestamp)), ..self };
            let t = updated.computed_coreness();
            if t != self.coreness {
                AliveNodeView {
                    coreness: t,
                    changed: true,
                    activated: true,
                    paused: if t < self.coreness { true } else { self.paused },
                    ..updated
                }
            } else {
                updated
            }
        }
    }

    /// The node's state after it was asked to announce its coreness.
    pub open spec fn after_send(self) -> Self {
        if self.id is Some && self.changed && !self.paused {
            AliveNodeView { changed: false, activated: true, last_sent: self.time, ..self }
        } else if self.id is Some && self.paused {
            AliveNodeView { paused: false, ..self }
        } else {
            self
        }
    }

    /// The announcement the node makes when asked: (id, coreness, time).
    pub open spec fn message(self) -> Option<(usize, usize, usize)> {
        if self.id is Some && self.changed && !self.paused {
            Some((self.id->0, self.coreness, self.time))
        } else {
            None
        }
    }
}

/// A node of the alive graph.
pub struct AliveNode<F: Activation> {
    id: Option<usize>,
    neighbors: HashMap<usize, BitHistory>,
    memory_size: usize,
    changed: bool,
    coreness: usize,
    count: Vec<usize>,
    estimate: HashMap<usize, (usize, usize)>,
    activation_function: F,
    time: usize,
    activated: bool,
    dirty: bool,
    paused: bool,
    last_sent: usize,
    old_coreness: usize,
}

impl<F: Activation> View for AliveNode<F> {
    type V = AliveNodeView<F>;

    closed spec fn view(&self) -> AliveNodeView<F> {
        AliveNodeView {
            id: self.id,
            history: self.neighbors@.map_values(|b: BitHistory| history_bits(b)),
            memory_size: self.memory_size,
            changed: self.changed,
            coreness: self.coreness,
            count: self.count@,
            estimate: self.estimate@,
            activation: self.activation_function,
            time: self.time,
            activated: self.activated,
            dirty: self.dirty,
            paused: self.paused,
            last_sent: self.last_sent,
            old_coreness: self.old_coreness,
        }
    }
}

impl<F: Activation> Clone for AliveNode<F> {
    /// A copy of the node.
    fn clone(&self) -> (r: Self)
        ensures
            r@ == self@,
    {
        let r = AliveNode {
            id: self.id,
            neighbors: self.neighbors.clone(),
            memory_size: self.memory_size,
            changed: self.changed,
            coreness: self.coreness,
            count: self.count.clone(),
            estimate: self.estimate.clone(),
            activation_function: self.activation_function,
            time: self.time,
            activated: self.activated,
            dirty: self.dirty,
            paused: self.paused,
            last_sent: self.last_sent,
            old_coreness: self.old_coreness,
        };
        assert(r.count@ =~= self.count@);
        r
    }
}

/// Whether `v` holds `x`.
pub fn vec_contains(v: &Vec<usize>, x: usize) -> (r: bool)
    ensures
        r == v@.contains(x),
{
    for i in 0..v.len()
        invariant
            forall|j: int| 0 <= j < i ==> v@[j] != x,
    {
        if v[i] == x {
            return true;
        }
    }
    false
}

impl<F: Activation> AliveNode<F> {
    proof fn lemma_view_doms(&self)
        ensures
            self@.history.dom() == self.neighbors@.dom(),
            self@.history.dom().finite(),
            self@.estimate.dom().finite(),
            forall|k: usize| #[trigger] self.neighbors@.dom().contains(k)
                ==> self@.history[k] == history_bits(self.neighbors@[k]),
    {
        assert(self@.history.dom() =~= self.neighbors@.dom());
    }

    /// A node with no neighbours, no estimates and an unknown coreness.
    pub fn new(nid: Option<usize>, memory_size: usize, af: F) -> (r: Self)
        ensures
            r@ == (AliveNodeView {
                id: nid,
                history: Map::<usize, Seq<bool>>::empty(),
                memory_size,
                changed: false,
                coreness: usize::MAX,
                count: Seq::<usize>::empty(),
                estimate: Map::<usize, (usize, usize)>::empty(),
                activation: af,
                time: 0,
                activated: false,
                dirty: false,
                paused: false,
                last_sent: 0,
                old_coreness: 0,
            }),
            r@.wf(),
    {
        let r = AliveNode {
            id: nid,
            neighbors: HashMap::new(),
            changed: false,
            coreness: usize::MAX,
            estimate: HashMap::new(),
            count: Vec::new(),
            memory_size,
            activation_function: af,
            time: 0,
            activated: false,
            paused: false,
            dirty: false,
            last_sent: 0,
            old_coreness: 0,
        };
        proof {
            r.lemma_view_doms();
            assert(r@.history =~= Map::<usize, Seq<bool>>::empty());
        }
        r
    }

    /// The node's identifier.
    pub fn get_id(&self) -> (r: Option<usize>)
        ensures
            r == self@.id,
    {
        self.id
    }

    /// Gives the node its identifier.
    pub fn set_id(&mut self, id: usize)
        ensures
            final(self)@ == (AliveNodeView { id: Some(id), ..old(self)@ }),
    {
        self.id = Some(id);
    }

    /// Replaces the activation function.
    pub fn change_activation_function(&mut self, f: F)
        ensures
            final(self)@ == (AliveNodeView { activation: f, ..old(self)@ }),
    {
        self.activation_function = f;
    }

    /// The number of alive neighbours.
    pub fn deg(&self) -> (r: usize)
        ensures
            r == self@.degree(),
    {
        let n = self.neighs();
        proof {
            n@.unique_seq_to_set();
        }
        n.len()
    }

    /// The coreness, or `usize::MAX` while the node has no identifier.
    pub fn get_coreness(&self) -> (r: usize)
        ensures
            r == self@.reported_coreness(),
    {
        if self.get_id().is_none() {
            return usize::MAX;
        }
        self.coreness
    }

    /// Whether the activation function keeps a neighbour with history `who`.
    pub fn apply_f(&self, who: &BitHistory) -> (r: bool)
        ensures
            r == self@.activation.active(recent_window(history_bits(*who), self@.memory_size)),
    {
        let len = bitvec_len(who);
        let start = if len >= self.memory_size { len - self.memory_size } else { 0 };
        let window = bitvec_suffix(who, start);
        proof {
            if len < self.memory_size {
                assert(history_bits(window) =~= history_bits(*who));
            }
        }
        self.activation_function.apply(&window)
    }

    /// The alive neighbours, each once, in the order the history map is walked.
    pub fn neighs(&self) -> (r: Vec<usize>)
        ensures
            r@.no_duplicates(),
            r@.to_set() == self@.alive_neighbors(),
    {
        proof {
            self.lemma_view_doms();
        }
        let keys = map_keys(&self.neighbors);
        let ghost alive = self@.alive_neighbors();
        let mut r: Vec<usize> = Vec::new();
        for i in 0..keys.len()
            invariant
                keys@.no_duplicates(),
                keys@.to_set() == self.neighbors@.dom(),
                self@.history.dom() == self.neighbors@.dom(),
                alive == self@.alive_neighbors(),
                r@.no_duplicates(),
                forall|x: usize| #![trigger r@.contains(x)] r@.contains(x) <==> (keys@.take(i as int).contains(x) && alive.contains(x)),
        {
            let k = keys[i];
            assert(keys@.to_set().contains(k));
            let b = self.neighbors.get(&k).unwrap();
            assert(r@.contains(k) ==> keys@.take(i as int).contains(k));
            assert(!keys@.take(i as int).contains(k)) by {
                if keys@.take(i as int).contains(k) {
                    let j = choose|j: int| 0 <= j < i && keys@.take(i as int)[j] == k;
                    assert(keys@[j] == keys@[i as int]);
                }
            }
            let keep = self.apply_f(b);
            proof {
                self.lemma_view_doms();
                assert(self@.history[k] == history_bits(*b));
                assert(keep == alive.contains(k));
            }
            let ghost prev = r@;
            if keep {
                r.push(k);
            }
            assert forall|x: usize| #![trigger r@.contains(x)] r@.contains(x) <==> (keys@.take(i + 1).contains(x) && alive.contains(x)) by {
                assert(keys@.take(i + 1) =~= keys@.take(i as int).push(k));
                if keep {
                    assert(r@ == prev.push(k));
                    assert(r@.contains(x) <==> (prev.contains(x) || x == k));
                } else {
                    assert(r@ == prev);
                }
            }
        }
        assert(keys@.take(keys@.len() as int) =~= keys@);
        assert forall|x: usize| #[trigger] alive.contains(x) implies r@.to_set().contains(x) by {
            assert(keys@.to_set().contains(x));
        }
        assert(r@.to_set() =~= alive);
        r
    }

    /// Whether the node has a change to announce.
    pub fn has_changed(&self) -> (r: bool)
        ensures
            r == self@.needs_to_send(),
    {
        if self.id.is_some() {
            return self.changed;
        }
        false
    }

    /// The number of snapshots seen.
    pub fn get_time(&self) -> (r: usize)
        ensures
            r == self@.time,
    {
        self.time
    }

    /// The neighbours the node holds an estimate for, each once.
    pub fn get_estimate(&self) -> (r: Vec<usize>)
        ensures
            r@.no_duplicates(),
            r@.to_set() == self@.estimate.dom(),
    {
        map_keys(&self.estimate)
    }

    /// A new snapshot begins: every history gets an absent bit, and the
    /// current coreness is remembered as the old one.
    pub fn advance_time(&mut self)
        requires
            old(self)@.wf(),
            old(self)@.time < BITVEC_MAX_BITS,
        ensures
            final(self)@ == old(self)@.advanced(),
            final(self)@.wf(),
    {
        proof {
            self.lemma_view_doms();
        }
        let ghost old_view = self@;
        let ghost old_n = self.neighbors@;
        self.time = self.time + 1;
        let mut neighbors: HashMap<usize, BitHistory> = HashMap::new();
        std::mem::swap(&mut neighbors, &mut self.neighbors);
        let keys = map_keys(&neighbors);
        for i in 0..keys.len()
            invariant
                keys@.no_duplicates(),
                keys@.to_set() == old_n.dom(),
                neighbors@.dom() == old_n.dom(),
                old_view.wf(),
                old_view.time < BITVEC_MAX_BITS,
                old_view.history.dom() == old_n.dom(),
                forall|k: usize| #[trigger] old_n.dom().contains(k)
                    ==> old_view.history[k] == history_bits(old_n[k]),
                forall|k: usize| #[trigger] neighbors@.dom().contains(k) ==> history_bits(neighbors@[k])
                    == if keys@.take(i as int).contains(k) {
                        history_bits(old_n[k]).push(false)
                    } else {
                        history_bits(old_n[k])
                    },
        {
            let k = keys[i];
            assert(keys@.to_set().contains(k));
            assert(!keys@.take(i as int).contains(k)) by {
                if keys@.take(i as int).contains(k) {
                    let j = choose|j: int| 0 <= j < i && keys@.take(i as int)[j] == k;
                    assert(keys@[j] == keys@[i as int]);
                }
            }
            let ghost before = neighbors@;
            let mut b = neighbors.remove(&k).unwrap();
            assert(history_bits(b).len() == old_view.time);
            bitvec_push(&mut b, false);
            neighbors.insert(k, b);
            assert(keys@.take(i + 1) =~= keys@.take(i as int).push(k));
            assert forall|x: usize| #[trigger] neighbors@.dom().contains(x) implies history_bits(neighbors@[x])
                == if keys@.take(i + 1).contains(x) {
                    history_bits(old_n[x]).push(false)
                } else {
                    history_bits(old_n[x])
                } by {
                if x != k {
                    assert(before.dom().contains(x));
                }
            }
        }
        assert(keys@.take(keys@.len() as int) =~= keys@);
        self.neighbors = neighbors;
        self.old_coreness = self.coreness;
        proof {
            self.lemma_view_doms();
            assert forall|k: usize| #[trigger] self.neighbors@.dom().contains(k)
                implies keys@.take(keys@.len() as int).contains(k) by {
                assert(keys@.to_set().contains(k));
            }
            assert(self@.history =~= old_view.history.map_values(|b: Seq<bool>| b.push(false)));
        }
    }

    /// The edge to `neighbor` is present in the current snapshot.
    pub fn add_neighbor_latest_time(&mut self, neighbor: usize)
        requires
            old(self)@.wf(),
            old(self)@.time >= 1,
        ensures
            final(self)@ == old(self)@.with_edge_to(neighbor),
            final(self)@.wf(),
    {
        proof {
            self.lemma_view_doms();
        }
        let ghost old_view = self@;
        let time = self.time;
        let bitv = match self.neighbors.remove(&neighbor) {
            Some(b) => {
                let mut b = b;
                let len = bitvec_len(&b);
                bitvec_set(&mut b, len - 1, true);
                b
            },
            None => {
                let mut b = bitvec_repeat(false, time);
                bitvec_set(&mut b, time - 1, true);
                assert(history_bits(b) =~= fresh_history(time));
                b
            },
        };
        if self.apply_f(&bitv) {
            if !self.estimate.contains_key(&neighbor) {
                self.dirty = true;
                self.estimate.insert(neighbor, (usize::MAX, time));
            }
        }
        self.neighbors.insert(neighbor, bitv);
        proof {
            self.lemma_view_doms();
            assert(self@.history =~= old_view.history.insert(neighbor, history_bits(bitv)));
        }
    }

    /// End of a snapshot: drops the estimates of neighbours that are no longer
    /// alive, restarts a dirty node from its degree, lets a node that lost a
    /// neighbour recompute its coreness, and resizes the counters.
    pub fn reset(&mut self)
        requires
            old(self)@.wf(),
            old(self)@.estimate.dom().len() < usize::MAX,
        ensures
            final(self)@ == old(self)@.after_reset(),
            final(self)@.wf(),
    {
        if self.id.is_some() {
            proof {
                self.lemma_view_doms();
            }
            let ghost old_view = self@;
            let ghost alive = self@.alive_neighbors();
            let my_neighs = self.neighs();
            let mut estimate: HashMap<usize, (usize, usize)> = HashMap::new();
            std::mem::swap(&mut estimate, &mut self.estimate);
            let ghost old_est = estimate@;
            let keys = map_keys(&estimate);
            let mut lost_neigh = false;
            for i in 0..keys.len()
                invariant
                    keys@.no_duplicates(),
                    keys@.to_set() == old_est.dom(),
                    my_neighs@.to_set() == alive,
                    forall|k: usize| #[trigger] estimate@.dom().contains(k) <==> (old_est.dom().contains(k)
                        && (keys@.take(i as int).contains(k) ==> alive.contains(k))),
                    forall|k: usize| #[trigger] estimate@.dom().contains(k) ==> estimate@[k] == old_est[k],
                    lost_neigh <==> exists|j: int| 0 <= j < i && !alive.contains(#[trigger] keys@[j]),
            {
                let neigh = keys[i];
                assert(keys@.to_set().contains(neigh));
                assert(!keys@.take(i as int).contains(neigh)) by {
                    if keys@.take(i as int).contains(neigh) {
                        let j = choose|j: int| 0 <= j < i && keys@.take(i as int)[j] == neigh;
                        assert(keys@[j] == keys@[i as int]);
                    }
                }
                assert(keys@.take(i + 1) =~= keys@.take(i as int).push(neigh));
                if !vec_contains(&my_neighs, neigh) {
                    assert(!alive.contains(neigh));
                    estimate.remove(&neigh);
                    lost_neigh = true;
                } else {
                    assert(my_neighs@.to_set().contains(neigh));
                }
                assert(lost_neigh <==> exists|j: int| 0 <= j < i + 1 && !alive.contains(#[trigger] keys@[j])) by {
                    if !alive.contains(neigh) {
                        assert(!alive.contains(keys@[i as int]));
                    }
                }
            }
            assert(keys@.take(keys@.len() as int) =~= keys@);
            assert(estimate@ =~= old_est.restrict(alive)) by {
                assert forall|k: usize| old_est.dom().contains(k) implies #[trigger] keys@.contains(k) by {
                    assert(keys@.to_set().contains(k));
                }
            }
            assert(lost_neigh == exists|k: usize| #[trigger] old_est.dom().contains(k) && !alive.contains(k)) by {
                if lost_neigh {
                    let j = choose|j: int| 0 <= j < keys@.len() && !alive.contains(#[trigger] keys@[j]);
                    assert(keys@.to_set().contains(keys@[j]));
                }
                if exists|k: usize| #[trigger] old_est.dom().contains(k) && !alive.contains(k) {
                    let k = choose|k: usize| #[trigger] old_est.dom().contains(k) && !alive.contains(k);
                    assert(keys@.to_set().contains(k));
                    let j = choose|j: int| 0 <= j < keys@.len() && keys@[j] == k;
                    assert(!alive.contains(keys@[j]));
                }
            }
            proof {
                assert(estimate@.dom().subset_of(old_est.dom()));
                vstd::set_lib::lemma_len_subset(estimate@.dom(), old_est.dom());
            }
            self.estimate = estimate;
            proof {
                self.lemma_view_doms();
            }
            let ghost kept = self@;
            if self.dirty {
                self.coreness = self.deg();
                self.changed = true;
                self.dirty = false;
            } else if lost_neigh {
                let old_cness = self.coreness;
                self.coreness = self.comp_coreness();
                if self.coreness == 0 {
                    self.coreness = usize::MAX;
                } else if self.coreness != old_cness {
                    self.changed = true;
                }
            }
            let target = self.estimate.len() + 1;
            let mut count: Vec<usize> = Vec::new();
            std::mem::swap(&mut count, &mut self.count);
            let ghost old_count = count@;
            if count.len() > target {
                count.truncate(target);
            } else {
                while count.len() < target
                    invariant
                        old_count.len() <= count@.len() <= target,
                        forall|j: int| 0 <= j < count@.len() ==> #[trigger] count@[j] == if j < old_count.len() {
                            old_count[j]
                        } else {
                            0usize
                        },
                    decreases target - count.len(),
                {
                    count.push(0);
                }
            }
            assert(count@ =~= resized(old_count, target as nat));
            self.count = count;
            proof {
                self.lemma_view_doms();
            }
        }
    }

    /// The coreness computed from the estimates; the node does not change.
    pub fn comp_coreness(&mut self) -> (r: usize)
        requires
            old(self)@.estimate.dom().len() < usize::MAX,
        ensures
            *final(self) == *old(self),
            r == old(self)@.computed_coreness(),
    {
        match estimate_h_index(&self.estimate) {
            Some(h) => h,
            None => {
                let d = self.deg();
                if self.coreness <= d {
                    self.coreness
                } else {
                    d
                }
            },
        }
    }

    /// The node receives the coreness `core` of neighbour `from`, stamped
    /// `timestamp`, and recomputes its own coreness if it takes the estimate.
    pub fn receive_msg(&mut self, from: usize, core: usize, timestamp: usize)
        requires
            old(self)@.estimate.dom().insert(from).len() < usize::MAX,
        ensures
            final(self)@ == old(self)@.after_receive(from, core, timestamp),
    {
        proof {
            self.lemma_view_doms();
        }
        let ghost old_view = self@;
        let mut less_than = false;
        let mut is_reset = false;
        match self.estimate.get(&from) {
            Some(est) => {
                let est = *est;
                if (core < est.0 && timestamp == est.1) || (core > est.0 && timestamp > est.1) {
                    less_than = true;
                } else if timestamp > est.1 {
                    is_reset = true;
                }
            },
            None => less_than = true,
        }
        if less_than || is_reset {
            self.estimate.insert(from, (core, timestamp));
            proof {
                self.lemma_view_doms();
                assert(self@ == (AliveNodeView {
                    estimate: old_view.estimate.insert(from, (core, timestamp)),
                    ..old_view
                }));
                assert(self@.estimate.dom() =~= old_view.estimate.dom().insert(from));
            }
            let t = self.comp_coreness();
            if t != self.coreness {
                if t < self.coreness {
                    self.paused = true;
                }
                self.coreness = t;
                self.changed = true;
                self.activated = true;
            }
        }
    }

    /// Asks the node to announce its coreness: a node with a change and not
    /// paused announces (id, coreness, time); a paused node resumes instead.
    pub fn send_msg(&mut self) -> (r: Option<(usize, usize, usize)>)
        ensures
            final(self)@ == old(self)@.after_send(),
            r == old(self)@.message(),
    {
        match self.id {
            None => None,
            Some(id) => {
                if self.changed && !self.paused {
                    self.changed = false;
                    self.activated = true;
                    self.last_sent = self.time;
                    Some((id, self.coreness, self.time))
                } else {
                    if self.paused {
                        self.paused = false;
                    }
                    None
                }
            },
        }
    }
    /// Prepares the node for the message rounds (see `prepared`).
    fn prepare_for_rounds(&mut self)
        ensures
            final(self)@ == prepared(old(self)@),
    {
        if self.has_changed() {
            if self.get_coreness() >= usize::MAX {
                let deg = self.deg();
                if deg > 0 {
                    self.coreness = deg;
                } else {
                    self.changed = false;
                }
            } else if self.deg() == 0 {
                self.coreness = usize::MAX;
                self.changed = false;
            }
        }
    }

    /// Clears the activation mark, telling whether it was set.
    fn take_activated(&mut self) -> (r: bool)
        ensures
            r == old(self)@.activated,
            final(self)@ == (AliveNodeView { activated: false, ..old(self)@ }),
    {
        let r = self.activated;
        self.activated = false;
        r
    }
} // impl

/// A set of identifiers below `n` has at most `n` elements.
pub proof fn lemma_bounded_set_len(s: Set<usize>, n: usize)
    requires
        forall|k: usize| #[trigger] s.contains(k) ==> k < n,
    ensures
        s.finite(),
        s.len() <= n,
    decreases n,
{
    if n == 0 {
        assert(s =~= Set::<usize>::empty());
    } else {
        let m = (n - 1) as usize;
        let t = s.remove(m);
        lemma_bounded_set_len(t, m);
        if s.contains(m) {
            assert(s =~= t.insert(m));
        } else {
            assert(s =~= t);
        }
    }
}

/// The alive graph as the contracts see it.
pub struct AliveGraphView<F> {
    /// The nodes, the node with identifier `i` at index `i`.
    pub nodes: Seq<AliveNodeView<F>>,
    /// The number of edges added so far.
    pub edges: usize,
    /// How many recent snapshots the activation function looks at.
    pub memory_size: usize,
    /// The activation function given to new nodes.
    pub activation: F,
}

/// The node with an identifier: `i` if it had none.
pub open spec fn with_id<F>(node: AliveNodeView<F>, i: usize) -> AliveNodeView<F> {
    if node.id is None { AliveNodeView { id: Some(i), ..node } } else { node }
}

/// The nodes after the edge `(u, v)` was added to the current snapshot.
pub open spec fn add_edge<F: Activation>(nodes: Seq<AliveNodeView<F>>, u: usize, v: usize) -> Seq<AliveNodeView<F>> {
    let n1 = nodes.update(u as int, with_id(nodes[u as int], u));
    let n2 = n1.update(v as int, with_id(n1[v as int], v));
    let n3 = n2.update(u as int, n2[u as int].with_edge_to(v));
    n3.update(v as int, n3[v as int].with_edge_to(u))
}

/// The nodes after the edges of `list` were added in order.
pub open spec fn add_edges<F: Activation>(nodes: Seq<AliveNodeView<F>>, list: Seq<(usize, usize)>) -> Seq<AliveNodeView<F>>
    decreases list.len(),
{
    if list.len() == 0 {
        nodes
    } else {
        let prev = add_edges(nodes, list.drop_last());
        add_edge(prev, list.last().0, list.last().1)
    }
}

/// How many of the nodes have an identifier.
pub open spec fn count_identified<F>(nodes: Seq<AliveNodeView<F>>) -> nat
    decreases nodes.len(),
{
    if nodes.len() == 0 {
        0
    } else {
        count_identified(nodes.drop_last()) + if nodes.last().id is Some { 1nat } else { 0nat }
    }
}

/// The nodes are well formed and all at time `t`, a node's identifier is its
/// index, and histories and estimates only name other nodes of the sequence.
pub open spec fn nodes_wf<F: Activation>(nodes: Seq<AliveNodeView<F>>, t: usize) -> bool {
    &&& forall|i: int| 0 <= i < nodes.len() ==> #[trigger] nodes[i].wf()
    &&& forall|i: int| 0 <= i < nodes.len() ==> #[trigger] nodes[i].time == t
    &&& forall|i: int| 0 <= i < nodes.len() ==> (#[trigger] nodes[i].id is None || nodes[i].id == Some(i as usize))
    &&& forall|i: int, k: usize| 0 <= i < nodes.len() && #[trigger] nodes[i].history.dom().contains(k)
        ==> k < nodes.len() && k != i
    &&& forall|i: int, k: usize| 0 <= i < nodes.len() && #[trigger] nodes[i].estimate.dom().contains(k)
        ==> k < nodes.len()
}

/// Adding an edge between two distinct nodes keeps the nodes well formed.
pub proof fn lemma_add_edge_wf<F: Activation>(nodes: Seq<AliveNodeView<F>>, u: usize, v: usize, t: usize)
    requires
        nodes_wf(nodes, t),
        1 <= t,
        u < nodes.len(),
        v < nodes.len(),
        u != v,
    ensures
        nodes_wf(add_edge(nodes, u, v), t),
{
    let nn = add_edge(nodes, u, v);
    assert forall|i: int| 0 <= i < nn.len() implies #[trigger] nn[i].wf() && nn[i].time == t
        && (nn[i].id is None || nn[i].id == Some(i as usize)) by {
        assert(nodes[i].wf() && nodes[i].time == t);
        assert(nodes[i].id is None || nodes[i].id == Some(i as usize));
    }
    assert forall|i: int, k: usize| 0 <= i < nn.len() && #[trigger] nn[i].history.dom().contains(k)
        implies k < nn.len() && k != i by {
        if !(k == u || k == v) {
            assert(nodes[i].history.dom().contains(k));
        } else if i != u && i != v {
            assert(nodes[i].history.dom().contains(k));
        }
    }
    assert forall|i: int, k: usize| 0 <= i < nn.len() && #[trigger] nn[i].estimate.dom().contains(k)
        implies k < nn.len() by {
        if !(k == u || k == v) {
            assert(nodes[i].estimate.dom().contains(k));
        }
    }
}

/// How many nodes have an identifier and a coreness other than the one they
/// had when the snapshot began.
pub open spec fn count_moved<F>(nodes: Seq<AliveNodeView<F>>) -> nat
    decreases nodes.len(),
{
    if nodes.len() == 0 {
        0
    } else {
        count_moved(nodes.drop_last()) + if nodes.last().id is Some && nodes.last().coreness
            != nodes.last().old_coreness {
            1nat
        } else {
            0nat
        }
    }
}

/// How many nodes have an identifier and lost a known coreness (it became
/// unknown) since the snapshot began.
pub open spec fn count_isolated<F>(nodes: Seq<AliveNodeView<F>>) -> nat
    decreases nodes.len(),
{
    if nodes.len() == 0 {
        0
    } else {
        count_isolated(nodes.drop_last()) + if nodes.last().id is Some && nodes.last().coreness
            == usize::MAX && nodes.last().old_coreness < usize::MAX {
            1nat
        } else {
            0nat
        }
    }
}

/// The identifiers of the nodes whose coreness is `c`, in ascending order.
pub open spec fn core_members<F>(nodes: Seq<AliveNodeView<F>>, c: usize) -> Seq<usize>
    decreases nodes.len(),
{
    if nodes.len() == 0 {
        Seq::empty()
    } else if nodes.last().id is Some && nodes.last().coreness == c {
        core_members(nodes.drop_last(), c).push(nodes.last().id->0)
    } else {
        core_members(nodes.drop_last(), c)
    }
}

/// One more than the largest coreness below `top` that some node has, or
/// zero when there is none.
pub open spec fn core_levels<F>(nodes: Seq<AliveNodeView<F>>, top: nat) -> nat
    decreases top,
{
    if top == 0 {
        0
    } else if core_members(nodes, (top - 1) as usize).len() > 0 {
        top
    } else {
        core_levels(nodes, (top - 1) as nat)
    }
}

/// The indices of the nodes that have an identifier.
pub open spec fn identified_set<F>(nodes: Seq<AliveNodeView<F>>) -> Set<usize> {
    Set::new(|k: usize| k < nodes.len() && nodes[k as int].id is Some)
}

/// The histories and estimates of the node at index `me` name only nodes of
/// `ids` other than itself.
pub open spec fn names_within<F>(nv: AliveNodeView<F>, ids: Set<usize>, me: usize) -> bool {
    &&& forall|k: usize| #[trigger] nv.history.dom().contains(k) ==> ids.contains(k) && k != me
    &&& forall|k: usize| #[trigger] nv.estimate.dom().contains(k) ==> ids.contains(k) && k != me
}

/// Every node holds estimates only of its alive neighbours, and a node
/// without an identifier holds none.
pub open spec fn estimates_alive<F: Activation>(nodes: Seq<AliveNodeView<F>>) -> bool {
    forall|i: int| #![trigger nodes[i]] 0 <= i < nodes.len() ==> {
        &&& nodes[i].estimate.dom().subset_of(nodes[i].alive_neighbors())
        &&& nodes[i].id is None ==> nodes[i].estimate.dom() == Set::<usize>::empty()
    }
}

/// Histories and estimates name only other identified nodes, and a node
/// without an identifier has an unknown coreness.
pub open spec fn names_identified<F>(nodes: Seq<AliveNodeView<F>>) -> bool {
    &&& forall|i: int| 0 <= i < nodes.len() ==> names_within(#[trigger] nodes[i], identified_set(nodes), i as usize)
    &&& forall|i: int| 0 <= i < nodes.len() && #[trigger] nodes[i].id is None ==> nodes[i].coreness == usize::MAX
}

impl<F: Activation> AliveGraphView<F> {
    /// Every known coreness of a node with an identifier is below the
    /// number of nodes with an identifier.
    pub open spec fn corenesses_bounded(self) -> bool {
        forall|i: int| 0 <= i < self.nodes.len() && #[trigger] self.nodes[i].id is Some
            && self.nodes[i].coreness < usize::MAX ==> self.nodes[i].coreness < count_identified(self.nodes)
    }

    /// What every graph built by this module satisfies: it is well formed,
    /// undirected, its nodes name only identified nodes, hold estimates only
    /// of alive neighbours, and its corenesses are bounded.
    pub open spec fn consistent(self) -> bool {
        &&& self.wf()
        &&& names_identified(self.nodes)
        &&& self.corenesses_bounded()
        &&& crate::laws::symmetric(self)
        &&& estimates_alive(self.nodes)
    }

    /// The number of snapshots seen, shared by all nodes.
    pub open spec fn clock(self) -> usize {
        if self.nodes.len() > 0 { self.nodes[0].time } else { 0 }
    }

    /// The graph's invariant: nodes are well formed and share the clock, a
    /// node's identifier is its index, and histories and estimates only name
    /// other nodes of the graph.
    pub open spec fn wf(self) -> bool {
        &&& self.nodes.len() < usize::MAX
        &&& nodes_wf(self.nodes, self.clock())
    }

    /// The nodes as the round loop finds them (see `prepared`).
    pub open spec fn prepared_nodes(self) -> Seq<AliveNodeView<F>> {
        self.nodes.map_values(|nv: AliveNodeView<F>| prepared(nv))
    }

    /// Whether `list` can be added as a snapshot: its edges join two distinct
    /// nodes of the graph, the edge counter does not overflow, and the
    /// histories can grow by one bit.
    pub open spec fn accepts_snapshot(self, list: Seq<(usize, usize)>) -> bool {
        &&& forall|j: int| 0 <= j < list.len() ==> #[trigger] list[j].0 < self.nodes.len()
            && list[j].1 < self.nodes.len() && list[j].0 != list[j].1
        &&& self.edges + list.len() <= usize::MAX
        &&& self.clock() < BITVEC_MAX_BITS
    }

    /// The graph after the snapshot `list`: every node advances, the edges
    /// are added in order, every node resets.
    pub open spec fn after_snapshot(self, list: Seq<(usize, usize)>) -> Self {
        AliveGraphView {
            nodes: add_edges(self.nodes.map_values(|n: AliveNodeView<F>| n.advanced()), list).map_values(
                |n: AliveNodeView<F>| n.after_reset(),
            ),
            edges: (self.edges + list.len()) as usize,
            ..self
        }
    }
}

#[verifier::external_type_specification]
#[verifier::external_body]
pub struct ExInstant(std::time::Instant);

/// Calls `Instant::now`: the current instant. Nothing is stated of it.
#[verifier::external_body]
fn instant_now() -> std::time::Instant {
    std::time::Instant::now()
}

/// Calls `Instant::elapsed`: the time since `start`. Nothing is stated of it.
#[verifier::external_body]
fn instant_elapsed(start: &std::time::Instant) -> std::time::Duration {
    start.elapsed()
}

/// What a run of the coreness protocol on `old` ends with, as
/// `montresor_step` states it: `rounds_run` rounds were run, at least one,
/// each but the last leaving a change to announce and the last none;
/// `per_round` holds the announcements of each round and `msgs` their total
/// (modulo 2^64); `timings` durations were measured, one per round;
/// `activated` nodes were marked activated; the nodes end as the rounds
/// left them, their activation marks cleared.
pub open spec fn step_outcome<F: Activation>(
    old: AliveGraphView<F>,
    new: AliveGraphView<F>,
    rounds_run: usize,
    msgs: usize,
    per_round: Seq<usize>,
    timings: nat,
    activated: usize,
) -> bool {
    &&& rounds_run == per_round.len()
    &&& rounds_run >= 1
    &&& timings == rounds_run
    &&& forall|j: nat| 1 <= j < rounds_run ==> has_pending(#[trigger] rounds(old.prepared_nodes(), j))
    &&& !has_pending(rounds(old.prepared_nodes(), rounds_run as nat))
    &&& forall|j: int| 0 <= j < rounds_run ==> #[trigger] per_round[j] == sent_messages(
        rounds(old.prepared_nodes(), j as nat),
    ).len()
    &&& msgs == total(per_round) as int % (usize::MAX + 1)
    &&& activated == count_activated(rounds(old.prepared_nodes(), rounds_run as nat))
    &&& new == (AliveGraphView { nodes: deactivated(rounds(old.prepared_nodes(), rounds_run as nat)), ..old })
}

/// The first two digits of `n` (all of it below one hundred).
pub open spec fn leading_digits(n: nat) -> nat
    decreases n,
{
    if n >= 100 { leading_digits(n / 10) } else { n }
}

/// A guess at the number of rounds, used to size the statistics: twice the
/// first two digits of the number of nodes.
fn expected_iterations(n: usize) -> (r: usize)
    ensures
        r == 2 * leading_digits(n as nat),
{
    let mut m = n;
    while m >= 100
        invariant
            leading_digits(m as nat) == leading_digits(n as nat),
        decreases m,
    {
        m = m / 10;
    }
    m * 2
}

proof fn lemma_wrapping_total(before: usize, sum: int, c: usize)
    requires
        sum >= 0,
        before == sum % (usize::MAX + 1),
    ensures
        before.wrapping_add(c) == (sum + c) % (usize::MAX + 1),
{
    let m: int = usize::MAX + 1;
    let q = sum / m;
    assert(sum == m * q + before) by (nonlinear_arith)
        requires before == sum % m, m > 0, q == sum / m;
    if before + c > usize::MAX {
        assert((sum + c) % m == before + c - m) by (nonlinear_arith)
            requires sum == m * q + before, before + c >= m, before + c < 2 * m, m > 0;
    } else {
        assert((sum + c) % m == before + c) by (nonlinear_arith)
            requires sum == m * q + before, before + c < m, 0 <= before, 0 <= c, m > 0;
    }
}

/// The alive graph: nodes indexed by identifier.
pub struct AliveGraph<F: Activation> {
    nodes: Vec<AliveNode<F>>,
    edges: usize,
    memory_size: usize,
    activation_function: F,
}

impl<F: Activation> View for AliveGraph<F> {
    type V = AliveGraphView<F>;

    closed spec fn view(&self) -> AliveGraphView<F> {
        AliveGraphView {
            nodes: self.nodes@.map_values(|n: AliveNode<F>| n@),
            edges: self.edges,
            memory_size: self.memory_size,
            activation: self.activation_function,
        }
    }
}

impl<F: Activation> AliveGraph<F> {
    proof fn lemma_view_nodes(&self)
        ensures
            self@.nodes.len() == self.nodes@.len(),
            forall|i: int| 0 <= i < self.nodes@.len() ==> #[trigger] self.nodes@[i]@ == self@.nodes[i],
    {
    }

    /// An empty graph remembering five snapshots.
    pub fn new(activation_function: F) -> (r: Self)
        ensures
            r@ == (AliveGraphView {
                nodes: Seq::<AliveNodeView<F>>::empty(),
                edges: 0,
                memory_size: 5,
                activation: activation_function,
            }),
            r@.consistent(),
    {
        let r = AliveGraph { nodes: Vec::new(), edges: 0, memory_size: 5, activation_function };
        assert(r@.nodes =~= Seq::<AliveNodeView<F>>::empty());
        r
    }

    /// A graph of `nid` nodes without identifiers, remembering `mem_size`
    /// snapshots.
    pub fn from_n_and_mem_size(nid: usize, mem_size: usize, activation_function: F) -> (r: Self)
        requires
            nid < usize::MAX,
        ensures
            r@.nodes.len() == nid,
            forall|i: int| 0 <= i < nid ==> #[trigger] r@.nodes[i] == (AliveNodeView {
                id: None,
                history: Map::<usize, Seq<bool>>::empty(),
                memory_size: mem_size,
                changed: false,
                coreness: usize::MAX,
                count: Seq::<usize>::empty(),
                estimate: Map::<usize, (usize, usize)>::empty(),
                activation: activation_function,
                time: 0,
                activated: false,
                dirty: false,
                paused: false,
                last_sent: 0,
                old_coreness: 0,
            }),
            r@.edges == 0,
            r@.memory_size == mem_size,
            r@.activation == activation_function,
            r@.consistent(),
    {
        let mut nodes: Vec<AliveNode<F>> = Vec::new();
        for i in 0..nid
            invariant
                nodes@.len() == i,
                forall|j: int| 0 <= j < i ==> #[trigger] nodes@[j]@ == (AliveNodeView {
                    id: None,
                    history: Map::<usize, Seq<bool>>::empty(),
                    memory_size: mem_size,
                    changed: false,
                    coreness: usize::MAX,
                    count: Seq::<usize>::empty(),
                    estimate: Map::<usize, (usize, usize)>::empty(),
                    activation: activation_function,
                    time: 0,
                    activated: false,
                    dirty: false,
                    paused: false,
                    last_sent: 0,
                    old_coreness: 0,
                }),
                forall|j: int| 0 <= j < i ==> #[trigger] nodes@[j]@.wf(),
        {
            nodes.push(AliveNode::new(None, mem_size, activation_function));
        }
        let r = AliveGraph { nodes, edges: 0, memory_size: mem_size, activation_function };
        proof {
            assert(r@.nodes == nodes@.map_values(|n: AliveNode<F>| n@));
            assert(identified_set(r@.nodes) =~= Set::<usize>::empty());
            crate::coreness_bounds::lemma_identified_set(r@.nodes);
            crate::laws::lemma_fresh_graph_symmetric(r@);
            assert forall|i: int| 0 <= i < r@.nodes.len() implies #[trigger] r@.nodes[i].estimate.dom()
                == Set::<usize>::empty() by {}
        }
        r
    }

    /// The number of nodes that have an identifier.
    pub fn get_n(&self) -> (r: usize)
        ensures
            r == count_identified(self@.nodes),
    {
        let mut count: usize = 0;
        for i in 0..self.nodes.len()
            invariant
                count == count_identified(self@.nodes.take(i as int)),
                count <= i,
        {
            assert(self@.nodes.take(i + 1).drop_last() =~= self@.nodes.take(i as int));
            if self.nodes[i].get_id().is_some() {
                count = count + 1;
            }
        }
        assert(self@.nodes.take(self.nodes.len() as int) =~= self@.nodes);
        count
    }

    /// The number of edges added so far.
    pub fn get_m(&self) -> (r: usize)
        ensures
            r == self@.edges,
    {
        self.edges
    }

    /// Overwrites the edge counter.
    pub fn set_m(&mut self, edges: usize)
        ensures
            final(self)@ == (AliveGraphView { edges, ..old(self)@ }),
    {
        self.edges = edges;
    }

    /// The node with identifier `id`.
    pub fn get_node(&self, id: usize) -> (r: &AliveNode<F>)
        requires
            id < self@.nodes.len(),
        ensures
            r@ == self@.nodes[id as int],
    {
        &self.nodes[id]
    }

    /// The alive neighbours of node `who`, in ascending order.
    pub fn get_neighs(&self, who: usize) -> (r: Vec<usize>)
        requires
            who < self@.nodes.len(),
        ensures
            strictly_ascending(r@),
            r@.to_set() == self@.nodes[who as int].alive_neighbors(),
            r@ == sorted_members(self@.nodes[who as int].alive_neighbors()),
    {
        let mut ans = self.nodes[who].neighs();
        let ghost before = ans@;
        sort_ids(&mut ans);
        proof {
            lemma_sorted_distinct(before, ans@);
            lemma_sorted_members(ans@);
        }
        ans
    }

    /// How many identified nodes changed coreness during the snapshot, and
    /// how many of them lost a known coreness.
    pub fn changed_coreness_count(&self) -> (r: (usize, usize))
        ensures
            r.0 == count_moved(self@.nodes),
            r.1 == count_isolated(self@.nodes),
    {
        let mut count: usize = 0;
        let mut isolated: usize = 0;
        for i in 0..self.nodes.len()
            invariant
                self@.nodes.len() == self.nodes@.len(),
                count == count_moved(self@.nodes.take(i as int)),
                isolated == count_isolated(self@.nodes.take(i as int)),
                count <= i,
                isolated <= i,
        {
            assert(self@.nodes.take(i + 1).drop_last() =~= self@.nodes.take(i as int));
            let n = &self.nodes[i];
            assert(n@ == self@.nodes[i as int]);
            if n.id.is_some() && n.coreness != n.old_coreness {
                count = count + 1;
            }
            if n.id.is_some() && n.coreness == usize::MAX && n.old_coreness < usize::MAX {
                isolated = isolated + 1;
            }
        }
        assert(self@.nodes.take(self.nodes.len() as int) =~= self@.nodes);
        (count, isolated)
    }

    /// The nodes grouped by coreness: entry `c` lists, in ascending order, the
    /// identifiers of the nodes of coreness `c`; trailing empty groups are
    /// dropped. A known coreness at or above the number of identified nodes
    /// has no group to go in, which `requires` rules out.
    pub fn k_core_from_coreness(&self) -> (r: Vec<Vec<usize>>)
        requires
            self@.corenesses_bounded(),
        ensures
            r@.len() == core_levels(self@.nodes, count_identified(self@.nodes)),
            forall|c: int| 0 <= c < r@.len() ==> #[trigger] r@[c]@ == core_members(self@.nodes, c as usize),
    {
        let total = self.get_n();
        let mut ans: Vec<Vec<usize>> = Vec::new();
        for c in 0..total
            invariant
                ans@.len() == c,
                forall|a: int| 0 <= a < c ==> #[trigger] ans@[a]@ == Seq::<usize>::empty(),
        {
            ans.push(Vec::new());
        }
        for i in 0..self.nodes.len()
            invariant
                self@.nodes.len() == self.nodes@.len(),
                total == count_identified(self@.nodes),
                self@.corenesses_bounded(),
                ans@.len() == total,
                forall|a: int| 0 <= a < total ==> #[trigger] ans@[a]@ == core_members(
                    self@.nodes.take(i as int), a as usize),
        {
            assert(self@.nodes.take(i + 1).drop_last() =~= self@.nodes.take(i as int));
            let node = &self.nodes[i];
            assert(node@ == self@.nodes[i as int]);
            if let Some(v) = node.get_id() {
                if node.coreness < usize::MAX {
                    let c = node.coreness;
                    ans[c].push(v);
                }
            }
            assert forall|a: int| 0 <= a < total implies #[trigger] ans@[a]@ == core_members(
                self@.nodes.take(i + 1), a as usize) by {}
        }
        assert(self@.nodes.take(self.nodes.len() as int) =~= self@.nodes);
        while ans.len() > 0 && ans[ans.len() - 1].len() == 0
            invariant
                ans@.len() <= total,
                forall|a: int| 0 <= a < ans@.len() ==> #[trigger] ans@[a]@ == core_members(self@.nodes, a as usize),
                core_levels(self@.nodes, total as nat) == core_levels(self@.nodes, ans@.len() as nat),
            decreases ans@.len(),
        {
            ans.pop();
        }
        ans
    }

    /// Prepares every node for the rounds and queues, in ascending order, the
    /// nodes with a change to announce.
    fn prepare_rounds(&mut self) -> (queue: Vec<usize>)
        requires
            old(self)@.wf(),
        ensures
            final(self)@ == (AliveGraphView {
                nodes: old(self)@.nodes.map_values(|nv: AliveNodeView<F>| prepared(nv)),
                ..old(self)@
            }),
            final(self)@.wf(),
            queue@ == pending_queue(final(self)@.nodes),
    {
        proof {
            self.lemma_view_nodes();
        }
        let ghost start = self@;
        let n = self.nodes.len();
        let mut queue: Vec<usize> = Vec::with_capacity(n);
        for i in 0..n
            invariant
                n == self.nodes@.len(),
                n == start.nodes.len(),
                start.wf(),
                self@ == (AliveGraphView { nodes: self@.nodes, ..start }),
                forall|j: int| 0 <= j < i ==> #[trigger] self@.nodes[j] == prepared(start.nodes[j]),
                forall|j: int| i <= j < n ==> #[trigger] self@.nodes[j] == start.nodes[j],
                queue@ == pending_queue(self@.nodes.take(i as int)),
        {
            proof {
                self.lemma_view_nodes();
            }
            let ghost before = self@.nodes;
            assert(before.take(i as int) =~= before.update(i as int, prepared(start.nodes[i as int])).take(i as int));
            self.nodes[i].prepare_for_rounds();
            proof {
                self.lemma_view_nodes();
                assert(self@.nodes.take(i + 1).drop_last() =~= self@.nodes.take(i as int));
                assert(self@.nodes.take(i + 1).last() == self@.nodes[i as int]);
                assert(self@.nodes[i as int].id == start.nodes[i as int].id);
                assert(start.nodes[i as int].id is None || start.nodes[i as int].id == Some(i as usize));
            }
            proof {
                assert(self@.nodes.take(i as int) =~= before.take(i as int));
            }
            if self.nodes[i].has_changed() {
                let id = self.nodes[i].get_id().unwrap();
                queue.push(id);
            }
            proof {
                let tk = self@.nodes.take(i + 1);
                assert(tk.len() == i + 1);
                assert(pending_queue(tk) == if tk.last().needs_to_send() {
                    pending_queue(tk.drop_last()).push(i as usize)
                } else {
                    pending_queue(tk.drop_last())
                });
            }
        }
        proof {
            self.lemma_view_nodes();
            assert(self@.nodes.take(n as int) =~= self@.nodes);
            assert(self@.nodes =~= start.nodes.map_values(|nv: AliveNodeView<F>| prepared(nv)));
            assert forall|j: int| 0 <= j < n implies {
                &&& #[trigger] self@.nodes[j].history == start.nodes[j].history
                &&& self@.nodes[j].estimate == start.nodes[j].estimate
                &&& self@.nodes[j].time == start.nodes[j].time
                &&& self@.nodes[j].id == start.nodes[j].id
            } by {
                assert(self@.nodes[j] == prepared(start.nodes[j]));
            }
            assert(self@.clock() == start.clock());
            assert forall|j: int| 0 <= j < n implies #[trigger] self@.nodes[j].wf() by {
                assert(start.nodes[j].wf());
                assert(self@.nodes[j].history == start.nodes[j].history);
            }
        }
        queue
    }

    /// The queue, in ascending order, of the nodes with a change to announce.
    fn collect_pending(&self) -> (queue: Vec<usize>)
        requires
            self@.wf(),
        ensures
            queue@ == pending_queue(self@.nodes),
    {
        proof {
            self.lemma_view_nodes();
        }
        let n = self.nodes.len();
        let mut queue: Vec<usize> = Vec::new();
        for i in 0..n
            invariant
                n == self.nodes@.len(),
                self@.wf(),
                queue@ == pending_queue(self@.nodes.take(i as int)),
        {
            proof {
                self.lemma_view_nodes();
                assert(self@.nodes.take(i + 1).drop_last() =~= self@.nodes.take(i as int));
                assert(self@.nodes.take(i + 1).last() == self@.nodes[i as int]);
            }
            if self.nodes[i].has_changed() {
                let id = self.nodes[i].get_id().unwrap();
                queue.push(id);
            }
        }
        assert(self@.nodes.take(n as int) =~= self@.nodes);
        queue
    }

    /// Asks the queued nodes, in order, to announce their coreness.
    fn send_round(&mut self, queue: &Vec<usize>) -> (msgs: Vec<Announcement>)
        requires
            old(self)@.wf(),
            queue@ == pending_queue(old(self)@.nodes),
        ensures
            final(self)@ == (AliveGraphView { nodes: after_sends(old(self)@.nodes), ..old(self)@ }),
            final(self)@.wf(),
            final(self)@.clock() == old(self)@.clock(),
            msgs@ == sent_messages(old(self)@.nodes),
            forall|j: int| 0 <= j < msgs@.len() ==> #[trigger] msgs@[j].0 < old(self)@.nodes.len()
                && msgs@[j].2 == old(self)@.clock(),
    {
        proof {
            self.lemma_view_nodes();
            lemma_pending_queue(self@.nodes);
        }
        let ghost start = self@;
        let n = self.nodes.len();
        let mut msgs: Vec<Announcement> = Vec::new();
        for i in 0..queue.len()
            invariant
                n == self.nodes@.len(),
                n == start.nodes.len(),
                start.wf(),
                queue@ == pending_queue(start.nodes),
                queue@.no_duplicates(),
                forall|j: int| 0 <= j < queue@.len() ==> #[trigger] queue@[j] < n,
                self@ == (AliveGraphView { nodes: self@.nodes, ..start }),
                forall|j: int| 0 <= j < n ==> #[trigger] self@.nodes[j] == if queue@.take(i as int).contains(j as usize) {
                    start.nodes[j].after_send()
                } else {
                    start.nodes[j]
                },
                msgs@ == messages_of(start.nodes, queue@.take(i as int)),
                forall|j: int| 0 <= j < msgs@.len() ==> #[trigger] msgs@[j].0 < n && msgs@[j].2 == start.clock(),
        {
            proof {
                self.lemma_view_nodes();
            }
            let q = queue[i];
            assert(!queue@.take(i as int).contains(q)) by {
                if queue@.take(i as int).contains(q) {
                    let j = choose|j: int| 0 <= j < i && queue@.take(i as int)[j] == q;
                    assert(queue@[j] == queue@[i as int]);
                }
            }
            assert(queue@.take(i + 1) =~= queue@.take(i as int).push(q));
            assert(queue@.take(i + 1).drop_last() =~= queue@.take(i as int));
            assert(self@.nodes[q as int] == start.nodes[q as int]);
            let m = self.nodes[q].send_msg();
            match m {
                Some(msg) => {
                    msgs.push(msg);
                },
                None => {},
            }
            proof {
                self.lemma_view_nodes();
                assert forall|j: int| 0 <= j < n implies #[trigger] self@.nodes[j] == if queue@.take(i + 1).contains(j as usize) {
                    start.nodes[j].after_send()
                } else {
                    start.nodes[j]
                } by {
                    if j != q {
                        assert(queue@.take(i + 1).contains(j as usize) == queue@.take(i as int).contains(j as usize));
                    }
                }
            }
        }
        proof {
            self.lemma_view_nodes();
            assert(queue@.take(queue@.len() as int) =~= queue@);
            assert forall|j: int| 0 <= j < n implies #[trigger] self@.nodes[j] == after_sends(start.nodes)[j] by {
                assert(queue@.contains(j as usize) == start.nodes[j].needs_to_send());
            }
            assert(self@.nodes =~= after_sends(start.nodes));
            assert forall|j: int| 0 <= j < n implies {
                &&& #[trigger] self@.nodes[j].history == start.nodes[j].history
                &&& self@.nodes[j].estimate == start.nodes[j].estimate
                &&& self@.nodes[j].time == start.nodes[j].time
                &&& self@.nodes[j].id == start.nodes[j].id
            } by {
                assert(self@.nodes[j] == after_sends(start.nodes)[j]);
            }
            assert(self@.clock() == start.clock());
            assert forall|j: int| 0 <= j < n implies #[trigger] self@.nodes[j].wf() by {
                assert(start.nodes[j].wf());
                assert(self@.nodes[j].history == start.nodes[j].history);
            }
        }
        msgs
    }

    /// Delivers `msg` to the alive neighbours of its sender, in ascending
    /// order.
    fn deliver_one(&mut self, msg: Announcement, Ghost(t): Ghost<usize>)
        requires
            old(self)@.nodes.len() < usize::MAX,
            nodes_wf(old(self)@.nodes, t),
            msg.0 < old(self)@.nodes.len(),
            msg.2 == t,
        ensures
            final(self)@ == (AliveGraphView { nodes: deliver(old(self)@.nodes, msg), ..old(self)@ }),
            final(self)@.nodes.len() == old(self)@.nodes.len(),
            nodes_wf(final(self)@.nodes, t),
            final(self)@.nodes == old(self)@.nodes || graph_weight(final(self)@.nodes, old(self)@.nodes.len() as nat, t)
                < graph_weight(old(self)@.nodes, old(self)@.nodes.len() as nat, t),
    {
        proof {
            self.lemma_view_nodes();
        }
        let ghost start = self@;
        let ghost n = start.nodes.len();
        let neighbors = self.get_neighs(msg.0);
        assert forall|j: int| 0 <= j < neighbors@.len() implies #[trigger] neighbors@[j] < n
            && neighbors@[j] != msg.0 by {
            assert(neighbors@.to_set().contains(neighbors@[j]));
            assert(start.nodes[msg.0 as int].history.dom().contains(neighbors@[j]));
        }
        for j in 0..neighbors.len()
            invariant
                n == self.nodes@.len(),
                n == start.nodes.len(),
                n < usize::MAX,
                msg.0 < n,
                msg.2 == t,
                self@ == (AliveGraphView { nodes: self@.nodes, ..start }),
                neighbors@ == sorted_members(start.nodes[msg.0 as int].alive_neighbors()),
                forall|a: int| 0 <= a < neighbors@.len() ==> #[trigger] neighbors@[a] < n,
                self@.nodes == deliver_to(start.nodes, msg, neighbors@.take(j as int)),
                nodes_wf(self@.nodes, t),
                self@.nodes == start.nodes || graph_weight(self@.nodes, n as nat, t) < graph_weight(start.nodes, n as nat, t),
        {
            proof {
                self.lemma_view_nodes();
            }
            let neigh = neighbors[j];
            let ghost cur = self@.nodes;
            proof {
                assert(neighbors@.take(j + 1).drop_last() =~= neighbors@.take(j as int));
                assert(cur[neigh as int].wf() && cur[neigh as int].time == t);
                assert forall|k: usize| #[trigger] cur[neigh as int].estimate.dom().insert(msg.0).contains(k) implies k < n by {}
                lemma_bounded_set_len(cur[neigh as int].estimate.dom().insert(msg.0), n as usize);
                lemma_receive_weight(cur[neigh as int], msg.0, msg.1, n as nat);
            }
            self.nodes[neigh].receive_msg(msg.0, msg.1, msg.2);
            proof {
                self.lemma_view_nodes();
                let after = cur[neigh as int].after_receive(msg.0, msg.1, t);
                assert(self@.nodes == cur.update(neigh as int, after));
                if after == cur[neigh as int] {
                    assert(self@.nodes =~= cur);
                } else {
                    lemma_sum_update(cur, neigh as int, after, |nv: AliveNodeView<F>| node_weight(nv, n as nat, t));
                }
                assert forall|a: int, k: usize| 0 <= a < n && #[trigger] self@.nodes[a].estimate.dom().contains(k)
                    implies k < n by {
                    if a == neigh {
                        assert(cur[a].estimate.dom().insert(msg.0).contains(k));
                    }
                }
            }
        }
        assert(neighbors@.take(neighbors@.len() as int) =~= neighbors@);
        proof {
            self.lemma_view_nodes();
        }
    }

    /// Delivers the announcements in order.
    fn deliver_round(&mut self, msgs: &Vec<Announcement>, Ghost(t): Ghost<usize>)
        requires
            old(self)@.nodes.len() < usize::MAX,
            nodes_wf(old(self)@.nodes, t),
            forall|j: int| 0 <= j < msgs@.len() ==> #[trigger] msgs@[j].0 < old(self)@.nodes.len() && msgs@[j].2 == t,
        ensures
            final(self)@ == (AliveGraphView { nodes: deliver_all(old(self)@.nodes, msgs@), ..old(self)@ }),
            final(self)@.nodes.len() == old(self)@.nodes.len(),
            nodes_wf(final(self)@.nodes, t),
            final(self)@.nodes == old(self)@.nodes || graph_weight(final(self)@.nodes, old(self)@.nodes.len() as nat, t)
                < graph_weight(old(self)@.nodes, old(self)@.nodes.len() as nat, t),
    {
        let ghost start = self@;
        let ghost n = start.nodes.len();
        proof {
            self.lemma_view_nodes();
        }
        for i in 0..msgs.len()
            invariant
                n == start.nodes.len(),
                n < usize::MAX,
                forall|j: int| 0 <= j < msgs@.len() ==> #[trigger] msgs@[j].0 < n && msgs@[j].2 == t,
                self@ == (AliveGraphView { nodes: self@.nodes, ..start }),
                self@.nodes == deliver_all(start.nodes, msgs@.take(i as int)),
                self@.nodes.len() == n,
                nodes_wf(self@.nodes, t),
                self@.nodes == start.nodes || graph_weight(self@.nodes, n as nat, t) < graph_weight(start.nodes, n as nat, t),
        {
            assert(msgs@.take(i + 1).drop_last() =~= msgs@.take(i as int));
            let m = msgs[i];
            self.deliver_one(m, Ghost(t));
        }
        assert(msgs@.take(msgs@.len() as int) =~= msgs@);
    }

    /// Runs the coreness protocol until no node has a change to announce.
    ///
    /// The nodes are first prepared (see `prepared`); then rounds (see
    /// `round`) are run, at least one, until no node has a change left. At the
    /// end the nodes marked activated are counted and their marks cleared.
    /// Returns the number of rounds, the number of announcements (modulo
    /// 2^64), the announcements of each round, the time each round took, and
    /// the number of activated nodes.
    pub fn montresor_step(&mut self) -> (r: (usize, usize, Vec<usize>, Vec<std::time::Duration>, usize))
        requires
            old(self)@.wf(),
        ensures
            final(self)@.wf(),
            old(self)@.consistent() ==> final(self)@.consistent(),
            quiet(final(self)@.nodes),
            forall|v: int| 0 <= v < final(self)@.nodes.len() && (#[trigger] final(self)@.nodes[v]).id is Some
                ==> crate::announcements::announced_or_kept(
                old(self)@.prepared_nodes(),
                r.0 as nat,
                v,
                final(self)@.nodes[v].coreness,
            ),
            forall|v: int|
                #![trigger old(self)@.nodes[v]]
                0 <= v < old(self)@.nodes.len() && old(self)@.nodes[v].needs_to_send() && old(self)@.nodes[v].degree()
                    > 0 ==> crate::announcements::last_announced(old(self)@.prepared_nodes(), r.0 as nat, v) == Some(
                    final(self)@.nodes[v].coreness,
                ),
            forall|v: int, j: nat|
                #![trigger rounds(old(self)@.prepared_nodes(), j)[v]]
                0 <= v < old(self)@.nodes.len() && j <= r.0 && rounds(old(self)@.prepared_nodes(), j)[v].needs_to_send()
                    ==> crate::announcements::last_announced(old(self)@.prepared_nodes(), r.0 as nat, v) == Some(
                    final(self)@.nodes[v].coreness,
                ),
            quiet(old(self)@.nodes) ==> {
                &&& r.0 == 1
                &&& r.1 == 0
                &&& r.2@ == seq![0usize]
                &&& r.4 == 0
                &&& final(self)@ == old(self)@
            },
            r.0 == r.2@.len(),
            r.0 >= 1,
            r.3@.len() == r.0,
            forall|j: nat| 1 <= j < r.0 ==> has_pending(#[trigger] rounds(old(self)@.prepared_nodes(), j)),
            !has_pending(rounds(old(self)@.prepared_nodes(), r.0 as nat)),
            forall|j: int| 0 <= j < r.0 ==> #[trigger] r.2@[j] == sent_messages(
                rounds(old(self)@.prepared_nodes(), j as nat),
            ).len(),
            r.1 == total(r.2@) as int % (usize::MAX + 1),
            r.4 == count_activated(rounds(old(self)@.prepared_nodes(), r.0 as nat)),
            final(self)@ == (AliveGraphView {
                nodes: deactivated(rounds(old(self)@.prepared_nodes(), r.0 as nat)),
                ..old(self)@
            }),
    {
        proof {
            self.lemma_view_nodes();
        }
        let ghost old_view = self@;
        let ghost t = old_view.clock();
        let ghost n = old_view.nodes.len();
        let count = self.get_n();
        let expected = expected_iterations(count);
        let mut num_of_msgs: usize = 0;
        let mut msgs_per_iteration: Vec<usize> = Vec::with_capacity(expected);
        let mut time_per_iteration: Vec<std::time::Duration> = Vec::with_capacity(expected);
        let mut go_on = true;
        let mut node_queue = self.prepare_rounds();
        let ghost init = self@.nodes;
        assert(init == old_view.prepared_nodes());
        while go_on
            invariant
                n == old_view.nodes.len(),
                n < usize::MAX,
                self@.wf(),
                self@.clock() == t,
                self@ == (AliveGraphView { nodes: self@.nodes, ..old_view }),
                self@.nodes == rounds(init, msgs_per_iteration@.len() as nat),
                self@.nodes.len() == n,
                node_queue@ == pending_queue(self@.nodes),
                go_on == (msgs_per_iteration@.len() == 0 || has_pending(self@.nodes)),
                forall|j: nat| 1 <= j < msgs_per_iteration@.len() ==> has_pending(#[trigger] rounds(init, j)),
                forall|j: int| 0 <= j < msgs_per_iteration@.len() ==> #[trigger] msgs_per_iteration@[j]
                    == sent_messages(rounds(init, j as nat)).len(),
                num_of_msgs == total(msgs_per_iteration@) as int % (usize::MAX + 1),
                time_per_iteration@.len() == msgs_per_iteration@.len(),
            decreases
                graph_weight(self@.nodes, n as nat, t),
                graph_pending(self@.nodes),
                if go_on { 1int } else { 0int },
        {
            let ghost start_nodes = self@.nodes;
            let ghost k = msgs_per_iteration@.len();
            let start = instant_now();
            let msg_queue = self.send_round(&node_queue);
            let ghost sent = self@.nodes;
            proof {
                self.lemma_view_nodes();
                lemma_after_sends(start_nodes, n as nat, t);
                lemma_pending_queue(start_nodes);
            }
            let round_msgs = msg_queue.len();
            proof {
                lemma_wrapping_total(num_of_msgs, total(msgs_per_iteration@) as int, round_msgs);
            }
            num_of_msgs = num_of_msgs.wrapping_add(round_msgs);
            let ghost before = msgs_per_iteration@;
            msgs_per_iteration.push(round_msgs);
            proof {
                assert(msgs_per_iteration@.drop_last() =~= before);
                assert(total(msgs_per_iteration@) == total(msgs_per_iteration@.drop_last()) + round_msgs);
            }
            self.deliver_round(&msg_queue, Ghost(t));
            proof {
                self.lemma_view_nodes();
                assert(n > 0 ==> self@.nodes[0].time == t);
                assert(self@.clock() == t);
            }
            node_queue = self.collect_pending();
            proof {
                lemma_pending_queue(self@.nodes);
            }
            go_on = node_queue.len() > 0;
            let elapsed = instant_elapsed(&start);
            time_per_iteration.push(elapsed);
        }
        let mut activated_nodes: usize = 0;
        let ghost fin = self@.nodes;
        proof {
            self.lemma_view_nodes();
        }
        assert(nodes_wf(fin, t));
        let len = self.nodes.len();
        for i in 0..len
            invariant
                n == self.nodes@.len(),
                len == n,
                fin.len() == n,
                self@ == (AliveGraphView { nodes: self@.nodes, ..old_view }),
                forall|j: int| 0 <= j < i ==> #[trigger] self@.nodes[j] == (AliveNodeView { activated: false, ..fin[j] }),
                forall|j: int| i <= j < n ==> #[trigger] self@.nodes[j] == fin[j],
                activated_nodes == count_activated(fin.take(i as int)),
                activated_nodes <= i,
        {
            proof {
                self.lemma_view_nodes();
                assert(fin.take(i + 1).drop_last() =~= fin.take(i as int));
            }
            if self.nodes[i].take_activated() {
                activated_nodes = activated_nodes + 1;
            }
            proof {
                self.lemma_view_nodes();
            }
        }
        proof {
            self.lemma_view_nodes();
            assert(fin.take(n as int) =~= fin);
            assert(self@.nodes =~= deactivated(fin));
            assert forall|j: int| 0 <= j < n implies {
                &&& #[trigger] self@.nodes[j].history == fin[j].history
                &&& self@.nodes[j].estimate == fin[j].estimate
                &&& self@.nodes[j].time == fin[j].time
                &&& self@.nodes[j].id == fin[j].id
            } by {
                assert(self@.nodes[j] == deactivated(fin)[j]);
            }
            assert(n > 0 ==> self@.nodes[0].time == t);
            assert forall|j: int| 0 <= j < n implies #[trigger] self@.nodes[j].wf() by {
                assert(fin[j].wf());
                assert(self@.nodes[j].history == fin[j].history);
            }
            if old_view.consistent() {
                crate::coreness_bounds::lemma_step_keeps_consistency(old_view, msgs_per_iteration@.len() as nat);
                crate::laws::lemma_step_keeps_symmetry(old_view, msgs_per_iteration@.len() as nat);
                crate::alive_estimates::lemma_step_keeps_estimates_alive(old_view, msgs_per_iteration@.len() as nat);
            }
            assert(quiet(self@.nodes)) by {
                assert forall|i: int| 0 <= i < self@.nodes.len() && #[trigger] self@.nodes[i].needs_to_send()
                    implies false by {
                    assert(fin[i].needs_to_send());
                }
            }
            assert(crate::laws::well_shaped(init)) by {
                assert(crate::laws::same_graph(init, old_view.nodes));
                assert(crate::laws::well_shaped(old_view.nodes));
                crate::laws::lemma_same_graph_shape(init, old_view.nodes);
            }
            crate::announcements::lemma_rounds_announce_final_coreness(init, msgs_per_iteration@.len() as nat);
            crate::announcements::lemma_pending_nodes_announce_final_coreness(init, msgs_per_iteration@.len() as nat);
            assert forall|v: int|
                #![trigger old_view.nodes[v]]
                0 <= v < old_view.nodes.len() && old_view.nodes[v].needs_to_send() && old_view.nodes[v].degree() > 0
                    implies crate::announcements::last_announced(init, msgs_per_iteration@.len() as nat, v) == Some(
                    self@.nodes[v].coreness,
                ) by {
                assert(rounds(init, 0) == init);
                assert(init[v] == prepared(old_view.nodes[v]));
                assert(rounds(init, 0)[v].needs_to_send());
                assert(self@.nodes[v] == deactivated(fin)[v]);
            }
            assert forall|v: int, j: nat|
                #![trigger rounds(init, j)[v]]
                0 <= v < old_view.nodes.len() && j <= msgs_per_iteration@.len() && rounds(init, j)[v].needs_to_send()
                    implies crate::announcements::last_announced(init, msgs_per_iteration@.len() as nat, v) == Some(
                    self@.nodes[v].coreness,
                ) by {
                assert(self@.nodes[v] == deactivated(fin)[v]);
            }
            assert forall|v: int| 0 <= v < self@.nodes.len() && (#[trigger] self@.nodes[v]).id is Some
                implies crate::announcements::announced_or_kept(init, msgs_per_iteration@.len() as nat, v,
                self@.nodes[v].coreness) by {
                assert(self@.nodes[v] == deactivated(fin)[v]);
            }
            if quiet(old_view.nodes) {
                crate::laws::lemma_quiet_step(old_view.nodes);
                assert(init == old_view.nodes);
                let k = msgs_per_iteration@.len();
                if k >= 2 {
                    assert(has_pending(rounds(init, 1)));
                }
                assert(k == 1);
                assert(msgs_per_iteration@[0] == sent_messages(rounds(init, 0)).len());
                assert(msgs_per_iteration@ =~= seq![0usize]);
                assert(total(msgs_per_iteration@) == total(msgs_per_iteration@.drop_last()) + 0);
                assert(fin == old_view.nodes);
                assert(self@.nodes =~= old_view.nodes);
            }
        }
        (msgs_per_iteration.len(), num_of_msgs, msgs_per_iteration, time_per_iteration, activated_nodes)
    }

    /// Adds the edge `(u, v)` to the current snapshot, giving the endpoints
    /// their identifiers if they had none.
    #[verifier::rlimit(40)]
    fn insert_edge(&mut self, u: usize, v: usize, Ghost(t): Ghost<usize>)
        requires
            nodes_wf(old(self)@.nodes, t),
            1 <= t,
            u < old(self)@.nodes.len(),
            v < old(self)@.nodes.len(),
            u != v,
        ensures
            final(self)@ == (AliveGraphView { nodes: add_edge(old(self)@.nodes, u, v), ..old(self)@ }),
            nodes_wf(final(self)@.nodes, t),
    {
        proof {
            self.lemma_view_nodes();
        }
        let ghost cur = self@.nodes;
        assert(cur[u as int].wf() && cur[v as int].wf());
        assert(cur[u as int].time == t && cur[v as int].time == t);
        if self.nodes[u].get_id().is_none() {
            self.nodes[u].set_id(u);
        }
        if self.nodes[v].get_id().is_none() {
            self.nodes[v].set_id(v);
        }
        proof {
            self.lemma_view_nodes();
            assert(self@.nodes[u as int].history == cur[u as int].history);
            assert(self@.nodes[v as int].history == cur[v as int].history);
        }
        self.nodes[u].add_neighbor_latest_time(v);
        proof {
            self.lemma_view_nodes();
        }
        self.nodes[v].add_neighbor_latest_time(u);
        proof {
            self.lemma_view_nodes();
            assert(self@.nodes =~= add_edge(cur, u, v));
            lemma_add_edge_wf(cur, u, v, t);
        }
    }

    /// Adds a snapshot: every node advances its clock, the edges of `list`
    /// are added in order (giving identifiers to nodes that had none), and
    /// every node resets.
    pub fn new_snapshot(&mut self, list: &Vec<(usize, usize)>)
        requires
            old(self)@.wf(),
            old(self)@.accepts_snapshot(list@),
        ensures
            final(self)@ == old(self)@.after_snapshot(list@),
            final(self)@.wf(),
            old(self)@.consistent() ==> final(self)@.consistent(),
    {
        let ghost old_view = self@;
        let n = self.nodes.len();
        let ghost t = old_view.clock();
        for i in 0..n
            invariant
                n == self.nodes@.len(),
                self@.edges == old_view.edges,
                self@.memory_size == old_view.memory_size,
                self@.activation == old_view.activation,
                old_view.wf(),
                t == old_view.clock(),
                t < BITVEC_MAX_BITS,
                n == old_view.nodes.len(),
                forall|j: int| 0 <= j < i ==> #[trigger] self@.nodes[j] == old_view.nodes[j].advanced(),
                forall|j: int| 0 <= j < i ==> #[trigger] self@.nodes[j].wf(),
                forall|j: int| i <= j < n ==> #[trigger] self@.nodes[j] == old_view.nodes[j],
        {
            proof {
                self.lemma_view_nodes();
            }
            assert(old_view.nodes[i as int].wf() && old_view.nodes[i as int].time == t);
            self.nodes[i].advance_time();
            proof {
                self.lemma_view_nodes();
            }
        }
        proof {
            self.lemma_view_nodes();
        }
        let ghost advanced = self@.nodes;
        assert(advanced =~= old_view.nodes.map_values(|nd: AliveNodeView<F>| nd.advanced()));
        for j in 0..list.len()
            invariant
                n == self.nodes@.len(),
                n == old_view.nodes.len(),
                n < usize::MAX,
                self@.edges == old_view.edges + j,
                old_view.edges + list@.len() <= usize::MAX,
                self@.memory_size == old_view.memory_size,
                self@.activation == old_view.activation,
                advanced == old_view.nodes.map_values(|nd: AliveNodeView<F>| nd.advanced()),
                self@.nodes == add_edges(advanced, list@.take(j as int)),
                forall|e: int| 0 <= e < list@.len() ==> #[trigger] list@[e].0 < n
                    && list@[e].1 < n && list@[e].0 != list@[e].1,
                nodes_wf(self@.nodes, (t + 1) as usize),
                t < BITVEC_MAX_BITS,
        {
            let (u, v) = list[j];
            assert(list@.take(j + 1).drop_last() =~= list@.take(j as int));
            self.insert_edge(u, v, Ghost((t + 1) as usize));
            self.edges = self.edges + 1;
            proof {
                self.lemma_view_nodes();
            }
        }
        assert(list@.take(list@.len() as int) =~= list@);
        let ghost added = self@.nodes;
        for i in 0..n
            invariant
                n == self.nodes@.len(),
                n < usize::MAX,
                self@.edges == old_view.edges + list@.len(),
                self@.memory_size == old_view.memory_size,
                self@.activation == old_view.activation,
                forall|a: int| 0 <= a < n ==> #[trigger] added[a].wf(),
                forall|a: int, k: usize| 0 <= a < n && #[trigger] added[a].estimate.dom().contains(k)
                    ==> k < n,
                forall|a: int| 0 <= a < n ==> #[trigger] added[a].time == t + 1,
                forall|a: int| 0 <= a < n ==> (#[trigger] added[a].id is None || added[a].id == Some(a as usize)),
                forall|a: int, k: usize| 0 <= a < n && #[trigger] added[a].history.dom().contains(k)
                    ==> k < n && k != a,
                added.len() == n,
                forall|a: int| 0 <= a < i ==> #[trigger] self@.nodes[a].wf(),
                forall|a: int| 0 <= a < i ==> #[trigger] self@.nodes[a] == added[a].after_reset(),
                forall|a: int| i <= a < n ==> #[trigger] self@.nodes[a] == added[a],
        {
            proof {
                self.lemma_view_nodes();
                lemma_bounded_set_len(added[i as int].estimate.dom(), n);
            }
            self.nodes[i].reset();
            proof {
                self.lemma_view_nodes();
            }
        }
        assert(self@.nodes =~= added.map_values(|nd: AliveNodeView<F>| nd.after_reset()));
        proof {
            if old_view.consistent() {
                crate::coreness_bounds::lemma_snapshot_keeps_consistency(old_view, list@);
                crate::laws::lemma_snapshot_keeps_symmetry(old_view, list@);
                crate::alive_estimates::lemma_snapshot_keeps_estimates_alive(old_view, list@);
            }
        }
    }

    /// One snapshot of the schedule: the snapshot `list` is added; then,
    /// once at least `history_size` snapshots are in (`seen` counts them,
    /// this one included), the coreness protocol runs and the nodes are
    /// grouped by coreness. Returns the statistics of the run (see
    /// `montresor_step`) and the groups, or `None` while the memory is still
    /// filling up.
    pub fn schedule_snapshot(&mut self, list: &Vec<(usize, usize)>, seen: usize, history_size: usize) -> (r: Option<
        ((usize, usize, Vec<usize>, Vec<std::time::Duration>, usize), Vec<Vec<usize>>),
    >)
        requires
            old(self)@.consistent(),
            old(self)@.accepts_snapshot(list@),
        ensures
            final(self)@.consistent(),
            seen < history_size ==> r is None && final(self)@ == old(self)@.after_snapshot(list@),
            seen >= history_size ==> r is Some && step_outcome(
                old(self)@.after_snapshot(list@),
                final(self)@,
                (r->0).0.0,
                (r->0).0.1,
                (r->0).0.2@,
                (r->0).0.3@.len(),
                (r->0).0.4,
            ),
            seen >= history_size ==> r is Some && (r->0).1@.len() == core_levels(
                final(self)@.nodes,
                count_identified(final(self)@.nodes),
            ),
            seen >= history_size ==> r is Some && forall|c: int| 0 <= c < (r->0).1@.len() ==> #[trigger] (r->0).1@[c]@
                == core_members(final(self)@.nodes, c as usize),
    {
        self.new_snapshot(list);
        if seen < history_size {
            return None;
        }
        let stats = self.montresor_step();
        let cores = self.k_core_from_coreness();
        Some((stats, cores))
    }
}

} // verus!
