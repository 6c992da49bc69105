//! A variant of the coreness protocol on the alive graph in which a node
//! broadcasts its coreness as a message to its alive neighbours as soon as it
//! is its turn, and neighbours react at once.

use vstd::prelude::*;
use std::collections::HashMap;

use crate::activation::{Activation, BitHistory, history_bits, recent_window, BITVEC_MAX_BITS, bitvec_len, bitvec_suffix, bitvec_push, bitvec_set, bitvec_repeat};
use crate::coreness::{coreness_from, estimate_h_index, map_keys};
use crate::dynamic_montresor::{fresh_history, lemma_bounded_set_len};
use crate::alive_rounds::estimate_weight;
use crate::measure::{sum_of, lemma_sum_update, lemma_sum_pointwise};
use crate::sorting::{sort_ids, lemma_sorted_distinct, strictly_ascending};

verus! {

broadcast use {vstd::std_specs::hash::group_hash_axioms, vstd::seq_lib::group_seq_properties};

/// A message as the contracts see it.
pub struct MessageView<T> {
    /// The kind of message: 0 for a coreness update, 1 for a degree update,
    /// 2 for an answer.
    pub mtype: u8,
    /// The sender.
    pub from: T,
    /// The receiver (meaningless for a broadcast).
    pub to: T,
    /// The coreness carried, if any.
    pub core: Option<usize>,
    /// The degree carried, if any.
    pub degree: Option<usize>,
    /// Whether the message asks for a reset.
    pub reset: bool,
    /// The sender's time.
    pub time: usize,
    /// Whether the message goes to all the sender's alive neighbours.
    pub broadcast: bool,
}

/// A message between nodes.
#[derive(Debug)]
pub struct Message<T> {
    mtype: u8,
    from: T,
    to: T,
    core: Option<usize>,
    degree: Option<usize>,
    reset: bool,
    time: usize,
    broadcast: bool,
}

impl<T> View for Message<T> {
    type V = MessageView<T>;

    closed spec fn view(&self) -> MessageView<T> {
        MessageView {
            mtype: self.mtype,
            from: self.from,
            to: self.to,
            core: self.core,
            degree: self.degree,
            reset: self.reset,
            time: self.time,
            broadcast: self.broadcast,
        }
    }
}

impl<T> Message<T> {
    /// A coreness update from `from` to `to`.
    pub fn build_coreness_msg(from: T, to: T, core: usize, t: usize) -> (r: Self)
        ensures
            r@ == (MessageView {
                mtype: 0,
                from,
                to,
                core: Some(core),
                degree: None,
                reset: false,
                time: t,
                broadcast: false,
            }),
    {
        Message { mtype: 0, from, to, core: Some(core), degree: None, reset: false, time: t, broadcast: false }
    }

    /// A degree update from `from`, sent to all its neighbours.
    pub fn build_degree_msg(from: T, to: T, deg: usize, t: usize) -> (r: Self)
        ensures
            r@ == (MessageView {
                mtype: 1,
                from,
                to,
                core: None,
                degree: Some(deg),
                reset: false,
                time: t,
                broadcast: true,
            }),
    {
        Message { mtype: 1, from, to, core: None, degree: Some(deg), reset: false, time: t, broadcast: true }
    }

    /// An answer from `from` carrying a coreness, sent to all its neighbours.
    pub fn build_answer(from: T, to: T, core: usize, t: usize) -> (r: Self)
        ensures
            r@ == (MessageView {
                mtype: 2,
                from,
                to,
                core: Some(core),
                degree: None,
                reset: false,
                time: t,
                broadcast: true,
            }),
    {
        Message { mtype: 2, from, to, core: Some(core), degree: None, reset: false, time: t, broadcast: true }
    }

    /// Marks the message as a reset request.
    pub fn set_reset(&mut self)
        ensures
            final(self)@ == (MessageView { reset: true, ..old(self)@ }),
    {
        self.reset = true;
    }

    /// Whether the message is a reset request.
    pub fn is_reset(&self) -> (r: bool)
        ensures
            r == self@.reset,
    {
        self.reset
    }

    /// Makes the message go to all the sender's alive neighbours.
    pub fn set_broadcast(&mut self)
        ensures
            final(self)@ == (MessageView { broadcast: true, ..old(self)@ }),
    {
        self.broadcast = true;
    }

    /// Makes the message go to its receiver only.
    pub fn unset_broadcast(&mut self)
        ensures
            final(self)@ == (MessageView { broadcast: false, ..old(self)@ }),
    {
        self.broadcast = false;
    }
}

/// A node of the broadcasting protocol as the contracts see it.
pub struct DynamicNodeView<F> {
    /// The node's identifier, `None` while the node has not appeared in any edge.
    pub id: Option<usize>,
    /// For every neighbour ever seen, one bit per snapshot (oldest first).
    pub history: Map<usize, Seq<bool>>,
    /// How many recent snapshots the activation function looks at.
    pub memory_size: usize,
    /// Whether the coreness changed since the node last announced it.
    pub changed: bool,
    /// The node's coreness estimate (`usize::MAX` while unknown).
    pub coreness: usize,
    /// Scratch counters, kept one longer than the number of estimates.
    pub count: Seq<usize>,
    /// For each neighbour, its coreness estimate and the time it was received.
    pub estimate: Map<usize, (usize, usize)>,
    /// The activation function.
    pub activation: F,
    /// The number of snapshots seen.
    pub time: usize,
    /// Whether the node sent or changed something since the last count.
    pub activated: bool,
    /// Whether a new alive neighbour appeared since the last reset.
    pub dirty: bool,
    /// Kept for symmetry with the pausing protocol; never set.
    pub paused: bool,
    /// The time of the last announcement.
    pub last_sent: usize,
}

impl<F: Activation> DynamicNodeView<F> {
    /// The neighbours that the activation function keeps, judged on the last
    /// `memory_size` bits of their history.
    pub open spec fn alive_neighbors(self) -> Set<usize> {
        self.history.dom().filter(
            |k: usize| self.activation.active(recent_window(self.history[k], self.memory_size)),
        )
    }

    /// The number of alive neighbours.
    pub open spec fn degree(self) -> nat {
        self.alive_neighbors().len()
    }

    /// Every history holds one bit per snapshot seen.
    pub open spec fn wf(self) -> bool {
        &&& self.history.dom().finite()
        &&& self.estimate.dom().finite()
        &&& self.time <= BITVEC_MAX_BITS
        &&& forall|k: usize| #[trigger] self.history.dom().contains(k) ==> self.history[k].len() == self.time
    }

    /// The coreness as reported to others: unknown while the node has no id.
    pub open spec fn reported_coreness(self) -> usize {
        if self.id is None { usize::MAX } else { self.coreness }
    }

    /// Whether the node has a change to announce.
    pub open spec fn needs_to_send(self) -> bool {
        self.id is Some && self.changed
    }

    /// A new snapshot begins: every history gets an absent bit.
    pub open spec fn advanced(self) -> Self {
        DynamicNodeView {
            time: (self.time + 1) as usize,
            history: self.history.map_values(|b: Seq<bool>| b.push(false)),
            ..self
        }
    }

    /// The edge to `neighbor` is present in the current snapshot. A neighbour
    /// that thereby becomes alive without having an estimate gets an unknown
    /// one, and the node becomes dirty.
    pub open spec fn with_edge_to(self, neighbor: usize) -> Self {
        let bits = if self.history.dom().contains(neighbor) {
            self.history[neighbor].update(self.time - 1, true)
        } else {
            fresh_history(self.time)
        };
        let inserted = self.activation.active(recent_window(bits, self.memory_size))
            && !self.estimate.dom().contains(neighbor);
        DynamicNodeView {
            history: self.history.insert(neighbor, bits),
            estimate: if inserted {
                self.estimate.insert(neighbor, (usize::MAX, self.time))
            } else {
                self.estimate
            },
            dirty: self.dirty || inserted,
            ..self
        }
    }

    /// The coreness the node computes from its estimates.
    pub open spec fn computed_coreness(self) -> usize {
        coreness_from(self.estimate, self.coreness, self.degree() as usize)
    }

    /// Whether a message from `from` with coreness `core` stamped `timestamp`
    /// replaces the estimate held for `from`: when there is none, when the
    /// message is newer, or when it is as recent and lower.
    pub open spec fn accepts(self, from: usize, core: usize, timestamp: usize) -> bool {
        !self.estimate.dom().contains(from) || timestamp > self.estimate[from].1
            || (timestamp == self.estimate[from].1 && core < self.estimate[from].0)
    }

    /// The node receives the coreness `core` of `from`, stamped `timestamp`.
    pub open spec fn after_receive(self, from: usize, core: usize, timestamp: usize) -> Self {
        if !self.accepts(from, core, timestamp) {
            self
        } else {
            let updated = DynamicNodeView { estimate: self.estimate.insert(from, (core, timestamp)), ..self };
            let t = updated.computed_coreness();
            if t != self.coreness {
                DynamicNodeView { coreness: t, changed: true, activated: true, ..updated }
            } else {
                updated
            }
        }
    }

    /// The node's state after it was asked to announce its coreness: a node
    /// with a change announces it.
    pub open spec fn after_send(self) -> Self {
        if self.id is Some && self.changed {
            DynamicNodeView { changed: false, activated: true, last_sent: self.time, ..self }
        } else {
            self
        }
    }

    /// The broadcast the node makes when asked.
    pub open spec fn message(self) -> Option<MessageView<usize>> {
        if self.id is Some && self.changed {
            Some(MessageView {
                mtype: 0,
                from: self.id->0,
                to: 0,
                core: Some(self.coreness),
                degree: None,
                reset: false,
                time: self.time,
                broadcast: true,
            })
        } else {
            None
        }
    }
}

/// A node of the broadcasting protocol.
pub struct DynamicNode<F: Activation> {
    id: Option<usize>,
    neighbors: HashMap<usize, BitHistory>,
    memory_size: usize,
    changed: bool,
    coreness: usize,
    count: Vec<usize>,
    estimate: HashMap<usize, (usize, usize)>,
    activation_function: F,
    time: usize,
    activated: bool,
    dirty: bool,
    paused: bool,
    last_sent: usize,
}

impl<F: Activation> View for DynamicNode<F> {
    type V = DynamicNodeView<F>;

    closed spec fn view(&self) -> DynamicNodeView<F> {
        DynamicNodeView {
            id: self.id,
            history: self.neighbors@.map_values(|b: BitHistory| history_bits(b)),
            memory_size: self.memory_size,
            changed: self.changed,
            coreness: self.coreness,
            count: self.count@,
            estimate: self.estimate@,
            activation: self.activation_function,
            time: self.time,
            activated: self.activated,
            dirty: self.dirty,
            paused: self.paused,
            last_sent: self.last_sent,
        }
    }
}

impl<F: Activation> Clone for DynamicNode<F> {
    /// A copy of the node.
    fn clone(&self) -> (r: Self)
        ensures
            r@ == self@,
    {
        let r = DynamicNode {
            id: self.id,
            neighbors: self.neighbors.clone(),
            memory_size: self.memory_size,
            changed: self.changed,
            coreness: self.coreness,
            count: self.count.clone(),
            estimate: self.estimate.clone(),
            activation_function: self.activation_function,
            time: self.time,
            activated: self.activated,
            dirty: self.dirty,
            paused: self.paused,
            last_sent: self.last_sent,
        };
        assert(r.count@ =~= self.count@);
        r
    }
}

impl<F: Activation> DynamicNode<F> {
    proof fn lemma_view_doms(&self)
        ensures
            self@.history.dom() == self.neighbors@.dom(),
            self@.history.dom().finite(),
            self@.estimate.dom().finite(),
            forall|k: usize| #[trigger] self.neighbors@.dom().contains(k)
                ==> self@.history[k] == history_bits(self.neighbors@[k]),
    {
        assert(self@.history.dom() =~= self.neighbors@.dom());
    }

    /// A node with no neighbours, no estimates and an unknown coreness.
    pub fn new(nid: Option<usize>, memory_size: usize, af: F) -> (r: Self)
        ensures
            r@ == (DynamicNodeView {
                id: nid,
                history: Map::<usize, Seq<bool>>::empty(),
                memory_size,
                changed: false,
                coreness: usize::MAX,
                count: Seq::<usize>::empty(),
                estimate: Map::<usize, (usize, usize)>::empty(),
                activation: af,
                time: 0,
                activated: false,
                dirty: false,
                paused: false,
                last_sent: 0,
            }),
            r@.wf(),
    {
        let r = DynamicNode {
            id: nid,
            neighbors: HashMap::new(),
            changed: false,
            coreness: usize::MAX,
            estimate: HashMap::new(),
            count: Vec::new(),
            memory_size,
            activation_function: af,
            time: 0,
            activated: false,
            paused: false,
            dirty: false,
            last_sent: 0,
        };
        proof {
            r.lemma_view_doms();
            assert(r@.history =~= Map::<usize, Seq<bool>>::empty());
        }
        r
    }

    /// The node's identifier.
    pub fn get_id(&self) -> (r: Option<usize>)
        ensures
            r == self@.id,
    {
        self.id
    }

    /// Gives the node its identifier.
    pub fn set_id(&mut self, id: usize)
        ensures
            final(self)@ == (DynamicNodeView { id: Some(id), ..old(self)@ }),
    {
        self.id = Some(id);
    }

    /// Replaces the activation function.
    pub fn change_activation_function(&mut self, f: F)
        ensures
            final(self)@ == (DynamicNodeView { activation: f, ..old(self)@ }),
    {
        self.activation_function = f;
    }

    /// The number of alive neighbours.
    pub fn deg(&self) -> (r: usize)
        ensures
            r == self@.degree(),
    {
        let n = self.neighs();
        proof {
            n@.unique_seq_to_set();
        }
        n.len()
    }

    /// The coreness, or `usize::MAX` while the node has no identifier.
    pub fn get_coreness(&self) -> (r: usize)
        ensures
            r == self@.reported_coreness(),
    {
        if self.get_id().is_none() {
            return usize::MAX;
        }
        self.coreness
    }

    /// Whether the activation function keeps a neighbour with history `who`.
    fn window_alive(&self, who: &BitHistory) -> (r: bool)
        ensures
            r == self@.activation.active(recent_window(history_bits(*who), self@.memory_size)),
    {
        let len = bitvec_len(who);
        let start = if len >= self.memory_size { len - self.memory_size } else { 0 };
        let window = bitvec_suffix(who, start);
        proof {
            if len < self.memory_size {
                assert(history_bits(window) =~= history_bits(*who));
            }
        }
        self.activation_function.apply(&window)
    }

    /// The alive neighbours, each once, in the order the history map is walked.
    pub fn neighs(&self) -> (r: Vec<usize>)
        ensures
            r@.no_duplicates(),
            r@.to_set() == self@.alive_neighbors(),
    {
        proof {
            self.lemma_view_doms();
        }
        let keys = map_keys(&self.neighbors);
        let ghost alive = self@.alive_neighbors();
        let mut r: Vec<usize> = Vec::new();
        for i in 0..keys.len()
            invariant
                keys@.no_duplicates(),
                keys@.to_set() == self.neighbors@.dom(),
                self@.history.dom() == self.neighbors@.dom(),
                alive == self@.alive_neighbors(),
                r@.no_duplicates(),
                forall|x: usize| #![trigger r@.contains(x)] r@.contains(x) <==> (keys@.take(i as int).contains(x) && alive.contains(x)),
        {
            let k = keys[i];
            assert(keys@.to_set().contains(k));
            let b = self.neighbors.get(&k).unwrap();
            assert(r@.contains(k) ==> keys@.take(i as int).contains(k));
            assert(!keys@.take(i as int).contains(k)) by {
                if keys@.take(i as int).contains(k) {
                    let j = choose|j: int| 0 <= j < i && keys@.take(i as int)[j] == k;
                    assert(keys@[j] == keys@[i as int]);
                }
            }
            let keep = self.window_alive(b);
            proof {
                self.lemma_view_doms();
                assert(self@.history[k] == history_bits(*b));
                assert(keep == alive.contains(k));
            }
            let ghost prev = r@;
            if keep {
                r.push(k);
            }
            assert forall|x: usize| #![trigger r@.contains(x)] r@.contains(x) <==> (keys@.take(i + 1).contains(x) && alive.contains(x)) by {
                assert(keys@.take(i + 1) =~= keys@.take(i as int).push(k));
                if keep {
                    assert(r@ == prev.push(k));
                    assert(r@.contains(x) <==> (prev.contains(x) || x == k));
                } else {
                    assert(r@ == prev);
                }
            }
        }
        assert(keys@.take(keys@.len() as int) =~= keys@);
        assert forall|x: usize| #[trigger] alive.contains(x) implies r@.to_set().contains(x) by {
            assert(keys@.to_set().contains(x));
        }
        assert(r@.to_set() =~= alive);
        r
    }

    /// A new snapshot begins: every history gets an absent bit.
    pub fn advance_time(&mut self)
        requires
            old(self)@.wf(),
            old(self)@.time < BITVEC_MAX_BITS,
        ensures
            final(self)@ == old(self)@.advanced(),
            final(self)@.wf(),
    {
        proof {
            self.lemma_view_doms();
        }
        let ghost old_view = self@;
        let ghost old_n = self.neighbors@;
        self.time = self.time + 1;
        let mut neighbors: HashMap<usize, BitHistory> = HashMap::new();
        std::mem::swap(&mut neighbors, &mut self.neighbors);
        let keys = map_keys(&neighbors);
        for i in 0..keys.len()
            invariant
                keys@.no_duplicates(),
                keys@.to_set() == old_n.dom(),
                neighbors@.dom() == old_n.dom(),
                old_view.wf(),
                old_view.time < BITVEC_MAX_BITS,
                old_view.history.dom() == old_n.dom(),
                forall|k: usize| #[trigger] old_n.dom().contains(k)
                    ==> old_view.history[k] == history_bits(old_n[k]),
                forall|k: usize| #[trigger] neighbors@.dom().contains(k) ==> history_bits(neighbors@[k])
                    == if keys@.take(i as int).contains(k) {
                        history_bits(old_n[k]).push(false)
                    } else {
                        history_bits(old_n[k])
                    },
        {
            let k = keys[i];
            assert(keys@.to_set().contains(k));
            assert(!keys@.take(i as int).contains(k)) by {
                if keys@.take(i as int).contains(k) {
                    let j = choose|j: int| 0 <= j < i && keys@.take(i as int)[j] == k;
                    assert(keys@[j] == keys@[i as int]);
                }
            }
            let ghost before = neighbors@;
            let mut b = neighbors.remove(&k).unwrap();
            assert(history_bits(b).len() == old_view.time);
            bitvec_push(&mut b, false);
            neighbors.insert(k, b);
            assert(keys@.take(i + 1) =~= keys@.take(i as int).push(k));
            assert forall|x: usize| #[trigger] neighbors@.dom().contains(x) implies history_bits(neighbors@[x])
                == if keys@.take(i + 1).contains(x) {
                    history_bits(old_n[x]).push(false)
                } else {
                    history_bits(old_n[x])
                } by {
                if x != k {
                    assert(before.dom().contains(x));
                }
            }
        }
        assert(keys@.take(keys@.len() as int) =~= keys@);
        self.neighbors = neighbors;
        proof {
            self.lemma_view_doms();
            assert forall|k: usize| #[trigger] self.neighbors@.dom().contains(k)
                implies keys@.take(keys@.len() as int).contains(k) by {
                assert(keys@.to_set().contains(k));
            }
            assert(self@.history =~= old_view.history.map_values(|b: Seq<bool>| b.push(false)));
        }
    }

    /// The edge to `neighbor` is present in the current snapshot.
    pub fn add_neighbor_latest_time(&mut self, neighbor: usize)
        requires
            old(self)@.wf(),
            old(self)@.time >= 1,
        ensures
            final(self)@ == old(self)@.with_edge_to(neighbor),
            final(self)@.wf(),
    {
        proof {
            self.lemma_view_doms();
        }
        let ghost old_view = self@;
        let time = self.time;
        let bitv = match self.neighbors.remove(&neighbor) {
            Some(b) => {
                let mut b = b;
                let len = bitvec_len(&b);
                bitvec_set(&mut b, len - 1, true);
                b
            },
            None => {
                let mut b = bitvec_repeat(false, time);
                bitvec_set(&mut b, time - 1, true);
                assert(history_bits(b) =~= fresh_history(time));
                b
            },
        };
        if self.window_alive(&bitv) {
            if !self.estimate.contains_key(&neighbor) {
                self.dirty = true;
                self.estimate.insert(neighbor, (usize::MAX, time));
            }
        }
        self.neighbors.insert(neighbor, bitv);
        proof {
            self.lemma_view_doms();
            assert(self@.history =~= old_view.history.insert(neighbor, history_bits(bitv)));
        }
    }

    /// The coreness computed from the estimates; the node does not change.
    pub fn compute_coreness(&mut self) -> (r: usize)
        requires
            old(self)@.estimate.dom().len() < usize::MAX,
        ensures
            *final(self) == *old(self),
            r == old(self)@.computed_coreness(),
    {
        match estimate_h_index(&self.estimate) {
            Some(h) => h,
            None => {
                let d = self.deg();
                if self.coreness <= d {
                    self.coreness
                } else {
                    d
                }
            },
        }
    }

    /// End of a snapshot: nothing to do in this protocol.
    pub fn reset(&mut self)
        ensures
            *final(self) == *old(self),
    {
    }

    /// Whether the node has a change to announce.
    pub fn needs_to_send(&self) -> (r: bool)
        ensures
            r == self@.needs_to_send(),
    {
        if self.id.is_some() {
            return self.changed;
        }
        false
    }

    /// Asks the node to announce its coreness: a node with a change
    /// broadcasts (coreness, time) to its alive neighbours.
    pub fn send_msg(&mut self) -> (r: Option<Message<usize>>)
        ensures
            final(self)@ == old(self)@.after_send(),
            r matches Some(m) ==> old(self)@.message() == Some(m@),
            r is None ==> old(self)@.message() is None,
    {
        if self.id.is_none() {
            return None;
        }
        if self.changed {
            self.changed = false;
            self.activated = true;
            self.last_sent = self.time;
            let mut to_send = Message::build_coreness_msg(self.id.unwrap(), 0, self.coreness, self.time);
            to_send.set_broadcast();
            return Some(to_send);
        }
        None
    }

    /// The node receives `msg`, a coreness from a neighbour, and recomputes
    /// its own coreness if it takes the estimate. It never answers.
    pub fn receive_msg(&mut self, msg: &Message<usize>) -> (r: Option<Message<usize>>)
        requires
            msg@.core is Some,
            old(self)@.estimate.dom().insert(msg@.from).len() < usize::MAX,
        ensures
            final(self)@ == old(self)@.after_receive(msg@.from, msg@.core->0, msg@.time),
            r is None,
    {
        proof {
            self.lemma_view_doms();
        }
        let ghost old_view = self@;
        let mut overwrite = false;
        let core = msg.core.unwrap();
        match self.estimate.get(&msg.from) {
            Some(est) => {
                let est = *est;
                if (core < est.0 && est.1 == msg.time) || (core > est.0 && est.1 < msg.time) || msg.time > est.1 {
                    overwrite = true;
                }
            },
            None => overwrite = true,
        }
        if overwrite {
            self.estimate.insert(msg.from, (core, msg.time));
            proof {
                self.lemma_view_doms();
                assert(self@ == (DynamicNodeView {
                    estimate: old_view.estimate.insert(msg@.from, (core, msg@.time)),
                    ..old_view
                }));
                assert(self@.estimate.dom() =~= old_view.estimate.dom().insert(msg@.from));
            }
            let t = self.compute_coreness();
            if t != self.coreness {
                self.coreness = t;
                self.changed = true;
                self.activated = true;
            }
        }
        None
    }
} // impl

/// The graph of the broadcasting protocol as the contracts see it.
pub struct DynamicGraphView<F> {
    /// The nodes, the node with identifier `i` at index `i`.
    pub nodes: Seq<DynamicNodeView<F>>,
    /// The number of edges added so far.
    pub edges: usize,
    /// How many recent snapshots the activation function looks at.
    pub memory_size: usize,
    /// The activation function given to new nodes.
    pub activation: F,
}

/// The node with an identifier: `i` if it had none.
pub open spec fn with_id<F>(node: DynamicNodeView<F>, i: usize) -> DynamicNodeView<F> {
    if node.id is None { DynamicNodeView { id: Some(i), ..node } } else { node }
}

/// The nodes after the edge `(u, v)` was added to the current snapshot.
pub open spec fn add_edge<F: Activation>(nodes: Seq<DynamicNodeView<F>>, u: usize, v: usize) -> Seq<DynamicNodeView<F>> {
    let n1 = nodes.update(u as int, with_id(nodes[u as int], u));
    let n2 = n1.update(v as int, with_id(n1[v as int], v));
    let n3 = n2.update(u as int, n2[u as int].with_edge_to(v));
    n3.update(v as int, n3[v as int].with_edge_to(u))
}

/// The nodes after the edges of `list` were added in order.
pub open spec fn add_edges<F: Activation>(nodes: Seq<DynamicNodeView<F>>, list: Seq<(usize, usize)>) -> Seq<DynamicNodeView<F>>
    decreases list.len(),
{
    if list.len() == 0 {
        nodes
    } else {
        let prev = add_edges(nodes, list.drop_last());
        add_edge(prev, list.last().0, list.last().1)
    }
}

/// How many of the nodes have an identifier.
pub open spec fn count_identified<F>(nodes: Seq<DynamicNodeView<F>>) -> nat
    decreases nodes.len(),
{
    if nodes.len() == 0 {
        0
    } else {
        count_identified(nodes.drop_last()) + if nodes.last().id is Some { 1nat } else { 0nat }
    }
}

/// The nodes are well formed and all at time `t`, a node's identifier is its
/// index, and histories and estimates only name other nodes of the sequence.
pub open spec fn nodes_wf<F: Activation>(nodes: Seq<DynamicNodeView<F>>, t: usize) -> bool {
    &&& forall|i: int| 0 <= i < nodes.len() ==> #[trigger] nodes[i].wf()
    &&& forall|i: int| 0 <= i < nodes.len() ==> #[trigger] nodes[i].time == t
    &&& forall|i: int| 0 <= i < nodes.len() ==> (#[trigger] nodes[i].id is None || nodes[i].id == Some(i as usize))
    &&& forall|i: int, k: usize| 0 <= i < nodes.len() && #[trigger] nodes[i].history.dom().contains(k)
        ==> k < nodes.len() && k != i
    &&& forall|i: int, k: usize| 0 <= i < nodes.len() && #[trigger] nodes[i].estimate.dom().contains(k)
        ==> k < nodes.len()
}

/// Adding an edge between two distinct nodes keeps the nodes well formed.
pub proof fn lemma_add_edge_wf<F: Activation>(nodes: Seq<DynamicNodeView<F>>, u: usize, v: usize, t: usize)
    requires
        nodes_wf(nodes, t),
        1 <= t,
        u < nodes.len(),
        v < nodes.len(),
        u != v,
    ensures
        nodes_wf(add_edge(nodes, u, v), t),
{
    let nn = add_edge(nodes, u, v);
    assert forall|i: int| 0 <= i < nn.len() implies #[trigger] nn[i].wf() && nn[i].time == t
        && (nn[i].id is None || nn[i].id == Some(i as usize)) by {
        assert(nodes[i].wf() && nodes[i].time == t);
        assert(nodes[i].id is None || nodes[i].id == Some(i as usize));
    }
    assert forall|i: int, k: usize| 0 <= i < nn.len() && #[trigger] nn[i].history.dom().contains(k)
        implies k < nn.len() && k != i by {
        if !(k == u || k == v) {
            assert(nodes[i].history.dom().contains(k));
        } else if i != u && i != v {
            assert(nodes[i].history.dom().contains(k));
        }
    }
    assert forall|i: int, k: usize| 0 <= i < nn.len() && #[trigger] nn[i].estimate.dom().contains(k)
        implies k < nn.len() by {
        if !(k == u || k == v) {
            assert(nodes[i].estimate.dom().contains(k));
        }
    }
}

impl<F: Activation> DynamicGraphView<F> {
    /// The number of snapshots seen, shared by all nodes.
    pub open spec fn clock(self) -> usize {
        if self.nodes.len() > 0 { self.nodes[0].time } else { 0 }
    }

    /// The graph's invariant: nodes are well formed and share the clock, a
    /// node's identifier is its index, and histories and estimates only name
    /// other nodes of the graph.
    pub open spec fn wf(self) -> bool {
        &&& self.nodes.len() < usize::MAX
        &&& nodes_wf(self.nodes, self.clock())
    }

    /// Whether `list` can be added as a snapshot: its edges join two distinct
    /// nodes of the graph, the edge counter does not overflow, and the
    /// histories can grow by one bit.
    pub open spec fn accepts_snapshot(self, list: Seq<(usize, usize)>) -> bool {
        &&& forall|j: int| 0 <= j < list.len() ==> #[trigger] list[j].0 < self.nodes.len()
            && list[j].1 < self.nodes.len() && list[j].0 != list[j].1
        &&& self.edges + list.len() <= usize::MAX
        &&& self.clock() < BITVEC_MAX_BITS
    }

    /// The graph after the snapshot `list`: every node advances and the
    /// edges are added in order.
    pub open spec fn after_snapshot(self, list: Seq<(usize, usize)>) -> Self {
        DynamicGraphView {
            nodes: add_edges(self.nodes.map_values(|n: DynamicNodeView<F>| n.advanced()), list),
            edges: (self.edges + list.len()) as usize,
            ..self
        }
    }
}

/// The graph of the broadcasting protocol: nodes indexed by identifier.
pub struct DynamicGraph<F: Activation> {
    nodes: Vec<DynamicNode<F>>,
    edges: usize,
    memory_size: usize,
    activation_function: F,
}

impl<F: Activation> View for DynamicGraph<F> {
    type V = DynamicGraphView<F>;

    closed spec fn view(&self) -> DynamicGraphView<F> {
        DynamicGraphView {
            nodes: self.nodes@.map_values(|n: DynamicNode<F>| n@),
            edges: self.edges,
            memory_size: self.memory_size,
            activation: self.activation_function,
        }
    }
}

impl<F: Activation> DynamicGraph<F> {
    proof fn lemma_view_nodes(&self)
        ensures
            self@.nodes.len() == self.nodes@.len(),
            forall|i: int| 0 <= i < self.nodes@.len() ==> #[trigger] self.nodes@[i]@ == self@.nodes[i],
    {
    }

    /// An empty graph remembering five snapshots.
    pub fn new(activation_function: F) -> (r: Self)
        ensures
            r@ == (DynamicGraphView {
                nodes: Seq::<DynamicNodeView<F>>::empty(),
                edges: 0,
                memory_size: 5,
                activation: activation_function,
            }),
            r@.wf(),
    {
        let r = DynamicGraph { nodes: Vec::new(), edges: 0, memory_size: 5, activation_function };
        assert(r@.nodes =~= Seq::<DynamicNodeView<F>>::empty());
        r
    }

    /// A graph of `nid` nodes without identifiers, remembering `mem_size`
    /// snapshots.
    pub fn from_n_and_mem_size(nid: usize, mem_size: usize, activation_function: F) -> (r: Self)
        requires
            nid < usize::MAX,
        ensures
            r@.nodes.len() == nid,
            forall|i: int| 0 <= i < nid ==> #[trigger] r@.nodes[i] == (DynamicNodeView {
                id: None,
                history: Map::<usize, Seq<bool>>::empty(),
                memory_size: mem_size,
                changed: false,
                coreness: usize::MAX,
                count: Seq::<usize>::empty(),
                estimate: Map::<usize, (usize, usize)>::empty(),
                activation: activation_function,
                time: 0,
                activated: false,
                dirty: false,
                paused: false,
                last_sent: 0,
            }),
            r@.edges == 0,
            r@.memory_size == mem_size,
            r@.activation == activation_function,
            r@.wf(),
    {
        let mut nodes: Vec<DynamicNode<F>> = Vec::new();
        for i in 0..nid
            invariant
                nodes@.len() == i,
                forall|j: int| 0 <= j < i ==> #[trigger] nodes@[j]@ == (DynamicNodeView {
                    id: None,
                    history: Map::<usize, Seq<bool>>::empty(),
                    memory_size: mem_size,
                    changed: false,
                    coreness: usize::MAX,
                    count: Seq::<usize>::empty(),
                    estimate: Map::<usize, (usize, usize)>::empty(),
                    activation: activation_function,
                    time: 0,
                    activated: false,
                    dirty: false,
                    paused: false,
                    last_sent: 0,
                }),
                forall|j: int| 0 <= j < i ==> #[trigger] nodes@[j]@.wf(),
        {
            nodes.push(DynamicNode::new(None, mem_size, activation_function));
        }
        DynamicGraph { nodes, edges: 0, memory_size: mem_size, activation_function }
    }

    /// The number of nodes that have an identifier.
    pub fn get_n(&self) -> (r: usize)
        ensures
            r == count_identified(self@.nodes),
    {
        let mut count: usize = 0;
        for i in 0..self.nodes.len()
            invariant
                count == count_identified(self@.nodes.take(i as int)),
                count <= i,
        {
            assert(self@.nodes.take(i + 1).drop_last() =~= self@.nodes.take(i as int));
            if self.nodes[i].get_id().is_some() {
                count = count + 1;
            }
        }
        assert(self@.nodes.take(self.nodes.len() as int) =~= self@.nodes);
        count
    }

    /// The number of edges added so far.
    pub fn get_m(&self) -> (r: usize)
        ensures
            r == self@.edges,
    {
        self.edges
    }

    /// Overwrites the edge counter.
    pub fn set_m(&mut self, edges: usize)
        ensures
            final(self)@ == (DynamicGraphView { edges, ..old(self)@ }),
    {
        self.edges = edges;
    }

    /// The node with identifier `id`.
    pub fn get_node(&self, id: usize) -> (r: &DynamicNode<F>)
        requires
            id < self@.nodes.len(),
        ensures
            r@ == self@.nodes[id as int],
    {
        &self.nodes[id]
    }

    /// The alive neighbours of node `who`, in ascending order.
    pub fn get_neighs(&self, who: usize) -> (r: Vec<usize>)
        requires
            who < self@.nodes.len(),
        ensures
            strictly_ascending(r@),
            r@.to_set() == self@.nodes[who as int].alive_neighbors(),
    {
        let mut ans = self.nodes[who].neighs();
        let ghost before = ans@;
        sort_ids(&mut ans);
        proof {
            lemma_sorted_distinct(before, ans@);
        }
        ans
    }

    /// Adds the edge `(u, v)` to the current snapshot, giving the endpoints
    /// their identifiers if they had none.
    fn insert_edge(&mut self, u: usize, v: usize, Ghost(t): Ghost<usize>)
        requires
            nodes_wf(old(self)@.nodes, t),
            1 <= t,
            u < old(self)@.nodes.len(),
            v < old(self)@.nodes.len(),
            u != v,
        ensures
            final(self)@ == (DynamicGraphView { nodes: add_edge(old(self)@.nodes, u, v), ..old(self)@ }),
            nodes_wf(final(self)@.nodes, t),
    {
        proof {
            self.lemma_view_nodes();
        }
        let ghost cur = self@.nodes;
        assert(cur[u as int].wf() && cur[v as int].wf());
        assert(cur[u as int].time == t && cur[v as int].time == t);
        if self.nodes[u].get_id().is_none() {
            self.nodes[u].set_id(u);
        }
        if self.nodes[v].get_id().is_none() {
            self.nodes[v].set_id(v);
        }
        proof {
            self.lemma_view_nodes();
            assert(self@.nodes[u as int].history == cur[u as int].history);
            assert(self@.nodes[v as int].history == cur[v as int].history);
        }
        self.nodes[u].add_neighbor_latest_time(v);
        proof {
            self.lemma_view_nodes();
        }
        self.nodes[v].add_neighbor_latest_time(u);
        proof {
            self.lemma_view_nodes();
            assert(self@.nodes =~= add_edge(cur, u, v));
            lemma_add_edge_wf(cur, u, v, t);
        }
    }

    /// Adds a snapshot: every node advances its clock, the edges of `list`
    /// are added in order (giving identifiers to nodes that had none), and
    /// every node resets.
    pub fn new_snapshot(&mut self, list: &Vec<(usize, usize)>)
        requires
            old(self)@.wf(),
            old(self)@.accepts_snapshot(list@),
        ensures
            final(self)@ == old(self)@.after_snapshot(list@),
            final(self)@.wf(),
    {
        let ghost old_view = self@;
        let n = self.nodes.len();
        let ghost t = old_view.clock();
        for i in 0..n
            invariant
                n == self.nodes@.len(),
                self@.edges == old_view.edges,
                self@.memory_size == old_view.memory_size,
                self@.activation == old_view.activation,
                old_view.wf(),
                t == old_view.clock(),
                t < BITVEC_MAX_BITS,
                n == old_view.nodes.len(),
                forall|j: int| 0 <= j < i ==> #[trigger] self@.nodes[j] == old_view.nodes[j].advanced(),
                forall|j: int| 0 <= j < i ==> #[trigger] self@.nodes[j].wf(),
                forall|j: int| i <= j < n ==> #[trigger] self@.nodes[j] == old_view.nodes[j],
        {
            proof {
                self.lemma_view_nodes();
            }
            assert(old_view.nodes[i as int].wf() && old_view.nodes[i as int].time == t);
            self.nodes[i].advance_time();
            proof {
                self.lemma_view_nodes();
            }
        }
        proof {
            self.lemma_view_nodes();
        }
        let ghost advanced = self@.nodes;
        assert(advanced =~= old_view.nodes.map_values(|nd: DynamicNodeView<F>| nd.advanced()));
        for j in 0..list.len()
            invariant
                n == self.nodes@.len(),
                n == old_view.nodes.len(),
                n < usize::MAX,
                self@.edges == old_view.edges + j,
                old_view.edges + list@.len() <= usize::MAX,
                self@.memory_size == old_view.memory_size,
                self@.activation == old_view.activation,
                advanced == old_view.nodes.map_values(|nd: DynamicNodeView<F>| nd.advanced()),
                self@.nodes == add_edges(advanced, list@.take(j as int)),
                forall|e: int| 0 <= e < list@.len() ==> #[trigger] list@[e].0 < n
                    && list@[e].1 < n && list@[e].0 != list@[e].1,
                nodes_wf(self@.nodes, (t + 1) as usize),
                t < BITVEC_MAX_BITS,
        {
            let (u, v) = list[j];
            assert(list@.take(j + 1).drop_last() =~= list@.take(j as int));
            self.insert_edge(u, v, Ghost((t + 1) as usize));
            self.edges = self.edges + 1;
            proof {
                self.lemma_view_nodes();
            }
        }
        assert(list@.take(list@.len() as int) =~= list@);
        proof {
            self.lemma_view_nodes();
        }
        for i in 0..n
            invariant
                n == self.nodes@.len(),
                self@ == old_view.after_snapshot(list@),
                nodes_wf(self@.nodes, (t + 1) as usize),
        {
            proof {
                self.lemma_view_nodes();
            }
            let ghost before = self.nodes@;
            self.nodes[i].reset();
            proof {
                assert(self.nodes@ =~= before);
            }
        }
        proof {
            self.lemma_view_nodes();
            assert(n > 0 ==> self@.nodes[0].time == t + 1);
        }
    }
}

/// Whether some node has a change to announce.
pub open spec fn any_pending<F: Activation>(nodes: Seq<DynamicNodeView<F>>) -> bool {
    exists|i: int| 0 <= i < nodes.len() && #[trigger] nodes[i].needs_to_send()
}

/// The indices of the nodes with a change to announce, in ascending order.
pub open spec fn queue_of<F: Activation>(nodes: Seq<DynamicNodeView<F>>) -> Seq<usize>
    decreases nodes.len(),
{
    if nodes.len() == 0 {
        Seq::empty()
    } else if nodes.last().needs_to_send() {
        queue_of(nodes.drop_last()).push((nodes.len() - 1) as usize)
    } else {
        queue_of(nodes.drop_last())
    }
}

/// The nodes after the alive neighbours of `from` received the coreness
/// `core` stamped `time`; each neighbour receives it once, so the order does
/// not matter.
pub open spec fn broadcast_to<F: Activation>(nodes: Seq<DynamicNodeView<F>>, from: usize, core: usize, time: usize) -> Seq<DynamicNodeView<F>> {
    Seq::new(
        nodes.len(),
        |j: int|
            if nodes[from as int].alive_neighbors().contains(j as usize) {
                nodes[j].after_receive(from, core, time)
            } else {
                nodes[j]
            },
    )
}

/// The nodes after node `q` was asked to announce and its broadcast, if
/// any, was delivered.
pub open spec fn process_sender<F: Activation>(nodes: Seq<DynamicNodeView<F>>, q: usize) -> Seq<DynamicNodeView<F>> {
    let nv = nodes[q as int];
    let sent = nodes.update(q as int, nv.after_send());
    match nv.message() {
        Some(m) => broadcast_to(sent, m.from, m.core->0, m.time),
        None => sent,
    }
}

/// The nodes after the nodes at the indices `qs` were processed in order.
pub open spec fn process_queue<F: Activation>(nodes: Seq<DynamicNodeView<F>>, qs: Seq<usize>) -> Seq<DynamicNodeView<F>>
    decreases qs.len(),
{
    if qs.len() == 0 {
        nodes
    } else {
        process_sender(process_queue(nodes, qs.drop_last()), qs.last())
    }
}

/// One round: the nodes that had a change when the round began are
/// processed in ascending order.
pub open spec fn broadcast_round<F: Activation>(nodes: Seq<DynamicNodeView<F>>) -> Seq<DynamicNodeView<F>> {
    process_queue(nodes, queue_of(nodes))
}

/// The nodes after `k` rounds.
pub open spec fn broadcast_rounds<F: Activation>(nodes: Seq<DynamicNodeView<F>>, k: nat) -> Seq<DynamicNodeView<F>>
    decreases k,
{
    if k == 0 {
        nodes
    } else {
        broadcast_round(broadcast_rounds(nodes, (k - 1) as nat))
    }
}

/// The nodes with the nodes at the indices `qs` asked to announce, and
/// nothing delivered.
pub open spec fn sends_only<F: Activation>(nodes: Seq<DynamicNodeView<F>>, qs: Seq<usize>) -> Seq<DynamicNodeView<F>> {
    Seq::new(
        nodes.len(),
        |j: int| if qs.contains(j as usize) { nodes[j].after_send() } else { nodes[j] },
    )
}

/// The weight of a node's estimates of the `n` nodes at time `t`.
pub open spec fn dyn_node_weight<F>(nv: DynamicNodeView<F>, n: nat, t: usize) -> nat {
    estimate_weight(nv.estimate, n, t)
}

/// The weight of all estimates: it never grows during a round and shrinks
/// whenever an estimate is replaced.
pub open spec fn dyn_graph_weight<F>(nodes: Seq<DynamicNodeView<F>>, n: nat, t: usize) -> nat {
    sum_of(nodes, |nv: DynamicNodeView<F>| dyn_node_weight(nv, n, t))
}

/// The number of nodes with a change to announce.
pub open spec fn dyn_pending<F: Activation>(nodes: Seq<DynamicNodeView<F>>) -> nat {
    sum_of(nodes, |nv: DynamicNodeView<F>| if nv.needs_to_send() { 1nat } else { 0nat })
}

/// Receiving a coreness stamped with the receiver's clock either leaves the
/// receiver as it was or makes its estimates weigh less.
pub proof fn lemma_dyn_receive_weight<F: Activation>(nv: DynamicNodeView<F>, from: usize, core: usize, n: nat)
    requires
        from < n,
    ensures
        nv.after_receive(from, core, nv.time) == nv
            || dyn_node_weight(nv.after_receive(from, core, nv.time), n, nv.time) < dyn_node_weight(nv, n, nv.time),
        nv.after_receive(from, core, nv.time).time == nv.time,
        nv.after_receive(from, core, nv.time).history == nv.history,
        nv.after_receive(from, core, nv.time).id == nv.id,
        nv.after_receive(from, core, nv.time).estimate.dom() == nv.estimate.dom().insert(from)
            || nv.after_receive(from, core, nv.time).estimate.dom() == nv.estimate.dom(),
{
    let t = nv.time;
    if nv.accepts(from, core, t) {
        let est = nv.estimate.insert(from, (core, t));
        assert(crate::alive_rounds::entry_weight(est, from, t) < crate::alive_rounds::entry_weight(nv.estimate, from, t));
        crate::alive_rounds::lemma_estimate_weight_insert(nv.estimate, from, (core, t), n, t);
    }
}

/// The queue lists, in ascending order, exactly the nodes with a change.
pub proof fn lemma_queue_of<F: Activation>(nodes: Seq<DynamicNodeView<F>>)
    requires
        nodes.len() <= usize::MAX,
    ensures
        queue_of(nodes).no_duplicates(),
        forall|j: int| 0 <= j < queue_of(nodes).len() ==> #[trigger] queue_of(nodes)[j] < nodes.len(),
        forall|x: usize| #[trigger] queue_of(nodes).contains(x) <==> (x < nodes.len() && nodes[x as int].needs_to_send()),
        queue_of(nodes).len() == 0 <==> !any_pending(nodes),
    decreases nodes.len(),
{
    if nodes.len() > 0 {
        let init = nodes.drop_last();
        lemma_queue_of(init);
        let q0 = queue_of(init);
        let last = (nodes.len() - 1) as usize;
        assert forall|x: usize| #[trigger] q0.contains(x) <==> (x < init.len() && nodes[x as int].needs_to_send()) by {
            if x < init.len() {
                assert(init[x as int] == nodes[x as int]);
            }
        }
        assert(init.len() == last);
        assert(!q0.contains(last)) by {
            if q0.contains(last) {
                assert(last < init.len());
            }
        }
        if nodes.last().needs_to_send() {
            assert(queue_of(nodes) == q0.push(last));
        } else {
            assert(queue_of(nodes) == q0);
        }
        if !any_pending(nodes) {
            assert(!nodes[last as int].needs_to_send());
            assert(!any_pending(init)) by {
                if any_pending(init) {
                    let i = choose|i: int| 0 <= i < init.len() && #[trigger] init[i].needs_to_send();
                    assert(nodes[i].needs_to_send());
                }
            }
        }
        if any_pending(nodes) {
            let i = choose|i: int| 0 <= i < nodes.len() && #[trigger] nodes[i].needs_to_send();
            if i < last {
                assert(q0.contains(i as usize));
            } else {
                assert(queue_of(nodes).last() == last);
            }
            assert(queue_of(nodes).contains(i as usize));
        }
    } else {
        assert(!any_pending(nodes));
    }
}

impl<F: Activation> DynamicGraph<F> {
    /// The queue, in ascending order, of the nodes with a change to announce.
    fn pending_nodes(&self) -> (queue: Vec<usize>)
        requires
            self@.wf(),
        ensures
            queue@ == queue_of(self@.nodes),
    {
        proof {
            self.lemma_view_nodes();
        }
        let n = self.nodes.len();
        let mut queue: Vec<usize> = Vec::new();
        for i in 0..n
            invariant
                n == self.nodes@.len(),
                self@.wf(),
                queue@ == queue_of(self@.nodes.take(i as int)),
        {
            proof {
                self.lemma_view_nodes();
                assert(self@.nodes.take(i + 1).drop_last() =~= self@.nodes.take(i as int));
                assert(self@.nodes.take(i + 1).last() == self@.nodes[i as int]);
            }
            if self.nodes[i].needs_to_send() {
                let id = self.nodes[i].get_id().unwrap();
                queue.push(id);
            }
        }
        assert(self@.nodes.take(n as int) =~= self@.nodes);
        queue
    }

    /// Asks node `sender` to announce its coreness and delivers the
    /// broadcast, if any, to its alive neighbours.
    fn process_one(&mut self, sender: usize, Ghost(t): Ghost<usize>)
        requires
            old(self)@.nodes.len() < usize::MAX,
            nodes_wf(old(self)@.nodes, t),
            sender < old(self)@.nodes.len(),
        ensures
            final(self)@ == (DynamicGraphView { nodes: process_sender(old(self)@.nodes, sender), ..old(self)@ }),
            final(self)@.nodes.len() == old(self)@.nodes.len(),
            nodes_wf(final(self)@.nodes, t),
            final(self)@.nodes == old(self)@.nodes.update(sender as int, old(self)@.nodes[sender as int].after_send())
                || dyn_graph_weight(final(self)@.nodes, old(self)@.nodes.len() as nat, t)
                < dyn_graph_weight(old(self)@.nodes, old(self)@.nodes.len() as nat, t),
    {
        proof {
            self.lemma_view_nodes();
        }
        let ghost start = self@;
        let ghost n = start.nodes.len();
        let ghost nv = start.nodes[sender as int];
        let mmsg = self.nodes[sender].send_msg();
        proof {
            self.lemma_view_nodes();
        }
        let ghost sent = self@.nodes;
        assert(sent == start.nodes.update(sender as int, nv.after_send()));
        assert(nodes_wf(sent, t)) by {
            assert forall|i: int| 0 <= i < n implies {
                &&& #[trigger] sent[i].history == start.nodes[i].history
                &&& sent[i].estimate == start.nodes[i].estimate
                &&& sent[i].time == start.nodes[i].time
                &&& sent[i].id == start.nodes[i].id
            } by {}
            assert forall|i: int| 0 <= i < n implies #[trigger] sent[i].wf() by {
                assert(start.nodes[i].wf());
                assert(sent[i].history == start.nodes[i].history);
            }
        }
        assert(dyn_graph_weight(sent, n as nat, t) == dyn_graph_weight(start.nodes, n as nat, t)) by {
            let f = |x: DynamicNodeView<F>| dyn_node_weight(x, n as nat, t);
            lemma_sum_update(start.nodes, sender as int, nv.after_send(), f);
        }
        if mmsg.is_some() {
            let msg = mmsg.unwrap();
            assert(nv.message() == Some(msg@));
            assert(nv.id == Some(sender));
            if msg.broadcast {
                let neighs = self.nodes[msg.from].neighs();
                let ghost alive = sent[sender as int].alive_neighbors();
                assert forall|j: int| 0 <= j < neighs@.len() implies #[trigger] neighs@[j] < n && neighs@[j] != sender by {
                    assert(neighs@.to_set().contains(neighs@[j]));
                    assert(sent[sender as int].history.dom().contains(neighs@[j]));
                }
                for j in 0..neighs.len()
                    invariant
                        n == self.nodes@.len(),
                        n < usize::MAX,
                        sender < n,
                        msg@ == nv.message()->0,
                        msg@.from == sender,
                        msg@.time == t,
                        msg@.core is Some,
                        self@ == (DynamicGraphView { nodes: self@.nodes, ..start }),
                        alive == sent[sender as int].alive_neighbors(),
                        neighs@.no_duplicates(),
                        neighs@.to_set() == alive,
                        forall|a: int| 0 <= a < neighs@.len() ==> #[trigger] neighs@[a] < n,
                        self@.nodes.len() == n,
                        forall|x: int| 0 <= x < n ==> #[trigger] self@.nodes[x] == if neighs@.take(j as int).contains(x as usize) {
                            sent[x].after_receive(sender, msg@.core->0, t)
                        } else {
                            sent[x]
                        },
                        nodes_wf(self@.nodes, t),
                        self@.nodes == sent || dyn_graph_weight(self@.nodes, n as nat, t) < dyn_graph_weight(sent, n as nat, t),
                {
                    proof {
                        self.lemma_view_nodes();
                    }
                    let neigh = neighs[j];
                    let ghost cur = self@.nodes;
                    assert(!neighs@.take(j as int).contains(neigh)) by {
                        if neighs@.take(j as int).contains(neigh) {
                            let a = choose|a: int| 0 <= a < j && neighs@.take(j as int)[a] == neigh;
                            assert(neighs@[a] == neighs@[j as int]);
                        }
                    }
                    assert(cur[neigh as int] == sent[neigh as int]);
                    proof {
                        assert(cur[neigh as int].wf() && cur[neigh as int].time == t);
                        assert forall|k: usize| #[trigger] cur[neigh as int].estimate.dom().insert(sender).contains(k) implies k < n by {}
                        lemma_bounded_set_len(cur[neigh as int].estimate.dom().insert(sender), n as usize);
                        lemma_dyn_receive_weight(cur[neigh as int], sender, msg@.core->0, n as nat);
                    }
                    let ans = self.nodes[neigh].receive_msg(&msg);
                    if let Some(ans) = ans {
                        self.nodes[sender].receive_msg(&ans);
                    }
                    proof {
                        self.lemma_view_nodes();
                        let after = cur[neigh as int].after_receive(sender, msg@.core->0, t);
                        assert(self@.nodes == cur.update(neigh as int, after));
                        assert(neighs@.take(j + 1) =~= neighs@.take(j as int).push(neigh));
                        if after == cur[neigh as int] {
                            assert(self@.nodes =~= cur);
                        } else {
                            lemma_sum_update(cur, neigh as int, after, |x: DynamicNodeView<F>| dyn_node_weight(x, n as nat, t));
                            if cur == sent {
                                assert(self@.nodes != sent) by {
                                    assert(self@.nodes[neigh as int] != sent[neigh as int]);
                                }
                            }
                        }
                        assert forall|a: int, k: usize| 0 <= a < n && #[trigger] self@.nodes[a].estimate.dom().contains(k)
                            implies k < n by {
                            if a == neigh {
                                assert(cur[a].estimate.dom().insert(sender).contains(k));
                            }
                        }
                    }
                }
                proof {
                    self.lemma_view_nodes();
                    assert(neighs@.take(neighs@.len() as int) =~= neighs@);
                    assert(self@.nodes =~= broadcast_to(sent, sender, msg@.core->0, t));
                }
            }
        } else {
            assert(nv.message() is None);
        }
        proof {
            self.lemma_view_nodes();
        }
    }

    /// Runs the broadcasting protocol until no node has a change to
    /// announce: rounds (see `broadcast_round`) are run while some node has a
    /// change. Returns zero.
    pub fn run(&mut self) -> (r: usize)
        requires
            old(self)@.wf(),
        ensures
            r == 0,
            final(self)@.wf(),
            !any_pending(final(self)@.nodes),
            exists|k: nat| #![trigger broadcast_rounds(old(self)@.nodes, k)]
                final(self)@.nodes == broadcast_rounds(old(self)@.nodes, k)
                && forall|j: nat| j < k ==> any_pending(#[trigger] broadcast_rounds(old(self)@.nodes, j)),
            final(self)@ == (DynamicGraphView { nodes: final(self)@.nodes, ..old(self)@ }),
    {
        proof {
            self.lemma_view_nodes();
        }
        let ghost old_view = self@;
        let ghost t = old_view.clock();
        let ghost n = old_view.nodes.len();
        let mut node_queue = self.pending_nodes();
        let mut go_on = node_queue.len() > 0;
        proof {
            lemma_queue_of(self@.nodes);
        }
        let ghost mut k: nat = 0;
        while go_on
            invariant
                n == old_view.nodes.len(),
                n < usize::MAX,
                self@.wf(),
                self@.clock() == t,
                self@ == (DynamicGraphView { nodes: self@.nodes, ..old_view }),
                self@.nodes == broadcast_rounds(old_view.nodes, k),
                self@.nodes.len() == n,
                node_queue@ == queue_of(self@.nodes),
                go_on == any_pending(self@.nodes),
                forall|j: nat| j < k ==> any_pending(#[trigger] broadcast_rounds(old_view.nodes, j)),
            decreases
                dyn_graph_weight(self@.nodes, n as nat, t),
                dyn_pending(self@.nodes),
        {
            let ghost start_nodes = self@.nodes;
            proof {
                lemma_queue_of(start_nodes);
            }
            for idx in 0..node_queue.len()
                invariant
                    n == old_view.nodes.len(),
                    n < usize::MAX,
                    self@ == (DynamicGraphView { nodes: self@.nodes, ..old_view }),
                    self@.nodes.len() == n,
                    nodes_wf(self@.nodes, t),
                    node_queue@ == queue_of(start_nodes),
                    node_queue@.no_duplicates(),
                    forall|j: int| 0 <= j < node_queue@.len() ==> #[trigger] node_queue@[j] < n,
                    self@.nodes == process_queue(start_nodes, node_queue@.take(idx as int)),
                    self@.nodes == sends_only(start_nodes, node_queue@.take(idx as int))
                        || dyn_graph_weight(self@.nodes, n as nat, t) < dyn_graph_weight(start_nodes, n as nat, t),
            {
                let sender = node_queue[idx];
                let ghost cur = self@.nodes;
                assert(node_queue@.take(idx + 1).drop_last() =~= node_queue@.take(idx as int));
                assert(node_queue@.take(idx + 1) =~= node_queue@.take(idx as int).push(sender));
                self.process_one(sender, Ghost(t));
                proof {
                    if self@.nodes == cur.update(sender as int, cur[sender as int].after_send()) {
                        lemma_sum_update(cur, sender as int, cur[sender as int].after_send(),
                            |x: DynamicNodeView<F>| dyn_node_weight(x, n as nat, t));
                    }
                    if cur == sends_only(start_nodes, node_queue@.take(idx as int))
                        && self@.nodes == cur.update(sender as int, cur[sender as int].after_send()) {
                        assert(!node_queue@.take(idx as int).contains(sender)) by {
                            if node_queue@.take(idx as int).contains(sender) {
                                let a = choose|a: int| 0 <= a < idx && node_queue@.take(idx as int)[a] == sender;
                                assert(node_queue@[a] == node_queue@[idx as int]);
                            }
                        }
                        assert(self@.nodes =~= sends_only(start_nodes, node_queue@.take(idx + 1)));
                    } else if cur == sends_only(start_nodes, node_queue@.take(idx as int)) {
                        assert(dyn_graph_weight(cur, n as nat, t) == dyn_graph_weight(start_nodes, n as nat, t)) by {
                            let f = |x: DynamicNodeView<F>| dyn_node_weight(x, n as nat, t);
                            assert forall|i: int| 0 <= i < n implies f(#[trigger] cur[i]) <= f(start_nodes[i])
                                && f(start_nodes[i]) <= f(cur[i]) by {}
                            lemma_sum_pointwise(cur, start_nodes, f);
                            lemma_sum_pointwise(start_nodes, cur, f);
                        }
                    }
                }
            }
            proof {
                assert(node_queue@.take(node_queue@.len() as int) =~= node_queue@);
                let fin = self@.nodes;
                if fin == sends_only(start_nodes, node_queue@) {
                    if any_pending(start_nodes) {
                        let fp = |x: DynamicNodeView<F>| if x.needs_to_send() { 1nat } else { 0nat };
                        assert forall|i: int| 0 <= i < n implies fp(#[trigger] fin[i]) <= fp(start_nodes[i]) by {}
                        let i = choose|i: int| 0 <= i < n && #[trigger] start_nodes[i].needs_to_send();
                        assert(node_queue@.contains(i as usize));
                        assert(fp(fin[i]) < fp(start_nodes[i]));
                        lemma_sum_pointwise(fin, start_nodes, fp);
                        let fw = |x: DynamicNodeView<F>| dyn_node_weight(x, n as nat, t);
                        assert forall|i: int| 0 <= i < n implies fw(#[trigger] fin[i]) <= fw(start_nodes[i])
                            && fw(start_nodes[i]) <= fw(fin[i]) by {}
                        lemma_sum_pointwise(fin, start_nodes, fw);
                        lemma_sum_pointwise(start_nodes, fin, fw);
                    }
                }
                assert(n > 0 ==> self@.nodes[0].time == t);
            }
            node_queue = self.pending_nodes();
            proof {
                lemma_queue_of(self@.nodes);
                k = k + 1;
            }
            go_on = node_queue.len() > 0;
        }
        0
    }
}

} // verus!
