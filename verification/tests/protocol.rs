use kcore::activation::{Half, Intersection, Union};
use kcore::completely_new_algorithm::{DynamicGraph, DynamicNode, Message};
use kcore::coreness::{estimate_h_index, map_keys};
use kcore::dynamic_montresor::{vec_contains, AliveGraph, AliveNode};
use kcore::snapshots::{sort_by_time, split_into_snapshots, time_key};
use std::collections::HashMap;

fn triangle_with_tail() -> AliveGraph<Intersection> {
    let mut g = AliveGraph::from_n_and_mem_size(4, 5, Intersection);
    g.new_snapshot(&vec![(0, 1), (1, 2), (0, 2), (2, 3)]);
    g
}

#[test]
fn h_index_of_known_estimates() {
    let mut est: HashMap<usize, (usize, usize)> = HashMap::new();
    est.insert(1, (3, 0));
    est.insert(2, (3, 0));
    est.insert(3, (3, 0));
    assert_eq!(estimate_h_index(&est), Some(3));
    est.insert(4, (0, 0));
    assert_eq!(estimate_h_index(&est), Some(3));
    est.insert(3, (1, 0));
    assert_eq!(estimate_h_index(&est), Some(2));
}

#[test]
fn h_index_large_estimates_share_the_top_bucket() {
    let mut est: HashMap<usize, (usize, usize)> = HashMap::new();
    est.insert(7, (100, 1));
    est.insert(8, (50, 1));
    assert_eq!(estimate_h_index(&est), Some(2));
}

#[test]
fn h_index_unknown_and_empty() {
    let mut est: HashMap<usize, (usize, usize)> = HashMap::new();
    assert_eq!(estimate_h_index(&est), Some(usize::MAX));
    est.insert(1, (0, 0));
    assert_eq!(estimate_h_index(&est), Some(usize::MAX));
    est.insert(2, (usize::MAX, 0));
    assert_eq!(estimate_h_index(&est), None);
}

#[test]
fn keys_and_membership() {
    let mut m: HashMap<usize, bool> = HashMap::new();
    m.insert(4, true);
    m.insert(9, false);
    let mut k = map_keys(&m);
    k.sort();
    assert_eq!(k, vec![4, 9]);
    assert!(vec_contains(&k, 9));
    assert!(!vec_contains(&k, 5));
}

#[test]
fn snapshot_builds_alive_graph() {
    let g = triangle_with_tail();
    assert_eq!(g.get_n(), 4);
    assert_eq!(g.get_m(), 4);
    assert_eq!(g.get_neighs(2), vec![0, 1, 3]);
    assert_eq!(g.get_neighs(3), vec![2]);
    assert_eq!(g.get_node(2).deg(), 3);
    assert_eq!(g.get_node(3).get_id(), Some(3));
    assert_eq!(g.get_node(0).get_time(), 1);
    // a dirty node restarts from its degree
    assert_eq!(g.get_node(2).get_coreness(), 3);
    assert!(g.get_node(2).has_changed());
    let mut est = g.get_node(2).get_estimate();
    est.sort();
    assert_eq!(est, vec![0, 1, 3]);
}

#[test]
fn unused_nodes_have_no_id() {
    let mut g = AliveGraph::from_n_and_mem_size(5, 5, Intersection);
    g.new_snapshot(&vec![(0, 1)]);
    assert_eq!(g.get_n(), 2);
    assert_eq!(g.get_node(4).get_id(), None);
    assert_eq!(g.get_node(4).get_coreness(), usize::MAX);
    assert!(!g.get_node(4).has_changed());
}

#[test]
fn montresor_step_computes_coreness() {
    let mut g = triangle_with_tail();
    let (iters, msgs, per_iter, times, activated) = g.montresor_step();
    assert_eq!(g.get_node(0).get_coreness(), 2);
    assert_eq!(g.get_node(1).get_coreness(), 2);
    assert_eq!(g.get_node(2).get_coreness(), 2);
    assert_eq!(g.get_node(3).get_coreness(), 1);
    assert_eq!(iters, per_iter.len());
    assert_eq!(times.len(), iters);
    assert_eq!(msgs, per_iter.iter().sum::<usize>());
    assert!(iters >= 1);
    assert_eq!(per_iter[0], 4);
    assert_eq!(activated, 4);
    for v in 0..4 {
        assert!(!g.get_node(v).has_changed());
    }
    assert_eq!(g.k_core_from_coreness(), vec![vec![], vec![3], vec![0, 1, 2]]);
}

#[test]
fn montresor_step_on_quiet_graph_runs_one_round() {
    let mut g = AliveGraph::from_n_and_mem_size(3, 5, Intersection);
    let (iters, msgs, per_iter, _times, activated) = g.montresor_step();
    assert_eq!(iters, 1);
    assert_eq!(msgs, 0);
    assert_eq!(per_iter, vec![0]);
    assert_eq!(activated, 0);
    assert_eq!(g.k_core_from_coreness(), Vec::<Vec<usize>>::new());
}

#[test]
fn coreness_changes_are_counted() {
    let mut g = triangle_with_tail();
    g.montresor_step();
    // node 2 went from 3 to 2 during the step, but the snapshot began before
    // the reset, so the old coreness of every node is the unknown one
    let (moved, isolated) = g.changed_coreness_count();
    assert_eq!(moved, 4);
    assert_eq!(isolated, 0);
    g.new_snapshot(&vec![(0, 1), (1, 2), (0, 2), (2, 3)]);
    g.montresor_step();
    let (moved, isolated) = g.changed_coreness_count();
    assert_eq!(moved, 0);
    assert_eq!(isolated, 0);
}

#[test]
fn intersection_forgets_a_missing_edge() {
    let mut g = AliveGraph::from_n_and_mem_size(2, 2, Intersection);
    g.new_snapshot(&vec![(0, 1)]);
    assert_eq!(g.get_neighs(0), vec![1]);
    g.new_snapshot(&vec![]);
    assert_eq!(g.get_neighs(0), Vec::<usize>::new());
    g.montresor_step();
    assert_eq!(g.get_node(0).get_coreness(), usize::MAX);
}

#[test]
fn union_keeps_a_recent_edge() {
    let mut g = AliveGraph::from_n_and_mem_size(2, 2, Union);
    g.new_snapshot(&vec![(0, 1)]);
    g.new_snapshot(&vec![]);
    assert_eq!(g.get_neighs(0), vec![1]);
    g.new_snapshot(&vec![]);
    assert_eq!(g.get_neighs(0), Vec::<usize>::new());
}

#[test]
fn half_needs_half_of_the_window() {
    let mut g = AliveGraph::from_n_and_mem_size(2, 4, Half);
    g.new_snapshot(&vec![(0, 1)]);
    g.new_snapshot(&vec![]);
    // window [1, 0]: one of two
    assert_eq!(g.get_node(1).deg(), 1);
    g.new_snapshot(&vec![]);
    // window [1, 0, 0]: one, and half of three is one
    assert_eq!(g.get_node(1).deg(), 1);
    g.new_snapshot(&vec![]);
    // window [1, 0, 0, 0]: one of four
    assert_eq!(g.get_node(1).deg(), 0);
}

#[test]
fn late_neighbour_history_starts_empty() {
    let mut g = AliveGraph::from_n_and_mem_size(3, 5, Intersection);
    g.new_snapshot(&vec![(0, 1)]);
    g.new_snapshot(&vec![(0, 1)]);
    g.new_snapshot(&vec![(0, 1), (0, 2)]);
    // 0-1 present in every snapshot, 0-2 only in the last one
    assert_eq!(g.get_neighs(0), vec![1]);
    let mut u = AliveGraph::from_n_and_mem_size(3, 5, Union);
    u.new_snapshot(&vec![(0, 1)]);
    u.new_snapshot(&vec![(0, 2)]);
    assert_eq!(u.get_neighs(0), vec![1, 2]);
}

#[test]
fn alive_node_messages() {
    let mut node = AliveNode::new(Some(7), 5, Intersection);
    assert_eq!(node.send_msg(), None);
    node.advance_time();
    node.add_neighbor_latest_time(3);
    node.add_neighbor_latest_time(4);
    node.reset();
    assert_eq!(node.get_coreness(), 2);
    assert_eq!(node.send_msg(), Some((7, 2, 1)));
    assert_eq!(node.send_msg(), None);
    node.receive_msg(3, 1, 1);
    // neighbour 4 is still unknown: keep min(coreness, degree)
    assert_eq!(node.comp_coreness(), 2);
    node.receive_msg(4, 1, 1);
    assert_eq!(node.get_coreness(), 1);
    // a lower coreness is announced one round late
    assert!(node.has_changed());
    assert_eq!(node.send_msg(), None);
    assert_eq!(node.send_msg(), Some((7, 1, 1)));
    // an older message is ignored
    node.receive_msg(4, 5, 0);
    assert_eq!(node.get_coreness(), 1);
    assert!(!node.has_changed());
}

#[test]
fn alive_node_clone_and_apply() {
    let mut node = AliveNode::new(None, 3, Union);
    node.set_id(1);
    node.advance_time();
    node.add_neighbor_latest_time(2);
    let copy = node.clone();
    assert_eq!(copy.get_id(), Some(1));
    assert_eq!(copy.deg(), 1);
    assert_eq!(copy.neighs(), vec![2]);
    node.change_activation_function(Union);
    assert_eq!(node.deg(), 1);
}

#[test]
fn reset_drops_lost_neighbours() {
    let mut g = AliveGraph::from_n_and_mem_size(3, 1, Intersection);
    g.new_snapshot(&vec![(0, 1), (0, 2)]);
    g.montresor_step();
    assert_eq!(g.get_node(0).get_coreness(), 1);
    g.new_snapshot(&vec![(0, 1)]);
    let mut est = g.get_node(0).get_estimate();
    est.sort();
    assert_eq!(est, vec![1]);
    assert!(g.get_node(2).get_estimate().is_empty());
    // node 2 lost its only neighbour: its coreness becomes unknown
    assert_eq!(g.get_node(2).get_coreness(), usize::MAX);
    let (_moved, isolated) = g.changed_coreness_count();
    assert_eq!(isolated, 1);
}

#[test]
fn graph_accessors() {
    let mut g = AliveGraph::new(Intersection);
    assert_eq!(g.get_n(), 0);
    g.set_m(12);
    assert_eq!(g.get_m(), 12);
}

#[test]
fn messages_carry_their_fields() {
    let mut m = Message::build_coreness_msg(1usize, 2usize, 3, 4);
    assert!(!m.is_reset());
    m.set_reset();
    assert!(m.is_reset());
    m.set_broadcast();
    m.unset_broadcast();
    let d = Message::build_degree_msg(1usize, 2usize, 5, 6);
    assert!(!d.is_reset());
    let a = Message::build_answer(1usize, 2usize, 5, 6);
    assert!(!a.is_reset());
}

#[test]
fn dynamic_node_takes_estimates() {
    let mut node = DynamicNode::new(Some(0), 5, Intersection);
    node.advance_time();
    node.add_neighbor_latest_time(1);
    node.add_neighbor_latest_time(2);
    node.add_neighbor_latest_time(3);
    assert_eq!(node.deg(), 3);
    let mut n = node.neighs();
    n.sort();
    assert_eq!(n, vec![1, 2, 3]);
    assert_eq!(node.get_coreness(), usize::MAX);
    assert!(!node.needs_to_send());
    for (from, core) in [(1usize, 5usize), (2, 5), (3, 1)] {
        let m = Message::build_coreness_msg(from, 0usize, core, 1);
        assert!(node.receive_msg(&m).is_none());
    }
    assert_eq!(node.compute_coreness(), 2);
    assert_eq!(node.get_coreness(), 2);
    assert!(node.needs_to_send());
    let sent = node.send_msg().unwrap();
    assert!(!sent.is_reset());
    assert!(!node.needs_to_send());
    assert!(node.send_msg().is_none());
    node.reset();
    assert_eq!(node.get_id(), Some(0));
    node.set_id(0);
    node.change_activation_function(Intersection);
    assert_eq!(node.clone().get_coreness(), 2);
}

#[test]
fn dynamic_graph_run_without_changes_is_quiet() {
    let mut g = DynamicGraph::from_n_and_mem_size(4, 5, Intersection);
    g.new_snapshot(&vec![(0, 1), (1, 2), (0, 2), (2, 3)]);
    assert_eq!(g.get_n(), 4);
    assert_eq!(g.get_m(), 4);
    assert_eq!(g.get_neighs(2), vec![0, 1, 3]);
    assert_eq!(g.run(), 0);
    assert_eq!(g.get_node(2).get_coreness(), usize::MAX);
    let mut e = DynamicGraph::new(Union);
    e.set_m(3);
    assert_eq!(e.get_m(), 3);
    assert_eq!(e.run(), 0);
}

#[test]
fn edges_are_sorted_by_time() {
    let mut t = vec![(3, 1, 20), (1, 2, 10), (2, 1, 10), (0, 5, 15)];
    sort_by_time(&mut t);
    assert_eq!(t, vec![(1, 2, 10), (2, 1, 10), (0, 5, 15), (3, 1, 20)]);
    assert_eq!(time_key(&(1, 2, 3)), (3, 1, 2));
}

#[test]
fn edges_are_cut_into_snapshots() {
    let t = vec![(1, 2, 10), (2, 3, 12), (3, 3, 13), (1, 3, 25), (4, 1, 29), (0, 1, 35)];
    let (buckets, max_node, edges) = split_into_snapshots(&t, 10);
    assert_eq!(buckets, vec![vec![(1, 2), (2, 3)], vec![(1, 3), (4, 1)], vec![(0, 1)]]);
    assert_eq!(max_node, 4);
    assert_eq!(edges, 5);
    let (b, m, e) = split_into_snapshots(&vec![(2, 2, 1)], 10);
    assert_eq!(b, vec![Vec::<(usize, usize)>::new()]);
    assert_eq!(m, 0);
    assert_eq!(e, 0);
}
