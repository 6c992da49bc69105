use kcore::activation::{BitHistory, Intersection, Union};
use kcore::completely_new_algorithm::{DynamicGraph, DynamicNode, Message};
use kcore::dynamic_montresor::{AliveGraph, AliveNode};
use kcore::snapshots::split_into_snapshots;

#[test]
fn snapshots_concatenate_to_the_edges_without_loops() {
    let t = vec![(5, 6, 0), (6, 6, 1), (7, 8, 3), (9, 5, 4), (1, 1, 8), (2, 3, 9), (3, 2, 30)];
    for len in [0usize, 1, 3, 5, 100] {
        let (buckets, _, edges) = split_into_snapshots(&t, len);
        let flat: Vec<(usize, usize)> = buckets.concat();
        let kept: Vec<(usize, usize)> =
            t.iter().filter(|e| e.0 != e.1).map(|e| (e.0, e.1)).collect();
        assert_eq!(flat, kept);
        assert_eq!(edges, kept.len());
    }
}

#[test]
fn alive_receive_twice_is_receive_once() {
    let mut g = AliveGraph::from_n_and_mem_size(3, 5, Intersection);
    g.new_snapshot(&vec![(0, 1), (0, 2)]);
    let mut once: AliveNode<Intersection> = g.get_node(0).clone();
    once.receive_msg(1, 1, 1);
    let c1 = once.get_coreness();
    let e1 = once.get_estimate().len();
    once.receive_msg(1, 1, 1);
    assert_eq!(once.get_coreness(), c1);
    assert_eq!(once.get_estimate().len(), e1);
}

#[test]
fn stale_announcement_is_ignored() {
    let mut g = AliveGraph::from_n_and_mem_size(3, 5, Intersection);
    g.new_snapshot(&vec![(0, 1), (0, 2)]);
    let mut node: AliveNode<Intersection> = g.get_node(0).clone();
    node.receive_msg(1, 1, 1);
    node.receive_msg(2, 1, 1);
    let before = node.get_coreness();
    node.receive_msg(1, 0, 0);
    assert_eq!(node.get_coreness(), before);
}

#[test]
fn a_change_is_announced_once() {
    let mut g = AliveGraph::from_n_and_mem_size(2, 5, Intersection);
    g.new_snapshot(&vec![(0, 1)]);
    let mut node: AliveNode<Intersection> = g.get_node(0).clone();
    assert!(node.has_changed());
    assert!(node.send_msg().is_some());
    assert!(node.send_msg().is_none());
    assert!(!node.has_changed());

    let mut d: DynamicNode<Union> = DynamicNode::new(Some(4), 3, Union);
    d.advance_time();
    d.add_neighbor_latest_time(5);
    let m = Message::build_coreness_msg(5, 4, 2, 1);
    d.receive_msg(&m);
    if d.needs_to_send() {
        assert!(d.send_msg().is_some());
    }
    assert!(d.send_msg().is_none());
}

#[test]
fn protocol_keeps_the_graph_undirected() {
    let mut g = AliveGraph::from_n_and_mem_size(5, 2, Intersection);
    g.new_snapshot(&vec![(0, 1), (1, 2), (2, 0), (3, 4)]);
    g.montresor_step();
    g.new_snapshot(&vec![(0, 1), (1, 2), (3, 4)]);
    g.montresor_step();
    for a in 0..5 {
        for b in g.get_neighs(a) {
            assert!(g.get_neighs(b).contains(&a));
        }
    }
    assert_eq!(g.get_neighs(0), vec![1]);
    assert_eq!(g.get_neighs(2), vec![1]);
}

#[test]
fn broadcasting_keeps_the_graph_undirected() {
    let mut g = DynamicGraph::from_n_and_mem_size(4, 3, Union);
    g.new_snapshot(&vec![(0, 1), (1, 2), (2, 3)]);
    assert_eq!(g.run(), 0);
    g.new_snapshot(&vec![(0, 3)]);
    assert_eq!(g.run(), 0);
    for a in 0..4 {
        for b in g.get_neighs(a) {
            assert!(g.get_neighs(b).contains(&a));
        }
    }
    assert_eq!(g.get_neighs(0), vec![1, 3]);
}

#[test]
fn a_second_step_is_silent() {
    let mut g = AliveGraph::from_n_and_mem_size(5, 2, Intersection);
    g.new_snapshot(&vec![(0, 1), (1, 2), (2, 0), (2, 3)]);
    g.montresor_step();
    let before: Vec<(usize, Vec<usize>, bool)> = (0..5)
        .map(|v| {
            let mut e = g.get_node(v).get_estimate();
            e.sort();
            (g.get_node(v).get_coreness(), e, g.get_node(v).has_changed())
        })
        .collect();
    let r = g.montresor_step();
    assert_eq!(r.0, 1);
    assert_eq!(r.1, 0);
    assert_eq!(r.2, vec![0]);
    assert_eq!(r.3.len(), 1);
    assert_eq!(r.4, 0);
    let after: Vec<(usize, Vec<usize>, bool)> = (0..5)
        .map(|v| {
            let mut e = g.get_node(v).get_estimate();
            e.sort();
            (g.get_node(v).get_coreness(), e, g.get_node(v).has_changed())
        })
        .collect();
    assert_eq!(before, after);
}

#[test]
fn reset_twice_is_reset_once() {
    let mut g = AliveGraph::from_n_and_mem_size(4, 1, Intersection);
    g.new_snapshot(&vec![(0, 1), (0, 2), (0, 3)]);
    g.montresor_step();
    g.new_snapshot(&vec![(0, 1)]);
    let mut node: AliveNode<Intersection> = g.get_node(0).clone();
    node.reset();
    let c = node.get_coreness();
    let mut e = node.get_estimate();
    e.sort();
    let ch = node.has_changed();
    node.reset();
    let mut e2 = node.get_estimate();
    e2.sort();
    assert_eq!((node.get_coreness(), e2, node.has_changed()), (c, e, ch));
}

#[test]
fn lower_estimates_give_a_lower_index() {
    let mut g = AliveGraph::from_n_and_mem_size(5, 5, Intersection);
    g.new_snapshot(&vec![(0, 1), (0, 2), (0, 3), (0, 4)]);
    let mut hi: AliveNode<Intersection> = g.get_node(0).clone();
    let mut lo: AliveNode<Intersection> = g.get_node(0).clone();
    for (k, c) in [(1usize, 4usize), (2, 4), (3, 3), (4, 3)] {
        hi.receive_msg(k, c, 1);
    }
    for (k, c) in [(1usize, 2usize), (2, 1), (3, 3), (4, 1)] {
        lo.receive_msg(k, c, 1);
    }
    assert_eq!(hi.comp_coreness(), 3);
    assert_eq!(lo.comp_coreness(), 2);
}

#[test]
fn estimates_name_alive_neighbours_only() {
    let mut g = AliveGraph::from_n_and_mem_size(6, 2, Intersection);
    let snaps = vec![
        vec![(0, 1), (1, 2), (2, 0), (3, 4), (4, 5)],
        vec![(0, 1), (1, 2), (3, 4)],
        vec![(0, 1), (4, 5)],
    ];
    for s in snaps.iter() {
        g.new_snapshot(s);
        g.montresor_step();
        for v in 0..6 {
            let neighs = g.get_node(v).neighs();
            for k in g.get_node(v).get_estimate() {
                assert!(neighs.contains(&k));
            }
            assert!(!neighs.contains(&v));
            assert_eq!(g.get_node(v).get_time(), g.get_node(0).get_time());
        }
    }
}

#[test]
fn histories_built_from_bits_feed_the_activation_function() {
    let node: AliveNode<Intersection> = AliveNode::new(Some(0), 2, Intersection);
    assert!(node.apply_f(&BitHistory::from_bits(&vec![false, true, true])));
    assert!(!node.apply_f(&BitHistory::from_bits(&vec![true, false, true])));
    assert!(node.apply_f(&BitHistory::from_bits(&vec![])));
    let u: AliveNode<Union> = AliveNode::new(Some(0), 2, Union);
    assert!(u.apply_f(&BitHistory::from_bits(&vec![true, true, false])));
    assert!(!u.apply_f(&BitHistory::from_bits(&vec![true, false, false])));
}

#[test]
fn schedule_waits_for_the_memory_to_fill() {
    let mut g = AliveGraph::from_n_and_mem_size(4, 2, Intersection);
    let s = vec![(0, 1), (1, 2), (0, 2), (2, 3)];
    assert!(g.schedule_snapshot(&s, 1, 2).is_none());
    let (stats, cores) = g.schedule_snapshot(&s, 2, 2).unwrap();
    assert!(stats.0 >= 1);
    assert_eq!(stats.2.len(), stats.0);
    assert_eq!(cores, vec![vec![], vec![3], vec![0, 1, 2]]);
    assert_eq!(g.get_node(0).get_time(), 2);
}
