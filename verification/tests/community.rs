use gaussrdl::coloring::ParallelAlgorithms;
use gaussrdl::community::{community_edge_weights, community_node_id, LabelPropagation};
use gaussrdl::node_id::NodeId;
use gaussrdl::topology::Topology;

fn topo(n: usize, edges: &[(usize, usize)]) -> Topology {
    Topology { num_nodes: n, edges: edges.to_vec() }
}

#[test]
fn majority_label_of_neighbours() {
    let t = topo(5, &[(0, 1), (0, 2), (3, 0), (0, 4)]);
    let labels = vec![9, 7, 7, 5, 5];
    let lp = LabelPropagation::new(10);
    let l = lp.get_majority_label(&t, 0, &labels);
    assert!(l == 7 || l == 5);
    let labels = vec![0, 7, 7, 7, 5];
    assert_eq!(lp.get_majority_label(&t, 0, &labels), 7);
}

#[test]
fn isolated_node_gets_label_zero() {
    let t = topo(3, &[(0, 1)]);
    let labels = vec![4, 4, 2];
    assert_eq!(LabelPropagation::new(1).get_majority_label(&t, 2, &labels), 0);
}

#[test]
fn propagation_round_without_change_is_stable() {
    let t = topo(4, &[(0, 1), (2, 3)]);
    let lp = LabelPropagation::new(10);
    let mut labels = vec![1, 0, 3, 2];
    // every node already carries its only neighbour's label? no: swap happens
    let changed = lp.propagate(&t, &mut labels, &vec![0, 1, 2, 3]);
    assert!(changed);
    assert_eq!(labels, vec![0, 0, 2, 2]);
    let changed = lp.propagate(&t, &mut labels, &vec![3, 2, 1, 0]);
    assert!(!changed);
}

#[test]
fn test_label_propagation() {
    let t = topo(0, &[]);
    let labels = LabelPropagation::new(10).detect(&t).unwrap();
    assert!(labels.is_empty());
}

#[test]
fn triangle_settles_on_one_label() {
    let t = topo(4, &[(0, 1), (1, 2), (2, 0)]);
    let labels = LabelPropagation::new(10).detect(&t).unwrap();
    assert_eq!(labels.len(), 4);
    assert_eq!(labels[0], labels[1]);
    assert_eq!(labels[1], labels[2]);
    assert_eq!(labels[3], 0);
}

#[test]
fn no_rounds_keep_initial_labels() {
    let t = topo(3, &[(0, 1)]);
    assert_eq!(LabelPropagation::new(0).detect(&t).unwrap(), vec![0, 1, 2]);
}

#[test]
fn community_edges_are_counted_per_unordered_pair() {
    let t = topo(5, &[(0, 1), (1, 2), (2, 1), (3, 4), (0, 4), (4, 0)]);
    let communities = vec![0, 0, 1, 2, 2];
    let mut w = community_edge_weights(&t, &communities);
    w.sort();
    assert_eq!(w, vec![((0, 1), 2), ((0, 2), 2)]);
}

#[test]
fn community_nodes_are_named_by_number() {
    assert_eq!(community_node_id(3), NodeId::from_string("community_3"));
}

#[test]
fn greedy_coloring_takes_smallest_free_color() {
    let t = topo(4, &[(0, 1), (1, 2), (2, 0), (2, 3)]);
    let colors = ParallelAlgorithms::parallel_graph_coloring(&t);
    assert_eq!(colors, vec![0, 1, 2, 0]);
}

#[test]
fn loops_do_not_constrain_coloring() {
    let t = topo(2, &[(0, 0), (1, 1)]);
    assert_eq!(ParallelAlgorithms::parallel_graph_coloring(&t), vec![0, 0]);
}

#[test]
fn test_parallel_algorithms() {
    let t = topo(0, &[]);
    let comps = ParallelAlgorithms::parallel_connected_components(&t);
    assert!(comps.is_empty());
}

#[test]
fn parallel_components_of_a_small_graph() {
    let t = topo(3, &[(0, 1)]);
    let comps = ParallelAlgorithms::parallel_connected_components(&t);
    assert_eq!(comps, vec![vec![0, 1], vec![2]]);
}
