use gaussrdl::centrality::{shortest_distances, ClosenessCentrality};
use gaussrdl::graph_metrics::{GraphMetrics, GraphStats};
use gaussrdl::node_id::NodeId;
use gaussrdl::topology::Topology;
use gaussrdl::visualization::GraphVisualizer;

fn topo(n: usize, edges: &[(usize, usize)]) -> Topology {
    Topology { num_nodes: n, edges: edges.to_vec() }
}

#[test]
fn degrees_count_touching_edges() {
    let t = topo(4, &[(0, 1), (1, 2), (2, 2), (0, 2)]);
    assert_eq!(GraphMetrics::degrees(&t), vec![2, 2, 3, 0]);
}

#[test]
fn clustering_counts_of_a_triangle() {
    let t = topo(4, &[(0, 1), (1, 2), (2, 0), (2, 3)]);
    let c = GraphMetrics::clustering_counts(&t);
    assert_eq!(c[0], (2, 1));
    assert_eq!(c[1], (2, 1));
    assert_eq!(c[2], (3, 1));
    assert_eq!(c[3], (1, 0));
}

#[test]
fn directed_distances_follow_edges() {
    let t = topo(4, &[(0, 1), (1, 2), (3, 0)]);
    assert_eq!(shortest_distances(&t, 0, true), vec![Some(0), Some(1), Some(2), None]);
    assert_eq!(shortest_distances(&t, 0, false), vec![Some(0), Some(1), Some(2), Some(1)]);
}

#[test]
fn closeness_totals() {
    let t = topo(4, &[(0, 1), (1, 2), (0, 2), (3, 0)]);
    assert_eq!(ClosenessCentrality::distance_total(&t, 0), 2);
    assert_eq!(ClosenessCentrality::distance_total(&t, 3), 1 + 2 + 2);
    assert_eq!(GraphMetrics::closeness_profile(&t, 2), (4, 1 + 1 + 2));
}

#[test]
fn dot_text_of_a_small_graph() {
    let a = NodeId::new(0, 1);
    let b = NodeId::new(0, 2);
    let text = GraphVisualizer::dot_text(&vec![a.clone(), b.clone()], &vec![(a, b, "LINKS".to_string())]);
    assert_eq!(
        text,
        "digraph G {\n  rankdir=LR;\n  node [shape=circle];\n  \"0:1\" [label=\"0:1\"];\n  \"0:2\" [label=\"0:2\"];\n  \"0:1\" -> \"0:2\" [label=\"LINKS\"];\n}\n"
    );
}

#[test]
fn test_export_to_dot() {
    let text = GraphVisualizer::dot_text(&Vec::new(), &Vec::new());
    assert_eq!(text, "digraph G {\n  rankdir=LR;\n  node [shape=circle];\n}\n");
}

#[test]
fn type_distribution_counts_in_first_seen_order() {
    let d = GraphVisualizer::type_distribution(&vec![2, 1, 2, 3, 2, 1]);
    assert_eq!(d, vec![(2, 3), (1, 2), (3, 1)]);
    assert!(GraphVisualizer::type_distribution(&vec![]).is_empty());
}

#[test]
fn relation_distribution_counts_names() {
    let names: Vec<String> = ["follows", "buys", "follows", "follows"].iter().map(|s| s.to_string()).collect();
    let d = GraphVisualizer::relation_distribution(&names);
    assert_eq!(d, vec![("follows".to_string(), 3), ("buys".to_string(), 1)]);
    assert!(GraphVisualizer::relation_distribution(&Vec::new()).is_empty());
}

#[test]
fn graph_stats_count_nodes_edges_and_degrees() {
    let t = Topology { num_nodes: 4, edges: vec![(0, 1), (1, 2), (0, 2), (2, 2)] };
    let s = GraphStats::new(&t, 2);
    assert_eq!((s.num_nodes, s.num_edges, s.num_relation_types), (4, 4, 2));
    assert_eq!(s.max_degree, 3);
    assert_eq!(s.min_degree, 0);
    let empty = GraphStats::new(&Topology { num_nodes: 0, edges: Vec::new() }, 0);
    assert_eq!((empty.max_degree, empty.min_degree), (0, 0));
}
