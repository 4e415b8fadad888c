use gaussrdl::builder::{DensityLimit, GraphBuilder, GraphBuilderConfig};
use gaussrdl::error::GraphError;
use gaussrdl::node_id::NodeId;

fn rel() -> String {
    "CONNECTS_TO".to_string()
}

#[test]
fn test_graph_builder_basic() {
    let config = GraphBuilderConfig::default();
    let mut builder = GraphBuilder::new(config);

    builder.add_node(NodeId::from_string("1")).unwrap();
    builder.add_node(NodeId::from_string("2")).unwrap();

    builder.add_edge(NodeId::from_string("1"), NodeId::from_string("2"), 0, rel()).unwrap();

    let graph = builder.build().unwrap();
    assert_eq!(graph.nodes.len(), 2);
    assert_eq!(graph.topology.edges.len(), 1);
}

#[test]
fn test_cycle_detection() {
    let mut config = GraphBuilderConfig::default();
    config.allow_cycles = false;
    let mut builder = GraphBuilder::new(config);

    builder.add_node(NodeId::from_string("1")).unwrap();
    builder.add_node(NodeId::from_string("2")).unwrap();
    builder.add_node(NodeId::from_string("3")).unwrap();

    builder.add_edge(NodeId::from_string("1"), NodeId::from_string("2"), 0, rel()).unwrap();
    builder.add_edge(NodeId::from_string("2"), NodeId::from_string("3"), 0, rel()).unwrap();

    let result = builder.add_edge(NodeId::from_string("3"), NodeId::from_string("1"), 0, rel());
    assert!(matches!(result, Err(GraphError::CycleDetected)));
}

#[test]
fn cycles_allowed_when_configured() {
    let mut config = GraphBuilderConfig::default();
    config.allow_cycles = true;
    let mut builder = GraphBuilder::new(config);
    for i in 0..3u64 {
        builder.add_node(NodeId::new(0, i)).unwrap();
    }
    builder.add_edge(NodeId::new(0, 0), NodeId::new(0, 1), 0, rel()).unwrap();
    builder.add_edge(NodeId::new(0, 1), NodeId::new(0, 2), 0, rel()).unwrap();
    assert!(builder.add_edge(NodeId::new(0, 2), NodeId::new(0, 0), 0, rel()).is_ok());
    assert_eq!(builder.num_edges(), 3);
}

#[test]
fn self_loop_is_a_cycle() {
    let mut builder = GraphBuilder::new(GraphBuilderConfig::default());
    builder.add_node(NodeId::new(1, 1)).unwrap();
    let result = builder.add_edge(NodeId::new(1, 1), NodeId::new(1, 1), 0, rel());
    assert!(matches!(result, Err(GraphError::CycleDetected)));
    assert_eq!(builder.num_edges(), 0);
}

#[test]
fn test_density_constraint() {
    let mut config = GraphBuilderConfig::default();
    config.max_density = DensityLimit { numerator: 1, denominator: 2 };
    let mut builder = GraphBuilder::new(config);

    for i in 0..4 {
        builder.add_node(NodeId::from_string(&i.to_string())).unwrap();
    }

    let edges = vec![("0", "1"), ("1", "2"), ("2", "3"), ("3", "0"), ("0", "2")];

    let mut results = Vec::new();
    for (from, to) in edges {
        results.push(builder.add_edge(NodeId::from_string(from), NodeId::from_string(to), 0, rel()));
    }

    assert!(matches!(results.last().unwrap(), Err(GraphError::GraphTooDense { .. })));
}

#[test]
fn density_refusal_keeps_the_edge_and_reports_counts() {
    let mut config = GraphBuilderConfig::default();
    config.max_density = DensityLimit { numerator: 1, denominator: 2 };
    let mut builder = GraphBuilder::new(config);
    for i in 0..4 {
        builder.add_node(NodeId::from_string(&i.to_string())).unwrap();
    }
    let edges = vec![("0", "1"), ("1", "2"), ("2", "3"), ("3", "0"), ("0", "2")];
    let mut results = Vec::new();
    for (from, to) in edges {
        results.push(builder.add_edge(NodeId::from_string(from), NodeId::from_string(to), 0, rel()));
    }
    assert!(results[0].is_ok());
    assert!(results[1].is_ok());
    assert!(results[2].is_ok());
    assert!(matches!(results[3], Err(GraphError::CycleDetected)));
    match results.last().unwrap() {
        Err(GraphError::GraphTooDense { edges, node_pairs, max_density }) => {
            assert_eq!(*edges, 4);
            assert_eq!(*node_pairs, 6);
            assert_eq!(*max_density, DensityLimit { numerator: 1, denominator: 2 });
        }
        other => panic!("unexpected {:?}", other),
    }
    assert_eq!(builder.num_edges(), 4);
}

#[test]
fn duplicate_node_is_refused() {
    let mut builder = GraphBuilder::new(GraphBuilderConfig::default());
    builder.add_node(NodeId::new(2, 7)).unwrap();
    match builder.add_node(NodeId::new(2, 7)) {
        Err(GraphError::DuplicateNode(s)) => assert_eq!(s, "2:7"),
        other => panic!("unexpected {:?}", other),
    }
    assert_eq!(builder.num_nodes(), 1);
}

#[test]
fn node_limit_is_enforced() {
    let mut config = GraphBuilderConfig::default();
    config.max_nodes = 1;
    let mut builder = GraphBuilder::new(config);
    builder.add_node(NodeId::new(0, 1)).unwrap();
    match builder.add_node(NodeId::new(0, 2)) {
        Err(GraphError::GraphTooLarge { nodes, max_nodes }) => {
            assert_eq!(nodes, 2);
            assert_eq!(max_nodes, 1);
        }
        other => panic!("unexpected {:?}", other),
    }
}

#[test]
fn edge_limit_is_enforced() {
    let mut config = GraphBuilderConfig::default();
    config.max_edges = 1;
    let mut builder = GraphBuilder::new(config);
    for i in 0..3u64 {
        builder.add_node(NodeId::new(0, i)).unwrap();
    }
    builder.add_edge(NodeId::new(0, 0), NodeId::new(0, 1), 0, rel()).unwrap();
    match builder.add_edge(NodeId::new(0, 1), NodeId::new(0, 2), 0, rel()) {
        Err(GraphError::InvalidOperation(m)) => assert_eq!(m, "Maximum number of edges (1) exceeded"),
        other => panic!("unexpected {:?}", other),
    }
}

#[test]
fn missing_endpoint_is_reported() {
    let mut builder = GraphBuilder::new(GraphBuilderConfig::default());
    builder.add_node(NodeId::new(0, 1)).unwrap();
    match builder.add_edge(NodeId::new(0, 1), NodeId::new(0, 9), 0, rel()) {
        Err(GraphError::NodeNotFound(s)) => assert_eq!(s, "0:9"),
        other => panic!("unexpected {:?}", other),
    }
    match builder.add_edge(NodeId::new(0, 8), NodeId::new(0, 1), 0, rel()) {
        Err(GraphError::NodeNotFound(s)) => assert_eq!(s, "0:8"),
        other => panic!("unexpected {:?}", other),
    }
}

#[test]
fn duplicate_edge_is_refused_per_relation() {
    let mut builder = GraphBuilder::new(GraphBuilderConfig::default());
    builder.add_node(NodeId::new(0, 1)).unwrap();
    builder.add_node(NodeId::new(0, 2)).unwrap();
    builder.add_edge(NodeId::new(0, 1), NodeId::new(0, 2), 3, rel()).unwrap();
    match builder.add_edge(NodeId::new(0, 1), NodeId::new(0, 2), 3, rel()) {
        Err(GraphError::DuplicateEdge { from, to, relation }) => {
            assert_eq!(from, "0:1");
            assert_eq!(to, "0:2");
            assert_eq!(relation, "CONNECTS_TO");
        }
        other => panic!("unexpected {:?}", other),
    }
    assert!(builder.add_edge(NodeId::new(0, 1), NodeId::new(0, 2), 4, "OTHER".to_string()).is_ok());
}

#[test]
fn empty_graph_does_not_build() {
    let builder = GraphBuilder::new(GraphBuilderConfig::default());
    match builder.build() {
        Err(GraphError::ValidationError(m)) => assert_eq!(m, "Graph has no nodes"),
        Err(other) => panic!("unexpected {:?}", other),
        Ok(_) => panic!("empty graph built"),
    }
}

#[test]
fn disconnected_graph_does_not_build_when_connectivity_required() {
    let mut builder = GraphBuilder::new(GraphBuilderConfig::default());
    builder.add_node(NodeId::new(0, 1)).unwrap();
    builder.add_node(NodeId::new(0, 2)).unwrap();
    assert!(!builder.is_connected());
    assert!(matches!(builder.build(), Err(GraphError::Disconnected)));

    let mut config = GraphBuilderConfig::default();
    config.require_connected = false;
    let mut builder = GraphBuilder::new(config);
    builder.add_node(NodeId::new(0, 1)).unwrap();
    builder.add_node(NodeId::new(0, 2)).unwrap();
    assert!(builder.build().is_ok());
}

fn named(edges: &[(&str, &str, usize)]) -> Vec<(String, String, usize, String)> {
    edges.iter().map(|(a, b, r)| (a.to_string(), b.to_string(), *r, format!("R{}", r))).collect()
}

#[test]
fn build_from_edges_names_nodes_once() {
    let g = GraphBuilder::build_from_edges(&named(&[("a", "b", 0), ("b", "c", 0), ("a", "c", 1)])).unwrap();
    assert_eq!(g.nodes, vec![NodeId::from_string("a"), NodeId::from_string("b"), NodeId::from_string("c")]);
    assert_eq!(g.topology.edges, vec![(0, 1), (1, 2), (0, 2)]);
    assert_eq!(g.relations, vec![0, 0, 1]);
}

#[test]
fn build_from_edges_refuses_cycles_and_repeats() {
    assert!(matches!(
        GraphBuilder::build_from_edges(&named(&[("a", "b", 0), ("b", "a", 0)])),
        Err(GraphError::CycleDetected)
    ));
    match GraphBuilder::build_from_edges(&named(&[("a", "b", 0), ("a", "b", 0)])) {
        Err(GraphError::DuplicateEdge { relation, .. }) => assert_eq!(relation, "R0"),
        other => panic!("unexpected {:?}", other.map(|g| g.nodes.len())),
    }
}

#[test]
fn build_from_edges_needs_nodes_and_connectivity() {
    match GraphBuilder::build_from_edges(&Vec::new()) {
        Err(GraphError::ValidationError(m)) => assert_eq!(m, "Graph has no nodes"),
        other => panic!("unexpected {:?}", other.map(|g| g.nodes.len())),
    }
    assert!(matches!(
        GraphBuilder::build_from_edges(&named(&[("a", "b", 0), ("c", "d", 0)])),
        Err(GraphError::Disconnected)
    ));
}
