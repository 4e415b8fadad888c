use gaussrdl::betweenness::shortest_route_structure;
use gaussrdl::centrality::BetweennessCentrality;
use gaussrdl::topology::Topology;

fn diamonds(stages: usize) -> Topology {
    let mut edges = Vec::new();
    let mut cur = 0;
    let mut next = 1;
    for _ in 0..stages {
        let (a, b, end) = (next, next + 1, next + 2);
        edges.extend_from_slice(&[(cur, a), (cur, b), (a, end), (b, end)]);
        cur = end;
        next += 3;
    }
    Topology { num_nodes: next, edges }
}

#[test]
fn diamond_has_two_shortest_routes_to_its_sink() {
    let topo = Topology { num_nodes: 4, edges: vec![(0, 1), (0, 2), (1, 3), (2, 3)] };
    let (d, tails, counts) = BetweennessCentrality::shortest_routes(&topo, 0);
    assert_eq!(d, vec![Some(0), Some(1), Some(1), Some(2)]);
    assert_eq!(tails, vec![vec![], vec![0], vec![0], vec![1, 2]]);
    assert_eq!(counts, Some(vec![1, 1, 1, 2]));
}

#[test]
fn parallel_edges_are_separate_routes() {
    let topo = Topology { num_nodes: 3, edges: vec![(0, 1), (0, 1), (1, 2)] };
    let (_, tails, counts) = BetweennessCentrality::shortest_routes(&topo, 0);
    assert_eq!(tails[1], vec![0, 0]);
    assert_eq!(counts, Some(vec![1, 2, 2]));
}

#[test]
fn unreached_nodes_have_no_routes() {
    let topo = Topology { num_nodes: 2, edges: vec![(1, 0)] };
    let (d, tails, counts) = BetweennessCentrality::shortest_routes(&topo, 0);
    assert_eq!(d, vec![Some(0), None]);
    assert_eq!(tails, vec![Vec::<usize>::new(), Vec::new()]);
    assert_eq!(counts, Some(vec![1, 0]));
}

#[test]
fn longer_edges_are_not_tight() {
    let topo = Topology { num_nodes: 3, edges: vec![(0, 1), (1, 2), (0, 2)] };
    let (d, tails, counts) = BetweennessCentrality::shortest_routes(&topo, 0);
    assert_eq!(d, vec![Some(0), Some(1), Some(1)]);
    assert_eq!(tails[2], vec![0]);
    assert_eq!(counts, Some(vec![1, 1, 1]));
}

#[test]
fn route_counts_double_with_each_diamond() {
    let topo = diamonds(30);
    let (_, _, counts) = BetweennessCentrality::shortest_routes(&topo, 0);
    let counts = counts.expect("counts fit");
    assert_eq!(counts[topo.num_nodes - 1], 1u64 << 30);
}

#[test]
fn route_counts_beyond_the_counter_are_refused() {
    let topo = diamonds(31);
    let (_, _, counts) = BetweennessCentrality::shortest_routes(&topo, 0);
    assert_eq!(counts, None);
}

#[test]
fn undirected_routes_follow_edges_both_ways() {
    let topo = Topology { num_nodes: 4, edges: vec![(1, 0), (0, 2), (3, 1), (2, 3)] };
    let (d, tails, counts) = shortest_route_structure(&topo, 0, false, u64::MAX / 2);
    assert_eq!(d, vec![Some(0), Some(1), Some(1), Some(2)]);
    assert_eq!(tails[3], vec![1, 2]);
    assert_eq!(counts, Some(vec![1, 1, 1, 2]));
    let (dd, _, dc) = shortest_route_structure(&topo, 0, true, u64::MAX / 2);
    assert_eq!(dd, vec![Some(0), Some(3), Some(1), Some(2)]);
    assert_eq!(dc, Some(vec![1, 1, 1, 1]));
}

#[test]
fn a_small_limit_refuses_larger_counts() {
    let topo = Topology { num_nodes: 4, edges: vec![(0, 1), (0, 2), (1, 3), (2, 3)] };
    let (_, _, counts) = shortest_route_structure(&topo, 0, true, 1);
    assert_eq!(counts, None);
    let (_, _, counts) = shortest_route_structure(&topo, 0, true, 2);
    assert_eq!(counts, Some(vec![1, 1, 1, 2]));
}

#[test]
fn visits_reached_nodes_nearest_first() {
    let topo = Topology { num_nodes: 5, edges: vec![(0, 1), (0, 2), (1, 3), (3, 0), (4, 0)] };
    let order = gaussrdl::centrality::visit_order(&topo, 0);
    assert_eq!(order, vec![0, 1, 2, 3]);
    let from_four = gaussrdl::centrality::visit_order(&topo, 4);
    assert_eq!(from_four, vec![4, 0, 1, 2, 3]);
    let from_two = gaussrdl::centrality::visit_order(&topo, 2);
    assert_eq!(from_two, vec![2]);
}
