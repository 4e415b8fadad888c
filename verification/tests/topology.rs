use gaussrdl::connectivity::{connected_components, is_connected, would_create_cycle};
use gaussrdl::paths::{links_reach, BFSShortestPath, DijkstraShortestPath};
use gaussrdl::reach::dfs_collect;
use gaussrdl::topology::{bfs_explore, Topology};

fn topo(n: usize, edges: &[(usize, usize)]) -> Topology {
    Topology { num_nodes: n, edges: edges.to_vec() }
}

#[test]
fn bfs_distances_and_paths() {
    let t = topo(5, &[(0, 1), (1, 2), (0, 3), (3, 2)]);
    let r = BFSShortestPath.compute(&t, 0);
    assert_eq!(r.len(), 5);
    assert_eq!(r[0], Some((0, vec![0])));
    assert_eq!(r[1], Some((1, vec![0, 1])));
    assert_eq!(r[3], Some((1, vec![0, 3])));
    let (d2, p2) = r[2].clone().unwrap();
    assert_eq!(d2, 2);
    assert!(p2 == vec![0, 1, 2] || p2 == vec![0, 3, 2]);
    assert_eq!(r[4], None);
}

#[test]
fn bfs_ignores_edge_direction() {
    let t = topo(3, &[(1, 0), (2, 1)]);
    let r = BFSShortestPath.compute(&t, 0);
    assert_eq!(r[2], Some((2, vec![0, 1, 2])));
}

#[test]
fn test_bfs_shortest_path() {
    let t = topo(1, &[]);
    let r = BFSShortestPath.compute(&t, 0);
    assert_eq!(r, vec![Some((0, vec![0]))]);
}

#[test]
fn bfs_explore_visits_in_level_order() {
    let t = topo(4, &[(0, 1), (0, 2), (1, 3)]);
    let (dist, _prev, order) = bfs_explore(&t, 0, false);
    assert_eq!(order, vec![0, 1, 2, 3]);
    assert_eq!(dist[3], 2);
}

#[test]
fn reconstruct_path_follows_links() {
    // previous links: 1 <- 0, 2 <- 1, 3 <- 1
    let previous = vec![0, 0, 1, 1];
    assert_eq!(BFSShortestPath.reconstruct_path(&previous, 0, 3), vec![0, 1, 3]);
    assert_eq!(DijkstraShortestPath.reconstruct_path(&previous, 0, 2), vec![0, 1, 2]);
    assert_eq!(DijkstraShortestPath.reconstruct_path(&previous, 0, 0), vec![0]);
}

#[test]
fn connectivity_checks() {
    assert!(is_connected(&topo(0, &[])));
    assert!(is_connected(&topo(1, &[])));
    assert!(!is_connected(&topo(2, &[])));
    assert!(is_connected(&topo(3, &[(2, 1), (0, 1)])));
    assert!(!is_connected(&topo(4, &[(0, 1), (2, 3)])));
}

#[test]
fn cycle_check_follows_direction() {
    let t = topo(3, &[(0, 1), (1, 2)]);
    assert!(would_create_cycle(&t, 2, 0));
    assert!(!would_create_cycle(&t, 0, 2));
    assert!(would_create_cycle(&t, 1, 1));
}

#[test]
fn components_partition_the_nodes() {
    let t = topo(6, &[(0, 2), (3, 4), (4, 5), (2, 0)]);
    let comps = connected_components(&t);
    assert_eq!(comps.len(), 3);
    let mut sorted: Vec<Vec<usize>> = comps
        .into_iter()
        .map(|mut c| {
            c.sort();
            c
        })
        .collect();
    sorted.sort();
    assert_eq!(sorted, vec![vec![0, 2], vec![1], vec![3, 4, 5]]);
}

#[test]
fn components_start_at_their_smallest_node() {
    let t = topo(4, &[(3, 1), (2, 0)]);
    let comps = connected_components(&t);
    assert_eq!(comps[0][0], 0);
    assert_eq!(comps[1][0], 1);
}

#[test]
fn dfs_collect_marks_what_it_visits() {
    let t = topo(4, &[(0, 1), (1, 2)]);
    let mut visited = vec![false; 4];
    let comp = dfs_collect(&t, true, 1, &mut visited);
    let mut c = comp.clone();
    c.sort();
    assert_eq!(c, vec![1, 2]);
    assert_eq!(visited, vec![false, true, true, false]);
}

#[test]
fn links_reach_detects_traceable_paths() {
    // 0 <- 1 <- 2, node 3 loops on itself, node 4 points past the end
    let previous = vec![0, 0, 1, 3, 9];
    assert!(links_reach(&previous, 0, 2));
    assert!(links_reach(&previous, 0, 0));
    assert!(!links_reach(&previous, 0, 3));
    assert!(!links_reach(&previous, 0, 4));
    assert!(!links_reach(&previous, 0, 7));
    assert!(!links_reach(&previous, 8, 2));
}
