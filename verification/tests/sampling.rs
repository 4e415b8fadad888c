use gaussrdl::adaptive::adaptive_edges;
use gaussrdl::error::GraphError;
use gaussrdl::sampler::{validate_fanouts, LayerWiseSampler as FanoutSampler};
use gaussrdl::sampling::{relabel_walk_steps, walk_to_subgraph, LayerWiseSampler};
use rand::rngs::StdRng;
use rand::SeedableRng;

fn rng_from(seed: u64) -> StdRng {
    StdRng::seed_from_u64(seed)
}

fn matrix(n: usize, arcs: &[(usize, usize)]) -> Vec<bool> {
    let mut adj = vec![false; n * n];
    for &(u, v) in arcs {
        adj[u * n + v] = true;
    }
    adj
}

#[test]
fn no_neighbours_no_sample() {
    let s = LayerWiseSampler::new(vec![3], false);
    let mut rng = rng_from(7);
    assert!(s.sample_neighbors(&Vec::new(), 3, &mut rng).is_empty());
}

#[test]
fn sampling_with_replacement_draws_k() {
    let s = LayerWiseSampler::new(vec![5], true);
    let mut rng = rng_from(1);
    let neighbors = vec![4, 9];
    let picked = s.sample_neighbors(&neighbors, 5, &mut rng);
    assert_eq!(picked.len(), 5);
    assert!(picked.iter().all(|x| neighbors.contains(x)));
}

#[test]
fn sampling_without_replacement_draws_distinct() {
    let s = LayerWiseSampler::new(vec![5], false);
    let mut rng = rng_from(2);
    let neighbors = vec![10, 11, 12];
    let mut picked = s.sample_neighbors(&neighbors, 5, &mut rng);
    picked.sort();
    assert_eq!(picked, vec![10, 11, 12]);
    let two = s.sample_neighbors(&neighbors, 2, &mut rng);
    assert_eq!(two.len(), 2);
    assert_ne!(two[0], two[1]);
}

#[test]
fn sampled_nodes_have_incoming_edges() {
    let adj = matrix(4, &[(0, 1), (1, 2), (2, 1)]);
    let s = LayerWiseSampler::new(vec![2, 2], false);
    let mut nodes = s.sample_nodes(&adj, 4, Some(3)).unwrap();
    nodes.sort();
    nodes.dedup();
    for v in &nodes {
        assert!(*v == 1 || *v == 2);
    }
    assert!(!nodes.is_empty());
}

#[test]
fn no_layers_no_nodes() {
    let adj = matrix(3, &[(0, 1)]);
    let s = LayerWiseSampler::new(Vec::new(), false);
    assert!(s.sample_nodes(&adj, 3, None).unwrap().is_empty());
}

#[test]
fn induced_edges_in_row_order() {
    let adj = matrix(4, &[(0, 1), (1, 0), (3, 1), (2, 2)]);
    let nodes = vec![1, 3, 0];
    let edges = LayerWiseSampler::induced_edges(&nodes, &adj, 4);
    assert_eq!(edges, vec![(0, 2), (1, 0), (2, 0)]);
}

#[test]
fn walks_give_first_visits_and_distinct_steps() {
    let walks = vec![vec![1, 2, 1, 3], vec![2, 4], vec![5]];
    let (nodes, edges) = walk_to_subgraph(&walks, 2);
    assert_eq!(nodes, vec![(1, 0), (2, 1), (3, 2), (4, 1), (5, 0)]);
    assert_eq!(edges, vec![(1, 2), (2, 1), (1, 3), (2, 4)]);
}

#[test]
fn repeated_steps_are_kept_once() {
    let walks = vec![vec![1, 2, 1, 2], vec![2, 1]];
    let (nodes, edges) = walk_to_subgraph(&walks, 10);
    assert_eq!(nodes, vec![(1, 0), (2, 1)]);
    assert_eq!(edges, vec![(1, 2), (2, 1)]);
}

#[test]
fn no_walks_no_subgraph() {
    let (nodes, edges) = walk_to_subgraph(&Vec::new(), 3);
    assert!(nodes.is_empty());
    assert!(edges.is_empty());
}

#[test]
fn walk_steps_relabelled_by_position() {
    let walks = vec![vec![7, 8, 7], vec![9], vec![8, 10]];
    let (nodes, edges) = relabel_walk_steps(&walks);
    assert_eq!(nodes, vec![7, 8, 10]);
    assert_eq!(edges, vec![(0, 1), (1, 0), (1, 2)]);
}

#[test]
fn single_node_walks_touch_no_node() {
    let (nodes, edges) = relabel_walk_steps(&vec![vec![3], vec![]]);
    assert!(nodes.is_empty());
    assert!(edges.is_empty());
}

#[test]
fn edges_among_chosen_nodes_at_later_end() {
    let order = vec![4, 1, 3];
    let edges = vec![(1, 4), (3, 3), (4, 2), (3, 1), (1, 3)];
    assert_eq!(adaptive_edges(&order, &edges), vec![(1, 0), (2, 2), (2, 1), (1, 2)]);
}

#[test]
fn no_chosen_nodes_no_edges() {
    assert!(adaptive_edges(&Vec::new(), &vec![(0, 1)]).is_empty());
}

#[test]
fn fanout_draw_with_replacement_takes_min_of_fanout_and_degree() {
    let s = FanoutSampler::new(vec![3], true);
    let mut rng = rng_from(11);
    let nbrs = vec![5, 6, 7, 8];
    let picked = s.draw_neighbors(&nbrs, 3, &mut rng);
    assert_eq!(picked.len(), 3);
    assert!(picked.iter().all(|x| nbrs.contains(x)));
    let few = s.draw_neighbors(&vec![9], 3, &mut rng);
    assert_eq!(few, vec![9]);
    assert!(s.draw_neighbors(&Vec::new(), 3, &mut rng).is_empty());
}

#[test]
fn fanout_draw_without_replacement_takes_distinct_neighbours() {
    let s = FanoutSampler::new(vec![2], false);
    let mut rng = rng_from(12);
    let nbrs = vec![1, 2, 3, 4, 5];
    let mut picked = s.draw_neighbors(&nbrs, 2, &mut rng);
    assert_eq!(picked.len(), 2);
    assert!(picked.iter().all(|x| nbrs.contains(x)));
    picked.dedup();
    assert_eq!(picked.len(), 2);
}

#[test]
fn fanout_layer_pairs_each_node_with_its_draws() {
    let s = FanoutSampler::new(vec![5], false);
    let mut rng = rng_from(13);
    let lists = vec![vec![1, 2], vec![2], vec![]];
    let (next, pairs) = s.sample_layer(&lists, &vec![0, 1, 2], 5, &mut rng);
    assert_eq!(pairs.len(), 3);
    assert_eq!(pairs[0].0, 0);
    assert_eq!(pairs[1].0, 0);
    assert_eq!(pairs[2], (1, 2));
    for &(u, v) in &pairs {
        assert!(lists[u].contains(&v));
    }
    let mut seen = Vec::new();
    for &(_, v) in &pairs {
        if !seen.contains(&v) {
            seen.push(v);
        }
    }
    assert_eq!(next, seen);
}

#[test]
fn fanout_sampling_follows_a_path() {
    let s = FanoutSampler::new(vec![1, 1, 1], false);
    let lists = vec![vec![1], vec![2], vec![]];
    let (nodes, pairs) = s.sample_subgraph(&lists, &vec![0], Some(14)).unwrap();
    assert_eq!(nodes, vec![(0, 0), (1, 1), (2, 2)]);
    assert_eq!(pairs, vec![(0, 1), (1, 2)]);
}

#[test]
fn fanout_sampling_keeps_repeated_seeds_and_reached_nodes_once() {
    let s = FanoutSampler::new(vec![4], true);
    let lists = vec![vec![1], vec![]];
    let (nodes, pairs) = s.sample_subgraph(&lists, &vec![0, 0], Some(15)).unwrap();
    assert_eq!(nodes, vec![(0, 0), (0, 0), (1, 1)]);
    assert_eq!(pairs, vec![(0, 1), (0, 1)]);
}

#[test]
fn fanout_sampling_without_layers_keeps_the_seeds() {
    let s = FanoutSampler::new(Vec::new(), false);
    let lists = vec![vec![1], vec![0]];
    let (nodes, pairs) = s.sample_subgraph(&lists, &vec![1], None).unwrap();
    assert_eq!(nodes, vec![(1, 0)]);
    assert!(pairs.is_empty());
}

#[test]
fn fixed_seed_reproduces_the_fanout_sample() {
    let s = FanoutSampler::new(vec![2, 2], false);
    let lists = vec![vec![1, 2, 3], vec![0, 2, 4], vec![3, 4], vec![0, 4], vec![1, 2]];
    let a = s.sample_subgraph(&lists, &vec![0], Some(42)).unwrap();
    let b = s.sample_subgraph(&lists, &vec![0], Some(42)).unwrap();
    assert_eq!(a, b);
}

#[test]
fn fixed_seed_reproduces_the_node_sample() {
    let s = LayerWiseSampler::new(vec![2, 2], false);
    let adj = matrix(5, &[(0, 1), (0, 2), (1, 3), (2, 4), (3, 4), (4, 0)]);
    assert_eq!(s.sample_nodes(&adj, 5, Some(9)).unwrap(), s.sample_nodes(&adj, 5, Some(9)).unwrap());
}

#[test]
fn fanouts_are_validated() {
    assert!(validate_fanouts(&vec![10, 5]).is_ok());
    match validate_fanouts(&Vec::new()) {
        Err(GraphError::ValidationError(m)) => assert_eq!(m, "Fanouts cannot be empty"),
        other => panic!("unexpected {:?}", other),
    }
    match validate_fanouts(&vec![3, 0, 2]) {
        Err(GraphError::ValidationError(m)) => assert_eq!(m, "All fanouts must be > 0"),
        other => panic!("unexpected {:?}", other),
    }
}
