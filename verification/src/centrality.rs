//! Shortest route lengths by breadth-first search, and the distance totals
//! that closeness centrality is computed from.
use vstd::prelude::*;
use crate::topology::{
    Topology, bfs_explore, bfs_state, bfs_shape, bfs_discovered, bfs_levels, bfs_parents, lemma_bfs_walk_levels,
};
use crate::reach::{linked, is_route, reaches};

verus! {

/// Closeness centrality: how near a node is to the nodes it reaches.
pub struct ClosenessCentrality;

/// Betweenness centrality: how often a node lies on shortest routes.
pub struct BetweennessCentrality;

/// `d` is the length (in edges) of a shortest route from `s` to `v`.
pub open spec fn is_distance(edges: Seq<(usize, usize)>, directed: bool, s: usize, v: usize, d: nat) -> bool {
    &&& exists|p: Seq<usize>| #[trigger] is_route(edges, directed, p) && p[0] == s && p.last() == v && p.len() == d + 1
    &&& forall|q: Seq<usize>| #[trigger] is_route(edges, directed, q) && q[0] == s && q.last() == v ==> q.len() >= d + 1
}

/// The length of a shortest route from `s` to `v`, where one exists.
pub open spec fn distance(edges: Seq<(usize, usize)>, directed: bool, s: usize, v: usize) -> nat {
    choose|d: nat| is_distance(edges, directed, s, v, d)
}

/// The sum of the distances from `s` to the nodes below `k` that it reaches.
pub open spec fn distance_total(edges: Seq<(usize, usize)>, directed: bool, s: usize, k: nat) -> nat
    decreases k,
{
    if k == 0 {
        0
    } else {
        let v = (k - 1) as usize;
        distance_total(edges, directed, s, (k - 1) as nat)
            + if reaches(edges, directed, s, v) { distance(edges, directed, s, v) } else { 0 }
    }
}

/// How many of the nodes below `k` `s` reaches (itself included).
pub open spec fn reach_count(edges: Seq<(usize, usize)>, directed: bool, s: usize, k: nat) -> nat
    decreases k,
{
    if k == 0 {
        0
    } else {
        reach_count(edges, directed, s, (k - 1) as nat) + if reaches(edges, directed, s, (k - 1) as usize) { 1nat } else { 0nat }
    }
}

/// A node's shortest route length is unique.
proof fn lemma_distance_unique(edges: Seq<(usize, usize)>, directed: bool, s: usize, v: usize, d: nat)
    requires
        is_distance(edges, directed, s, v, d),
    ensures
        distance(edges, directed, s, v) == d,
{
    let e = distance(edges, directed, s, v);
    assert(is_distance(edges, directed, s, v, e));
    let p = choose|p: Seq<usize>| #[trigger] is_route(edges, directed, p) && p[0] == s && p.last() == v && p.len() == d + 1;
    let q = choose|q: Seq<usize>| #[trigger] is_route(edges, directed, q) && q[0] == s && q.last() == v && q.len() == e + 1;
}

/// Following discovery parents back from a discovered node gives a route
/// from the source with as many edges as the node's level.
proof fn lemma_bfs_route(
    edges: Seq<(usize, usize)>,
    directed: bool,
    n: nat,
    source: usize,
    dist: Seq<usize>,
    prev: Seq<usize>,
    order: Seq<usize>,
    v: usize,
)
    requires
        bfs_state(edges, directed, n, source, dist, prev, order, order.len()),
        v < n,
        dist[v as int] != usize::MAX,
    ensures
        exists|p: Seq<usize>| #[trigger] is_route(edges, directed, p) && p[0] == source && p.last() == v
            && p.len() == dist[v as int] + 1,
    decreases dist[v as int],
{
    reveal(bfs_shape);
    reveal(bfs_parents);
    if v == source {
        let p = seq![source];
        assert(is_route(edges, directed, p));
    } else {
        let u = prev[v as int];
        lemma_bfs_route(edges, directed, n, source, dist, prev, order, u);
        let p = choose|p: Seq<usize>| #[trigger] is_route(edges, directed, p) && p[0] == source && p.last() == u
            && p.len() == dist[u as int] + 1;
        let q = p.push(v);
        assert forall|i: int| 0 <= i < q.len() - 1 implies #[trigger] linked(edges, directed, q[i], q[i + 1]) by {
            if i < p.len() - 1 {
                assert(q[i] == p[i] && q[i + 1] == p[i + 1]);
            } else {
                assert(q[i] == u && q[i + 1] == v);
            }
        }
        assert(is_route(edges, directed, q));
    }
}

/// From `source`, the length of a shortest route to every node, or `None`
/// for a node that no route reaches. Routes follow edges forward when
/// `directed`, in either direction otherwise.
pub fn shortest_distances(topo: &Topology, source: usize, directed: bool) -> (r: Vec<Option<usize>>)
    requires
        topo.wf(),
        source < topo.num_nodes,
    ensures
        r@.len() == topo.num_nodes,
        forall|v: int| 0 <= v < topo.num_nodes ==> match #[trigger] r@[v] {
            Some(d) => reaches(topo.edges@, directed, source, v as usize)
                && is_distance(topo.edges@, directed, source, v as usize, d as nat),
            None => !reaches(topo.edges@, directed, source, v as usize),
        },
{
    let n = topo.num_nodes;
    let (dist, prev, order) = bfs_explore(topo, source, directed);
    let ghost edges = topo.edges@;
    proof {
        reveal(bfs_shape);
    }
    let mut out: Vec<Option<usize>> = Vec::new();
    let mut v: usize = 0;
    while v < n
        invariant
            n == topo.num_nodes,
            edges == topo.edges@,
            topo.wf(),
            source < n,
            dist@.len() == n,
            bfs_state(edges, directed, n as nat, source, dist@, prev@, order@, order@.len()),
            v <= n,
            out@.len() == v,
            forall|w: int| 0 <= w < v ==> match #[trigger] out@[w] {
                Some(d) => reaches(edges, directed, source, w as usize)
                    && is_distance(edges, directed, source, w as usize, d as nat),
                None => !reaches(edges, directed, source, w as usize),
            },
        decreases n - v,
    {
        if dist[v] == usize::MAX {
            proof {
                if reaches(edges, directed, source, v) {
                    let q = choose|q: Seq<usize>| #[trigger] is_route(edges, directed, q) && q[0] == source && q.last() == v;
                    lemma_bfs_walk_levels(edges, directed, n as nat, source, dist@, prev@, order@, q, q.len() - 1);
                }
            }
            out.push(None);
        } else {
            proof {
                lemma_bfs_route(edges, directed, n as nat, source, dist@, prev@, order@, v);
                assert forall|q: Seq<usize>| #[trigger] is_route(edges, directed, q) && q[0] == source && q.last() == v
                    implies q.len() >= dist@[v as int] + 1 by {
                    lemma_bfs_walk_levels(edges, directed, n as nat, source, dist@, prev@, order@, q, q.len() - 1);
                }
                let p = choose|p: Seq<usize>| #[trigger] is_route(edges, directed, p) && p[0] == source && p.last() == v
                    && p.len() == dist@[v as int] + 1;
                assert(reaches(edges, directed, source, v));
            }
            out.push(Some(dist[v]));
        }
        v = v + 1;
    }
    out
}

/// The nodes that `start` reaches along edge directions, each once, in the
/// order a breadth-first traversal first meets them: `start` first, and the
/// nearer nodes before the farther ones.
pub fn visit_order(topo: &Topology, start: usize) -> (r: Vec<usize>)
    requires
        topo.wf(),
        start < topo.num_nodes,
    ensures
        r@.len() >= 1,
        r@[0] == start,
        forall|i: int, j: int| 0 <= i < j < r@.len() ==> r@[i] != r@[j],
        forall|i: int| 0 <= i < r@.len() ==> #[trigger] r@[i] < topo.num_nodes,
        forall|v: usize| v < topo.num_nodes ==> (r@.contains(v) <==> reaches(topo.edges@, true, start, v)),
        forall|i: int, j: int| 0 <= i <= j < r@.len()
            ==> distance(topo.edges@, true, start, #[trigger] r@[i]) <= distance(topo.edges@, true, start, #[trigger] r@[j]),
{
    let n = topo.num_nodes;
    let (dist, prev, order) = bfs_explore(topo, start, true);
    let ghost edges = topo.edges@;
    proof {
        reveal(bfs_shape);
        reveal(bfs_discovered);
        reveal(bfs_levels);
        assert forall|v: int| 0 <= v < n && dist@[v] != usize::MAX implies
            is_distance(edges, true, start, v as usize, dist@[v] as nat) by {
            lemma_bfs_route(edges, true, n as nat, start, dist@, prev@, order@, v as usize);
            assert forall|q: Seq<usize>| #[trigger] is_route(edges, true, q) && q[0] == start && q.last() == v as usize
                implies q.len() >= dist@[v] + 1 by {
                lemma_bfs_walk_levels(edges, true, n as nat, start, dist@, prev@, order@, q, q.len() - 1);
            }
        }
        assert forall|v: usize| v < n implies (order@.contains(v) <==> reaches(edges, true, start, v)) by {
            if order@.contains(v) {
                let j = choose|j: int| 0 <= j < order@.len() && order@[j] == v;
                assert(dist@[order@[j] as int] != usize::MAX);
                lemma_bfs_route(edges, true, n as nat, start, dist@, prev@, order@, v);
            }
            if reaches(edges, true, start, v) {
                let q = choose|q: Seq<usize>| #[trigger] is_route(edges, true, q) && q[0] == start && q.last() == v;
                lemma_bfs_walk_levels(edges, true, n as nat, start, dist@, prev@, order@, q, q.len() - 1);
                assert(dist@[v as int] != usize::MAX);
            }
        }
        assert forall|i: int, j: int| 0 <= i <= j < order@.len()
            implies distance(edges, true, start, #[trigger] order@[i]) <= distance(edges, true, start, #[trigger] order@[j]) by {
            let a = order@[i];
            let b = order@[j];
            assert(dist@[a as int] != usize::MAX && dist@[b as int] != usize::MAX);
            lemma_distance_unique(edges, true, start, a, dist@[a as int] as nat);
            lemma_distance_unique(edges, true, start, b, dist@[b as int] as nat);
        }
    }
    order
}

/// The sum of the distances from `source` to the nodes it reaches, from
/// per-node distances as `shortest_distances` gives them.
pub(crate) fn total_of(distances: &Vec<Option<usize>>, Ghost(edges): Ghost<Seq<(usize, usize)>>, directed: bool, source: usize) -> (r: u128)
    requires
        forall|v: int| 0 <= v < distances@.len() ==> match #[trigger] distances@[v] {
            Some(d) => reaches(edges, directed, source, v as usize)
                && is_distance(edges, directed, source, v as usize, d as nat),
            None => !reaches(edges, directed, source, v as usize),
        },
        distances@.len() <= usize::MAX,
    ensures
        r == distance_total(edges, directed, source, distances@.len()),
{
    let mut total: u128 = 0;
    let mut v: usize = 0;
    while v < distances.len()
        invariant
            v <= distances@.len(),
            distances@.len() <= usize::MAX,
            forall|w: int| 0 <= w < distances@.len() ==> match #[trigger] distances@[w] {
                Some(d) => reaches(edges, directed, source, w as usize)
                    && is_distance(edges, directed, source, w as usize, d as nat),
                None => !reaches(edges, directed, source, w as usize),
            },
            total == distance_total(edges, directed, source, v as nat),
            total <= v * 0xffff_ffff_ffff_ffffu128,
        decreases distances@.len() - v,
    {
        match distances[v] {
            Some(d) => {
                proof {
                    lemma_distance_unique(edges, directed, source, v, d as nat);
                    assert(total + d <= (v + 1) * 0xffff_ffff_ffff_ffffu128) by (nonlinear_arith)
                        requires total <= v * 0xffff_ffff_ffff_ffffu128, d <= 0xffff_ffff_ffff_ffffu128;
                    assert((v + 1) * 0xffff_ffff_ffff_ffffu128 <= 0x1_0000_0000_0000_0000u128 * 0xffff_ffff_ffff_ffffu128) by (nonlinear_arith)
                        requires v < 0xffff_ffff_ffff_ffffu128;
                }
                total = total + d as u128;
            },
            None => {},
        }
        v = v + 1;
    }
    total
}

/// How many entries of per-node distances, as `shortest_distances` gives
/// them, are reached.
pub(crate) fn count_reached(distances: &Vec<Option<usize>>, Ghost(edges): Ghost<Seq<(usize, usize)>>, directed: bool, source: usize) -> (r: usize)
    requires
        forall|v: int| 0 <= v < distances@.len() ==> match #[trigger] distances@[v] {
            Some(d) => reaches(edges, directed, source, v as usize),
            None => !reaches(edges, directed, source, v as usize),
        },
    ensures
        r == reach_count(edges, directed, source, distances@.len()),
{
    let mut c: usize = 0;
    let mut v: usize = 0;
    while v < distances.len()
        invariant
            v <= distances@.len(),
            c <= v,
            forall|w: int| 0 <= w < distances@.len() ==> match #[trigger] distances@[w] {
                Some(d) => reaches(edges, directed, source, w as usize),
                None => !reaches(edges, directed, source, w as usize),
            },
            c == reach_count(edges, directed, source, v as nat),
        decreases distances@.len() - v,
    {
        if distances[v].is_some() {
            c = c + 1;
        }
        v = v + 1;
    }
    c
}

impl ClosenessCentrality {
    /// From `source`, the sum of the lengths of shortest routes along edge
    /// directions to every node it reaches; closeness relates the node count
    /// to this total.
    pub fn distance_total(topo: &Topology, source: usize) -> (r: u128)
        requires
            topo.wf(),
            source < topo.num_nodes,
        ensures
            r == distance_total(topo.edges@, true, source, topo.num_nodes as nat),
    {
        let d = shortest_distances(topo, source, true);
        total_of(&d, Ghost(topo.edges@), true, source)
    }
}

} // verus!
