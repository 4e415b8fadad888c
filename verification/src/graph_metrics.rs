//! Counting kernels of the graph metrics: degrees, and the neighbour pairs
//! that local clustering is measured by.
use vstd::prelude::*;
use crate::topology::Topology;
use crate::reach::succ_of;
use crate::centrality::{shortest_distances, total_of, count_reached, reach_count, distance_total};

verus! {

/// Node-level graph metrics.
pub struct GraphMetrics;

/// The number of edges that touch `v` (a loop at `v` counts once).
pub open spec fn degree(edges: Seq<(usize, usize)>, v: usize) -> nat
    decreases edges.len(),
{
    if edges.len() == 0 {
        0
    } else {
        degree(edges.drop_last(), v) + if edges.last().0 == v || edges.last().1 == v { 1nat } else { 0nat }
    }
}

/// The neighbours of `v`, one per edge that touches it, in edge order: the
/// head of an edge leaving `v`, the tail of an edge entering it.
pub open spec fn neighbor_list(edges: Seq<(usize, usize)>, v: usize) -> Seq<usize>
    decreases edges.len(),
{
    if edges.len() == 0 {
        Seq::empty()
    } else {
        let p = neighbor_list(edges.drop_last(), v);
        match succ_of(edges.last(), false, v) {
            Some(w) => p.push(w),
            None => p,
        }
    }
}

/// Some edge joins `a` and `b`, in either direction.
pub open spec fn joined(edges: Seq<(usize, usize)>, a: usize, b: usize) -> bool {
    exists|k: int| 0 <= k < edges.len() && (#[trigger] edges[k] == (a, b) || edges[k] == (b, a))
}

/// How many of the list entries after position `i` and before `j` are joined
/// to entry `i`.
pub open spec fn row_links(edges: Seq<(usize, usize)>, nb: Seq<usize>, i: int, j: int) -> nat
    decreases j - i,
{
    if j <= i + 1 {
        0
    } else {
        row_links(edges, nb, i, j - 1) + if joined(edges, nb[i], nb[j - 1]) { 1nat } else { 0nat }
    }
}

/// How many pairs of list positions `a < b`, with `a` below `i`, hold joined
/// entries.
pub open spec fn linked_pairs(edges: Seq<(usize, usize)>, nb: Seq<usize>, i: int) -> nat
    decreases i,
{
    if i <= 0 {
        0
    } else {
        linked_pairs(edges, nb, i - 1) + row_links(edges, nb, i - 1, nb.len() as int)
    }
}

fn count_degree(topo: &Topology, v: usize) -> (r: usize)
    ensures
        r == degree(topo.edges@, v),
{
    let mut c: usize = 0;
    let mut k: usize = 0;
    while k < topo.edges.len()
        invariant
            k <= topo.edges@.len(),
            c <= k,
            c == degree(topo.edges@.take(k as int), v),
        decreases topo.edges@.len() - k,
    {
        proof {
            assert(topo.edges@.take(k + 1).drop_last() =~= topo.edges@.take(k as int));
        }
        let (a, b) = topo.edges[k];
        if a == v || b == v {
            c = c + 1;
        }
        k = k + 1;
    }
    assert(topo.edges@.take(k as int) =~= topo.edges@);
    c
}

fn neighbors_of(topo: &Topology, v: usize) -> (r: Vec<usize>)
    ensures
        r@ == neighbor_list(topo.edges@, v),
{
    let mut out: Vec<usize> = Vec::new();
    let mut k: usize = 0;
    while k < topo.edges.len()
        invariant
            k <= topo.edges@.len(),
            out@ == neighbor_list(topo.edges@.take(k as int), v),
        decreases topo.edges@.len() - k,
    {
        proof {
            assert(topo.edges@.take(k + 1).drop_last() =~= topo.edges@.take(k as int));
        }
        let (a, b) = topo.edges[k];
        if a == v {
            out.push(b);
        } else if b == v {
            out.push(a);
        }
        k = k + 1;
    }
    assert(topo.edges@.take(k as int) =~= topo.edges@);
    out
}

fn are_joined(topo: &Topology, a: usize, b: usize) -> (r: bool)
    ensures
        r == joined(topo.edges@, a, b),
{
    let mut k: usize = 0;
    while k < topo.edges.len()
        invariant
            k <= topo.edges@.len(),
            forall|j: int| 0 <= j < k ==> !(#[trigger] topo.edges@[j] == (a, b) || topo.edges@[j] == (b, a)),
        decreases topo.edges@.len() - k,
    {
        let (x, y) = topo.edges[k];
        if (x == a && y == b) || (x == b && y == a) {
            assert(topo.edges@[k as int] == (a, b) || topo.edges@[k as int] == (b, a));
            return true;
        }
        k = k + 1;
    }
    false
}

impl GraphMetrics {
    /// From `source`, ignoring edge direction: how many nodes it reaches
    /// (itself included) and the sum of the shortest route lengths to them.
    pub fn closeness_profile(topo: &Topology, source: usize) -> (r: (usize, u128))
        requires
            topo.wf(),
            source < topo.num_nodes,
        ensures
            r.0 == reach_count(topo.edges@, false, source, topo.num_nodes as nat),
            r.1 == distance_total(topo.edges@, false, source, topo.num_nodes as nat),
    {
        let d = shortest_distances(topo, source, false);
        let reached = count_reached(&d, Ghost(topo.edges@), false, source);
        let total = total_of(&d, Ghost(topo.edges@), false, source);
        (reached, total)
    }

    /// The degree of every node: how many edges touch it.
    pub fn degrees(topo: &Topology) -> (r: Vec<usize>)
        ensures
            r@.len() == topo.num_nodes,
            forall|v: int| 0 <= v < topo.num_nodes ==> #[trigger] r@[v] == degree(topo.edges@, v as usize),
            forall|v: int| 0 <= v < topo.num_nodes ==> #[trigger] r@[v]
                == topo.edges@.filter(|e: (usize, usize)| e.0 == v as usize || e.1 == v as usize).len(),
    {
        let mut out: Vec<usize> = Vec::new();
        let mut v: usize = 0;
        while v < topo.num_nodes
            invariant
                v <= topo.num_nodes,
                out@.len() == v,
                forall|j: int| 0 <= j < v ==> #[trigger] out@[j] == degree(topo.edges@, j as usize),
            decreases topo.num_nodes - v,
        {
            out.push(count_degree(topo, v));
            v = v + 1;
        }
        proof {
            assert forall|v: int| 0 <= v < topo.num_nodes implies #[trigger] out@[v]
                == topo.edges@.filter(|e: (usize, usize)| e.0 == v as usize || e.1 == v as usize).len() by {
                law_degree_counts_touching_edges(topo.edges@, v as usize);
            }
        }
        out
    }

    /// For every node, the number of its neighbour entries (one per touching
    /// edge) and the number of pairs of those entries that an edge joins; the
    /// clustering coefficient is the second over the pairs of the first.
    pub fn clustering_counts(topo: &Topology) -> (r: Vec<(usize, u128)>)
        ensures
            r@.len() == topo.num_nodes,
            forall|v: int| 0 <= v < topo.num_nodes ==> {
                let nb = neighbor_list(topo.edges@, v as usize);
                &&& (#[trigger] r@[v]).0 == nb.len()
                &&& r@[v].1 == linked_pairs(topo.edges@, nb, nb.len() as int)
            },
    {
        let mut out: Vec<(usize, u128)> = Vec::new();
        let mut v: usize = 0;
        while v < topo.num_nodes
            invariant
                v <= topo.num_nodes,
                out@.len() == v,
                forall|x: int| 0 <= x < v ==> {
                    let nb = neighbor_list(topo.edges@, x as usize);
                    &&& (#[trigger] out@[x]).0 == nb.len()
                    &&& out@[x].1 == linked_pairs(topo.edges@, nb, nb.len() as int)
                },
            decreases topo.num_nodes - v,
        {
            let nb = neighbors_of(topo, v);
            let k = nb.len();
            let mut total: u128 = 0;
            let mut i: usize = 0;
            while i < k
                invariant
                    k == nb@.len(),
                    i <= k,
                    total == linked_pairs(topo.edges@, nb@, i as int),
                    total <= i * k,
                decreases k - i,
            {
                let mut row: u128 = 0;
                let mut j: usize = i + 1;
                proof {
                    assert(row_links(topo.edges@, nb@, i as int, j as int) == 0);
                }
                while j < k
                    invariant
                        k == nb@.len(),
                        i < k,
                        i + 1 <= j <= k,
                        row == row_links(topo.edges@, nb@, i as int, j as int),
                        row <= j,
                    decreases k - j,
                {
                    if are_joined(topo, nb[i], nb[j]) {
                        row = row + 1;
                    }
                    j = j + 1;
                }
                proof {
                    assert(total + row <= (i + 1) * k) by (nonlinear_arith)
                        requires total <= i * k, row <= k;
                    assert((i + 1) * k <= 0xffff_ffff_ffff_ffffu128 * 0xffff_ffff_ffff_ffffu128) by (nonlinear_arith)
                        requires i < k, k <= 0xffff_ffff_ffff_ffffu128;
                }
                total = total + row;
                i = i + 1;
            }
            out.push((k, total));
            v = v + 1;
        }
        out
    }
}

/// The largest degree among the first `n` nodes (0 for none).
pub open spec fn degree_max(edges: Seq<(usize, usize)>, n: nat) -> nat
    decreases n,
{
    if n == 0 {
        0
    } else {
        let d = degree(edges, (n - 1) as usize);
        let m = degree_max(edges, (n - 1) as nat);
        if d > m { d } else { m }
    }
}

/// The smallest degree among the first `n` nodes (0 for none).
pub open spec fn degree_min(edges: Seq<(usize, usize)>, n: nat) -> nat
    decreases n,
{
    if n == 0 {
        0
    } else if n == 1 {
        degree(edges, 0)
    } else {
        let d = degree(edges, (n - 1) as usize);
        let m = degree_min(edges, (n - 1) as nat);
        if d < m { d } else { m }
    }
}

/// The counting statistics of a graph: its nodes, edges and relation types,
/// and its largest and smallest node degree.
pub struct GraphStats {
    pub num_nodes: usize,
    pub num_edges: usize,
    pub num_relation_types: usize,
    pub max_degree: usize,
    pub min_degree: usize,
}

impl GraphStats {
    /// The statistics of a graph with edges `topo` and `num_relation_types`
    /// relation types; a node's degree counts the edges that touch it, and
    /// both degree bounds are 0 for a graph without nodes.
    pub fn new(topo: &Topology, num_relation_types: usize) -> (r: Self)
        ensures
            r.num_nodes == topo.num_nodes,
            r.num_edges == topo.edges@.len(),
            r.num_relation_types == num_relation_types,
            r.max_degree == degree_max(topo.edges@, topo.num_nodes as nat),
            r.min_degree == degree_min(topo.edges@, topo.num_nodes as nat),
            forall|v: int| 0 <= v < topo.num_nodes ==> r.min_degree <= #[trigger] degree(topo.edges@, v as usize)
                && degree(topo.edges@, v as usize) <= r.max_degree,
            topo.num_nodes > 0 ==> exists|v: int| 0 <= v < topo.num_nodes && #[trigger] degree(topo.edges@, v as usize) == r.max_degree,
            topo.num_nodes > 0 ==> exists|v: int| 0 <= v < topo.num_nodes && #[trigger] degree(topo.edges@, v as usize) == r.min_degree,
    {
        proof {
            law_degree_max_is_largest(topo.edges@, topo.num_nodes as nat);
            law_degree_min_is_smallest(topo.edges@, topo.num_nodes as nat);
        }
        let degrees = GraphMetrics::degrees(topo);
        let n = topo.num_nodes;
        let mut max_degree: usize = 0;
        let mut min_degree: usize = 0;
        let mut v: usize = 0;
        while v < n
            invariant
                v <= n,
                n == topo.num_nodes,
                degrees@.len() == n,
                forall|u: int| 0 <= u < n ==> #[trigger] degrees@[u] == degree(topo.edges@, u as usize),
                max_degree == degree_max(topo.edges@, v as nat),
                min_degree == degree_min(topo.edges@, v as nat),
            decreases n - v,
        {
            let d = degrees[v];
            if v == 0 || d > max_degree {
                max_degree = d;
            }
            if v == 0 || d < min_degree {
                min_degree = d;
            }
            v = v + 1;
        }
        GraphStats {
            num_nodes: n,
            num_edges: topo.edges.len(),
            num_relation_types,
            max_degree,
            min_degree,
        }
    }
}

/// The degree of a node is the number of edges that have it as either end,
/// whatever the order of the edges' ends.
pub proof fn law_degree_counts_touching_edges(edges: Seq<(usize, usize)>, v: usize)
    ensures
        degree(edges, v) == edges.filter(|e: (usize, usize)| e.0 == v || e.1 == v).len(),
    decreases edges.len(),
{
    reveal(Seq::filter);
    if edges.len() > 0 {
        law_degree_counts_touching_edges(edges.drop_last(), v);
    }
}

/// Turning an edge around changes no node's degree.
pub proof fn law_degree_ignores_direction(edges: Seq<(usize, usize)>, k: int, v: usize)
    requires
        0 <= k < edges.len(),
    ensures
        degree(edges.update(k, (edges[k].1, edges[k].0)), v) == degree(edges, v),
    decreases edges.len(),
{
    let flipped = edges.update(k, (edges[k].1, edges[k].0));
    if k == edges.len() - 1 {
        assert(flipped.drop_last() =~= edges.drop_last());
    } else {
        law_degree_ignores_direction(edges.drop_last(), k, v);
        assert(flipped.drop_last() =~= edges.drop_last().update(k, (edges[k].1, edges[k].0)));
        assert(flipped.last() == edges.last());
    }
}

/// The largest degree among the first `n` nodes bounds the degree of each of
/// them, and is the degree of one of them when there is one.
pub proof fn law_degree_max_is_largest(edges: Seq<(usize, usize)>, n: nat)
    requires
        n <= usize::MAX + 1,
    ensures
        forall|v: int| 0 <= v < n ==> #[trigger] degree(edges, v as usize) <= degree_max(edges, n),
        n > 0 ==> exists|v: int| 0 <= v < n && #[trigger] degree(edges, v as usize) == degree_max(edges, n),
    decreases n,
{
    if n > 0 {
        law_degree_max_is_largest(edges, (n - 1) as nat);
        let d = degree(edges, (n - 1) as usize);
        if n - 1 > 0 && degree_max(edges, (n - 1) as nat) >= d {
            let w = choose|w: int| 0 <= w < n - 1 && #[trigger] degree(edges, w as usize) == degree_max(edges, (n - 1) as nat);
            assert(degree(edges, w as usize) == degree_max(edges, n));
        } else {
            assert(degree_max(edges, 0) == 0);
            assert(degree_max(edges, n) == d);
            assert(((n - 1) as int) as usize == (n - 1) as usize);
            assert(degree(edges, ((n - 1) as int) as usize) == degree_max(edges, n));
        }
    }
}

/// The smallest degree among the first `n` nodes is at most the degree of
/// each of them, and is the degree of one of them when there is one.
pub proof fn law_degree_min_is_smallest(edges: Seq<(usize, usize)>, n: nat)
    requires
        n <= usize::MAX + 1,
    ensures
        forall|v: int| 0 <= v < n ==> degree_min(edges, n) <= #[trigger] degree(edges, v as usize),
        n > 0 ==> exists|v: int| 0 <= v < n && #[trigger] degree(edges, v as usize) == degree_min(edges, n),
    decreases n,
{
    if n > 1 {
        law_degree_min_is_smallest(edges, (n - 1) as nat);
        let d = degree(edges, (n - 1) as usize);
        if degree_min(edges, (n - 1) as nat) <= d {
            let w = choose|w: int| 0 <= w < n - 1 && #[trigger] degree(edges, w as usize) == degree_min(edges, (n - 1) as nat);
            assert(degree(edges, w as usize) == degree_min(edges, n));
        } else {
            assert(degree(edges, ((n - 1) as int) as usize) == degree_min(edges, n));
        }
    } else if n == 1 {
        assert(degree(edges, (0int) as usize) == degree_min(edges, n));
    }
}

} // verus!
