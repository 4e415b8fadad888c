//! Connectivity of a topology: whole-graph connectivity, connected components,
//! and directed reachability for cycle checks.
use vstd::prelude::*;
use crate::topology::{Topology, reachable, bfs_explore, bfs_state, bfs_shape, bfs_discovered, lemma_bfs_walk_levels};
use crate::reach::{
    linked, is_route, reaches, reaches_avoiding, avoiding_route, dfs_collect, succ_of,
    lemma_reaches_undirected, lemma_reaches_trans, lemma_reaches_symmetric, lemma_route_refl,
};

verus! {

/// Every node is reachable from node 0 (ignoring edge direction).
pub open spec fn connected_from_first(edges: Seq<(usize, usize)>, n: nat) -> bool {
    forall|v: int| 0 <= v < n ==> #[trigger] reachable(edges, 0, v as usize)
}

/// Whether every node can be reached from the first node, ignoring edge
/// direction; a topology with at most one node is connected.
pub fn is_connected(topo: &Topology) -> (r: bool)
    requires
        topo.wf(),
    ensures
        r == connected_from_first(topo.edges@, topo.num_nodes as nat),
{
    let n = topo.num_nodes;
    if n <= 1 {
        proof {
            if n == 1 {
                let p = seq![0usize];
                assert(crate::topology::walk_between(topo.edges@, p, 0, 0));
                assert(reachable(topo.edges@, 0, 0));
            }
        }
        return true;
    }
    let (dist, prev, order) = bfs_explore(topo, 0, false);
    let ghost edges = topo.edges@;
    proof {
        reveal(bfs_shape);
    }
    let mut v: usize = 0;
    while v < n
        invariant
            n == topo.num_nodes,
            edges == topo.edges@,
            topo.wf(),
            n > 1,
            dist@.len() == n,
            bfs_state(edges, false, n as nat, 0, dist@, prev@, order@, order@.len()),
            v <= n,
            forall|w: int| 0 <= w < v ==> #[trigger] reachable(edges, 0, w as usize),
        decreases n - v,
    {
        if dist[v] == usize::MAX {
            proof {
                if reachable(edges, 0, v) {
                    let q = choose|q: Seq<usize>| #[trigger] crate::topology::walk_between(edges, q, 0, v);
                    crate::reach::lemma_route_walk(edges, q);
                    lemma_bfs_walk_levels(edges, false, n as nat, 0, dist@, prev@, order@, q, q.len() - 1);
                }
                assert(!reachable(edges, 0, v as usize));
            }
            return false;
        }
        proof {
            lemma_bfs_reaches_discovered(edges, n as nat, dist@, prev@, order@, v);
        }
        v = v + 1;
    }
    true
}

/// A discovered node is reachable from the exploration's source.
proof fn lemma_bfs_reaches_discovered(
    edges: Seq<(usize, usize)>,
    n: nat,
    dist: Seq<usize>,
    prev: Seq<usize>,
    order: Seq<usize>,
    v: usize,
)
    requires
        bfs_state(edges, false, n, 0, dist, prev, order, order.len()),
        forall|k: int| 0 <= k < edges.len() ==> (#[trigger] edges[k]).0 < n && edges[k].1 < n,
        v < n,
        dist[v as int] != usize::MAX,
    ensures
        reachable(edges, 0, v),
    decreases dist[v as int],
{
    reveal(bfs_shape);
    reveal(crate::topology::bfs_parents);
    if v == 0 {
        let p = seq![0usize];
        assert(crate::topology::walk_between(edges, p, 0, 0));
    } else {
        let u = prev[v as int];
        lemma_bfs_reaches_discovered(edges, n, dist, prev, order, u);
        lemma_reaches_undirected(edges, 0, u);
        lemma_reaches_undirected(edges, u, v);
        lemma_reaches_undirected(edges, 0, v);
        crate::reach::lemma_linked_undirected(edges, u, v);
        let p = seq![u, v];
        assert(is_route(edges, false, p));
        lemma_reaches_trans(edges, false, 0, u, v);
    }
}

/// Whether `to` can reach `from` along edge directions: adding an edge
/// `from -> to` would then close a cycle.
pub fn would_create_cycle(topo: &Topology, from: usize, to: usize) -> (r: bool)
    requires
        topo.wf(),
        from < topo.num_nodes,
        to < topo.num_nodes,
    ensures
        r == reaches(topo.edges@, true, to, from),
{
    let n = topo.num_nodes;
    let mut visited: Vec<bool> = Vec::new();
    let mut i: usize = 0;
    while i < n
        invariant
            i <= n,
            visited@.len() == i,
            forall|v: int| 0 <= v < i ==> !visited@[v],
        decreases n - i,
    {
        visited.push(false);
        i = i + 1;
    }
    let ghost marked0 = visited@;
    let comp = dfs_collect(topo, true, to, &mut visited);
    proof {
        lemma_avoiding_none(topo.edges@, true, to, from, marked0);
    }
    visited[from]
}

/// With nothing marked, avoiding routes are all routes.
pub proof fn lemma_avoiding_none(edges: Seq<(usize, usize)>, directed: bool, u: usize, v: usize, marked: Seq<bool>)
    requires
        forall|w: int| 0 <= w < marked.len() ==> !marked[w],
        forall|k: int| 0 <= k < edges.len() ==> (#[trigger] edges[k]).0 < marked.len() && edges[k].1 < marked.len(),
        u < marked.len(),
    ensures
        reaches_avoiding(edges, directed, u, v, marked) == reaches(edges, directed, u, v),
{
    if reaches(edges, directed, u, v) {
        let p = choose|p: Seq<usize>| #[trigger] is_route(edges, directed, p) && p[0] == u && p.last() == v;
        assert forall|i: int| 0 <= i < p.len() implies (#[trigger] p[i]) < marked.len() && !marked[p[i] as int] by {
            if i > 0 {
                let i0 = i - 1;
                assert(linked(edges, directed, p[i0], p[i0 + 1]));
                let k = choose|k: int| 0 <= k < edges.len() && #[trigger] succ_of(edges[k], directed, p[i0]) == Some(p[i0 + 1]);
                assert(edges[k].0 < marked.len() && edges[k].1 < marked.len());
            }
        }
        assert(avoiding_route(edges, directed, p, marked));
    }
    if reaches_avoiding(edges, directed, u, v, marked) {
        let p = choose|p: Seq<usize>| #[trigger] avoiding_route(edges, directed, p, marked) && p[0] == u && p.last() == v;
        assert(is_route(edges, directed, p));
    }
}


/// `comps` lists the connected components of the nodes below `n`, ignoring
/// edge direction: each component is listed once, without repeats, starting
/// with its smallest node, and the components come in the order of their
/// smallest nodes.
pub open spec fn components_of(edges: Seq<(usize, usize)>, n: nat, comps: Seq<Seq<usize>>) -> bool {
    &&& forall|c: int| 0 <= c < comps.len() ==> (#[trigger] comps[c]).len() > 0
    &&& forall|c: int, j: int| 0 <= c < comps.len() && 0 <= j < comps[c].len() ==> (#[trigger] comps[c][j]) < n
    &&& forall|c: int, i: int, j: int| 0 <= c < comps.len() && 0 <= i < j < comps[c].len() ==> comps[c][i] != comps[c][j]
    &&& forall|c: int, v: int| 0 <= c < comps.len() && 0 <= v < n ==>
        (#[trigger] comps[c].contains(v as usize) <==> reaches(edges, false, comps[c][0], v as usize))
    &&& forall|c: int, j: int| 0 <= c < comps.len() && 0 <= j < comps[c].len() ==> comps[c][0] <= #[trigger] comps[c][j]
    &&& forall|c1: int, c2: int| 0 <= c1 < c2 < comps.len() ==> (#[trigger] comps[c1][0]) < (#[trigger] comps[c2][0])
    &&& forall|v: int| 0 <= v < n ==> #[trigger] in_some(comps, v as usize)
}

/// Some component of `comps` holds `v`.
pub open spec fn in_some(comps: Seq<Seq<usize>>, v: usize) -> bool {
    exists|c: int| 0 <= c < comps.len() && #[trigger] comps[c].contains(v)
}

/// The loop invariant of the component sweep after the nodes below `i`.
pub open spec fn sweep_inv(edges: Seq<(usize, usize)>, n: nat, i: nat, visited: Seq<bool>, comps: Seq<Seq<usize>>) -> bool {
    &&& n <= usize::MAX
    &&& i <= n
    &&& visited.len() == n
    &&& forall|k: int| 0 <= k < edges.len() ==> (#[trigger] edges[k]).0 < n && edges[k].1 < n
    &&& forall|c: int| 0 <= c < comps.len() ==> (#[trigger] comps[c]).len() > 0
    &&& forall|c: int, j: int| 0 <= c < comps.len() && 0 <= j < comps[c].len() ==> (#[trigger] comps[c][j]) < n
    &&& forall|c: int, ii: int, j: int| 0 <= c < comps.len() && 0 <= ii < j < comps[c].len() ==> comps[c][ii] != comps[c][j]
    &&& forall|c: int, v: int| 0 <= c < comps.len() && 0 <= v < n ==>
        (#[trigger] comps[c].contains(v as usize) <==> reaches(edges, false, comps[c][0], v as usize))
    &&& forall|c: int, j: int| 0 <= c < comps.len() && 0 <= j < comps[c].len() ==> comps[c][0] <= #[trigger] comps[c][j]
    &&& forall|c1: int, c2: int| 0 <= c1 < c2 < comps.len() ==> (#[trigger] comps[c1][0]) < (#[trigger] comps[c2][0])
    &&& forall|c: int| 0 <= c < comps.len() ==> (#[trigger] comps[c])[0] < i
    &&& forall|v: int| 0 <= v < n ==> (#[trigger] visited[v] <==> in_some(comps, v as usize))
    &&& forall|v: int| 0 <= v < i ==> #[trigger] visited[v]
}

/// The visited nodes are closed under links, so a route from an unvisited
/// node never meets a visited one.
proof fn lemma_sweep_avoiding(
    edges: Seq<(usize, usize)>, n: nat, i: nat, visited: Seq<bool>, comps: Seq<Seq<usize>>, root: usize, v: usize,
)
    requires
        sweep_inv(edges, n, i, visited, comps),
        root < n,
        !visited[root as int],
    ensures
        reaches_avoiding(edges, false, root, v, visited) == reaches(edges, false, root, v),
{
    if reaches(edges, false, root, v) {
        let p = choose|p: Seq<usize>| #[trigger] is_route(edges, false, p) && p[0] == root && p.last() == v;
        lemma_route_unvisited(edges, n, i, visited, comps, p, root, (p.len() - 1) as int);
        assert(avoiding_route(edges, false, p, visited));
    }
    if reaches_avoiding(edges, false, root, v, visited) {
        let p = choose|p: Seq<usize>| #[trigger] avoiding_route(edges, false, p, visited) && p[0] == root && p.last() == v;
        assert(is_route(edges, false, p));
    }
}

proof fn lemma_route_unvisited(
    edges: Seq<(usize, usize)>, n: nat, i: nat, visited: Seq<bool>, comps: Seq<Seq<usize>>,
    p: Seq<usize>, root: usize, j: int,
)
    requires
        sweep_inv(edges, n, i, visited, comps),
        root < n,
        !visited[root as int],
        is_route(edges, false, p),
        p[0] == root,
        0 <= j < p.len(),
    ensures
        forall|t: int| 0 <= t <= j ==> (#[trigger] p[t]) < visited.len() && !visited[p[t] as int],
    decreases j,
{
    if j > 0 {
        lemma_route_unvisited(edges, n, i, visited, comps, p, root, j - 1);
        let j0 = j - 1;
        assert(linked(edges, false, p[j0], p[j0 + 1]));
        let k = choose|k: int| 0 <= k < edges.len() && #[trigger] succ_of(edges[k], false, p[j0]) == Some(p[j0 + 1]);
        assert(p[j] < n);
        if visited[p[j] as int] {
            let c = choose|c: int| 0 <= c < comps.len() && #[trigger] comps[c].contains(p[j]);
            let r = comps[c][0];
            assert(reaches(edges, false, r, p[j]));
            let q2 = seq![p[j0], p[j]];
            assert(is_route(edges, false, q2));
            lemma_reaches_symmetric(edges, p[j0], p[j]);
            lemma_reaches_trans(edges, false, r, p[j], p[j0]);
            assert(comps[c].contains(p[j0]));
            assert(visited[p[j0] as int]);
        }
    }
}

/// The connected components, ignoring edge direction, found by a sweep over
/// the nodes in order with a stack-driven depth-first search from each node
/// not yet placed.
pub fn connected_components(topo: &Topology) -> (comps: Vec<Vec<usize>>)
    requires
        topo.wf(),
    ensures
        components_of(topo.edges@, topo.num_nodes as nat, comps@.map_values(|c: Vec<usize>| c@)),
{
    let n = topo.num_nodes;
    let ghost edges = topo.edges@;
    let mut visited: Vec<bool> = Vec::new();
    let mut i: usize = 0;
    while i < n
        invariant
            i <= n,
            visited@.len() == i,
            forall|v: int| 0 <= v < i ==> !visited@[v],
        decreases n - i,
    {
        visited.push(false);
        i = i + 1;
    }
    let mut comps: Vec<Vec<usize>> = Vec::new();
    let mut i: usize = 0;
    while i < n
        invariant
            n == topo.num_nodes,
            edges == topo.edges@,
            topo.wf(),
            sweep_inv(edges, n as nat, i as nat, visited@, comps@.map_values(|c: Vec<usize>| c@)),
        decreases n - i,
    {
        if !visited[i] {
            let ghost old_visited = visited@;
            let ghost old_comps = comps@.map_values(|c: Vec<usize>| c@);
            let comp = dfs_collect(topo, false, i, &mut visited);
            proof {
                assert forall|v: int| 0 <= v < n implies (#[trigger] comp@.contains(v as usize)
                    <==> reaches(edges, false, i, v as usize)) by {
                    lemma_sweep_avoiding(edges, n as nat, i as nat, old_visited, old_comps, i, v as usize);
                }
            }
            comps.push(comp);
            proof {
                lemma_sweep_step(edges, n as nat, i as nat, old_visited, visited@, old_comps,
                    comps@.map_values(|c: Vec<usize>| c@));
            }
        } else {
            proof {
                let cs = comps@.map_values(|c: Vec<usize>| c@);
                assert forall|c: int| 0 <= c < cs.len() implies (#[trigger] cs[c])[0] < i + 1 by {}
            }
        }
        i = i + 1;
    }
    proof {
        let cs = comps@.map_values(|c: Vec<usize>| c@);
        assert forall|v: int| 0 <= v < n implies #[trigger] in_some(cs, v as usize) by {
            assert(visited@[v]);
        }
    }
    comps
}

proof fn lemma_sweep_step(
    edges: Seq<(usize, usize)>, n: nat, i: nat, visited0: Seq<bool>, visited1: Seq<bool>,
    comps0: Seq<Seq<usize>>, comps1: Seq<Seq<usize>>,
)
    requires
        sweep_inv(edges, n, i, visited0, comps0),
        i < n,
        !visited0[i as int],
        comps1.len() == comps0.len() + 1,
        forall|c: int| 0 <= c < comps0.len() ==> comps1[c] == comps0[c],
        ({
            let comp = comps1[comps0.len() as int];
            &&& comp.len() > 0
            &&& comp[0] == i
            &&& forall|a: int, b: int| 0 <= a < b < comp.len() ==> comp[a] != comp[b]
            &&& forall|j: int| 0 <= j < comp.len() ==> (#[trigger] comp[j]) < n && !visited0[comp[j] as int]
            &&& visited1.len() == n
            &&& forall|v: int| 0 <= v < n ==> #[trigger] visited1[v] == (visited0[v] || comp.contains(v as usize))
            &&& forall|v: int| 0 <= v < n ==> (#[trigger] comp.contains(v as usize) <==> reaches(edges, false, i as usize, v as usize))
        }),
    ensures
        sweep_inv(edges, n, i + 1, visited1, comps1),
{
    let last = comps0.len() as int;
    let comp = comps1[last];
    assert forall|c: int, j: int| 0 <= c < comps1.len() && 0 <= j < comps1[c].len() implies comps1[c][0] <= #[trigger] comps1[c][j] by {
        if c == last {
            let v = comp[j];
            if v < i {
                assert(visited0[v as int]);
            }
        }
    }
    assert forall|c1: int, c2: int| 0 <= c1 < c2 < comps1.len() implies (#[trigger] comps1[c1][0]) < (#[trigger] comps1[c2][0]) by {
        if c2 == last {
            assert(comps0[c1][0] < i);
        }
    }
    assert forall|v: int| 0 <= v < n implies (#[trigger] visited1[v] <==> in_some(comps1, v as usize)) by {
        if visited0[v] {
            let c = choose|c: int| 0 <= c < comps0.len() && #[trigger] comps0[c].contains(v as usize);
            assert(comps1[c].contains(v as usize));
        }
        if comp.contains(v as usize) {
            assert(comps1[last].contains(v as usize));
        }
        if in_some(comps1, v as usize) {
            let c = choose|c: int| 0 <= c < comps1.len() && #[trigger] comps1[c].contains(v as usize);
            if c < last {
                assert(comps0[c].contains(v as usize));
            }
        }
    }
    assert forall|c: int, v: int| 0 <= c < comps1.len() && 0 <= v < n implies
        (#[trigger] comps1[c].contains(v as usize) <==> reaches(edges, false, comps1[c][0], v as usize)) by {
        if c < last {
            assert(comps0[c].contains(v as usize) <==> reaches(edges, false, comps0[c][0], v as usize));
        }
    }
    assert forall|v: int| 0 <= v < i + 1 implies #[trigger] visited1[v] by {
        if v == i {
            lemma_route_refl(edges, false, i as usize);
        }
    }
}


/// Connectivity does not depend on the node it is checked from: if every node
/// is reachable from the first node, every node is reachable from any node.
pub proof fn law_connectivity_from_any_node(edges: Seq<(usize, usize)>, n: nat, s: usize, v: usize)
    requires
        connected_from_first(edges, n),
        s < n,
        v < n,
    ensures
        reachable(edges, s, v),
{
    assert(reachable(edges, 0, s as usize));
    assert(reachable(edges, 0, v as usize));
    lemma_reaches_undirected(edges, 0, s);
    lemma_reaches_undirected(edges, 0, v);
    lemma_reaches_undirected(edges, s, 0);
    lemma_reaches_undirected(edges, s, v);
    lemma_reaches_symmetric(edges, 0, s);
    lemma_reaches_trans(edges, false, s, 0, v);
}

/// Connected components partition the nodes: every node lies in exactly one
/// listed component.
pub proof fn law_components_partition(edges: Seq<(usize, usize)>, n: nat, comps: Seq<Seq<usize>>, v: usize, c1: int, c2: int)
    requires
        components_of(edges, n, comps),
        v < n,
        0 <= c1 < comps.len(),
        0 <= c2 < comps.len(),
        comps[c1].contains(v),
        comps[c2].contains(v),
    ensures
        c1 == c2,
{
    if c1 != c2 {
        let (a, b) = if c1 < c2 { (c1, c2) } else { (c2, c1) };
        let ra = comps[a][0];
        let rb = comps[b][0];
        let vi: int = v as int;
        let rai: int = ra as int;
        assert(comps[a].contains(vi as usize) <==> reaches(edges, false, ra, vi as usize));
        assert(comps[b].contains(vi as usize) <==> reaches(edges, false, rb, vi as usize));
        assert(reaches(edges, false, ra, v));
        assert(reaches(edges, false, rb, v));
        lemma_reaches_symmetric(edges, ra, v);
        lemma_reaches_trans(edges, false, rb, v, ra);
        assert(comps[a][0] < n);
        assert(comps[b].contains(rai as usize) <==> reaches(edges, false, rb, rai as usize));
        assert(comps[b].contains(ra));
        let j = choose|j: int| 0 <= j < comps[b].len() && comps[b][j] == ra;
        assert(comps[b][0] <= comps[b][j]);
        assert(comps[a][0] < comps[b][0]);
    }
}

} // verus!
