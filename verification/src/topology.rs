//! Graph topology: node indices and undirected or directed edges between them,
//! with breadth-first exploration and its proofs.
use vstd::prelude::*;
use crate::reach::{succ_of, linked, is_route};

verus! {

/// Nodes `0..num_nodes` and edges between them, each a `(from, to)` pair.
pub struct Topology {
    pub num_nodes: usize,
    pub edges: Vec<(usize, usize)>,
}

impl Topology {
    /// Every edge names two nodes of the topology.
    pub open spec fn wf(&self) -> bool {
        forall|k: int|
            0 <= k < self.edges@.len() ==> (#[trigger] self.edges@[k]).0 < self.num_nodes
                && self.edges@[k].1 < self.num_nodes
    }
}

/// Edge `e` joins `u` and `w`, in either direction.
pub open spec fn touches(e: (usize, usize), u: usize, w: usize) -> bool {
    (e.0 == u && e.1 == w) || (e.1 == u && e.0 == w)
}

/// Some edge joins `u` and `w`, in either direction.
pub open spec fn adjacent(edges: Seq<(usize, usize)>, u: usize, w: usize) -> bool {
    exists|k: int| 0 <= k < edges.len() && #[trigger] touches(edges[k], u, w)
}

/// `p` is a walk: a nonempty node sequence whose consecutive nodes are adjacent.
pub open spec fn is_walk(edges: Seq<(usize, usize)>, p: Seq<usize>) -> bool {
    &&& p.len() > 0
    &&& forall|i: int| 0 <= i < p.len() - 1 ==> #[trigger] adjacent(edges, p[i], p[i + 1])
}

/// `p` is a walk from `u` to `v`.
pub open spec fn walk_between(edges: Seq<(usize, usize)>, p: Seq<usize>, u: usize, v: usize) -> bool {
    is_walk(edges, p) && p[0] == u && p.last() == v
}

/// Some walk leads from `u` to `v` (ignoring edge direction).
pub open spec fn reachable(edges: Seq<(usize, usize)>, u: usize, v: usize) -> bool {
    exists|p: Seq<usize>| #[trigger] walk_between(edges, p, u, v)
}

/// A sequence of distinct nodes below `n` has at most `n` elements.
pub proof fn lemma_distinct_bounded(s: Seq<usize>, n: nat)
    requires
        forall|i: int, j: int| 0 <= i < j < s.len() ==> s[i] != s[j],
        forall|i: int| 0 <= i < s.len() ==> s[i] < n,
    ensures
        s.len() <= n,
{
    let t = s.map_values(|x: usize| x as int);
    assert(t.no_duplicates()) by {
        assert forall|i: int, j: int| 0 <= i < t.len() && 0 <= j < t.len() && i != j implies t[i] != t[j] by {
            if i < j {
                assert(s[i] != s[j]);
            } else {
                assert(s[j] != s[i]);
            }
        }
    }
    t.unique_seq_to_set();
    vstd::set_lib::lemma_int_range(0, n as int);
    assert(t.to_set().subset_of(vstd::set_lib::set_int_range(0, n as int))) by {
        assert forall|x: int| t.to_set().contains(x) implies vstd::set_lib::set_int_range(0, n as int).contains(x) by {
            let i = choose|i: int| 0 <= i < t.len() && t[i] == x;
            assert(s[i] < n);
        }
    }
    vstd::set_lib::lemma_len_subset(t.to_set(), vstd::set_lib::set_int_range(0, n as int));
}

/// Basic shape of a breadth-first exploration from `source` over nodes below
/// `n`: `dist[v]` is the level of a discovered node (`usize::MAX` for an
/// undiscovered one), `prev[v]` the node it was discovered from, and `order`
/// the distinct discovered nodes in discovery order, of which the first
/// `head` have been expanded.
#[verifier::opaque]
pub open spec fn bfs_shape(n: nat, source: usize, dist: Seq<usize>, prev: Seq<usize>, order: Seq<usize>, head: nat) -> bool {
    &&& dist.len() == n
    &&& prev.len() == n
    &&& source < n
    &&& order.len() >= 1
    &&& order[0] == source
    &&& dist[source as int] == 0
    &&& head <= order.len()
    &&& forall|j: int| 0 <= j < order.len() ==> (#[trigger] order[j]) < n
    &&& forall|i: int, j: int| 0 <= i < j < order.len() ==> order[i] != order[j]
}

/// The discovered nodes are exactly the nodes listed in `order`.
#[verifier::opaque]
pub open spec fn bfs_discovered(n: nat, dist: Seq<usize>, order: Seq<usize>) -> bool {
    &&& forall|j: int| 0 <= j < order.len() ==> dist[#[trigger] order[j] as int] != usize::MAX
    &&& forall|v: int|
        0 <= v < n && #[trigger] dist[v] != usize::MAX ==> exists|j: int|
            0 <= j < order.len() && order[j] == v
}

/// Levels never decrease along `order`, the node at position `j` has a level
/// of at most `j`, and the last discovered node is at most one level above
/// the next node to expand.
#[verifier::opaque]
pub open spec fn bfs_levels(dist: Seq<usize>, order: Seq<usize>, head: nat) -> bool {
    &&& forall|i: int, j: int|
        0 <= i <= j < order.len() ==> dist[order[i] as int] <= dist[order[j] as int]
    &&& forall|j: int| 0 <= j < order.len() ==> dist[#[trigger] order[j] as int] <= j
    &&& head < order.len() ==> dist[order.last() as int] <= dist[order[head as int] as int] + 1
}

/// Every expanded node has had all its edges followed.
#[verifier::opaque]
pub open spec fn bfs_expanded(edges: Seq<(usize, usize)>, directed: bool, dist: Seq<usize>, order: Seq<usize>, head: nat) -> bool {
    forall|i: int, k: int|
        0 <= i < head && 0 <= k < edges.len() ==> #[trigger] expanded_edge(directed, dist, order[i], edges[k])
}

/// Every discovered node other than the source was discovered from a node
/// one level below it that an edge leads from.
#[verifier::opaque]
pub open spec fn bfs_parents(edges: Seq<(usize, usize)>, directed: bool, n: nat, source: usize, dist: Seq<usize>, prev: Seq<usize>) -> bool {
    forall|v: int|
        0 <= v < n && v != source && #[trigger] dist[v] != usize::MAX ==> {
            &&& prev[v] < n
            &&& dist[prev[v] as int] != usize::MAX
            &&& dist[prev[v] as int] + 1 == dist[v]
            &&& linked(edges, directed, prev[v], v as usize)
        }
}

/// The bookkeeping of a breadth-first exploration from `source`, following
/// edges forward only when `directed`, in both directions otherwise.
pub open spec fn bfs_state(
    edges: Seq<(usize, usize)>,
    directed: bool,
    n: nat,
    source: usize,
    dist: Seq<usize>,
    prev: Seq<usize>,
    order: Seq<usize>,
    head: nat,
) -> bool {
    &&& bfs_shape(n, source, dist, prev, order, head)
    &&& bfs_discovered(n, dist, order)
    &&& bfs_levels(dist, order, head)
    &&& bfs_expanded(edges, directed, dist, order, head)
    &&& bfs_parents(edges, directed, n, source, dist, prev)
}

/// After expanding `u`, the node that edge `e` leads to from `u`, if any, has
/// been discovered at a level at most one above `u`'s.
pub open spec fn expanded_edge(directed: bool, dist: Seq<usize>, u: usize, e: (usize, usize)) -> bool {
    match succ_of(e, directed, u) {
        Some(w) => dist[w as int] != usize::MAX && dist[w as int] <= dist[u as int] + 1,
        None => true,
    }
}

/// Along any route from `source` in a fully expanded exploration, the node at
/// position `i` is discovered at a level of at most `i`.
pub proof fn lemma_bfs_walk_levels(
    edges: Seq<(usize, usize)>,
    directed: bool,
    n: nat,
    source: usize,
    dist: Seq<usize>,
    prev: Seq<usize>,
    order: Seq<usize>,
    p: Seq<usize>,
    i: int,
)
    requires
        bfs_state(edges, directed, n, source, dist, prev, order, order.len()),
        forall|k: int| 0 <= k < edges.len() ==> (#[trigger] edges[k]).0 < n && edges[k].1 < n,
        is_route(edges, directed, p),
        p[0] == source,
        0 <= i < p.len(),
    ensures
        p[i] < n,
        dist[p[i] as int] != usize::MAX,
        dist[p[i] as int] <= i,
    decreases i,
{
    reveal(bfs_shape);
    if i > 0 {
        lemma_bfs_walk_levels(edges, directed, n, source, dist, prev, order, p, i - 1);
        reveal(bfs_discovered);
        reveal(bfs_expanded);
        let i0 = i - 1;
        assert(linked(edges, directed, p[i0], p[i0 + 1]));
        assert(p[i0 + 1] == p[i]);
        let k = choose|k: int| 0 <= k < edges.len() && #[trigger] succ_of(edges[k], directed, p[i - 1]) == Some(p[i]);
        let v = p[i - 1] as int;
        assert(0 <= v < n && dist[v] != usize::MAX);
        let j = choose|j: int| 0 <= j < order.len() && order[j] == v;
        assert(expanded_edge(directed, dist, order[j], edges[k]));
        assert(edges[k].0 < n && edges[k].1 < n);
    }
}

/// The preconditions shared by the steps of discovering `neighbor` through
/// edge `k` while expanding `u`.
pub open spec fn discover_pre(
    edges: Seq<(usize, usize)>,
    directed: bool,
    n: nat,
    source: usize,
    dist: Seq<usize>,
    prev: Seq<usize>,
    order: Seq<usize>,
    head: nat,
    u: usize,
    k: int,
    neighbor: usize,
) -> bool {
    &&& bfs_state(edges, directed, n, source, dist, prev, order, head)
    &&& forall|kk: int| 0 <= kk < edges.len() ==> (#[trigger] edges[kk]).0 < n && edges[kk].1 < n
    &&& head < order.len()
    &&& u == order[head as int]
    &&& 0 <= k < edges.len()
    &&& succ_of(edges[k], directed, u) == Some(neighbor)
    &&& dist[neighbor as int] == usize::MAX
    &&& n <= usize::MAX
}

proof fn lemma_discover_facts(
    edges: Seq<(usize, usize)>, directed: bool, n: nat, source: usize, dist: Seq<usize>, prev: Seq<usize>,
    order: Seq<usize>, head: nat, u: usize, k: int, neighbor: usize,
)
    requires
        discover_pre(edges, directed, n, source, dist, prev, order, head, u, k, neighbor),
    ensures
        neighbor < n,
        neighbor != source,
        neighbor != u,
        u < n,
        dist[u as int] != usize::MAX,
        dist[u as int] <= head,
        dist[u as int] + 1 < usize::MAX,
        order.len() < n,
        forall|j: int| 0 <= j < order.len() ==> order[j] != neighbor,
{
    reveal(bfs_shape);
    reveal(bfs_discovered);
    reveal(bfs_levels);
    assert(edges[k].0 < n && edges[k].1 < n);
    assert(order[head as int] < n);
    assert(dist[order[head as int] as int] != usize::MAX);
    assert(dist[order[head as int] as int] <= head);
    assert forall|j: int| 0 <= j < order.len() implies order[j] != neighbor by {
        assert(dist[order[j] as int] != usize::MAX);
    }
    lemma_distinct_bounded(order.push(neighbor), n);
    assert(order.push(neighbor).len() == order.len() + 1);
}

proof fn lemma_discover_shape(
    edges: Seq<(usize, usize)>, directed: bool, n: nat, source: usize, dist: Seq<usize>, prev: Seq<usize>,
    order: Seq<usize>, head: nat, u: usize, k: int, neighbor: usize,
)
    requires
        discover_pre(edges, directed, n, source, dist, prev, order, head, u, k, neighbor),
    ensures
        bfs_shape(n, source, dist.update(neighbor as int, (dist[u as int] + 1) as usize),
            prev.update(neighbor as int, u), order.push(neighbor), head),
{
    lemma_discover_facts(edges, directed, n, source, dist, prev, order, head, u, k, neighbor);
    reveal(bfs_shape);
    let no = order.push(neighbor);
    assert forall|j: int| 0 <= j < no.len() implies (#[trigger] no[j]) < n by {
        if j < order.len() {
            assert(order[j] < n);
        }
    }
    assert forall|i: int, j: int| 0 <= i < j < no.len() implies no[i] != no[j] by {
        if j < order.len() {
            assert(order[i] != order[j]);
        }
    }
}

proof fn lemma_discover_discovered(
    edges: Seq<(usize, usize)>, directed: bool, n: nat, source: usize, dist: Seq<usize>, prev: Seq<usize>,
    order: Seq<usize>, head: nat, u: usize, k: int, neighbor: usize,
)
    requires
        discover_pre(edges, directed, n, source, dist, prev, order, head, u, k, neighbor),
    ensures
        bfs_discovered(n, dist.update(neighbor as int, (dist[u as int] + 1) as usize), order.push(neighbor)),
{
    lemma_discover_facts(edges, directed, n, source, dist, prev, order, head, u, k, neighbor);
    reveal(bfs_discovered);
    reveal(bfs_shape);
    let nd = dist.update(neighbor as int, (dist[u as int] + 1) as usize);
    let no = order.push(neighbor);
    assert forall|v: int| 0 <= v < n && #[trigger] nd[v] != usize::MAX implies exists|j: int|
        0 <= j < no.len() && no[j] == v by {
        if v == neighbor {
            assert(no[order.len() as int] == v);
        } else {
            assert(nd[v] == dist[v]);
            assert(dist[v] != usize::MAX);
            let j = choose|j: int| 0 <= j < order.len() && order[j] == v;
            assert(no[j] == v);
        }
    }
    assert forall|j: int| 0 <= j < no.len() implies nd[#[trigger] no[j] as int] != usize::MAX by {
        if j < order.len() {
            assert(dist[order[j] as int] != usize::MAX);
            assert(no[j] == order[j]);
            assert(order[j] != neighbor);
            assert(order[j] < n);
        } else {
            assert(no[j] == neighbor);
        }
    }
}

proof fn lemma_discover_levels(
    edges: Seq<(usize, usize)>, directed: bool, n: nat, source: usize, dist: Seq<usize>, prev: Seq<usize>,
    order: Seq<usize>, head: nat, u: usize, k: int, neighbor: usize,
)
    requires
        discover_pre(edges, directed, n, source, dist, prev, order, head, u, k, neighbor),
    ensures
        bfs_levels(dist.update(neighbor as int, (dist[u as int] + 1) as usize), order.push(neighbor), head),
{
    lemma_discover_facts(edges, directed, n, source, dist, prev, order, head, u, k, neighbor);
    reveal(bfs_levels);
    reveal(bfs_shape);
    let nd = dist.update(neighbor as int, (dist[u as int] + 1) as usize);
    let no = order.push(neighbor);
    assert forall|j: int| 0 <= j < order.len() implies nd[order[j] as int] == dist[order[j] as int] by {
        assert(order[j] != neighbor);
        assert(order[j] < n);
    }
    assert(nd[neighbor as int] == dist[u as int] + 1);
    assert(dist[order.last() as int] <= dist[u as int] + 1);
    assert forall|i: int, j: int|
        0 <= i <= j < no.len() implies nd[no[i] as int] <= nd[no[j] as int] by {
        if j < order.len() {
            assert(dist[order[i] as int] <= dist[order[j] as int]);
            assert(no[i] == order[i] && no[j] == order[j]);
        } else if i < order.len() {
            assert(dist[order[i] as int] <= dist[order.last() as int]);
            assert(no[i] == order[i] && no[j] == neighbor);
        } else {
            assert(no[i] == neighbor && no[j] == neighbor);
        }
    }
    assert forall|j: int| 0 <= j < no.len() implies nd[#[trigger] no[j] as int] <= j by {
        if j < order.len() {
            assert(dist[order[j] as int] <= j);
            assert(no[j] == order[j]);
        } else {
            assert(no[j] == neighbor);
        }
    }
}

proof fn lemma_expanded_edge_update(
    directed: bool, dist: Seq<usize>, w: usize, e: (usize, usize), neighbor: usize, val: usize,
)
    requires
        expanded_edge(directed, dist, w, e),
        0 <= neighbor < dist.len(),
        dist[neighbor as int] == usize::MAX,
        w != neighbor,
        w < dist.len(),
        e.0 < dist.len(),
        e.1 < dist.len(),
    ensures
        expanded_edge(directed, dist.update(neighbor as int, val), w, e),
{
    let nd = dist.update(neighbor as int, val);
    assert(nd[w as int] == dist[w as int]);
    match succ_of(e, directed, w) {
        Some(x) => {
            assert(x != neighbor);
            assert(nd[x as int] == dist[x as int]);
        },
        None => {},
    }
}

proof fn lemma_discover_expanded(
    edges: Seq<(usize, usize)>, directed: bool, n: nat, source: usize, dist: Seq<usize>, prev: Seq<usize>,
    order: Seq<usize>, head: nat, u: usize, k: int, neighbor: usize,
)
    requires
        discover_pre(edges, directed, n, source, dist, prev, order, head, u, k, neighbor),
        forall|kk: int| 0 <= kk < k ==> #[trigger] expanded_edge(directed, dist, u, edges[kk]),
    ensures
        bfs_expanded(edges, directed, dist.update(neighbor as int, (dist[u as int] + 1) as usize), order.push(neighbor), head),
        forall|kk: int| 0 <= kk < k + 1 ==> #[trigger] expanded_edge(directed,
            dist.update(neighbor as int, (dist[u as int] + 1) as usize), u, edges[kk]),
{
    lemma_discover_facts(edges, directed, n, source, dist, prev, order, head, u, k, neighbor);
    reveal(bfs_expanded);
    reveal(bfs_shape);
    let nd = dist.update(neighbor as int, (dist[u as int] + 1) as usize);
    let no = order.push(neighbor);
    assert forall|i: int, kk: int|
        0 <= i < head && 0 <= kk < edges.len() implies #[trigger] expanded_edge(directed, nd, no[i], edges[kk]) by {
        assert(expanded_edge(directed, dist, order[i], edges[kk]));
        assert(no[i] == order[i]);
        assert(order[i] < n);
        assert(edges[kk].0 < n && edges[kk].1 < n);
        lemma_expanded_edge_update(directed, dist, order[i], edges[kk], neighbor, (dist[u as int] + 1) as usize);
    }
    assert forall|kk: int| 0 <= kk < k + 1 implies #[trigger] expanded_edge(directed, nd, u, edges[kk]) by {
        if kk < k {
            assert(expanded_edge(directed, dist, u, edges[kk]));
            assert(edges[kk].0 < n && edges[kk].1 < n);
            lemma_expanded_edge_update(directed, dist, u, edges[kk], neighbor, (dist[u as int] + 1) as usize);
        } else {
            assert(nd[neighbor as int] == dist[u as int] + 1);
            assert(nd[u as int] == dist[u as int]);
        }
    }
}

proof fn lemma_discover_parents(
    edges: Seq<(usize, usize)>, directed: bool, n: nat, source: usize, dist: Seq<usize>, prev: Seq<usize>,
    order: Seq<usize>, head: nat, u: usize, k: int, neighbor: usize,
)
    requires
        discover_pre(edges, directed, n, source, dist, prev, order, head, u, k, neighbor),
    ensures
        bfs_parents(edges, directed, n, source, dist.update(neighbor as int, (dist[u as int] + 1) as usize),
            prev.update(neighbor as int, u)),
{
    lemma_discover_facts(edges, directed, n, source, dist, prev, order, head, u, k, neighbor);
    reveal(bfs_parents);
    reveal(bfs_shape);
    let nd = dist.update(neighbor as int, (dist[u as int] + 1) as usize);
    let np = prev.update(neighbor as int, u);
    assert(linked(edges, directed, u, neighbor));
    assert forall|v: int|
        0 <= v < n && v != source && #[trigger] nd[v] != usize::MAX implies {
            &&& np[v] < n
            &&& nd[np[v] as int] != usize::MAX
            &&& nd[np[v] as int] + 1 == nd[v]
            &&& linked(edges, directed, np[v], v as usize)
        } by {
        if v != neighbor {
            assert(dist[v] != usize::MAX);
            assert(dist[prev[v] as int] != usize::MAX);
        }
    }
}

/// Discovering `neighbor` from the node `u` being expanded keeps the
/// exploration bookkeeping sound.
proof fn lemma_bfs_discover(
    edges: Seq<(usize, usize)>, directed: bool, n: nat, source: usize, dist: Seq<usize>, prev: Seq<usize>,
    order: Seq<usize>, head: nat, u: usize, k: int, neighbor: usize,
)
    requires
        discover_pre(edges, directed, n, source, dist, prev, order, head, u, k, neighbor),
        forall|kk: int| 0 <= kk < k ==> #[trigger] expanded_edge(directed, dist, u, edges[kk]),
    ensures
        dist[u as int] + 1 < usize::MAX,
        dist[u as int] <= head,
        bfs_state(edges, directed, n, source, dist.update(neighbor as int, (dist[u as int] + 1) as usize),
            prev.update(neighbor as int, u), order.push(neighbor), head),
        forall|kk: int| 0 <= kk < k + 1 ==> #[trigger] expanded_edge(directed,
            dist.update(neighbor as int, (dist[u as int] + 1) as usize), u, edges[kk]),
{
    lemma_discover_facts(edges, directed, n, source, dist, prev, order, head, u, k, neighbor);
    lemma_discover_shape(edges, directed, n, source, dist, prev, order, head, u, k, neighbor);
    lemma_discover_discovered(edges, directed, n, source, dist, prev, order, head, u, k, neighbor);
    lemma_discover_levels(edges, directed, n, source, dist, prev, order, head, u, k, neighbor);
    lemma_discover_expanded(edges, directed, n, source, dist, prev, order, head, u, k, neighbor);
    lemma_discover_parents(edges, directed, n, source, dist, prev, order, head, u, k, neighbor);
}

/// Breadth-first exploration of the topology from `source`, following edges
/// forward only when `directed`, in both directions otherwise. Returns the
/// level and discovery parent of every node, and the discovery order.
pub fn bfs_explore(topo: &Topology, source: usize, directed: bool) -> (r: (Vec<usize>, Vec<usize>, Vec<usize>))
    requires
        topo.wf(),
        source < topo.num_nodes,
    ensures
        bfs_state(topo.edges@, directed, topo.num_nodes as nat, source, r.0@, r.1@, r.2@, r.2@.len()),
{
    let n = topo.num_nodes;
    let mut dist: Vec<usize> = Vec::new();
    let mut prev: Vec<usize> = Vec::new();
    let mut i: usize = 0;
    while i < n
        invariant
            i <= n,
            dist@.len() == i,
            prev@.len() == i,
            forall|v: int| 0 <= v < i ==> dist@[v] == usize::MAX,
        decreases n - i,
    {
        dist.push(usize::MAX);
        prev.push(0);
        i = i + 1;
    }
    dist.set(source, 0);
    let mut order: Vec<usize> = Vec::new();
    order.push(source);
    let mut head: usize = 0;
    let ghost edges = topo.edges@;
    proof {
        reveal(bfs_shape);
        reveal(bfs_discovered);
        reveal(bfs_levels);
        reveal(bfs_expanded);
        reveal(bfs_parents);
        assert forall|v: int| 0 <= v < n && #[trigger] dist@[v] != usize::MAX implies exists|j: int|
            0 <= j < order@.len() && order@[j] == v by {
            assert(order@[0] == v);
        }
    }
    while head < order.len()
        invariant
            edges == topo.edges@,
            n == topo.num_nodes,
            topo.wf(),
            bfs_state(edges, directed, n as nat, source, dist@, prev@, order@, head as nat),
        decreases n - head,
    {
        proof {
            reveal(bfs_shape);
            lemma_distinct_bounded(order@, n as nat);
        }
        let u = order[head];
        let level = dist[u];
        let mut k: usize = 0;
        while k < topo.edges.len()
            invariant
                edges == topo.edges@,
                n == topo.num_nodes,
                topo.wf(),
                head < order@.len(),
                u == order@[head as int],
                level == dist@[u as int],
                bfs_state(edges, directed, n as nat, source, dist@, prev@, order@, head as nat),
                k <= edges.len(),
                forall|kk: int| 0 <= kk < k ==> #[trigger] expanded_edge(directed, dist@, u, edges[kk]),
            decreases edges.len() - k,
        {
            let (a, b) = topo.edges[k];
            let neighbor: usize;
            let found: bool;
            if a == u {
                neighbor = b;
                found = true;
            } else if !directed && b == u {
                neighbor = a;
                found = true;
            } else {
                neighbor = 0;
                found = false;
            }
            proof {
                reveal(bfs_shape);
                assert(edges[k as int].0 < n && edges[k as int].1 < n);
            }
            if found && dist[neighbor] == usize::MAX {
                proof {
                    lemma_bfs_discover(edges, directed, n as nat, source, dist@, prev@, order@,
                        head as nat, u, k as int, neighbor);
                }
                let ghost old_dist = dist@;
                let ghost old_prev = prev@;
                let ghost old_order = order@;
                dist.set(neighbor, level + 1);
                prev.set(neighbor, u);
                order.push(neighbor);
                proof {
                    assert(dist@ =~= old_dist.update(neighbor as int, (level + 1) as usize));
                    assert(prev@ =~= old_prev.update(neighbor as int, u));
                }
            } else {
                proof {
                    if found {
                        reveal(bfs_shape);
                        reveal(bfs_discovered);
                        reveal(bfs_levels);
                        let j = choose|j: int| 0 <= j < order@.len() && order@[j] == neighbor;
                        assert(dist@[order@[j] as int] <= dist@[order@.last() as int]);
                    }
                }
            }
            k = k + 1;
        }
        proof {
            reveal(bfs_expanded);
            reveal(bfs_levels);
            reveal(bfs_shape);
            assert forall|i: int, kk: int|
                0 <= i < head + 1 && 0 <= kk < edges.len() implies #[trigger] expanded_edge(directed, dist@, order@[i], edges[kk]) by {
                if i < head {
                } else {
                    assert(order@[i] == u);
                }
            }
            if head + 1 < order@.len() {
                assert(dist@[order@[head as int] as int] <= dist@[order@[head + 1] as int]);
            }
        }
        head = head + 1;
    }
    (dist, prev, order)
}

} // verus!
