//! Shortest paths over a topology: breadth-first distances and the
//! reconstruction of a path from discovery links.
use vstd::prelude::*;
use crate::topology::{
    Topology, adjacent, is_walk, walk_between, reachable, bfs_explore, bfs_state, bfs_shape,
    bfs_discovered, bfs_parents, lemma_bfs_walk_levels,
};
use crate::reach::{lemma_route_walk, lemma_linked_undirected};
use crate::topology::lemma_distinct_bounded;

verus! {

/// Dijkstra's weighted shortest paths. The weighted relaxation works on
/// floating-point weights and lives with the caller; the path reconstruction
/// from the discovery links is here.
pub struct DijkstraShortestPath;

/// All-pairs shortest paths by Floyd-Warshall, over floating-point weights.
pub struct FloydWarshall;

/// Breadth-first shortest paths, ignoring edge direction and weight.
pub struct BFSShortestPath;

/// Following the `previous` link of any node other than `source` that has a
/// level (a nonnegative `dist`) leads to a node one level lower.
pub open spec fn links_descend(previous: Seq<usize>, dist: Seq<int>, source: usize) -> bool {
    &&& previous.len() == dist.len()
    &&& source < dist.len()
    &&& dist[source as int] == 0
    &&& forall|v: int|
        0 <= v < dist.len() && v != source && dist[v] >= 0 ==> (#[trigger] previous[v]) < dist.len()
            && dist[previous[v] as int] >= 0 && dist[previous[v] as int] + 1 == dist[v]
}

/// The path from `source` to `target` that the `previous` links trace back.
fn trace_back(previous: &Vec<usize>, source: usize, target: usize, Ghost(dist): Ghost<Seq<int>>) -> (r: Vec<usize>)
    requires
        links_descend(previous@, dist, source),
        target < dist.len(),
        dist[target as int] >= 0,
    ensures
        r@.len() == dist[target as int] + 1,
        r@[0] == source,
        r@.last() == target,
        forall|i: int| 0 <= i < r@.len() ==> (#[trigger] r@[i]) < dist.len() && dist[r@[i] as int] == i,
        forall|i: int| 0 <= i < r@.len() - 1 ==> previous@[#[trigger] r@[i + 1] as int] == r@[i],
{
    let mut chain: Vec<usize> = Vec::new();
    let mut current = target;
    while current != source
        invariant
            links_descend(previous@, dist, source),
            target < dist.len(),
            current < dist.len(),
            dist[current as int] >= 0,
            dist[current as int] + chain@.len() == dist[target as int],
            chain@.len() > 0 ==> chain@[0] == target,
            chain@.len() == 0 ==> current == target,
            forall|i: int| 0 <= i < chain@.len() ==> (#[trigger] chain@[i]) < dist.len()
                && dist[chain@[i] as int] + i == dist[target as int],
            dist[target as int] >= 0,
            forall|i: int| 0 <= i < chain@.len() - 1 ==> previous@[#[trigger] chain@[i] as int] == chain@[i + 1],
            chain@.len() > 0 ==> previous@[chain@.last() as int] == current,
        decreases dist[current as int],
    {
        chain.push(current);
        current = previous[current];
    }
    chain.push(source);
    let len = chain.len();
    let mut path: Vec<usize> = Vec::new();
    let mut j: usize = 0;
    while j < len
        invariant
            len == chain@.len(),
            j <= len,
            path@.len() == j,
            forall|i: int| 0 <= i < j ==> path@[i] == chain@[len - 1 - i],
        decreases len - j,
    {
        path.push(chain[len - 1 - j]);
        j = j + 1;
    }
    proof {
        assert forall|i: int| 0 <= i < path@.len() - 1 implies previous@[#[trigger] path@[i + 1] as int] == path@[i] by {
            let a = len - 1 - (i + 1);
            assert(path@[i + 1] == chain@[a]);
            assert(path@[i] == chain@[a + 1]);
        }
        assert forall|i: int| 0 <= i < path@.len() implies (#[trigger] path@[i]) < dist.len() && dist[path@[i] as int] == i by {
            assert(path@[i] == chain@[len - 1 - i]);
        }
    }
    path
}

/// Following the `previous` links back from `target` reaches `source`: some
/// assignment of levels to the nodes makes every link step one level down,
/// with `source` alone at level 0 and `target` on a level.
pub open spec fn links_lead_to(previous: Seq<usize>, source: usize, target: usize) -> bool {
    exists|dist: Seq<int>| #[trigger] links_descend(previous, dist, source) && target < dist.len() && dist[target as int] >= 0
}

/// `path` starts at `source`, ends at `target`, meets `source` nowhere else,
/// and each node's `previous` link is the node before it.
pub open spec fn traced_path(previous: Seq<usize>, source: usize, target: usize, path: Seq<usize>) -> bool {
    &&& path.len() > 0
    &&& path[0] == source
    &&& path.last() == target
    &&& forall|i: int| 0 < i < path.len() ==> #[trigger] path[i] != source
    &&& forall|i: int| 0 <= i < path.len() - 1 ==> previous[#[trigger] path[i + 1] as int] == path[i]
}

fn trace_links(previous: &Vec<usize>, source: usize, target: usize) -> (r: Vec<usize>)
    requires
        links_lead_to(previous@, source, target),
    ensures
        traced_path(previous@, source, target, r@),
{
    let ghost dist = choose|dist: Seq<int>| #[trigger] links_descend(previous@, dist, source) && target < dist.len() && dist[target as int] >= 0;
    let r = trace_back(previous, source, target, Ghost(dist));
    proof {
        assert forall|i: int| 0 < i < r@.len() implies #[trigger] r@[i] != source by {
            assert(dist[r@[i] as int] == i);
        }
    }
    r
}

/// The node reached from `v` after `k` steps along the `previous` links, or
/// `None` once a link points past the end.
pub open spec fn follow(previous: Seq<usize>, v: usize, k: nat) -> Option<usize>
    decreases k,
{
    if k == 0 {
        Some(v)
    } else {
        match follow(previous, v, (k - 1) as nat) {
            Some(u) => if u < previous.len() { Some(previous[u as int]) } else { None },
            None => None,
        }
    }
}

proof fn lemma_follow_shift(previous: Seq<usize>, v: usize, i: nat, j: nat, t: nat)
    requires
        follow(previous, v, i) == follow(previous, v, j),
    ensures
        follow(previous, v, i + t) == follow(previous, v, j + t),
    decreases t,
{
    if t > 0 {
        lemma_follow_shift(previous, v, i, j, (t - 1) as nat);
        assert(follow(previous, v, i + t) == match follow(previous, v, (i + t - 1) as nat) {
            Some(u) => if u < previous.len() { Some(previous[u as int]) } else { None },
            None => None,
        });
    }
}

/// Along levels, the links from `target` go one level down per step.
proof fn lemma_levels_follow(previous: Seq<usize>, dist: Seq<int>, source: usize, target: usize, k: nat)
    requires
        links_descend(previous, dist, source),
        target < dist.len(),
        dist[target as int] >= 0,
        k <= dist[target as int],
    ensures
        follow(previous, target, k) is Some,
        follow(previous, target, k)->0 < dist.len(),
        dist[follow(previous, target, k)->0 as int] == dist[target as int] - k,
    decreases k,
{
    if k > 0 {
        lemma_levels_follow(previous, dist, source, target, (k - 1) as nat);
        let u = follow(previous, target, (k - 1) as nat)->0;
        assert(u != source);
    }
}

/// With levels, the links from `target` reach `source` in `dist[target]`
/// steps, fewer than there are nodes.
proof fn lemma_levels_reach(previous: Seq<usize>, dist: Seq<int>, source: usize, target: usize)
    requires
        links_descend(previous, dist, source),
        target < dist.len(),
        dist[target as int] >= 0,
    ensures
        follow(previous, target, dist[target as int] as nat) == Some(source),
        dist[target as int] < previous.len(),
        forall|k: nat| k < dist[target as int] ==> #[trigger] follow(previous, target, k) != Some(source),
{
    let d = dist[target as int];
    lemma_levels_follow(previous, dist, source, target, d as nat);
    let u = follow(previous, target, d as nat)->0;
    if u != source {
        assert(dist[previous[u as int] as int] + 1 == dist[u as int]);
    }
    assert forall|k: nat| k < d implies #[trigger] follow(previous, target, k) != Some(source) by {
        lemma_levels_follow(previous, dist, source, target, k);
    }
    let s = Seq::new((d + 1) as nat, |i: int| follow(previous, target, i as nat)->0);
    assert forall|i: int, j: int| 0 <= i < j < s.len() implies s[i] != s[j] by {
        lemma_levels_follow(previous, dist, source, target, i as nat);
        lemma_levels_follow(previous, dist, source, target, j as nat);
    }
    assert forall|i: int| 0 <= i < s.len() implies s[i] < previous.len() as nat by {
        lemma_levels_follow(previous, dist, source, target, i as nat);
    }
    lemma_distinct_bounded(s, previous.len() as nat);
}

/// Links that reach `source` from `target` after `s` steps, meeting `source`
/// nowhere before, give levels.
proof fn lemma_reach_levels(previous: Seq<usize>, source: usize, target: usize, s: nat)
    requires
        previous.len() <= usize::MAX,
        source < previous.len(),
        follow(previous, target, s) == Some(source),
        forall|i: nat| i < s ==> (#[trigger] follow(previous, target, i)) is Some
            && follow(previous, target, i)->0 < previous.len()
            && follow(previous, target, i)->0 != source,
    ensures
        links_lead_to(previous, source, target),
{
    assert forall|i: nat, j: nat| i < j <= s implies
        #[trigger] follow(previous, target, i) != #[trigger] follow(previous, target, j) by {
        if follow(previous, target, i) == follow(previous, target, j) {
            lemma_follow_shift(previous, target, i, j, (s - j) as nat);
            assert(follow(previous, target, (i + (s - j)) as nat) == Some(source));
        }
    }
    let dist = Seq::new(previous.len(), |v: int|
        if exists|i: nat| i <= s && #[trigger] follow(previous, target, i) == Some(v as usize) {
            s - choose|i: nat| i <= s && #[trigger] follow(previous, target, i) == Some(v as usize)
        } else {
            -1
        });
    assert(follow(previous, target, 0) == Some(target));
    assert(target < previous.len()) by {
        if s > 0 {
            assert(follow(previous, target, 0) is Some);
        }
    }
    assert(dist[source as int] == 0) by {
        assert(follow(previous, target, s) == Some(source));
        let c = choose|i: nat| i <= s && #[trigger] follow(previous, target, i) == Some(source);
        if c != s {
            assert(follow(previous, target, c) != follow(previous, target, s));
        }
    }
    assert(dist[target as int] >= 0) by {
        assert(follow(previous, target, 0) == Some(target));
    }
    assert forall|v: int|
        0 <= v < dist.len() && v != source && dist[v] >= 0 implies (#[trigger] previous[v]) < dist.len()
            && dist[previous[v] as int] >= 0 && dist[previous[v] as int] + 1 == dist[v] by {
        assert(exists|i: nat| i <= s && #[trigger] follow(previous, target, i) == Some(v as usize));
        let i = choose|i: nat| i <= s && #[trigger] follow(previous, target, i) == Some(v as usize);
        assert(v as usize == v);
        assert(v as usize != source);
        assert(i != s);
        assert(follow(previous, target, (i + 1) as nat) == match follow(previous, target, i) {
            Some(u) => if u < previous.len() { Some(previous[u as int]) } else { None },
            None => None,
        });
        assert(follow(previous, target, (i + 1) as nat) == Some(previous[v]));
        let w = previous[v];
        let j = choose|j: nat| j <= s && #[trigger] follow(previous, target, j) == Some(w);
        if j != i + 1 {
            assert(follow(previous, target, j) != follow(previous, target, i + 1));
        }
    }
    assert(links_descend(previous, dist, source));
}

/// Whether following the `previous` links back from `target` reaches
/// `source`: exactly when a path can be traced back.
pub fn links_reach(previous: &Vec<usize>, source: usize, target: usize) -> (r: bool)
    ensures
        r == links_lead_to(previous@, source, target),
{
    let len = previous.len();
    if source >= len || target >= len {
        return false;
    }
    let mut cur = target;
    let mut steps: usize = 0;
    while cur != source && steps < len
        invariant
            len == previous@.len(),
            source < len,
            cur < len,
            steps <= len,
            follow(previous@, target, steps as nat) == Some(cur),
            forall|i: nat| i < steps ==> (#[trigger] follow(previous@, target, i)) is Some
                && follow(previous@, target, i)->0 < len
                && follow(previous@, target, i)->0 != source,
        decreases len - steps,
    {
        let next = previous[cur];
        if next >= len {
            proof {
                assert(follow(previous@, target, (steps + 1) as nat) == Some(next));
                if links_lead_to(previous@, source, target) {
                    let dist = choose|dist: Seq<int>| #[trigger] links_descend(previous@, dist, source) && target < dist.len() && dist[target as int] >= 0;
                    lemma_levels_reach(previous@, dist, source, target);
                    let d = dist[target as int];
                    if steps < d {
                        lemma_levels_follow(previous@, dist, source, target, (steps + 1) as nat);
                    } else if d < steps {
                        assert(follow(previous@, target, d as nat) is Some);
                    }
                }
            }
            return false;
        }
        cur = next;
        steps = steps + 1;
    }
    proof {
        if cur == source {
            lemma_reach_levels(previous@, source, target, steps as nat);
        } else if links_lead_to(previous@, source, target) {
            let dist = choose|dist: Seq<int>| #[trigger] links_descend(previous@, dist, source) && target < dist.len() && dist[target as int] >= 0;
            lemma_levels_reach(previous@, dist, source, target);
            let d = dist[target as int];
            assert(follow(previous@, target, d as nat) is Some);
        }
    }
    cur == source
}

impl DijkstraShortestPath {
    /// The path to `target` traced back through the `previous` links to `source`.
    pub fn reconstruct_path(&self, previous: &Vec<usize>, source: usize, target: usize) -> (r: Vec<usize>)
        requires
            links_lead_to(previous@, source, target),
        ensures
            traced_path(previous@, source, target, r@),
    {
        trace_links(previous, source, target)
    }
}

impl BFSShortestPath {
    /// The path to `target` traced back through the `previous` links to `source`.
    pub fn reconstruct_path(&self, previous: &Vec<usize>, source: usize, target: usize) -> (r: Vec<usize>)
        requires
            links_lead_to(previous@, source, target),
        ensures
            traced_path(previous@, source, target, r@),
    {
        trace_links(previous, source, target)
    }

    /// For every node, the length of a shortest walk from `source` and such a
    /// walk, or `None` where no walk reaches it.
    pub fn compute(&self, topo: &Topology, source: usize) -> (r: Vec<Option<(usize, Vec<usize>)>>)
        requires
            topo.wf(),
            source < topo.num_nodes,
        ensures
            r@.len() == topo.num_nodes,
            forall|v: int| 0 <= v < topo.num_nodes ==> match #[trigger] r@[v] {
                Some((d, path)) => {
                    &&& walk_between(topo.edges@, path@, source, v as usize)
                    &&& path@.len() == d + 1
                    &&& forall|q: Seq<usize>| #[trigger] walk_between(topo.edges@, q, source, v as usize) ==> q.len() >= d + 1
                },
                None => !reachable(topo.edges@, source, v as usize),
            },
    {
        let n = topo.num_nodes;
        let (dist, prev, order) = bfs_explore(topo, source, false);
        let ghost edges = topo.edges@;
        let ghost levels: Seq<int> = Seq::new(n as nat, |v: int| if dist@[v] == usize::MAX { -1 } else { dist@[v] as int });
        proof {
            reveal(bfs_shape);
            reveal(bfs_parents);
        }
        let mut result: Vec<Option<(usize, Vec<usize>)>> = Vec::new();
        let mut v: usize = 0;
        while v < n
            invariant
                n == topo.num_nodes,
                edges == topo.edges@,
                topo.wf(),
                source < n,
                v <= n,
                dist@.len() == n,
                prev@.len() == n,
                bfs_state(edges, false, n as nat, source, dist@, prev@, order@, order@.len()),
                levels.len() == n,
                forall|w: int| 0 <= w < n ==> #[trigger] levels[w] == if dist@[w] == usize::MAX { -1 } else { dist@[w] as int },
                result@.len() == v,
                forall|w: int| 0 <= w < v ==> match #[trigger] result@[w] {
                    Some((d, path)) => {
                        &&& walk_between(edges, path@, source, w as usize)
                        &&& path@.len() == d + 1
                        &&& forall|q: Seq<usize>| #[trigger] walk_between(edges, q, source, w as usize) ==> q.len() >= d + 1
                    },
                    None => !reachable(edges, source, w as usize),
                },
            decreases n - v,
        {
            if dist[v] != usize::MAX {
                proof {
                    reveal(bfs_shape);
                    reveal(bfs_parents);
                    assert forall|w: int| 0 <= w < levels.len() && w != source && levels[w] >= 0 implies (#[trigger] prev@[w]) < levels.len()
                        && levels[prev@[w] as int] >= 0 && levels[prev@[w] as int] + 1 == levels[w] by {
                        assert(dist@[w] != usize::MAX);
                        assert(prev@[w] < n);
                        assert(dist@[prev@[w] as int] != usize::MAX);
                        assert(levels[prev@[w] as int] == dist@[prev@[w] as int]);
                    }
                    assert(levels[source as int] == 0);
                }
                let path = trace_back(&prev, source, v, Ghost(levels));
                proof {
                    lemma_bfs_path_is_shortest(edges, n as nat, source, dist@, prev@, order@, levels, path@, v);
                }
                result.push(Some((dist[v], path)));
            } else {
                proof {
                    if reachable(edges, source, v) {
                        let q = choose|q: Seq<usize>| #[trigger] walk_between(edges, q, source, v);
                        lemma_route_walk(edges, q);
                        lemma_bfs_walk_levels(edges, false, n as nat, source, dist@, prev@, order@, q, q.len() - 1);
                    }
                }
                result.push(None);
            }
            v = v + 1;
        }
        result
    }
}

/// The traced-back path to a discovered node is a walk of the node's level,
/// and no walk from `source` to it is shorter.
proof fn lemma_bfs_path_is_shortest(
    edges: Seq<(usize, usize)>,
    n: nat,
    source: usize,
    dist: Seq<usize>,
    prev: Seq<usize>,
    order: Seq<usize>,
    levels: Seq<int>,
    path: Seq<usize>,
    v: usize,
)
    requires
        bfs_state(edges, false, n, source, dist, prev, order, order.len()),
        forall|k: int| 0 <= k < edges.len() ==> (#[trigger] edges[k]).0 < n && edges[k].1 < n,
        v < n,
        dist[v as int] != usize::MAX,
        levels.len() == n,
        forall|w: int| 0 <= w < n ==> #[trigger] levels[w] == if dist[w] == usize::MAX { -1 } else { dist[w] as int },
        path.len() == levels[v as int] + 1,
        path[0] == source,
        path.last() == v,
        forall|i: int| 0 <= i < path.len() ==> (#[trigger] path[i]) < levels.len() && levels[path[i] as int] == i,
        forall|i: int| 0 <= i < path.len() - 1 ==> prev[#[trigger] path[i + 1] as int] == path[i],
    ensures
        walk_between(edges, path, source, v),
        path.len() == dist[v as int] + 1,
        forall|q: Seq<usize>| #[trigger] walk_between(edges, q, source, v) ==> q.len() >= dist[v as int] + 1,
{
    reveal(bfs_shape);
    reveal(bfs_parents);
    assert forall|i: int| 0 <= i < path.len() - 1 implies #[trigger] adjacent(edges, path[i], path[i + 1]) by {
        let w = path[i + 1];
        assert(levels[w as int] == i + 1);
        assert(dist[w as int] != usize::MAX);
        assert(w != source);
        lemma_linked_undirected(edges, prev[w as int], w);
    }
    assert forall|q: Seq<usize>| #[trigger] walk_between(edges, q, source, v) implies q.len() >= dist[v as int] + 1 by {
        lemma_route_walk(edges, q);
        lemma_bfs_walk_levels(edges, false, n, source, dist, prev, order, q, q.len() - 1);
    }
}

} // verus!
