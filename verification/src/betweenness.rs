//! Shortest-route counts for betweenness centrality: from a source, the
//! tight edges (those on shortest routes) into every node, and how many
//! shortest routes lead to every node.
use vstd::prelude::*;
use crate::topology::Topology;
use crate::reach::{reaches, is_route, linked, succ_of};
use crate::centrality::{BetweennessCentrality, shortest_distances, is_distance};

verus! {

/// The largest route count, as a signed 32-bit counter holds it.
pub open spec fn count_limit() -> nat {
    0x7fff_ffff
}

/// The node from which edge `e` leads into `v`, if it does: its tail when
/// `v` is its head, and, when edges are followed in either direction, its
/// head when `v` is its tail.
pub open spec fn tail_into(e: (usize, usize), directed: bool, v: usize) -> Option<usize> {
    if e.1 == v {
        Some(e.0)
    } else if !directed && e.0 == v {
        Some(e.1)
    } else {
        None
    }
}

/// Edge `e` leads into `v` along a shortest route: from a reached node one
/// step nearer the source than `v`.
pub open spec fn tight(ds: Seq<Option<usize>>, e: (usize, usize), directed: bool, v: usize) -> bool {
    match tail_into(e, directed, v) {
        Some(u) => ds[u as int] is Some && ds[v as int] is Some && ds[v as int]->0 == ds[u as int]->0 + 1,
        None => false,
    }
}

/// The tails of the tight edges into `v`, in edge order.
pub open spec fn tight_tails(edges: Seq<(usize, usize)>, ds: Seq<Option<usize>>, directed: bool, v: usize) -> Seq<usize>
    decreases edges.len(),
{
    if edges.len() == 0 {
        Seq::empty()
    } else {
        let prev = tight_tails(edges.drop_last(), ds, directed, v);
        let e = edges.last();
        if tight(ds, e, directed, v) {
            prev.push(tail_into(e, directed, v)->0)
        } else {
            prev
        }
    }
}

/// The number of shortest routes from `s` to `v`, a node at distance `d`:
/// one route to the source itself, and to any other node the routes to the
/// tails of its tight in-edges, each extended by that edge.
pub open spec fn route_count(edges: Seq<(usize, usize)>, ds: Seq<Option<usize>>, directed: bool, s: usize, v: usize, d: nat) -> nat
    decreases 2 * d, 0nat,
{
    if d == 0 {
        if v == s { 1 } else { 0 }
    } else {
        tails_total(edges, ds, directed, s, tight_tails(edges, ds, directed, v), (d - 1) as nat)
    }
}

/// The sum of the route counts of `tails`, nodes at distance `d`.
pub open spec fn tails_total(edges: Seq<(usize, usize)>, ds: Seq<Option<usize>>, directed: bool, s: usize, tails: Seq<usize>, d: nat) -> nat
    decreases 2 * d + 1, tails.len(),
{
    if tails.len() == 0 {
        0
    } else {
        tails_total(edges, ds, directed, s, tails.drop_last(), d) + route_count(edges, ds, directed, s, tails.last(), d)
    }
}

/// The route count of a node as a list of counts holds it: zero for a node
/// that is not reached.
pub open spec fn count_at(edges: Seq<(usize, usize)>, ds: Seq<Option<usize>>, directed: bool, s: usize, v: usize) -> nat {
    match ds[v as int] {
        Some(d) => route_count(edges, ds, directed, s, v, d as nat),
        None => 0,
    }
}

proof fn lemma_tails_total_prefix(edges: Seq<(usize, usize)>, ds: Seq<Option<usize>>, directed: bool, s: usize, tails: Seq<usize>, j: int, d: nat)
    requires
        0 <= j <= tails.len(),
    ensures
        tails_total(edges, ds, directed, s, tails.take(j), d) <= tails_total(edges, ds, directed, s, tails, d),
    decreases tails.len(),
{
    if j < tails.len() {
        assert(tails.drop_last().take(j) =~= tails.take(j));
        lemma_tails_total_prefix(edges, ds, directed, s, tails.drop_last(), j, d);
    } else {
        assert(tails.take(j) =~= tails);
    }
}

/// A node's count once the levels up to `d` are done: its route count if
/// it is reached within `d` steps, zero otherwise.
pub open spec fn counted_upto(edges: Seq<(usize, usize)>, ds: Seq<Option<usize>>, directed: bool, s: usize, v: usize, d: nat) -> nat {
    match ds[v as int] {
        Some(x) => if x <= d { route_count(edges, ds, directed, s, v, x as nat) } else { 0 },
        None => 0,
    }
}

/// Each tight tail is the tail of a tight edge into the node.
proof fn lemma_tight_tails_members(edges: Seq<(usize, usize)>, ds: Seq<Option<usize>>, directed: bool, v: usize, i: int)
    requires
        0 <= i < tight_tails(edges, ds, directed, v).len(),
    ensures
        exists|k: int| 0 <= k < edges.len() && tight(ds, #[trigger] edges[k], directed, v)
            && tail_into(edges[k], directed, v) == Some(tight_tails(edges, ds, directed, v)[i]),
    decreases edges.len(),
{
    let prev = tight_tails(edges.drop_last(), ds, directed, v);
    if i < prev.len() {
        lemma_tight_tails_members(edges.drop_last(), ds, directed, v, i);
        let k = choose|k: int| 0 <= k < edges.drop_last().len() && tight(ds, #[trigger] edges.drop_last()[k], directed, v)
            && tail_into(edges.drop_last()[k], directed, v) == Some(prev[i]);
        assert(edges[k] == edges.drop_last()[k]);
    } else {
        assert(edges[edges.len() - 1] == edges.last());
    }
}

/// A tight edge into `v` puts its tail among the tight tails of `v`.
proof fn lemma_tight_tails_contains(edges: Seq<(usize, usize)>, ds: Seq<Option<usize>>, directed: bool, v: usize, k: int)
    requires
        0 <= k < edges.len(),
        tight(ds, edges[k], directed, v),
    ensures
        tight_tails(edges, ds, directed, v).contains(tail_into(edges[k], directed, v)->0),
    decreases edges.len(),
{
    let prev = tight_tails(edges.drop_last(), ds, directed, v);
    let u = tail_into(edges[k], directed, v)->0;
    if k < edges.len() - 1 {
        assert(edges.drop_last()[k] == edges[k]);
        lemma_tight_tails_contains(edges.drop_last(), ds, directed, v, k);
        let i = choose|i: int| 0 <= i < prev.len() && prev[i] == u;
        if tight_tails(edges, ds, directed, v) != prev {
            assert(tight_tails(edges, ds, directed, v)[i] == prev[i]);
        }
    } else {
        assert(edges.last() == edges[k]);
        assert(tight_tails(edges, ds, directed, v) == prev.push(u));
        assert(tight_tails(edges, ds, directed, v)[prev.len() as int] == u);
    }
}

/// The sum over tails is at least the count of any one of them.
proof fn lemma_tails_total_member(edges: Seq<(usize, usize)>, ds: Seq<Option<usize>>, directed: bool, s: usize, tails: Seq<usize>, i: int, d: nat)
    requires
        0 <= i < tails.len(),
    ensures
        tails_total(edges, ds, directed, s, tails, d) >= route_count(edges, ds, directed, s, tails[i], d),
    decreases tails.len(),
{
    if i < tails.len() - 1 {
        assert(tails.drop_last()[i] == tails[i]);
        lemma_tails_total_member(edges, ds, directed, s, tails.drop_last(), i, d);
    }
}

/// An edge from `u` to `v` leads into `v` from `u`.
proof fn lemma_succ_tail(e: (usize, usize), directed: bool, u: usize, v: usize)
    requires
        succ_of(e, directed, u) == Some(v),
    ensures
        tail_into(e, directed, v) == Some(u),
{
}

/// The distances that `shortest_distances` gives: a route length for every
/// reached node, none for the others.
pub open spec fn true_distances(edges: Seq<(usize, usize)>, ds: Seq<Option<usize>>, directed: bool, s: usize) -> bool {
    forall|w: int| 0 <= w < ds.len() ==> match #[trigger] ds[w] {
        Some(x) => reaches(edges, directed, s, w as usize) && is_distance(edges, directed, s, w as usize, x as nat),
        None => !reaches(edges, directed, s, w as usize),
    }
}

/// A node at a true distance `d` from `s` ends at least one shortest route.
proof fn lemma_count_positive(edges: Seq<(usize, usize)>, ds: Seq<Option<usize>>, directed: bool, s: usize, v: usize, d: usize)
    requires
        v < ds.len(),
        ds[v as int] == Some(d),
        forall|k: int| 0 <= k < edges.len() ==> (#[trigger] edges[k]).0 < ds.len() && edges[k].1 < ds.len(),
        true_distances(edges, ds, directed, s),
    ensures
        route_count(edges, ds, directed, s, v, d as nat) >= 1,
    decreases d,
{
    assert(is_distance(edges, directed, s, v, d as nat));
    let p = choose|p: Seq<usize>| #[trigger] is_route(edges, directed, p) && p[0] == s && p.last() == v && p.len() == d + 1;
    if d == 0 {
        assert(p[0] == p.last());
    } else {
        let u = p[d - 1];
        assert(linked(edges, directed, p[d - 1], p[(d - 1) + 1]));
        let k = choose|k: int| 0 <= k < edges.len() && #[trigger] succ_of(edges[k], directed, u) == Some(v);
        lemma_succ_tail(edges[k], directed, u, v);
        assert(u == edges[k].0 || u == edges[k].1);
        let q = p.take(d as int);
        assert forall|i: int| 0 <= i < q.len() - 1 implies #[trigger] linked(edges, directed, q[i], q[i + 1]) by {
            assert(q[i] == p[i] && q[i + 1] == p[i + 1]);
            assert(linked(edges, directed, p[i], p[i + 1]));
        }
        assert(is_route(edges, directed, q));
        assert(q[0] == s && q.last() == u);
        assert(reaches(edges, directed, s, u));
        assert(u < ds.len());
        let du = ds[u as int]->0;
        assert(ds[u as int] is Some);
        assert(is_distance(edges, directed, s, u, du as nat));
        assert(q.len() >= du + 1);
        if du + 1 < d {
            let r = choose|r: Seq<usize>| #[trigger] is_route(edges, directed, r) && r[0] == s && r.last() == u && r.len() == du + 1;
            let rv = r.push(v);
            assert forall|i: int| 0 <= i < rv.len() - 1 implies #[trigger] linked(edges, directed, rv[i], rv[i + 1]) by {
                if i < r.len() - 1 {
                    assert(rv[i] == r[i] && rv[i + 1] == r[i + 1]);
                    assert(linked(edges, directed, r[i], r[i + 1]));
                } else {
                    assert(rv[i] == u && rv[i + 1] == v);
                }
            }
            assert(is_route(edges, directed, rv));
            assert(rv[0] == s && rv.last() == v);
            assert(false);
        }
        assert(du == d - 1);
        assert(tight(ds, edges[k], directed, v));
        lemma_tight_tails_contains(edges, ds, directed, v, k);
        let tails = tight_tails(edges, ds, directed, v);
        let i = choose|i: int| 0 <= i < tails.len() && tails[i] == u;
        lemma_tails_total_member(edges, ds, directed, s, tails, i, (d - 1) as nat);
        lemma_count_positive(edges, ds, directed, s, u, (d - 1) as usize);
    }
}

/// Under the true distances from `s`, a node ends at least one shortest
/// route exactly when `s` reaches it.
pub proof fn law_reached_nodes_have_routes(edges: Seq<(usize, usize)>, ds: Seq<Option<usize>>, directed: bool, s: usize, v: usize)
    requires
        v < ds.len(),
        forall|k: int| 0 <= k < edges.len() ==> (#[trigger] edges[k]).0 < ds.len() && edges[k].1 < ds.len(),
        true_distances(edges, ds, directed, s),
    ensures
        count_at(edges, ds, directed, s, v) >= 1 <==> reaches(edges, directed, s, v),
{
    match ds[v as int] {
        Some(x) => {
            lemma_count_positive(edges, ds, directed, s, v, x);
        },
        None => {
            assert(!reaches(edges, directed, s, v));
        },
    }
}

fn is_tight(ds: &Vec<Option<usize>>, e: (usize, usize), directed: bool, v: usize) -> (r: bool)
    requires
        e.0 < ds@.len(),
        e.1 < ds@.len(),
        v < ds@.len(),
    ensures
        r == tight(ds@, e, directed, v),
{
    let u = if e.1 == v {
        e.0
    } else if !directed && e.0 == v {
        e.1
    } else {
        return false;
    };
    match (ds[u], ds[v]) {
        (Some(a), Some(b)) => a < b && b - a == 1,
        _ => false,
    }
}

/// For every node, the tails of the tight edges into it under the
/// distances `ds`, in edge order.
pub fn tight_predecessors(topo: &Topology, ds: &Vec<Option<usize>>, directed: bool) -> (r: Vec<Vec<usize>>)
    requires
        topo.wf(),
        ds@.len() == topo.num_nodes,
    ensures
        r@.len() == topo.num_nodes,
        forall|v: int| 0 <= v < topo.num_nodes ==> (#[trigger] r@[v])@ == tight_tails(topo.edges@, ds@, directed, v as usize),
{
    let n = topo.num_nodes;
    let m = topo.edges.len();
    let mut out: Vec<Vec<usize>> = Vec::new();
    let mut v: usize = 0;
    while v < n
        invariant
            topo.wf(),
            n == topo.num_nodes,
            m == topo.edges@.len(),
            ds@.len() == n,
            v <= n,
            out@.len() == v,
            forall|w: int| 0 <= w < v ==> (#[trigger] out@[w])@ == tight_tails(topo.edges@, ds@, directed, w as usize),
        decreases n - v,
    {
        let mut tails: Vec<usize> = Vec::new();
        let mut k: usize = 0;
        proof {
            assert(topo.edges@.take(0) =~= Seq::<(usize, usize)>::empty());
        }
        while k < m
            invariant
                topo.wf(),
                n == topo.num_nodes,
                m == topo.edges@.len(),
                ds@.len() == n,
                v < n,
                k <= m,
                tails@ == tight_tails(topo.edges@.take(k as int), ds@, directed, v),
            decreases m - k,
        {
            let e = topo.edges[k];
            proof {
                assert(topo.edges@.take(k + 1).drop_last() =~= topo.edges@.take(k as int));
                assert(topo.edges@.take(k + 1).last() == e);
            }
            if is_tight(ds, e, directed, v) {
                let u = if e.1 == v { e.0 } else { e.1 };
                tails.push(u);
            }
            k = k + 1;
        }
        proof {
            assert(topo.edges@.take(m as int) =~= topo.edges@);
        }
        out.push(tails);
        v = v + 1;
    }
    out
}

/// The number of shortest routes from `source` to every node, under the
/// distances `ds` and the tight tails `tails` of every node (as
/// `tight_predecessors` gives them); `None` when some count is above
/// `limit`.
pub fn route_counts(topo: &Topology, ds: &Vec<Option<usize>>, tails: &Vec<Vec<usize>>, directed: bool, source: usize, limit: u64)
    -> (r: Option<Vec<u64>>)
    requires
        topo.wf(),
        ds@.len() == topo.num_nodes,
        tails@.len() == topo.num_nodes,
        forall|v: int| 0 <= v < topo.num_nodes ==> (#[trigger] tails@[v])@ == tight_tails(topo.edges@, ds@, directed, v as usize),
        1 <= limit <= u64::MAX / 2,
    ensures
        r is Some <==> forall|v: int| 0 <= v < topo.num_nodes ==> #[trigger] count_at(topo.edges@, ds@, directed, source, v as usize) <= limit,
        r matches Some(c) ==> c@.len() == topo.num_nodes
            && forall|v: int| 0 <= v < topo.num_nodes ==> #[trigger] c@[v] == count_at(topo.edges@, ds@, directed, source, v as usize),
{
    let n = ds.len();
    let ghost edges = topo.edges@;
    let mut maxd: usize = 0;
    let mut v: usize = 0;
    while v < n
        invariant
            n == ds@.len(),
            v <= n,
            forall|w: int| 0 <= w < v ==> ((#[trigger] ds@[w]) matches Some(x) ==> x <= maxd),
        decreases n - v,
    {
        match ds[v] {
            Some(x) => {
                if x > maxd {
                    maxd = x;
                }
            },
            None => {},
        }
        v = v + 1;
    }
    let mut c: Vec<u64> = Vec::new();
    let mut v: usize = 0;
    while v < n
        invariant
            n == ds@.len(),
            v <= n,
            1 <= limit <= u64::MAX / 2,
            c@.len() == v,
            forall|w: int| 0 <= w < v ==> #[trigger] c@[w] == counted_upto(edges, ds@, directed, source, w as usize, 0),
            forall|w: int| 0 <= w < v ==> #[trigger] c@[w] <= limit,
        decreases n - v,
    {
        let first = match ds[v] {
            Some(x) => x == 0 && v == source,
            None => false,
        };
        c.push(if first { 1 } else { 0 });
        v = v + 1;
    }
    let mut d: usize = 0;
    while d < maxd
        invariant
            topo.wf(),
            edges == topo.edges@,
            n == ds@.len(),
            n == topo.num_nodes,
            tails@.len() == n,
            limit <= u64::MAX / 2,
            forall|v: int| 0 <= v < n ==> (#[trigger] tails@[v])@ == tight_tails(edges, ds@, directed, v as usize),
            forall|w: int| 0 <= w < n ==> ((#[trigger] ds@[w]) matches Some(x) ==> x <= maxd),
            d <= maxd,
            c@.len() == n,
            forall|w: int| 0 <= w < n ==> #[trigger] c@[w] == counted_upto(edges, ds@, directed, source, w as usize, d as nat),
            forall|w: int| 0 <= w < n ==> #[trigger] c@[w] <= limit,
        decreases maxd - d,
    {
        d = d + 1;
        let mut v: usize = 0;
        while v < n
            invariant
                topo.wf(),
                edges == topo.edges@,
                n == ds@.len(),
                n == topo.num_nodes,
                tails@.len() == n,
                limit <= u64::MAX / 2,
                forall|v: int| 0 <= v < n ==> (#[trigger] tails@[v])@ == tight_tails(edges, ds@, directed, v as usize),
                1 <= d,
                v <= n,
                c@.len() == n,
                forall|w: int| 0 <= w < n ==> #[trigger] c@[w] == if w < v {
                    counted_upto(edges, ds@, directed, source, w as usize, d as nat)
                } else {
                    counted_upto(edges, ds@, directed, source, w as usize, (d - 1) as nat)
                },
                forall|w: int| 0 <= w < n ==> #[trigger] c@[w] <= limit,
            decreases n - v,
        {
            let at_level = match ds[v] {
                Some(x) => x == d,
                None => false,
            };
            if at_level {
                let list = &tails[v];
                let ghost full = tight_tails(edges, ds@, directed, v);
                let mut total: u64 = 0;
                let mut j: usize = 0;
                proof {
                    assert(list@.take(0) =~= Seq::<usize>::empty());
                }
                while j < list.len()
                    invariant
                        topo.wf(),
                        edges == topo.edges@,
                        n == ds@.len(),
                        n == topo.num_nodes,
                        limit <= u64::MAX / 2,
                        list@ == full,
                        full == tight_tails(edges, ds@, directed, v),
                        ds@[v as int] == Some(d),
                        1 <= d,
                        v < n,
                        j <= list@.len(),
                        c@.len() == n,
                        forall|w: int| 0 <= w < n ==> #[trigger] c@[w] == if w < v {
                            counted_upto(edges, ds@, directed, source, w as usize, d as nat)
                        } else {
                            counted_upto(edges, ds@, directed, source, w as usize, (d - 1) as nat)
                        },
                        forall|w: int| 0 <= w < n ==> #[trigger] c@[w] <= limit,
                        total == tails_total(edges, ds@, directed, source, list@.take(j as int), (d - 1) as nat),
                        total <= limit,
                    decreases list@.len() - j,
                {
                    let u = list[j];
                    proof {
                        lemma_tight_tails_members(edges, ds@, directed, v, j as int);
                        let k = choose|k: int| 0 <= k < edges.len() && tight(ds@, #[trigger] edges[k], directed, v)
                            && tail_into(edges[k], directed, v) == Some(full[j as int]);
                        assert(edges[k].0 < n && edges[k].1 < n);
                        assert(u < n);
                        assert(ds@[u as int] == Some((d - 1) as usize));
                        assert(list@.take(j + 1).drop_last() =~= list@.take(j as int));
                        assert(list@.take(j + 1).last() == u);
                        assert(c@[u as int] == route_count(edges, ds@, directed, source, u, (d - 1) as nat));
                    }
                    total = total + c[u];
                    if total > limit {
                        proof {
                            lemma_tails_total_prefix(edges, ds@, directed, source, full, j + 1, (d - 1) as nat);
                            assert(count_at(edges, ds@, directed, source, v) > limit);
                            assert(count_at(topo.edges@, ds@, directed, source, (v as int) as usize) > limit);
                        }
                        return None;
                    }
                    j = j + 1;
                }
                proof {
                    assert(list@.take(j as int) =~= full);
                    assert(count_at(edges, ds@, directed, source, v) == total);
                }
                c.set(v, total);
            }
            v = v + 1;
        }
    }
    proof {
        assert forall|v: int| 0 <= v < n implies #[trigger] c@[v] == count_at(edges, ds@, directed, source, v as usize) by {
            assert(c@[v] == counted_upto(edges, ds@, directed, source, v as usize, d as nat));
        }
        assert forall|v: int| 0 <= v < topo.num_nodes implies #[trigger] count_at(topo.edges@, ds@, directed, source, v as usize) <= limit by {
            assert(c@[v] == count_at(edges, ds@, directed, source, v as usize));
        }
    }
    Some(c)
}

/// From `source`, the shortest-route structure that betweenness is
/// accumulated over: the distance of every node (`None` for a node not
/// reached), the tails of the tight edges into every node, and the number of
/// shortest routes to every node (`None` when a count is above `limit`,
/// which is at least one).
/// Routes follow edges forward when `directed`, in either direction
/// otherwise.
pub fn shortest_route_structure(topo: &Topology, source: usize, directed: bool, limit: u64)
    -> (r: (Vec<Option<usize>>, Vec<Vec<usize>>, Option<Vec<u64>>))
    requires
        topo.wf(),
        source < topo.num_nodes,
        1 <= limit <= u64::MAX / 2,
    ensures
        r.0@.len() == topo.num_nodes,
        true_distances(topo.edges@, r.0@, directed, source),
        r.1@.len() == topo.num_nodes,
        forall|v: int| 0 <= v < topo.num_nodes ==> (#[trigger] r.1@[v])@ == tight_tails(topo.edges@, r.0@, directed, v as usize),
        r.2 is Some <==> forall|v: int| 0 <= v < topo.num_nodes ==> #[trigger] count_at(topo.edges@, r.0@, directed, source, v as usize) <= limit,
        r.2 matches Some(c) ==> c@.len() == topo.num_nodes
            && forall|v: int| 0 <= v < topo.num_nodes ==> #[trigger] c@[v] == count_at(topo.edges@, r.0@, directed, source, v as usize),
{
    let ds = shortest_distances(topo, source, directed);
    let tails = tight_predecessors(topo, &ds, directed);
    let counts = route_counts(topo, &ds, &tails, directed, source, limit);
    (ds, tails, counts)
}

impl BetweennessCentrality {
    /// The shortest-route structure from `source` along edge directions,
    /// with the route counts held by a signed 32-bit counter.
    pub fn shortest_routes(topo: &Topology, source: usize) -> (r: (Vec<Option<usize>>, Vec<Vec<usize>>, Option<Vec<u64>>))
        requires
            topo.wf(),
            source < topo.num_nodes,
        ensures
            r.0@.len() == topo.num_nodes,
            true_distances(topo.edges@, r.0@, true, source),
            r.1@.len() == topo.num_nodes,
            forall|v: int| 0 <= v < topo.num_nodes ==> (#[trigger] r.1@[v])@ == tight_tails(topo.edges@, r.0@, true, v as usize),
            r.2 is Some <==> forall|v: int| 0 <= v < topo.num_nodes ==> #[trigger] count_at(topo.edges@, r.0@, true, source, v as usize) <= count_limit(),
            r.2 matches Some(c) ==> c@.len() == topo.num_nodes
                && forall|v: int| 0 <= v < topo.num_nodes ==> #[trigger] c@[v] == count_at(topo.edges@, r.0@, true, source, v as usize),
    {
        shortest_route_structure(topo, source, true, 0x7fff_ffff)
    }
}

} // verus!
