//! Depth-first reachability over a topology, directed or undirected, and the
//! facts about walks that the graph algorithms share.
use vstd::prelude::*;
use crate::topology::{Topology, touches, adjacent, is_walk, walk_between, reachable, lemma_distinct_bounded};

verus! {

/// The node that edge `e` leads to from `x`: its head when `x` is its tail,
/// and, when direction is ignored, its tail when `x` is its head.
pub open spec fn succ_of(e: (usize, usize), directed: bool, x: usize) -> Option<usize> {
    if e.0 == x {
        Some(e.1)
    } else if !directed && e.1 == x {
        Some(e.0)
    } else {
        None
    }
}

/// Some edge leads from `x` to `y`.
pub open spec fn linked(edges: Seq<(usize, usize)>, directed: bool, x: usize, y: usize) -> bool {
    exists|k: int| 0 <= k < edges.len() && #[trigger] succ_of(edges[k], directed, x) == Some(y)
}

/// `p` is a route: a nonempty node sequence whose consecutive nodes are linked.
pub open spec fn is_route(edges: Seq<(usize, usize)>, directed: bool, p: Seq<usize>) -> bool {
    &&& p.len() > 0
    &&& forall|i: int| 0 <= i < p.len() - 1 ==> #[trigger] linked(edges, directed, p[i], p[i + 1])
}

/// Some route leads from `u` to `v`.
pub open spec fn reaches(edges: Seq<(usize, usize)>, directed: bool, u: usize, v: usize) -> bool {
    exists|p: Seq<usize>| #[trigger] is_route(edges, directed, p) && p[0] == u && p.last() == v
}

/// Some route from `u` to `v` passes only through nodes that `marked` does
/// not mark.
pub open spec fn reaches_avoiding(
    edges: Seq<(usize, usize)>,
    directed: bool,
    u: usize,
    v: usize,
    marked: Seq<bool>,
) -> bool {
    exists|p: Seq<usize>| #[trigger] avoiding_route(edges, directed, p, marked) && p[0] == u && p.last() == v
}

/// `p` is a route through nodes that `marked` does not mark.
pub open spec fn avoiding_route(edges: Seq<(usize, usize)>, directed: bool, p: Seq<usize>, marked: Seq<bool>) -> bool {
    &&& is_route(edges, directed, p)
    &&& forall|i: int| 0 <= i < p.len() ==> (#[trigger] p[i]) < marked.len() && !marked[p[i] as int]
}

/// Ignoring direction, being linked is being adjacent.
pub proof fn lemma_linked_undirected(edges: Seq<(usize, usize)>, x: usize, y: usize)
    ensures
        linked(edges, false, x, y) == adjacent(edges, x, y),
{
    if adjacent(edges, x, y) {
        let k = choose|k: int| 0 <= k < edges.len() && #[trigger] touches(edges[k], x, y);
        assert(succ_of(edges[k], false, x) == Some(y));
    }
    if linked(edges, false, x, y) {
        let k = choose|k: int| 0 <= k < edges.len() && #[trigger] succ_of(edges[k], false, x) == Some(y);
        assert(touches(edges[k], x, y));
    }
}

/// Ignoring direction, routes are walks.
pub proof fn lemma_route_walk(edges: Seq<(usize, usize)>, p: Seq<usize>)
    ensures
        is_route(edges, false, p) == is_walk(edges, p),
{
    assert forall|i: int| 0 <= i < p.len() - 1 implies #[trigger] linked(edges, false, p[i], p[i + 1])
        == adjacent(edges, p[i], p[i + 1]) by {
        lemma_linked_undirected(edges, p[i], p[i + 1]);
    }
    if is_route(edges, false, p) {
        assert forall|i: int| 0 <= i < p.len() - 1 implies #[trigger] adjacent(edges, p[i], p[i + 1]) by {
            assert(linked(edges, false, p[i], p[i + 1]));
        }
    }
    if is_walk(edges, p) {
        assert forall|i: int| 0 <= i < p.len() - 1 implies #[trigger] linked(edges, false, p[i], p[i + 1]) by {
            assert(adjacent(edges, p[i], p[i + 1]));
        }
    }
}

/// Ignoring direction, reaching is being reachable.
pub proof fn lemma_reaches_undirected(edges: Seq<(usize, usize)>, u: usize, v: usize)
    ensures
        reaches(edges, false, u, v) == reachable(edges, u, v),
{
    if reaches(edges, false, u, v) {
        let p = choose|p: Seq<usize>| #[trigger] is_route(edges, false, p) && p[0] == u && p.last() == v;
        lemma_route_walk(edges, p);
        assert(walk_between(edges, p, u, v));
    }
    if reachable(edges, u, v) {
        let p = choose|p: Seq<usize>| #[trigger] walk_between(edges, p, u, v);
        lemma_route_walk(edges, p);
        assert(is_route(edges, false, p));
    }
}

/// A single node is a route to itself.
pub proof fn lemma_route_refl(edges: Seq<(usize, usize)>, directed: bool, u: usize)
    ensures
        reaches(edges, directed, u, u),
{
    let p = seq![u];
    assert(is_route(edges, directed, p));
}

/// Routes compose.
pub proof fn lemma_reaches_trans(edges: Seq<(usize, usize)>, directed: bool, u: usize, v: usize, w: usize)
    requires
        reaches(edges, directed, u, v),
        reaches(edges, directed, v, w),
    ensures
        reaches(edges, directed, u, w),
{
    let p = choose|p: Seq<usize>| #[trigger] is_route(edges, directed, p) && p[0] == u && p.last() == v;
    let q = choose|q: Seq<usize>| #[trigger] is_route(edges, directed, q) && q[0] == v && q.last() == w;
    let r = p + q.drop_first();
    assert forall|i: int| 0 <= i < r.len() - 1 implies #[trigger] linked(edges, directed, r[i], r[i + 1]) by {
        if i < p.len() - 1 {
            assert(r[i] == p[i] && r[i + 1] == p[i + 1]);
        } else if i == p.len() - 1 {
            assert(r[i] == v && r[i + 1] == q[1]);
            let z: int = 0;
            assert(linked(edges, directed, q[z], q[z + 1]));
        } else {
            let j = i - p.len() + 1;
            assert(r[i] == q[j] && r[i + 1] == q[j + 1]);
        }
    }
    if q.len() == 1 {
        assert(r =~= p);
    }
    assert(is_route(edges, directed, r));
}

/// Ignoring direction, routes reverse.
pub proof fn lemma_reaches_symmetric(edges: Seq<(usize, usize)>, u: usize, v: usize)
    requires
        reaches(edges, false, u, v),
    ensures
        reaches(edges, false, v, u),
{
    let p = choose|p: Seq<usize>| #[trigger] is_route(edges, false, p) && p[0] == u && p.last() == v;
    let r = p.reverse();
    assert forall|i: int| 0 <= i < r.len() - 1 implies #[trigger] linked(edges, false, r[i], r[i + 1]) by {
        let j = p.len() - 2 - i;
        assert(r[i] == p[j + 1] && r[i + 1] == p[j]);
        assert(linked(edges, false, p[j], p[j + 1]));
        lemma_linked_undirected(edges, p[j], p[j + 1]);
        lemma_linked_undirected(edges, p[j + 1], p[j]);
        let k = choose|k: int| 0 <= k < edges.len() && #[trigger] touches(edges[k], p[j], p[j + 1]);
        assert(touches(edges[k], p[j + 1], p[j]));
    }
    assert(is_route(edges, false, r));
}

/// The invariant of the depth-first loop: `comp` lists the nodes visited so
/// far from `root`, in visit order; `stack` holds the nodes still to pop.
pub open spec fn dfs_inv(
    edges: Seq<(usize, usize)>,
    directed: bool,
    n: nat,
    root: usize,
    marked0: Seq<bool>,
    marked: Seq<bool>,
    comp: Seq<usize>,
    stack: Seq<usize>,
) -> bool {
    &&& marked0.len() == n
    &&& marked.len() == n
    &&& n <= usize::MAX
    &&& root < n
    &&& !marked0[root as int]
    &&& forall|k: int| 0 <= k < edges.len() ==> (#[trigger] edges[k]).0 < n && edges[k].1 < n
    &&& forall|j: int| 0 <= j < comp.len() ==> (#[trigger] comp[j]) < n && !marked0[comp[j] as int]
    &&& forall|i: int, j: int| 0 <= i < j < comp.len() ==> comp[i] != comp[j]
    &&& forall|v: int| 0 <= v < n ==> #[trigger] marked[v] == (marked0[v] || comp.contains(v as usize))
    &&& comp.len() == 0 ==> stack =~= seq![root]
    &&& comp.len() > 0 ==> comp[0] == root
    &&& forall|j: int| 0 <= j < comp.len() ==> reaches_avoiding(edges, directed, root, #[trigger] comp[j], marked0)
    &&& forall|j: int| 0 <= j < stack.len() ==> (#[trigger] stack[j]) < n
        && (marked[stack[j] as int] || reaches_avoiding(edges, directed, root, stack[j], marked0))
    &&& forall|j: int, k: int| 0 <= j < comp.len() && 0 <= k < edges.len()
        && #[trigger] succ_of(edges[k], directed, comp[j]) is Some ==> {
            let y = succ_of(edges[k], directed, comp[j])->0;
            marked[y as int] || stack.contains(y)
        }
}


/// An avoiding route extends by one linked, unmarked node.
proof fn lemma_avoiding_extend(
    edges: Seq<(usize, usize)>, directed: bool, root: usize, x: usize, y: usize, marked0: Seq<bool>,
)
    requires
        reaches_avoiding(edges, directed, root, x, marked0),
        linked(edges, directed, x, y),
        y < marked0.len(),
        !marked0[y as int],
    ensures
        reaches_avoiding(edges, directed, root, y, marked0),
{
    let p = choose|p: Seq<usize>| #[trigger] avoiding_route(edges, directed, p, marked0) && p[0] == root && p.last() == x;
    let q = p.push(y);
    assert forall|i: int| 0 <= i < q.len() - 1 implies #[trigger] linked(edges, directed, q[i], q[i + 1]) by {
        if i < p.len() - 1 {
            assert(q[i] == p[i] && q[i + 1] == p[i + 1]);
        }
    }
    assert forall|i: int| 0 <= i < q.len() implies (#[trigger] q[i]) < marked0.len() && !marked0[q[i] as int] by {
        if i < p.len() {
            assert(q[i] == p[i]);
        }
    }
    assert(avoiding_route(edges, directed, q, marked0));
}

proof fn lemma_dfs_init(edges: Seq<(usize, usize)>, directed: bool, n: nat, root: usize, marked0: Seq<bool>)
    requires
        marked0.len() == n,
        n <= usize::MAX,
        root < n,
        !marked0[root as int],
        forall|k: int| 0 <= k < edges.len() ==> (#[trigger] edges[k]).0 < n && edges[k].1 < n,
    ensures
        dfs_inv(edges, directed, n, root, marked0, marked0, Seq::empty(), seq![root]),
{
    let p = seq![root];
    assert(avoiding_route(edges, directed, p, marked0));
    assert(reaches_avoiding(edges, directed, root, root, marked0));
    let stack = seq![root];
    assert forall|j: int| 0 <= j < stack.len() implies (#[trigger] stack[j]) < n
        && (marked0[stack[j] as int] || reaches_avoiding(edges, directed, root, stack[j], marked0)) by {
        assert(stack[j] == root);
    }
}

proof fn lemma_dfs_pop_marked(
    edges: Seq<(usize, usize)>, directed: bool, n: nat, root: usize, marked0: Seq<bool>,
    marked: Seq<bool>, comp: Seq<usize>, stack: Seq<usize>,
)
    requires
        dfs_inv(edges, directed, n, root, marked0, marked, comp, stack),
        stack.len() > 0,
        marked[stack.last() as int],
    ensures
        dfs_inv(edges, directed, n, root, marked0, marked, comp, stack.drop_last()),
{
    let y = stack.last();
    let s2 = stack.drop_last();
    assert(comp.len() > 0) by {
        if comp.len() == 0 {
            assert(y == root);
            assert(!marked[root as int]);
        }
    }
    assert forall|j: int, k: int| 0 <= j < comp.len() && 0 <= k < edges.len()
        && #[trigger] succ_of(edges[k], directed, comp[j]) is Some implies {
            let z = succ_of(edges[k], directed, comp[j])->0;
            marked[z as int] || s2.contains(z)
        } by {
        let z = succ_of(edges[k], directed, comp[j])->0;
        if !marked[z as int] {
            assert(stack.contains(z));
            let i = choose|i: int| 0 <= i < stack.len() && stack[i] == z;
            assert(i != stack.len() - 1);
            assert(s2[i] == z);
        }
    }
    assert forall|j: int| 0 <= j < s2.len() implies (#[trigger] s2[j]) < n
        && (marked[s2[j] as int] || reaches_avoiding(edges, directed, root, s2[j], marked0)) by {
        assert(s2[j] == stack[j]);
    }
}

proof fn lemma_dfs_visit(
    edges: Seq<(usize, usize)>, directed: bool, n: nat, root: usize, marked0: Seq<bool>,
    marked: Seq<bool>, comp: Seq<usize>, stack: Seq<usize>,
)
    requires
        dfs_inv(edges, directed, n, root, marked0, marked, comp, stack),
        stack.len() > 0,
        !marked[stack.last() as int],
    ensures
        ({
            let y = stack.last();
            let m2 = marked.update(y as int, true);
            let c2 = comp.push(y);
            let s2 = stack.drop_last();
            &&& y < n
            &&& c2.len() <= n
            &&& dfs_visit_inv(edges, directed, n, root, marked0, m2, c2, s2, 0)
        }),
{
    let y = stack.last();
    let m2 = marked.update(y as int, true);
    let c2 = comp.push(y);
    let s2 = stack.drop_last();
    assert(y < n);
    assert(!comp.contains(y));
    assert forall|i: int, j: int| 0 <= i < j < c2.len() implies c2[i] != c2[j] by {
        if j == comp.len() {
            assert(c2[i] == comp[i]);
        }
    }
    assert forall|j: int| 0 <= j < c2.len() implies (#[trigger] c2[j]) < n && !marked0[c2[j] as int] by {
        if j < comp.len() {
            assert(c2[j] == comp[j]);
        }
    }
    lemma_distinct_bounded(c2, n);
    assert forall|v: int| 0 <= v < n implies #[trigger] m2[v] == (marked0[v] || c2.contains(v as usize)) by {
        if v == y {
            assert(c2[comp.len() as int] == y);
        } else {
            assert(marked[v] == (marked0[v] || comp.contains(v as usize)));
            if comp.contains(v as usize) {
                let i = choose|i: int| 0 <= i < comp.len() && comp[i] == v as usize;
                assert(c2[i] == v);
            }
            if c2.contains(v as usize) {
                let i = choose|i: int| 0 <= i < c2.len() && c2[i] == v as usize;
                assert(i < comp.len());
                assert(comp[i] == v);
            }
        }
    }
    assert(comp.len() == 0 ==> y == root);
    assert forall|j: int| 0 <= j < c2.len() implies reaches_avoiding(edges, directed, root, #[trigger] c2[j], marked0) by {
        if j < comp.len() {
            assert(c2[j] == comp[j]);
        }
    }
    assert forall|j: int| 0 <= j < s2.len() implies (#[trigger] s2[j]) < n
        && (m2[s2[j] as int] || reaches_avoiding(edges, directed, root, s2[j], marked0)) by {
        assert(s2[j] == stack[j]);
    }
    assert forall|j: int, k: int| 0 <= j < comp.len() && 0 <= k < edges.len()
        && #[trigger] succ_of(edges[k], directed, c2[j]) is Some implies {
            let z = succ_of(edges[k], directed, c2[j])->0;
            m2[z as int] || s2.contains(z)
        } by {
        assert(c2[j] == comp[j]);
        let z = succ_of(edges[k], directed, comp[j])->0;
        if !m2[z as int] {
            assert(z != y);
            assert(stack.contains(z));
            let i = choose|i: int| 0 <= i < stack.len() && stack[i] == z;
            assert(s2[i] == z);
        }
    }
}

/// The invariant while the successors of the just-visited node (the last of
/// `comp`) are pushed: the edges before `k` have been followed.
pub open spec fn dfs_visit_inv(
    edges: Seq<(usize, usize)>,
    directed: bool,
    n: nat,
    root: usize,
    marked0: Seq<bool>,
    marked: Seq<bool>,
    comp: Seq<usize>,
    stack: Seq<usize>,
    k: int,
) -> bool {
    &&& marked0.len() == n
    &&& marked.len() == n
    &&& n <= usize::MAX
    &&& root < n
    &&& !marked0[root as int]
    &&& 0 <= k <= edges.len()
    &&& comp.len() > 0
    &&& comp[0] == root
    &&& forall|kk: int| 0 <= kk < edges.len() ==> (#[trigger] edges[kk]).0 < n && edges[kk].1 < n
    &&& forall|j: int| 0 <= j < comp.len() ==> (#[trigger] comp[j]) < n && !marked0[comp[j] as int]
    &&& forall|i: int, j: int| 0 <= i < j < comp.len() ==> comp[i] != comp[j]
    &&& forall|v: int| 0 <= v < n ==> #[trigger] marked[v] == (marked0[v] || comp.contains(v as usize))
    &&& forall|j: int| 0 <= j < comp.len() ==> reaches_avoiding(edges, directed, root, #[trigger] comp[j], marked0)
    &&& forall|j: int| 0 <= j < stack.len() ==> (#[trigger] stack[j]) < n
        && (marked[stack[j] as int] || reaches_avoiding(edges, directed, root, stack[j], marked0))
    &&& forall|j: int, kk: int| 0 <= j < comp.len() && 0 <= kk < edges.len()
        && (j < comp.len() - 1 || kk < k)
        && #[trigger] succ_of(edges[kk], directed, comp[j]) is Some ==> {
            let y = succ_of(edges[kk], directed, comp[j])->0;
            marked[y as int] || stack.contains(y)
        }
}

proof fn lemma_dfs_push(
    edges: Seq<(usize, usize)>, directed: bool, n: nat, root: usize, marked0: Seq<bool>,
    marked: Seq<bool>, comp: Seq<usize>, stack: Seq<usize>, k: int,
)
    requires
        dfs_visit_inv(edges, directed, n, root, marked0, marked, comp, stack, k),
        k < edges.len(),
    ensures
        ({
            let x = comp.last();
            match succ_of(edges[k], directed, x) {
                Some(z) => dfs_visit_inv(edges, directed, n, root, marked0, marked, comp, stack.push(z), k + 1),
                None => dfs_visit_inv(edges, directed, n, root, marked0, marked, comp, stack, k + 1),
            }
        }),
{
    let x = comp.last();
    let last = comp.len() - 1;
    match succ_of(edges[k], directed, x) {
        Some(z) => {
            let s2 = stack.push(z);
            assert(linked(edges, directed, x, z));
            assert(z < n);
            if !marked[z as int] {
                assert(reaches_avoiding(edges, directed, root, comp[last], marked0));
                lemma_avoiding_extend(edges, directed, root, x, z, marked0);
            }
            assert forall|j: int| 0 <= j < s2.len() implies (#[trigger] s2[j]) < n
                && (marked[s2[j] as int] || reaches_avoiding(edges, directed, root, s2[j], marked0)) by {
                if j < stack.len() {
                    assert(s2[j] == stack[j]);
                }
            }
            assert forall|j: int, kk: int| 0 <= j < comp.len() && 0 <= kk < edges.len()
                && (j < comp.len() - 1 || kk < k + 1)
                && #[trigger] succ_of(edges[kk], directed, comp[j]) is Some implies {
                    let y = succ_of(edges[kk], directed, comp[j])->0;
                    marked[y as int] || s2.contains(y)
                } by {
                let y = succ_of(edges[kk], directed, comp[j])->0;
                if j == last && kk == k {
                    assert(s2[stack.len() as int] == z);
                } else if !marked[y as int] {
                    assert(stack.contains(y));
                    let i = choose|i: int| 0 <= i < stack.len() && stack[i] == y;
                    assert(s2[i] == y);
                }
            }
        },
        None => {
            assert forall|j: int, kk: int| 0 <= j < comp.len() && 0 <= kk < edges.len()
                && (j < comp.len() - 1 || kk < k + 1)
                && #[trigger] succ_of(edges[kk], directed, comp[j]) is Some implies {
                    let y = succ_of(edges[kk], directed, comp[j])->0;
                    marked[y as int] || stack.contains(y)
                } by {
                if j == last && kk == k {
                    assert(comp[j] == x);
                }
            }
        },
    }
}

proof fn lemma_dfs_visit_done(
    edges: Seq<(usize, usize)>, directed: bool, n: nat, root: usize, marked0: Seq<bool>,
    marked: Seq<bool>, comp: Seq<usize>, stack: Seq<usize>,
)
    requires
        dfs_visit_inv(edges, directed, n, root, marked0, marked, comp, stack, edges.len() as int),
    ensures
        dfs_inv(edges, directed, n, root, marked0, marked, comp, stack),
{
}

proof fn lemma_dfs_final(
    edges: Seq<(usize, usize)>, directed: bool, n: nat, root: usize, marked0: Seq<bool>,
    marked: Seq<bool>, comp: Seq<usize>,
)
    requires
        dfs_inv(edges, directed, n, root, marked0, marked, comp, Seq::empty()),
    ensures
        comp.len() > 0,
        comp[0] == root,
        forall|v: int| 0 <= v < n ==> (comp.contains(v as usize) <==> #[trigger] reaches_avoiding(edges, directed, root, v as usize, marked0)),
{
    assert(comp.len() > 0) by {
        if comp.len() == 0 {
            assert(Seq::<usize>::empty() =~= seq![root]);
            assert(seq![root].len() == 1);
        }
    }
    assert forall|v: int| 0 <= v < n implies (comp.contains(v as usize) <==> #[trigger] reaches_avoiding(edges, directed, root, v as usize, marked0)) by {
        if comp.contains(v as usize) {
            let j = choose|j: int| 0 <= j < comp.len() && comp[j] == v as usize;
            assert(reaches_avoiding(edges, directed, root, comp[j], marked0));
        }
        if reaches_avoiding(edges, directed, root, v as usize, marked0) {
            let p = choose|p: Seq<usize>| #[trigger] avoiding_route(edges, directed, p, marked0) && p[0] == root && p.last() == v as usize;
            lemma_avoiding_route_in_comp(edges, directed, n, root, marked0, marked, comp, p, p.len() - 1);
        }
    }
}

proof fn lemma_avoiding_route_in_comp(
    edges: Seq<(usize, usize)>, directed: bool, n: nat, root: usize, marked0: Seq<bool>,
    marked: Seq<bool>, comp: Seq<usize>, p: Seq<usize>, i: int,
)
    requires
        dfs_inv(edges, directed, n, root, marked0, marked, comp, Seq::empty()),
        comp.len() > 0,
        avoiding_route(edges, directed, p, marked0),
        p[0] == root,
        0 <= i < p.len(),
    ensures
        comp.contains(p[i]),
    decreases i,
{
    if i == 0 {
        assert(comp[0] == root);
    } else {
        lemma_avoiding_route_in_comp(edges, directed, n, root, marked0, marked, comp, p, i - 1);
        let i0 = i - 1;
        assert(linked(edges, directed, p[i0], p[i0 + 1]));
        let k = choose|k: int| 0 <= k < edges.len() && #[trigger] succ_of(edges[k], directed, p[i0]) == Some(p[i0 + 1]);
        let j = choose|j: int| 0 <= j < comp.len() && comp[j] == p[i0];
        assert(succ_of(edges[k], directed, comp[j]) is Some);
        assert(p[i] < n);
        assert(marked[p[i] as int]);
        assert(!marked0[p[i] as int]);
    }
}

/// Depth-first search from `root` with an explicit stack, following edges in
/// their direction when `directed`, in both directions otherwise; nodes
/// already marked in `visited` are not entered. Returns the newly visited
/// nodes in visit order and marks them.
pub fn dfs_collect(topo: &Topology, directed: bool, root: usize, visited: &mut Vec<bool>) -> (comp: Vec<usize>)
    requires
        topo.wf(),
        root < topo.num_nodes,
        old(visited)@.len() == topo.num_nodes,
        !old(visited)@[root as int],
    ensures
        final(visited)@.len() == topo.num_nodes,
        comp@.len() > 0,
        comp@[0] == root,
        forall|i: int, j: int| 0 <= i < j < comp@.len() ==> comp@[i] != comp@[j],
        forall|j: int| 0 <= j < comp@.len() ==> (#[trigger] comp@[j]) < topo.num_nodes && !old(visited)@[comp@[j] as int],
        forall|v: int| 0 <= v < topo.num_nodes ==> #[trigger] final(visited)@[v] == (old(visited)@[v] || comp@.contains(v as usize)),
        forall|v: int| 0 <= v < topo.num_nodes ==> (comp@.contains(v as usize)
            <==> #[trigger] reaches_avoiding(topo.edges@, directed, root, v as usize, old(visited)@)),
{
    let n = topo.num_nodes;
    let ghost edges = topo.edges@;
    let ghost marked0 = visited@;
    let mut comp: Vec<usize> = Vec::new();
    let mut stack: Vec<usize> = Vec::new();
    stack.push(root);
    proof {
        lemma_dfs_init(edges, directed, n as nat, root, marked0);
        assert(stack@ =~= seq![root]);
    }
    while stack.len() > 0
        invariant
            n == topo.num_nodes,
            edges == topo.edges@,
            topo.wf(),
            dfs_inv(edges, directed, n as nat, root, marked0, visited@, comp@, stack@),
        decreases n - comp@.len(), stack@.len(),
    {
        proof {
            lemma_distinct_bounded(comp@, n as nat);
        }
        let ghost s0 = stack@;
        let current = stack.pop().unwrap();
        proof {
            assert(stack@ =~= s0.drop_last());
        }
        if visited[current] {
            proof {
                lemma_dfs_pop_marked(edges, directed, n as nat, root, marked0, visited@, comp@, s0);
            }
        } else {
            proof {
                lemma_dfs_visit(edges, directed, n as nat, root, marked0, visited@, comp@, s0);
            }
            visited.set(current, true);
            comp.push(current);
            let mut k: usize = 0;
            while k < topo.edges.len()
                invariant
                    n == topo.num_nodes,
                    edges == topo.edges@,
                    topo.wf(),
                    comp@.len() <= n,
                    current == comp@.last(),
                    dfs_visit_inv(edges, directed, n as nat, root, marked0, visited@, comp@, stack@, k as int),
                decreases edges.len() - k,
            {
                let (a, b) = topo.edges[k];
                proof {
                    lemma_dfs_push(edges, directed, n as nat, root, marked0, visited@, comp@, stack@, k as int);
                }
                if a == current {
                    stack.push(b);
                } else if !directed && b == current {
                    stack.push(a);
                }
                k = k + 1;
            }
            proof {
                lemma_dfs_visit_done(edges, directed, n as nat, root, marked0, visited@, comp@, stack@);
            }
        }
    }
    proof {
        assert(stack@ =~= Seq::<usize>::empty());
        lemma_dfs_final(edges, directed, n as nat, root, marked0, visited@, comp@);
    }
    comp
}

} // verus!
