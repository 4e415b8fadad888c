//! Graph algorithms that work node by node: greedy coloring and connected
//! components.
use vstd::prelude::*;
use crate::topology::{Topology, lemma_distinct_bounded};
use crate::reach::succ_of;
use crate::connectivity::{connected_components, components_of};

verus! {

/// Node-by-node graph algorithms.
pub struct ParallelAlgorithms;

/// Some edge joins `v` to an earlier node `u` (`u < v`) of color `c`.
pub open spec fn color_taken(edges: Seq<(usize, usize)>, colors: Seq<usize>, v: usize, c: usize) -> bool {
    exists|k: int| 0 <= k < edges.len() && #[trigger] succ_of(edges[k], false, v) is Some
        && succ_of(edges[k], false, v)->0 < v && colors[succ_of(edges[k], false, v)->0 as int] == c
}

/// `colors[v]` is the smallest color that no earlier neighbour of `v` has:
/// the greedy coloring of the nodes in increasing order.
pub open spec fn greedy_color_at(edges: Seq<(usize, usize)>, colors: Seq<usize>, v: usize) -> bool {
    &&& !color_taken(edges, colors, v, colors[v as int])
    &&& forall|c: usize| c < colors[v as int] ==> #[trigger] color_taken(edges, colors, v, c)
}

fn taken(topo: &Topology, colors: &Vec<usize>, v: usize, c: usize) -> (r: bool)
    requires
        topo.wf(),
        v <= colors@.len(),
        v < topo.num_nodes,
    ensures
        r == color_taken(topo.edges@, colors@, v, c),
{
    let mut k: usize = 0;
    while k < topo.edges.len()
        invariant
            topo.wf(),
            v <= colors@.len(),
            k <= topo.edges@.len(),
            forall|j: int| 0 <= j < k ==> !(#[trigger] succ_of(topo.edges@[j], false, v) is Some
                && succ_of(topo.edges@[j], false, v)->0 < v
                && colors@[succ_of(topo.edges@[j], false, v)->0 as int] == c),
        decreases topo.edges@.len() - k,
    {
        let (a, b) = topo.edges[k];
        let u = if a == v { Some(b) } else if b == v { Some(a) } else { None };
        match u {
            Some(u) => {
                if u < v && colors[u] == c {
                    assert(succ_of(topo.edges@[k as int], false, v) == Some(u));
                    return true;
                }
            },
            None => {},
        }
        k = k + 1;
    }
    false
}

/// The colors below `c` are all taken at `v`, so at least `c` edges touch `v`.
proof fn lemma_taken_bounded(edges: Seq<(usize, usize)>, colors: Seq<usize>, v: usize, c: nat)
    requires
        edges.len() <= usize::MAX,
        c <= usize::MAX + 1,
        forall|d: usize| d < c ==> #[trigger] color_taken(edges, colors, v, d),
    ensures
        c <= edges.len(),
{
    let w = Seq::new(c, |d: int| choose|k: int| 0 <= k < edges.len() && #[trigger] succ_of(edges[k], false, v) is Some
        && succ_of(edges[k], false, v)->0 < v && colors[succ_of(edges[k], false, v)->0 as int] == d as usize);
    assert forall|i: int| 0 <= i < c implies 0 <= #[trigger] w[i] < edges.len()
        && colors[succ_of(edges[w[i]], false, v)->0 as int] == i as usize by {
        assert(color_taken(edges, colors, v, i as usize));
    }
    let ws = w.map_values(|k: int| k as usize);
    assert forall|i: int, j: int| 0 <= i < j < ws.len() implies ws[i] != ws[j] by {
        assert(0 <= w[i] < edges.len());
        assert(0 <= w[j] < edges.len());
        assert(ws[i] == w[i] as usize && ws[j] == w[j] as usize);
        if ws[i] == ws[j] {
            assert(w[i] == w[j]);
            assert(i as usize == j as usize);
        }
    }
    assert forall|i: int| 0 <= i < ws.len() implies ws[i] < edges.len() by {
        assert(0 <= w[i] < edges.len());
    }
    lemma_distinct_bounded(ws, edges.len());
}

impl ParallelAlgorithms {
    /// The connected components, ignoring edge direction: the nodes are swept
    /// in order and each unvisited one starts a depth-first search.
    pub fn parallel_connected_components(topo: &Topology) -> (comps: Vec<Vec<usize>>)
        requires
            topo.wf(),
        ensures
            components_of(topo.edges@, topo.num_nodes as nat, comps@.map_values(|c: Vec<usize>| c@)),
    {
        connected_components(topo)
    }

    /// Greedy coloring: the nodes in increasing order each take the smallest
    /// color that no already colored neighbour has.
    pub fn parallel_graph_coloring(topo: &Topology) -> (colors: Vec<usize>)
        requires
            topo.wf(),
        ensures
            colors@.len() == topo.num_nodes,
            forall|v: usize| v < topo.num_nodes ==> #[trigger] greedy_color_at(topo.edges@, colors@, v),
            forall|v: int| 0 <= v < topo.num_nodes ==> #[trigger] colors@[v] <= topo.edges@.len(),
    {
        let n = topo.num_nodes;
        let m = topo.edges.len();
        let mut colors: Vec<usize> = Vec::new();
        let mut v: usize = 0;
        while v < n
            invariant
                m == topo.edges@.len(),
                topo.wf(),
                n == topo.num_nodes,
                v <= n,
                colors@.len() == v,
                forall|x: usize| x < v ==> #[trigger] greedy_color_at(topo.edges@, colors@, x),
                forall|x: int| 0 <= x < v ==> #[trigger] colors@[x] <= topo.edges@.len(),
            decreases n - v,
        {
            let mut c: usize = 0;
            while taken(topo, &colors, v, c)
                invariant
                    m == topo.edges@.len(),
                    topo.wf(),
                    n == topo.num_nodes,
                    v < n,
                    colors@.len() == v,
                    c <= topo.edges@.len(),
                    forall|d: usize| d < c ==> #[trigger] color_taken(topo.edges@, colors@, v, d),
                decreases topo.edges@.len() - c,
            {
                proof {
                    assert forall|d: usize| d < c + 1 implies #[trigger] color_taken(topo.edges@, colors@, v, d) by {
                        if d < c {
                            assert(color_taken(topo.edges@, colors@, v, d));
                        }
                    }
                    lemma_taken_bounded(topo.edges@, colors@, v, (c + 1) as nat);
                }
                c = c + 1;
            }
            let ghost before = colors@;
            colors.push(c);
            proof {
                let after = colors@;
                assert forall|xu: usize| xu < v + 1 implies #[trigger] greedy_color_at(topo.edges@, after, xu) by {
                    let x = xu as int;
                    // the colors of nodes below x are the same before and after
                    assert forall|d: usize| #[trigger] color_taken(topo.edges@, after, xu, d)
                        == color_taken(topo.edges@, if x < v { before } else { before }, xu, d) by {
                        if color_taken(topo.edges@, after, xu, d) {
                            let k = choose|k: int| 0 <= k < topo.edges@.len() && #[trigger] succ_of(topo.edges@[k], false, xu) is Some
                                && succ_of(topo.edges@[k], false, xu)->0 < xu
                                && after[succ_of(topo.edges@[k], false, xu)->0 as int] == d;
                            assert(before[succ_of(topo.edges@[k], false, xu)->0 as int] == d);
                        }
                        if color_taken(topo.edges@, before, xu, d) {
                            let k = choose|k: int| 0 <= k < topo.edges@.len() && #[trigger] succ_of(topo.edges@[k], false, xu) is Some
                                && succ_of(topo.edges@[k], false, xu)->0 < xu
                                && before[succ_of(topo.edges@[k], false, xu)->0 as int] == d;
                            assert(after[succ_of(topo.edges@[k], false, xu)->0 as int] == d);
                        }
                    }
                    if x < v {
                        assert(after[x] == before[x]);
                        assert(greedy_color_at(topo.edges@, before, xu));
                    } else {
                        assert(after[x] == c);
                    }
                }
            }
            v = v + 1;
        }
        colors
    }
}

/// Greedy coloring is proper: the two ends of every edge that is not a loop
/// get different colors.
pub proof fn law_greedy_coloring_proper(edges: Seq<(usize, usize)>, colors: Seq<usize>, k: int)
    requires
        0 <= k < edges.len(),
        edges[k].0 != edges[k].1,
        edges[k].0 < colors.len(),
        edges[k].1 < colors.len(),
        forall|v: usize| v < colors.len() ==> #[trigger] greedy_color_at(edges, colors, v),
    ensures
        colors[edges[k].0 as int] != colors[edges[k].1 as int],
{
    let (a, b) = edges[k];
    if a < b {
        assert(greedy_color_at(edges, colors, b));
        assert(succ_of(edges[k], false, b) == Some(a));
        if colors[a as int] == colors[b as int] {
            assert(color_taken(edges, colors, b, colors[b as int]));
        }
    } else {
        assert(greedy_color_at(edges, colors, a));
        assert(succ_of(edges[k], false, a) == Some(b));
        if colors[a as int] == colors[b as int] {
            assert(color_taken(edges, colors, a, colors[a as int]));
        }
    }
}

} // verus!
