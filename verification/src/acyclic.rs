//! Directed acyclicity, and how adding one edge can close a cycle.
use vstd::prelude::*;
use crate::reach::{succ_of, linked, is_route, reaches, lemma_route_refl, lemma_reaches_trans};

verus! {

/// No directed cycle: the head of no edge reaches the edge's tail.
pub open spec fn acyclic(edges: Seq<(usize, usize)>) -> bool {
    forall|k: int| 0 <= k < edges.len() ==> !reaches(edges, true, (#[trigger] edges[k]).1, edges[k].0)
}

/// Two linked nodes reach each other in one step.
pub proof fn lemma_linked_reaches(edges: Seq<(usize, usize)>, directed: bool, x: usize, y: usize)
    requires
        linked(edges, directed, x, y),
    ensures
        reaches(edges, directed, x, y),
{
    let p = seq![x, y];
    assert forall|i: int| 0 <= i < p.len() - 1 implies #[trigger] linked(edges, directed, p[i], p[i + 1]) by {
        assert(i == 0);
    }
    assert(is_route(edges, directed, p));
}

/// Routes survive the addition of an edge.
pub proof fn lemma_reaches_push(edges: Seq<(usize, usize)>, e: (usize, usize), directed: bool, x: usize, y: usize)
    requires
        reaches(edges, directed, x, y),
    ensures
        reaches(edges.push(e), directed, x, y),
{
    let big = edges.push(e);
    let p = choose|p: Seq<usize>| #[trigger] is_route(edges, directed, p) && p[0] == x && p.last() == y;
    assert forall|i: int| 0 <= i < p.len() - 1 implies #[trigger] linked(big, directed, p[i], p[i + 1]) by {
        assert(linked(edges, directed, p[i], p[i + 1]));
        let k = choose|k: int| 0 <= k < edges.len() && #[trigger] succ_of(edges[k], directed, p[i]) == Some(p[i + 1]);
        assert(big[k] == edges[k]);
    }
    assert(is_route(big, directed, p));
}

/// Along a directed route of `edges` plus `from -> to`, every node is reached
/// from the start in `edges` alone, or the start reaches `from` and `to`
/// reaches the node.
proof fn lemma_route_prefix(edges: Seq<(usize, usize)>, from: usize, to: usize, p: Seq<usize>, i: int)
    requires
        is_route(edges.push((from, to)), true, p),
        0 <= i < p.len(),
    ensures
        reaches(edges, true, p[0], p[i])
            || (reaches(edges, true, p[0], from) && reaches(edges, true, to, p[i])),
    decreases i,
{
    let big = edges.push((from, to));
    if i == 0 {
        lemma_route_refl(edges, true, p[0]);
    } else {
        let j = i - 1;
        lemma_route_prefix(edges, from, to, p, j);
        assert(linked(big, true, p[j], p[j + 1]));
        let k = choose|k: int| 0 <= k < big.len() && #[trigger] succ_of(big[k], true, p[j]) == Some(p[j + 1]);
        if k < edges.len() {
            assert(big[k] == edges[k]);
            assert(succ_of(edges[k], true, p[j]) == Some(p[j + 1]));
            assert(linked(edges, true, p[j], p[j + 1]));
            lemma_linked_reaches(edges, true, p[j], p[j + 1]);
            if reaches(edges, true, p[0], p[j]) {
                lemma_reaches_trans(edges, true, p[0], p[j], p[i]);
            } else {
                lemma_reaches_trans(edges, true, to, p[j], p[i]);
            }
        } else {
            assert(big[k] == (from, to));
            assert(p[j] == from && p[i] == to);
            lemma_route_refl(edges, true, to);
        }
    }
}

/// Reaching in `edges` plus `from -> to`: reaching in `edges` alone, or
/// reaching `from` and going on from `to`.
pub proof fn lemma_reaches_after_push(edges: Seq<(usize, usize)>, from: usize, to: usize, x: usize, y: usize)
    requires
        reaches(edges.push((from, to)), true, x, y),
    ensures
        reaches(edges, true, x, y) || (reaches(edges, true, x, from) && reaches(edges, true, to, y)),
{
    let p = choose|p: Seq<usize>| #[trigger] is_route(edges.push((from, to)), true, p) && p[0] == x && p.last() == y;
    lemma_route_prefix(edges, from, to, p, p.len() - 1);
}

/// An acyclic graph stays acyclic when the edge `from -> to` is added exactly
/// when `to` does not already reach `from`.
pub proof fn law_acyclic_push(edges: Seq<(usize, usize)>, from: usize, to: usize)
    requires
        acyclic(edges),
    ensures
        acyclic(edges.push((from, to))) <==> !reaches(edges, true, to, from),
{
    let big = edges.push((from, to));
    let last = edges.len() as int;
    if reaches(edges, true, to, from) {
        lemma_reaches_push(edges, (from, to), true, to, from);
        assert(big[last] == (from, to));
        assert(!acyclic(big));
    } else {
        assert forall|k: int| 0 <= k < big.len() implies !reaches(big, true, (#[trigger] big[k]).1, big[k].0) by {
            let (a, b) = big[k];
            if reaches(big, true, b, a) {
                lemma_reaches_after_push(edges, from, to, b, a);
                if k < last {
                    assert(big[k] == edges[k]);
                    assert(!reaches(edges, true, edges[k].1, edges[k].0));
                    // b reaches from, to reaches a, and a -> b is an edge.
                    assert(succ_of(edges[k], true, a) == Some(b));
                    assert(linked(edges, true, a, b));
                    lemma_linked_reaches(edges, true, a, b);
                    lemma_reaches_trans(edges, true, to, a, b);
                    lemma_reaches_trans(edges, true, to, b, from);
                } else {
                    assert(a == from && b == to);
                }
            }
        }
    }
}

} // verus!
