//! Edge collection of the adaptive sampler: once the important nodes are
//! chosen and numbered, the edges of the graph among them.
use vstd::prelude::*;

verus! {

/// No node occurs twice in `order`.
pub open spec fn no_repeats(order: Seq<usize>) -> bool {
    forall|i: int, j: int| 0 <= i < j < order.len() ==> order[i] != order[j]
}

/// The position of `x` in `order`.
pub open spec fn slot_of(order: Seq<usize>, x: usize) -> int {
    choose|i: int| 0 <= i < order.len() && order[i] == x
}

/// The edges, in order, that touch `order[k]` and whose ends both stand in
/// `order` at positions up to `k`, each as the pair of positions of its ends.
pub open spec fn edges_closed_at(order: Seq<usize>, k: int, edges: Seq<(usize, usize)>) -> Seq<(usize, usize)>
    decreases edges.len(),
{
    if edges.len() == 0 {
        Seq::empty()
    } else {
        let prev = edges_closed_at(order, k, edges.drop_last());
        let e = edges.last();
        let seen = order.take(k + 1);
        if (e.0 == order[k] || e.1 == order[k]) && seen.contains(e.0) && seen.contains(e.1) {
            prev.push((slot_of(order, e.0) as usize, slot_of(order, e.1) as usize))
        } else {
            prev
        }
    }
}

/// The edges closed by the first `upto` nodes of `order`, node after node.
pub open spec fn edges_among(order: Seq<usize>, upto: nat, edges: Seq<(usize, usize)>) -> Seq<(usize, usize)>
    decreases upto,
{
    if upto == 0 {
        Seq::empty()
    } else {
        edges_among(order, (upto - 1) as nat, edges) + edges_closed_at(order, upto - 1, edges)
    }
}

/// Where `x` stands among the first `limit` nodes of `order`, if it does.
fn slot_before(order: &Vec<usize>, x: usize, limit: usize) -> (r: Option<usize>)
    requires
        limit <= order@.len(),
        no_repeats(order@),
    ensures
        match r {
            Some(i) => i < limit && order@[i as int] == x && slot_of(order@, x) == i,
            None => !order@.take(limit as int).contains(x),
        },
{
    let mut i: usize = 0;
    while i < limit
        invariant
            limit <= order@.len(),
            no_repeats(order@),
            i <= limit,
            forall|j: int| 0 <= j < i ==> order@[j] != x,
        decreases limit - i,
    {
        if order[i] == x {
            proof {
                let s = slot_of(order@, x);
                assert(0 <= s < order@.len() && order@[s] == x);
                if s != i {
                    if s < i {
                        assert(order@[s] != order@[i as int]);
                    } else {
                        assert(order@[i as int] != order@[s]);
                    }
                }
            }
            return Some(i);
        }
        i = i + 1;
    }
    proof {
        assert forall|j: int| 0 <= j < order@.take(limit as int).len() implies order@.take(limit as int)[j] != x by {
            assert(order@.take(limit as int)[j] == order@[j]);
        }
    }
    None
}

/// The edges of the graph among the chosen nodes. Node after node of
/// `order`, each edge that touches the node and whose other end is the node
/// itself or came earlier in `order` is added as the pair of positions of
/// its ends, in the order of `edges`.
pub fn adaptive_edges(order: &Vec<usize>, edges: &Vec<(usize, usize)>) -> (r: Vec<(usize, usize)>)
    requires
        no_repeats(order@),
    ensures
        r@ == edges_among(order@, order@.len(), edges@),
{
    let mut out: Vec<(usize, usize)> = Vec::new();
    let mut k: usize = 0;
    while k < order.len()
        invariant
            no_repeats(order@),
            k <= order@.len(),
            out@ == edges_among(order@, k as nat, edges@),
        decreases order@.len() - k,
    {
        let node = order[k];
        let limit = k + 1;
        let ghost base = out@;
        let mut j: usize = 0;
        proof {
            assert(edges@.take(0) =~= Seq::<(usize, usize)>::empty());
            assert(base + edges_closed_at(order@, k as int, edges@.take(0)) =~= base);
        }
        while j < edges.len()
            invariant
                no_repeats(order@),
                k < order@.len(),
                node == order@[k as int],
                limit == k + 1,
                j <= edges@.len(),
                out@ == base + edges_closed_at(order@, k as int, edges@.take(j as int)),
            decreases edges@.len() - j,
        {
            let e = edges[j];
            let ghost before = out@;
            proof {
                assert(edges@.take(j + 1).drop_last() =~= edges@.take(j as int));
                assert(edges@.take(j + 1).last() == e);
            }
            if e.0 == node || e.1 == node {
                let a = slot_before(order, e.0, limit);
                let b = slot_before(order, e.1, limit);
                match (a, b) {
                    (Some(x), Some(y)) => {
                        out.push((x, y));
                        proof {
                            assert(order@.take(k + 1).contains(e.0)) by {
                                assert(order@.take(k + 1)[x as int] == e.0);
                            }
                            assert(order@.take(k + 1).contains(e.1)) by {
                                assert(order@.take(k + 1)[y as int] == e.1);
                            }
                            assert(out@ =~= base + edges_closed_at(order@, k as int, edges@.take(j + 1)));
                        }
                    },
                    _ => {
                        proof {
                            assert(out@ =~= base + edges_closed_at(order@, k as int, edges@.take(j + 1)));
                        }
                    },
                }
            } else {
                proof {
                    assert(out@ =~= base + edges_closed_at(order@, k as int, edges@.take(j + 1)));
                }
            }
            j = j + 1;
        }
        proof {
            assert(edges@.take(j as int) =~= edges@);
        }
        k = k + 1;
    }
    out
}

} // verus!
