//! The adjacency of an entity graph: undirected neighbour lists of nodes
//! keyed by `(table type, row id)`.
use vstd::prelude::*;
use std::collections::HashMap;

verus! {

/// A node key as one number: the table type above the row id.
pub open spec fn key_code(k: (usize, u64)) -> u128 {
    ((k.0 as int) * 0x1_0000_0000_0000_0000int + (k.1 as int)) as u128
}

proof fn lemma_key_code_range(k: (usize, u64))
    ensures
        (k.0 as int) * 0x1_0000_0000_0000_0000int + (k.1 as int) <= u128::MAX,
{
    let x = k.0 as int;
    assert(x <= 0xffff_ffff_ffff_ffffint);
    assert(x * 0x1_0000_0000_0000_0000int <= 0xffff_ffff_ffff_ffffint * 0x1_0000_0000_0000_0000int) by (nonlinear_arith)
        requires x <= 0xffff_ffff_ffff_ffffint;
}

/// Different keys have different codes.
proof fn lemma_key_code_injective(a: (usize, u64), b: (usize, u64))
    requires
        key_code(a) == key_code(b),
    ensures
        a == b,
{
    lemma_key_code_range(a);
    lemma_key_code_range(b);
    let x = a.0 as int;
    let y = b.0 as int;
    let p = a.1 as int;
    let q = b.1 as int;
    assert(x * 0x1_0000_0000_0000_0000int + p == y * 0x1_0000_0000_0000_0000int + q);
    assert(x == y) by (nonlinear_arith)
        requires
            x * 0x1_0000_0000_0000_0000int + p == y * 0x1_0000_0000_0000_0000int + q,
            0 <= p < 0x1_0000_0000_0000_0000int,
            0 <= q < 0x1_0000_0000_0000_0000int,
            0 <= x,
            0 <= y;
}

fn code_of(k: (usize, u64)) -> (r: u128)
    ensures
        r == key_code(k),
{
    proof {
        lemma_key_code_range(k);
    }
    (k.0 as u128) * 0x1_0000_0000_0000_0000u128 + (k.1 as u128)
}

/// The neighbour list of `a` in `m`, empty if `a` has none.
pub open spec fn list_of(m: Map<(usize, u64), Seq<(usize, u64)>>, a: (usize, u64)) -> Seq<(usize, u64)> {
    if m.contains_key(a) { m[a] } else { Seq::empty() }
}

/// `m` with `b` appended to the neighbour list of `a`.
pub open spec fn with_neighbor(m: Map<(usize, u64), Seq<(usize, u64)>>, a: (usize, u64), b: (usize, u64))
    -> Map<(usize, u64), Seq<(usize, u64)>> {
    m.insert(a, list_of(m, a).push(b))
}

/// Joining `a` and `b` makes each a neighbour of the other and leaves the
/// lists of all other nodes as they were.
pub proof fn law_join_both_ways(m: Map<(usize, u64), Seq<(usize, u64)>>, a: (usize, u64), b: (usize, u64))
    ensures
        ({
            let j = with_neighbor(with_neighbor(m, a, b), b, a);
            &&& list_of(j, a).contains(b)
            &&& list_of(j, b).contains(a)
            &&& forall|k: (usize, u64)| k != a && k != b ==> #[trigger] list_of(j, k) == list_of(m, k)
        }),
{
    let m1 = with_neighbor(m, a, b);
    let j = with_neighbor(m1, b, a);
    assert(list_of(j, b).last() == a);
    assert(list_of(j, b).contains(a)) by {
        assert(list_of(j, b)[list_of(j, b).len() - 1] == a);
    }
    if a == b {
        assert(list_of(j, a)[list_of(j, a).len() - 1] == b);
    } else {
        assert(list_of(j, a) == list_of(m1, a));
        assert(list_of(m1, a)[list_of(m1, a).len() - 1] == b);
    }
}

/// Undirected neighbour lists of nodes keyed by `(table type, row id)`.
#[derive(Debug, Clone)]
pub struct EntityAdjacency {
    edges: HashMap<u128, Vec<(usize, u64)>>,
}

impl EntityAdjacency {
    /// The neighbour list of every node that has one.
    pub closed spec fn neighbors(&self) -> Map<(usize, u64), Seq<(usize, u64)>> {
        Map::new(|k: (usize, u64)| self.edges@.contains_key(key_code(k)), |k: (usize, u64)| self.edges@[key_code(k)]@)
    }

    /// No node has a neighbour list.
    pub fn new() -> (r: Self)
        ensures
            r.neighbors() == Map::<(usize, u64), Seq<(usize, u64)>>::empty(),
    {
        let r = EntityAdjacency { edges: HashMap::new() };
        proof {
            assert(r.neighbors() =~= Map::<(usize, u64), Seq<(usize, u64)>>::empty());
        }
        r
    }

    /// Gives the node `key` an empty neighbour list if it has none.
    pub fn add_node_key(&mut self, key: (usize, u64))
        ensures
            final(self).neighbors() == if old(self).neighbors().contains_key(key) {
                old(self).neighbors()
            } else {
                old(self).neighbors().insert(key, Seq::empty())
            },
    {
        let c = code_of(key);
        if !self.edges.contains_key(&c) {
            let ghost before = self.edges@;
            self.edges.insert(c, Vec::new());
            proof {
                let expected = old(self).neighbors().insert(key, Seq::empty());
                assert forall|k: (usize, u64)| #![trigger key_code(k)] self.neighbors().contains_key(k) == expected.contains_key(k)
                    && (self.neighbors().contains_key(k) ==> self.neighbors()[k] == expected[k]) by {
                    if k != key && key_code(k) == c {
                        lemma_key_code_injective(k, key);
                    }
                }
                assert(self.neighbors() =~= expected);
            }
        } else {
            proof {
                assert(self.neighbors() =~= old(self).neighbors());
            }
        }
    }

    fn append(&mut self, a: (usize, u64), b: (usize, u64))
        ensures
            final(self).neighbors() == with_neighbor(old(self).neighbors(), a, b),
    {
        let c = code_of(a);
        let removed = self.edges.remove(&c);
        let mut list = match removed {
            Some(l) => l,
            None => Vec::new(),
        };
        proof {
            assert(list@ == list_of(old(self).neighbors(), a));
        }
        list.push(b);
        self.edges.insert(c, list);
        proof {
            let expected = with_neighbor(old(self).neighbors(), a, b);
            assert forall|k: (usize, u64)| #![trigger key_code(k)] self.neighbors().contains_key(k) == expected.contains_key(k)
                && (self.neighbors().contains_key(k) ==> self.neighbors()[k] == expected[k]) by {
                if k != a && key_code(k) == c {
                    lemma_key_code_injective(k, a);
                }
            }
            assert(self.neighbors() =~= expected);
        }
    }

    /// Joins `from` and `to` both ways: `to` is appended to the list of
    /// `from`, then `from` to the list of `to`.
    pub fn add_edge(&mut self, from: (usize, u64), to: (usize, u64))
        ensures
            final(self).neighbors() == with_neighbor(with_neighbor(old(self).neighbors(), from, to), to, from),
    {
        self.append(from, to);
        self.append(to, from);
    }

    /// The neighbour list of `key`, if it has one.
    pub fn get_neighbors(&self, key: (usize, u64)) -> (r: Option<&Vec<(usize, u64)>>)
        ensures
            r is Some <==> self.neighbors().contains_key(key),
            r matches Some(l) ==> l@ == self.neighbors()[key],
    {
        let c = code_of(key);
        self.edges.get(&c)
    }
}

} // verus!
